use plafond::driver::{collect_pids_for_uid, inspect_pid_list, inspect_pid_tree, inspect_single_pid, sort_pids};
use plafond::evaluate::{classify, evaluate, EvaluationResult, Severity};
use plafond::record::{GatherError, ProcSnapshot, ProcStats};
use plafond::tree::{contruct_ptree_for_ppid, InspectError, ProcEntry};

fn limits_text() -> String {
    "Limit                     Soft Limit           Hard Limit           Units\n\
     Max open files            1024                 4096                 files\n\
     Max address space         500000               1000000              bytes\n\
     Max processes             30                   60                   processes\n"
        .to_string()
}

fn status_text(ppid: u32, uid: u32) -> String {
    format!(
        "Name:\tworker\nPPid:\t{}\nUid:\t{}\t{}\t{}\t{}\nVmSize:\t  10 kB\nVmLck:\t  1 kB\nVmRSS:\t  4 kB\nThreads:\t3\n",
        ppid, uid, uid, uid, uid
    )
}

fn snapshot(ppid: u32, uid: u32) -> ProcSnapshot {
    ProcSnapshot {
        comm: Some("worker\n".to_string()),
        cmdline: Some("worker\u{0}--run\u{0}".to_string()),
        fd_count: Some(7),
        limits: Some(limits_text()),
        status: Some(status_text(ppid, uid)),
    }
}

fn entry(pid: u32, ppid: u32, uid: u32) -> ProcEntry {
    ProcEntry { pid, snap: snapshot(ppid, uid) }
}

#[test]
fn gather_complete_snapshot() {
    let r = ProcStats::gather(10, &snapshot(1, 1000)).unwrap();
    assert_eq!(r.pid, 10);
    assert_eq!(r.name, "worker");
    assert_eq!(r.cmd, "worker --run");
    assert_eq!(r.open_fds, 7);
    assert_eq!(r.fd_soft_limit, 1024);
    assert_eq!(r.fd_hard_limit, 4096);
    assert_eq!(r.mem_soft_limit, Some(500000));
    assert_eq!(r.mem_hard_limit, Some(1000000));
    assert_eq!(r.threads_soft_limit, Some(30));
    assert_eq!(r.threads_hard_limit, Some(60));
    assert_eq!(r.vm_size, 10240);
    assert_eq!(r.vm_locked, 1024);
    assert_eq!(r.vm_rss, 4096);
    assert_eq!(r.threads, 3);
    assert_eq!(r.rlimits.len(), 3);
}

#[test]
fn gather_missing_fd_dir_degrades_to_zero() {
    let mut s = snapshot(1, 0);
    s.fd_count = None;
    let r = ProcStats::gather(10, &s).unwrap();
    assert_eq!(r.open_fds, 0);
}

#[test]
fn gather_fd_count_is_the_observed_count() {
    let mut s = snapshot(1, 0);
    s.fd_count = Some(123);
    let r = ProcStats::gather(10, &s).unwrap();
    assert_eq!(r.open_fds, 123);
}

#[test]
fn gather_identity_failure_is_fatal() {
    let mut s = snapshot(1, 0);
    s.comm = None;
    assert_eq!(ProcStats::gather(10, &s).unwrap_err(), GatherError::IdentityUnreadable);
    let mut s = snapshot(1, 0);
    s.cmdline = None;
    assert_eq!(ProcStats::gather(10, &s).unwrap_err(), GatherError::IdentityUnreadable);
}

#[test]
fn gather_limits_failure_is_fatal() {
    let mut s = snapshot(1, 0);
    s.limits = None;
    assert_eq!(ProcStats::gather(10, &s).unwrap_err(), GatherError::LimitsUnreadable);
}

#[test]
fn gather_status_failure_is_fatal() {
    let mut s = snapshot(1, 0);
    s.status = None;
    assert_eq!(ProcStats::gather(10, &s).unwrap_err(), GatherError::StatusUnreadable);
}

#[test]
fn classify_thresholds() {
    assert_eq!(classify(900, Some(1000)), Severity::Critical);
    assert_eq!(classify(750, Some(1000)), Severity::Warning);
    assert_eq!(classify(100, Some(1000)), Severity::Okay);
    assert_eq!(classify(100, None), Severity::Unknown);
    assert_eq!(classify(u64::MAX, None), Severity::Unknown);
    assert_eq!(classify(700, Some(1000)), Severity::Warning);
    assert_eq!(classify(699, Some(1000)), Severity::Okay);
}

#[test]
fn evaluate_uses_hard_limits() {
    let mut r = ProcStats::gather(10, &snapshot(1, 0)).unwrap();
    r.open_fds = 4000;
    r.vm_size = 750000;
    let e = evaluate(&r);
    assert_eq!(e.fds, Severity::Critical);
    assert_eq!(e.mem, Severity::Warning);
    assert_eq!(e.threads, Severity::Okay);
    r.threads_hard_limit = None;
    assert_eq!(evaluate(&r).threads, Severity::Unknown);
}

#[test]
fn tree_of_leaf_is_singleton() {
    let table = vec![entry(1, 0, 0), entry(5, 1, 0), entry(9, 5, 0)];
    let ids = contruct_ptree_for_ppid(&table, 9).unwrap();
    assert_eq!(ids, vec![9]);
}

#[test]
fn tree_terminates_on_self_referential_edge() {
    let table = vec![entry(5, 5, 0)];
    let ids = contruct_ptree_for_ppid(&table, 5).unwrap();
    assert_eq!(ids, vec![5]);
}

#[test]
fn tree_terminates_on_cycle() {
    let table = vec![entry(2, 3, 0), entry(3, 2, 0)];
    let mut ids = contruct_ptree_for_ppid(&table, 2).unwrap();
    ids.sort_unstable();
    assert_eq!(ids, vec![2, 3]);
}

#[test]
fn tree_collects_transitive_descendants() {
    let table = vec![
        entry(1, 0, 0),
        entry(2, 1, 0),
        entry(3, 2, 0),
        entry(4, 9, 0),
        entry(9, 1, 0),
    ];
    let mut ids = contruct_ptree_for_ppid(&table, 1).unwrap();
    ids.sort_unstable();
    assert_eq!(ids, vec![1, 2, 3, 4, 9]);
    let mut sub = contruct_ptree_for_ppid(&table, 2).unwrap();
    sub.sort_unstable();
    assert_eq!(sub, vec![2, 3]);
}

#[test]
fn tree_missing_root_fails() {
    let table = vec![entry(1, 0, 0)];
    assert_eq!(contruct_ptree_for_ppid(&table, 77).unwrap_err(), InspectError::TargetNotFound);
}

#[test]
fn tree_child_without_status_is_omitted() {
    let mut orphan = entry(4, 1, 0);
    orphan.snap.status = None;
    let table = vec![entry(1, 0, 0), orphan];
    let ids = contruct_ptree_for_ppid(&table, 1).unwrap();
    assert_eq!(ids, vec![1]);
}

#[test]
fn batch_gather_marks_exited_pid_and_keeps_the_rest() {
    let table = vec![entry(1, 0, 0), entry(2, 1, 0)];
    let report = inspect_pid_list(&table, &vec![3, 1, 2]);
    assert_eq!(report.len(), 3);
    assert_eq!(report[0].pid, 1);
    assert_eq!(report[1].pid, 2);
    assert_eq!(report[2].pid, 3);
    assert!(report[0].stats.is_ok());
    assert!(report[1].stats.is_ok());
    assert_eq!(report[2].stats.as_ref().unwrap_err(), &GatherError::IdentityUnreadable);
    let unknown = EvaluationResult {
        fds: Severity::Unknown,
        mem: Severity::Unknown,
        threads: Severity::Unknown,
    };
    assert_eq!(report[2].eval, unknown);
}

#[test]
fn inspection_is_idempotent_on_unchanged_table() {
    let table = vec![entry(1, 0, 0), entry(2, 1, 0)];
    let first = inspect_pid_list(&table, &vec![1, 2, 6]);
    let second = inspect_pid_list(&table, &vec![1, 2, 6]);
    assert_eq!(first.len(), second.len());
    for (a, b) in first.iter().zip(second.iter()) {
        assert_eq!(a.pid, b.pid);
        assert_eq!(a.eval, b.eval);
        assert_eq!(a.stats.is_ok(), b.stats.is_ok());
    }
}

#[test]
fn single_pid_inspection() {
    let table = vec![entry(1, 0, 0)];
    let found = inspect_single_pid(&table, 1);
    assert_eq!(found.pid, 1);
    assert!(found.stats.is_ok());
    let gone = inspect_single_pid(&table, 8);
    assert_eq!(gone.pid, 8);
    assert_eq!(gone.stats.unwrap_err(), GatherError::IdentityUnreadable);
}

#[test]
fn tree_inspection_reports_whole_subtree_sorted() {
    let table = vec![entry(9, 1, 0), entry(1, 0, 0), entry(2, 1, 0)];
    let report = inspect_pid_tree(&table, 1).unwrap();
    let pids: Vec<u32> = report.iter().map(|e| e.pid).collect();
    assert_eq!(pids, vec![1, 2, 9]);
    assert!(report.iter().all(|e| e.stats.is_ok()));
    assert_eq!(
        inspect_pid_tree(&table, 42).unwrap_err(),
        InspectError::TargetNotFound
    );
}

#[test]
fn collect_pids_by_owner() {
    let table = vec![entry(1, 0, 0), entry(2, 1, 1000), entry(3, 1, 1000), entry(4, 1, 7)];
    assert_eq!(collect_pids_for_uid(&table, 1000), vec![2, 3]);
    assert_eq!(collect_pids_for_uid(&table, 7), vec![4]);
    assert_eq!(collect_pids_for_uid(&table, 555), Vec::<u32>::new());
}

#[test]
fn sort_pids_orders_ascending() {
    assert_eq!(sort_pids(&vec![5, 1, 4, 1, 3]), vec![1, 1, 3, 4, 5]);
    assert_eq!(sort_pids(&Vec::new()), Vec::<u32>::new());
}
