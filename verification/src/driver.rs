//! Orchestrates one full inspection: resolve the target pid set
//! (a direct list, or a tree closure), gather a record per pid while
//! tolerating per-pid failures, evaluate each outcome, and order the
//! report by ascending pid for determinism.

use vstd::prelude::*;
use crate::evaluate::{EvaluationResult, eval_of_outcome, evaluate_outcome};
use crate::record::{
    ProcStats, ProcSnapshot, GatherError, gather_post, gather_ok, snapshot_complete,
};
use crate::status::status_u32;
use crate::text::lines_of;
use crate::tree::{ProcEntry, InspectError, has_pid, descendant, contruct_ptree_for_ppid};

verus! {

/// One element of a report: the pid, the record or the failure reason
/// (a failed pid is reported, not omitted), and the evaluation.
#[derive(Debug)]
pub struct ReportEntry {
    pub pid: u32,
    pub stats: Result<ProcStats, GatherError>,
    pub eval: EvaluationResult,
}

/// The snapshot of the first enumerated entry with the given pid.
pub open spec fn lookup_snap(t: Seq<ProcEntry>, pid: u32) -> Option<ProcSnapshot>
    decreases t.len(),
{
    if t.len() == 0 {
        None
    } else if t[0].pid == pid {
        Some(t[0].snap)
    } else {
        lookup_snap(t.drop_first(), pid)
    }
}

/// What one report element must be for a given table and pid: the
/// gathered record for an enumerated pid, an identity failure for one
/// that is gone, and the evaluation following the outcome.
pub open spec fn entry_ok(t: Seq<ProcEntry>, pid: u32, e: ReportEntry) -> bool {
    &&& e.pid == pid
    &&& match lookup_snap(t, pid) {
        Some(snap) => gather_post(pid, snap, e.stats),
        None => e.stats is Err && e.stats->Err_0 == GatherError::IdentityUnreadable,
    }
    &&& e.eval == eval_of_outcome(e.stats)
}

proof fn lemma_lookup_skip(t: Seq<ProcEntry>, pid: u32, j: int)
    requires
        0 <= j <= t.len(),
        forall|k: int| 0 <= k < j ==> t[k].pid != pid,
    ensures
        lookup_snap(t, pid) == lookup_snap(t.skip(j), pid),
    decreases j,
{
    if j == 0 {
        assert(t.skip(0) =~= t);
    } else {
        assert(t[0].pid != pid);
        assert(t.drop_first().skip(j - 1) =~= t.skip(j));
        lemma_lookup_skip(t.drop_first(), pid, j - 1);
    }
}

/// Inspects one pid against the enumeration snapshot: a record where
/// the pid is visible and gatherable, a failure element otherwise.
#[verifier::loop_isolation(false)]
pub fn inspect_single_pid(table: &Vec<ProcEntry>, pid: u32) -> (e: ReportEntry)
    ensures
        entry_ok(table@, pid, e),
{
    let ghost t = table@;
    let mut j: usize = 0;
    while j < table.len()
        invariant
            0 <= j <= t.len(),
            forall|k: int| 0 <= k < j ==> t[k].pid != pid,
        decreases t.len() - j,
    {
        if table[j].pid == pid {
            proof {
                lemma_lookup_skip(t, pid, j as int);
                assert(t.skip(j as int)[0] == t[j as int]);
            }
            let stats = ProcStats::gather(pid, &table[j].snap);
            let eval = evaluate_outcome(&stats);
            return ReportEntry { pid, stats, eval };
        }
        j += 1;
    }
    proof {
        lemma_lookup_skip(t, pid, t.len() as int);
        assert(t.skip(t.len() as int) =~= Seq::<ProcEntry>::empty());
    }
    let stats: Result<ProcStats, GatherError> = Err(GatherError::IdentityUnreadable);
    let eval = evaluate_outcome(&stats);
    ReportEntry { pid, stats, eval }
}

pub open spec fn sorted_asc(s: Seq<u32>) -> bool {
    forall|a: int, b: int| 0 <= a < b < s.len() ==> s[a] <= s[b]
}

/// Sorts a pid list ascending by repeated ordered insertion; the
/// result is a permutation of the input.
#[verifier::loop_isolation(false)]
pub fn sort_pids(pids: &Vec<u32>) -> (r: Vec<u32>)
    ensures
        sorted_asc(r@),
        r@.to_multiset() == pids@.to_multiset(),
        r@.len() == pids@.len(),
{
    let mut out: Vec<u32> = Vec::new();
    let mut k: usize = 0;
    proof {
        assert(out@ =~= pids@.take(0));
    }
    while k < pids.len()
        invariant
            0 <= k <= pids@.len(),
            out@.len() == k,
            sorted_asc(out@),
            out@.to_multiset() == pids@.take(k as int).to_multiset(),
        decreases pids@.len() - k,
    {
        let x = pids[k];
        let mut m: usize = 0;
        while m < out.len() && out[m] <= x
            invariant
                0 <= m <= out@.len(),
                forall|a: int| 0 <= a < m ==> out@[a] <= x,
            decreases out@.len() - m,
        {
            m += 1;
        }
        let ghost old_out = out@;
        out.insert(m, x);
        proof {
            broadcast use vstd::seq_lib::group_to_multiset_ensures;

            old_out.insert_ensures(m as int, x);
            assert(out@.to_multiset() == old_out.to_multiset().insert(x));
            assert(pids@.take(k as int).push(x) =~= pids@.take(k + 1));
            assert(pids@.take(k + 1).to_multiset() == pids@.take(
                k as int,
            ).to_multiset().insert(x));
            assert forall|a: int, b: int| 0 <= a < b < out@.len() implies out@[a] <= out@[b] by {
                if b < m {
                    assert(out@[a] == old_out[a] && out@[b] == old_out[b]);
                } else if a < m && b == m {
                    assert(out@[a] == old_out[a]);
                } else if a < m {
                    assert(out@[a] == old_out[a] && out@[b] == old_out[b - 1]);
                    assert(old_out[b - 1] >= old_out[m as int]);
                } else if a == m {
                    assert(out@[b] == old_out[b - 1]);
                    assert(old_out[b - 1] >= old_out[m as int]);
                } else {
                    assert(out@[a] == old_out[a - 1] && out@[b] == old_out[b - 1]);
                }
            }
        }
        k += 1;
    }
    proof {
        assert(pids@.take(pids@.len() as int) =~= pids@);
    }
    out
}

pub open spec fn pids_of(s: Seq<ReportEntry>) -> Seq<u32> {
    s.map_values(|e: ReportEntry| e.pid)
}

/// Gathers and evaluates every requested pid independently, one
/// report element per requested pid, ordered by ascending pid; a pid
/// that exited before the read appears as a failure element, and the
/// rest of the batch is unaffected.
#[verifier::loop_isolation(false)]
pub fn inspect_pid_list(table: &Vec<ProcEntry>, pids: &Vec<u32>) -> (r: Vec<ReportEntry>)
    ensures
        r@.len() == pids@.len(),
        sorted_asc(pids_of(r@)),
        pids_of(r@).to_multiset() == pids@.to_multiset(),
        forall|k: int| 0 <= k < r@.len() ==> entry_ok(table@, (#[trigger] r@[k]).pid, r@[k]),
{
    let sorted = sort_pids(pids);
    let mut out: Vec<ReportEntry> = Vec::new();
    let mut k: usize = 0;
    proof {
        assert(pids_of(out@) =~= sorted@.take(0));
    }
    while k < sorted.len()
        invariant
            0 <= k <= sorted@.len(),
            out@.len() == k,
            pids_of(out@) == sorted@.take(k as int),
            forall|m: int|
                0 <= m < out@.len() ==> entry_ok(table@, (#[trigger] out@[m]).pid, out@[m]),
        decreases sorted@.len() - k,
    {
        let e = inspect_single_pid(table, sorted[k]);
        proof {
            assert(pids_of(out@.push(e)) =~= pids_of(out@).push(e.pid));
            assert(sorted@.take(k as int).push(sorted@[k as int]) =~= sorted@.take(k + 1));
        }
        out.push(e);
        k += 1;
    }
    proof {
        assert(sorted@.take(sorted@.len() as int) =~= sorted@);
    }
    out
}

/// Inspects a root and all its transitive descendants: the tree
/// closure is taken first, then the same batch gather runs over it.
/// Fails exactly when the root is not in the enumeration.
pub fn inspect_pid_tree(table: &Vec<ProcEntry>, root: u32) -> (r: Result<
    Vec<ReportEntry>,
    InspectError,
>)
    ensures
        r is Ok <==> has_pid(table@, root),
        r is Err ==> r->Err_0 == InspectError::TargetNotFound,
        r is Ok ==> sorted_asc(pids_of((r->Ok_0)@)),
        r is Ok ==> pids_of((r->Ok_0)@).no_duplicates(),
        r is Ok ==> forall|p: u32|
            pids_of((r->Ok_0)@).contains(p) <==> descendant(table@, root, p),
        r is Ok ==> forall|k: int|
            0 <= k < (r->Ok_0)@.len() ==> entry_ok(
                table@,
                (#[trigger] (r->Ok_0)@[k]).pid,
                (r->Ok_0)@[k],
            ),
{
    let ids = match contruct_ptree_for_ppid(table, root) {
        Ok(v) => v,
        Err(e) => {
            return Err(e);
        },
    };
    let entries = inspect_pid_list(table, &ids);
    proof {
        broadcast use vstd::seq_lib::group_to_multiset_ensures;

        ids@.lemma_multiset_has_no_duplicates();
        pids_of(entries@).lemma_multiset_has_no_duplicates_conv();
        assert forall|p: u32| pids_of(entries@).contains(p) <==> descendant(
            table@,
            root,
            p,
        ) by {
            assert(pids_of(entries@).contains(p) <==> pids_of(entries@).to_multiset().count(p)
                > 0);
            assert(ids@.contains(p) <==> ids@.to_multiset().count(p) > 0);
        }
    }
    Ok(entries)
}

/// The real user id an entry's status text records, if any.
pub open spec fn entry_uid(e: ProcEntry) -> Option<u32> {
    match e.snap.status {
        Some(st) => Some(status_u32(lines_of(st@), "Uid:"@)),
        None => None::<u32>,
    }
}

/// The pids of the entries owned by the given user, in enumeration
/// order.
pub open spec fn uid_pids(t: Seq<ProcEntry>, uid: u32) -> Seq<u32>
    decreases t.len(),
{
    if t.len() == 0 {
        Seq::empty()
    } else {
        let rest = uid_pids(t.drop_last(), uid);
        if entry_uid(t.last()) == Some(uid) {
            rest.push(t.last().pid)
        } else {
            rest
        }
    }
}

/// Selects the pids whose status text records the given real user id.
#[verifier::loop_isolation(false)]
pub fn collect_pids_for_uid(table: &Vec<ProcEntry>, uid: u32) -> (r: Vec<u32>)
    ensures
        r@ == uid_pids(table@, uid),
{
    let ghost t = table@;
    let mut out: Vec<u32> = Vec::new();
    let mut k: usize = 0;
    proof {
        assert(t.take(0) =~= Seq::<ProcEntry>::empty());
    }
    while k < table.len()
        invariant
            0 <= k <= t.len(),
            out@ == uid_pids(t.take(k as int), uid),
        decreases t.len() - k,
    {
        proof {
            assert(t.take(k + 1).drop_last() =~= t.take(k as int));
            assert(t.take(k + 1).last() == t[k as int]);
        }
        let owned = match &table[k].snap.status {
            Some(st) => crate::status::parse_uid(st.as_str()) == uid,
            None => false,
        };
        if owned {
            out.push(table[k].pid);
        }
        k += 1;
    }
    proof {
        assert(t.take(t.len() as int) =~= t);
    }
    out
}

/// Running the same inspection twice against an unchanged process
/// table yields identical evaluations: a report element is determined
/// by the table text alone, so nothing ambient can change the verdict.
pub proof fn lemma_inspection_deterministic(
    t: Seq<ProcEntry>,
    pid: u32,
    e1: ReportEntry,
    e2: ReportEntry,
)
    requires
        entry_ok(t, pid, e1),
        entry_ok(t, pid, e2),
    ensures
        e1.eval == e2.eval,
        e1.stats is Ok <==> e2.stats is Ok,
{
    match lookup_snap(t, pid) {
        Some(snap) => {
            if snapshot_complete(snap) {
                let s1 = e1.stats->Ok_0;
                let s2 = e2.stats->Ok_0;
                assert(gather_ok(pid, snap, s1));
                assert(gather_ok(pid, snap, s2));
            }
        },
        None => {},
    }
}

} // verus!
