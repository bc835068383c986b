use plafond::limits::parse_limit;
use plafond::record::ProcStats;
use plafond::status::{extract_kb, parse_ppid, parse_uid};
use plafond::text::{parse_dec_u32, parse_dec_u64};

#[test]
fn limits_basic_line() {
    let text = "Limit                     Soft Limit           Hard Limit           Units\n\
                Max open files            1024                 4096                 files\n";
    let d = ProcStats::parse_limits(text);
    assert_eq!(d.fd_limits, (1024, 4096));
    assert_eq!(d.rlimits.len(), 1);
    assert_eq!(d.rlimits[0].name, "Max open files");
    assert_eq!(d.rlimits[0].soft, 1024);
    assert_eq!(d.rlimits[0].hard, 4096);
}

#[test]
fn limits_unlimited_hard_is_max() {
    let text = "Limit                     Soft Limit           Hard Limit           Units\n\
                Max open files            1024                 unlimited            files\n";
    let d = ProcStats::parse_limits(text);
    assert_eq!(d.fd_limits, (1024, u64::MAX));
    assert_ne!(d.fd_limits.1, 0);
}

#[test]
fn limits_multiword_names() {
    let text = "Limit                     Soft Limit           Hard Limit           Units\n\
                Max address space         100                  200                  bytes\n\
                Max processes             30                   60                   processes\n";
    let d = ProcStats::parse_limits(text);
    assert_eq!(d.mem_limits, Some((100, 200)));
    assert_eq!(d.thread_limits, Some((30, 60)));
    assert_eq!(d.fd_limits, (0, 0));
    assert_eq!(d.rlimits.len(), 2);
    assert_eq!(d.rlimits[0].name, "Max address space");
    assert_eq!(d.rlimits[1].name, "Max processes");
}

#[test]
fn limits_missing_lines_are_absent_not_zero() {
    let text = "Limit                     Soft Limit           Hard Limit           Units\n\
                Max open files            1024                 4096                 files\n";
    let d = ProcStats::parse_limits(text);
    assert_eq!(d.mem_limits, None);
    assert_eq!(d.thread_limits, None);
}

#[test]
fn limits_header_line_is_skipped() {
    let text = "Max open files            7                    9                    files\n\
                Max open files            1024                 4096                 files\n";
    let d = ProcStats::parse_limits(text);
    // the first line is the header, whatever it happens to parse as
    assert_eq!(d.fd_limits, (1024, 4096));
    assert_eq!(d.rlimits.len(), 1);
}

#[test]
fn limits_short_line_is_skipped() {
    let text = "Limit                     Soft Limit           Hard Limit           Units\n\
                Max stuff 12\n\
                Max open files            1024                 4096                 files\n";
    let d = ProcStats::parse_limits(text);
    assert_eq!(d.fd_limits, (1024, 4096));
    assert_eq!(d.rlimits.len(), 1);
}

#[test]
fn limits_malformed_number_defaults_to_zero() {
    let text = "Limit                     Soft Limit           Hard Limit           Units\n\
                Max open files            10x24                4096                 files\n";
    let d = ProcStats::parse_limits(text);
    assert_eq!(d.fd_limits, (0, 4096));
}

#[test]
fn limits_empty_text() {
    let d = ProcStats::parse_limits("");
    assert_eq!(d.rlimits.len(), 0);
    assert_eq!(d.fd_limits, (0, 0));
    assert_eq!(d.mem_limits, None);
    assert_eq!(d.thread_limits, None);
}

#[test]
fn parse_limit_cases() {
    assert_eq!(parse_limit("unlimited"), u64::MAX);
    assert_eq!(parse_limit("1024"), 1024);
    assert_eq!(parse_limit("0"), 0);
    assert_eq!(parse_limit("12x"), 0);
    assert_eq!(parse_limit(""), 0);
    assert_eq!(parse_limit("18446744073709551615"), u64::MAX);
    assert_eq!(parse_limit("18446744073709551616"), 0);
}

#[test]
fn status_vmrss_in_bytes() {
    let d = ProcStats::parse_status("VmRSS:\t   2048 kB");
    assert_eq!(d.vm_rss, 2097152);
}

#[test]
fn status_all_fields() {
    let text = "Name:\tbash\nVmSize:\t  10 kB\nVmLck:\t  1 kB\nVmRSS:\t  4 kB\nThreads:\t3\nPPid:\t42\n";
    let d = ProcStats::parse_status(text);
    assert_eq!(d.vm_size, 10240);
    assert_eq!(d.vm_locked, 1024);
    assert_eq!(d.vm_rss, 4096);
    assert_eq!(d.threads, 3);
    assert_eq!(parse_ppid(text), 42);
}

#[test]
fn status_missing_keys_default_to_zero() {
    let d = ProcStats::parse_status("Name:\tbash\n");
    assert_eq!(d.vm_rss, 0);
    assert_eq!(d.vm_size, 0);
    assert_eq!(d.vm_locked, 0);
    assert_eq!(d.threads, 0);
}

#[test]
fn status_uid_takes_first_value() {
    let text = "Uid:\t1000\t1001\t1002\t1003\n";
    assert_eq!(parse_uid(text), 1000);
}

#[test]
fn extract_kb_cases() {
    assert_eq!(extract_kb("VmRSS:\t   2048 kB"), 2097152);
    assert_eq!(extract_kb("VmRSS:"), 0);
    assert_eq!(extract_kb("VmRSS:\tjunk kB"), 0);
    // kibibyte counts too large for the byte unit saturate
    assert_eq!(extract_kb("VmRSS:\t18446744073709551615 kB"), u64::MAX);
}

#[test]
fn read_name_trims() {
    assert_eq!(ProcStats::read_name("  bash\n"), "bash");
    assert_eq!(ProcStats::read_name("bash"), "bash");
    assert_eq!(ProcStats::read_name("   \n"), "");
}

#[test]
fn read_cmdline_joins_nul_separated_argv() {
    assert_eq!(ProcStats::read_cmdline("/bin/sh\u{0}-c\u{0}ls\u{0}"), "/bin/sh -c ls");
    assert_eq!(ProcStats::read_cmdline(""), "");
    assert_eq!(ProcStats::read_cmdline("\u{0}\u{0}"), "");
}

#[test]
fn decimal_parsing_bounds() {
    assert_eq!(parse_dec_u64("18446744073709551615"), u64::MAX);
    assert_eq!(parse_dec_u64("18446744073709551616"), 0);
    assert_eq!(parse_dec_u32("4294967295"), u32::MAX);
    assert_eq!(parse_dec_u32("4294967296"), 0);
    assert_eq!(parse_dec_u64("007"), 7);
}
