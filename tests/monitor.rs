use memtop::{
    is_pid, list_processes_from, parse_process_status, read_process, sort_by_memory,
    top_processes, MemInfo, MemInfoError, ProcessRecord, ScannedEntry,
};

fn record(pid: &str, name: &str, resident_kb: u64) -> ProcessRecord {
    ProcessRecord { pid: pid.to_string(), name: name.to_string(), resident_kb }
}

fn entry(name: &str, comm: &str, status: Option<&str>) -> ScannedEntry {
    ScannedEntry {
        name: name.to_string(),
        comm: comm.to_string(),
        status: status.map(|s| s.to_string()),
    }
}

fn memories(rows: &[ProcessRecord]) -> Vec<u64> {
    rows.iter().map(|r| r.resident_kb).collect()
}

#[test]
fn test_parse_meminfo() {
    let input = "\
MemTotal:       16384256 kB
SomeOtherValue:  123567 kB
MemAvailable:    2345678 kB";

    let meminfo = MemInfo::parse_from_str(input).unwrap();
    assert_eq!(meminfo.total, 16384256);
    assert_eq!(meminfo.available, 2345678);
}

#[test]
fn test_parse_process_status() {
    let input = "Name: myproc\nVmRSS:   1234 kB\n";
    let mem = parse_process_status(input);
    assert_eq!(mem, Some(1234));
}

#[test]
fn meminfo_example_with_used() {
    let input = "MemTotal:       16384256 kB\nMemAvailable:    2345678 kB";
    let m = MemInfo::parse_from_str(input).unwrap();
    assert_eq!(m, MemInfo { total: 16384256, available: 2345678 });
    assert_eq!(m.used(), 14038578);
}

#[test]
fn meminfo_order_and_other_lines_do_not_matter() {
    let input = "Buffers: 10 kB\nMemAvailable: 7 kB\nCached: 3 kB\nMemTotal: 20 kB\n";
    let m = MemInfo::parse_from_str(input).unwrap();
    assert_eq!(m, MemInfo { total: 20, available: 7 });
}

#[test]
fn meminfo_value_without_unit_or_with_tab() {
    let m = MemInfo::parse_from_str("MemTotal:\t100\tkB\r\nMemAvailable: 40").unwrap();
    assert_eq!(m, MemInfo { total: 100, available: 40 });
}

#[test]
fn meminfo_last_duplicate_wins() {
    let m = MemInfo::parse_from_str("MemTotal: 1 kB\nMemAvailable: 2 kB\nMemTotal: 3 kB\n").unwrap();
    assert_eq!(m, MemInfo { total: 3, available: 2 });
}

#[test]
fn meminfo_missing_field() {
    assert_eq!(
        MemInfo::parse_from_str("MemTotal: 100 kB\nMemFree: 5 kB\n"),
        Err(MemInfoError::MissingField)
    );
    assert_eq!(MemInfo::parse_from_str(""), Err(MemInfoError::MissingField));
}

#[test]
fn meminfo_invalid_value() {
    assert_eq!(
        MemInfo::parse_from_str("MemTotal: lots kB\nMemAvailable: 5 kB\n"),
        Err(MemInfoError::InvalidValue)
    );
    assert_eq!(
        MemInfo::parse_from_str("MemTotal: 10 kB\nMemAvailable:\n"),
        Err(MemInfoError::InvalidValue)
    );
}

#[test]
fn meminfo_largest_value_and_overflow() {
    let m = MemInfo::parse_from_str("MemTotal: 18446744073709551615 kB\nMemAvailable: +0 kB")
        .unwrap();
    assert_eq!(m, MemInfo { total: u64::MAX, available: 0 });
    assert_eq!(m.used(), u64::MAX);
    assert_eq!(
        MemInfo::parse_from_str("MemTotal: 18446744073709551616 kB\nMemAvailable: 1 kB"),
        Err(MemInfoError::InvalidValue)
    );
}

#[test]
fn used_saturates_at_zero() {
    let m = MemInfo { total: 5, available: 9 };
    assert_eq!(m.used(), 0);
}

#[test]
fn status_whitespace_variations() {
    assert_eq!(parse_process_status("VmRSS:\t\t 42\n"), Some(42));
    assert_eq!(parse_process_status("Name:\tx\nVmRSS: 7 kB   \nVmSwap: 0 kB"), Some(7));
}

#[test]
fn status_without_rss_line() {
    assert_eq!(parse_process_status("Name: kthreadd\nState: S\n"), None);
    assert_eq!(parse_process_status(""), None);
}

#[test]
fn status_first_rss_line_decides() {
    assert_eq!(parse_process_status("VmRSS: 5 kB\nVmRSS: 9 kB\n"), Some(5));
    assert_eq!(parse_process_status("VmRSS: none\nVmRSS: 9 kB\n"), None);
    assert_eq!(parse_process_status("VmRSS:12 kB\n"), None);
}

#[test]
fn pid_names() {
    assert!(is_pid("1"));
    assert!(is_pid("40213"));
    assert!(!is_pid("self"));
    assert!(!is_pid("net"));
    assert!(!is_pid("12a"));
    assert!(!is_pid(""));
}

#[test]
fn read_process_trims_name() {
    let r = read_process("  bash\n", Some("VmRSS: 300 kB\n"));
    assert_eq!(r, Some(("bash".to_string(), 300)));
}

#[test]
fn read_process_needs_memory_not_name() {
    assert_eq!(read_process("bash\n", None), None);
    assert_eq!(read_process("bash\n", Some("Name: bash\n")), None);
    assert_eq!(read_process("", Some("VmRSS: 8 kB")), Some((String::new(), 8)));
}

#[test]
fn list_skips_non_numeric_and_unreadable() {
    let entries = vec![
        entry("1", "init\n", Some("VmRSS: 100 kB\n")),
        entry("self", "top\n", Some("VmRSS: 50 kB\n")),
        entry("22", "gone\n", None),
        entry("23", "", Some("VmRSS: 7 kB\n")),
        entry("meminfo", "", None),
        entry("24", "kworker\n", Some("Name: kworker\n")),
    ];
    let out = list_processes_from(&entries);
    assert_eq!(out.len(), 2);
    assert_eq!(out[0].pid, "1");
    assert_eq!(out[0].name, "init");
    assert_eq!(out[0].resident_kb, 100);
    assert_eq!(out[1].pid, "23");
    assert_eq!(out[1].name, "");
    assert_eq!(out[1].resident_kb, 7);
}

#[test]
fn top_two_of_three() {
    let procs = vec![record("1", "a", 500), record("2", "b", 1500), record("3", "c", 1000)];
    let top = top_processes(procs, 2);
    assert_eq!(memories(&top), vec![1500, 1000]);
    assert_eq!(top[0].pid, "2");
    assert_eq!(top[1].pid, "3");
}

#[test]
fn top_zero_and_more_than_available() {
    let procs = vec![record("1", "a", 5), record("2", "b", 6)];
    assert!(top_processes(procs, 0).is_empty());
    let procs = vec![record("1", "a", 5), record("2", "b", 6)];
    assert_eq!(memories(&top_processes(procs, 5)), vec![6, 5]);
    assert!(top_processes(Vec::new(), 5).is_empty());
}

#[test]
fn sort_is_stable_for_equal_memory() {
    let procs = vec![
        record("1", "a", 10),
        record("2", "b", 30),
        record("3", "c", 10),
        record("4", "d", 30),
        record("5", "e", 20),
    ];
    let sorted = sort_by_memory(procs);
    let pids: Vec<&str> = sorted.iter().map(|r| r.pid.as_str()).collect();
    assert_eq!(pids, vec!["2", "4", "5", "1", "3"]);
}
