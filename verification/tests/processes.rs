use memwatch::memory::Percent;
use memwatch::processes::{parse_status, top_by_rss, ProcessMemory};

fn as_percent(p: Option<Percent>) -> Option<f64> {
    p.map(|p| (p.part as f64 / p.whole as f64) * 100.0)
}

#[test]
fn parses_proc_status_memory_fields() {
    let status = "\
Name:\tpostgres
Umask:\t0022
State:\tS (sleeping)
Pid:\t4242
Uid:\t1000\t1000\t1000\t1000
VmRSS:\t  123456 kB
";

    let process = parse_status(status).unwrap();

    assert_eq!(process.pid, 4242);
    assert_eq!(process.name, "postgres");
    assert_eq!(process.uid, Some(1000));
    assert_eq!(process.rss_bytes, 123456 * 1024);
}

#[test]
fn sorts_and_limits_top_rss_processes() {
    let processes = vec![
        ProcessMemory::new(1, "small".to_string(), None, 10),
        ProcessMemory::new(2, "large".to_string(), Some(1000), 80),
        ProcessMemory::new(3, "medium".to_string(), Some(1000), 40),
    ];

    let top = top_by_rss(processes, 200, 2);

    assert_eq!(top.len(), 2);
    assert_eq!(top[0].pid, 2);
    assert_eq!(as_percent(top[0].rss_percent), Some(40.0));
    assert_eq!(top[1].pid, 3);
    assert_eq!(as_percent(top[1].rss_percent), Some(20.0));
}

#[test]
fn status_without_rss_is_not_a_process() {
    assert!(parse_status("Name:\tkthreadd\nPid:\t2\n").is_none());
}

#[test]
fn status_with_empty_uid_keeps_the_process() {
    let p = parse_status("Name:\tx\nPid:\t7\nUid:\nVmRSS:\t8 kB\n").unwrap();
    assert_eq!(p, ProcessMemory::new(7, "x".to_string(), None, 8192));
    let q = parse_status("Name:\tx\nPid:\t3\nUid:\t\nVmRSS:\t1 kB\n").unwrap();
    assert_eq!((q.pid, q.uid, q.rss_bytes), (3, None, 1024));
}

#[test]
fn status_with_unreadable_uid_has_no_uid() {
    let p = parse_status("Name:\tx\nPid:\t3\nUid:\tabc\nVmRSS:\t1 kB\n").unwrap();
    assert_eq!(p.uid, None);
    assert_eq!(p.rss_percent, None);
}

#[test]
fn ties_on_rss_go_by_pid_then_input_order() {
    let processes = vec![
        ProcessMemory::new(9, "a".to_string(), None, 50),
        ProcessMemory::new(4, "b".to_string(), None, 50),
        ProcessMemory::new(4, "c".to_string(), None, 50),
        ProcessMemory::new(1, "d".to_string(), None, 60),
    ];
    let top = top_by_rss(processes, 0, 10);
    let names: Vec<&str> = top.iter().map(|p| p.name.as_str()).collect();
    assert_eq!(names, vec!["d", "b", "c", "a"]);
    assert!(top.iter().all(|p| p.rss_percent.is_none()));
}

#[test]
fn zero_limit_keeps_nothing() {
    let top = top_by_rss(vec![ProcessMemory::new(1, "a".to_string(), None, 1)], 10, 0);
    assert!(top.is_empty());
}

#[test]
fn top_rows_come_from_the_input() {
    let processes = vec![
        ProcessMemory::new(5, "a".to_string(), None, 30),
        ProcessMemory::new(6, "b".to_string(), Some(1), 30),
        ProcessMemory::new(7, "c".to_string(), None, 50),
    ];
    let top = top_by_rss(processes.clone(), 100, 2);
    for row in &top {
        let mut plain = row.clone();
        plain.rss_percent = None;
        assert!(processes.contains(&plain));
    }
    assert_eq!(top.iter().map(|p| p.pid).collect::<Vec<_>>(), vec![7, 5]);
}
