use rscan::config::Config;
use rscan::coordinator::{dispatch, report, scan};
use rscan::order::{finish, merge, sort_by_port, suppress_closed};
use rscan::result::{PortStatus, ScanResult};
use rscan::result_set::{JoinError, ResultSet};
use rscan::scan::scan_range;
use std::cell::RefCell;

fn config(host: &str, start: u16, end: u16, threads: u32, no_closed: bool, sort: bool) -> Config {
    Config::new(String::from(host), start, end, threads, 250, no_closed, sort, false).unwrap()
}

fn every_third(_host: &str, port: u16, _timeout: u64) -> PortStatus {
    PortStatus::classify(port % 3 == 0)
}

fn only_8001(_host: &str, port: u16, _timeout: u64) -> PortStatus {
    PortStatus::classify(port == 8001)
}

fn silent(_result: &ScanResult) {
}

fn lines(results: &Vec<ScanResult>) -> Vec<String> {
    let mut out = Vec::new();
    for r in results.iter() {
        out.push(format!("{} {} {}", r.host, r.port, r.port_status.as_str()));
    }
    out
}

fn ports(results: &Vec<ScanResult>) -> Vec<u16> {
    let mut out = Vec::new();
    for r in results.iter() {
        out.push(r.port);
    }
    out
}

#[test]
fn classify_opens_only_established_connections() {
    assert_eq!(PortStatus::classify(true), PortStatus::Open);
    assert_eq!(PortStatus::classify(false), PortStatus::Closed);
    assert!(PortStatus::Open.is_open());
    assert!(!PortStatus::Closed.is_open());
}

#[test]
fn status_renders_as_open_or_closed() {
    assert_eq!(PortStatus::Open.as_str(), "OPEN");
    assert_eq!(PortStatus::Closed.as_str(), "CLOSED");
}

#[test]
fn scan_result_new_keeps_its_parts() {
    let r = ScanResult::new("localhost", 443, PortStatus::Open);
    assert_eq!(r.host, "localhost");
    assert_eq!(r.port, 443);
    assert_eq!(r.port_status, PortStatus::Open);
}

#[test]
fn three_ports_three_threads_sorted_with_closed_ports() {
    let c = config("localhost", 8000, 8002, 3, false, true);
    let results = scan(&c, &only_8001, &silent);
    assert_eq!(
        lines(&results),
        vec!["localhost 8000 CLOSED", "localhost 8001 OPEN", "localhost 8002 CLOSED"]
    );
}

#[test]
fn scan_range_probes_each_port_once_in_ascending_order() {
    let probed: RefCell<Vec<(String, u16, u64)>> = RefCell::new(Vec::new());
    let probe = |host: &str, port: u16, timeout: u64| {
        probed.borrow_mut().push((String::from(host), port, timeout));
        PortStatus::classify(port == 11)
    };
    let results = scan_range("h", 10, 13, 77, false, false, &probe, &silent);
    assert_eq!(lines(&results), vec!["h 10 CLOSED", "h 11 OPEN", "h 12 CLOSED", "h 13 CLOSED"]);
    let expected: Vec<(String, u16, u64)> =
        (10..=13u16).map(|p| (String::from("h"), p, 77u64)).collect();
    assert_eq!(*probed.borrow(), expected);
}

#[test]
fn scan_range_drops_closed_ports_when_asked() {
    let results = scan_range("h", 0, 10, 1, false, true, &every_third, &silent);
    assert_eq!(lines(&results), vec!["h 0 OPEN", "h 3 OPEN", "h 6 OPEN", "h 9 OPEN"]);
}

#[test]
fn scan_range_of_an_empty_range_is_empty() {
    let calls = RefCell::new(0u32);
    let probe = |_h: &str, _p: u16, _t: u64| {
        *calls.borrow_mut() += 1;
        PortStatus::Open
    };
    let results = scan_range("h", 5, 4, 1, true, false, &probe, &silent);
    assert!(results.is_empty());
    assert_eq!(*calls.borrow(), 0);
}

#[test]
fn scan_range_reaches_the_last_port_without_wrapping() {
    let results = scan_range("h", 65533, 65535, 1, false, false, &every_third, &silent);
    assert_eq!(lines(&results), vec!["h 65533 CLOSED", "h 65534 CLOSED", "h 65535 OPEN"]);
}

#[test]
fn scan_range_of_one_port() {
    let results = scan_range("h", 0, 0, 1, false, false, &every_third, &silent);
    assert_eq!(lines(&results), vec!["h 0 OPEN"]);
}

#[test]
fn interactive_worker_displays_each_kept_result_before_the_next_probe() {
    let log: RefCell<Vec<String>> = RefCell::new(Vec::new());
    let probe = |_h: &str, port: u16, _t: u64| {
        log.borrow_mut().push(format!("probe {}", port));
        PortStatus::classify(port != 21)
    };
    let display = |r: &ScanResult| {
        log.borrow_mut().push(format!("show {} {}", r.port, r.port_status.as_str()));
    };
    let results = scan_range("h", 20, 22, 1, true, true, &probe, &display);
    assert_eq!(ports(&results), vec![20, 22]);
    assert_eq!(
        *log.borrow(),
        vec!["probe 20", "show 20 OPEN", "probe 21", "probe 22", "show 22 OPEN"]
    );
}

#[test]
fn quiet_worker_displays_nothing() {
    let shown = RefCell::new(0u32);
    let display = |_r: &ScanResult| {
        *shown.borrow_mut() += 1;
    };
    let results = scan_range("h", 20, 22, 1, false, false, &every_third, &display);
    assert_eq!(results.len(), 3);
    assert_eq!(*shown.borrow(), 0);
}

#[test]
fn dispatch_never_plans_more_workers_than_ports() {
    let c = config("localhost", 100, 104, 100, false, true);
    let tasks = dispatch(&c);
    assert_eq!(tasks.len(), 5);
    for (i, t) in tasks.iter().enumerate() {
        assert_eq!(t.host, "localhost");
        assert_eq!(t.start, 100 + i as u16);
        assert_eq!(t.end, 100 + i as u16);
    }
}

#[test]
fn dispatch_moves_the_shares_up_by_the_start_port() {
    let c = config("h", 8000, 8009, 4, false, true);
    let tasks = dispatch(&c);
    let bounds: Vec<(u16, u16)> = tasks.iter().map(|t| (t.start, t.end)).collect();
    assert_eq!(bounds, vec![(8000, 8001), (8002, 8003), (8004, 8005), (8006, 8009)]);
}

#[test]
fn dispatch_with_one_thread_plans_one_worker() {
    let c = config("h", 0, 65535, 1, false, true);
    let tasks = dispatch(&c);
    assert_eq!(tasks.len(), 1);
    assert_eq!((tasks[0].start, tasks[0].end), (0, 65535));
}

#[test]
fn dispatch_of_the_full_range_ends_at_the_last_port() {
    let c = config("h", 0, 65535, 3, false, true);
    let tasks = dispatch(&c);
    let bounds: Vec<(u16, u16)> = tasks.iter().map(|t| (t.start, t.end)).collect();
    assert_eq!(bounds, vec![(0, 21844), (21845, 43689), (43690, 65535)]);
}

#[test]
fn dispatch_covers_the_range_without_gap_or_overlap() {
    for threads in 1..40u32 {
        let c = config("h", 65500, 65535, threads, false, true);
        let tasks = dispatch(&c);
        assert_eq!(tasks.len() as u32, threads.min(36));
        let mut next: u32 = 65500;
        for t in tasks.iter() {
            assert_eq!(t.start as u32, next);
            assert!(t.start <= t.end);
            next = t.end as u32 + 1;
        }
        assert_eq!(next, 65536);
    }
}

#[test]
fn thread_count_does_not_change_the_final_results() {
    for no_closed in [false, true] {
        let single = scan(&config("host", 1000, 1040, 1, no_closed, true), &every_third, &silent);
        for threads in 2..50u32 {
            let many =
                scan(&config("host", 1000, 1040, threads, no_closed, true), &every_third, &silent);
            assert_eq!(lines(&many), lines(&single));
        }
    }
}

#[test]
fn merge_order_does_not_change_the_sorted_results() {
    let c = config("host", 200, 230, 7, false, true);
    let single = scan(&config("host", 200, 230, 1, false, true), &every_third, &silent);
    let tasks = dispatch(&c);
    let mut set = ResultSet::new(tasks.len());
    let order = [3usize, 0, 6, 2, 5, 1, 4];
    for (n, &w) in order.iter().enumerate() {
        let t = &tasks[w];
        let found = scan_range(&t.host, t.start, t.end, c.timeout, false, false, &every_third, &silent);
        assert_eq!(set.append(w, found), Ok(n + 1));
    }
    assert!(set.is_complete());
    let results = set.finish(true, false).unwrap();
    assert_eq!(lines(&results), lines(&single));
}

#[test]
fn unsorted_results_keep_the_merge_order() {
    let c = config("host", 10, 15, 3, false, false);
    let tasks = dispatch(&c);
    let mut set = ResultSet::new(tasks.len());
    for &w in [2usize, 0, 1].iter() {
        let t = &tasks[w];
        let found = scan_range(&t.host, t.start, t.end, 1, false, false, &every_third, &silent);
        set.append(w, found).unwrap();
    }
    let results = set.finish(false, false).unwrap();
    assert_eq!(ports(&results), vec![14, 15, 10, 11, 12, 13]);
}

#[test]
fn suppressed_scan_holds_only_open_ports_and_all_of_them() {
    for threads in [1u32, 2, 5, 64] {
        let c = config("host", 0, 100, threads, true, true);
        let results = scan(&c, &every_third, &silent);
        assert!(results.iter().all(|r| r.port_status == PortStatus::Open));
        let open = (0..=100u16).filter(|p| p % 3 == 0).count();
        assert_eq!(results.len(), open);
        assert_eq!(results.len(), 34);
    }
}

#[test]
fn scan_without_open_ports_and_suppression_is_empty() {
    let closed = |_h: &str, _p: u16, _t: u64| PortStatus::Closed;
    let results = scan(&config("host", 1, 50, 4, true, true), &closed, &silent);
    assert!(results.is_empty());
}

#[test]
fn scan_hands_host_and_timeout_to_the_probe() {
    let seen: RefCell<Vec<(String, u16, u64)>> = RefCell::new(Vec::new());
    let probe = |host: &str, port: u16, timeout: u64| {
        seen.borrow_mut().push((String::from(host), port, timeout));
        PortStatus::Closed
    };
    let c = Config::new(String::from("target"), 5, 9, 2, 1234, false, true, false).unwrap();
    let results = scan(&c, &probe, &silent);
    assert_eq!(results.len(), 5);
    let expected: Vec<(String, u16, u64)> =
        (5..=9u16).map(|p| (String::from("target"), p, 1234u64)).collect();
    assert_eq!(*seen.borrow(), expected);
}

#[test]
fn batch_scan_reports_all_results_at_the_end() {
    let log: RefCell<Vec<String>> = RefCell::new(Vec::new());
    let probe = |_h: &str, port: u16, _t: u64| {
        log.borrow_mut().push(format!("probe {}", port));
        PortStatus::classify(port == 2)
    };
    let display = |r: &ScanResult| {
        log.borrow_mut().push(format!("show {}", r.port));
    };
    let c = Config::new(String::from("h"), 1, 3, 2, 1, false, true, false).unwrap();
    let results = scan(&c, &probe, &display);
    assert_eq!(ports(&results), vec![1, 2, 3]);
    assert_eq!(
        *log.borrow(),
        vec!["probe 1", "probe 2", "probe 3", "show 1", "show 2", "show 3"]
    );
}

#[test]
fn interactive_scan_reports_as_it_goes_and_not_again() {
    let log: RefCell<Vec<String>> = RefCell::new(Vec::new());
    let probe = |_h: &str, port: u16, _t: u64| {
        log.borrow_mut().push(format!("probe {}", port));
        PortStatus::Open
    };
    let display = |r: &ScanResult| {
        log.borrow_mut().push(format!("show {}", r.port));
    };
    let c = Config::new(String::from("h"), 1, 3, 3, 1, false, true, true).unwrap();
    let results = scan(&c, &probe, &display);
    assert_eq!(ports(&results), vec![1, 2, 3]);
    assert_eq!(
        *log.borrow(),
        vec!["probe 1", "show 1", "probe 2", "show 2", "probe 3", "show 3"]
    );
}

#[test]
fn report_counts_what_it_hands_on() {
    let results = vec![
        ScanResult::new("h", 1, PortStatus::Open),
        ScanResult::new("h", 2, PortStatus::Closed),
    ];
    let shown: RefCell<Vec<u16>> = RefCell::new(Vec::new());
    let display = |r: &ScanResult| {
        shown.borrow_mut().push(r.port);
    };
    assert_eq!(report(&results, false, &display), 2);
    assert_eq!(*shown.borrow(), vec![1, 2]);
    assert_eq!(report(&results, true, &display), 0);
    assert_eq!(*shown.borrow(), vec![1, 2]);
}

#[test]
fn sort_orders_by_port() {
    let mut v = vec![
        ScanResult::new("h", 9, PortStatus::Open),
        ScanResult::new("h", 2, PortStatus::Closed),
        ScanResult::new("h", 65535, PortStatus::Closed),
        ScanResult::new("h", 0, PortStatus::Open),
    ];
    sort_by_port(&mut v);
    assert_eq!(lines(&v), vec!["h 0 OPEN", "h 2 CLOSED", "h 9 OPEN", "h 65535 CLOSED"]);
}

#[test]
fn sort_keeps_results_for_the_same_port_in_place() {
    let mut v = vec![
        ScanResult::new("c", 7, PortStatus::Open),
        ScanResult::new("a", 3, PortStatus::Open),
        ScanResult::new("b", 7, PortStatus::Closed),
        ScanResult::new("z", 3, PortStatus::Closed),
        ScanResult::new("a", 7, PortStatus::Open),
    ];
    sort_by_port(&mut v);
    assert_eq!(lines(&v), vec!["a 3 OPEN", "z 3 CLOSED", "c 7 OPEN", "b 7 CLOSED", "a 7 OPEN"]);
}

#[test]
fn sorting_sorted_results_changes_nothing() {
    let mut v = scan_range("h", 40, 60, 1, false, false, &every_third, &silent);
    let before = lines(&v);
    sort_by_port(&mut v);
    assert_eq!(lines(&v), before);
    sort_by_port(&mut v);
    assert_eq!(lines(&v), before);
}

#[test]
fn sorting_nothing_gives_nothing() {
    let mut v: Vec<ScanResult> = Vec::new();
    sort_by_port(&mut v);
    assert!(v.is_empty());
}

#[test]
fn suppress_closed_keeps_open_ports_in_order() {
    let v = vec![
        ScanResult::new("h", 5, PortStatus::Open),
        ScanResult::new("h", 1, PortStatus::Closed),
        ScanResult::new("h", 3, PortStatus::Open),
        ScanResult::new("h", 4, PortStatus::Closed),
    ];
    let kept = suppress_closed(v);
    assert_eq!(lines(&kept), vec!["h 5 OPEN", "h 3 OPEN"]);
}

#[test]
fn merge_appends_in_order() {
    let mut all = vec![ScanResult::new("h", 5, PortStatus::Open)];
    merge(&mut all, vec![
        ScanResult::new("h", 1, PortStatus::Closed),
        ScanResult::new("h", 2, PortStatus::Open),
    ]);
    merge(&mut all, Vec::new());
    assert_eq!(lines(&all), vec!["h 5 OPEN", "h 1 CLOSED", "h 2 OPEN"]);
}

#[test]
fn finish_sorts_then_drops_closed_ports() {
    let make = || {
        vec![
            ScanResult::new("h", 5, PortStatus::Open),
            ScanResult::new("h", 1, PortStatus::Closed),
            ScanResult::new("h", 3, PortStatus::Open),
        ]
    };
    assert_eq!(lines(&finish(make(), false, false)), vec!["h 5 OPEN", "h 1 CLOSED", "h 3 OPEN"]);
    assert_eq!(lines(&finish(make(), true, false)), vec!["h 1 CLOSED", "h 3 OPEN", "h 5 OPEN"]);
    assert_eq!(lines(&finish(make(), false, true)), vec!["h 5 OPEN", "h 3 OPEN"]);
    assert_eq!(lines(&finish(make(), true, true)), vec!["h 3 OPEN", "h 5 OPEN"]);
}

#[test]
fn result_set_refuses_unknown_workers() {
    let mut set = ResultSet::new(2);
    assert_eq!(set.append(2, Vec::new()), Err(JoinError::UnknownWorker));
    assert!(!set.is_complete());
}

#[test]
fn result_set_refuses_a_worker_twice() {
    let mut set = ResultSet::new(2);
    assert_eq!(set.append(1, vec![ScanResult::new("h", 1, PortStatus::Open)]), Ok(1));
    assert_eq!(
        set.append(1, vec![ScanResult::new("h", 2, PortStatus::Open)]),
        Err(JoinError::AlreadyJoined)
    );
    assert_eq!(set.append(0, Vec::new()), Ok(2));
    let results = set.finish(false, false).unwrap();
    assert_eq!(lines(&results), vec!["h 1 OPEN"]);
}

#[test]
fn result_set_fails_when_a_worker_is_missing() {
    let mut set = ResultSet::new(3);
    set.append(0, Vec::new()).unwrap();
    set.append(2, Vec::new()).unwrap();
    assert!(!set.is_complete());
    assert_eq!(set.finish(true, false).err(), Some(JoinError::WorkerMissing));
}

#[test]
fn result_set_without_workers_is_complete() {
    let set = ResultSet::new(0);
    assert!(set.is_complete());
    assert!(set.finish(true, true).unwrap().is_empty());
}
