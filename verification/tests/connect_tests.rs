use peek::address::Ipv4Address;
use peek::scanner::connect::models::{PortStatus, ScanResult};
use peek::scanner::connect::scanner::{ConnectOutcome, Scanner, CONNECTION_TIMEOUT_MS};

fn scanner() -> Scanner<u32> {
    Scanner::new(Ipv4Address::new(127, 0, 0, 1))
}

fn ports(s: &Scanner<u32>) -> Vec<u16> {
    s.pending().iter().map(|c| c.port).collect()
}

#[test]
fn start_connection_reports_immediate_outcomes() {
    let mut s = scanner();
    assert_eq!(s.ip(), Ipv4Address::new(127, 0, 0, 1));
    assert_eq!(
        s.start_connection(22, 3, ConnectOutcome::Refused, 0),
        Some(ScanResult { port: 22, status: PortStatus::Closed })
    );
    assert_eq!(
        s.start_connection(80, 4, ConnectOutcome::Connected, 0),
        Some(ScanResult { port: 80, status: PortStatus::Open })
    );
    assert_eq!(
        s.start_connection(81, 5, ConnectOutcome::TimedOut, 0),
        Some(ScanResult { port: 81, status: PortStatus::Timeout })
    );
    assert!(s.pending().is_empty());
}

#[test]
fn start_connection_keeps_attempts_in_progress() {
    let mut s = scanner();
    assert_eq!(s.start_connection(443, 7, ConnectOutcome::InProgress, 12), None);
    assert_eq!(s.pending().len(), 1);
    assert_eq!(s.pending()[0].fd, 7);
    assert_eq!(s.pending()[0].port, 443);
    assert_eq!(s.pending()[0].started_at_ms, 12);
}

#[test]
fn classify_pending_splits_ready_and_expired() {
    let mut s = scanner();
    s.start_connection(1, 10, ConnectOutcome::InProgress, 0);
    s.start_connection(2, 11, ConnectOutcome::InProgress, 100);
    s.start_connection(3, 12, ConnectOutcome::InProgress, 500);
    let (ready, expired) = s.classify_pending(&vec![false, true, true], 500);
    assert_eq!(ready, vec![2, 3]);
    assert_eq!(expired, vec![1, 2]);
}

#[test]
fn classify_pending_timeout_boundary() {
    let mut s = scanner();
    s.start_connection(1, 10, ConnectOutcome::InProgress, 1000);
    let (_, expired) = s.classify_pending(&vec![false], 1000 + CONNECTION_TIMEOUT_MS - 1);
    assert!(expired.is_empty());
    let (_, expired) = s.classify_pending(&vec![false], 1000 + CONNECTION_TIMEOUT_MS);
    assert_eq!(expired, vec![1]);
    // an attempt started after `now` has waited nothing
    let (_, expired) = s.classify_pending(&vec![false], 10);
    assert!(expired.is_empty());
}

#[test]
fn timeout_results_drops_each_port_once() {
    let mut s = scanner();
    for (port, fd) in [(1u16, 10u32), (2, 11), (3, 12)] {
        s.start_connection(port, fd, ConnectOutcome::InProgress, 0);
    }
    let results = s.timeout_results(vec![3, 9, 1, 3]);
    assert_eq!(
        results,
        vec![
            ScanResult { port: 3, status: PortStatus::Timeout },
            ScanResult { port: 1, status: PortStatus::Timeout },
        ]
    );
    assert_eq!(ports(&s), vec![2]);
}

#[test]
fn ready_results_uses_socket_error() {
    let mut s = scanner();
    for (port, fd) in [(22u16, 10u32), (80, 11), (443, 12)] {
        s.start_connection(port, fd, ConnectOutcome::InProgress, 0);
    }
    let res = s.ready_results(vec![443, 22], |fd: &u32| -> Result<i32, String> {
        if *fd == 12 { Ok(0) } else { Ok(111) }
    });
    assert_eq!(
        res,
        Ok(vec![
            ScanResult { port: 443, status: PortStatus::Open },
            ScanResult { port: 22, status: PortStatus::Closed },
        ])
    );
    assert_eq!(ports(&s), vec![80]);
}

#[test]
fn ready_then_timeout_reports_a_port_once() {
    let mut s = scanner();
    s.start_connection(5, 1, ConnectOutcome::InProgress, 0);
    s.start_connection(6, 2, ConnectOutcome::InProgress, 0);
    let (ready, expired) = s.classify_pending(&vec![true, false], 1000);
    let mut results = s.ready_results(ready, |_: &u32| -> Result<i32, ()> { Ok(0) }).unwrap();
    results.append(&mut s.timeout_results(expired));
    assert_eq!(
        results,
        vec![
            ScanResult { port: 5, status: PortStatus::Open },
            ScanResult { port: 6, status: PortStatus::Timeout },
        ]
    );
    assert!(s.pending().is_empty());
}

#[test]
fn ready_results_stops_at_an_error() {
    let mut s = scanner();
    s.start_connection(1, 10, ConnectOutcome::InProgress, 0);
    s.start_connection(2, 11, ConnectOutcome::InProgress, 0);
    let res = s.ready_results(vec![1, 2], |_: &u32| -> Result<i32, &'static str> { Err("EBADF") });
    assert_eq!(res, Err("EBADF"));
    assert_eq!(ports(&s), vec![2]);
}

#[test]
fn ready_results_error_leaves_later_ports_pending() {
    let mut s = scanner();
    s.start_connection(1, 10, ConnectOutcome::InProgress, 0);
    s.start_connection(2, 11, ConnectOutcome::InProgress, 0);
    s.start_connection(3, 12, ConnectOutcome::InProgress, 0);
    let res = s.ready_results(vec![3, 1, 2], |fd: &u32| -> Result<i32, u32> {
        if *fd == 10 { Err(*fd) } else { Ok(0) }
    });
    assert_eq!(res, Err(10));
    assert_eq!(ports(&s), vec![2]);
}

#[test]
fn ready_results_without_pending_connection_asks_nothing() {
    let mut s = scanner();
    s.start_connection(1, 10, ConnectOutcome::InProgress, 0);
    let res = s.ready_results(vec![7], |_: &u32| -> Result<i32, &'static str> { Err("EBADF") });
    assert_eq!(res, Ok(vec![]));
    assert_eq!(ports(&s), vec![1]);
}

#[test]
fn record_ready_takes_one_socket_error() {
    let mut s = scanner();
    s.start_connection(5, 50, ConnectOutcome::InProgress, 0);
    s.start_connection(6, 60, ConnectOutcome::InProgress, 0);
    assert_eq!(s.socket_for(6), Some(&60));
    assert_eq!(s.socket_for(7), None);
    assert_eq!(s.record_ready(7, 0), None);
    assert_eq!(ports(&s), vec![5, 6]);
    assert_eq!(
        s.record_ready(6, 111),
        Some(ScanResult { port: 6, status: PortStatus::Closed })
    );
    assert_eq!(
        s.record_ready(5, 0),
        Some(ScanResult { port: 5, status: PortStatus::Open })
    );
    assert!(s.pending().is_empty());
}

#[test]
fn ready_results_asks_each_socket_once() {
    let mut s = scanner();
    for p in 1..=3u16 {
        s.start_connection(p, p as u32, ConnectOutcome::InProgress, 0);
    }
    let calls = std::cell::Cell::new(0u32);
    let res = s.ready_results(vec![3, 9, 1, 3], |_: &u32| -> Result<i32, ()> {
        calls.set(calls.get() + 1);
        Ok(if calls.get() == 1 { 111 } else { 0 })
    });
    assert_eq!(calls.get(), 2);
    assert_eq!(
        res,
        Ok(vec![
            ScanResult { port: 3, status: PortStatus::Closed },
            ScanResult { port: 1, status: PortStatus::Open },
        ])
    );
    assert_eq!(ports(&s), vec![2]);
}
