use peek::address::Ipv4Address;
use peek::scanner::connect::models::{PortStatus, ScanResult};
use peek::scanner::connect::scanner::ConnectOutcome;
use peek::scanner::Scanner;

#[test]
fn single_port_start_connection() {
    let mut s: Scanner<u32> = Scanner::new(Ipv4Address::new(1, 2, 3, 4));
    assert_eq!(s.ip(), Ipv4Address::new(1, 2, 3, 4));
    assert_eq!(
        s.start_connection(22, 1, ConnectOutcome::Refused),
        Some(ScanResult { port: 22, status: PortStatus::Closed })
    );
    assert_eq!(s.start_connection(80, 2, ConnectOutcome::InProgress), None);
    assert_eq!(s.pending().len(), 1);
    assert_eq!(s.pending()[0].port, 80);
}

#[test]
fn ready_positions_lists_writable_positions() {
    let mut s: Scanner<u32> = Scanner::new(Ipv4Address::new(1, 2, 3, 4));
    for p in 1..=4u16 {
        s.start_connection(p, p as u32, ConnectOutcome::InProgress);
    }
    assert_eq!(s.ready_positions(&vec![true, false, true, true]), vec![0, 2, 3]);
    assert_eq!(s.ready_positions(&vec![false; 4]), Vec::<usize>::new());
}

#[test]
fn connection_results_removes_from_the_back() {
    let mut s: Scanner<u32> = Scanner::new(Ipv4Address::new(1, 2, 3, 4));
    for p in 1..=4u16 {
        s.start_connection(p, p as u32 * 10, ConnectOutcome::InProgress);
    }
    let ready = s.ready_positions(&vec![true, false, true, false]);
    let res = s.connection_results(ready, |fd: &u32| -> Result<i32, ()> {
        if *fd == 10 { Ok(0) } else { Ok(61) }
    });
    assert_eq!(
        res,
        Ok(vec![
            ScanResult { port: 3, status: PortStatus::Closed },
            ScanResult { port: 1, status: PortStatus::Open },
        ])
    );
    let left: Vec<u16> = s.pending().iter().map(|c| c.port).collect();
    assert_eq!(left, vec![2, 4]);
}

#[test]
fn connection_results_error_keeps_earlier_positions() {
    let mut s: Scanner<u32> = Scanner::new(Ipv4Address::new(1, 2, 3, 4));
    for p in 1..=4u16 {
        s.start_connection(p, p as u32 * 10, ConnectOutcome::InProgress);
    }
    let ready = s.ready_positions(&vec![true, false, true, true]);
    let res = s.connection_results(ready, |fd: &u32| -> Result<i32, u32> {
        if *fd == 30 { Err(*fd) } else { Ok(0) }
    });
    assert_eq!(res, Err(30));
    let left: Vec<u16> = s.pending().iter().map(|c| c.port).collect();
    assert_eq!(left, vec![1, 2]);
}

#[test]
fn record_connection_takes_one_socket_error() {
    let mut s: Scanner<u32> = Scanner::new(Ipv4Address::new(1, 2, 3, 4));
    for p in 1..=3u16 {
        s.start_connection(p, p as u32, ConnectOutcome::InProgress);
    }
    assert_eq!(s.record_connection(1, 61), ScanResult { port: 2, status: PortStatus::Closed });
    assert_eq!(s.record_connection(0, 0), ScanResult { port: 1, status: PortStatus::Open });
    let left: Vec<u16> = s.pending().iter().map(|c| c.port).collect();
    assert_eq!(left, vec![3]);
}

#[test]
fn connection_results_asks_each_socket_once() {
    let mut s: Scanner<u32> = Scanner::new(Ipv4Address::new(1, 2, 3, 4));
    for p in 1..=3u16 {
        s.start_connection(p, p as u32, ConnectOutcome::InProgress);
    }
    let calls = std::cell::Cell::new(0u32);
    let ready = s.ready_positions(&vec![true, true, true]);
    let res = s.connection_results(ready, |_: &u32| -> Result<i32, ()> {
        calls.set(calls.get() + 1);
        Ok(if calls.get() == 1 { 111 } else { 0 })
    });
    assert_eq!(calls.get(), 3);
    assert_eq!(
        res,
        Ok(vec![
            ScanResult { port: 3, status: PortStatus::Closed },
            ScanResult { port: 2, status: PortStatus::Open },
            ScanResult { port: 1, status: PortStatus::Open },
        ])
    );
    assert!(s.pending().is_empty());
}
