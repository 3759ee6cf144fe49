use peek::address::{Ipv4Address, SocketAddress};
use peek::formatter::{
    open_ports, open_target_ports, status_label, summarize, summarize_half_open, HalfOpenCounts,
    PortCounts,
};
use peek::scanner::connect::models::{PortStatus, ScanResult};
use peek::scanner::syn::target::{ScanState, ScanTarget};

fn result(port: u16, status: PortStatus) -> ScanResult {
    ScanResult { port, status }
}

#[test]
fn summarize_counts_each_status() {
    let results = vec![
        result(22, PortStatus::Closed),
        result(80, PortStatus::Open),
        result(443, PortStatus::Open),
        result(8080, PortStatus::Timeout),
        result(53, PortStatus::Closed),
    ];
    let counts = summarize(&results);
    assert_eq!(counts, PortCounts { open: 2, closed: 2, timeout: 1 });
    assert_eq!(counts.open + counts.closed + counts.timeout, results.len());
}

#[test]
fn summarize_of_nothing_is_zero() {
    assert_eq!(summarize(&vec![]), PortCounts { open: 0, closed: 0, timeout: 0 });
}

#[test]
fn open_ports_keeps_order() {
    let results = vec![
        result(443, PortStatus::Open),
        result(22, PortStatus::Closed),
        result(80, PortStatus::Open),
        result(21, PortStatus::Timeout),
    ];
    assert_eq!(open_ports(&results), vec![443, 80]);
}

fn target(port: u16, state: ScanState) -> ScanTarget {
    let ip = Ipv4Address::new(10, 0, 0, 1);
    let mut t = ScanTarget::with_sequence_number(
        SocketAddress::new(ip, 40000),
        SocketAddress::new(ip, port),
        port as u32,
    );
    t.state = state;
    t
}

#[test]
fn half_open_summary_counts_each_state_but_waiting() {
    let targets = vec![
        target(1, ScanState::Open),
        target(2, ScanState::Closed),
        target(3, ScanState::Filtered),
        target(4, ScanState::Waiting),
        target(5, ScanState::Pending),
        target(6, ScanState::Open),
    ];
    assert_eq!(
        summarize_half_open(&targets),
        HalfOpenCounts { open: 2, closed: 1, filtered: 1, pending: 1 }
    );
    assert_eq!(open_target_ports(&targets), vec![1, 6]);
}

#[test]
fn status_labels() {
    assert_eq!(status_label(PortStatus::Open), "OPEN");
    assert_eq!(status_label(PortStatus::Closed), "CLOSED");
    assert_eq!(status_label(PortStatus::Timeout), "TIMEOUT");
}
