use peek::address::{Ipv4Address, SocketAddress};
use peek::scanner::syn::packet::{create_syn_packet, TCP_FLAG_ACK, TCP_FLAG_RST, TCP_FLAG_SYN};
use peek::scanner::syn::scanner::{SendOutcome, Scanner, TIMEOUT_MS, WINDOW_SIZE};
use peek::scanner::syn::packet::TcpHeader;
use peek::scanner::syn::target::{ScanState, ScanTarget};

fn target(port: u16, sequence: u32) -> ScanTarget {
    ScanTarget::with_sequence_number(
        SocketAddress::new(Ipv4Address::new(10, 0, 0, 1), 40000),
        SocketAddress::new(Ipv4Address::new(10, 0, 0, 2), port),
        sequence,
    )
}

fn reply(ack: u32, flags: u8) -> Vec<u8> {
    let mut r = vec![0u8; 40];
    r[0] = 0x45;
    r[28..32].copy_from_slice(&ack.to_be_bytes());
    r[33] = flags;
    r
}

fn scanner_with(ports: &[(u16, u32)]) -> Scanner<()> {
    let mut s = Scanner::new(());
    for &(p, q) in ports {
        s.add_target(target(p, q));
    }
    s
}

#[test]
fn new_target_is_waiting() {
    let t = ScanTarget::new(
        SocketAddress::new(Ipv4Address::new(1, 1, 1, 1), 1),
        SocketAddress::new(Ipv4Address::new(2, 2, 2, 2), 2),
    );
    assert_eq!(t.state, ScanState::Waiting);
    assert_eq!(t.destination.port(), 2);
}

#[test]
fn send_pack_marks_targets_pending_or_filtered() {
    let mut s = scanner_with(&[(22, 100), (80, 200), (443, 300)]);
    assert!(s.is_running());
    s.send_pack(
        |_: &(), _: SocketAddress, d: SocketAddress, _: u32| {
            if d.port == 80 { SendOutcome::Failed } else { SendOutcome::Sent }
        },
        || 5,
    );
    let states: Vec<ScanState> = s.targets.iter().map(|t| t.state).collect();
    assert_eq!(states, vec![ScanState::Pending, ScanState::Filtered, ScanState::Pending]);
    assert!(s.is_running());
}

#[test]
fn send_pack_stops_when_the_socket_would_block() {
    let mut s = scanner_with(&[(1, 1), (2, 2), (3, 3)]);
    s.send_pack(
        |_: &(), _: SocketAddress, d: SocketAddress, _: u32| {
            if d.port == 2 { SendOutcome::WouldBlock } else { SendOutcome::Sent }
        },
        || 0,
    );
    let states: Vec<ScanState> = s.targets.iter().map(|t| t.state).collect();
    assert_eq!(states, vec![ScanState::Pending, ScanState::Waiting, ScanState::Waiting]);
    // the blocked target is sent on the next round
    s.send_pack(|_: &(), _: SocketAddress, _: SocketAddress, _: u32| SendOutcome::Sent, || 1);
    let states: Vec<ScanState> = s.targets.iter().map(|t| t.state).collect();
    assert_eq!(states, vec![ScanState::Pending; 3]);
}

#[test]
fn send_pack_respects_the_window() {
    let mut s = Scanner::new(());
    for i in 0..(WINDOW_SIZE as u32 + 3) {
        s.add_target(target(1, i));
    }
    s.send_pack(|_: &(), _: SocketAddress, _: SocketAddress, _: u32| SendOutcome::Sent, || 0);
    let pending = s.targets.iter().filter(|t| t.state == ScanState::Pending).count();
    assert_eq!(pending, WINDOW_SIZE);
    assert_eq!(s.targets[WINDOW_SIZE].state, ScanState::Waiting);
}

#[test]
fn replies_decide_open_and_closed() {
    let mut s = scanner_with(&[(22, 100), (80, 200), (443, 300)]);
    s.send_pack(|_: &(), _: SocketAddress, _: SocketAddress, _: u32| SendOutcome::Sent, || 0);
    s.handle_packet(&reply(201, TCP_FLAG_SYN | TCP_FLAG_ACK));
    s.handle_packet(&reply(101, TCP_FLAG_RST | TCP_FLAG_ACK));
    // a reply to no probe changes nothing
    s.handle_packet(&reply(5000, TCP_FLAG_SYN | TCP_FLAG_ACK));
    // too short to be a reply
    s.handle_packet(&[0x45; 10]);
    let states: Vec<ScanState> = s.targets.iter().map(|t| t.state).collect();
    assert_eq!(states, vec![ScanState::Closed, ScanState::Open, ScanState::Pending]);
    assert!(s.is_running());
    s.handle_packet(&reply(301, TCP_FLAG_ACK));
    assert_eq!(s.targets[2].state, ScanState::Pending);
    assert!(!s.is_running());
}

#[test]
fn update_state_with_wrapping_sequence() {
    let mut s = scanner_with(&[(7, u32::MAX)]);
    s.send_pack(|_: &(), _: SocketAddress, _: SocketAddress, _: u32| SendOutcome::Sent, || 0);
    s.handle_packet(&reply(0, TCP_FLAG_SYN | TCP_FLAG_ACK));
    assert_eq!(s.targets[0].state, ScanState::Open);
    s.update_state(u32::MAX, &TcpHeader { flags: TCP_FLAG_RST, acknowledgement: 0 });
    assert_eq!(s.targets[0].state, ScanState::Closed);
}

#[test]
fn probe_replied_as_own_packet_is_ignored() {
    let mut s = scanner_with(&[(80, 41)]);
    s.send_pack(|_: &(), _: SocketAddress, _: SocketAddress, _: u32| SendOutcome::Sent, || 0);
    let mut probe = vec![0u8; 40];
    create_syn_packet(&mut probe, s.targets[0].source, s.targets[0].destination, 41);
    s.handle_packet(&probe);
    assert_eq!(s.targets[0].state, ScanState::Pending);
}

#[test]
fn check_timeouts_filters_expired_probes() {
    let mut s = scanner_with(&[(1, 10), (2, 20)]);
    s.send_pack(
        |_: &(), _: SocketAddress, d: SocketAddress, _: u32| {
            if d.port == 1 { SendOutcome::Sent } else { SendOutcome::WouldBlock }
        },
        || 100,
    );
    s.send_pack(|_: &(), _: SocketAddress, _: SocketAddress, _: u32| SendOutcome::Sent, || 200);
    s.check_timeouts(100 + TIMEOUT_MS - 1);
    assert_eq!(s.targets[0].state, ScanState::Pending);
    s.check_timeouts(100 + TIMEOUT_MS);
    assert_eq!(s.targets[0].state, ScanState::Filtered);
    assert_eq!(s.targets[1].state, ScanState::Pending);
    s.check_timeouts(200 + TIMEOUT_MS);
    assert_eq!(s.targets[1].state, ScanState::Filtered);
    assert!(!s.is_running());
}

#[test]
fn send_pack_reads_the_clock_for_each_probe() {
    let mut s = scanner_with(&[(1, 10), (2, 20)]);
    let ticks = std::cell::Cell::new(0u64);
    s.send_pack(
        |_: &(), _: SocketAddress, _: SocketAddress, _: u32| SendOutcome::Sent,
        || {
            let t = ticks.get();
            ticks.set(t + 1000);
            t
        },
    );
    s.check_timeouts(TIMEOUT_MS);
    assert_eq!(s.targets[0].state, ScanState::Filtered);
    assert_eq!(s.targets[1].state, ScanState::Pending);
}

#[test]
fn repeated_sequence_number_leads_to_the_newest_target() {
    let mut s = scanner_with(&[(22, 7), (80, 7)]);
    s.send_pack(|_: &(), _: SocketAddress, _: SocketAddress, _: u32| SendOutcome::Sent, || 0);
    s.handle_packet(&reply(8, TCP_FLAG_SYN | TCP_FLAG_ACK));
    let states: Vec<ScanState> = s.targets.iter().map(|t| t.state).collect();
    assert_eq!(states, vec![ScanState::Pending, ScanState::Open]);
}

#[test]
fn finished_scan_leaves_no_target_waiting() {
    let mut s = scanner_with(&[(1, 1), (2, 2), (3, 3)]);
    s.send_pack(
        |_: &(), _: SocketAddress, d: SocketAddress, _: u32| {
            if d.port == 2 { SendOutcome::Failed } else { SendOutcome::Sent }
        },
        || 0,
    );
    s.handle_packet(&reply(2, TCP_FLAG_RST));
    s.check_timeouts(TIMEOUT_MS);
    assert!(!s.is_running());
    assert!(s.targets.iter().all(|t| t.state != ScanState::Waiting));
    let states: Vec<ScanState> = s.targets.iter().map(|t| t.state).collect();
    assert_eq!(states, vec![ScanState::Closed, ScanState::Filtered, ScanState::Filtered]);
}

#[test]
fn next_probe_and_record_send_step_through_targets() {
    let mut s = scanner_with(&[(22, 100), (80, 200)]);
    let first = s.next_probe().unwrap();
    assert_eq!(first.1.port, 22);
    assert_eq!(first.2, 100);
    s.record_send(SendOutcome::WouldBlock, 9);
    assert_eq!(s.next_probe(), Some(first));
    s.record_send(SendOutcome::Sent, 9);
    let second = s.next_probe().unwrap();
    assert_eq!(second.1.port, 80);
    assert_eq!(second.2, 200);
    s.record_send(SendOutcome::Failed, 9);
    assert_eq!(s.next_probe(), None);
    let states: Vec<ScanState> = s.targets().iter().map(|t| t.state).collect();
    assert_eq!(states, vec![ScanState::Pending, ScanState::Filtered]);
    s.check_timeouts(9 + TIMEOUT_MS - 1);
    assert!(s.is_running());
    s.check_timeouts(9 + TIMEOUT_MS);
    assert!(!s.is_running());
}

#[test]
fn send_pack_sends_each_probe_once_in_order() {
    let mut s = scanner_with(&[(1, 11), (2, 12), (3, 13)]);
    let sent = std::cell::RefCell::new(Vec::new());
    s.send_pack(
        |_: &(), _: SocketAddress, d: SocketAddress, q: u32| {
            sent.borrow_mut().push((d.port, q));
            SendOutcome::Sent
        },
        || 0,
    );
    assert_eq!(*sent.borrow(), vec![(1, 11), (2, 12), (3, 13)]);
}
