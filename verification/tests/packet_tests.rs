use peek::address::{Ipv4Address, SocketAddress};
use peek::scanner::syn::packet::{
    create_syn_packet, parse_packet, Ipv4Header, TcpHeader, TCP_FLAG_ACK, TCP_FLAG_SYN,
};

fn addresses() -> (SocketAddress, SocketAddress) {
    (
        SocketAddress::new(Ipv4Address::new(10, 0, 0, 1), 40000),
        SocketAddress::new(Ipv4Address::new(10, 0, 0, 2), 80),
    )
}

#[test]
fn syn_packet_bytes() {
    let (source, destination) = addresses();
    let mut buffer = vec![0u8; 40];
    create_syn_packet(&mut buffer, source, destination, 0x0102_0304);
    let expected: Vec<u8> = vec![
        0x45, 0, 0, 40, 0, 0, 0, 0, 64, 6, 0xab, 0xce, 10, 0, 0, 1, 10, 0, 0, 2, // IPv4
        0x9c, 0x40, 0, 80, 1, 2, 3, 4, 0, 0, 0, 0, 0x50, 0x02, 0xfa, 0xf0, 0x00, 0x59, 0, 0, // TCP
    ];
    assert_eq!(buffer, expected);
}

#[test]
fn syn_packet_tcp_checksum_verifies() {
    let (source, destination) = addresses();
    let mut buffer = vec![0u8; 40];
    create_syn_packet(&mut buffer, source, destination, 0xdead_beef);
    let mut sum: u32 = 10 * 256 + 1 + 10 * 256 + 2 + 6 + 20;
    for w in buffer[20..40].chunks(2) {
        sum += (w[0] as u32) << 8 | w[1] as u32;
    }
    while sum >> 16 != 0 {
        sum = (sum >> 16) + (sum & 0xffff);
    }
    assert_eq!(sum, 0xffff);
}

#[test]
fn syn_packet_leaves_the_rest_of_the_buffer() {
    let (source, destination) = addresses();
    let mut buffer = vec![0xaau8; 44];
    create_syn_packet(&mut buffer, source, destination, 7);
    assert_eq!(&buffer[40..], &[0xaa, 0xaa, 0xaa, 0xaa]);
    // untouched header fields keep their bytes
    assert_eq!(buffer[1], 0xaa);
    assert_eq!(&buffer[4..8], &[0xaa, 0xaa, 0xaa, 0xaa]);
    assert_eq!(buffer[32], 0x5a);
    assert_eq!(buffer[33], TCP_FLAG_SYN);
}

#[test]
fn syn_packet_parses_back() {
    let (source, destination) = addresses();
    let mut buffer = vec![0u8; 40];
    create_syn_packet(&mut buffer, source, destination, 99);
    assert_eq!(
        parse_packet(&buffer),
        Some((Ipv4Header { header_length: 5 }, TcpHeader { flags: TCP_FLAG_SYN, acknowledgement: 0 }))
    );
}

#[test]
fn parse_packet_reads_a_syn_ack() {
    let mut reply = vec![0u8; 40];
    reply[0] = 0x45;
    reply[20 + 8..20 + 12].copy_from_slice(&0x1234_5679u32.to_be_bytes());
    reply[20 + 13] = TCP_FLAG_SYN | TCP_FLAG_ACK;
    assert_eq!(
        parse_packet(&reply),
        Some((
            Ipv4Header { header_length: 5 },
            TcpHeader { flags: 0x12, acknowledgement: 0x1234_5679 }
        ))
    );
}

#[test]
fn parse_packet_follows_the_header_length() {
    let mut reply = vec![0u8; 44];
    reply[0] = 0x46;
    reply[24 + 13] = 0x04;
    assert_eq!(
        parse_packet(&reply),
        Some((Ipv4Header { header_length: 6 }, TcpHeader { flags: 0x04, acknowledgement: 0 }))
    );
}

#[test]
fn parse_packet_refuses_short_input() {
    assert_eq!(parse_packet(&[0x45; 19]), None);
    let mut short = vec![0u8; 39];
    short[0] = 0x45;
    assert_eq!(parse_packet(&short), None);
}
