//! The SYN probe (an IPv4 header followed by a TCP header, 40 bytes in
//! all) and the reading of replies. The header fields are written and read
//! by `pnet_packet`; this module decides which field gets which value.
#![allow(unused_imports)]
use pnet_packet::ip::IpNextHeaderProtocol;
use pnet_packet::ipv4::{Ipv4Packet, MutableIpv4Packet};
use pnet_packet::tcp::{MutableTcpPacket, TcpPacket};
use pnet_packet::util::{checksum, ipv4_checksum};
use vstd::prelude::*;

use crate::address::{Ipv4Address, SocketAddress};

verus! {

/// The length of the IPv4 header of a probe.
pub const IP_HEADER_LENGTH: usize = 20;

/// The length of the TCP header of a probe.
pub const TCP_HEADER_LENGTH: usize = 20;

/// The length of a probe.
pub const TOTAL_LENGTH: usize = 40;

/// The IP protocol number of TCP.
pub const IP_PROTOCOL_TCP: u8 = 6;

/// The TCP flag bit SYN.
pub const TCP_FLAG_SYN: u8 = 0b0000_0010;

/// The TCP flag bit RST.
pub const TCP_FLAG_RST: u8 = 0b0000_0100;

/// The TCP flag bit ACK.
pub const TCP_FLAG_ACK: u8 = 0b0001_0000;

/// The time to live of a probe.
pub const PROBE_TTL: u8 = 64;

/// The TCP window a probe advertises.
pub const PROBE_WINDOW: u16 = 64240;

/// What the IPv4 header of a reply tells the scanner.
#[derive(Clone, Copy, Debug, PartialEq, Eq, Structural)]
pub struct Ipv4Header {
    /// The header length, in 32-bit words.
    pub header_length: u8,
}

/// What the TCP header of a reply tells the scanner.
#[derive(Clone, Copy, Debug, PartialEq, Eq, Structural)]
pub struct TcpHeader {
    pub flags: u8,
    pub acknowledgement: u32,
}

// ---------------------------------------------------------------------
// Byte layout
/// `s` with the big-endian 16-bit value `v` written at `at`, as
/// `pnet_packet` writes a `u16be` field.
pub open spec fn put_u16(s: Seq<u8>, at: int, v: u16) -> Seq<u8> {
    s.update(at, ((v & 0xff00) >> 8) as u8).update(at + 1, v as u8)
}

/// `s` with the big-endian 32-bit value `v` written at `at`, as
/// `pnet_packet` writes a `u32be` field.
pub open spec fn put_u32(s: Seq<u8>, at: int, v: u32) -> Seq<u8> {
    s.update(at, ((v & 0xff00_0000) >> 24) as u8).update(at + 1, ((v & 0x00ff_0000) >> 16) as u8).update(
        at + 2,
        ((v & 0x0000_ff00) >> 8) as u8,
    ).update(at + 3, v as u8)
}

/// The big-endian 16-bit value at `at`.
pub open spec fn get_u16(s: Seq<u8>, at: int) -> int {
    s[at] * 256 + s[at + 1]
}

/// The big-endian 32-bit value at `at`.
pub open spec fn get_u32(s: Seq<u8>, at: int) -> int {
    ((s[at] * 256 + s[at + 1]) * 256 + s[at + 2]) * 256 + s[at + 3]
}

// ---------------------------------------------------------------------
// The internet checksum, as `pnet_packet::util` computes it
/// The sum of the big-endian 16-bit words of `data`, leaving out the word at
/// position `skipword`; an odd last byte counts as the high byte of a word.
pub open spec fn be_word_sum(data: Seq<u8>, skipword: int) -> int
    decreases data.len(),
{
    if data.len() < 2 {
        if data.len() == 1 && skipword != 0 {
            data[0] * 256
        } else {
            0
        }
    } else {
        (if skipword != 0 {
            data[0] * 256 + data[1]
        } else {
            0
        }) + be_word_sum(data.subrange(2, data.len() as int), skipword - 1)
    }
}

/// The sum `sum` with its carries above 16 bits added back in, until it fits.
pub open spec fn fold_carries(sum: int) -> int
    decreases sum,
{
    if sum < 0x1_0000 {
        sum
    } else {
        fold_carries(sum / 0x1_0000 + sum % 0x1_0000)
    }
}

/// The ones' complement of the folded sum.
pub open spec fn finalize_checksum(sum: int) -> u16 {
    (0xffff - fold_carries(sum)) as u16
}

/// The checksum of `data` that `pnet_packet::util::checksum` gives.
pub open spec fn internet_checksum(data: Seq<u8>, skipword: int) -> u16 {
    if data.len() == 0 {
        0
    } else {
        finalize_checksum(be_word_sum(data, skipword))
    }
}

/// The sum of the IPv4 pseudo-header that `pnet_packet::util::ipv4_checksum`
/// adds in: both addresses as 16-bit words, the protocol and the length.
pub open spec fn pseudo_header_sum(
    source: Ipv4Address,
    destination: Ipv4Address,
    protocol: u8,
    length: int,
) -> int {
    (source.a * 256 + source.b) + (source.c * 256 + source.d) + (destination.a * 256
        + destination.b) + (destination.c * 256 + destination.d) + protocol + length
}

/// The checksum that `pnet_packet::util::ipv4_checksum` gives.
pub open spec fn ipv4_pseudo_checksum(
    data: Seq<u8>,
    skipword: int,
    extra: Seq<u8>,
    source: Ipv4Address,
    destination: Ipv4Address,
    protocol: u8,
) -> u16 {
    finalize_checksum(
        pseudo_header_sum(source, destination, protocol, (data.len() + extra.len()) as int) + be_word_sum(
            data,
            skipword,
        ) + be_word_sum(extra, (extra.len() / 2) as int),
    )
}

// ---------------------------------------------------------------------
// Trusted calls into pnet_packet. Each setter views `packet[0..20]` as an
// IPv4 header (`MutableIpv4Packet::new`, which succeeds on 20 bytes) or
// `packet[20..40]` as a TCP header (`MutableTcpPacket::new`) and calls one
// setter, which pnet_macros generates to write the field's bits in place.
/// `MutableIpv4Packet::set_version` on `packet[0..20]`: the high nibble of
/// byte 0 becomes `version`.
#[verifier::external_body]
fn ipv4_set_version(packet: &mut Vec<u8>, version: u8)
    requires
        old(packet)@.len() >= IP_HEADER_LENGTH,
    ensures
        final(packet)@ == old(packet)@.update(
            0,
            ((old(packet)@[0] & 0x0f) | ((version & 0xf) << 4u8)) as u8,
        ),
{
    if let Some(mut header) = MutableIpv4Packet::new(&mut packet[0..IP_HEADER_LENGTH]) {
        header.set_version(version);
    }
}

/// `MutableIpv4Packet::set_header_length` on `packet[0..20]`: the low
/// nibble of byte 0 becomes `length`.
#[verifier::external_body]
fn ipv4_set_header_length(packet: &mut Vec<u8>, length: u8)
    requires
        old(packet)@.len() >= IP_HEADER_LENGTH,
    ensures
        final(packet)@ == old(packet)@.update(0, ((old(packet)@[0] & 0xf0) | (length & 0xf)) as u8),
{
    if let Some(mut header) = MutableIpv4Packet::new(&mut packet[0..IP_HEADER_LENGTH]) {
        header.set_header_length(length);
    }
}

/// `MutableIpv4Packet::set_total_length` on `packet[0..20]`: bytes 2..4.
#[verifier::external_body]
fn ipv4_set_total_length(packet: &mut Vec<u8>, length: u16)
    requires
        old(packet)@.len() >= IP_HEADER_LENGTH,
    ensures
        final(packet)@ == put_u16(old(packet)@, 2, length),
{
    if let Some(mut header) = MutableIpv4Packet::new(&mut packet[0..IP_HEADER_LENGTH]) {
        header.set_total_length(length);
    }
}

/// `MutableIpv4Packet::set_ttl` on `packet[0..20]`: byte 8.
#[verifier::external_body]
fn ipv4_set_ttl(packet: &mut Vec<u8>, ttl: u8)
    requires
        old(packet)@.len() >= IP_HEADER_LENGTH,
    ensures
        final(packet)@ == old(packet)@.update(8, ttl),
{
    if let Some(mut header) = MutableIpv4Packet::new(&mut packet[0..IP_HEADER_LENGTH]) {
        header.set_ttl(ttl);
    }
}

/// `MutableIpv4Packet::set_next_level_protocol` on `packet[0..20]` with the
/// protocol number `protocol`: byte 9.
#[verifier::external_body]
fn ipv4_set_next_level_protocol(packet: &mut Vec<u8>, protocol: u8)
    requires
        old(packet)@.len() >= IP_HEADER_LENGTH,
    ensures
        final(packet)@ == old(packet)@.update(9, protocol),
{
    if let Some(mut header) = MutableIpv4Packet::new(&mut packet[0..IP_HEADER_LENGTH]) {
        header.set_next_level_protocol(IpNextHeaderProtocol::new(protocol));
    }
}

/// `MutableIpv4Packet::set_checksum` on `packet[0..20]`: bytes 10..12.
#[verifier::external_body]
fn ipv4_set_checksum(packet: &mut Vec<u8>, sum: u16)
    requires
        old(packet)@.len() >= IP_HEADER_LENGTH,
    ensures
        final(packet)@ == put_u16(old(packet)@, 10, sum),
{
    if let Some(mut header) = MutableIpv4Packet::new(&mut packet[0..IP_HEADER_LENGTH]) {
        header.set_checksum(sum);
    }
}

/// `MutableIpv4Packet::set_source` on `packet[0..20]`: bytes 12..16 become
/// the octets of `ip`.
#[verifier::external_body]
fn ipv4_set_source(packet: &mut Vec<u8>, ip: Ipv4Address)
    requires
        old(packet)@.len() >= IP_HEADER_LENGTH,
    ensures
        final(packet)@ == old(packet)@.update(12, ip.a).update(13, ip.b).update(14, ip.c).update(
            15,
            ip.d,
        ),
{
    if let Some(mut header) = MutableIpv4Packet::new(&mut packet[0..IP_HEADER_LENGTH]) {
        header.set_source([ip.a, ip.b, ip.c, ip.d].into());
    }
}

/// `MutableIpv4Packet::set_destination` on `packet[0..20]`: bytes 16..20
/// become the octets of `ip`.
#[verifier::external_body]
fn ipv4_set_destination(packet: &mut Vec<u8>, ip: Ipv4Address)
    requires
        old(packet)@.len() >= IP_HEADER_LENGTH,
    ensures
        final(packet)@ == old(packet)@.update(16, ip.a).update(17, ip.b).update(18, ip.c).update(
            19,
            ip.d,
        ),
{
    if let Some(mut header) = MutableIpv4Packet::new(&mut packet[0..IP_HEADER_LENGTH]) {
        header.set_destination([ip.a, ip.b, ip.c, ip.d].into());
    }
}

/// `MutableTcpPacket::set_source` on `packet[20..40]`: bytes 20..22.
#[verifier::external_body]
fn tcp_set_source(packet: &mut Vec<u8>, port: u16)
    requires
        old(packet)@.len() >= TOTAL_LENGTH,
    ensures
        final(packet)@ == put_u16(old(packet)@, 20, port),
{
    if let Some(mut header) = MutableTcpPacket::new(&mut packet[IP_HEADER_LENGTH..TOTAL_LENGTH]) {
        header.set_source(port);
    }
}

/// `MutableTcpPacket::set_destination` on `packet[20..40]`: bytes 22..24.
#[verifier::external_body]
fn tcp_set_destination(packet: &mut Vec<u8>, port: u16)
    requires
        old(packet)@.len() >= TOTAL_LENGTH,
    ensures
        final(packet)@ == put_u16(old(packet)@, 22, port),
{
    if let Some(mut header) = MutableTcpPacket::new(&mut packet[IP_HEADER_LENGTH..TOTAL_LENGTH]) {
        header.set_destination(port);
    }
}

/// `MutableTcpPacket::set_sequence` on `packet[20..40]`: bytes 24..28.
#[verifier::external_body]
fn tcp_set_sequence(packet: &mut Vec<u8>, sequence: u32)
    requires
        old(packet)@.len() >= TOTAL_LENGTH,
    ensures
        final(packet)@ == put_u32(old(packet)@, 24, sequence),
{
    if let Some(mut header) = MutableTcpPacket::new(&mut packet[IP_HEADER_LENGTH..TOTAL_LENGTH]) {
        header.set_sequence(sequence);
    }
}

/// `MutableTcpPacket::set_acknowledgement` on `packet[20..40]`: bytes 28..32.
#[verifier::external_body]
fn tcp_set_acknowledgement(packet: &mut Vec<u8>, acknowledgement: u32)
    requires
        old(packet)@.len() >= TOTAL_LENGTH,
    ensures
        final(packet)@ == put_u32(old(packet)@, 28, acknowledgement),
{
    if let Some(mut header) = MutableTcpPacket::new(&mut packet[IP_HEADER_LENGTH..TOTAL_LENGTH]) {
        header.set_acknowledgement(acknowledgement);
    }
}

/// `MutableTcpPacket::set_data_offset` on `packet[20..40]`: the high nibble
/// of byte 32 becomes `offset`.
#[verifier::external_body]
fn tcp_set_data_offset(packet: &mut Vec<u8>, offset: u8)
    requires
        old(packet)@.len() >= TOTAL_LENGTH,
    ensures
        final(packet)@ == old(packet)@.update(
            32,
            ((old(packet)@[32] & 0x0f) | ((offset & 0xf) << 4u8)) as u8,
        ),
{
    if let Some(mut header) = MutableTcpPacket::new(&mut packet[IP_HEADER_LENGTH..TOTAL_LENGTH]) {
        header.set_data_offset(offset);
    }
}

/// `MutableTcpPacket::set_flags` on `packet[20..40]`: byte 33.
#[verifier::external_body]
fn tcp_set_flags(packet: &mut Vec<u8>, flags: u8)
    requires
        old(packet)@.len() >= TOTAL_LENGTH,
    ensures
        final(packet)@ == old(packet)@.update(33, flags),
{
    if let Some(mut header) = MutableTcpPacket::new(&mut packet[IP_HEADER_LENGTH..TOTAL_LENGTH]) {
        header.set_flags(flags);
    }
}

/// `MutableTcpPacket::set_window` on `packet[20..40]`: bytes 34..36.
#[verifier::external_body]
fn tcp_set_window(packet: &mut Vec<u8>, window: u16)
    requires
        old(packet)@.len() >= TOTAL_LENGTH,
    ensures
        final(packet)@ == put_u16(old(packet)@, 34, window),
{
    if let Some(mut header) = MutableTcpPacket::new(&mut packet[IP_HEADER_LENGTH..TOTAL_LENGTH]) {
        header.set_window(window);
    }
}

/// `MutableTcpPacket::set_checksum` on `packet[20..40]`: bytes 36..38.
#[verifier::external_body]
fn tcp_set_checksum(packet: &mut Vec<u8>, sum: u16)
    requires
        old(packet)@.len() >= TOTAL_LENGTH,
    ensures
        final(packet)@ == put_u16(old(packet)@, 36, sum),
{
    if let Some(mut header) = MutableTcpPacket::new(&mut packet[IP_HEADER_LENGTH..TOTAL_LENGTH]) {
        header.set_checksum(sum);
    }
}

/// `MutableTcpPacket::set_urgent_ptr` on `packet[20..40]`: bytes 38..40.
#[verifier::external_body]
fn tcp_set_urgent_ptr(packet: &mut Vec<u8>, pointer: u16)
    requires
        old(packet)@.len() >= TOTAL_LENGTH,
    ensures
        final(packet)@ == put_u16(old(packet)@, 38, pointer),
{
    if let Some(mut header) = MutableTcpPacket::new(&mut packet[IP_HEADER_LENGTH..TOTAL_LENGTH]) {
        header.set_urgent_ptr(pointer);
    }
}

/// `pnet_packet::util::checksum` of `packet[start..end]`, leaving out the
/// word at `skipword`. The bound on the length keeps its 32-bit sum from
/// overflowing.
#[verifier::external_body]
fn checksum_of(packet: &Vec<u8>, start: usize, end: usize, skipword: usize) -> (sum: u16)
    requires
        start <= end <= packet@.len(),
        end - start <= 0x1_0000,
    ensures
        sum == internet_checksum(packet@.subrange(start as int, end as int), skipword as int),
{
    checksum(&packet[start..end], skipword)
}

/// `pnet_packet::util::ipv4_checksum` of `packet[start..end]` (leaving out
/// the word at `skipword`) and `extra`, with the pseudo-header of
/// `source`, `destination` and `protocol`. The bound on the length keeps
/// its 32-bit sum from overflowing.
#[verifier::external_body]
fn ipv4_checksum_of(
    packet: &Vec<u8>,
    start: usize,
    end: usize,
    skipword: usize,
    extra: &[u8],
    source: Ipv4Address,
    destination: Ipv4Address,
    protocol: u8,
) -> (sum: u16)
    requires
        start <= end <= packet@.len(),
        end - start + extra@.len() <= 0x1_0000,
    ensures
        sum == ipv4_pseudo_checksum(
            packet@.subrange(start as int, end as int),
            skipword as int,
            extra@,
            source,
            destination,
            protocol,
        ),
{
    ipv4_checksum(
        &packet[start..end],
        skipword,
        extra,
        &[source.a, source.b, source.c, source.d].into(),
        &[destination.a, destination.b, destination.c, destination.d].into(),
        IpNextHeaderProtocol::new(protocol),
    )
}

/// `Ipv4Packet::new(buf)` and `get_header_length`: `None` when `buf` is
/// shorter than an IPv4 header, else the low nibble of byte 0.
#[verifier::external_body]
fn ipv4_header_length(buf: &[u8]) -> (length: Option<u8>)
    ensures
        buf@.len() < IP_HEADER_LENGTH ==> length is None,
        buf@.len() >= IP_HEADER_LENGTH ==> length == Some((buf@[0] & 0x0f) as u8),
{
    match Ipv4Packet::new(buf) {
        Some(ip) => Some(ip.get_header_length()),
        None => None,
    }
}

/// `TcpPacket::new(&buf[offset..])` and `get_flags`: `None` when fewer than
/// 20 bytes follow `offset`, else byte 13 after `offset`.
#[verifier::external_body]
fn tcp_flags_at(buf: &[u8], offset: usize) -> (flags: Option<u8>)
    requires
        offset <= buf@.len(),
    ensures
        buf@.len() - offset < TCP_HEADER_LENGTH ==> flags is None,
        buf@.len() - offset >= TCP_HEADER_LENGTH ==> flags == Some(buf@[offset + 13]),
{
    match TcpPacket::new(&buf[offset..]) {
        Some(tcp) => Some(tcp.get_flags()),
        None => None,
    }
}

/// `TcpPacket::new(&buf[offset..])` and `get_acknowledgement`: `None` when
/// fewer than 20 bytes follow `offset`, else the big-endian value of bytes
/// 8..12 after `offset`.
#[verifier::external_body]
fn tcp_acknowledgement_at(buf: &[u8], offset: usize) -> (ack: Option<u32>)
    requires
        offset <= buf@.len(),
    ensures
        buf@.len() - offset < TCP_HEADER_LENGTH ==> ack is None,
        buf@.len() - offset >= TCP_HEADER_LENGTH ==> ack == Some(get_u32(buf@, offset + 8) as u32),
{
    match TcpPacket::new(&buf[offset..]) {
        Some(tcp) => Some(tcp.get_acknowledgement()),
        None => None,
    }
}

// ---------------------------------------------------------------------
// Facts about the byte layout
/// Reading back a 16-bit value written at `at` gives it; the other bytes stay.
pub proof fn lemma_put_u16(s: Seq<u8>, at: int, v: u16)
    requires
        0 <= at && at + 2 <= s.len(),
    ensures
        put_u16(s, at, v).len() == s.len(),
        get_u16(put_u16(s, at, v), at) == v,
        forall|i: int| 0 <= i < s.len() && i != at && i != at + 1 ==> #[trigger] put_u16(s, at, v)[i] == s[i],
{
    let hi = ((v & 0xff00) >> 8) as u8;
    let lo = v as u8;
    assert(hi as int * 256 + lo as int == v as int) by (bit_vector)
        requires
            hi == ((v & 0xff00) >> 8) as u8,
            lo == v as u8,
    ;
}

/// Reading back a 32-bit value written at `at` gives it; the other bytes stay.
pub proof fn lemma_put_u32(s: Seq<u8>, at: int, v: u32)
    requires
        0 <= at && at + 4 <= s.len(),
    ensures
        put_u32(s, at, v).len() == s.len(),
        get_u32(put_u32(s, at, v), at) == v,
        forall|i: int| 0 <= i < s.len() && !(at <= i < at + 4) ==> #[trigger] put_u32(s, at, v)[i] == s[i],
{
    let b0 = ((v & 0xff00_0000) >> 24) as u8;
    let b1 = ((v & 0x00ff_0000) >> 16) as u8;
    let b2 = ((v & 0x0000_ff00) >> 8) as u8;
    let b3 = v as u8;
    assert(((b0 as int * 256 + b1 as int) * 256 + b2 as int) * 256 + b3 as int == v as int) by (bit_vector)
        requires
            b0 == ((v & 0xff00_0000) >> 24) as u8,
            b1 == ((v & 0x00ff_0000) >> 16) as u8,
            b2 == ((v & 0x0000_ff00) >> 8) as u8,
            b3 == v as u8,
    ;
}

// ---------------------------------------------------------------------
// The probe
/// Whether bytes `0..20` of `b` are the IPv4 header of a probe from
/// `source` to `destination`, built on the bytes `o`: version 4, header
/// length 5 words, total length 40, TTL 64, protocol TCP, the two
/// addresses, and in the checksum field what `pnet_packet::util::checksum`
/// gives for the header with that field zeroed, leaving out word 0 (the
/// version, header length and service type word). Bytes 1 and 4..8 (type
/// of service, identification, flags, fragment offset) keep their value.
pub open spec fn is_probe_ipv4_header(
    b: Seq<u8>,
    o: Seq<u8>,
    source: Ipv4Address,
    destination: Ipv4Address,
) -> bool {
    &&& b.len() == o.len()
    &&& b.len() >= IP_HEADER_LENGTH
    &&& b[0] == 0x45
    &&& b[1] == o[1]
    &&& get_u16(b, 2) == TOTAL_LENGTH
    &&& b[4] == o[4] && b[5] == o[5] && b[6] == o[6] && b[7] == o[7]
    &&& b[8] == PROBE_TTL
    &&& b[9] == IP_PROTOCOL_TCP
    &&& get_u16(b, 10) == internet_checksum(b.subrange(0, 20).update(10, 0).update(11, 0), 0)
    &&& b[12] == source.a && b[13] == source.b && b[14] == source.c && b[15] == source.d
    &&& b[16] == destination.a && b[17] == destination.b && b[18] == destination.c && b[19]
        == destination.d
}

/// Whether bytes `20..40` of `b` are the TCP header of a probe from
/// `source` to `destination` with sequence number `sequence`, built on the
/// bytes `o`: the two ports, that sequence number, acknowledgement 0, data
/// offset 5 words (the low nibble of byte 32 keeps its value), the flag SYN
/// alone, window 64240, urgent pointer 0, and in the checksum field what
/// `pnet_packet::util::ipv4_checksum` gives for the header (leaving out the
/// checksum word) with the pseudo-header of the two addresses and TCP.
pub open spec fn is_probe_tcp_header(
    b: Seq<u8>,
    o: Seq<u8>,
    source: SocketAddress,
    destination: SocketAddress,
    sequence: u32,
) -> bool {
    &&& b.len() == o.len()
    &&& b.len() >= TOTAL_LENGTH
    &&& get_u16(b, 20) == source.port
    &&& get_u16(b, 22) == destination.port
    &&& get_u32(b, 24) == sequence
    &&& get_u32(b, 28) == 0
    &&& b[32] == (0x50 | (o[32] & 0x0f)) as u8
    &&& b[33] == TCP_FLAG_SYN
    &&& get_u16(b, 34) == PROBE_WINDOW
    &&& get_u16(b, 36) == ipv4_pseudo_checksum(
        b.subrange(20, 40).update(16, 0).update(17, 0),
        8,
        Seq::empty(),
        source.ip,
        destination.ip,
        IP_PROTOCOL_TCP,
    )
    &&& get_u16(b, 38) == 0
}

/// Writes the IPv4 header of a probe from `source` to `destination` into
/// bytes `0..20` of `header`; leaves `header` as it is when it is shorter
/// than an IPv4 header.
fn fill_ipv4_header(header: &mut Vec<u8>, source: Ipv4Address, destination: Ipv4Address)
    ensures
        old(header)@.len() < IP_HEADER_LENGTH ==> final(header)@ == old(header)@,
        old(header)@.len() >= IP_HEADER_LENGTH ==> ({
            let (b, o) = (final(header)@, old(header)@);
            &&& is_probe_ipv4_header(b, o, source, destination)
            &&& forall|i: int| IP_HEADER_LENGTH <= i < b.len() ==> #[trigger] b[i] == o[i]
        }),
{
    if header.len() < IP_HEADER_LENGTH {
        return;
    }
    let ghost o = header@;
    ipv4_set_version(header, 4);
    ipv4_set_header_length(header, 5);
    ipv4_set_total_length(header, 40);
    ipv4_set_ttl(header, PROBE_TTL);
    ipv4_set_next_level_protocol(header, IP_PROTOCOL_TCP);
    ipv4_set_source(header, source);
    ipv4_set_destination(header, destination);
    ipv4_set_checksum(header, 0);
    let ghost zeroed = header@;
    let ip_checksum = checksum_of(header, 0, IP_HEADER_LENGTH, 0);
    ipv4_set_checksum(header, ip_checksum);
    proof {
        let b = header@;
        lemma_put_u16(zeroed, 10, ip_checksum);
        let o0 = o[0];
        assert((((((o0 & 0x0f) | ((4u8 & 0xf) << 4u8)) as u8) & 0xf0) | (5u8 & 0xf)) as u8 == 0x45u8)
            by (bit_vector);
        assert(((40u16 & 0xff00) >> 8) as u8 == 0 && 40u16 as u8 == 40) by (bit_vector);
        assert(((0u16 & 0xff00) >> 8) as u8 == 0 && 0u16 as u8 == 0) by (bit_vector);
        assert(b.subrange(0, 20).update(10, 0).update(11, 0) == zeroed.subrange(0, 20));
    }
}

/// Writes the TCP header of a SYN probe from `source` to `destination`
/// with sequence number `sequence` into bytes `20..40` of `header`; leaves
/// `header` as it is when those bytes are not all there.
fn fill_tcp_header(
    header: &mut Vec<u8>,
    source: SocketAddress,
    destination: SocketAddress,
    sequence: u32,
)
    ensures
        old(header)@.len() < TOTAL_LENGTH ==> final(header)@ == old(header)@,
        old(header)@.len() >= TOTAL_LENGTH ==> ({
            let (b, o) = (final(header)@, old(header)@);
            &&& is_probe_tcp_header(b, o, source, destination, sequence)
            &&& forall|i: int|
                0 <= i < b.len() && !(IP_HEADER_LENGTH <= i < TOTAL_LENGTH) ==> #[trigger] b[i]
                    == o[i]
        }),
{
    if header.len() < TOTAL_LENGTH {
        return;
    }
    let ghost o = header@;
    tcp_set_source(header, source.port);
    proof { lemma_put_u16(o, 20, source.port); }
    let ghost s1 = header@;
    tcp_set_destination(header, destination.port);
    proof { lemma_put_u16(s1, 22, destination.port); }
    let ghost s2 = header@;
    tcp_set_sequence(header, sequence);
    proof { lemma_put_u32(s2, 24, sequence); }
    let ghost s3 = header@;
    tcp_set_acknowledgement(header, 0);
    proof { lemma_put_u32(s3, 28, 0); }
    let ghost s4 = header@;
    tcp_set_flags(header, TCP_FLAG_SYN);
    tcp_set_data_offset(header, 5);
    tcp_set_urgent_ptr(header, 0);
    proof { lemma_put_u16(s4.update(33, TCP_FLAG_SYN).update(32, ((s4[32] & 0x0f) | ((5u8 & 0xf) << 4u8)) as u8), 38, 0); }
    let ghost s5 = header@;
    tcp_set_window(header, PROBE_WINDOW);
    proof { lemma_put_u16(s5, 34, PROBE_WINDOW); }
    let ghost s6 = header@;
    tcp_set_checksum(header, 0);
    proof { lemma_put_u16(s6, 36, 0); }
    let ghost zeroed = header@;
    let tcp_checksum = ipv4_checksum_of(
        header,
        IP_HEADER_LENGTH,
        TOTAL_LENGTH,
        8,
        &[],
        source.ip,
        destination.ip,
        IP_PROTOCOL_TCP,
    );
    tcp_set_checksum(header, tcp_checksum);
    proof {
        let b = header@;
        lemma_put_u16(zeroed, 36, tcp_checksum);
        let o32 = o[32];
        assert((((o32 & 0x0f) | ((5u8 & 0xf) << 4u8)) as u8) == (0x50u8 | (o32 & 0x0f)) as u8)
            by (bit_vector);
        assert(b.subrange(20, 40).update(16, 0).update(17, 0) == zeroed.subrange(20, 40));
        assert(get_u16(zeroed, 36) == 0);
    }
}

/// Writes a SYN probe from `source` to `destination` with sequence number
/// `sequence` into the first 40 bytes of `buffer`: an IPv4 header in bytes
/// `0..20` and a TCP header in bytes `20..40`. The rest of `buffer` is left
/// as it was.
pub fn create_syn_packet(
    buffer: &mut Vec<u8>,
    source: SocketAddress,
    destination: SocketAddress,
    sequence_number: u32,
)
    requires
        old(buffer)@.len() >= TOTAL_LENGTH,
    ensures
        is_probe_ipv4_header(final(buffer)@, old(buffer)@, source.ip, destination.ip),
        is_probe_tcp_header(final(buffer)@, old(buffer)@, source, destination, sequence_number),
        forall|i: int|
            TOTAL_LENGTH <= i < final(buffer)@.len() ==> #[trigger] final(buffer)@[i] == old(
                buffer,
            )@[i],
{
    let ghost o = buffer@;
    fill_ipv4_header(buffer, source.ip, destination.ip);
    let ghost mid = buffer@;
    fill_tcp_header(buffer, source, destination, sequence_number);
    proof {
        let b = buffer@;
        assert(b.subrange(0, 20) == mid.subrange(0, 20));
        assert(b.subrange(0, 20).update(10, 0).update(11, 0) == mid.subrange(0, 20).update(10, 0).update(11, 0));
        assert(b[32] == (0x50 | (mid[32] & 0x0f)) as u8);
    }
}

/// Reads the parts of a reply that the scanner uses: the IPv4 header
/// length, and the flags and acknowledgement number of the TCP header that
/// follows the IPv4 header. `None` when `buf` is too short for either.
pub fn parse_packet(buf: &[u8]) -> (res: Option<(Ipv4Header, TcpHeader)>)
    requires
        buf@.len() >= IP_HEADER_LENGTH ==> (buf@[0] & 0x0f) * 4 <= buf@.len(),
    ensures
        res == parsed_reply(buf@),
{
    let header_length = match ipv4_header_length(buf) {
        Some(length) => length,
        None => {
            return None;
        },
    };
    proof {
        let b0 = buf@[0];
        assert((b0 & 0x0f) <= 15) by (bit_vector);
    }
    let offset = (header_length * 4) as usize;
    let flags = match tcp_flags_at(buf, offset) {
        Some(flags) => flags,
        None => {
            return None;
        },
    };
    let acknowledgement = match tcp_acknowledgement_at(buf, offset) {
        Some(ack) => ack,
        None => {
            return None;
        },
    };
    Some((Ipv4Header { header_length }, TcpHeader { flags, acknowledgement }))
}

/// What `parse_packet` reads from the bytes `b`.
pub open spec fn parsed_reply(b: Seq<u8>) -> Option<(Ipv4Header, TcpHeader)> {
    if b.len() < IP_HEADER_LENGTH {
        None
    } else {
        let header_length = (b[0] & 0x0f) as u8;
        let offset = header_length * 4;
        if b.len() - offset < TCP_HEADER_LENGTH {
            None
        } else {
            Some(
                (
                    Ipv4Header { header_length },
                    TcpHeader { flags: b[offset + 13], acknowledgement: get_u32(b, offset + 8) as u32 },
                ),
            )
        }
    }
}

/// How a reply reads, byte by byte: with `h` the low four bits of byte 0
/// (the IPv4 header length in 32-bit words), when the bytes hold an IPv4
/// header and at least 20 bytes follow its `4h` bytes, the reply reads as
/// `h`, the flags at byte `4h + 13` and the big-endian acknowledgement
/// number at bytes `4h + 8 .. 4h + 12`, whatever the flags and however many
/// bytes follow those 20; otherwise it reads as nothing.
pub proof fn lemma_reply_reads_header_fields(b: Seq<u8>)
    ensures
        b.len() < 20 ==> parsed_reply(b) is None,
        b.len() >= 20 && b.len() < (b[0] % 16) * 4 + 20 ==> parsed_reply(b) is None,
        b.len() >= 20 && (b[0] % 16) * 4 + 20 <= b.len() ==> ({
            let o = (b[0] % 16) * 4;
            parsed_reply(b) == Some(
                (
                    Ipv4Header { header_length: (b[0] % 16) as u8 },
                    TcpHeader {
                        flags: b[o + 13],
                        acknowledgement: (b[o + 8] * 0x100_0000 + b[o + 9] * 0x1_0000 + b[o + 10]
                            * 0x100 + b[o + 11]) as u32,
                    },
                ),
            )
        }),
{
    if b.len() >= 20 {
        let b0 = b[0];
        assert(b0 & 0x0f == b0 % 16) by (bit_vector);
        let o = (b[0] % 16) * 4;
        if o + 20 <= b.len() {
            assert(get_u32(b, o + 8) == b[o + 8] * 0x100_0000 + b[o + 9] * 0x1_0000 + b[o + 10]
                * 0x100 + b[o + 11]);
        }
    }
}

/// A probe reads back as a reply: header length 5 words, the flag SYN
/// alone, acknowledgement number 0.
pub proof fn lemma_probe_parses(
    b: Seq<u8>,
    o: Seq<u8>,
    source: SocketAddress,
    destination: SocketAddress,
    sequence: u32,
)
    requires
        is_probe_ipv4_header(b, o, source.ip, destination.ip),
        is_probe_tcp_header(b, o, source, destination, sequence),
    ensures
        parsed_reply(b) == Some(
            (
                Ipv4Header { header_length: 5 },
                TcpHeader { flags: TCP_FLAG_SYN, acknowledgement: 0 },
            ),
        ),
{
    assert((0x45u8 & 0x0f) == 5u8) by (bit_vector);
}

// ---------------------------------------------------------------------
// The TCP checksum of a probe verifies
/// The sum that a receiver of the probe `b` computes over the
/// pseudo-header and the whole TCP header, checksum included.
pub open spec fn tcp_receiver_sum(b: Seq<u8>, source: Ipv4Address, destination: Ipv4Address) -> int {
    pseudo_header_sum(source, destination, IP_PROTOCOL_TCP, TCP_HEADER_LENGTH as int) + be_word_sum(
        b.subrange(IP_HEADER_LENGTH as int, TOTAL_LENGTH as int),
        -1,
    )
}

/// A word sum is never negative, and a negative skip position skips nothing.
proof fn lemma_word_sum_no_skip(t: Seq<u8>, skip: int)
    ensures
        be_word_sum(t, skip) >= 0,
        skip < 0 ==> be_word_sum(t, skip) == be_word_sum(t, -1),
    decreases t.len(),
{
    if t.len() >= 2 {
        lemma_word_sum_no_skip(t.subrange(2, t.len() as int), skip - 1);
        lemma_word_sum_no_skip(t.subrange(2, t.len() as int), -2);
    }
}

/// Summing all words is summing all words but the one at `k`, plus that one.
proof fn lemma_word_sum_split(t: Seq<u8>, k: int)
    requires
        0 <= k,
        2 * k + 1 < t.len(),
    ensures
        be_word_sum(t, -1) == be_word_sum(t, k) + t[2 * k] * 256 + t[2 * k + 1],
    decreases k,
{
    let rest = t.subrange(2, t.len() as int);
    lemma_word_sum_no_skip(rest, -2);
    if k > 0 {
        lemma_word_sum_split(rest, k - 1);
        assert(rest[2 * (k - 1)] == t[2 * k]);
        assert(rest[2 * (k - 1) + 1] == t[2 * k + 1]);
    } else {
        lemma_word_sum_no_skip(rest, -1);
    }
}

/// The word that is left out of a sum does not count, whatever it holds.
proof fn lemma_word_sum_ignores_skipped(t: Seq<u8>, k: int, x: u8, y: u8)
    requires
        0 <= k,
        2 * k + 1 < t.len(),
    ensures
        be_word_sum(t.update(2 * k, x).update(2 * k + 1, y), k) == be_word_sum(t, k),
    decreases k,
{
    let u = t.update(2 * k, x).update(2 * k + 1, y);
    if k > 0 {
        let rest = t.subrange(2, t.len() as int);
        lemma_word_sum_ignores_skipped(rest, k - 1, x, y);
        assert(u.subrange(2, u.len() as int) == rest.update(2 * (k - 1), x).update(2 * (k - 1) + 1, y));
        assert(u[0] == t[0] && u[1] == t[1]);
    } else {
        assert(u.subrange(2, u.len() as int) == t.subrange(2, t.len() as int));
    }
}

/// Folding carries keeps the sum modulo 65535 and gives a 16-bit value,
/// which is 0 only for a zero sum.
proof fn lemma_fold_carries(x: int)
    requires
        x >= 0,
    ensures
        0 <= fold_carries(x) < 0x1_0000,
        fold_carries(x) % 0xffff == x % 0xffff,
        x > 0 ==> fold_carries(x) > 0,
    decreases x,
{
    if x >= 0x1_0000 {
        let q = x / 0x1_0000;
        let r = x % 0x1_0000;
        assert(x == q * 0x1_0000 + r && q >= 1 && 0 <= r < 0x1_0000) by (nonlinear_arith)
            requires
                x >= 0x1_0000,
                q == x / 0x1_0000,
                r == x % 0x1_0000,
        ;
        assert((q * 0x1_0000 + r) % 0xffff == (q + r) % 0xffff) by (nonlinear_arith)
            requires
                q >= 1,
                0 <= r,
        {
            assert(q * 0x1_0000 + r == (q + r) + q * 0xffff);
            vstd::arithmetic::div_mod::lemma_mod_multiples_vanish(q, q + r, 0xffff);
        }
        lemma_fold_carries(q + r);
    }
}

/// The TCP checksum of a probe verifies: a receiver that sums the
/// pseudo-header and the whole TCP header, checksum included, and folds
/// the carries gets 0xffff.
pub proof fn lemma_probe_tcp_checksum_verifies(
    b: Seq<u8>,
    o: Seq<u8>,
    source: SocketAddress,
    destination: SocketAddress,
    sequence: u32,
)
    requires
        is_probe_tcp_header(b, o, source, destination, sequence),
    ensures
        fold_carries(tcp_receiver_sum(b, source.ip, destination.ip)) == 0xffff,
{
    let t = b.subrange(20, 40);
    let z = t.update(16, 0).update(17, 0);
    let p = pseudo_header_sum(source.ip, destination.ip, IP_PROTOCOL_TCP, 20);
    lemma_word_sum_no_skip(z, 8);
    let x = p + be_word_sum(z, 8);
    assert(z.len() == 20);
    assert(be_word_sum(Seq::<u8>::empty(), 0) == 0);
    assert(get_u16(b, 36) == finalize_checksum(x));
    lemma_fold_carries(x);
    let c = 0xffff - fold_carries(x);
    assert(get_u16(b, 36) == c);
    lemma_word_sum_split(t, 8);
    lemma_word_sum_ignores_skipped(t, 8, 0, 0);
    assert(t[16] == b[36] && t[17] == b[37]);
    let total = tcp_receiver_sum(b, source.ip, destination.ip);
    assert(total == x + c);
    assert(total > 0);
    lemma_fold_carries(total);
    let f = fold_carries(x);
    assert(total % 0xffff == 0) by (nonlinear_arith)
        requires
            total == x + 0xffff - f,
            f % 0xffff == x % 0xffff,
            x >= 0,
            0 <= f < 0x1_0000,
    {
        vstd::arithmetic::div_mod::lemma_fundamental_div_mod(x, 0xffff);
        vstd::arithmetic::div_mod::lemma_fundamental_div_mod(f, 0xffff);
        assert(total == (x / 0xffff - f / 0xffff + 1) * 0xffff);
        vstd::arithmetic::div_mod::lemma_mod_multiples_basic(x / 0xffff - f / 0xffff + 1, 0xffff);
    }
}

} // verus!
