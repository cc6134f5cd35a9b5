//! Building capture files and Ethernet/IPv4/TCP frames, as the sample
//! capture generators do.

use vstd::prelude::*;
use crate::bytes::{
    be16_at, be16_bytes, be32_bytes, le16_at, le16_bytes, le32_at, le32_bytes, push_all,
    push_be16, push_be32, push_le16, push_le32,
};
use crate::pcap::{
    field32_at, l7_payload_readable, l7_payload_start, pcap_contents, records_from,
    ipv4_header_start, transport_payload_start,
};

verus! {

/// The 24-byte global header that the generators write: magic number,
/// version 2.4, zero zone and accuracy, snapshot length 65535, Ethernet links.
pub open spec fn pcap_header_bytes() -> Seq<u8> {
    seq![0xd4u8, 0xc3, 0xb2, 0xa1, 2, 0, 4, 0, 0, 0, 0, 0, 0, 0, 0, 0, 0xff, 0xff, 0, 0, 1, 0, 0, 0]
}

/// One packet record: timestamp, captured and original length (both the
/// length of `data`, kept to 32 bits), then the data.
pub open spec fn packet_record_bytes(ts_sec: u32, ts_usec: u32, data: Seq<u8>) -> Seq<u8> {
    record_header_bytes(ts_sec, ts_usec, data.len() as int % 0x1_0000_0000) + data
}

/// Appends the global header; the bytes are the same for either byte order,
/// since the big-endian magic number is itself written most significant first.
pub fn write_pcap_header(out: &mut Vec<u8>, little_endian: bool)
    ensures
        final(out)@ == old(out)@ + pcap_header_bytes(),
{
    let ghost start = out@;
    if little_endian {
        push_le32(out, 0xa1b2c3d4);
    } else {
        push_be32(out, 0xd4c3b2a1);
    }
    push_le16(out, 2);
    push_le16(out, 4);
    push_le32(out, 0);
    push_le32(out, 0);
    push_le32(out, 65535);
    push_le32(out, 1);
    assert(out@ =~= start + pcap_header_bytes());
}

/// Appends one packet record.
pub fn write_packet(out: &mut Vec<u8>, ts_sec: u32, ts_usec: u32, data: &[u8])
    ensures
        final(out)@ == old(out)@ + packet_record_bytes(ts_sec, ts_usec, data@),
{
    let ghost start = out@;
    push_le32(out, ts_sec);
    push_le32(out, ts_usec);
    let len32 = ((data.len() as u64) % 0x1_0000_0000) as u32;
    push_le32(out, len32);
    push_le32(out, len32);
    push_all(out, data);
    assert(out@ =~= start + packet_record_bytes(ts_sec, ts_usec, data@));
}

/// The 54-byte Ethernet, IPv4 and TCP headers of the small sample capture,
/// with the IPv4 total length `total`.
pub open spec fn sample_frame_header(total: int) -> Seq<u8> {
    seq![0x00u8, 0x11, 0x22, 0x33, 0x44, 0x55, 0x00, 0xaa, 0xbb, 0xcc, 0xdd, 0xee, 0x08, 0x00, 0x45, 0x00]
        + be16_bytes(total)
        + seq![0x12u8, 0x34, 0x40, 0x00, 64, 6, 0x00, 0x00, 192, 168, 1, 1, 192, 168, 1, 2,
            0x12, 0x34, 0x56, 0x78, 0, 0, 0, 1, 0, 0, 0, 2, 0x50, 0x18, 0xff, 0xff, 0, 0, 0, 0]
}

/// The 54-byte Ethernet, IPv4 and TCP headers of the large capture, with
/// the IPv4 total length `total`.
pub open spec fn bulk_frame_header(total: int) -> Seq<u8> {
    seq![0x00u8, 0x11, 0x22, 0x33, 0x44, 0x55, 0x00, 0xAA, 0xBB, 0xCC, 0xDD, 0xEE, 0x08, 0x00, 0x45, 0x00]
        + be16_bytes(total)
        + seq![0x00u8, 0x00, 0x40, 0x00, 0x40, 0x06, 0x00, 0x00, 192, 168, 1, 1, 192, 168, 1, 2,
            0x1F, 0x90, 0x1F, 0x91, 0, 0, 0, 0, 0, 0, 0, 0, 0x50, 0x18, 0x20, 0x00, 0, 0, 0, 0]
}

/// Wraps a payload in the Ethernet, IPv4 and TCP headers of the small
/// sample capture. The IPv4 total length is 40 plus the payload length
/// kept to 16 bits, which must not pass 65535.
pub fn make_ether_ip_tcp_payload(payload: &[u8]) -> (r: Vec<u8>)
    requires
        payload@.len() % 0x10000 + 40 <= 0xffff,
    ensures
        r@ == sample_frame_header((payload@.len() % 0x10000 + 40) as int) + payload@,
{
    let ip_total_len: u16 = 20 + 20 + (payload.len() % 0x10000) as u16;
    let mut pkt: Vec<u8> = Vec::new();
    pkt.push(0x00); pkt.push(0x11); pkt.push(0x22); pkt.push(0x33); pkt.push(0x44); pkt.push(0x55);
    pkt.push(0x00); pkt.push(0xaa); pkt.push(0xbb); pkt.push(0xcc); pkt.push(0xdd); pkt.push(0xee);
    push_be16(&mut pkt, 0x0800);
    pkt.push(0x45);
    pkt.push(0x00);
    push_be16(&mut pkt, ip_total_len);
    push_be16(&mut pkt, 0x1234);
    push_be16(&mut pkt, 0x4000);
    pkt.push(64);
    pkt.push(6);
    push_be16(&mut pkt, 0x0000);
    pkt.push(192); pkt.push(168); pkt.push(1); pkt.push(1);
    pkt.push(192); pkt.push(168); pkt.push(1); pkt.push(2);
    push_be16(&mut pkt, 0x1234);
    push_be16(&mut pkt, 0x5678);
    push_be32(&mut pkt, 0x00000001);
    push_be32(&mut pkt, 0x00000002);
    let tcp_data_offset: u8 = 5;
    pkt.push(tcp_data_offset * 16);
    pkt.push(0x18);
    push_be16(&mut pkt, 0xffff);
    push_be16(&mut pkt, 0x0000);
    push_be16(&mut pkt, 0x0000);
    let ghost before = pkt@;
    push_all(&mut pkt, payload);
    assert(before =~= sample_frame_header((payload@.len() % 0x10000 + 40) as int));
    pkt
}

/// Wraps a payload in the Ethernet, IPv4 and TCP headers of the large
/// capture; the IPv4 total length is kept to 16 bits.
pub fn build_eth_ip_tcp(payload: &[u8]) -> (r: Vec<u8>)
    requires
        payload@.len() + 40 <= usize::MAX,
    ensures
        r@ == bulk_frame_header(((payload@.len() + 40) % 0x10000) as int) + payload@,
{
    let total_len = 20 + 20 + payload.len();
    let t = (total_len % 0x10000) as u16;
    let hi = (t / 0x100) as u8;
    let lo = (t % 0x100) as u8;
    let h: [u8; 54] = [
        0x00, 0x11, 0x22, 0x33, 0x44, 0x55, 0x00, 0xAA, 0xBB, 0xCC, 0xDD, 0xEE, 0x08, 0x00,
        0x45, 0x00, hi, lo, 0x00, 0x00, 0x40, 0x00, 0x40, 0x06, 0x00, 0x00,
        192, 168, 1, 1, 192, 168, 1, 2,
        0x1F, 0x90, 0x1F, 0x91, 0, 0, 0, 0, 0, 0, 0, 0, 0x50, 0x18, 0x20, 0x00, 0, 0, 0, 0,
    ];
    assert(h@ =~= bulk_frame_header(((payload@.len() + 40) % 0x10000) as int));
    let mut v: Vec<u8> = Vec::new();
    push_all(&mut v, h.as_slice());
    push_all(&mut v, payload);
    assert(v@ =~= bulk_frame_header(((payload@.len() + 40) % 0x10000) as int) + payload@);
    v
}

/// The payload of the large capture for a message of type 1, 2 or 3 with
/// sequence number `seq`.
pub open spec fn matching_payload_bytes(msg_type: int, seq: u32) -> Seq<u8> {
    if msg_type == 1 {
        be16_bytes(20) + be32_bytes(1) + be32_bytes(seq as int) + be16_bytes(3)
            + seq![0x47u8, 0x45, 0x54] + seq![1u8, 2, 0x41, 0x42]
    } else if msg_type == 2 {
        be16_bytes(16) + be32_bytes(2) + be32_bytes(seq as int) + be16_bytes(200) + be16_bytes(2)
            + seq![0x4Fu8, 0x4B]
    } else {
        be16_bytes(36) + be32_bytes(3) + be16_bytes(2) + be32_bytes(100) + be16_bytes(5)
            + seq![0x41u8, 0x6c, 0x69, 0x63, 0x65] + be32_bytes(101) + be16_bytes(3)
            + seq![0x42u8, 0x6f, 0x62] + seq![10u8, 4, 0x74, 0x65, 0x73, 0x74]
    }
}

/// The payload of a matching message of the large capture.
pub fn build_matching_payload(msg_type: usize, seq: u32) -> (r: Vec<u8>)
    requires
        1 <= msg_type <= 3,
    ensures
        r@ == matching_payload_bytes(msg_type as int, seq),
{
    let mut v: Vec<u8> = Vec::new();
    if msg_type == 1 {
        let method: [u8; 3] = [0x47, 0x45, 0x54];
        let total_len: usize = 2 + 4 + 4 + 2 + 3 + 5;
        push_be16(&mut v, total_len as u16);
        push_be32(&mut v, 1);
        push_be32(&mut v, seq);
        push_be16(&mut v, 3);
        push_all(&mut v, method.as_slice());
        v.push(1);
        v.push(2);
        v.push(0x41);
        v.push(0x42);
        assert(v@ =~= matching_payload_bytes(msg_type as int, seq));
    } else if msg_type == 2 {
        let body: [u8; 2] = [0x4F, 0x4B];
        let total_len: usize = 2 + 4 + 4 + 2 + 2 + 2;
        push_be16(&mut v, total_len as u16);
        push_be32(&mut v, 2);
        push_be32(&mut v, seq);
        push_be16(&mut v, 200);
        push_be16(&mut v, 2);
        push_all(&mut v, body.as_slice());
        assert(v@ =~= matching_payload_bytes(msg_type as int, seq));
    } else {
        let name1: [u8; 5] = [0x41, 0x6c, 0x69, 0x63, 0x65];
        let name2: [u8; 3] = [0x42, 0x6f, 0x62];
        let item_len: usize = 4 + 2 + 5;
        let total_len: usize = 2 + 4 + 2 + 2 * item_len + 6;
        push_be16(&mut v, total_len as u16);
        push_be32(&mut v, 3);
        push_be16(&mut v, 2);
        push_be32(&mut v, 100);
        push_be16(&mut v, 5);
        push_all(&mut v, name1.as_slice());
        push_be32(&mut v, 101);
        push_be16(&mut v, 3);
        push_all(&mut v, name2.as_slice());
        v.push(10);
        v.push(4);
        v.push(0x74); v.push(0x65); v.push(0x73); v.push(0x74);
        assert(v@ =~= matching_payload_bytes(msg_type as int, seq));
    }
    v
}

/// The payload of the large capture that no template signature matches.
pub fn build_non_matching_payload(seq: u32) -> (r: Vec<u8>)
    ensures
        r@ == be16_bytes(12) + be32_bytes(0xFF00FF00) + be32_bytes(seq as int)
            + seq![0xAAu8, 0xBB, 0xCC, 0xDD],
{
    let mut v: Vec<u8> = Vec::new();
    push_be16(&mut v, 12);
    push_be32(&mut v, 0xFF00FF00);
    push_be32(&mut v, seq);
    v.push(0xAA); v.push(0xBB); v.push(0xCC); v.push(0xDD);
    assert(v@ =~= be16_bytes(12) + be32_bytes(0xFF00FF00) + be32_bytes(seq as int)
        + seq![0xAAu8, 0xBB, 0xCC, 0xDD]);
    v
}

/// The records of a list of packets, one after another.
pub open spec fn packet_records_bytes(ps: Seq<(u32, u32, Seq<u8>)>) -> Seq<u8>
    decreases ps.len(),
{
    if ps.len() == 0 {
        Seq::empty()
    } else {
        packet_record_bytes(ps[0].0, ps[0].1, ps[0].2) + packet_records_bytes(ps.drop_first())
    }
}

/// The packets a reader finds for a list written by `write_packet`.
pub open spec fn packets_as_read(ps: Seq<(u32, u32, Seq<u8>)>) -> Seq<(u32, u32, u32, Seq<u8>)> {
    ps.map_values(|p: (u32, u32, Seq<u8>)| (p.0, p.1, p.2.len() as u32, p.2))
}

pub open spec fn all_fit_32_bits(ps: Seq<(u32, u32, Seq<u8>)>) -> bool {
    forall|i: int| 0 <= i < ps.len() ==> #[trigger] ps[i].2.len() < 0x1_0000_0000
}

/// The 16-byte header of a record holding `n` bytes.
pub open spec fn record_header_bytes(ts_sec: u32, ts_usec: u32, n: int) -> Seq<u8> {
    le32_bytes(ts_sec as int) + le32_bytes(ts_usec as int) + le32_bytes(n) + le32_bytes(n)
}

/// The header fields of a record read back as they were written.
#[verifier::rlimit(40)]
proof fn lemma_record_header(ts_sec: u32, ts_usec: u32, n: int, rest: Seq<u8>)
    requires
        0 <= n < 0x1_0000_0000,
    ensures
        ({
            let d = record_header_bytes(ts_sec, ts_usec, n) + rest;
            &&& field32_at(d, 0, true) == ts_sec
            &&& field32_at(d, 4, true) == ts_usec
            &&& field32_at(d, 8, true) == n
            &&& field32_at(d, 12, true) == n
        }),
{
    let h = record_header_bytes(ts_sec, ts_usec, n);
    let d = h + rest;
    crate::bytes::lemma_le32_roundtrip(ts_sec as int);
    crate::bytes::lemma_le32_roundtrip(ts_usec as int);
    crate::bytes::lemma_le32_roundtrip(n);
    assert(d.subrange(0, 4) =~= le32_bytes(ts_sec as int));
    assert(d.subrange(4, 8) =~= le32_bytes(ts_usec as int));
    assert(d.subrange(8, 12) =~= le32_bytes(n));
    assert(d.subrange(12, 16) =~= le32_bytes(n));
    lemma_le32_window(d, 0);
    lemma_le32_window(d, 4);
    lemma_le32_window(d, 8);
    lemma_le32_window(d, 12);
}

proof fn lemma_le32_window(d: Seq<u8>, i: int)
    requires
        0 <= i,
        i + 4 <= d.len(),
    ensures
        le32_at(d, i) == le32_at(d.subrange(i, i + 4), 0),
{
}

/// Records read from behind a prefix are the records of what follows it.
pub proof fn lemma_records_from_shift(a: Seq<u8>, b: Seq<u8>, k: int, little: bool)
    requires
        0 <= k,
    ensures
        records_from(a + b, a.len() + k, little) == records_from(b, k, little),
    decreases b.len() - k,
{
    let d = a + b;
    let off = a.len() + k;
    if k + 16 <= b.len() {
        assert forall|j: int| k <= j < k + 16 implies #[trigger] d[a.len() + j] == b[j] by {}
        assert(field32_at(d, off + 8, little) == field32_at(b, k + 8, little));
        assert(field32_at(d, off, little) == field32_at(b, k, little));
        assert(field32_at(d, off + 4, little) == field32_at(b, k + 4, little));
        assert(field32_at(d, off + 12, little) == field32_at(b, k + 12, little));
        let incl = field32_at(b, k + 8, little) as int;
        if k + 16 + incl <= b.len() {
            assert(d.subrange(off + 16, off + 16 + incl) =~= b.subrange(k + 16, k + 16 + incl));
            lemma_records_from_shift(a, b, k + 16 + incl, little);
        }
    }
}

/// Reading a record followed by more bytes gives its packet, then what the
/// following bytes hold.
#[verifier::rlimit(40)]
proof fn lemma_record_step(ts_sec: u32, ts_usec: u32, data: Seq<u8>, tail: Seq<u8>)
    requires
        data.len() < 0x1_0000_0000,
    ensures
        records_from(packet_record_bytes(ts_sec, ts_usec, data) + tail, 0, true)
            == seq![(ts_sec, ts_usec, data.len() as u32, data)] + records_from(tail, 0, true),
{
    let n = data.len() as int;
    let rec = packet_record_bytes(ts_sec, ts_usec, data);
    let d = rec + tail;
    assert(d =~= record_header_bytes(ts_sec, ts_usec, n) + (data + tail));
    lemma_record_header(ts_sec, ts_usec, n, data + tail);
    assert(d.subrange(16, 16 + n) =~= data);
    lemma_records_from_shift(rec, tail, 0, true);
}

/// Reading what `write_packet` wrote for each packet of a list gives the
/// list back, each packet with its own length as original length.
pub proof fn lemma_records_roundtrip(ps: Seq<(u32, u32, Seq<u8>)>)
    requires
        all_fit_32_bits(ps),
    ensures
        records_from(packet_records_bytes(ps), 0, true) == packets_as_read(ps),
    decreases ps.len(),
{
    if ps.len() == 0 {
        assert(packets_as_read(ps) =~= Seq::<(u32, u32, u32, Seq<u8>)>::empty());
    } else {
        let p = ps[0];
        let tail = packet_records_bytes(ps.drop_first());
        assert(all_fit_32_bits(ps.drop_first())) by {
            assert forall|i: int| 0 <= i < ps.drop_first().len() implies #[trigger] ps.drop_first()[i].2.len() < 0x1_0000_0000 by {
                assert(ps.drop_first()[i] == ps[i + 1]);
            }
        }
        lemma_records_roundtrip(ps.drop_first());
        assert(p.2.len() < 0x1_0000_0000);
        lemma_record_step(p.0, p.1, p.2, tail);
        let n = p.2.len() as int;
        assert(packets_as_read(ps) =~= seq![(p.0, p.1, n as u32, p.2)] + packets_as_read(ps.drop_first()));
    }
}

/// A capture written as the generators write it, a global header followed
/// by the records of a list of packets, reads back as that list.
pub proof fn lemma_capture_roundtrip(ps: Seq<(u32, u32, Seq<u8>)>)
    requires
        all_fit_32_bits(ps),
    ensures
        pcap_contents(pcap_header_bytes() + packet_records_bytes(ps)) == Ok::<_, crate::pcap::PcapError>(packets_as_read(ps)),
{
    let h = pcap_header_bytes();
    let d = h + packet_records_bytes(ps);
    assert(le32_at(d, 0) == 0xa1b2c3d4) by {
        assert(d[0] == 0xd4u8 && d[1] == 0xc3u8 && d[2] == 0xb2u8 && d[3] == 0xa1u8);
    }
    lemma_records_from_shift(h, packet_records_bytes(ps), 0, true);
    lemma_records_roundtrip(ps);
}

/// The application payload of a frame built by `make_ether_ip_tcp_payload`
/// is the payload it wrapped.
pub proof fn lemma_sample_frame_payload(payload: Seq<u8>)
    requires
        payload.len() % 0x10000 + 40 <= 0xffff,
    ensures
        ({
            let f = sample_frame_header((payload.len() % 0x10000 + 40) as int) + payload;
            &&& l7_payload_readable(f)
            &&& l7_payload_start(f) == 54
            &&& f.subrange(54, f.len() as int) == payload
        }),
{
    let f = sample_frame_header((payload.len() % 0x10000 + 40) as int) + payload;
    assert(f[12] == 0x08u8 && f[13] == 0x00u8 && f[14] == 0x45u8 && f[23] == 6u8 && f[46] == 0x50u8);
    assert(be16_at(f, 12) == 0x0800);
    assert(ipv4_header_start(f) == Some(14int));
    assert(transport_payload_start(f, 14) == 54);
    assert(f.subrange(54, f.len() as int) =~= payload);
}

/// The application payload of a frame built by `build_eth_ip_tcp` is the
/// payload it wrapped.
pub proof fn lemma_bulk_frame_payload(payload: Seq<u8>)
    ensures
        ({
            let f = bulk_frame_header(((payload.len() + 40) % 0x10000) as int) + payload;
            &&& l7_payload_readable(f)
            &&& l7_payload_start(f) == 54
            &&& f.subrange(54, f.len() as int) == payload
        }),
{
    let f = bulk_frame_header(((payload.len() + 40) % 0x10000) as int) + payload;
    assert(f[12] == 0x08u8 && f[13] == 0x00u8 && f[14] == 0x45u8 && f[23] == 6u8 && f[46] == 0x50u8);
    assert(be16_at(f, 12) == 0x0800);
    assert(ipv4_header_start(f) == Some(14int));
    assert(transport_payload_start(f, 14) == 54);
    assert(f.subrange(54, f.len() as int) =~= payload);
}

// ---------------------------------------------------------------------
// The two sample captures

/// The payloads of the small sample capture: a request (`GET`, two
/// trailing bytes), a response (status 200, body `OK`) and a list of two
/// named items, each behind a 16-bit length and a 32-bit message type.
pub open spec fn sample_payload_bytes(kind: int) -> Seq<u8> {
    if kind == 1 {
        be16_bytes(9) + be32_bytes(1) + be32_bytes(42) + seq![3u8, 0x47, 0x45, 0x54, 1] + be16_bytes(2)
            + seq![0x41u8, 0x42]
    } else if kind == 2 {
        be16_bytes(16) + be32_bytes(2) + be32_bytes(42) + be16_bytes(200) + be32_bytes(2) + seq![0x4Fu8, 0x4B]
    } else {
        be16_bytes(24) + be32_bytes(3) + be16_bytes(2) + be32_bytes(100) + seq![5u8, 0x41, 0x6c, 0x69, 0x63, 0x65]
            + be32_bytes(101) + seq![3u8, 0x42, 0x6f, 0x62] + seq![10u8] + be16_bytes(4) + seq![0x74u8, 0x65, 0x73, 0x74]
    }
}

/// A payload of the small sample capture.
pub fn sample_payload(kind: usize) -> (r: Vec<u8>)
    requires
        1 <= kind <= 3,
    ensures
        r@ == sample_payload_bytes(kind as int),
{
    let mut v: Vec<u8> = Vec::new();
    if kind == 1 {
        let method: [u8; 3] = [0x47, 0x45, 0x54];
        let msg_len: u16 = 4 + 1 + 1 + 3;
        push_be16(&mut v, msg_len);
        push_be32(&mut v, 1);
        push_be32(&mut v, 42);
        v.push(3);
        push_all(&mut v, method.as_slice());
        v.push(1);
        push_be16(&mut v, 2);
        v.push(0x41);
        v.push(0x42);
    } else if kind == 2 {
        let body: [u8; 2] = [0x4F, 0x4B];
        let msg_len: u16 = 4 + 4 + 2 + 4 + 2;
        push_be16(&mut v, msg_len);
        push_be32(&mut v, 2);
        push_be32(&mut v, 42);
        push_be16(&mut v, 200);
        push_be32(&mut v, 2);
        push_all(&mut v, body.as_slice());
    } else {
        let alice: [u8; 5] = [0x41, 0x6c, 0x69, 0x63, 0x65];
        let bob: [u8; 3] = [0x42, 0x6f, 0x62];
        let msg_len: u16 = 4 + 2 + 18;
        push_be16(&mut v, msg_len);
        push_be32(&mut v, 3);
        push_be16(&mut v, 2);
        push_be32(&mut v, 100);
        v.push(5);
        push_all(&mut v, alice.as_slice());
        push_be32(&mut v, 101);
        v.push(3);
        push_all(&mut v, bob.as_slice());
        v.push(10);
        push_be16(&mut v, 4);
        v.push(0x74); v.push(0x65); v.push(0x73); v.push(0x74);
    }
    assert(v@ =~= sample_payload_bytes(kind as int));
    v
}

/// The timestamp of the `kind`-th packet of the small sample capture.
pub open spec fn sample_timestamp(kind: int) -> (u32, u32) {
    if kind == 1 {
        (1_700_000_000, 123456)
    } else if kind == 2 {
        (1_700_000_001, 234567)
    } else {
        (1_700_000_002, 345678)
    }
}

/// The packets of the small sample capture: each payload in a frame.
pub open spec fn sample_packets() -> Seq<(u32, u32, Seq<u8>)> {
    Seq::new(3, |i: int| (
        sample_timestamp(i + 1).0,
        sample_timestamp(i + 1).1,
        sample_frame_header((sample_payload_bytes(i + 1).len() + 40) as int) + sample_payload_bytes(i + 1),
    ))
}

/// The whole small sample capture file.
pub fn sample_capture() -> (r: Vec<u8>)
    ensures
        r@ == pcap_header_bytes() + packet_records_bytes(sample_packets()),
{
    let mut out: Vec<u8> = Vec::new();
    write_pcap_header(&mut out, true);
    let ghost head = out@;
    let mut kind: usize = 1;
    while kind <= 3
        invariant
            1 <= kind <= 4,
            head == Seq::<u8>::empty() + pcap_header_bytes(),
            out@ == head + packet_records_bytes(sample_packets().subrange(0, kind - 1)),
        decreases 4 - kind,
    {
        let payload = sample_payload(kind);
        assert(payload@.len() < 60);
        let frame = make_ether_ip_tcp_payload(payload.as_slice());
        let ts_sec: u32 = if kind == 1 { 1_700_000_000 } else if kind == 2 { 1_700_000_001 } else { 1_700_000_002 };
        let ts_usec: u32 = if kind == 1 { 123456 } else if kind == 2 { 234567 } else { 345678 };
        let ghost before = out@;
        write_packet(&mut out, ts_sec, ts_usec, frame.as_slice());
        proof {
            let ps = sample_packets();
            assert(ps[kind - 1] == (ts_sec, ts_usec, frame@));
            lemma_records_append(ps.subrange(0, kind - 1), ps[kind - 1]);
            assert(ps.subrange(0, kind as int) =~= ps.subrange(0, kind - 1).push(ps[kind - 1]));
        }
        kind = kind + 1;
    }
    assert(sample_packets().subrange(0, 3) =~= sample_packets());
    out
}

proof fn lemma_records_append(ps: Seq<(u32, u32, Seq<u8>)>, p: (u32, u32, Seq<u8>))
    ensures
        packet_records_bytes(ps.push(p)) == packet_records_bytes(ps) + packet_record_bytes(p.0, p.1, p.2),
    decreases ps.len(),
{
    if ps.len() == 0 {
        assert(ps.push(p).drop_first() =~= Seq::<(u32, u32, Seq<u8>)>::empty());
        assert(packet_records_bytes(ps.push(p).drop_first()) =~= Seq::<u8>::empty());
        assert(packet_record_bytes(p.0, p.1, p.2) + Seq::<u8>::empty() =~= packet_record_bytes(p.0, p.1, p.2));
        assert(Seq::<u8>::empty() + packet_record_bytes(p.0, p.1, p.2) =~= packet_record_bytes(p.0, p.1, p.2));
    } else {
        lemma_records_append(ps.drop_first(), p);
        assert(ps.push(p).drop_first() =~= ps.drop_first().push(p));
        assert(packet_records_bytes(ps.push(p)) =~= packet_records_bytes(ps) + packet_record_bytes(p.0, p.1, p.2));
    }
}

/// The timestamp and frame of the `i`-th packet of the large capture:
/// a second per thousand packets, a millisecond per packet within it; a
/// matching message of type 1 to 3 in turn, or the non-matching one.
pub open spec fn bulk_packet_spec(i: usize, is_match: bool) -> (u32, u32, Seq<u8>) {
    let n = i as u32;
    let payload = if is_match {
        matching_payload_bytes((i % 3 + 1) as int, n)
    } else {
        be16_bytes(12) + be32_bytes(0xFF00FF00) + be32_bytes(n as int) + seq![0xAAu8, 0xBB, 0xCC, 0xDD]
    };
    (
        (1_700_000_000 + n / 1000) as u32,
        ((n % 1000) * 1000) as u32,
        bulk_frame_header(((payload.len() + 40) % 0x10000) as int) + payload,
    )
}

/// The `i`-th packet of the large capture.
pub fn bulk_packet(i: usize, is_match: bool) -> (r: (u32, u32, Vec<u8>))
    ensures
        (r.0, r.1, r.2@) == bulk_packet_spec(i, is_match),
{
    let n = i as u32;
    let ts_sec: u32 = 1_700_000_000 + n / 1000;
    let ts_usec: u32 = (n % 1000) * 1000;
    let payload = if is_match {
        build_matching_payload(i % 3 + 1, n)
    } else {
        build_non_matching_payload(n)
    };
    assert(payload@.len() < 100);
    let frame = build_eth_ip_tcp(payload.as_slice());
    (ts_sec, ts_usec, frame)
}

} // verus!
