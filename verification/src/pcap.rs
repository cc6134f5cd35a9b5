//! Reading the classic capture-file format and locating the application
//! payload inside an Ethernet frame.

use vstd::prelude::*;
use crate::bytes::{be16_at, be32_at, le32_at, read_be16, read_be32, read_le32};

verus! {

/// One captured packet: its timestamp, its length on the wire and the
/// bytes that were captured.
#[derive(Debug, Clone)]
pub struct PcapPacket {
    pub ts_sec: u32,
    pub ts_usec: u32,
    pub orig_len: u32,
    pub data: Vec<u8>,
}

impl View for PcapPacket {
    type V = (u32, u32, u32, Seq<u8>);

    open spec fn view(&self) -> (u32, u32, u32, Seq<u8>) {
        (self.ts_sec, self.ts_usec, self.orig_len, self.data@)
    }
}

/// Why a byte buffer is not a capture file.
#[derive(Debug, Clone, PartialEq, Eq)]
pub enum PcapError {
    /// Fewer than the 24 bytes of the global header.
    TooSmall,
    /// The first four bytes, read least significant first, are no known magic number.
    InvalidMagic(u32),
}

/// All the packets of a capture file, in file order.
#[derive(Debug, Clone)]
pub struct PcapReader {
    packets: Vec<PcapPacket>,
}

/// Byte order of the record headers announced by a magic number
/// (`Some(true)` for least significant first), if it is one.
pub open spec fn magic_byte_order(magic: int) -> Option<bool> {
    if magic == 0xa1b2c3d4 {
        Some(true)
    } else if magic == 0xd4c3b2a1 {
        Some(false)
    } else if magic == 0xa1b23c4d {
        Some(true)
    } else if magic == 0x4d3cb2a1 {
        Some(false)
    } else {
        None
    }
}

/// A 32-bit field of a record header.
pub open spec fn field32_at(d: Seq<u8>, i: int, little: bool) -> u32 {
    if little {
        le32_at(d, i) as u32
    } else {
        be32_at(d, i) as u32
    }
}

/// The packets whose records start at `off`: a 16-byte header (seconds,
/// microseconds, captured length, original length) then the captured bytes;
/// reading stops at a header that does not fit or a record cut short.
pub open spec fn records_from(d: Seq<u8>, off: int, little: bool) -> Seq<(u32, u32, u32, Seq<u8>)>
    decreases d.len() - off,
{
    if 0 <= off && off + 16 <= d.len() {
        let incl = field32_at(d, off + 8, little) as int;
        if off + 16 + incl > d.len() {
            Seq::empty()
        } else {
            seq![(
                field32_at(d, off, little),
                field32_at(d, off + 4, little),
                field32_at(d, off + 12, little),
                d.subrange(off + 16, off + 16 + incl),
            )] + records_from(d, off + 16 + incl, little)
        }
    } else {
        Seq::empty()
    }
}

/// What a capture file holds: its packets, or why it is refused.
pub open spec fn pcap_contents(d: Seq<u8>) -> Result<Seq<(u32, u32, u32, Seq<u8>)>, PcapError> {
    if d.len() < 24 {
        Err(PcapError::TooSmall)
    } else {
        match magic_byte_order(le32_at(d, 0)) {
            Some(little) => Ok(records_from(d, 24, little)),
            None => Err(PcapError::InvalidMagic(le32_at(d, 0) as u32)),
        }
    }
}

pub open spec fn packet_views(ps: Seq<PcapPacket>) -> Seq<(u32, u32, u32, Seq<u8>)> {
    ps.map_values(|p: PcapPacket| p@)
}

impl View for PcapReader {
    type V = Seq<(u32, u32, u32, Seq<u8>)>;

    closed spec fn view(&self) -> Seq<(u32, u32, u32, Seq<u8>)> {
        packet_views(self.packets@)
    }
}

impl PcapReader {
    /// Reads the packets of a capture file held in memory.
    pub fn parse(data: &[u8]) -> (r: Result<PcapReader, PcapError>)
        ensures
            match pcap_contents(data@) {
                Ok(ps) => r is Ok && r->Ok_0@ == ps,
                Err(e) => r == Err::<PcapReader, PcapError>(e),
            },
    {
        if data.len() < 24 {
            return Err(PcapError::TooSmall);
        }
        let magic = read_le32(data, 0);
        let little_endian = if magic == 0xa1b2c3d4 {
            true
        } else if magic == 0xd4c3b2a1 {
            false
        } else if magic == 0xa1b23c4d {
            true
        } else if magic == 0x4d3cb2a1 {
            false
        } else {
            return Err(PcapError::InvalidMagic(magic));
        };

        let mut offset: usize = 24;
        let mut packets: Vec<PcapPacket> = Vec::new();
        while offset <= data.len() && 16 <= data.len() - offset
            invariant_except_break
                24 <= offset <= data@.len(),
                magic_byte_order(le32_at(data@, 0)) == Some(little_endian),
                packet_views(packets@) + records_from(data@, offset as int, little_endian)
                    == records_from(data@, 24, little_endian),
            ensures
                packet_views(packets@) == records_from(data@, 24, little_endian),
            decreases data@.len() - offset,
        {
            let ts_sec = Self::read_u32(&data[offset..offset + 4], little_endian);
            let ts_usec = Self::read_u32(&data[offset + 4..offset + 8], little_endian);
            let incl_len = Self::read_u32(&data[offset + 8..offset + 12], little_endian) as usize;
            let orig_len = Self::read_u32(&data[offset + 12..offset + 16], little_endian);
            let ghost off = offset as int;
            offset = offset + 16;
            if incl_len > data.len() - offset {
                assert(records_from(data@, off, little_endian) == Seq::<(u32, u32, u32, Seq<u8>)>::empty());
                assert(packet_views(packets@) + Seq::<(u32, u32, u32, Seq<u8>)>::empty() == packet_views(packets@));
                break;
            }
            let packet_data = vstd::slice::slice_to_vec(&data[offset..offset + incl_len]);
            offset = offset + incl_len;
            let pkt = PcapPacket { ts_sec, ts_usec, orig_len, data: packet_data };
            let ghost before = packets@;
            packets.push(pkt);
            proof {
                assert(packets@ == before.push(pkt));
                assert(packet_views(packets@) == packet_views(before).push(pkt@));
                let rest = records_from(data@, offset as int, little_endian);
                assert(records_from(data@, off, little_endian) == seq![pkt@] + rest);
                assert(packet_views(before).push(pkt@) + rest == packet_views(before) + (seq![pkt@] + rest));
            }
        }
        proof {
            if !(offset <= data.len() && 16 <= data.len() - offset) {
                assert(records_from(data@, offset as int, little_endian) == Seq::<(u32, u32, u32, Seq<u8>)>::empty());
                assert(packet_views(packets@) + Seq::<(u32, u32, u32, Seq<u8>)>::empty() == packet_views(packets@));
            }
        }
        Ok(PcapReader { packets })
    }

    /// A 32-bit header field from its four bytes.
    pub fn read_u32(bytes: &[u8], little_endian: bool) -> (r: u32)
        requires
            bytes@.len() >= 4,
        ensures
            r == field32_at(bytes@, 0, little_endian),
    {
        if little_endian {
            read_le32(bytes, 0)
        } else {
            read_be32(bytes, 0)
        }
    }

    /// The packets, in file order.
    pub fn packets(&self) -> (r: &[PcapPacket])
        ensures
            packet_views(r@) == self@,
    {
        self.packets.as_slice()
    }

    /// How many packets the file holds.
    pub fn packet_count(&self) -> (r: usize)
        ensures
            r == self@.len(),
    {
        self.packets.len()
    }
}

/// Where the IPv4 header starts, for a frame whose (possibly VLAN-tagged)
/// Ethernet type is IPv4 and which holds at least one byte there.
pub open spec fn ipv4_header_start(p: Seq<u8>) -> Option<int> {
    if p.len() < 14 {
        None
    } else if be16_at(p, 12) == 0x8100 && p.len() >= 18 {
        if be16_at(p, 16) != 0x0800 || 18 >= p.len() {
            None
        } else {
            Some(18)
        }
    } else if be16_at(p, 12) != 0x0800 || 14 >= p.len() {
        None
    } else {
        Some(14)
    }
}

pub open spec fn min_int(a: int, b: int) -> int {
    if a <= b {
        a
    } else {
        b
    }
}

/// Where the payload starts behind an IPv4 header at `ip`: behind the TCP
/// header when one fits, behind the 8-byte UDP header, or right behind the
/// IPv4 header; never past the end of the frame.
pub open spec fn transport_payload_start(p: Seq<u8>, ip: int) -> int {
    let after_ip = ip + (p[ip] % 16) as int * 4;
    let proto = p[ip + 9];
    if proto == 6 {
        if after_ip + 20 > p.len() {
            min_int(after_ip, p.len() as int)
        } else {
            min_int(after_ip + (p[after_ip + 12] / 16) as int * 4, p.len() as int)
        }
    } else if proto == 17 {
        min_int(after_ip + 8, p.len() as int)
    } else {
        min_int(after_ip, p.len() as int)
    }
}

/// Where the application payload of a frame starts.
pub open spec fn l7_payload_start(p: Seq<u8>) -> int {
    if p.len() < 14 {
        0
    } else {
        match ipv4_header_start(p) {
            Some(ip) => transport_payload_start(p, ip),
            None => if be16_at(p, 12) == 0x8100 && p.len() >= 18 {
                18
            } else {
                14
            },
        }
    }
}

/// The IPv4 protocol byte can be read: the frame is not IPv4, or it holds
/// the ten first bytes of the IPv4 header.
pub open spec fn l7_payload_readable(p: Seq<u8>) -> bool {
    match ipv4_header_start(p) {
        Some(ip) => ip + 9 < p.len(),
        None => true,
    }
}

/// Tells whether `extract_l7_payload` can read the frame.
pub fn l7_payload_readable_exec(packet: &[u8]) -> (r: bool)
    ensures
        r == l7_payload_readable(packet@),
{
    let n = packet.len();
    if n < 14 {
        return true;
    }
    let ethertype = read_be16(packet, 12);
    let ip: usize = if ethertype == 0x8100 && n >= 18 {
        if read_be16(packet, 16) != 0x0800 {
            return true;
        }
        18
    } else if ethertype != 0x0800 {
        return true;
    } else {
        14
    };
    ip >= n || ip + 9 < n
}

/// The application payload of an Ethernet frame: behind the TCP or UDP
/// header of an IPv4 packet, behind the Ethernet header otherwise, or the
/// whole frame when it is shorter than an Ethernet header.
pub fn extract_l7_payload(packet: &[u8]) -> (r: &[u8])
    requires
        l7_payload_readable(packet@),
    ensures
        0 <= l7_payload_start(packet@) <= packet@.len(),
        r@ == packet@.subrange(l7_payload_start(packet@), packet@.len() as int),
{
    let n = packet.len();
    if n < 14 {
        return packet;
    }
    let ethertype = read_be16(packet, 12);
    let mut offset: usize = 14;
    if ethertype == 0x8100 && n >= 18 {
        let ethertype_inner = read_be16(packet, 16);
        offset = 18;
        if ethertype_inner != 0x0800 {
            return &packet[offset..n];
        }
    } else if ethertype != 0x0800 {
        return &packet[offset..n];
    }
    if offset >= n {
        return &packet[offset..n];
    }
    let ihl = (packet[offset] % 16) as usize * 4;
    let protocol = packet[offset + 9];
    offset = offset + ihl;
    let start = if protocol == 6 {
        if offset > n || 20 > n - offset {
            if offset < n { offset } else { n }
        } else {
            let data_offset = (packet[offset + 12] / 16) as usize * 4;
            let o = offset + data_offset;
            if o < n { o } else { n }
        }
    } else if protocol == 17 {
        let o = offset + 8;
        if o < n { o } else { n }
    } else {
        if offset < n { offset } else { n }
    };
    &packet[start..n]
}

/// In an untagged Ethernet frame carrying IPv4 with a UDP header that
/// fits, the application payload starts right behind the 8-byte UDP header,
/// which starts behind the IPv4 header of `ihl` 32-bit words.
pub proof fn lemma_udp_payload_start(p: Seq<u8>, ihl: int)
    requires
        p.len() >= 14 + ihl * 4 + 8,
        5 <= ihl <= 15,
        p[12] == 0x08,
        p[13] == 0x00,
        p[14] == 0x40 + ihl,
        p[23] == 17,
    ensures
        l7_payload_readable(p),
        l7_payload_start(p) == 14 + ihl * 4 + 8,
{
    assert(p[14] % 16 == ihl);
}

/// In an untagged Ethernet frame carrying IPv4 with a TCP header that
/// fits, the application payload starts behind the TCP header, whose
/// length in 32-bit words is the top half of its thirteenth byte (when the
/// frame holds that much).
pub proof fn lemma_tcp_payload_start(p: Seq<u8>, ihl: int)
    requires
        p.len() >= 14 + ihl * 4 + 20,
        5 <= ihl <= 15,
        p[12] == 0x08,
        p[13] == 0x00,
        p[14] == 0x40 + ihl,
        p[23] == 6,
    ensures
        l7_payload_readable(p),
        ({
            let tcp = 14 + ihl * 4;
            let end = tcp + (p[tcp + 12] / 16) as int * 4;
            l7_payload_start(p) == if end <= p.len() { end } else { p.len() as int }
        }),
{
    assert(p[14] % 16 == ihl);
}

/// A frame made of an untagged Ethernet header for IPv4, a 20-byte IPv4
/// header for UDP, an 8-byte UDP header and a payload gives back exactly
/// that payload.
pub proof fn lemma_udp_frame_payload(eth: Seq<u8>, ip: Seq<u8>, udp: Seq<u8>, payload: Seq<u8>)
    requires
        eth.len() == 14,
        eth[12] == 0x08,
        eth[13] == 0x00,
        ip.len() == 20,
        ip[0] == 0x45,
        ip[9] == 17,
        udp.len() == 8,
    ensures
        ({
            let p = eth + ip + udp + payload;
            &&& l7_payload_readable(p)
            &&& p.subrange(l7_payload_start(p), p.len() as int) == payload
        }),
{
    let p = eth + ip + udp + payload;
    assert(p[12] == eth[12] && p[13] == eth[13] && p[14] == ip[0] && p[23] == ip[9]);
    lemma_udp_payload_start(p, 5);
    assert(p.subrange(42, p.len() as int) =~= payload);
}

/// In a frame with one VLAN tag carrying IPv4 with a UDP header that
/// fits, the application payload starts behind the UDP header, which starts
/// behind the tag and the IPv4 header of `ihl` 32-bit words.
pub proof fn lemma_tagged_udp_payload_start(p: Seq<u8>, ihl: int)
    requires
        p.len() >= 18 + ihl * 4 + 8,
        5 <= ihl <= 15,
        p[12] == 0x81,
        p[13] == 0x00,
        p[16] == 0x08,
        p[17] == 0x00,
        p[18] == 0x40 + ihl,
        p[27] == 17,
    ensures
        l7_payload_readable(p),
        l7_payload_start(p) == 18 + ihl * 4 + 8,
{
    assert(p[18] % 16 == ihl);
}

/// A frame that carries neither IPv4 nor a VLAN tag has its payload right
/// behind the 14-byte Ethernet header.
pub proof fn lemma_other_payload_start(p: Seq<u8>)
    requires
        p.len() >= 14,
        !(p[12] == 0x08 && p[13] == 0x00),
        !(p[12] == 0x81 && p[13] == 0x00),
    ensures
        l7_payload_readable(p),
        l7_payload_start(p) == 14,
{
}

/// The number four bytes at `i` stand for, least significant first.
pub open spec fn bytes_le(d: Seq<u8>, i: int) -> int {
    d[i] as int + 0x100 * d[i + 1] as int + 0x1_0000 * d[i + 2] as int + 0x100_0000 * d[i + 3] as int
}

/// The number four bytes at `i` stand for, most significant first.
pub open spec fn bytes_be(d: Seq<u8>, i: int) -> int {
    0x100_0000 * d[i] as int + 0x1_0000 * d[i + 1] as int + 0x100 * d[i + 2] as int + d[i + 3] as int
}

/// A capture file of one packet: a 24-byte global header whose first four
/// bytes are `d4 c3 b2 a1` (records least significant first) or `a1 b2 c3
/// d4` (most significant first), then one 16-byte record header (seconds,
/// microseconds, captured length, original length) and the captured bytes,
/// holds that one packet.
pub proof fn lemma_one_record_file(d: Seq<u8>)
    requires
        d.len() >= 40,
        (d[0] == 0xd4 && d[1] == 0xc3 && d[2] == 0xb2 && d[3] == 0xa1 && bytes_le(d, 32) == d.len() - 40)
            || (d[0] == 0xa1 && d[1] == 0xb2 && d[2] == 0xc3 && d[3] == 0xd4 && bytes_be(d, 32) == d.len() - 40),
    ensures
        pcap_contents(d) == Ok::<Seq<(u32, u32, u32, Seq<u8>)>, PcapError>(if d[0] == 0xd4 {
            seq![(bytes_le(d, 24) as u32, bytes_le(d, 28) as u32, bytes_le(d, 36) as u32, d.subrange(40, d.len() as int))]
        } else {
            seq![(bytes_be(d, 24) as u32, bytes_be(d, 28) as u32, bytes_be(d, 36) as u32, d.subrange(40, d.len() as int))]
        }),
{
    let little = d[0] == 0xd4;
    assert(records_from(d, d.len() as int, little) == Seq::<(u32, u32, u32, Seq<u8>)>::empty());
    let r = records_from(d, 24, little);
    assert(r =~= seq![(field32_at(d, 24, little), field32_at(d, 28, little), field32_at(d, 36, little), d.subrange(40, d.len() as int))]);
}

} // verus!
