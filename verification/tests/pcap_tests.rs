use pcap_parser::capture_gen::{build_eth_ip_tcp, write_packet, write_pcap_header};
use pcap_parser::pcap::{extract_l7_payload, PcapError, PcapReader};

#[test]
fn parse_rejects_short_buffer() {
    let data = vec![0u8; 23];
    assert!(matches!(PcapReader::parse(&data), Err(PcapError::TooSmall)));
}

#[test]
fn parse_rejects_unknown_magic() {
    let data = vec![0u8; 24];
    assert!(matches!(PcapReader::parse(&data), Err(PcapError::InvalidMagic(0))));
}

#[test]
fn written_capture_reads_back() {
    let mut out = Vec::new();
    write_pcap_header(&mut out, true);
    write_packet(&mut out, 7, 9, &[1, 2, 3]);
    write_packet(&mut out, 8, 10, &[4]);
    let reader = PcapReader::parse(&out).unwrap();
    assert_eq!(reader.packet_count(), 2);
    let p = &reader.packets()[0];
    assert_eq!((p.ts_sec, p.ts_usec, p.orig_len), (7, 9, 3));
    assert_eq!(p.data, vec![1, 2, 3]);
    assert_eq!(reader.packets()[1].data, vec![4]);
}

#[test]
fn frame_payload_is_extracted() {
    let frame = build_eth_ip_tcp(b"hello");
    assert_eq!(extract_l7_payload(&frame), b"hello");
}
