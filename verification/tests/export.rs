use pcap_file::pcap::{PcapPacket, PcapReader, PcapWriter};
use sov_vault::db::RecordSummary;
use sov_vault::export::{stored_payload_len, synthesize, BpfFilter, PcapExport, PcapStats, L2_ETH, L3_IPV4, L4_TCP, L4_UDP};
use sov_vault::query::RecordRow;
use sov_vault::wal::{summarize, WalRecord, TCP_ACK, TCP_FIN, TCP_SYN};
use std::io::{BufReader, BufWriter};
use std::time::Duration;

fn record(proto: u16, tcp_flags: u8, orig_len: u32, payload: &[u8]) -> WalRecord {
    WalRecord {
        timestamp_ns: 1_700_000_000_000,
        flags: 0,
        tcp_flags,
        tcp_seq: 0x1122_3344,
        tcp_ack: 0x5566_7788,
        window_size: 8192,
        src_ip: [192, 168, 1, 10],
        dst_ip: [10, 0, 0, 1],
        src_port: 12345,
        dst_port: 443,
        proto,
        orig_payload_len: orig_len,
        payload: payload.to_vec(),
    }
}

#[test]
fn synthesize_tcp_ipv4_layout() {
    let rec = record(6, TCP_SYN | TCP_ACK, 5, b"hello");
    let packet = synthesize(&rec);
    let expect_len = L2_ETH + L3_IPV4 + (L4_TCP + rec.payload.len());
    assert_eq!(packet.len(), expect_len);
    assert_eq!(&packet[0..6], &[0x02, 0, 0, 0, 0, 2]);
    assert_eq!(&packet[6..12], &[0x02, 0, 0, 0, 0, 1]);
    assert_eq!(&packet[12..14], &[0x08, 0x00]);
    assert_eq!(packet[14], 0x45);
    assert_eq!(packet[14 + 9], 6);
    assert_eq!(&packet[14 + 12..14 + 16], &[192, 168, 1, 10]);
    assert_eq!(&packet[14 + 16..14 + 20], &[10, 0, 0, 1]);
    let tcp = L2_ETH + L3_IPV4;
    assert_eq!(&packet[tcp..tcp + 2], &[48, 57]);
    assert_eq!(&packet[tcp + 2..tcp + 4], &[1, 187]);
    assert_eq!(packet[tcp + 13], TCP_SYN | TCP_ACK);
    assert_eq!(&packet[expect_len - 5..], b"hello");
}

#[test]
fn synthesize_tcp_preserves_seq_ack_window() {
    let rec = record(6, TCP_SYN | TCP_ACK, 5, b"hello");
    let packet = synthesize(&rec);
    let tcp = L2_ETH + L3_IPV4;
    assert_eq!(u32::from_be_bytes([packet[tcp + 4], packet[tcp + 5], packet[tcp + 6], packet[tcp + 7]]), rec.tcp_seq);
    assert_eq!(u32::from_be_bytes([packet[tcp + 8], packet[tcp + 9], packet[tcp + 10], packet[tcp + 11]]), rec.tcp_ack);
    assert_eq!(u16::from_be_bytes([packet[tcp + 14], packet[tcp + 15]]), rec.window_size);
}

#[test]
fn synthesize_udp_ipv4_layout() {
    let rec = record(17, 0, 3, b"abc");
    let packet = synthesize(&rec);
    let expect_len = L2_ETH + L3_IPV4 + (L4_UDP + rec.payload.len());
    assert_eq!(packet.len(), expect_len);
    assert_eq!(packet[14 + 9], 17);
    let udp = L2_ETH + L3_IPV4;
    let ulen = u16::from_be_bytes([packet[udp + 4], packet[udp + 5]]);
    assert_eq!(ulen, 8 + rec.payload.len() as u16);
}

#[test]
fn whole_udp_frame() {
    assert_eq!(
        synthesize(&record(17, 0, 3, b"abc")),
        vec![
            2, 0, 0, 0, 0, 2, 2, 0, 0, 0, 0, 1, 8, 0, 0x45, 0, 0, 31, 0, 1, 0x40, 0, 0x40, 17, 0, 0, 192, 168, 1, 10, 10, 0, 0, 1, 48, 57,
            1, 187, 0, 11, 0, 0, b'a', b'b', b'c'
        ]
    );
}

#[test]
fn bpf_summary_prefilter() {
    let s = RecordSummary { proto: 6, flags: 0, src_ip: 0xC0A8_0001, dst_ip: 0x0A00_0001, sport: 12345, dport: 443, len: 10 };
    let f = BpfFilter { dport: Some(443), proto: Some(6), ..Default::default() };
    assert!(f.matches_summary(&s));
    let f2 = BpfFilter { proto: Some(17), ..Default::default() };
    assert!(!f2.matches_summary(&s));
    let f3 = BpfFilter { src_ip: Some(0x0A00_0001), ..Default::default() };
    assert!(!f3.matches_summary(&s));
    assert!(BpfFilter::default().matches_summary(&s));
}

#[test]
fn bpf_flags_record_level() {
    let rec = record(6, TCP_SYN | TCP_ACK, 0, b"");
    let f = BpfFilter { flags_any: Some(TCP_ACK), ..Default::default() };
    assert!(f.matches_record(&rec));
    let f = BpfFilter { flags_all: Some(TCP_SYN | TCP_ACK), ..Default::default() };
    assert!(f.matches_record(&rec));
    let f = BpfFilter { flags_all: Some(TCP_SYN | TCP_ACK | TCP_FIN), ..Default::default() };
    assert!(!f.matches_record(&rec));
}

#[test]
fn parse_flags_names() {
    assert_eq!(BpfFilter::parse_flags(&["syn", "ack"]), Some(TCP_SYN | TCP_ACK));
    assert!(BpfFilter::parse_flags(&["bogus"]).is_none());
}

#[test]
fn more_flag_names() {
    assert_eq!(BpfFilter::parse_flags(&[]), Some(0));
    assert_eq!(BpfFilter::parse_flags(&["fin", "rst", "psh", "urg"]), Some(0x2D));
    assert_eq!(BpfFilter::parse_flags(&["syn", "SYN"]), None);
    assert!(BpfFilter::default().is_empty());
    assert!(!BpfFilter { sport: Some(1), ..Default::default() }.is_empty());
}

#[test]
fn pcap_write_read_truncated_fidelity() {
    let rec = record(6, TCP_SYN, 1000, b"GET /big HTTP/1.1");
    let mut buf = Vec::new();
    let mut w = PcapWriter::new(BufWriter::new(&mut buf)).unwrap();
    let frame = synthesize(&rec);
    let orig = (L2_ETH + L3_IPV4 + L4_TCP + 1000) as u32;
    w.write_packet(&PcapPacket::new(Duration::from_nanos(rec.timestamp_ns), orig, &frame)).unwrap();
    drop(w);

    let mut r = PcapReader::new(BufReader::new(&buf[..])).unwrap();
    let pkt = r.next_packet().unwrap().unwrap();
    assert_eq!(pkt.orig_len, orig);
    assert_eq!(pkt.data.len() as u32, frame.len() as u32);
    assert!(pkt.orig_len > pkt.data.len() as u32);
    assert_eq!(pkt.data[L2_ETH + L3_IPV4 + 13], TCP_SYN);
}

#[test]
fn export_counts_what_it_writes_and_leaves_out() {
    let mut e = PcapExport::new(BpfFilter { proto: Some(6), flags_any: Some(TCP_SYN), ..Default::default() });
    let syn = record(6, TCP_SYN, 1000, b"12345");
    let ack = record(6, TCP_ACK, 5, b"12345");
    let udp = record(17, 0, 5, b"12345");
    let row = |r: &WalRecord| RecordRow { ts_ns: 1, packet_idx: 2, summary: summarize(r) };
    assert!(!e.wants(&row(&udp)));
    assert!(e.wants(&row(&ack)));
    assert!(e.record(Some(&ack)).is_none());
    assert!(e.record(None).is_none());
    assert!(e.wants(&row(&syn)));
    let p = e.record(Some(&syn)).unwrap();
    assert_eq!((p.timestamp_ns, p.orig_len, p.frame.len()), (1_700_000_000_000, 1054, 59));
    assert_eq!(p.frame, synthesize(&syn));
    assert_eq!(e.stats(), PcapStats { packets: 1, filtered: 2, unresolved: 1, incl_bytes: 59, orig_bytes: 1054 });
}

#[test]
fn payload_length_stands_in_the_header() {
    let mut h = [0u8; 64];
    h[56..60].copy_from_slice(&[0, 1, 2, 3]);
    assert_eq!(stored_payload_len(&h), 0x0001_0203);
}
