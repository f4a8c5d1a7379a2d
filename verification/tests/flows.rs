use pcap_file::pcap::{PcapPacket, PcapReader, PcapWriter};
use sov_vault::batch::{stage_lmdb, BatchPipeline, HotFileWriter};
use sov_vault::connection::conn_hash;
use sov_vault::db::QrStatus;
use sov_vault::export::{BpfFilter, PcapExport, PcapStats, L2_ETH, L3_IPV4, L4_TCP, L4_UDP};
use sov_vault::plane::Planes;
use sov_vault::qr::QrParams;
use sov_vault::query::{replay_scan, Epoch};
use sov_vault::wal::{IndexedRecord, WalRecord, TCP_ACK, TCP_SYN};
use std::io::{BufReader, BufWriter};
use std::time::Duration;

const CIP: [u8; 4] = [192, 168, 1, 10];
const SIP: [u8; 4] = [10, 0, 0, 1];
const CPORT: u16 = 12345;
const SPORT: u16 = 443;
const BASE: u64 = 1_700_000_000_000_000_000;

struct Vault {
    planes: Planes,
    data: Vec<IndexedRecord>,
}

impl Vault {
    fn commit(&mut self, batch: &Vec<IndexedRecord>) {
        let taken = std::mem::replace(&mut self.planes, Planes::new());
        self.planes = stage_lmdb(taken, batch, &QrParams::default()).planes;
        self.data.extend(batch.iter().cloned());
    }

    fn push(&mut self, pipe: &mut BatchPipeline, rec: WalRecord) {
        if pipe.push_record(rec) {
            self.commit(pipe.flush());
            pipe.committed();
        }
    }

    fn export(self, filter: BpfFilter, start: Option<u64>) -> (PcapStats, Vec<u8>) {
        let epochs = vec![Epoch { num: 0, plane: self.planes.epoch }];
        let mut out = Vec::new();
        let mut w = PcapWriter::new(BufWriter::new(&mut out)).unwrap();
        let mut e = PcapExport::new(filter);
        for row in replay_scan(&self.planes.live, &epochs, 0, &Vec::new(), start, None) {
            if !e.wants(&row) {
                continue;
            }
            let found = self.data.iter().find(|r| r.idx() == row.packet_idx).map(|r| &r.rec);
            if let Some(p) = e.record(found) {
                w.write_packet(&PcapPacket::new(Duration::from_nanos(p.timestamp_ns), p.orig_len, &p.frame)).unwrap();
            }
        }
        drop(w);
        (e.stats(), out)
    }
}

fn pkt(up: bool, cport: u16, sport: u16, proto: u16, flags: u8, ts_ns: u64, seq: u32, ack: u32, window: u16, orig: u32, payload: &[u8]) -> WalRecord {
    WalRecord {
        timestamp_ns: ts_ns,
        flags: 0,
        tcp_flags: flags,
        tcp_seq: seq,
        tcp_ack: ack,
        window_size: window,
        src_ip: if up { CIP } else { SIP },
        dst_ip: if up { SIP } else { CIP },
        src_port: if up { cport } else { sport },
        dst_port: if up { sport } else { cport },
        proto,
        orig_payload_len: orig,
        payload: payload.to_vec(),
    }
}

fn seed() -> Vault {
    let mut v = Vault { planes: Planes::new(), data: Vec::new() };
    let mut pipe = BatchPipeline::new(HotFileWriter::open(1, 0, 64 * 1024, 1), 100);
    for r in [
        pkt(true, CPORT, SPORT, 6, TCP_SYN, BASE, 1000, 0, 65535, 0, b""),
        pkt(false, CPORT, SPORT, 6, TCP_SYN | TCP_ACK, BASE + 1, 5000, 1001, 8192, 0, b""),
        pkt(true, CPORT, SPORT, 6, TCP_ACK, BASE + 2, 1001, 5001, 65535, 0, b""),
        pkt(true, CPORT, SPORT, 6, TCP_ACK, BASE + 10, 1001, 5001, 65535, 2000, b"GET /big/file HTTP/1.1"),
        pkt(false, CPORT, SPORT, 6, TCP_ACK, BASE + 20, 5001, 1007, 65535, 3, b"200"),
        pkt(true, CPORT, 53, 17, 0, BASE + 30, 0, 0, 0, 16, b"\x12\x34\x01\x00\x00\x01\x00\x00\x00\x00\x00\x00\x03\x03\x00\x01"),
        pkt(false, CPORT, 53, 17, 0, BASE + 40, 0, 0, 0, 16, b"\x12\x34\x81\x80\x00\x01\x00\x01\x00\x00\x00\x00\x03\x03\x00\x01"),
    ] {
        v.push(&mut pipe, r);
    }
    v.commit(pipe.flush());
    pipe.committed();
    v
}

struct Seen {
    orig_len: u32,
    incl_len: usize,
    timestamp_secs: u64,
    tcp_flags: u8,
    seq: u32,
    ack: u32,
    window: u16,
    proto: u8,
    sport: u16,
    dport: u16,
    payload: Vec<u8>,
}

fn read_back(bytes: &[u8]) -> Vec<Seen> {
    let mut r = PcapReader::new(BufReader::new(bytes)).unwrap();
    let mut out = Vec::new();
    while let Some(pkt) = r.next_packet() {
        let pkt = pkt.unwrap();
        let d = &pkt.data;
        let t = L2_ETH + L3_IPV4;
        let proto = d[L2_ETH + 9];
        let tcp = proto == 6;
        let word = |i: usize| u32::from_be_bytes([d[i], d[i + 1], d[i + 2], d[i + 3]]);
        let half = |i: usize| u16::from_be_bytes([d[i], d[i + 1]]);
        out.push(Seen {
            orig_len: pkt.orig_len,
            incl_len: d.len(),
            timestamp_secs: pkt.timestamp.as_secs(),
            tcp_flags: if tcp { d[t + 13] } else { 0 },
            seq: if tcp { word(t + 4) } else { 0 },
            ack: if tcp { word(t + 8) } else { 0 },
            window: if tcp { half(t + 14) } else { 0 },
            proto,
            sport: half(t),
            dport: half(t + 2),
            payload: d[t + if tcp { L4_TCP } else { L4_UDP }..].to_vec(),
        });
    }
    out
}

#[test]
fn e2e_export_handshake_and_truncation_fidelity() {
    let (stats, bytes) = seed().export(BpfFilter::default(), None);
    assert_eq!(stats.packets, 7);
    assert_eq!(stats.unresolved, 0);
    let pkts = read_back(&bytes);
    assert_eq!(pkts.len(), 7);

    let syn = pkts.iter().find(|p| p.tcp_flags == TCP_SYN).unwrap();
    assert_eq!(syn.seq, 1000);
    assert_eq!(syn.ack, 0);
    assert_eq!(syn.window, 65535);
    assert_eq!(syn.orig_len as usize, L2_ETH + L3_IPV4 + L4_TCP);
    assert_eq!(syn.incl_len, L2_ETH + L3_IPV4 + L4_TCP);
    let synack = pkts.iter().find(|p| p.tcp_flags == TCP_SYN | TCP_ACK).unwrap();
    assert_eq!(synack.seq, 5000);
    assert_eq!(synack.ack, 1001);
    assert_eq!(synack.window, 8192);

    let truncated = pkts.iter().find(|p| p.orig_len as usize == L2_ETH + L3_IPV4 + L4_TCP + 2000).unwrap();
    assert_eq!(truncated.incl_len, L2_ETH + L3_IPV4 + L4_TCP + b"GET /big/file HTTP/1.1".len());
    assert!(truncated.orig_len > truncated.incl_len as u32);
    assert_eq!(truncated.seq, 1001);

    let dns = pkts.iter().filter(|p| p.proto == 17).collect::<Vec<_>>();
    assert_eq!(dns.len(), 2);
    assert_eq!(dns[0].orig_len as usize, L2_ETH + L3_IPV4 + L4_UDP + 16);
    assert!(dns.iter().all(|p| p.dport == 53 || p.sport == 53));

    assert!(pkts.iter().all(|p| p.timestamp_secs == 1_700_000_000));
}

#[test]
fn e2e_export_bpf_filter_filters_in_memory() {
    let (stats, bytes) = seed().export(BpfFilter { proto: Some(6), ..Default::default() }, None);
    assert_eq!(stats.packets, 5);
    assert_eq!(stats.filtered, 2);
    assert_eq!(&bytes[0..4], &[0xD4, 0xC3, 0xB2, 0xA1]);

    let (stats, _) = seed().export(BpfFilter { dport: Some(443), proto: Some(6), ..Default::default() }, None);
    assert_eq!(stats.packets, 3);

    let (stats, _) = seed().export(BpfFilter { flags_all: Some(TCP_SYN), ..Default::default() }, None);
    assert_eq!(stats.packets, 2);
    assert!(stats.filtered >= 5);

    let (stats, _) = seed().export(BpfFilter::default(), Some(BASE + 25));
    assert_eq!(stats.packets, 2);
}

const N_CONN: usize = 64;
const N_REQ_EXACT: usize = 8;
const N_PIPE: usize = 16;
const N_PIPE_REQ: usize = 3;
const N_SLOW: usize = 8;
const N_SLOW_DELAYED: usize = 2;

struct Traffic {
    now: Vec<WalRecord>,
    delayed: Vec<WalRecord>,
    payloads: Vec<Vec<u8>>,
    clock: u64,
}

impl Traffic {
    fn rec(&mut self, up: bool, cport: u16, flags: u8, seq: u32, ack: u32, payload: &[u8]) -> WalRecord {
        let ts = self.clock;
        self.clock += 1;
        pkt(up, cport, SPORT, 6, flags, ts, seq, ack, 65535, payload.len() as u32, payload)
    }

    fn connection(&mut self, cport: u16, mode: u8) {
        let syn = self.rec(true, cport, TCP_SYN, 1000, 0, b"");
        let synack = self.rec(false, cport, TCP_SYN | TCP_ACK, 5000, 1001, b"");
        let ack = self.rec(true, cport, TCP_ACK, 1001, 5001, b"");
        self.now.extend([syn, synack, ack]);
        let mut seq = 1001u32;
        let mut sseq = 5001u32;
        if mode == 1 {
            for i in 0..N_PIPE_REQ {
                let payload = format!("GET /c{}/p{} HTTP/1.1", cport, i).into_bytes();
                let q = self.rec(true, cport, TCP_ACK, seq, sseq, &payload);
                self.now.push(q);
                seq += payload.len() as u32;
                self.payloads.push(payload);
            }
            let resp = format!("OK-{}-P", cport).into_bytes();
            let r = self.rec(false, cport, TCP_ACK, sseq, seq, &resp);
            self.now.push(r);
            self.payloads.push(resp);
            return;
        }
        let nreq = if mode == 0 { N_REQ_EXACT } else { 4 };
        for i in 0..nreq {
            let payload = format!("GET /c{}/r{} HTTP/1.1", cport, i).into_bytes();
            let q = self.rec(true, cport, TCP_ACK, seq, sseq, &payload);
            self.now.push(q);
            seq += payload.len() as u32;
            self.payloads.push(payload);
            let resp = format!("OK-{}-{}", cport, i).into_bytes();
            let r = self.rec(false, cport, TCP_ACK, sseq, seq, &resp);
            sseq += resp.len() as u32;
            if mode == 2 && i >= nreq - N_SLOW_DELAYED {
                self.delayed.push(r);
            } else {
                self.now.push(r);
            }
            self.payloads.push(resp);
        }
    }
}

#[test]
fn e2e_p5_stress_md5_hitrate_slowq() {
    let mut t = Traffic { now: Vec::new(), delayed: Vec::new(), payloads: Vec::new(), clock: BASE };
    for i in 0..N_CONN {
        let mode = if i < N_CONN - N_SLOW - N_PIPE {
            0
        } else if i < N_CONN - N_SLOW {
            1
        } else {
            2
        };
        t.connection(20000 + i as u16, mode);
    }
    let mut v = Vault { planes: Planes::new(), data: Vec::new() };
    let mut pipe = BatchPipeline::new(HotFileWriter::open(1, 0, 8 * 1024 * 1024, 1), 10_000);
    for r in t.now {
        v.push(&mut pipe, r);
    }
    v.commit(pipe.flush());
    pipe.committed();
    for r in t.delayed {
        v.push(&mut pipe, r);
    }
    v.commit(pipe.flush());
    pipe.committed();

    let expect_total = (N_CONN - N_SLOW - N_PIPE) * N_REQ_EXACT + N_PIPE * N_PIPE_REQ + N_SLOW * 4;
    assert_eq!(v.planes.qr_pair_count(), expect_total as u64);
    let pairs = v.planes.epoch.pairs.entries();
    assert_eq!(pairs.len(), expect_total);
    assert!(pairs.iter().all(|p| p.1.status == QrStatus::Matched.as_u8()));
    assert_eq!(pairs.iter().filter(|p| p.1.q_idx.len() > 1).count(), N_PIPE + N_SLOW);

    for i in 0..N_CONN {
        let h = conn_hash(1, u32::from_be_bytes(CIP), 20000 + i as u16, u32::from_be_bytes(SIP), SPORT, 6);
        assert_eq!(v.planes.live.conns.get(&h).unwrap().qr_open, 0);
    }

    let (stats, bytes) = v.export(BpfFilter::default(), None);
    let pkts = read_back(&bytes);
    let seen: Vec<u8> = pkts.iter().flat_map(|p| p.payload.clone()).collect();
    assert_eq!(seen, t.payloads.concat());
    assert_eq!(stats.unresolved, 0);
    assert_eq!(pkts.len(), t.payloads.len() + N_CONN * 3);
    assert_eq!(stats.packets, pkts.len() as u64);
}
