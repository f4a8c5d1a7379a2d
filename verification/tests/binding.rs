use sov_vault::batch::stage_lmdb_with_meta;
use sov_vault::config::MetaBind;
use sov_vault::connection::conn_hash;
use sov_vault::db::QrStatus;
use sov_vault::meta::MetaRegistry;
use sov_vault::plane::Planes;
use sov_vault::qr::{BatchOutcome, QrParams};
use sov_vault::wal::{IndexedRecord, WalRecord, TCP_ACK, TCP_SYN};

const CIP: [u8; 4] = [192, 168, 1, 10];
const SIP: [u8; 4] = [10, 0, 0, 1];
const CPORT: u16 = 12345;
const BASE: u64 = 1_700_000_000_000_000_000;

fn entropy(bytes: &[u8]) -> f64 {
    if bytes.is_empty() {
        return 0.0;
    }
    let mut counts = [0u32; 256];
    for &b in bytes {
        counts[b as usize] += 1;
    }
    let n = bytes.len() as f64;
    let mut h = 0.0;
    for &c in &counts {
        if c != 0 {
            let p = c as f64 / n;
            h -= p * p.log2();
        }
    }
    h
}

fn pkt(up: bool, cport: u16, dport: u16, flags: u8, ts_ns: u64, seq: u32, ack: u32, payload: &[u8]) -> WalRecord {
    WalRecord {
        timestamp_ns: ts_ns,
        flags: 0,
        tcp_flags: flags,
        tcp_seq: seq,
        tcp_ack: ack,
        window_size: 65535,
        src_ip: if up { CIP } else { SIP },
        dst_ip: if up { SIP } else { CIP },
        src_port: if up { cport } else { dport },
        dst_port: if up { dport } else { cport },
        proto: 6,
        orig_payload_len: payload.len() as u32,
        payload: payload.to_vec(),
    }
}

fn tls_client_hello(sni: &str) -> Vec<u8> {
    let mut body = vec![0x03, 0x03];
    body.extend_from_slice(&(0..32u32).map(|i| (i.wrapping_mul(7)) as u8).collect::<Vec<_>>());
    body.push(0);
    body.extend_from_slice(&[0x00, 0x02, 0x13, 0x01]);
    body.push(1);
    body.push(0x00);
    let mut sn = vec![0x00, 0x00];
    sn.push(0);
    sn.extend_from_slice(&(sni.len() as u16).to_be_bytes());
    sn.extend_from_slice(sni.as_bytes());
    let sn_len = (sn.len() as u16).to_be_bytes();
    sn[0..2].copy_from_slice(&sn_len);
    body.extend_from_slice(&(2 + 2 + sn.len() as u16).to_be_bytes());
    body.extend_from_slice(&[0x00, 0x00]);
    body.extend_from_slice(&(sn.len() as u16).to_be_bytes());
    body.extend_from_slice(&sn);
    let mut hs = vec![0x01];
    hs.extend_from_slice(&(body.len() as u32).to_be_bytes()[1..4]);
    hs.extend_from_slice(&body);
    let mut rec = vec![0x16, 0x03, 0x01];
    rec.extend_from_slice(&(hs.len() as u16).to_be_bytes());
    rec.extend_from_slice(&hs);
    rec
}

fn exchange(cport: u16, dport: u16, ts: u64, q: &[u8], off: &mut u32, out: &mut Vec<IndexedRecord>) -> u64 {
    let recs = vec![
        pkt(true, cport, dport, TCP_SYN, ts, 1000, 0, b""),
        pkt(false, cport, dport, TCP_SYN | TCP_ACK, ts + 1, 5000, 1001, b""),
        pkt(true, cport, dport, TCP_ACK, ts + 2, 1001, 5001, b""),
        pkt(true, cport, dport, TCP_ACK, ts + 10, 1001, 5001, q),
        pkt(false, cport, dport, TCP_ACK, ts + 20, 5001, 1001 + q.len() as u32, b"200"),
    ];
    let mut q_idx = 0;
    for (i, rec) in recs.into_iter().enumerate() {
        if i == 3 {
            q_idx = (1u64 << 32) | *off as u64;
        }
        let len = 64 + rec.payload.len() as u32;
        out.push(IndexedRecord { dev_id: 1, file_id: 1, offset: *off, rec });
        *off += len;
    }
    q_idx
}

fn commit(records: &Vec<IndexedRecord>, rules: &MetaRegistry) -> BatchOutcome {
    let high: Vec<bool> = records.iter().map(|r| entropy(&r.rec.payload) > 4.0).collect();
    stage_lmdb_with_meta(Planes::new(), records, &high, &QrParams::default(), Some(rules))
}

fn conn_of(cport: u16, dport: u16) -> u64 {
    conn_hash(1, u32::from_be_bytes(CIP), cport, u32::from_be_bytes(SIP), dport, 6)
}

#[test]
fn e2e_meta_http_binds_and_extracts_request_line() {
    let binds =
        vec![MetaBind { name: "web".into(), proto: 6, dst_port: 80, fingerprint: "http".into(), extractor: "http_line".into() }];
    let mut rules = MetaRegistry::from_binds(&binds);
    rules.set_rule_id(0, 41);
    let mut records = Vec::new();
    let payload = b"GET /orders/42 HTTP/1.1\r\nHost: shop\r\n";
    let q_idx = exchange(CPORT, 80, BASE, payload, &mut 0, &mut records);
    let out = commit(&records, &rules);
    let cs = *out.planes.live.conns.get(&conn_of(CPORT, 80)).unwrap();
    assert_eq!(cs.meta_bind_id, 41);
    assert_eq!(cs.protocol_hint, 1);

    let p = out.planes.qr_pair_at(q_idx).unwrap();
    assert_eq!(p.pseudo, 0);
    assert_eq!(p.req_key, b"GET /orders/42 HTTP/1.1");
    assert_eq!(p.status, QrStatus::Matched.as_u8());

    assert_eq!(out.ext_meta.len(), 1);
    assert_eq!(out.ext_meta[0].protocol_hint, 1);
    assert_eq!(out.ext_meta[0].magic_prefix, b"GET ");
    assert!(entropy(&payload[..payload.len().min(64)]) < 4.8);
}

#[test]
fn e2e_meta_tls_sni_extraction() {
    let binds = vec![MetaBind { name: "https".into(), proto: 6, dst_port: 443, fingerprint: "tls".into(), extractor: "sni".into() }];
    let rules = MetaRegistry::from_binds(&binds);
    let mut records = Vec::new();
    let hello = tls_client_hello("pay.gateway.com");
    let q_idx = exchange(CPORT, 443, BASE, &hello, &mut 0, &mut records);
    let out = commit(&records, &rules);
    let cs = *out.planes.live.conns.get(&conn_of(CPORT, 443)).unwrap();
    assert_eq!(cs.meta_bind_id, 1);
    assert_eq!(cs.protocol_hint, 2);

    let p = out.planes.qr_pair_at(q_idx).unwrap();
    assert_eq!(p.pseudo, 0);
    assert_eq!(p.req_key, b"pay.gateway.com");
    assert_eq!(p.status, QrStatus::Matched.as_u8());

    assert_eq!(out.ext_meta.len(), 1);
    assert_eq!(out.ext_meta[0].protocol_hint, 2);
    assert!(out.ext_meta[0].has_fixed_header);
    assert!(entropy(&hello[..64]) > 4.0);
}

#[test]
fn e2e_meta_binary_pseudo_key_stable_and_ext_meta_bumps() {
    let rules = MetaRegistry::from_binds(&vec![]);
    let sig: Vec<u8> = (0..64u32).map(|i| (i.wrapping_mul(0x9E3779B9) >> 16) as u8).collect();
    let mut records = Vec::new();
    let mut off = 0;
    let a = exchange(30001, 9999, BASE, &sig, &mut off, &mut records);
    let b = exchange(30002, 9999, BASE + 100, &sig, &mut off, &mut records);
    let out = commit(&records, &rules);

    let cs = *out.planes.live.conns.get(&conn_of(30001, 9999)).unwrap();
    assert_eq!(cs.meta_bind_id, -1);
    assert_eq!(cs.protocol_hint, 5);

    let p1 = out.planes.qr_pair_at(a).unwrap();
    let p2 = out.planes.qr_pair_at(b).unwrap();
    assert_eq!(p1.pseudo, 1);
    assert_eq!(p2.pseudo, 1);
    assert_eq!(p1.req_key, p2.req_key);

    assert_eq!(out.ext_meta.len(), 2);
    assert_eq!(out.ext_meta[0].dst_port, out.ext_meta[1].dst_port);
    assert_eq!(out.ext_meta[0].protocol_hint, out.ext_meta[1].protocol_hint);
    assert_eq!(out.ext_meta[0].magic_prefix, out.ext_meta[1].magic_prefix);
    assert_eq!(out.ext_meta[0].has_fixed_header, out.ext_meta[1].has_fixed_header);
}
