use sov_vault::anomaly::{scan_pending_ttl, ANOM_QR_TIMEOUT};
use sov_vault::batch::{stage_lmdb, BatchPipeline, HotFileWriter};
use sov_vault::connection::{anomaly as conn_anomaly, conn_hash};
use sov_vault::db::{QrStatus, U48_MAX};
use sov_vault::plane::{Planes, TtlVal};
use sov_vault::qr::{QrMatcher, QrParams};
use sov_vault::query::{stream_qrs, Epoch, Page, QrFilter, QuerySession, RecordFilter};
use sov_vault::table::{Key2, PendingKey};
use sov_vault::wal::{IndexedRecord, WalRecord, TCP_ACK, TCP_FIN, TCP_SYN};

const CIP: [u8; 4] = [192, 168, 1, 10];
const SIP: [u8; 4] = [10, 0, 0, 1];
const CPORT: u16 = 12345;
const SPORT: u16 = 443;
const SEC: u64 = 1_000_000_000;
const NOW: u64 = 1_700_000_000_000_000_000;

fn pkt(up: bool, cport: u16, flags: u8, ts_ns: u64, seq: u32, ack: u32, payload: &[u8]) -> WalRecord {
    WalRecord {
        timestamp_ns: ts_ns,
        flags: 0,
        tcp_flags: flags,
        tcp_seq: seq,
        tcp_ack: ack,
        window_size: 65535,
        src_ip: if up { CIP } else { SIP },
        dst_ip: if up { SIP } else { CIP },
        src_port: if up { cport } else { SPORT },
        dst_port: if up { SPORT } else { cport },
        proto: 6,
        orig_payload_len: payload.len() as u32,
        payload: payload.to_vec(),
    }
}

fn feed(planes: &mut Planes, file_id: u32, recs: Vec<WalRecord>) -> Vec<u64> {
    let mut off = 0u32;
    let mut idx = Vec::new();
    let taken = std::mem::replace(planes, Planes::new());
    let mut m = QrMatcher::begin(taken, &QrParams::default());
    for rec in recs {
        let len = 64 + rec.payload.len() as u32;
        idx.push((u64::from(file_id) << 32) | off as u64);
        m.ingest(&IndexedRecord { dev_id: 1, file_id, offset: off, rec });
        off += len;
    }
    *planes = m.commit().planes;
    idx
}

fn hash(cport: u16) -> u64 {
    conn_hash(1, u32::from_be_bytes(CIP), cport, u32::from_be_bytes(SIP), SPORT, 6)
}

fn open_pending(p: &mut Planes, ts_ns: u64, cport: u16, file_id: u32) -> (u64, u64) {
    let idx = feed(
        p,
        file_id,
        vec![
            pkt(true, cport, TCP_SYN, ts_ns - 1000, 1000, 0, b""),
            pkt(false, cport, TCP_SYN | TCP_ACK, ts_ns - 900, 5000, 1001, b""),
            pkt(true, cport, TCP_ACK, ts_ns - 800, 1001, 5001, b""),
            pkt(true, cport, TCP_ACK, ts_ns, 1001, 5001, b"GET /ttl"),
        ],
    );
    (hash(cport), idx[3])
}

fn status(p: &Planes, idx: u64) -> u8 {
    p.qr_pair_at(idx).unwrap().status
}

fn pending_len(p: &Planes, conn: u64) -> usize {
    p.live.pending.range(&PendingKey { conn, inc: 0, end: 0 }, &PendingKey { conn, inc: 0, end: U48_MAX }).len()
}

#[test]
fn ttl_expires_stale_and_keeps_fresh() {
    let mut p = Planes::new();
    let (h_old, q_old) = open_pending(&mut p, NOW - 40 * SEC, 11111, 1);
    let (h_new, q_new) = open_pending(&mut p, NOW - SEC, 22222, 2);
    assert_ne!(h_old, h_new);
    assert_eq!(pending_len(&p, h_old), 1);
    assert_eq!(pending_len(&p, h_new), 1);
    assert_eq!(p.live.ttl.len(), 2);

    let (events, stats) = scan_pending_ttl(&mut p, NOW, 30, 5);

    assert_eq!(stats.timed_out, 1);
    assert_eq!(stats.scanned, 1);
    assert_eq!(status(&p, q_old), QrStatus::Timeout.as_u8());
    assert_eq!(pending_len(&p, h_old), 0);
    assert_eq!(p.live.conns.get(&h_old).unwrap().qr_open, 0);
    assert_ne!(p.live.conns.get(&h_old).unwrap().anomaly_flags & conn_anomaly::QR_UNMATCHED, 0);
    assert_eq!(status(&p, q_new), QrStatus::Pending.as_u8());
    assert_eq!(pending_len(&p, h_new), 1);
    assert_eq!(p.live.conns.get(&h_new).unwrap().qr_open, 1);
    assert_eq!(events.len(), 1);
    assert_eq!(events[0].kind, ANOM_QR_TIMEOUT);
    assert_eq!(events[0].qr_id, Some(q_old as i64));
    assert_eq!(p.live.ttl.len(), 1);
}

#[test]
fn fin_short_timeout_shortens_in_life_q() {
    let mut p = Planes::new();
    let fin_ts = NOW;
    let now = fin_ts + 6 * SEC;
    let idx = feed(
        &mut p,
        1,
        vec![
            pkt(true, CPORT, TCP_SYN, fin_ts - 1000, 1000, 0, b""),
            pkt(false, CPORT, TCP_SYN | TCP_ACK, fin_ts - 900, 5000, 1001, b""),
            pkt(true, CPORT, TCP_ACK, fin_ts - 800, 1001, 5001, b""),
            pkt(true, CPORT, TCP_ACK, fin_ts - 2 * SEC, 1001, 5001, b"GET /pre-fin"),
            pkt(true, CPORT, TCP_FIN, fin_ts, 1007, 5001, b""),
            pkt(true, CPORT, TCP_ACK, fin_ts + SEC, 1011, 5001, b"GET /post-fin"),
        ],
    );
    let h = hash(CPORT);
    assert_eq!(pending_len(&p, h), 2);

    let (events, stats) = scan_pending_ttl(&mut p, now, 30, 5);
    assert_eq!(stats.timed_out, 1);
    assert_eq!(status(&p, idx[3]), QrStatus::Timeout.as_u8());
    assert_eq!(status(&p, idx[5]), QrStatus::Pending.as_u8());
    assert_eq!(pending_len(&p, h), 1);
    assert_eq!(events[0].qr_id, Some(idx[3] as i64));
}

#[test]
fn ttl_scan_idempotent_no_double_flip() {
    let mut p = Planes::new();
    let (h, q) = open_pending(&mut p, NOW - 40 * SEC, 33333, 1);
    let (ev1, s1) = scan_pending_ttl(&mut p, NOW, 30, 5);
    assert_eq!(s1.timed_out, 1);
    assert_eq!(ev1.len(), 1);
    let (ev2, s2) = scan_pending_ttl(&mut p, NOW, 30, 5);
    assert_eq!(s2.timed_out, 0);
    assert_eq!(s2.stale, 0);
    assert!(ev2.is_empty());
    assert_eq!(status(&p, q), QrStatus::Timeout.as_u8());
    assert_eq!(pending_len(&p, h), 0);
}

#[test]
fn ttl_audit_persists_to_ledger() {
    let mut p = Planes::new();
    let (h, _) = open_pending(&mut p, NOW - 40 * SEC, 44444, 1);
    let (rows, _) = scan_pending_ttl(&mut p, NOW, 30, 5);
    assert_eq!(rows.len(), 1);
    assert_eq!(rows[0].kind, ANOM_QR_TIMEOUT);
    assert_eq!(rows[0].conn_hash, Some(h.to_be_bytes().to_vec()));
}

#[test]
fn ttl_stale_residual_cleaned() {
    let mut p = Planes::new();
    let q_ts = NOW - 40 * SEC;
    p.live.ttl.put(Key2 { a: q_ts, b: 0xDEADBEEF }, TtlVal { q_first_idx: 777, abs_q_end: 1000 });
    let (_, stats) = scan_pending_ttl(&mut p, NOW, 30, 5);
    assert_eq!(stats.stale, 1);
    assert_eq!(stats.timed_out, 0);
    assert_eq!(p.live.ttl.len(), 0);
}

#[test]
fn ttl_disabled_no_op() {
    let mut p = Planes::new();
    open_pending(&mut p, 1_000_000_000, 55555, 1);
    let (events, stats) = scan_pending_ttl(&mut p, 1_000_000_000_000, 0, 5);
    assert!(events.is_empty());
    assert_eq!(stats.timed_out, 0);
}

#[test]
fn e2e_ingest_ttl_audit_query_loop() {
    let mut pipe = BatchPipeline::new(HotFileWriter::open(1, 0, 64 * 1024, 1), 100);
    for r in [
        pkt(true, CPORT, TCP_SYN, NOW - 41 * SEC, 1000, 0, b""),
        pkt(false, CPORT, TCP_SYN | TCP_ACK, NOW - 40 * SEC, 5000, 1001, b""),
        pkt(true, CPORT, TCP_ACK, NOW - 39 * SEC, 1001, 5001, b""),
        pkt(true, CPORT, TCP_ACK, NOW - 40 * SEC, 1001, 5001, b"GET /stale"),
    ] {
        assert!(!pipe.push_record(r));
    }
    let out = stage_lmdb(Planes::new(), pipe.flush(), &QrParams::default());
    let mut p = out.planes;

    let (events, stats) = scan_pending_ttl(&mut p, NOW, 30, 5);
    assert_eq!(stats.timed_out, 1);
    let h = hash(CPORT);
    let q_first_idx = events[0].qr_id.unwrap() as u64;

    let live = p.live;
    let epochs = vec![Epoch { num: 0, plane: p.epoch }];
    let s = QuerySession::open(&live, &epochs, 0);
    let pair = s.qr_by_idx(q_first_idx).unwrap();
    assert_eq!(pair.status, QrStatus::Timeout.as_u8());
    assert_eq!(pair.conn_hash, h);
    assert_eq!(pair.q_idx, vec![q_first_idx]);
    assert_eq!(pair.req_key, b"GET /stale".to_vec());

    let by_conn = QrFilter { conn_hash: Some(h), ..Default::default() };
    let r = s.scan_conn_qr(&by_conn, &Page::default()).unwrap();
    assert_eq!(r.rows.len(), 1);
    assert_eq!(r.rows[0].q_first_idx, q_first_idx);
    assert_eq!(r.rows[0].status_name, "timeout");

    let window = QrFilter { start_ts: Some(NOW - 45 * SEC), end_ts: Some(NOW - 35 * SEC), ..Default::default() };
    let r = s.scan_time_qr(&window, &Page::default());
    assert!(r.rows.iter().any(|x| x.q_first_idx == q_first_idx));

    assert_eq!(s.qr_by_packet(q_first_idx), Some(q_first_idx));

    let r = s.scan_records(&RecordFilter { start_ts: Some(NOW - 45 * SEC), end_ts: Some(NOW - 35 * SEC) }, &Page::default());
    assert!(r.rows.iter().any(|x| x.packet_idx == q_first_idx));
    assert!(r.rows.iter().any(|x| x.summary.len == 10));

    let lines = stream_qrs(&live, &epochs, 0, &by_conn);
    assert_eq!(lines.len(), 1);
    assert_eq!(lines[0].status_name, "timeout");

    let mut p = Planes { live, epoch: epochs.into_iter().next().unwrap().plane };
    let (ev2, s2) = scan_pending_ttl(&mut p, NOW, 30, 5);
    assert!(ev2.is_empty());
    assert_eq!(s2.timed_out, 0);
}
