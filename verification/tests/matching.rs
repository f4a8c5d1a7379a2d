use sov_vault::connection::{anomaly, conn_hash, ConnState, ConnStateKind};
use sov_vault::db::{QrPairValue, QrStatus};
use sov_vault::device::{expire_idle, mark_incomplete, quarantine_device};
use sov_vault::ledger::AnomalyEvent;
use sov_vault::plane::Planes;
use sov_vault::qr::{QrMatcher, QrParams, SeqStream, ANOM_CONN_RST, ANOM_EPOCH_REBIRTH, EPOCH_JUMP_THRESHOLD, U48_MAX};
use sov_vault::table::PendingKey;
use sov_vault::wal::{IndexedRecord, WalRecord, TCP_ACK, TCP_FIN, TCP_RST, TCP_SYN};

const CIP: [u8; 4] = [192, 168, 1, 10];
const SIP: [u8; 4] = [10, 0, 0, 1];
const CPORT: u16 = 12345;
const SPORT: u16 = 443;
const GB: u32 = 0x4000_0000;
const FILE: u64 = 1 << 32;

fn pkt(src: [u8; 4], dst: [u8; 4], sport: u16, dport: u16, flags: u8, seq: u32, ack: u32, payload: &[u8]) -> WalRecord {
    WalRecord {
        timestamp_ns: seq as u64,
        flags: 0,
        tcp_flags: flags,
        tcp_seq: seq,
        tcp_ack: ack,
        window_size: 65535,
        src_ip: src,
        dst_ip: dst,
        src_port: sport,
        dst_port: dport,
        proto: 6,
        orig_payload_len: payload.len() as u32,
        payload: payload.to_vec(),
    }
}

fn up(flags: u8, seq: u32, ack: u32, payload: &[u8]) -> WalRecord {
    pkt(CIP, SIP, CPORT, SPORT, flags, seq, ack, payload)
}

fn down(flags: u8, seq: u32, ack: u32, payload: &[u8]) -> WalRecord {
    pkt(SIP, CIP, SPORT, CPORT, flags, seq, ack, payload)
}

fn c2s(seq: u32, ack: u32, payload: &[u8]) -> WalRecord {
    up(TCP_ACK, seq, ack, payload)
}

fn s2c(seq: u32, ack: u32, payload: &[u8]) -> WalRecord {
    down(TCP_ACK, seq, ack, payload)
}

struct Offset(u32);

impl Offset {
    fn next(&mut self, r: &WalRecord) -> u32 {
        let o = self.0;
        self.0 += 64 + r.payload.len() as u32;
        o
    }
}

fn run(planes: &mut Planes, recs: &[(WalRecord, u32)]) -> Vec<AnomalyEvent> {
    run_with(planes, recs, &QrParams::default())
}

fn run_with(planes: &mut Planes, recs: &[(WalRecord, u32)], params: &QrParams) -> Vec<AnomalyEvent> {
    let taken = std::mem::replace(planes, Planes::new());
    let mut m = QrMatcher::begin(taken, params);
    for (rec, off) in recs {
        m.ingest(&IndexedRecord { dev_id: 1, file_id: 1, offset: *off, rec: rec.clone() });
    }
    let out = m.commit();
    *planes = out.planes;
    out.anomalies
}

fn ch() -> u64 {
    conn_hash(1, u32::from_be_bytes(CIP), CPORT, u32::from_be_bytes(SIP), SPORT, 6)
}

fn pair_at(p: &Planes, idx: u64) -> QrPairValue {
    p.qr_pair_at(idx).unwrap().clone()
}

fn pending_len(p: &Planes, conn: u64, inc: u16) -> usize {
    p.live.pending.range(&PendingKey { conn, inc, end: 0 }, &PendingKey { conn, inc, end: U48_MAX }).len()
}

fn conn_state_at(p: &Planes, h: u64) -> ConnState {
    *p.live.conns.get(&h).unwrap()
}

fn handshake(o: &mut Offset) -> Vec<(WalRecord, u32)> {
    let syn = up(TCP_SYN, 1000, 0, b"");
    let synack = down(TCP_SYN | TCP_ACK, 5000, 1001, b"");
    let a = o.next(&syn);
    let b = o.next(&synack);
    vec![(syn, a), (synack, b)]
}

#[test]
fn seq_stream_wrap_retransmit_and_abs_of() {
    let mut s = SeqStream { last_raw: 0, last_abs: 0, active: false };
    let (a, w) = s.feed_packet(0xFFFF_FFF0, 32);
    assert_eq!((a, w), (0xFFFF_FFF0, 32));
    let (a, w) = s.feed_packet(0x0000_0010, 16);
    assert_eq!((a, w), (0x1_0000_0010, 16));
    let (a, w) = s.feed_packet(0x0000_0010, 16);
    assert_eq!(w, 0);
    assert_eq!(a, 0x1_0000_0020);
    let (a, w) = s.feed_packet(0x0000_000F, 32);
    assert_eq!(w, 15);
    assert_eq!(a, 0x1_0000_0020);
    let _ = s.abs_of(0x0000_0020);
    let d = s.diff(0xABCD_0000);
    assert!(i64::from(d).abs() > i64::from(EPOCH_JUMP_THRESHOLD));
}

#[test]
fn stream_translates_next_to_its_head() {
    let mut s = SeqStream { last_raw: 0, last_abs: 0, active: false };
    assert_eq!(s.abs_of(77), 77);
    s.reset_baseline(0xFFFF_FFF0);
    assert_eq!(s.abs_of(0x10), 0x1_0000_0010);
    assert_eq!(s.abs_of(0xFFFF_FF00), 0xFFFF_FFF0);
    assert_eq!(s.diff(0x10), 32);
    assert_eq!(s.diff(0xFFFF_FFE0), -16);
    s.reset_baseline(3);
    assert_eq!(s.abs_of(0xFFFF_FFFF), 3);
}

#[test]
fn handshake_qr_match() {
    let mut p = Planes::new();
    let mut o = Offset(0);
    let mut recs = handshake(&mut o);
    for r in [c2s(1001, 5001, b""), c2s(1001, 5001, b"GET /a"), s2c(5001, 1011, b"HTTP/1.1 200")] {
        let off = o.next(&r);
        recs.push((r, off));
    }
    let q_idx = recs[3].1 as u64 | FILE;
    let r_idx = recs[4].1 as u64 | FILE;
    run(&mut p, &recs);
    let h = ch();
    let cs = conn_state_at(&p, h);
    assert_eq!(cs.state, ConnStateKind::Established.as_u8());
    assert_eq!(cs.req_cnt, 1);
    assert_eq!(cs.resp_cnt, 1);
    assert_eq!(cs.qr_open, 0);
    assert_eq!(pending_len(&p, h, 0), 0);
    let q = pair_at(&p, q_idx);
    assert_eq!(q.status, QrStatus::Matched.as_u8());
    assert_eq!(q.abs_q_end, 1001 + 6);
    assert_eq!(q.r_idx, vec![r_idx]);
    assert_eq!(q.q_idx, vec![q_idx]);
}

#[test]
fn pipelining_batched_ack_aggregates() {
    let mut p = Planes::new();
    let mut o = Offset(0);
    let mut recs = handshake(&mut o);
    let mut idx = Vec::new();
    for r in [
        c2s(1001, 5001, b""),
        c2s(1001, 5001, &[1u8; 10]),
        c2s(1011, 5001, &[2u8; 10]),
        c2s(1021, 5001, &[3u8; 10]),
        s2c(5001, 1031, b"OK"),
    ] {
        let off = o.next(&r);
        idx.push(FILE | off as u64);
        recs.push((r, off));
    }
    run(&mut p, &recs);

    assert_eq!(pending_len(&p, ch(), 0), 0);
    assert_eq!(p.qr_pair_count(), 3);
    let prim = pair_at(&p, idx[1]);
    assert_eq!(prim.status, QrStatus::Matched.as_u8());
    assert_eq!(prim.q_idx.len(), 3);
    assert_eq!(prim.r_idx, vec![idx[4]]);
    assert_eq!(pair_at(&p, idx[2]).status, QrStatus::Matched.as_u8());
    assert_eq!(pair_at(&p, idx[3]).status, QrStatus::Matched.as_u8());
}

#[test]
fn cross_batch_slow_path() {
    let mut p = Planes::new();
    let mut o = Offset(0);
    let q_rec = c2s(1001, 5001, b"GET /slow");
    let q_idx = FILE | o.next(&q_rec) as u64;
    let mut recs = handshake(&mut o);
    recs.push((q_rec, q_idx as u32));
    run(&mut p, &recs);
    let h = ch();
    assert_eq!(pending_len(&p, h, 0), 1);
    assert_eq!(pair_at(&p, q_idx).status, QrStatus::Pending.as_u8());

    let r_idx = FILE | 4096;
    run(&mut p, &[(s2c(5001, 1010, b"late-200"), r_idx as u32)]);
    assert_eq!(pending_len(&p, h, 0), 0);
    let q = pair_at(&p, q_idx);
    assert_eq!(q.status, QrStatus::Matched.as_u8());
    assert_eq!(q.r_idx, vec![r_idx]);
    assert_eq!(q.abs_q_end, 1001 + 9);
}

#[test]
fn wrap_case_qr_match() {
    let mut p = Planes::new();
    let mut o = Offset(0);
    let syn = up(TCP_SYN, 0xFFFF_FFE0, 0, b"");
    let syn_off = o.next(&syn);
    let q = c2s(0xFFFF_FFF0, 5001, &[7u8; 32]);
    let q_idx = FILE | o.next(&q) as u64;
    let r = s2c(5001, 0x0000_0010, b"ok");
    let r_idx = FILE | o.next(&r) as u64;
    let synack = down(TCP_SYN | TCP_ACK, 5000, 0xFFFF_FFE1, b"");
    let synack_off = o.next(&synack);
    run(&mut p, &[(syn, syn_off), (synack, synack_off), (q, q_idx as u32), (r, r_idx as u32)]);
    let v = pair_at(&p, q_idx);
    assert_eq!(v.status, QrStatus::Matched.as_u8());
    assert_eq!(v.abs_q_end, 0x1_0000_0010);
    assert_eq!(pending_len(&p, ch(), 0), 0);
}

#[test]
fn epoch_rebirth_flips_and_isolates_ghost() {
    let mut p = Planes::new();
    let mut o = Offset(0);
    let q0 = c2s(1001, 5001, b"GET /old");
    let q0_idx = FILE | o.next(&q0) as u64;
    let mut recs = handshake(&mut o);
    recs.push((q0, q0_idx as u32));
    run(&mut p, &recs);
    let h = ch();
    assert_eq!(pending_len(&p, h, 0), 1);
    assert_eq!(conn_state_at(&p, h).incarnation, 0);

    let new_isn = 0xABCD_1234u32;
    let syn = up(TCP_SYN, new_isn, 0, b"");
    let off = o.next(&syn);
    let a = run(&mut p, &[(syn, off)]);
    assert_eq!(pending_len(&p, h, 0), 0);
    assert_eq!(pair_at(&p, q0_idx).status, QrStatus::Unmatched.as_u8());
    assert_eq!(conn_state_at(&p, h).incarnation, 1);
    assert!(a.iter().any(|e| e.kind == ANOM_EPOCH_REBIRTH));

    let ghost = s2c(5000, 1011, b"ghost");
    let off = o.next(&ghost);
    run(&mut p, &[(ghost, off)]);
    assert_eq!(pending_len(&p, h, 1), 0);
    assert_eq!(pair_at(&p, q0_idx).status, QrStatus::Unmatched.as_u8());

    let q1 = c2s(new_isn + 1, 0, b"GET /new");
    let q1_idx = FILE | o.next(&q1) as u64;
    let r1 = s2c(6000, new_isn + 1 + 8, b"200new");
    let r1_idx = FILE | o.next(&r1) as u64;
    run(&mut p, &[(q1, q1_idx as u32), (r1, r1_idx as u32)]);
    let p1 = pair_at(&p, q1_idx);
    assert_eq!(p1.status, QrStatus::Matched.as_u8());
    assert_eq!(p1.abs_q_end, (new_isn as u64) + 1 + 8);
    assert_eq!(pending_len(&p, h, 1), 0);
}

#[test]
fn large_jump_marks_seq_gap_without_rebirth() {
    let mut p = Planes::new();
    let mut o = Offset(0);
    let q0 = c2s(1001, 5001, b"GET /a");
    let q0_idx = FILE | o.next(&q0) as u64;
    let mut recs = handshake(&mut o);
    recs.push((q0, q0_idx as u32));
    run(&mut p, &recs);
    let jump = c2s(0x8000_0101, 5001, b"post-jump");
    let off = o.next(&c2s(0, 0, b""));
    run(&mut p, &[(jump, off)]);
    let h = ch();
    let cs = conn_state_at(&p, h);
    assert_eq!(cs.incarnation, 0);
    assert_eq!(pair_at(&p, q0_idx).status, QrStatus::Pending.as_u8());
    assert_eq!(pending_len(&p, h, 0), 2);
    assert_ne!(cs.anomaly_flags & anomaly::SEQ_GAP, 0);
}

#[test]
fn rst_cascade_aborts_pending() {
    let mut p = Planes::new();
    let mut o = Offset(0);
    let q = c2s(1001, 5001, b"GET /a");
    let q_idx = FILE | o.next(&q) as u64;
    let mut recs = handshake(&mut o);
    recs.push((q, q_idx as u32));
    let r = down(TCP_RST | TCP_ACK, 5001, 1011, b"");
    let off = o.next(&r);
    recs.push((r, off));
    let events = run(&mut p, &recs);
    let h = ch();
    assert_eq!(pair_at(&p, q_idx).status, QrStatus::RstAbort.as_u8());
    assert_eq!(pending_len(&p, h, 0), 0);
    let cs = conn_state_at(&p, h);
    assert_eq!(cs.state, ConnStateKind::Reset.as_u8());
    assert_ne!(cs.anomaly_flags & anomaly::RESET, 0);
    assert_eq!(cs.qr_open, 0);
    assert!(events.iter().any(|e| e.kind == ANOM_CONN_RST));
}

#[test]
fn replay_idempotent_no_dup() {
    let mut p = Planes::new();
    let mut o = Offset(0);
    let q = c2s(1001, 5001, b"GET /a");
    let q_idx = FILE | o.next(&q) as u64;
    let r = s2c(5001, 1007, b"200");
    let r_idx = FILE | o.next(&r) as u64;
    let mut recs = handshake(&mut o);
    recs.push((q, q_idx as u32));
    recs.push((r, r_idx as u32));
    run(&mut p, &recs);
    let before_pairs = p.qr_pair_count();
    assert_eq!(before_pairs, 1);
    run(&mut p, &recs);
    assert_eq!(p.qr_pair_count(), before_pairs);
    assert_eq!(pending_len(&p, ch(), 0), 0);
    assert_eq!(pair_at(&p, q_idx).status, QrStatus::Matched.as_u8());
}

#[test]
fn e2e_db_long_conn_rewrap() {
    let mut p = Planes::new();
    let mut o = Offset(0);
    let syn = up(TCP_SYN, 0x8000_0000, 0, b"");
    let a = o.next(&syn);
    let synack = down(TCP_SYN | TCP_ACK, 0x9000_0000, 0x8000_0001, b"");
    let b = o.next(&synack);
    let mut recs = vec![(syn, a), (synack, b)];
    let mut q_seq: u32 = 0x8000_0001;
    let mut s_seq: u32 = 0x9000_0001;
    let mut q_idx_by_i: Vec<u64> = Vec::new();
    for _ in 0..10 {
        let mut q = c2s(q_seq, 0, b"DBREQ");
        q.orig_payload_len = GB;
        let q_off = o.next(&q);
        let r_ack = q_seq.wrapping_add(GB);
        let mut r = s2c(s_seq, r_ack, b"DBRESP");
        r.orig_payload_len = 0;
        let r_off = o.next(&r);
        recs.push((q, q_off));
        recs.push((r, r_off));
        q_idx_by_i.push(FILE | q_off as u64);
        q_seq = r_ack;
        s_seq = s_seq.wrapping_add(1);
    }
    run(&mut p, &recs);

    let h = ch();
    assert_eq!(conn_state_at(&p, h).incarnation, 0);
    assert_eq!(conn_state_at(&p, h).qr_open, 0);
    let mut wrap_spanning = 0u32;
    for q_idx in q_idx_by_i.iter() {
        let v = p.epoch.pairs.get(q_idx).unwrap();
        assert_eq!(v.status, QrStatus::Matched.as_u8());
        assert_eq!(v.q_len, GB);
        if (v.abs_q_seq >> 32) < (v.abs_q_end >> 32) {
            wrap_spanning += 1;
        }
    }
    assert_eq!(wrap_spanning, 3);
    let last = p.epoch.pairs.get(q_idx_by_i.last().unwrap()).unwrap();
    assert_eq!(last.abs_q_end, 0x3_0000_0001);
    assert_eq!(last.abs_q_seq, 0x2_C000_0001);
    assert_eq!(pending_len(&p, h, 0), 0);
}

#[test]
fn e2e_5tuple_reuse_ghost_prevent() {
    let mut p = Planes::new();
    let mut o = Offset(0);
    let q_old = c2s(1001, 5001, b"GET /old");
    let q_old_idx = FILE | o.next(&q_old) as u64;
    let mut recs = handshake(&mut o);
    recs.push((q_old, q_old_idx as u32));
    run(&mut p, &recs);
    let h = ch();
    assert_eq!(pending_len(&p, h, 0), 1);
    assert_eq!(conn_state_at(&p, h).incarnation, 0);

    let new_isn = 0xABCD_1234u32;
    let syn = up(TCP_SYN, new_isn, 0, b"");
    let off = o.next(&syn);
    let anomalies = run(&mut p, &[(syn, off)]);
    assert_eq!(p.epoch.pairs.get(&q_old_idx).unwrap().status, QrStatus::Unmatched.as_u8());
    assert_eq!(pending_len(&p, h, 0), 0);
    assert_eq!(conn_state_at(&p, h).incarnation, 1);
    assert!(anomalies.iter().any(|e| e.kind == ANOM_EPOCH_REBIRTH));

    let q_new = c2s(new_isn.wrapping_add(1), 0, b"GET /new");
    let q_new_idx = FILE | o.next(&q_new) as u64;
    let r_new = s2c(6000, new_isn.wrapping_add(1).wrapping_add(8), b"200-new");
    let off = o.next(&r_new);
    run(&mut p, &[(q_new, q_new_idx as u32), (r_new, off)]);
    assert_eq!(p.epoch.pairs.get(&q_new_idx).unwrap().status, QrStatus::Matched.as_u8());
    assert_eq!(p.epoch.pairs.get(&q_old_idx).unwrap().status, QrStatus::Unmatched.as_u8());
    assert_eq!(pending_len(&p, h, 1), 0);
    assert_eq!(pending_len(&p, h, 0), 0);
}

#[test]
fn connections_do_not_touch_each_other() {
    let mut p = Planes::new();
    let mut o = Offset(0);
    let q = c2s(1001, 5001, b"GET /a");
    let mut recs = handshake(&mut o);
    let q_idx = FILE | o.next(&q) as u64;
    recs.push((q, q_idx as u32));
    run(&mut p, &recs);
    let before = conn_state_at(&p, ch());
    let other = pkt(SIP, CIP, SPORT, 999, TCP_RST | TCP_ACK, 5001, 1007, b"no");
    let off = o.next(&other);
    run(&mut p, &[(other, off)]);
    assert_eq!(conn_state_at(&p, ch()), before);
    assert_eq!(pair_at(&p, q_idx).status, QrStatus::Pending.as_u8());
}

#[test]
fn fin_keeps_open_requests() {
    let mut p = Planes::new();
    let mut o = Offset(0);
    let mut recs = handshake(&mut o);
    let q = c2s(1001, 5001, b"GET /a");
    let q_idx = FILE | o.next(&q) as u64;
    recs.push((q, q_idx as u32));
    let fin = up(TCP_FIN | TCP_ACK, 1007, 5001, b"");
    let off = o.next(&fin);
    recs.push((fin, off));
    run(&mut p, &recs);
    assert_eq!(pair_at(&p, q_idx).status, QrStatus::Pending.as_u8());
    assert_ne!(conn_state_at(&p, ch()).anomaly_flags & anomaly::FIN_SEEN, 0);
}

#[test]
fn far_ahead_ack_matches_nothing() {
    let mut p = Planes::new();
    let mut o = Offset(0);
    let mut recs = handshake(&mut o);
    let q = c2s(1001, 5001, b"GET /a");
    let q_idx = FILE | o.next(&q) as u64;
    recs.push((q, q_idx as u32));
    let r = s2c(5001, 1007 + 0x1000_0000, b"200");
    let off = o.next(&r);
    recs.push((r, off));
    run(&mut p, &recs);
    assert_eq!(pair_at(&p, q_idx).status, QrStatus::Pending.as_u8());
    assert_eq!(pending_len(&p, ch(), 0), 1);
}

#[test]
fn first_packet_seen_twice_brings_nothing() {
    let mut s = SeqStream { last_raw: 0, last_abs: 0, active: false };
    assert_eq!(s.feed_packet(1000, 50), (1000, 50));
    assert_eq!((s.last_raw, s.last_abs), (1050, 1050));
    assert_eq!(s.feed_packet(1000, 50).1, 0);
    assert_eq!(s.feed_packet(1050, 10), (1050, 10));
}

fn open_request(p: &mut Planes) -> (Offset, u64) {
    let mut o = Offset(0);
    let mut recs = handshake(&mut o);
    let q = c2s(1001, 5001, b"GET /a");
    let q_idx = FILE | o.next(&q) as u64;
    recs.push((q, q_idx as u32));
    run(p, &recs);
    (o, q_idx)
}

fn one(p: &mut Planes, o: &mut Offset, rec: WalRecord) -> Vec<AnomalyEvent> {
    let off = o.next(&rec);
    run(p, &[(rec, off)])
}

#[test]
fn second_fin_closes_and_leaves_nothing_pending() {
    let mut p = Planes::new();
    let mut o = Offset(0);
    run(&mut p, &handshake(&mut o));
    one(&mut p, &mut o, down(TCP_FIN | TCP_ACK, 5001, 1001, b""));
    one(&mut p, &mut o, down(TCP_FIN | TCP_ACK, 5001, 1001, b""));
    let q_idx = FILE | o.0 as u64;
    one(&mut p, &mut o, c2s(1001, 5002, b"GET /a"));
    assert_eq!(pair_at(&p, q_idx).status, QrStatus::Pending.as_u8());
    assert_ne!(conn_state_at(&p, ch()).state, ConnStateKind::Closed.as_u8());
    let events = one(&mut p, &mut o, up(TCP_FIN | TCP_ACK, 1007, 5002, b""));
    assert_eq!(pair_at(&p, q_idx).status, QrStatus::Unmatched.as_u8());
    assert_eq!(pending_len(&p, ch(), 0), 0);
    let st = conn_state_at(&p, ch());
    assert_eq!((st.state, st.qr_open), (ConnStateKind::Closed.as_u8(), 0));
    assert_ne!(st.anomaly_flags & anomaly::QR_UNMATCHED, 0);
    assert_eq!(events.len(), 1);
    assert_eq!(events[0].detail.as_deref(), Some("CONN_CLOSED pending=1"));
}

#[test]
fn answered_requests_leave_a_clean_close() {
    let mut p = Planes::new();
    let (mut o, q_idx) = open_request(&mut p);
    one(&mut p, &mut o, s2c(5001, 1007, b"200"));
    one(&mut p, &mut o, up(TCP_FIN | TCP_ACK, 1007, 5004, b""));
    assert!(one(&mut p, &mut o, down(TCP_FIN | TCP_ACK, 5004, 1008, b"")).is_empty());
    assert_eq!(pair_at(&p, q_idx).status, QrStatus::Matched.as_u8());
    assert_eq!(conn_state_at(&p, ch()).state, ConnStateKind::Closed.as_u8());
}

#[test]
fn closed_window_is_marked() {
    let mut p = Planes::new();
    let (mut o, _) = open_request(&mut p);
    assert_eq!(conn_state_at(&p, ch()).anomaly_flags & anomaly::ZERO_WIN, 0);
    let mut r = down(TCP_ACK, 5001, 1001, b"");
    r.window_size = 0;
    one(&mut p, &mut o, r);
    assert_ne!(conn_state_at(&p, ch()).anomaly_flags & anomaly::ZERO_WIN, 0);
}

#[test]
fn too_many_open_requests_are_aborted() {
    let mut p = Planes::new();
    let mut o = Offset(0);
    let mut recs = handshake(&mut o);
    let mut ids = Vec::new();
    for i in 0..3u32 {
        let q = c2s(1001 + i * 6, 5001, b"GET /a");
        let off = o.next(&q);
        ids.push(FILE | off as u64);
        recs.push((q, off));
    }
    let events = run_with(&mut p, &recs, &QrParams { ack_tolerance: 4, pending_budget: 3 });
    for id in ids {
        assert_eq!(pair_at(&p, id).status, QrStatus::AbortedResource.as_u8());
    }
    let st = conn_state_at(&p, ch());
    assert_eq!((st.state, st.qr_open), (ConnStateKind::Quarantined.as_u8(), 0));
    assert_ne!(st.anomaly_flags & anomaly::CONN_QR_FLOOD, 0);
    assert_eq!(pending_len(&p, ch(), 0), 0);
    assert_eq!(events.last().unwrap().detail.as_deref(), Some("CONN_QR_FLOOD pending=3"));
}

#[test]
fn ack_passes_over_a_request_that_is_finished() {
    let mut p = Planes::new();
    let (mut o, q_idx) = open_request(&mut p);
    p.live.pairs.delete(&q_idx);
    let before = conn_state_at(&p, ch());
    one(&mut p, &mut o, s2c(5001, 1007, b"200"));
    let st = conn_state_at(&p, ch());
    assert_eq!(st.qr_open, before.qr_open);
    assert_eq!(st.consumed_ack_s, 1007);
    assert_eq!(pending_len(&p, ch(), 0), 1);
}

#[test]
fn device_quarantine_aborts_what_its_connections_wait_for() {
    let mut p = Planes::new();
    let (_, q_idx) = open_request(&mut p);
    assert!(quarantine_device(&mut p, 2, 77).is_empty());
    assert_eq!(pair_at(&p, q_idx).status, QrStatus::Pending.as_u8());
    let events = quarantine_device(&mut p, 1, 77);
    assert_eq!(events.len(), 1);
    assert_eq!(events[0].ts, 77);
    assert_eq!(events[0].detail.as_deref(), Some("CONN_OOO_FLOOD pending=1"));
    assert_eq!(pair_at(&p, q_idx).status, QrStatus::AbortedResource.as_u8());
    assert_eq!(pending_len(&p, ch(), 0), 0);
    let st = conn_state_at(&p, ch());
    assert_eq!((st.state, st.qr_open), (ConnStateKind::Quarantined.as_u8(), 0));
    assert_ne!(st.anomaly_flags & anomaly::CONN_OOO_FLOOD, 0);
}

#[test]
fn lost_segment_marks_only_connections_under_way() {
    let mut p = Planes::new();
    let (mut o, _) = open_request(&mut p);
    mark_incomplete(&mut p, 2);
    assert_eq!(conn_state_at(&p, ch()).anomaly_flags & anomaly::INCOMPLETE, 0);
    mark_incomplete(&mut p, 1);
    assert_ne!(conn_state_at(&p, ch()).anomaly_flags & anomaly::INCOMPLETE, 0);
    let mut q = Planes::new();
    let _ = open_request(&mut q);
    one(&mut q, &mut o, up(TCP_RST, 1007, 5001, b""));
    let reset = conn_state_at(&q, ch());
    mark_incomplete(&mut q, 1);
    assert_eq!(conn_state_at(&q, ch()), reset);
}

#[test]
fn idle_connection_times_out() {
    let mut p = Planes::new();
    let (_, q_idx) = open_request(&mut p);
    let last = conn_state_at(&p, ch()).last_ts;
    let wait = 300 * 1_000_000_000;
    assert!(expire_idle(&mut p, last + wait, 0).is_empty());
    assert!(expire_idle(&mut p, last + wait - 1, 300).is_empty());
    assert_eq!(pair_at(&p, q_idx).status, QrStatus::Pending.as_u8());
    let events = expire_idle(&mut p, last + wait, 300);
    assert_eq!(events.len(), 1);
    assert_eq!(events[0].detail.as_deref(), Some("CONN_TIMEOUT pending=1"));
    assert_eq!(pair_at(&p, q_idx).status, QrStatus::Unmatched.as_u8());
    let st = conn_state_at(&p, ch());
    assert_eq!((st.state, st.qr_open), (ConnStateKind::Timeout.as_u8(), 0));
    assert!(expire_idle(&mut p, last + 2 * wait, 300).is_empty());
}

#[test]
fn degraded_record_marks_its_connection() {
    let mut p = Planes::new();
    let (mut o, _) = open_request(&mut p);
    let before = conn_state_at(&p, ch()).anomaly_flags;
    let mut r = c2s(1007, 5001, b"");
    r.flags = 1;
    one(&mut p, &mut o, r);
    assert_eq!(conn_state_at(&p, ch()).anomaly_flags, before | anomaly::DEGRADED);
}

fn open_count(p: &Planes, h: u64) -> u64 {
    let mut n = 0;
    for id in p.live.pairs.range(&0, &u64::MAX) {
        if p.live.pairs.get(&id).unwrap().conn_hash == h {
            n += 1;
        }
    }
    n
}

#[test]
fn rebirth_counts_its_requests_off() {
    let mut p = Planes::new();
    let (mut o, q_idx) = open_request(&mut p);
    assert_eq!(conn_state_at(&p, ch()).qr_open, 1);
    one(&mut p, &mut o, up(TCP_SYN, 90_000, 0, b""));
    assert_eq!(pair_at(&p, q_idx).status, QrStatus::Unmatched.as_u8());
    assert_eq!((conn_state_at(&p, ch()).incarnation, conn_state_at(&p, ch()).qr_open), (1, 0));
    let q = c2s(90_001, 1, b"GET /b");
    let off = o.next(&q);
    run_with(&mut p, &[(q, off)], &QrParams { ack_tolerance: 4, pending_budget: 2 });
    let st = conn_state_at(&p, ch());
    assert_eq!(st.qr_open, 1);
    assert_eq!(st.anomaly_flags & anomaly::CONN_QR_FLOOD, 0);
    assert_eq!(pair_at(&p, FILE | off as u64).status, QrStatus::Pending.as_u8());
}

#[test]
fn open_count_follows_every_change() {
    let mut p = Planes::new();
    let (mut o, _) = open_request(&mut p);
    assert_eq!((conn_state_at(&p, ch()).qr_open, open_count(&p, ch())), (1, 1));
    one(&mut p, &mut o, c2s(1007, 5001, b"GET /b"));
    one(&mut p, &mut o, c2s(1007, 5001, b"GET /b"));
    assert_eq!((conn_state_at(&p, ch()).qr_open, open_count(&p, ch())), (2, 2));
    one(&mut p, &mut o, s2c(5001, 1013, b"200"));
    assert_eq!((conn_state_at(&p, ch()).qr_open, open_count(&p, ch())), (0, 0));
    one(&mut p, &mut o, c2s(1013, 5004, b"GET /c"));
    assert_eq!((conn_state_at(&p, ch()).qr_open, open_count(&p, ch())), (1, 1));
    one(&mut p, &mut o, up(TCP_RST, 1019, 5004, b""));
    assert_eq!((conn_state_at(&p, ch()).qr_open, open_count(&p, ch())), (0, 0));
}

#[test]
fn first_packet_of_a_stream_is_no_jump() {
    let mut p = Planes::new();
    let mut o = Offset(0);
    one(&mut p, &mut o, c2s(0x7000_0000, 0x9000_0000, b"GET /a"));
    one(&mut p, &mut o, s2c(0x9000_0000, 0x7000_0006, b"200"));
    assert_eq!(conn_state_at(&p, ch()).anomaly_flags & anomaly::SEQ_GAP, 0);
    one(&mut p, &mut o, s2c(0x1000_0000, 0x7000_0006, b"200"));
    assert_ne!(conn_state_at(&p, ch()).anomaly_flags & anomaly::SEQ_GAP, 0);
}

#[test]
fn committed_batch_can_be_replayed() {
    let mut p = Planes::new();
    let mut o = Offset(0);
    let mut recs = handshake(&mut o);
    for rec in [
        c2s(1001, 5001, b""),
        c2s(1001, 5001, b"GET /a"),
        s2c(5001, 1007, b"200"),
        c2s(1007, 5004, b"GET /b"),
        c2s(1013, 5004, b"GET /c"),
        s2c(5004, 1019, b"200"),
        c2s(1019, 5007, b""),
    ] {
        let off = o.next(&rec);
        recs.push((rec, off));
    }
    let other = pkt(CIP, SIP, 7777, SPORT, TCP_ACK, 50, 1, b"GET /d");
    let other_off = o.next(&other);
    recs.push((other, other_off));
    run(&mut p, &recs);
    let ids: Vec<u64> = recs.iter().map(|(_, off)| FILE | *off as u64).collect();
    let before: Vec<Option<QrPairValue>> = ids.iter().map(|id| p.qr_pair_at(*id).cloned()).collect();
    assert_eq!(before.iter().filter(|x| x.is_some()).count(), 4);
    let count = p.qr_pair_count();
    run(&mut p, &recs);
    let after: Vec<Option<QrPairValue>> = ids.iter().map(|id| p.qr_pair_at(*id).cloned()).collect();
    assert_eq!(before, after);
    assert_eq!(p.qr_pair_count(), count);
    assert_eq!(p.qr_pair_at(FILE | other_off as u64).unwrap().status, QrStatus::Pending.as_u8());
    assert_eq!(conn_state_at(&p, ch()).incarnation, 0);
}
