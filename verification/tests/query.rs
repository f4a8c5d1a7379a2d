use sov_vault::connection::conn_hash;
use sov_vault::db::{epoch_name, epoch_numbers, highest_epoch, QrStatus, U48_MAX};
use sov_vault::ledger::{ConnArchive, EpochBoundary, EpochState};
use sov_vault::paging::{encode_cursor, parse_cursor};
use sov_vault::plane::{EpochPlane, LivePlane, Planes};
use sov_vault::qr::{QrMatcher, QrParams};
use sov_vault::query::{
    conn_window, plan_qr, replay_scan, stream_qrs, stream_records, Epoch, Page, PlanError, QrFilter, QrPlan, QueryError, QuerySession,
    RecordFilter,
};
use sov_vault::table::PendingKey;
use sov_vault::wal::{IndexedRecord, WalRecord, TCP_ACK, TCP_SYN};

const CIP: [u8; 4] = [192, 168, 1, 10];
const SIP: [u8; 4] = [10, 0, 0, 1];
const CPORT: u16 = 12345;
const SPORT: u16 = 443;
const BASE: u64 = 1_700_000_000_000_000_000;
const FILE: u64 = 1 << 32;

struct Store {
    live: LivePlane,
    epochs: Vec<Epoch>,
    current: u32,
}

impl Store {
    fn new() -> Store {
        Store { live: LivePlane::new(), epochs: vec![Epoch { num: 0, plane: EpochPlane::new() }], current: 0 }
    }

    fn run(&mut self, recs: &[(WalRecord, u32)]) {
        let live = std::mem::replace(&mut self.live, LivePlane::new());
        let last = self.epochs.pop().unwrap();
        let mut m = QrMatcher::begin(Planes { live, epoch: last.plane }, &QrParams::default());
        for (rec, off) in recs {
            m.ingest(&IndexedRecord { dev_id: 1, file_id: 1, offset: *off, rec: rec.clone() });
        }
        let out = m.commit().planes;
        self.live = out.live;
        self.epochs.push(Epoch { num: last.num, plane: out.epoch });
    }

    fn rotate(&mut self) {
        self.current += 1;
        self.epochs.push(Epoch { num: self.current, plane: EpochPlane::new() });
    }

    fn open(&self) -> QuerySession<'_> {
        QuerySession::open(&self.live, &self.epochs, self.current)
    }

    fn frozen(&self, slot: usize) -> EpochBoundary {
        let (min, max, n) = self.epochs[slot].plane.bounds();
        EpochBoundary {
            epoch_id: self.epochs[slot].num as i64,
            dir: epoch_name(self.epochs[slot].num),
            min_ts: min.map(|v| v as i64),
            max_ts: max.map(|v| v as i64),
            record_count: n as i64,
            state: EpochState::Frozen,
        }
    }
}

fn pkt(src: [u8; 4], dst: [u8; 4], sport: u16, dport: u16, proto: u16, flags: u8, ts_ns: u64, seq: u32, ack: u32, payload: &[u8]) -> WalRecord {
    WalRecord {
        timestamp_ns: ts_ns,
        flags: 0,
        tcp_flags: flags,
        tcp_seq: seq,
        tcp_ack: ack,
        window_size: 65535,
        src_ip: src,
        dst_ip: dst,
        src_port: sport,
        dst_port: dport,
        proto,
        orig_payload_len: payload.len() as u32,
        payload: payload.to_vec(),
    }
}

fn c2s(ts_ns: u64, seq: u32, ack: u32, payload: &[u8]) -> WalRecord {
    pkt(CIP, SIP, CPORT, SPORT, 6, TCP_ACK, ts_ns, seq, ack, payload)
}

fn s2c(ts_ns: u64, seq: u32, ack: u32, payload: &[u8]) -> WalRecord {
    pkt(SIP, CIP, SPORT, CPORT, 6, TCP_ACK, ts_ns, seq, ack, payload)
}

fn ch() -> u64 {
    conn_hash(1, u32::from_be_bytes(CIP), CPORT, u32::from_be_bytes(SIP), SPORT, 6)
}

fn seed(store: &mut Store) -> Vec<u64> {
    let list = vec![
        pkt(CIP, SIP, CPORT, SPORT, 6, TCP_SYN, BASE, 1000, 0, b""),
        pkt(SIP, CIP, SPORT, CPORT, 6, TCP_SYN | TCP_ACK, BASE + 1, 5000, 1001, b""),
        c2s(BASE + 2, 1001, 5001, b""),
        c2s(BASE + 10, 1001, 5001, b"GET /a"),
        c2s(BASE + 20, 1011, 5001, b"GET /b"),
        s2c(BASE + 30, 5001, 1017, b"200-ab"),
        c2s(BASE + 40, 1021, 5001, b"GET /c"),
        pkt(CIP, SIP, CPORT, 53, 17, 0, BASE + 50, 0, 0, b"DNSQUERY"),
        pkt(SIP, CIP, 53, CPORT, 17, 0, BASE + 60, 0, 0, b"DNSRESP"),
    ];
    let mut off = 0u32;
    let mut recs = Vec::new();
    let mut idx = Vec::new();
    for rec in list {
        let len = 64 + rec.payload.len() as u32;
        idx.push(FILE | off as u64);
        recs.push((rec, off));
        off += len;
    }
    store.run(&recs);
    vec![idx[3], idx[4], idx[6]]
}

#[test]
fn conn_scan_ordered_and_filtered() {
    let mut store = Store::new();
    let qidx = seed(&mut store);
    let s = store.open();
    let h = ch();

    let f = QrFilter { conn_hash: Some(h), ..Default::default() };
    let r = s.scan_conn_qr(&f, &Page::default()).unwrap();
    assert_eq!(r.rows.len(), 3);
    assert_eq!(r.rows[0].q_first_idx, qidx[0]);
    assert_eq!(r.rows[1].q_first_idx, qidx[1]);
    assert_eq!(r.rows[2].q_first_idx, qidx[2]);
    assert_eq!(r.rows[0].status, QrStatus::Matched.as_u8());
    assert_eq!(r.rows[2].status, QrStatus::Pending.as_u8());
    assert_eq!(r.rows[0].conn_hash, Some(h));

    let f = QrFilter { conn_hash: Some(h), status: Some(QrStatus::Matched), ..Default::default() };
    let r = s.scan_conn_qr(&f, &Page::default()).unwrap();
    assert_eq!(r.rows.len(), 2);

    let t2 = s.qr_by_idx(qidx[1]).unwrap().q_ts;
    let t3 = s.qr_by_idx(qidx[2]).unwrap().q_ts;
    let f = QrFilter { conn_hash: Some(h), start_ts: Some(t2), end_ts: Some(t3), ..Default::default() };
    let r = s.scan_conn_qr(&f, &Page::default()).unwrap();
    assert_eq!(r.rows.len(), 2);
}

#[test]
fn time_scan_window() {
    let mut store = Store::new();
    seed(&mut store);
    let s = store.open();
    let f = QrFilter { start_ts: Some(BASE + 15), end_ts: Some(BASE + 45), ..Default::default() };
    let r = s.scan_time_qr(&f, &Page::default());
    assert_eq!(r.rows.len(), 2);
    assert!(r.rows.iter().all(|x| x.conn_hash.is_none()));
    let page = Page { forward: false, ..Default::default() };
    let r = s.scan_time_qr(&f, &page);
    assert_eq!(r.rows.len(), 2);
    assert!(r.rows[0].q_ts >= r.rows[1].q_ts);
}

#[test]
fn packet_reverse_lookup_and_idx() {
    let mut store = Store::new();
    let qidx = seed(&mut store);
    let s = store.open();
    assert_eq!(s.qr_by_packet(qidx[0]), Some(qidx[0]));
    assert_eq!(s.qr_by_packet(qidx[2]), Some(qidx[2]));
    let p = s.qr_by_idx(qidx[2]).unwrap();
    assert_eq!(p.q_idx, vec![qidx[2]]);
    assert_eq!(p.status, QrStatus::Pending.as_u8());
    let cs = s.conn_state(ch()).unwrap();
    assert_eq!(cs.req_cnt, 3);
    assert!(s.conn_state(1).is_none());
    assert!(s.qr_by_idx(1).is_none());
    assert_eq!(s.qr_by_packet(1), None);
}

#[test]
fn record_scan_window() {
    let mut store = Store::new();
    seed(&mut store);
    let s = store.open();
    let f = RecordFilter { start_ts: Some(BASE + 40), end_ts: None };
    let r = s.scan_records(&f, &Page::default());
    assert_eq!(r.rows.len(), 3);
    assert!(r.rows.iter().all(|x| x.ts_ns >= BASE + 40));
    let udp = r.rows.iter().find(|x| x.summary.proto == 17).unwrap();
    assert_eq!(udp.summary.dport, 53);
    assert_eq!(udp.summary.len, 8);
}

#[test]
fn cursor_pagination_no_dup_no_skip() {
    let mut store = Store::new();
    let qidx = seed(&mut store);
    let s = store.open();
    let f = QrFilter { conn_hash: Some(ch()), ..Default::default() };

    let mut page = Page { limit: 1, ..Default::default() };
    let mut got = Vec::new();
    loop {
        let r = s.scan_conn_qr(&f, &page).unwrap();
        for row in &r.rows {
            got.push(row.q_first_idx);
        }
        if !r.has_more {
            break;
        }
        page.cursor = r.next_cursor;
    }
    assert_eq!(got, qidx);

    let mut page = Page { limit: 2, forward: false, ..Default::default() };
    let r1 = s.scan_conn_qr(&f, &page).unwrap();
    assert!(r1.has_more);
    assert_eq!(r1.rows.len(), 2);
    page.cursor = r1.next_cursor;
    let r2 = s.scan_conn_qr(&f, &page).unwrap();
    assert!(!r2.has_more);
    assert_eq!(r2.rows.len(), 1);
    assert!(r1.rows[0].q_ts >= r1.rows[1].q_ts);
}

#[test]
fn jsonl_export_stream() {
    let mut store = Store::new();
    seed(&mut store);
    let f = QrFilter { conn_hash: Some(ch()), ..Default::default() };
    let rows = stream_qrs(&store.live, &store.epochs, 0, &f);
    assert_eq!(rows.len(), 3);
    assert_eq!(rows[0].status_name, "matched");

    let f = RecordFilter { start_ts: Some(BASE + 50), end_ts: None };
    let rows = stream_records(&store.live, &store.epochs, 0, &f);
    assert_eq!(rows.len(), 2);
}

#[test]
fn window_pruning_skips_non_overlapping_epochs() {
    let mut store = Store::new();
    seed(&mut store);
    let bounds = vec![store.frozen(0)];
    assert_eq!(bounds[0].min_ts, Some(BASE as i64));
    store.rotate();
    seed(&mut store);

    let open = |start: u64, end: u64| {
        QuerySession::open_with_window(&store.live, &store.epochs, store.current, &bounds, Some(start), Some(end))
    };
    let s = open(BASE + 70, BASE + 90);
    assert_eq!(s.targets().len(), 1);
    assert_eq!(s.targets()[0].num, 1);
    assert!(s.targets()[0].is_current);

    let s = open(BASE, BASE + 10);
    assert_eq!(s.targets().len(), 2);
    assert_eq!(s.targets()[0].num, 0);
    assert_eq!(s.targets()[1].num, 1);

    assert_eq!(store.open().targets().len(), 2);

    let s = open(BASE + 70, BASE + 90);
    let f = RecordFilter { start_ts: Some(BASE + 70), end_ts: None };
    assert!(s.scan_records(&f, &Page::default()).rows.is_empty());
}

#[test]
fn replay_scan_single_pass_ordered_and_filtered() {
    let mut store = Store::new();
    seed(&mut store);
    let none = Vec::new();
    let rows = replay_scan(&store.live, &store.epochs, 0, &none, None, None);
    assert_eq!(rows.len(), 9);
    assert!(rows.windows(2).all(|w| w[0].ts_ns <= w[1].ts_ns));

    let rows = replay_scan(&store.live, &store.epochs, 0, &none, Some(BASE + 50), Some(BASE + 60));
    assert_eq!(rows.len(), 2);
    assert!(rows.iter().all(|r| r.summary.proto == 17));
    assert!(rows.iter().all(|r| r.ts_ns >= BASE + 50 && r.ts_ns <= BASE + 60));

    let f = RecordFilter { start_ts: Some(BASE + 50), end_ts: None };
    assert_eq!(stream_records(&store.live, &store.epochs, 0, &f).len(), 2);
}

#[test]
fn conn_routing_prunes_epochs_by_conn_window() {
    let mut store = Store::new();
    seed(&mut store);
    let bounds = vec![store.frozen(0)];
    store.rotate();
    store.run(&[
        (pkt(CIP, SIP, CPORT, 8443, 6, TCP_SYN, BASE + 1000, 1, 0, b""), 0),
        (pkt(SIP, CIP, 8443, CPORT, 6, TCP_SYN | TCP_ACK, BASE + 1001, 5000, 2, b""), 100),
        (pkt(CIP, SIP, CPORT, 8443, 6, TCP_ACK, BASE + 1002, 2, 5001, b""), 200),
    ]);

    let s = QuerySession::open_for_conn(&store.live, &store.epochs, store.current, &bounds, None, ch());
    assert_eq!(s.targets().len(), 2);
    assert_eq!(s.targets()[0].num, 0);

    let h_y = conn_hash(1, u32::from_be_bytes(CIP), CPORT, u32::from_be_bytes(SIP), 8443, 6);
    let s = QuerySession::open_for_conn(&store.live, &store.epochs, store.current, &bounds, None, h_y);
    assert_eq!(s.targets().len(), 1);
    assert_eq!(s.targets()[0].num, 1);
    assert!(s.targets()[0].is_current);

    let f = QrFilter { conn_hash: Some(h_y), ..Default::default() };
    assert!(s.scan_conn_qr(&f, &Page::default()).unwrap().rows.is_empty());
}

fn exchange(q: &[u8], at: u32) -> (Vec<(WalRecord, u32)>, u64, u64) {
    let q_off = at;
    let r_off = q_off + 64 + q.len() as u32;
    let recs = vec![
        (pkt(CIP, SIP, CPORT, SPORT, 6, TCP_SYN, 1000, 1000, 0, b""), r_off + 67),
        (pkt(SIP, CIP, SPORT, CPORT, 6, TCP_SYN | TCP_ACK, 5000, 5000, 1001, b""), r_off + 67 + 64),
        (c2s(1001, 1001, 5001, q), q_off),
        (s2c(5001, 5001, 1001 + q.len() as u32, b"200"), r_off),
    ];
    (recs, FILE | q_off as u64, FILE | r_off as u64)
}

fn pending_len(live: &LivePlane, conn: u64) -> usize {
    live.pending.range(&PendingKey { conn, inc: 0, end: 0 }, &PendingKey { conn, inc: 0, end: U48_MAX }).len()
}

#[test]
fn e2e_migration_idempotent_after_replay() {
    let mut store = Store::new();
    let (recs, q_idx, _) = exchange(b"GET /a", 0);
    store.run(&recs);
    assert!(store.epochs[0].plane.pairs.contains(&q_idx));
    assert!(!store.live.pairs.contains(&q_idx));
    assert_eq!(pending_len(&store.live, ch()), 0);
    assert_eq!(store.live.pairs.len() + store.epochs[0].plane.pairs.len(), 1);

    store.run(&recs);
    assert_eq!(store.live.pairs.len() + store.epochs[0].plane.pairs.len(), 1);
    assert_eq!(store.open().qr_by_idx(q_idx).unwrap().status, QrStatus::Matched.as_u8());
    assert_eq!(pending_len(&store.live, ch()), 0);
}

#[test]
fn e2e_epoch_rotation_and_cross_epoch_query() {
    let mut store = Store::new();
    let (recs, q1_idx, _) = exchange(b"GET /e0", 0);
    store.run(&recs);
    assert_eq!(store.current, 0);

    store.rotate();
    assert_eq!(store.current, 1);
    let names: Vec<String> = store.epochs.iter().map(|e| epoch_name(e.num)).collect();
    assert_eq!(names, vec!["epoch_0000".to_string(), "epoch_0001".to_string()]);

    let (recs, q2_idx, _) = exchange(b"GET /e1", 4096);
    store.run(&recs);

    let s = store.open();
    let f = QrFilter { conn_hash: Some(ch()), ..Default::default() };
    let r = s.scan_conn_qr(&f, &Page::default()).unwrap();
    let mut idxs: Vec<u64> = r.rows.iter().map(|x| x.q_first_idx).collect();
    idxs.sort_unstable();
    assert_eq!(idxs, vec![q1_idx, q2_idx]);
    assert!(r.rows.iter().all(|x| x.status == QrStatus::Matched.as_u8()));
    assert!(s.qr_by_idx(q1_idx).is_some());
    assert!(s.qr_by_idx(q2_idx).is_some());
    assert_eq!(s.qr_by_packet(q1_idx), Some(q1_idx));
    assert_eq!(s.qr_by_packet(q2_idx), Some(q2_idx));

    assert_eq!(highest_epoch(&names), 1);
    assert_eq!(epoch_numbers(&names), vec![0, 1]);
    assert_eq!(s.qr_by_idx(q1_idx).unwrap().status, QrStatus::Matched.as_u8());
    assert_eq!(s.qr_by_idx(q2_idx).unwrap().status, QrStatus::Matched.as_u8());
}

#[test]
fn e2e_cross_epoch_connection_inflight_continues() {
    let mut store = Store::new();
    let (mut recs, q_idx, r_idx) = exchange(b"GET /slow", 0);
    let response = recs.pop().unwrap();
    store.run(&recs);
    assert!(store.live.pairs.contains(&q_idx));
    assert!(!store.epochs[0].plane.pairs.contains(&q_idx));

    store.rotate();
    store.run(&[response]);
    assert!(!store.live.pairs.contains(&q_idx));
    assert!(store.epochs[1].plane.pairs.contains(&q_idx));
    let p = store.open().qr_by_idx(q_idx).unwrap().clone();
    assert_eq!(p.status, QrStatus::Matched.as_u8());
    assert_eq!(p.r_idx, vec![r_idx]);
}

#[test]
fn pages_cross_epochs_both_ways() {
    let mut store = Store::new();
    let (a, q1, _) = exchange(b"GET /e0", 0);
    store.run(&a);
    store.rotate();
    let (b, q2, _) = exchange(b"GET /e1", 4096);
    store.run(&b);
    let s = store.open();
    let f = QrFilter { conn_hash: Some(ch()), ..Default::default() };
    for (forward, want) in [(true, vec![q1, q2]), (false, vec![q2, q1])] {
        let mut page = Page { limit: 1, forward, ..Default::default() };
        let mut got = Vec::new();
        loop {
            let r = s.scan_conn_qr(&f, &page).unwrap();
            got.extend(r.rows.iter().map(|x| x.q_first_idx));
            if !r.has_more {
                break;
            }
            page.cursor = r.next_cursor;
        }
        assert_eq!(got, want);
    }
}

#[test]
fn cursor_round_trip() {
    let c = encode_cursor(7, &[1, 2, 3]);
    assert_eq!(c, vec![0, 0, 0, 7, 1, 2, 3]);
    assert_eq!(parse_cursor(&Some(c)), (7, Some(vec![1, 2, 3])));
    assert_eq!(parse_cursor(&Some(vec![9])), (0, None));
    assert_eq!(parse_cursor(&None), (0, None));
}

#[test]
fn scan_by_connection_needs_a_connection() {
    let store = Store::new();
    let r = store.open().scan_conn_qr(&QrFilter::default(), &Page::default());
    assert!(matches!(r, Err(QueryError::MissingConnection)));
}

#[test]
fn archive_gives_the_window_of_a_finished_connection() {
    let store = Store::new();
    let archive = ConnArchive { first_ts: Some(5), last_ts: Some(9) };
    assert_eq!(conn_window(&store.live, Some(archive), 1), Some((5, 9)));
    assert_eq!(conn_window(&store.live, None, 1), None);
}

#[test]
fn query_plans() {
    assert_eq!(plan_qr(None, Some(4), Some(5), None, None, None), Ok(QrPlan::ByIdx(4)));
    assert_eq!(plan_qr(None, None, Some(5), None, None, None), Ok(QrPlan::ByPacket(5)));
    assert_eq!(plan_qr(None, Some(4), None, None, None, Some("lost")), Err(PlanError::UnknownStatus));
    assert_eq!(plan_qr(Some("0x"), None, None, None, None, None), Err(PlanError::BadConnection));
    assert_eq!(plan_qr(Some(""), None, None, None, None, None), Err(PlanError::BadConnection));
    let f = QrFilter { conn_hash: Some(0xDEAD_BEEF), ..Default::default() };
    assert_eq!(plan_qr(Some("0xDEADBEEF"), None, None, None, None, None), Ok(QrPlan::Scan(f)));
    assert_eq!(plan_qr(Some("xyz"), None, None, None, None, None), Err(PlanError::BadConnection));
    let f = QrFilter { conn_hash: Some(0xAB), start_ts: Some(1), end_ts: Some(2), status: Some(QrStatus::Timeout) };
    assert_eq!(plan_qr(Some("aB"), None, None, Some(1), Some(2), Some("timeout")), Ok(QrPlan::Scan(f)));
}
