use sov_vault::batch::{stage_lmdb, stage_sqlite, BatchPipeline, HotFileWriter, Opening};
use sov_vault::ledger::{advance_watermark, anomaly_summary, query_anomalies, FileKind, FileState, OpenFileRec, WatermarkBack};
use sov_vault::plane::Planes;
use sov_vault::qr::QrParams;
use sov_vault::table::{Key2, Table};
use sov_vault::wal::{IndexedRecord, WalRecord};

fn rec(ts: u64, payload: &[u8]) -> WalRecord {
    WalRecord {
        timestamp_ns: ts,
        flags: 0,
        tcp_flags: 0x10,
        tcp_seq: ts as u32,
        tcp_ack: 0,
        window_size: 65535,
        src_ip: [192, 168, 1, 10],
        dst_ip: [10, 0, 0, 1],
        src_port: 12345,
        dst_port: 443,
        proto: 6,
        orig_payload_len: payload.len() as u32,
        payload: payload.to_vec(),
    }
}

struct Store {
    planes: Planes,
    watermarks: Vec<(u32, u64)>,
    commits: usize,
}

impl Store {
    fn new() -> Store {
        Store { planes: Planes::new(), watermarks: Vec::new(), commits: 0 }
    }

    fn stage(&mut self, batch: &Vec<IndexedRecord>) {
        let taken = std::mem::replace(&mut self.planes, Planes::new());
        self.planes = stage_lmdb(taken, batch, &QrParams::default()).planes;
    }

    fn commit(&mut self, batch: &Vec<IndexedRecord>) {
        self.stage(batch);
        for (file, end) in stage_sqlite(batch) {
            let now = advance_watermark(self.watermark(file), end).unwrap();
            self.watermarks.retain(|w| w.0 != file);
            self.watermarks.push((file, now));
        }
        self.commits += 1;
    }

    fn watermark(&self, file: u32) -> u64 {
        self.watermarks.iter().find(|w| w.0 == file).map(|w| w.1).unwrap_or(0)
    }

    fn push(&mut self, pipe: &mut BatchPipeline, rec: WalRecord) {
        let len = 64 + rec.payload.len() as u64;
        if pipe.barrier(len) {
            self.commit(pipe.flush());
            pipe.committed();
        }
        if pipe.hot().needs_rotation(len) {
            let next = pipe.hot_file_id() + 1;
            pipe.rotate(next);
        }
        if pipe.push_record(rec) {
            self.commit(pipe.flush());
            pipe.committed();
        }
    }
}

#[test]
fn hot_writer_boundary_rotates() {
    let mut w = HotFileWriter::open(1, 0, 200, 1);
    for _ in 0..3 {
        let len = 64 + 16;
        if w.needs_rotation(len) {
            let next = w.file_id() + 1;
            w.rotate(next);
        }
        w.append(len);
    }
    assert_eq!(w.file_id(), 2);
    assert_eq!(w.offset(), 80);
}

#[test]
fn pipeline_commit_and_watermark() {
    let mut store = Store::new();
    let mut pipe = BatchPipeline::new(HotFileWriter::open(1, 0, 64 * 1024, 1), 3);
    let fid = pipe.hot_file_id();
    for i in 0..7u64 {
        store.push(&mut pipe, rec(i, &[i as u8; 10]));
    }
    assert_eq!(store.commits, 2);
    assert_eq!(pipe.pending_len(), 1);
    store.commit(pipe.flush());
    pipe.committed();
    assert_eq!(store.planes.epoch.record_ts.len(), 7);
    assert_eq!(store.watermark(fid), 7 * (64 + 10));
}

#[test]
fn injected_commit_failure_keeps_watermark() {
    let mut store = Store::new();
    let batch = vec![IndexedRecord { dev_id: 1, file_id: 1, offset: 0, rec: rec(1, b"GET /a") }];
    store.stage(&batch);
    assert_eq!(store.planes.epoch.record_ts.len(), 1);
    assert_eq!(store.watermark(1), 0);
    store.commit(&batch);
    assert_eq!(store.planes.epoch.record_ts.len(), 1);
    assert_eq!(store.watermark(1), 64 + 6);
}

#[test]
fn crash_window_replay_converges() {
    let mut store = Store::new();
    let recs: Vec<WalRecord> = (0..5u64).map(|i| rec(i, &[i as u8; 10])).collect();
    let mut w = HotFileWriter::open(1, 0, 64 * 1024, 1);
    let write = |w: &mut HotFileWriter| -> Vec<IndexedRecord> {
        recs.iter()
            .map(|r| {
                let (file_id, offset) = w.append(64 + r.payload.len() as u64);
                IndexedRecord { dev_id: 1, file_id, offset, rec: r.clone() }
            })
            .collect()
    };
    let batch = write(&mut w);
    store.stage(&batch);
    assert_eq!(store.watermark(1), 0);
    assert_eq!(store.planes.epoch.record_ts.len(), 5);

    let found = OpenFileRec { file_id: 1, path: "/hot/segment_0000.wal".into(), watermark: 0, segment_seq: Some(0) };
    let mut w = match HotFileWriter::open_or_recover(Some(&found), 1, 0, 64 * 1024) {
        Opening::Reuse(w) => w,
        Opening::Create => panic!("the open file is taken up again"),
    };
    assert_eq!(w.offset(), 0);
    assert_eq!(w.file_id(), 1);
    let batch = write(&mut w);
    store.commit(&batch);
    assert_eq!(store.planes.epoch.record_ts.len(), 5);
    assert_eq!(store.watermark(1), 5 * (64 + 10));
    assert_eq!(w.offset(), 5 * (64 + 10));
}

#[test]
fn file_boundary_forces_commit() {
    let mut store = Store::new();
    let mut pipe = BatchPipeline::new(HotFileWriter::open(1, 0, 80, 1), 100);
    let fid1 = pipe.hot_file_id();
    store.push(&mut pipe, rec(1, &[1u8; 10]));
    store.push(&mut pipe, rec(2, &[2u8; 10]));
    let fid2 = pipe.hot_file_id();
    assert_ne!(fid1, fid2);
    store.push(&mut pipe, rec(3, &[3u8; 10]));
    store.push(&mut pipe, rec(4, &[4u8; 10]));
    let fid3 = pipe.hot_file_id();
    assert_ne!(fid2, fid3);
    store.commit(pipe.flush());
    pipe.committed();

    assert_eq!(store.watermark(fid1), 74);
    assert_eq!(store.watermark(fid2), 74);
    assert_eq!(store.watermark(fid3), 74);
    assert_eq!(store.planes.epoch.record_ts.len(), 4);
}

#[test]
fn file_lifecycle_and_watermark() {
    assert_eq!(advance_watermark(0, 100), Ok(100));
    assert_eq!(advance_watermark(100, 100), Ok(100));
    assert_eq!(advance_watermark(100, 50), Err(WatermarkBack { current: 100, asked: 50 }));
    assert_eq!((FileKind::Wal.as_i64(), FileKind::Pcap.as_i64()), (0, 1));
    assert_eq!((FileState::Open.as_i64(), FileState::Sealed.as_i64(), FileState::Archived.as_i64()), (0, 1, 2));
}

#[test]
fn put_no_overwrite_idempotent() {
    let mut t: Table<Key2, u64> = Table::new();
    assert!(t.put_new(Key2 { a: 1, b: 2 }, 7));
    assert!(!t.put_new(Key2 { a: 1, b: 2 }, 8));
    assert_eq!(t.len(), 1);
    assert_eq!(t.get(&Key2 { a: 1, b: 2 }), Some(&7));
}

#[test]
fn missing_open_file_asks_for_a_new_one() {
    assert!(matches!(HotFileWriter::open_or_recover(None, 1, 0, 100), Opening::Create));
    let w = HotFileWriter::open(1, 7, 100, 3);
    assert_eq!(w.segment_file(), "segment_0007.wal");
    assert_eq!(HotFileWriter::open(1, 12345, 100, 3).segment_file(), "segment_12345.wal");
}

#[test]
fn watermarks_take_the_farthest_end() {
    let at = |file_id: u32, offset: u32| IndexedRecord { dev_id: 1, file_id, offset, rec: rec(1, b"abcd") };
    let mut w = stage_sqlite(&vec![at(1, 100), at(2, 0), at(1, 20)]);
    w.sort();
    assert_eq!(w, vec![(1, 168), (2, 68)]);
}

#[test]
fn audit_queries() {
    let q = anomaly_summary(None, None);
    assert_eq!(q.sql, "SELECT kind, COUNT(*) c FROM anomalies GROUP BY kind ORDER BY kind");
    assert!(q.params.is_empty());
    let q = query_anomalies(Some(12), None, Some(9), 10);
    assert_eq!(
        q.sql,
        "SELECT ts, kind, dev_id, segment_seq, conn_hash, qr_id, detail FROM anomalies WHERE kind = ? AND ts <= ? ORDER BY id DESC LIMIT ?"
    );
    assert_eq!(q.params, vec![12, 9, 10]);
}

#[test]
fn failed_commit_keeps_the_batch() {
    let mut pipe = BatchPipeline::new(HotFileWriter::open(1, 0, 64 * 1024, 1), 100);
    for i in 0..3u64 {
        pipe.push_record(rec(i, b"abc"));
    }
    let ends: Vec<u32> = pipe.flush().iter().map(|r| r.offset).collect();
    assert_eq!(pipe.pending_len(), 3);
    assert_eq!(pipe.flush().iter().map(|r| r.offset).collect::<Vec<u32>>(), ends);
    pipe.committed();
    assert_eq!(pipe.pending_len(), 0);
    assert!(pipe.flush().is_empty());
    assert_eq!(pipe.hot().offset(), 3 * 67);
}
