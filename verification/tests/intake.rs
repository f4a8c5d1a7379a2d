use chacha20poly1305::aead::{AeadInPlace, KeyInit};
use chacha20poly1305::{ChaCha20Poly1305, Key, Nonce};
use sov_vault::decrypt::Decryptor;
use sov_vault::ingest::live::{
    Action, ChunkBatch, ChunkEntry, ChunkFrame, GapQuery, LiveIngest, SealFrame, WalStreamDecoder, GAP_MAX_ROUNDS, WAL_RESIDUAL_CAP,
};
use sov_vault::ingest::offline::{has_wal_extension, scan_order, OfflineScanner};
use sov_vault::reassembly::{Budgets, Event, Reassembler};
use sov_vault::wal::WalRecord;
use sov_vault::walscan::{totals, ScanResult, ScanStats, WalFormat, WalScanner};

const FORMAT: WalFormat = WalFormat { magic: 0x5741, version: 1 };

fn key() -> [u8; 32] {
    [0x22; 32]
}

fn enc(data: &[u8]) -> Vec<u8> {
    let cipher = ChaCha20Poly1305::new(Key::from_slice(&key()));
    let mut nonce = [0u8; 12];
    for (i, b) in nonce.iter_mut().enumerate() {
        *b = i as u8;
    }
    let mut ct = data.to_vec();
    cipher.encrypt_in_place(Nonce::from_slice(&nonce), &[], &mut ct).unwrap();
    [nonce.as_slice(), ct.as_slice()].concat()
}

fn record(seq: u32, payload: &[u8]) -> WalRecord {
    WalRecord {
        timestamp_ns: 1_700_000_000_000 + seq as u64,
        flags: 0,
        tcp_flags: 0x10,
        tcp_seq: seq,
        tcp_ack: 0,
        window_size: 65535,
        src_ip: [192, 168, 1, 10],
        dst_ip: [10, 0, 0, 1],
        src_port: 12345,
        dst_port: 8080,
        proto: 6,
        orig_payload_len: payload.len() as u32,
        payload: payload.to_vec(),
    }
}

fn encode(r: &WalRecord, buf: &mut Vec<u8>) {
    let mut h = [0u8; 64];
    h[0..2].copy_from_slice(&FORMAT.magic.to_be_bytes());
    h[2] = FORMAT.version;
    h[8..16].copy_from_slice(&r.timestamp_ns.to_be_bytes());
    h[16..20].copy_from_slice(&r.tcp_seq.to_be_bytes());
    h[20..22].copy_from_slice(&r.src_port.to_be_bytes());
    h[22..24].copy_from_slice(&r.dst_port.to_be_bytes());
    h[56..60].copy_from_slice(&(r.payload.len() as u32).to_be_bytes());
    buf.extend_from_slice(&h);
    buf.extend_from_slice(&r.payload);
}

fn decode_stream(buf: &[u8]) -> (Vec<WalRecord>, usize) {
    let mut out = Vec::new();
    let mut at = 0;
    while buf.len() - at >= 64 && buf[at] == 0x57 && buf[at + 1] == 0x41 && buf[at + 2] == 1 {
        let h = &buf[at..at + 64];
        let len = u32::from_be_bytes([h[56], h[57], h[58], h[59]]) as usize;
        if buf.len() - at < 64 + len {
            break;
        }
        let mut r = record(u32::from_be_bytes([h[16], h[17], h[18], h[19]]), &buf[at + 64..at + 64 + len]);
        let mut ts = [0u8; 8];
        ts.copy_from_slice(&h[8..16]);
        r.timestamp_ns = u64::from_be_bytes(ts);
        r.src_port = u16::from_be_bytes([h[20], h[21]]);
        r.dst_port = u16::from_be_bytes([h[22], h[23]]);
        out.push(r);
        at += 64 + len;
    }
    (out, buf.len() - at)
}

fn wal_segment(n: u32) -> (Vec<u8>, Vec<WalRecord>) {
    let recs: Vec<WalRecord> = (0..n).map(|i| record(i, &format!("r{}!", i).into_bytes())).collect();
    let mut buf = Vec::new();
    for r in &recs {
        encode(r, &mut buf);
    }
    (buf, recs)
}

fn feed(d: &mut WalStreamDecoder, data: &[u8]) -> Vec<WalRecord> {
    d.feed(data);
    let (recs, residual) = decode_stream(d.bytes());
    d.keep(residual);
    recs
}

fn wide() -> Budgets {
    Budgets {
        l2_segment_cap: 8 * 1024 * 1024,
        l25_conn_cap: 16 * 1024 * 1024,
        l3_global_cap: 256 * 1024 * 1024,
        evict_window_secs: 30,
        evict_threshold: 3,
    }
}

fn live() -> LiveIngest {
    LiveIngest::new(Decryptor::new(key()), Reassembler::new(wide()), 3)
}

fn entry(at: u64, data: &[u8]) -> ChunkEntry {
    ChunkEntry { start_offset: at, chunk_len: data.len() as u32, payload: enc(data) }
}

#[test]
fn batch_reassembly_stream_decode() {
    let (seg, src) = wal_segment(50);
    let n = 4;
    let bounds: Vec<usize> = (0..=n).map(|i| seg.len() * i / n).collect();
    let mut r = Reassembler::new(wide());
    let mut dec = WalStreamDecoder::new();
    let mut out = Vec::new();
    for i in [2usize, 0, 3, 1] {
        let bytes = &seg[bounds[i]..bounds[i + 1]];
        let e = entry(bounds[i] as u64, bytes);
        let plain = Decryptor::new(key()).decrypt_chunk_payload(&e.payload, e.chunk_len).unwrap();
        for ev in r.place_chunk(1, 3, e.start_offset, &plain) {
            if let Event::Append { data, .. } = ev {
                out.extend(feed(&mut dec, &data));
            }
        }
    }
    assert_eq!(out.len(), 50);
    for (a, b) in out.iter().zip(src.iter()) {
        assert_eq!(a.timestamp_ns, b.timestamp_ns);
        assert_eq!(a.payload, b.payload);
        assert_eq!(a.src_port, b.src_port);
        assert_eq!(a.dst_port, b.dst_port);
    }
    assert_eq!(r.global_pending(), 0);
}

#[test]
fn stream_decoder_spans_feeds() {
    let (seg, _) = wal_segment(3);
    let mut dec = WalStreamDecoder::new();
    let mut out = Vec::new();
    for i in (0..seg.len()).step_by(3) {
        out.extend(feed(&mut dec, &seg[i..(i + 3).min(seg.len())]));
    }
    assert_eq!(out.len(), 3);
    assert_eq!(dec.residual_len(), 0);
}

#[test]
fn overlong_residue_is_dropped() {
    let mut dec = WalStreamDecoder::new();
    dec.feed(&vec![0u8; WAL_RESIDUAL_CAP]);
    assert_eq!(dec.residual_len(), WAL_RESIDUAL_CAP);
    dec.feed(&[7u8]);
    assert!(dec.residual_len() <= 1);
}

#[test]
fn live_batches_become_records() {
    let (seg, src) = wal_segment(20);
    let cut = seg.len() / 2;
    let mut l = live();
    let mut got = Vec::new();
    for (at, part) in [(cut, &seg[cut..]), (0, &seg[..cut])] {
        let batch = ChunkBatch { dev_id: 1, segment_seq: 3, entries: vec![entry(at as u64, part)] };
        assert!(l.admits(&batch.entries));
        for e in l.on_batch(Some(&batch)) {
            if let Action::Decode { dev_id, segment_seq } = l.on_event(e, 0) {
                let (recs, residual) = decode_stream(l.waiting(dev_id, segment_seq).unwrap());
                l.decoded(dev_id, segment_seq, recs.len() as u64, residual);
                got.extend(recs);
            }
        }
    }
    assert_eq!(got.len(), src.len());
    assert_eq!(l.total_records(), 20);
    assert_eq!((l.stats().batches, l.stats().chunks), (2, 2));
    let events = l.on_seal(Some(SealFrame { dev_id: 1, segment_seq: 3, sealed_size: seg.len() as u64 }));
    let actions: Vec<Action> = events.into_iter().map(|e| l.on_event(e, 0)).collect();
    assert!(matches!(actions[..], [Action::Close { dev_id: 1 }]));
    assert_eq!(l.refills_in_flight(), 0);
}

#[test]
fn bad_frames_are_counted() {
    let mut l = live();
    assert!(l.on_batch(None).is_empty());
    assert!(l.on_chunk(None).is_empty());
    assert!(l.on_seal(None).is_empty());
    assert_eq!(l.stats().unframed_dropped, 3);
    let broken = ChunkBatch { dev_id: 1, segment_seq: 0, entries: vec![ChunkEntry { start_offset: 0, chunk_len: 3, payload: vec![0; 31] }] };
    assert!(l.on_batch(Some(&broken)).is_empty());
    assert_eq!(l.stats().decrypt_failed, 1);
    let hollow = ChunkFrame { dev_id: 1, segment_seq: 0, ref_only: true, entry: entry(0, b"x") };
    assert!(l.on_chunk(Some(&hollow)).is_empty());
    let full = ChunkFrame { dev_id: 1, segment_seq: 0, ref_only: false, entry: entry(0, b"x") };
    assert_eq!(l.on_chunk(Some(&full)).len(), 1);
}

#[test]
fn gap_is_asked_for_then_given_up() {
    let mut l = live();
    l.on_batch(Some(&ChunkBatch { dev_id: 1, segment_seq: 0, entries: vec![entry(0, &[1u8; 100])] }));
    for e in l.on_seal(Some(SealFrame { dev_id: 1, segment_seq: 0, sealed_size: 200 })) {
        l.on_event(e, 0);
    }
    assert_eq!(l.refills_in_flight(), 1);
    let mut asked = 0;
    let mut rounds = 0;
    while l.refills_in_flight() > 0 {
        let t = l.on_tick();
        for q in &t.queries {
            assert_eq!(*q, GapQuery { dev_id: 1, segment_seq: 0, start_offset: 100 });
        }
        asked += t.queries.len() as u32;
        rounds += 1;
        assert!(rounds <= GAP_MAX_ROUNDS + 1);
    }
    assert!(asked > 0 && asked <= GAP_MAX_ROUNDS);
}

#[test]
fn filled_gap_settles() {
    let mut l = live();
    l.on_batch(Some(&ChunkBatch { dev_id: 1, segment_seq: 0, entries: vec![entry(0, &[1u8; 100])] }));
    for e in l.on_seal(Some(SealFrame { dev_id: 1, segment_seq: 0, sealed_size: 200 })) {
        l.on_event(e, 0);
    }
    l.on_batch(Some(&ChunkBatch { dev_id: 1, segment_seq: 0, entries: vec![entry(100, &[2u8; 100])] }));
    let t = l.on_tick();
    assert!(t.queries.is_empty());
    assert_eq!(t.events, vec![Event::Sealed { dev_id: 1, segment_seq: 0, size: 200 }]);
    assert_eq!(l.refills_in_flight(), 0);
}

#[test]
fn timeout_scan_is_due_every_period() {
    let mut l = live();
    let due: Vec<bool> = (0..6).map(|_| l.on_tick().ttl_scan).collect();
    assert_eq!(due.iter().filter(|d| **d).count(), 2);
}

fn scan(chunks: &[&[u8]]) -> ScanResult {
    let mut s = WalScanner::new(FORMAT);
    for c in chunks {
        if !s.read(c) {
            break;
        }
        let (recs, residual) = decode_stream(s.pending());
        s.decoded(recs, residual);
    }
    s.finish()
}

fn stream(payloads: &[&[u8]]) -> Vec<u8> {
    let mut buf = Vec::new();
    for (i, p) in payloads.iter().enumerate() {
        encode(&record(i as u32 + 1, p), &mut buf);
    }
    buf
}

#[test]
fn scan_clean_stream() {
    let bytes = stream(&[b"GET /a", b"GET /bb", b"POST /ccc"]);
    let r = scan(&[&bytes]);
    assert_eq!(r.stats.records, 3);
    assert_eq!(r.stats.total_bytes, bytes.len() as u64);
    assert_eq!(r.stats.payload_bytes, 22);
    assert_eq!(r.stats.dirty_tail_bytes, 0);
    assert!(!r.stats.stopped_early);
    assert_eq!(r.records[1].payload, b"GET /bb");
}

#[test]
fn dirty_tail_truncated() {
    let bytes = stream(&[b"GET /a"]);
    let r = scan(&[&bytes[..bytes.len() - 20]]);
    assert_eq!(r.stats.records, 0);
    assert_eq!(r.stats.dirty_tail_bytes, (bytes.len() - 20) as u64);
}

#[test]
fn mid_stream_corruption_stops() {
    let mut corrupted = stream(&[b"GET /a", b"GET /bb"]);
    let off2 = 64 + 6;
    corrupted[off2] ^= 0xFF;
    let r = scan(&[&corrupted]);
    assert_eq!(r.stats.records, 1);
    assert!(r.stats.stopped_early);
    assert!(r.stats.dirty_tail_bytes > 0);
}

#[test]
fn split_record_across_reads() {
    let bytes = stream(&[b"GET /a", b"GET /bb"]);
    let single: Vec<&[u8]> = bytes.chunks(1).collect();
    let r = scan(&single);
    assert_eq!(r.stats.records, 2);
    assert_eq!(r.stats.dirty_tail_bytes, 0);
}

#[test]
fn damage_at_the_start_ends_the_scan() {
    let mut bytes = stream(&[b"GET /a"]);
    bytes[2] = 9;
    let r = scan(&[&bytes, &bytes]);
    assert_eq!(r.stats.total_bytes, bytes.len() as u64);
    assert!(r.stats.stopped_early);
    assert_eq!(r.stats.dirty_tail_bytes, bytes.len() as u64);
    assert!(r.records.is_empty());
}

#[test]
fn scan_dir_deterministic() {
    let files = [("seg_0002.wal", 2u32), ("seg_0001.wal", 1u32)];
    let names = vec!["seg_0002.wal".to_string(), "notes.txt".to_string(), "seg_0001.wal".to_string()];
    let s = OfflineScanner::new("/data");
    assert_eq!(s.dir(), "/data");
    let order = scan_order(names);
    let scans: Vec<ScanResult> = order
        .iter()
        .map(|n| {
            let count = files.iter().find(|f| f.0 == n).unwrap().1;
            let bodies: Vec<Vec<u8>> = (0..count).map(|i| format!("GET /{}", i).into_bytes()).collect();
            let bodies: Vec<&[u8]> = bodies.iter().map(|b| b.as_slice()).collect();
            scan(&[&stream(&bodies)])
        })
        .collect();
    assert_eq!(scans.len(), 2);
    assert!(order[0].contains("0001"));
    assert_eq!(scans[0].records.len(), 1);
    assert_eq!(scans[1].records.len(), 2);
    assert_eq!(scans[1].records[1].payload, b"GET /1");
    assert_eq!(scans[0].stats.dirty_tail_bytes, 0);
}

#[test]
fn only_segments_are_scanned() {
    assert!(has_wal_extension("a.wal"));
    assert!(!has_wal_extension("a.wal.bak"));
    assert!(!has_wal_extension(".wal"));
    assert!(!has_wal_extension("wal"));
}

#[test]
fn scans_add_up() {
    let clean = scan(&[&stream(&[b"GET /a", b"GET /bb"])]).stats;
    let cut = ScanStats { records: 1, payload_bytes: 4, total_bytes: 80, dirty_tail_bytes: 12, stopped_early: false };
    assert_eq!(totals(&vec![clean, cut]), (3, 17, 12));
    assert_eq!(totals(&vec![]), (0, 0, 0));
    let huge = ScanStats { records: u64::MAX, ..cut };
    assert_eq!(totals(&vec![cut, huge]), (u64::MAX, 8, 24));
}

#[test]
fn skipped_segment_asks_to_mark_the_device() {
    let mut l = live();
    assert!(l.on_seal(Some(SealFrame { dev_id: 4, segment_seq: 0, sealed_size: 9 })).is_empty());
    let events = l.on_seal(Some(SealFrame { dev_id: 4, segment_seq: 2, sealed_size: 9 }));
    let actions: Vec<Action> = events.into_iter().map(|e| l.on_event(e, 55)).collect();
    match &actions[..] {
        [Action::MarkIncomplete { dev_id: 4, row }] => {
            assert_eq!((row.ts, row.dev_id, row.segment_seq), (55, Some(4), Some(1)));
        }
        _ => panic!("unexpected actions"),
    }
    assert_eq!(l.stats().seq_skips, 1);
}

#[test]
fn quarantine_asks_to_isolate_the_device() {
    let mut l = live();
    match l.on_event(Event::Quarantine { dev_id: 6 }, 55) {
        Action::Isolate { dev_id: 6, row } => {
            assert_eq!(row.detail.as_deref(), Some("connection quarantined (OOO flood)"));
        }
        _ => panic!("unexpected action"),
    }
    assert_eq!(l.stats().quarantines, 1);
}
