use chacha20poly1305::aead::{Aead, KeyInit};
use chacha20poly1305::{ChaCha20Poly1305, Key, Nonce};
use sov_vault::decrypt::{Decryptor, NONCE_LEN};
use sov_vault::reassembly::{Budgets, Event, Reassembler};

fn budgets() -> Budgets {
    Budgets { l2_segment_cap: 1024, l25_conn_cap: 256, l3_global_cap: 1024, evict_window_secs: 30, evict_threshold: 3 }
}

fn wide() -> Budgets {
    Budgets {
        l2_segment_cap: 8 * 1024 * 1024,
        l25_conn_cap: 16 * 1024 * 1024,
        l3_global_cap: 256 * 1024 * 1024,
        evict_window_secs: 30,
        evict_threshold: 3,
    }
}

fn appends(events: &[Event]) -> Vec<(u64, usize)> {
    events
        .iter()
        .filter_map(|e| match e {
            Event::Append { offset, data, .. } => Some((*offset, data.len())),
            _ => None,
        })
        .collect()
}

#[test]
fn in_order_contiguous_flow() {
    let mut r = Reassembler::new(budgets());
    let e = r.place_chunk(1, 0, 0, &[1u8; 10]);
    assert_eq!(appends(&e), vec![(0, 10)]);
    let e = r.place_chunk(1, 0, 10, &[2u8; 20]);
    assert_eq!(appends(&e), vec![(10, 20)]);
    assert_eq!(r.global_pending(), 0);
}

#[test]
fn out_of_order_then_fill() {
    let mut r = Reassembler::new(budgets());
    let e = r.place_chunk(1, 0, 20, &[9u8; 10]);
    assert!(appends(&e).is_empty());
    assert_eq!(r.global_pending(), 10);
    let e = r.place_chunk(1, 0, 0, &[1u8; 20]);
    assert_eq!(appends(&e), vec![(0, 20), (20, 10)]);
    assert_eq!(r.global_pending(), 0);
}

#[test]
fn idempotent_dup_and_partial_overlap() {
    let mut r = Reassembler::new(budgets());
    r.place_chunk(1, 0, 0, &[1u8; 100]);
    let e = r.place_chunk(1, 0, 0, &[2u8; 100]);
    assert_eq!(e, vec![Event::Dup { dev_id: 1, segment_seq: 0 }]);
    let e = r.place_chunk(1, 0, 80, &[3u8; 70]);
    assert_eq!(appends(&e), vec![(100, 50)]);
}

#[test]
fn seal_verify_gap() {
    let mut r = Reassembler::new(budgets());
    r.place_chunk(1, 0, 0, &[1u8; 100]);
    let e = r.seal(1, 0, 100);
    assert_eq!(e, vec![Event::Sealed { dev_id: 1, segment_seq: 0, size: 100 }]);
    r.place_chunk(1, 1, 0, &[1u8; 100]);
    let e = r.seal(1, 1, 200);
    assert_eq!(e, vec![Event::SealGap { dev_id: 1, segment_seq: 1, next_expected: 100, sealed_size: 200 }]);
}

#[test]
fn end_to_end_encrypted_chunk_reassembly() {
    let plain = (0..4u8).flat_map(|i| [i; 256]).collect::<Vec<u8>>();
    let key = [9u8; 32];
    let decryptor = Decryptor::new(key);
    let cipher = ChaCha20Poly1305::new(Key::from_slice(&key));
    let chunks = [(0u64, &plain[0..512]), (512u64, &plain[512..1024])];
    let mut r = Reassembler::new(budgets());
    for (offset, data) in chunks.into_iter().rev() {
        let mut payload = vec![0u8; NONCE_LEN];
        let ct = cipher.encrypt(Nonce::from_slice(&payload), data).unwrap();
        payload.extend_from_slice(&ct);
        let text = decryptor.decrypt_chunk_payload(&payload, data.len() as u32).unwrap();
        r.place_chunk(1, 7, offset, &text);
    }
    assert_eq!(r.next_expected(1, 7), 1024);
    assert_eq!(r.global_pending(), 0);
    let e = r.seal(1, 7, 1024);
    assert_eq!(e, vec![Event::Sealed { dev_id: 1, segment_seq: 7, size: 1024 }]);
}

#[test]
fn l2_segment_cap_triggers_error() {
    let mut r = Reassembler::new(budgets());
    r.place_chunk(1, 0, 0, &[1u8; 1000]);
    let e = r.place_chunk(1, 0, 2000, &[2u8; 1100]);
    assert!(e.iter().any(|x| matches!(x, Event::SegmentError { .. })));
    assert!(e.iter().any(|x| matches!(x, Event::Gap { .. })));
    assert_eq!(r.global_pending(), 0);
}

#[test]
fn l25_evict_then_quarantine() {
    let mut r = Reassembler::new(budgets());
    r.set_now(100);
    let mut off = 1000u64;
    let mut guard = 0;
    loop {
        let e = r.place_chunk(1, 0, off, &[200u8; 200]);
        if e.iter().any(|x| matches!(x, Event::Quarantine { dev_id: 1 })) {
            break;
        }
        off += 200;
        guard += 1;
        assert!(guard < 8);
    }
    assert!(r.is_quarantined(1));
    let e = r.place_chunk(1, 0, off, &[5u8; 5]);
    assert_eq!(e, vec![Event::QuarantinedDrop { dev_id: 1, bytes: 5 }]);
}

#[test]
fn segment_seq_skip_detected() {
    let mut r = Reassembler::new(budgets());
    r.place_chunk(1, 1, 0, &[1u8; 10]);
    let e = r.seal(1, 1, 10);
    assert_eq!(e, vec![Event::Sealed { dev_id: 1, segment_seq: 1, size: 10 }]);
    r.place_chunk(1, 3, 0, &[2u8; 10]);
    let e = r.seal(1, 3, 10);
    assert_eq!(
        e,
        vec![
            Event::SeqSkipped { dev_id: 1, segment_seq: 2 },
            Event::Sealed { dev_id: 1, segment_seq: 3, size: 10 },
        ]
    );
}

#[test]
fn l3_global_evict_oldest() {
    let b = Budgets { l2_segment_cap: 1024, l25_conn_cap: 4096, l3_global_cap: 600, evict_window_secs: 30, evict_threshold: 3 };
    let mut r = Reassembler::new(b);
    r.place_chunk(1, 0, 100, &[1u8; 300]);
    r.place_chunk(2, 0, 200, &[2u8; 300]);
    assert_eq!(r.global_pending(), 600);
    let e = r.place_chunk(3, 0, 300, &[3u8; 300]);
    assert!(e.iter().any(|x| matches!(x, Event::Evict { dev_id: 1, .. })));
    assert_eq!(r.global_pending(), 600);
    assert_eq!(r.conn_pending(1), 0);
    assert_eq!(r.conn_pending(3), 300);
}

#[test]
fn seal_gap_enters_refill() {
    let mut r = Reassembler::new(wide());
    r.place_chunk(1, 0, 0, &[1u8; 100]);
    let e = r.seal(1, 0, 200);
    assert!(e.iter().any(|x| matches!(x, Event::SealGap { .. })));
    let e = r.seal(1, 0, 100);
    assert!(e.iter().any(|x| matches!(x, Event::Sealed { .. })));
}

#[test]
fn content_comes_out_once_in_order_whatever_the_arrival() {
    let content: Vec<u8> = (0..100u32).map(|i| (i * 7) as u8).collect();
    let pieces = [(60usize, 80usize), (0, 30), (20, 65), (80, 100), (0, 100), (10, 20)];
    let mut r = Reassembler::new(wide());
    let mut out: Vec<u8> = Vec::new();
    for (lo, hi) in pieces {
        for e in r.place_chunk(4, 2, lo as u64, &content[lo..hi]) {
            if let Event::Append { dev_id, segment_seq, offset, data } = e {
                assert_eq!((dev_id, segment_seq), (4, 2));
                assert_eq!(offset as usize, out.len());
                out.extend_from_slice(&data);
            }
        }
    }
    assert_eq!(out, content);
    assert_eq!(r.next_expected(4, 2), 100);
    assert_eq!(r.seal(4, 2, 100), vec![Event::Sealed { dev_id: 4, segment_seq: 2, size: 100 }]);
    assert_eq!(r.global_pending(), 0);
}

#[test]
fn segment_limit_defaults_to_eight_megabytes() {
    assert_eq!(Budgets::from_config(0, 1, 2, 3, 4).l2_segment_cap, 8 * 1024 * 1024);
    assert_eq!(Budgets::from_config(17, 1, 2, 3, 4).l2_segment_cap, 17);
}

#[test]
fn evictions_far_apart_do_not_add_up() {
    let mut r = Reassembler::new(budgets());
    for i in 0..6u64 {
        r.set_now(i * 31);
        r.place_chunk(1, 0, 1000 + 200 * i, &[1u8; 200]);
    }
    assert!(!r.is_quarantined(1));
    assert_eq!(r.conn_pending(1), 200);
}

#[test]
fn unknown_segment_seals_without_a_word() {
    let mut r = Reassembler::new(budgets());
    assert_eq!(r.seal(9, 4, 10), vec![]);
    let e = r.seal(9, 6, 10);
    assert_eq!(e, vec![Event::SeqSkipped { dev_id: 9, segment_seq: 5 }]);
}

#[test]
fn staged_chunk_behind_the_cursor_passes_on_its_rest() {
    let mut r = Reassembler::new(budgets());
    r.place_chunk(1, 0, 20, &[9u8; 10]);
    let e = r.place_chunk(1, 0, 0, &[1u8; 25]);
    assert_eq!(
        e,
        vec![
            Event::Append { dev_id: 1, segment_seq: 0, offset: 0, data: vec![1u8; 25] },
            Event::Append { dev_id: 1, segment_seq: 0, offset: 25, data: vec![9u8; 5] },
        ]
    );
    assert_eq!((r.global_pending(), r.conn_pending(1), r.next_expected(1, 0)), (0, 0, 30));
}

#[test]
fn staged_chunk_wholly_behind_the_cursor_is_dropped() {
    let mut r = Reassembler::new(budgets());
    r.place_chunk(1, 0, 20, &[9u8; 10]);
    let e = r.place_chunk(1, 0, 0, &[1u8; 40]);
    assert_eq!(appends(&e), vec![(0, 40)]);
    assert_eq!((r.global_pending(), r.conn_pending(1)), (0, 0));
}

#[test]
fn staged_chunk_delivered_again_changes_nothing() {
    let mut r = Reassembler::new(budgets());
    r.place_chunk(1, 0, 20, &[9u8; 10]);
    assert!(r.place_chunk(1, 0, 20, &[9u8; 10]).is_empty());
    assert_eq!((r.global_pending(), r.conn_pending(1)), (10, 10));
    let e = r.place_chunk(1, 0, 0, &[1u8; 20]);
    assert_eq!(appends(&e), vec![(0, 20), (20, 10)]);
    assert_eq!(r.global_pending(), 0);
}

#[test]
fn redelivery_at_the_limit_evicts_nothing() {
    let mut r = Reassembler::new(budgets());
    r.place_chunk(1, 0, 1000, &[7u8; 256]);
    assert!(r.place_chunk(1, 0, 1000, &[7u8; 256]).is_empty());
    assert_eq!(r.conn_pending(1), 256);
}

#[test]
fn replaced_chunk_is_charged_by_its_new_length() {
    let mut r = Reassembler::new(budgets());
    r.place_chunk(1, 0, 20, &[9u8; 10]);
    r.place_chunk(1, 0, 20, &[8u8; 30]);
    assert_eq!(r.global_pending(), 30);
    let e = r.place_chunk(1, 0, 0, &[1u8; 20]);
    assert_eq!(appends(&e), vec![(0, 20), (20, 30)]);
}

#[test]
fn quarantine_stages_nothing_more() {
    let mut r = Reassembler::new(Budgets::from_config(1024, 256, 1024, 30, 3));
    r.set_now(100);
    r.place_chunk(1, 0, 1000, &[0u8; 200]);
    r.place_chunk(1, 0, 1200, &[0u8; 200]);
    r.place_chunk(1, 0, 1400, &[0u8; 200]);
    let e = r.place_chunk(1, 0, 1600, &[0u8; 200]);
    assert!(e.contains(&Event::Quarantine { dev_id: 1 }));
    assert_eq!(e.last(), Some(&Event::QuarantinedDrop { dev_id: 1, bytes: 200 }));
    assert_eq!((r.conn_pending(1), r.global_pending()), (0, 0));
    assert!(r.is_quarantined(1));
}

#[test]
fn skip_after_segment_zero_is_reported() {
    let mut r = Reassembler::new(budgets());
    r.place_chunk(1, 0, 0, &[1u8; 10]);
    assert_eq!(r.seal(1, 0, 10), vec![Event::Sealed { dev_id: 1, segment_seq: 0, size: 10 }]);
    r.place_chunk(1, 2, 0, &[1u8; 10]);
    assert_eq!(
        r.seal(1, 2, 10),
        vec![Event::SeqSkipped { dev_id: 1, segment_seq: 1 }, Event::Sealed { dev_id: 1, segment_seq: 2, size: 10 }]
    );
}

#[test]
fn first_seal_skips_nothing() {
    let mut r = Reassembler::new(budgets());
    r.place_chunk(1, 5, 0, &[1u8; 10]);
    assert_eq!(r.seal(1, 5, 10), vec![Event::Sealed { dev_id: 1, segment_seq: 5, size: 10 }]);
}

#[test]
fn shuffled_overlapping_chunks_come_out_as_the_content() {
    let content: Vec<u8> = (0..200u32).map(|i| (i * 7 % 251) as u8).collect();
    let mut r = Reassembler::new(wide());
    let mut out: Vec<u8> = Vec::new();
    for (at, end) in [(150, 180), (40, 90), (60, 120), (40, 70), (0, 10), (175, 200), (5, 45), (110, 160), (0, 200)] {
        for e in r.place_chunk(7, 3, at as u64, &content[at..end]) {
            if let Event::Append { dev_id, segment_seq, offset, data } = e {
                assert_eq!((dev_id, segment_seq, offset), (7, 3, out.len() as u64));
                out.extend(data);
            }
        }
        r.place_chunk(8, 3, at as u64, &[0xEE; 4]);
    }
    assert_eq!(out, content);
    assert_eq!(r.conn_pending(7), 0);
}

#[test]
fn empty_chunk_at_the_cursor_is_passed_on() {
    let mut r = Reassembler::new(budgets());
    assert!(r.place_chunk(1, 0, 20, &[]).is_empty());
    let e = r.place_chunk(1, 0, 0, &[1u8; 20]);
    assert_eq!(appends(&e), vec![(0, 20), (20, 0)]);
    assert!(r.place_chunk(1, 0, 30, &[]).is_empty());
    let e = r.place_chunk(1, 0, 20, &[2u8; 20]);
    assert_eq!(appends(&e), vec![(20, 20)]);
    assert_eq!(r.next_expected(1, 0), 40);
}

#[test]
fn quarantine_outlasts_every_call() {
    let mut r = Reassembler::new(Budgets::from_config(1024, 256, 1024, 30, 1));
    r.place_chunk(1, 0, 1000, &[0u8; 200]);
    r.place_chunk(1, 0, 1200, &[0u8; 200]);
    assert!(r.is_quarantined(1));
    r.set_now(1_000_000);
    r.seal(1, 0, 0);
    r.place_chunk(2, 0, 50, &[1u8; 30]);
    assert_eq!(r.place_chunk(1, 3, 0, &[7u8; 9]), vec![Event::QuarantinedDrop { dev_id: 1, bytes: 9 }]);
    assert!(r.is_quarantined(1));
    assert_eq!((r.global_pending(), r.conn_pending(1), r.conn_pending(2)), (30, 0, 30));
}
