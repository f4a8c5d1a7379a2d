use sov_vault::connection::{anomaly, conn_hash, conn_key_bytes, fnv1a64, ConnState, ConnStateKind, CONN_STATE_SIZE};
use sov_vault::db::{
    k_conn_qr, k_conn_state, k_packet_qr, k_pending_ttl, k_qr_pair, k_qr_pending, k_qr_pending_prefix, k_qr_time, k_record_ts, put_u48,
    take_u16, take_u32, take_u48, take_u64, take_u8, v_packet_qr_decode, v_packet_qr_encode, v_pending_ttl_decode, v_pending_ttl_encode,
    v_qr_pending_decode, v_qr_pending_encode, v_record_summary_decode, v_record_summary_encode, v_secondary_decode, v_secondary_encode,
    QrPairValue, QrStatus, RecordSummary,
};
use sov_vault::id::{decode, encode, from_bytes, to_bytes};

#[test]
fn fnv1a64_known_vector() {
    assert_eq!(fnv1a64(b""), 0xcbf29ce484222325);
    assert_eq!(fnv1a64(b"a"), 0xaf63dc4c8601ec8c);
}

#[test]
fn conn_hash_stable() {
    let h1 = conn_hash(1, 0xC0A8_0001, 12345, 0xC0A8_0002, 443, 6);
    let h2 = conn_hash(1, 0xC0A8_0001, 12345, 0xC0A8_0002, 443, 6);
    assert_eq!(h1, h2);
    let h3 = conn_hash(1, 0xC0A8_0001, 12346, 0xC0A8_0002, 443, 6);
    assert_ne!(h1, h3);
    let h4 = conn_hash(2, 0xC0A8_0001, 12345, 0xC0A8_0002, 443, 6);
    assert_ne!(h1, h4);
}

#[test]
fn conn_key_17b_layout() {
    let b = conn_key_bytes(1, 0xC0A8_0001, 12345, 0xC0A8_0002, 443, 6);
    assert_eq!(b.len(), 17);
    assert_eq!(b[0..4], 1u32.to_be_bytes());
    assert_eq!(b[4..8], 0xC0A8_0001u32.to_be_bytes());
    assert_eq!(b[8..10], 12345u16.to_be_bytes());
    assert_eq!(b[10..14], 0xC0A8_0002u32.to_be_bytes());
    assert_eq!(b[14..16], 443u16.to_be_bytes());
    assert_eq!(b[16], 6);
}

#[test]
fn conn_state_roundtrip() {
    let cs = ConnState {
        state: ConnStateKind::Established.as_u8(),
        client_ip: 0xC0A8_0001,
        server_port: 443,
        bytes_c: 123456,
        anomaly_flags: anomaly::SEQ_GAP | anomaly::CONN_OOO_FLOOD,
        qr_open: 7,
        meta_bind_id: -1,
        ..Default::default()
    };
    let b = cs.to_bytes();
    assert_eq!(b.len(), CONN_STATE_SIZE);
    let back = ConnState::from_bytes(&b).unwrap();
    assert_eq!(back, cs);
}

#[test]
fn conn_state_wrong_len_rejected() {
    assert!(ConnState::from_bytes(&[0u8; 168]).is_none());
    assert!(ConnState::from_bytes(&[0u8; 170]).is_none());
}

#[test]
fn conn_state_keeps_stream_fields() {
    let mut cs = ConnState { last_raw_c: 0xFFFF_FFF0, last_raw_s: 7, incarnation: 0x1234, syn_pkt_idx: 0x1122_3344_5566_7788, ..Default::default() };
    cs.set_active_c(true);
    cs.set_active_s(true);
    cs.set_active_c(false);
    let b = cs.to_bytes();
    let back = ConnState::from_bytes(&b).unwrap();
    assert_eq!(back, cs);
    assert!(!back.active_c());
    assert!(back.active_s());
    assert_eq!(&b[171..175], &0xFFFF_FFF0u32.to_be_bytes());
    let mut dirty = b;
    dirty[3] = 9;
    assert_eq!(ConnState::from_bytes(&dirty).unwrap(), cs);
}

#[test]
fn key_builders_roundtrip() {
    let k = k_qr_pending(0x1122_3344_5566_7788, 0xAB, 0x1234_5678_9ABC);
    assert_eq!(k.len(), 16);
    assert_eq!(&k[0..8], &0x1122_3344_5566_7788u64.to_be_bytes());
    assert_eq!(&k[8..10], &0x00ABu16.to_be_bytes());
    assert_eq!(&k[10..16], &0x1234_5678_9ABCu64.to_be_bytes()[2..8]);
    let p = k_qr_pending_prefix(0x1122_3344_5566_7788, 0xAB);
    assert_eq!(p.len(), 10);
    assert_eq!(&k[..10], &p[..]);

    let k = k_conn_qr(1, 2, 3);
    assert_eq!(k.len(), 24);
    let k = k_qr_time(1, 2);
    assert_eq!(k.len(), 16);
    let k = k_pending_ttl(1, 2);
    assert_eq!(k.len(), 16);
    assert_eq!(k_conn_state(7), 7u64.to_be_bytes());
    assert_eq!(k_qr_pair(9), 9u64.to_be_bytes());
    assert_eq!(k_packet_qr(5), 5u64.to_be_bytes());
}

#[test]
fn u48_bounds() {
    let mut v = Vec::new();
    put_u48(&mut v, 0xFFFF_FFFF_FFFF);
    assert_eq!(v.len(), 6);
    let mut o = 0;
    assert_eq!(take_u48(&v, &mut o).unwrap(), 0xFFFF_FFFF_FFFF);
    assert_eq!(o, 6);
}

#[test]
fn short_input_moves_nothing() {
    let b = [1u8, 2, 3];
    let mut o = 2;
    assert!(take_u16(&b, &mut o).is_none());
    assert!(take_u32(&b, &mut o).is_none());
    assert!(take_u64(&b, &mut o).is_none());
    assert_eq!(o, 2);
    assert_eq!(take_u8(&b, &mut o), Some(3));
    assert_eq!(take_u8(&b, &mut o), None);
    assert_eq!(o, 3);
    let mut o = 0;
    assert_eq!(take_u16(&b, &mut o), Some(0x0102));
    assert_eq!(o, 2);
}

#[test]
fn qr_pending_value_roundtrip() {
    let v = v_qr_pending_encode(100, 200, 300);
    assert_eq!(v_qr_pending_decode(&v).unwrap(), (100, 200, 300));
    assert!(v_qr_pending_decode(&v[..19]).is_none());
}

#[test]
fn secondary_value_roundtrip() {
    assert_eq!(v_secondary_decode(&v_secondary_encode(42)).unwrap(), 42);
    assert!(v_secondary_decode(&[0u8; 7]).is_none());
}

#[test]
fn packet_ttl_value_roundtrip() {
    assert_eq!(v_packet_qr_decode(&v_packet_qr_encode(42)).unwrap(), 42);
    let t = v_pending_ttl_encode(7, 0xABCDEF123456);
    assert_eq!(v_pending_ttl_decode(&t).unwrap(), (7, 0xABCDEF123456));
    assert!(v_pending_ttl_decode(&t[..13]).is_none());
}

#[test]
fn qr_pair_value_roundtrip() {
    let v = QrPairValue {
        status: QrStatus::Matched.as_u8(),
        conn_hash: 0xDEAD_BEEF,
        q_idx: vec![1, 2, 3],
        r_idx: vec![9, 10, 11, 12],
        req_key: b"GET /foo HTTP/1.1".to_vec(),
        resp_key: b"200 OK".to_vec(),
        abs_q_seq: 0xFFFF_FFFF_FFF0,
        ..Default::default()
    };
    let enc = v.encode();
    let back = QrPairValue::decode(&enc).unwrap();
    assert_eq!(back, v);

    assert!(QrPairValue::decode(&enc[..enc.len() - 1]).is_none());
    let mut long = enc.clone();
    long.push(0);
    assert!(QrPairValue::decode(&long).is_none());
    assert!(QrPairValue::decode(&[]).is_none());
}

#[test]
fn record_ts_codec() {
    let k = k_record_ts(123456789, 0x1122_3344_5566_7788);
    assert_eq!(k.len(), 16);
    assert_eq!(&k[0..8], &123456789u64.to_be_bytes());
    assert_eq!(&k[8..16], &0x1122_3344_5566_7788u64.to_be_bytes());

    let s = RecordSummary { proto: 6, flags: 0x12, src_ip: 0xC0A8_0001, dst_ip: 0x0A00_0002, sport: 12345, dport: 443, len: 1024 };
    let enc = v_record_summary_encode(&s);
    assert_eq!(enc.len(), 18);
    assert_eq!(v_record_summary_decode(&enc).unwrap(), s);
    assert!(v_record_summary_decode(&enc[..17]).is_none());
}

#[test]
fn byte_order_of_keys_is_numeric_order() {
    let values = [0u64, 1, 255, 256, 65_535, 65_536, 0xFFFF_FFFF_FFFF];
    for w in values.windows(2) {
        assert!(k_qr_pending(5, 9, w[0]) < k_qr_pending(5, 9, w[1]));
        assert!(k_qr_time(w[0], u64::MAX) < k_qr_time(w[1], 0));
    }
    assert!(k_qr_pending(5, 9, 0xFFFF_FFFF_FFFF) < k_qr_pending(5, 10, 0));
}

#[test]
fn status_names_and_codes() {
    for c in 0..=5u8 {
        let s = QrStatus::from_u8(c).unwrap();
        assert_eq!(s.as_u8(), c);
        assert_eq!(QrStatus::parse(s.name()), Some(s));
    }
    assert!(QrStatus::from_u8(6).is_none());
    assert_eq!(QrStatus::parse("rst"), Some(QrStatus::RstAbort));
    assert_eq!(QrStatus::parse("aborted"), Some(QrStatus::AbortedResource));
    assert!(QrStatus::parse("Pending").is_none());
}

#[test]
fn idx_roundtrip() {
    for (fid, off) in [(0u32, 0u32), (1, 64), (0xDEAD_BEEF, 0x1234_5678), (u32::MAX, u32::MAX)] {
        let idx = encode(fid, off);
        assert_eq!(decode(idx), (fid, off));
        assert_eq!(from_bytes(&to_bytes(idx)), Some(idx));
    }
}

#[test]
fn idx_must_be_4gb_bounded() {
    let idx = encode(7, u32::MAX);
    assert_eq!(decode(idx).1, u32::MAX);
    assert_eq!(idx >> 32, 7);
}

#[test]
fn idx_bytes_len_checked() {
    assert!(from_bytes(&[0u8; 7]).is_none());
    assert!(from_bytes(&[0u8; 9]).is_none());
}

#[test]
fn conn_state_tuple_layout() {
    let st = ConnState {
        client_ip: 0x0102_0304,
        client_port: 0x0506,
        server_ip: 0x0708_090A,
        server_port: 0x0B0C,
        proto: 6,
        ..ConnState::default()
    };
    assert_eq!(st.to_bytes()[8..22], [1, 2, 3, 4, 5, 6, 7, 8, 9, 10, 11, 12, 6, 0]);
}
