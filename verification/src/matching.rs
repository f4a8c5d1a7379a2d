//! What one record does to the index plane: the model that the matcher is held to.

use crate::codec::be;
use crate::connection::anomaly;
use crate::connection::{active_with_c, active_with_fin, active_with_s, both_fins, conn_hash_of, fnv, zero_state, ConnState, ConnStateKind};
use crate::db::{QrPairView, QrStatus, U48_MAX};
use crate::ledger::AnomalyView;
use crate::meta::{binding, dns_header, first, request_key, tls_record, PrintView, ProtocolKind, RuleView};
use crate::plane::{EpochView, LiveView, PendingVal, PlanesView, TtlVal};
use crate::anomaly::ANOM_QR_UNMATCHED;
use crate::qr::{seq_diff, QrParams, SeqStream, ACK_LEAD_CAP, ANOM_CONN_RST, ANOM_EPOCH_REBIRTH, EPOCH_JUMP_THRESHOLD};
use crate::table::{put_new, scan, Key2, Key3, PendingKey};
use crate::text::dec;
use crate::wal::{ip_number, summary_of, IndexedRecord, WalRecord, FLAG_DEGRADED, TCP_ACK, TCP_FIN, TCP_RST, TCP_SYN};
use vstd::prelude::*;

verus! {

/// `a + b`, at most the largest 64-bit number.
pub open spec fn sat_add(a: u64, b: u64) -> u64 {
    if a + b > u64::MAX {
        u64::MAX
    } else {
        (a + b) as u64
    }
}

/// `a - b`, at least zero.
pub open spec fn sat_sub(a: u64, b: nat) -> u64 {
    if a < b {
        0
    } else {
        (a - b) as u64
    }
}

/// `a + b` in 32 bits, at most the largest number.
pub open spec fn sat_add32(a: u32, b: u32) -> u32 {
    if a + b > u32::MAX {
        u32::MAX
    } else {
        (a + b) as u32
    }
}

/// Whether a TCP flag is set.
pub open spec fn flagged(rec: WalRecord, flag: u8) -> bool {
    rec.tcp_flags & flag != 0
}

/// Direction of a packet.
#[derive(Debug, Clone, Copy, PartialEq, Eq, Structural)]
pub enum Dir {
    /// From the client: requests.
    C2S,
    /// From the server: responses.
    S2C,
}

/// Hash of the connection if the sender is the client.
pub open spec fn hash_forward(r: IndexedRecord) -> u64 {
    conn_hash_of(r.dev_id, ip_number(r.rec.src_ip), r.rec.src_port, ip_number(r.rec.dst_ip), r.rec.dst_port, r.rec.proto as u8)
}

/// Hash of the connection if the sender is the server.
pub open spec fn hash_backward(r: IndexedRecord) -> u64 {
    conn_hash_of(r.dev_id, ip_number(r.rec.dst_ip), r.rec.dst_port, ip_number(r.rec.src_ip), r.rec.src_port, r.rec.proto as u8)
}

/// The state of a connection that is first seen with this record. The sender is taken for the client,
/// and a start without SYN is marked half-open.
pub open spec fn fresh_state(rec: WalRecord) -> ConnState {
    ConnState {
        state: ConnStateKind::HalfOpen.code(),
        client_ip: ip_number(rec.src_ip),
        client_port: rec.src_port,
        server_ip: ip_number(rec.dst_ip),
        server_port: rec.dst_port,
        proto: rec.proto as u8,
        first_ts: rec.timestamp_ns,
        last_ts: rec.timestamp_ns,
        anomaly_flags: if flagged(rec, TCP_SYN) {
            0
        } else {
            anomaly::HALF_OPEN
        },
        meta_bind_id: -1i64,
        ..zero_state()
    }
}

/// The connection of a record, the record's direction, and the connection's state before it: a known
/// connection with the sender as client, else one with the sender as server, else a new one.
pub open spec fn located(conns: Map<u64, ConnState>, r: IndexedRecord) -> (u64, Dir, ConnState) {
    if conns.contains_key(hash_forward(r)) {
        (hash_forward(r), Dir::C2S, conns[hash_forward(r)])
    } else if conns.contains_key(hash_backward(r)) {
        (hash_backward(r), Dir::S2C, conns[hash_backward(r)])
    } else {
        (hash_forward(r), Dir::C2S, fresh_state(r.rec))
    }
}

/// The low 48 bits, as an index key holds them.
pub open spec fn low48(x: u64) -> u64 {
    (x % 0x1_0000_0000_0000) as u64
}

/// The pending requests of one incarnation that end at or before `limit`, in stream order.
pub open spec fn pending_upto(pending: Map<PendingKey, PendingVal>, h: u64, inc: u16, limit: u64) -> Seq<PendingKey> {
    scan(
        pending.dom(),
        PendingKey { conn: h, inc, end: 0 },
        PendingKey {
            conn: h,
            inc,
            end: if limit < U48_MAX {
                limit
            } else {
                U48_MAX
            },
        },
    )
}

/// How a request is finished.
pub enum Outcome {
    /// Acknowledged by a response; `ids` are all requests that the same response acknowledged.
    Matched { r: IndexedRecord, ids: Seq<u64> },
    /// Closed without a response.
    Closed { status: QrStatus },
}

/// `xs` followed by those of `more` that are not there yet.
pub open spec fn merged(xs: Seq<u64>, more: Seq<u64>) -> Seq<u64>
    decreases more.len(),
{
    if more.len() == 0 {
        xs
    } else {
        let m = merged(xs, more.drop_last());
        if m.contains(more.last()) {
            m
        } else {
            m.push(more.last())
        }
    }
}

/// The finished form of a pair; `i` is its place among the requests finished together. The first one
/// takes the response key and the locators of the others.
pub open spec fn finished(p: QrPairView, how: Outcome, i: int) -> QrPairView {
    match how {
        Outcome::Matched { r, ids } => {
            let m = QrPairView {
                status: QrStatus::Matched.code(),
                r_ts: r.rec.timestamp_ns,
                latency_ms: sat_sub(r.rec.timestamp_ns, p.q_ts as nat) / 1_000_000,
                r_len: sat_add32(p.r_len, r.rec.orig_payload_len),
                r_idx: p.r_idx.push(r.loc()),
                ..p
            };
            if i == 0 {
                QrPairView { resp_key: first(r.rec.payload@, 32), q_idx: merged(p.q_idx, ids.skip(1)), ..m }
            } else {
                m
            }
        },
        Outcome::Closed { status } => QrPairView { status: status.code(), ..p },
    }
}

/// Moves an open pair to history in its finished form. Where history has the pair already, only the
/// open row goes; a pair that is not open is left alone.
pub open spec fn finish_pair(pl: PlanesView, k: u64, how: Outcome, i: int) -> PlanesView {
    if pl.live.pairs.contains_key(k) && pl.live.pairs[k].status == QrStatus::Pending.code() {
        PlanesView {
            live: LiveView { pairs: pl.live.pairs.remove(k), ..pl.live },
            epoch: EpochView { pairs: put_new(pl.epoch.pairs, k, finished(pl.live.pairs[k], how, i)), ..pl.epoch },
        }
    } else {
        pl
    }
}

/// A request of the live plane that waits for its response.
pub open spec fn waits(live: LiveView, k: u64) -> bool {
    live.pairs.contains_key(k) && live.pairs[k].status == QrStatus::Pending.code()
}

/// A request that waits for its response.
pub open spec fn is_open(pl: PlanesView, k: u64) -> bool {
    waits(pl.live, k)
}

/// Those of the pending rows `keys` whose request is still open, in order.
pub open spec fn still_open(live: LiveView, keys: Seq<PendingKey>) -> Seq<PendingKey>
    decreases keys.len(),
{
    if keys.len() == 0 {
        Seq::empty()
    } else {
        let before = still_open(live, keys.drop_last());
        if waits(live, live.pending[keys.last()].q_first_idx) {
            before.push(keys.last())
        } else {
            before
        }
    }
}

/// Finishes one pending request: its pair, its pending row and its timeout row.
pub open spec fn close_one(pl: PlanesView, key: PendingKey, how: Outcome, i: int) -> PlanesView {
    let v = pl.live.pending[key];
    let p = finish_pair(pl, v.q_first_idx, how, i);
    PlanesView {
        live: LiveView { pending: p.live.pending.remove(key), ttl: p.live.ttl.remove(Key2 { a: v.q_ts, b: key.conn }), ..p.live },
        ..p
    }
}

/// Finishes the first `n` of the pending requests `keys`, in order.
pub open spec fn close_all(pl: PlanesView, keys: Seq<PendingKey>, how: Outcome, n: nat) -> PlanesView
    decreases n,
{
    if n == 0 {
        pl
    } else {
        close_one(close_all(pl, keys, how, (n - 1) as nat), keys[n - 1], how, n - 1)
    }
}

/// The requests behind pending rows.
pub open spec fn ids_of(pending: Map<PendingKey, PendingVal>, keys: Seq<PendingKey>) -> Seq<u64> {
    Seq::new(keys.len(), |i: int| pending[keys[i]].q_first_idx)
}

/// What a record finds and does along the way: the planes, the connection state, the audit events and
/// the fingerprints.
pub struct Stage {
    pub pl: PlanesView,
    pub st: ConnState,
    pub events: Seq<AnomalyView>,
    pub prints: Seq<PrintView>,
}

/// An audit event of a connection.
pub open spec fn conn_event(ts: u64, kind: i64, h: u64, text: Seq<char>, n: nat) -> AnomalyView {
    AnomalyView {
        ts: ts as i64,
        kind,
        dev_id: None,
        segment_seq: None,
        conn_hash: Some(be(h as nat, 8)),
        qr_id: None,
        detail: Some(text + dec(n)),
    }
}

/// The state of the next incarnation, opened by a SYN in direction `dir`: a handshake from scratch, one
/// stream at the SYN and the other without baseline, and nothing acknowledged.
pub open spec fn reborn_state(st: ConnState, rec: WalRecord, dir: Dir, idx: u64) -> ConnState {
    let base = ConnState {
        incarnation: if st.incarnation == u16::MAX {
            0
        } else {
            (st.incarnation + 1) as u16
        },
        syn_pkt_idx: idx,
        state: ConnStateKind::HalfOpen.code(),
        consumed_ack_c: 0,
        consumed_ack_s: 0,
        ..st
    };
    match dir {
        Dir::C2S => ConnState {
            last_raw_c: rec.tcp_seq,
            abs_seq_c: rec.tcp_seq as u64,
            last_raw_s: 0,
            abs_seq_s: 0,
            active: 1,
            ..base
        },
        Dir::S2C => ConnState {
            last_raw_s: rec.tcp_seq,
            abs_seq_s: rec.tcp_seq as u64,
            last_raw_c: 0,
            abs_seq_c: 0,
            active: 2,
            ..base
        },
    }
}

/// Whether a record opens a new incarnation: a SYN on a stream with a baseline, outside a handshake,
/// that is neither the SYN of this incarnation seen again nor a copy of it on a living connection.
pub open spec fn is_rebirth(st: ConnState, r: IndexedRecord, dir: Dir) -> bool {
    let cur = SeqStream::of(st, dir == Dir::C2S);
    &&& cur.active
    &&& flagged(r.rec, TCP_SYN)
    &&& st.state != ConnStateKind::SynSent.code()
    &&& st.state != ConnStateKind::SynRcvd.code()
    &&& seq_diff(r.rec.tcp_seq, cur.last_raw) != 0 || 3 <= st.state <= 5
    &&& r.loc() != st.syn_pkt_idx
}

/// Marks a jump that no window explains; it never opens a new incarnation. The first packet of a stream
/// jumps from nowhere.
pub open spec fn gap_marked(st: ConnState, rec: WalRecord, dir: Dir) -> ConnState {
    let cur = SeqStream::of(st, dir == Dir::C2S);
    let d = seq_diff(rec.tcp_seq, cur.last_raw);
    if cur.active && !flagged(rec, TCP_SYN) && (d > EPOCH_JUMP_THRESHOLD || -d > EPOCH_JUMP_THRESHOLD) {
        ConnState { anomaly_flags: st.anomaly_flags | anomaly::SEQ_GAP, ..st }
    } else {
        st
    }
}

/// Marks a closed window, and a record that the probe took in a degraded state.
pub open spec fn condition_marked(st: ConnState, rec: WalRecord) -> ConnState {
    let s = if rec.window_size == 0 {
        ConnState { anomaly_flags: st.anomaly_flags | anomaly::ZERO_WIN, ..st }
    } else {
        st
    };
    if rec.flags & FLAG_DEGRADED != 0 {
        ConnState { anomaly_flags: s.anomaly_flags | anomaly::DEGRADED, ..s }
    } else {
        s
    }
}

/// Opens the next incarnation: every pending request of the old one ends unmatched.
pub open spec fn reborn(pl: PlanesView, h: u64, st: ConnState, r: IndexedRecord, dir: Dir) -> Stage {
    let keys = pending_upto(pl.live.pending, h, st.incarnation, U48_MAX);
    Stage {
        pl: close_all(pl, keys, Outcome::Closed { status: QrStatus::Unmatched }, keys.len()),
        st: ConnState { qr_open: sat_sub(st.qr_open, keys.len()), ..reborn_state(st, r.rec, dir, r.loc()) },
        events: seq![conn_event(r.rec.timestamp_ns, ANOM_EPOCH_REBIRTH, h, "EPOCH_REBIRTH_SYN pending="@, keys.len())],
        prints: Seq::empty(),
    }
}

/// A reset: every pending request of the current incarnation is aborted at once.
pub open spec fn reset(pl: PlanesView, h: u64, st: ConnState, r: IndexedRecord) -> Stage {
    let keys = pending_upto(pl.live.pending, h, st.incarnation, U48_MAX);
    Stage {
        pl: close_all(pl, keys, Outcome::Closed { status: QrStatus::RstAbort }, keys.len()),
        st: ConnState {
            qr_open: sat_sub(st.qr_open, keys.len()),
            state: ConnStateKind::Reset.code(),
            rst_seen: r.rec.timestamp_ns,
            anomaly_flags: st.anomaly_flags | anomaly::RESET,
            ..st
        },
        events: seq![conn_event(r.rec.timestamp_ns, ANOM_CONN_RST, h, "RST cascade pending="@, keys.len())],
        prints: Seq::empty(),
    }
}

/// Whether a packet closes its connection: a FIN, once both sides have sent one. A reset connection stays
/// reset.
pub open spec fn closes(st: ConnState, rec: WalRecord) -> bool {
    flagged(rec, TCP_FIN) && both_fins(st.active) && st.state != ConnStateKind::Reset.code()
}

/// The end of a connection: every request of the current incarnation that is still pending ends
/// unmatched.
pub open spec fn closed(pl: PlanesView, h: u64, st: ConnState, r: IndexedRecord) -> Stage {
    let keys = pending_upto(pl.live.pending, h, st.incarnation, U48_MAX);
    Stage {
        pl: close_all(pl, keys, Outcome::Closed { status: QrStatus::Unmatched }, keys.len()),
        st: ConnState {
            qr_open: sat_sub(st.qr_open, keys.len()),
            state: ConnStateKind::Closed.code(),
            anomaly_flags: if keys.len() > 0 {
                st.anomaly_flags | anomaly::QR_UNMATCHED
            } else {
                st.anomaly_flags
            },
            ..st
        },
        events: if keys.len() > 0 {
            seq![conn_event(r.rec.timestamp_ns, ANOM_QR_UNMATCHED, h, "CONN_CLOSED pending="@, keys.len())]
        } else {
            Seq::empty()
        },
        prints: Seq::empty(),
    }
}

/// A connection with too many open requests is quarantined: all of the current incarnation are aborted
/// for want of resources.
pub open spec fn flooded(pl: PlanesView, h: u64, st: ConnState, r: IndexedRecord) -> Stage {
    let keys = pending_upto(pl.live.pending, h, st.incarnation, U48_MAX);
    Stage {
        pl: close_all(pl, keys, Outcome::Closed { status: QrStatus::AbortedResource }, keys.len()),
        st: ConnState {
            qr_open: sat_sub(st.qr_open, keys.len()),
            state: ConnStateKind::Quarantined.code(),
            anomaly_flags: st.anomaly_flags | anomaly::CONN_QR_FLOOD,
            ..st
        },
        events: seq![conn_event(r.rec.timestamp_ns, ANOM_QR_UNMATCHED, h, "CONN_QR_FLOOD pending="@, keys.len())],
        prints: Seq::empty(),
    }
}

/// The handshake and the FIN mark.
pub open spec fn handshake(st: ConnState, r: IndexedRecord, dir: Dir) -> ConnState {
    let ts = r.rec.timestamp_ns;
    let s = if flagged(r.rec, TCP_SYN) && dir == Dir::C2S {
        ConnState {
            state: ConnStateKind::SynSent.code(),
            syn_seen: ts,
            anomaly_flags: st.anomaly_flags | anomaly::SYN_SEEN,
            syn_pkt_idx: r.loc(),
            ..st
        }
    } else if flagged(r.rec, TCP_SYN) {
        ConnState {
            state: if st.state == ConnStateKind::SynSent.code() {
                ConnStateKind::SynRcvd.code()
            } else {
                st.state
            },
            synack_seen: ts,
            ..st
        }
    } else if flagged(r.rec, TCP_ACK) && dir == Dir::C2S && st.state == ConnStateKind::SynRcvd.code() {
        ConnState { state: ConnStateKind::Established.code(), ..st }
    } else {
        st
    };
    if flagged(r.rec, TCP_FIN) {
        ConnState {
            fin_seen: ts,
            anomaly_flags: s.anomaly_flags | anomaly::FIN_SEEN,
            active: active_with_fin(s.active, dir == Dir::C2S),
            ..s
        }
    } else {
        s
    }
}

/// Packet and byte counts.
pub open spec fn counted(st: ConnState, rec: WalRecord, dir: Dir) -> ConnState {
    match dir {
        Dir::C2S => ConnState {
            last_ts: rec.timestamp_ns,
            pkts_c: sat_add(st.pkts_c, 1),
            bytes_c: sat_add(st.bytes_c, rec.orig_payload_len as u64),
            ..st
        },
        Dir::S2C => ConnState {
            last_ts: rec.timestamp_ns,
            pkts_s: sat_add(st.pkts_s, 1),
            bytes_s: sat_add(st.bytes_s, rec.orig_payload_len as u64),
            ..st
        },
    }
}

/// A connection without a rule and without a known protocol.
pub open spec fn unbound(st: ConnState) -> bool {
    st.meta_bind_id == -1 && st.protocol_hint == 0
}

/// The key of a request. Without rules it is the start of the payload; with rules an unbound
/// connection is bound first, and a bound one has its protocol's key.
pub open spec fn keyed(st: ConnState, h: u64, r: IndexedRecord, rules: Option<Seq<RuleView>>, high_entropy: bool) -> (
    Seq<u8>,
    bool,
    ConnState,
    Seq<PrintView>,
) {
    let p = r.rec.payload@;
    match rules {
        None => (first(p, 32), false, st, Seq::empty()),
        Some(rules) => if unbound(st) {
            let b = binding(rules, p, r.rec.proto as u8, r.rec.dst_port, high_entropy);
            (
                b.key,
                b.pseudo,
                ConnState { meta_bind_id: b.meta_bind_id, protocol_hint: b.protocol_hint, ..st },
                seq![
                    PrintView {
                        conn_hash: h,
                        protocol_hint: b.protocol_hint,
                        dst_port: r.rec.dst_port,
                        magic_prefix: first(p, 4),
                        has_fixed_header: tls_record(p) || dns_header(p),
                        packet_idx: r.loc(),
                    },
                ],
            )
        } else {
            let k = request_key(p, ProtocolKind::of_code(st.protocol_hint));
            (k.0, k.1, st, Seq::empty())
        },
    }
}

/// A request as it is born.
pub open spec fn new_pair(h: u64, r: IndexedRecord, start: u64, end: u64, key: Seq<u8>, pseudo: bool) -> QrPairView {
    QrPairView {
        status: QrStatus::Pending.code(),
        conn_hash: h,
        q_ts: r.rec.timestamp_ns,
        r_ts: 0,
        latency_ms: 0,
        q_len: r.rec.orig_payload_len,
        r_len: 0,
        abs_q_seq: start,
        abs_q_end: end,
        pseudo: if pseudo {
            1
        } else {
            0
        },
        q_idx: seq![r.loc()],
        r_idx: Seq::empty(),
        req_key: key,
        resp_key: Seq::empty(),
    }
}

/// The planes with a new request: its pair, unless the live plane knows it already, and a row in every
/// index where the key is free.
pub open spec fn with_request(pl: PlanesView, h: u64, inc: u16, p: QrPairView, idx: u64) -> PlanesView {
    PlanesView {
        live: LiveView {
            pairs: put_new(pl.live.pairs, idx, p),
            pending: put_new(
                pl.live.pending,
                PendingKey { conn: h, inc, end: low48(p.abs_q_end) },
                PendingVal { q_first_idx: idx, q_ts: p.q_ts, q_len: p.q_len },
            ),
            ttl: put_new(pl.live.ttl, Key2 { a: p.q_ts, b: h }, TtlVal { q_first_idx: idx, abs_q_end: low48(p.abs_q_end) }),
            ..pl.live
        },
        epoch: EpochView {
            packet_qr: put_new(pl.epoch.packet_qr, idx, idx),
            conn_qr: put_new(pl.epoch.conn_qr, Key3 { a: h, b: p.q_ts, c: idx }, idx),
            qr_key: put_new(pl.epoch.qr_key, Key3 { a: fnv(p.req_key), b: p.q_ts, c: idx }, idx),
            qr_time: put_new(pl.epoch.qr_time, Key2 { a: p.q_ts, b: idx }, idx),
            ..pl.epoch
        },
    }
}

/// Opens a request.
pub open spec fn opened(
    pl: PlanesView,
    h: u64,
    st: ConnState,
    r: IndexedRecord,
    start: u64,
    end: u64,
    rules: Option<Seq<RuleView>>,
    high_entropy: bool,
) -> Stage {
    let (key, pseudo, st2, prints) = keyed(st, h, r, rules, high_entropy);
    Stage {
        pl: with_request(pl, h, st2.incarnation, new_pair(h, r, start, end, key, pseudo), r.loc()),
        st: ConnState { req_cnt: sat_add(st2.req_cnt, 1), qr_open: sat_add(st2.qr_open, 1), ..st2 },
        events: Seq::empty(),
        prints,
    }
}

/// A packet from the client: new data past what was acknowledged opens a request, all other data is a
/// retransmission.
pub open spec fn requested(
    pl: PlanesView,
    h: u64,
    st: ConnState,
    r: IndexedRecord,
    start: u64,
    fresh: u32,
    rules: Option<Seq<RuleView>>,
    high_entropy: bool,
) -> Stage {
    if r.rec.orig_payload_len == 0 {
        Stage { pl, st, events: Seq::empty(), prints: Seq::empty() }
    } else if fresh > 0 && sat_add(start, fresh as u64) > st.consumed_ack_s {
        opened(pl, h, st, r, start, sat_add(start, fresh as u64), rules, high_entropy)
    } else {
        Stage {
            pl,
            st: ConnState { anomaly_flags: st.anomaly_flags | anomaly::RETRANS, ..st },
            events: Seq::empty(),
            prints: Seq::empty(),
        }
    }
}

/// How many pairs left the live plane.
pub open spec fn pairs_gone(p: PlanesView, q: PlanesView) -> nat {
    if p.live.pairs.dom().len() >= q.live.pairs.dom().len() {
        (p.live.pairs.dom().len() - q.live.pairs.dom().len()) as nat
    } else {
        0
    }
}

/// Consumes an acknowledgement: every open request that ends within it, and a tolerance, is matched. A
/// pending row whose request is not open any more is passed over.
pub open spec fn consumed(pl: PlanesView, h: u64, st: ConnState, r: IndexedRecord, abs_ack: u64, par: QrParams) -> Stage {
    let keys = still_open(pl.live, pending_upto(pl.live.pending, h, st.incarnation, sat_add(abs_ack, par.ack_tolerance as u64)));
    let q = close_all(pl, keys, Outcome::Matched { r, ids: ids_of(pl.live.pending, keys) }, keys.len());
    Stage {
        pl: q,
        st: ConnState {
            qr_open: sat_sub(st.qr_open, pairs_gone(pl, q)),
            consumed_ack_s: if abs_ack > st.consumed_ack_s {
                abs_ack
            } else {
                st.consumed_ack_s
            },
            ..st
        },
        events: Seq::empty(),
        prints: Seq::empty(),
    }
}

/// A packet from the server: its acknowledgement is read on the client stream, and counts only if it
/// is new and no more than a window ahead of that stream.
pub open spec fn responded(pl: PlanesView, h: u64, st: ConnState, r: IndexedRecord, client: SeqStream, fresh: u32, par: QrParams) -> Stage {
    let abs_ack = client.abs(r.rec.tcp_ack);
    let st2 = if fresh > 0 {
        ConnState { resp_cnt: sat_add(st.resp_cnt, 1), ..st }
    } else {
        st
    };
    if abs_ack > st2.consumed_ack_s && abs_ack <= sat_add(client.last_abs, ACK_LEAD_CAP) {
        consumed(pl, h, st2, r, abs_ack, par)
    } else {
        Stage { pl, st: st2, events: Seq::empty(), prints: Seq::empty() }
    }
}

/// The state with the positions of both streams.
pub open spec fn with_streams(st: ConnState, c: SeqStream, s: SeqStream) -> ConnState {
    ConnState {
        last_raw_c: c.last_raw,
        abs_seq_c: c.last_abs,
        last_raw_s: s.last_raw,
        abs_seq_s: s.last_abs,
        active: active_with_s(active_with_c(st.active, c.active), s.active),
        ..st
    }
}

/// A packet that is no reset: both streams, the handshake, the counts, then the request or the
/// acknowledgement.
pub open spec fn exchanged(
    pl: PlanesView,
    h: u64,
    st: ConnState,
    r: IndexedRecord,
    dir: Dir,
    par: QrParams,
    rules: Option<Seq<RuleView>>,
    high_entropy: bool,
) -> Stage {
    let c0 = SeqStream::of(st, true);
    let s0 = SeqStream::of(st, false);
    let st2 = counted(handshake(st, r, dir), r.rec, dir);
    match dir {
        Dir::C2S => {
            let (c, start, fresh) = c0.fed(r.rec.tcp_seq, r.rec.orig_payload_len);
            let g = requested(pl, h, st2, r, start, fresh, rules, high_entropy);
            Stage { st: with_streams(g.st, c, s0), ..g }
        },
        Dir::S2C => {
            let (s, start, fresh) = s0.fed(r.rec.tcp_seq, r.rec.orig_payload_len);
            let g = responded(pl, h, st2, r, c0, fresh, par);
            Stage { st: with_streams(g.st, c0, s), ..g }
        },
    }
}

/// The planes with the record in the time index.
pub open spec fn recorded(pl: PlanesView, r: IndexedRecord) -> PlanesView {
    PlanesView {
        epoch: EpochView {
            record_ts: put_new(pl.epoch.record_ts, Key2 { a: r.rec.timestamp_ns, b: r.loc() }, summary_of(r.rec)),
            ..pl.epoch
        },
        ..pl
    }
}

/// What a packet comes to after its data: the second FIN closes the connection, and a request too many
/// puts it in quarantine.
pub open spec fn concluded(g: Stage, h: u64, before: ConnState, r: IndexedRecord, par: QrParams) -> Stage {
    if closes(g.st, r.rec) {
        let c = closed(g.pl, h, g.st, r);
        Stage { events: g.events + c.events, prints: g.prints, ..c }
    } else if g.st.qr_open > before.qr_open && g.st.qr_open >= par.pending_budget {
        let c = flooded(g.pl, h, g.st, r);
        Stage { events: g.events + c.events, prints: g.prints, ..c }
    } else {
        g
    }
}

/// A TCP packet within an incarnation: a reset, or the packet's data and what it comes to.
pub open spec fn moved(
    pl: PlanesView,
    h: u64,
    st: ConnState,
    r: IndexedRecord,
    dir: Dir,
    par: QrParams,
    rules: Option<Seq<RuleView>>,
    high_entropy: bool,
) -> Stage {
    if flagged(r.rec, TCP_RST) {
        reset(pl, h, st, r)
    } else {
        concluded(exchanged(pl, h, st, r, dir, par, rules, high_entropy), h, st, r, par)
    }
}

/// A TCP packet on its connection.
pub open spec fn stepped(
    pl: PlanesView,
    h: u64,
    st: ConnState,
    r: IndexedRecord,
    dir: Dir,
    par: QrParams,
    rules: Option<Seq<RuleView>>,
    high_entropy: bool,
) -> Stage {
    let a = if is_rebirth(st, r, dir) {
        reborn(pl, h, st, r, dir)
    } else {
        Stage { pl, st: gap_marked(st, r.rec, dir), events: Seq::empty(), prints: Seq::empty() }
    };
    let b = moved(a.pl, h, condition_marked(a.st, r.rec), r, dir, par, rules, high_entropy);
    Stage { events: a.events + b.events, ..b }
}

/// What one record leaves behind.
pub struct Effect {
    pub pl: PlanesView,
    pub events: Seq<AnomalyView>,
    pub prints: Seq<PrintView>,
}

/// One record: it enters the time index, and a TCP packet also moves its connection.
pub open spec fn step(pl: PlanesView, r: IndexedRecord, par: QrParams, rules: Option<Seq<RuleView>>, high_entropy: bool) -> Effect {
    let p0 = recorded(pl, r);
    if r.rec.proto != 6 {
        Effect { pl: p0, events: Seq::empty(), prints: Seq::empty() }
    } else {
        let (h, dir, st) = located(p0.live.conns, r);
        let g = stepped(p0, h, st, r, dir, par, rules, high_entropy);
        Effect {
            pl: PlanesView { live: LiveView { conns: g.pl.live.conns.insert(h, g.st), ..g.pl.live }, ..g.pl },
            events: g.events,
            prints: g.prints,
        }
    }
}

} // verus!
