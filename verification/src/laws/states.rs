//! What packets do to their connections and requests, told from the packets.

use crate::anomaly::{state_of, ttl_scan};
use crate::connection::ConnState;
use crate::db::{QrPairView, U48_MAX};
use crate::laws::records::address;
use crate::laws::{after_rebirth, law_timeouts_strike_when_due};
use crate::matching::{
    concluded, counted, exchanged, flagged, fresh_state, gap_marked, handshake, hash_backward, hash_forward,
    is_rebirth, located, moved, recorded, requested, responded, step, stepped, waits, Dir,
};
use crate::meta::RuleView;
use crate::plane::PlanesView;
use crate::qr::{aligned, law_stream_never_rewinds, seq_add, seq_diff, QrParams, SeqStream};
use crate::table::{Key2, Key3, PendingKey};
use crate::wal::{IndexedRecord, TCP_ACK, TCP_FIN, TCP_RST, TCP_SYN, WalRecord};
use vstd::prelude::*;

verus! {

/// `pos` is where a sequence number stands: the one place with that number less than half the circle away
/// from the head.
pub open spec fn stands_at(s: SeqStream, seq: u32, pos: int) -> bool {
    &&& pos % 0x1_0000_0000 == seq
    &&& -0x8000_0000 <= pos - s.last_abs < 0x8000_0000
}

proof fn lemma_stands(s: SeqStream, seq: u32, pos: int)
    requires
        s.active,
        aligned(s),
        stands_at(s, seq, pos),
    ensures
        seq_diff(seq, s.last_raw) == pos - s.last_abs,
{
    let a = s.last_abs as int;
    let (p, q) = (a / 0x1_0000_0000, pos / 0x1_0000_0000);
    assert(a == p * 0x1_0000_0000 + s.last_raw);
    assert(pos == q * 0x1_0000_0000 + seq);
    let k = q - p;
    assert(pos - a == k * 0x1_0000_0000 + seq - s.last_raw);
    assert(k == 0 || k == 1 || k == -1);
}

/// A stream follows the positions of its packets. Data at `pos` moves the head to its end, or nowhere if it
/// ends behind the head; what is new of it starts at the head or at `pos`, whichever is further, and reaches
/// to its end. An acknowledgement counts as its position, or as the head if it lies behind.
#[verifier::rlimit(60)]
pub proof fn law_stream_follows_positions(s: SeqStream, seq: u32, len: u32, pos: int)
    requires
        s.active,
        aligned(s),
        s.last_abs <= U48_MAX,
        stands_at(s, seq, pos),
        len < 0x8000_0000,
    ensures
        ({
            let (t, start, fresh) = s.fed(seq, len);
            let head = s.last_abs as int;
            let from = if pos > head {
                pos
            } else {
                head
            };
            let end = pos + len;
            &&& t.last_abs == if end > head {
                end
            } else {
                head
            }
            &&& start == from
            &&& fresh == if end > from {
                end - from
            } else {
                0
            }
            &&& s.abs(seq) == from
        }),
{
    lemma_stands(s, seq, pos);
    law_stream_never_rewinds(s, seq, len);
    let d = seq_diff(seq, s.last_raw);
    if d <= 0 {
        let end = seq_add(seq, len as int);
        assert(seq_diff(end, s.last_raw) == d + len);
    }
}

/// The first packet of a stream stands at its own number.
pub proof fn law_first_packet_sets_the_stream(s: SeqStream, seq: u32, len: u32)
    requires
        !s.active,
    ensures
        ({
            let (t, start, fresh) = s.fed(seq, len);
            t.active && t.last_abs == seq + len && start == seq && fresh == len && s.abs(seq) == seq
        }),
{
}

/// A jump is marked if and only if the packet is no SYN and its place lies more than a quarter of the circle
/// away from the head of its stream.
pub proof fn law_jumps_are_marked(st: ConnState, rec: WalRecord, dir: Dir, pos: int)
    requires
        SeqStream::of(st, dir == Dir::C2S).active,
        aligned(SeqStream::of(st, dir == Dir::C2S)),
        stands_at(SeqStream::of(st, dir == Dir::C2S), rec.tcp_seq, pos),
    ensures
        ({
            let head = SeqStream::of(st, dir == Dir::C2S).last_abs;
            let far = pos - head > 0x4000_0000 || head - pos > 0x4000_0000;
            let marks = gap_marked(st, rec, dir).anomaly_flags;
            &&& far && !flagged(rec, TCP_SYN) ==> marks == st.anomaly_flags | 0x100
            &&& !far || flagged(rec, TCP_SYN) ==> marks == st.anomaly_flags
        }),
{
    lemma_stands(SeqStream::of(st, dir == Dir::C2S), rec.tcp_seq, pos);
}

/// The two ends of a connection are those of the packet that it was first seen with: the sender is the
/// client, and both times are the packet's.
pub proof fn law_first_sender_is_the_client(rec: WalRecord)
    ensures
        ({
            let st = fresh_state(rec);
            &&& st.client_ip == address(rec.src_ip@)
            &&& st.client_port == rec.src_port
            &&& st.server_ip == address(rec.dst_ip@)
            &&& st.server_port == rec.dst_port
            &&& rec.proto < 256 ==> st.proto == rec.proto
            &&& st.first_ts == rec.timestamp_ns
            &&& st.last_ts == rec.timestamp_ns
            &&& st.pkts_c == 0 && st.pkts_s == 0 && st.bytes_c == 0 && st.bytes_s == 0
            &&& st.req_cnt == 0 && st.resp_cnt == 0 && st.qr_open == 0
            &&& st.incarnation == 0
            &&& !st.has_c() && !st.has_s()
        }),
{
    crate::laws::records::lemma_address(rec.src_ip);
    crate::laws::records::lemma_address(rec.dst_ip);
}

/// A packet sent the other way: the two ends are swapped, the device and the protocol are the same.
pub open spec fn reply_to(r: IndexedRecord, a: IndexedRecord) -> bool {
    &&& r.dev_id == a.dev_id
    &&& r.rec.proto == a.rec.proto
    &&& r.rec.src_ip@ == a.rec.dst_ip@
    &&& r.rec.dst_ip@ == a.rec.src_ip@
    &&& r.rec.src_port == a.rec.dst_port
    &&& r.rec.dst_port == a.rec.src_port
}

/// A packet sent the same way.
pub open spec fn follows(r: IndexedRecord, a: IndexedRecord) -> bool {
    &&& r.dev_id == a.dev_id
    &&& r.rec.proto == a.rec.proto
    &&& r.rec.src_ip@ == a.rec.src_ip@
    &&& r.rec.dst_ip@ == a.rec.dst_ip@
    &&& r.rec.src_port == a.rec.src_port
    &&& r.rec.dst_port == a.rec.dst_port
}

/// Both directions of an exchange belong to one connection: a later packet the same way is found on the same
/// connection and side, and a reply on the same connection from the other side, unless the reply's own
/// direction has become a connection of its own.
#[verifier::rlimit(60)]
pub proof fn law_replies_meet_their_requests(
    pl: PlanesView,
    a: IndexedRecord,
    b: IndexedRecord,
    par: QrParams,
    rules: Option<Seq<RuleView>>,
    high: bool,
)
    requires
        a.rec.proto == 6,
        pl.live.pending.dom().finite(),
        side_is_client(pl, a),
    ensures
        ({
            let q = step(pl, a, par, rules, high).pl;
            let h = located(pl.live.conns, a).0;
            &&& q.live.conns.contains_key(h)
            &&& follows(b, a) ==> located(q.live.conns, b) == (h, Dir::C2S, q.live.conns[h])
            &&& reply_to(b, a) && !q.live.conns.contains_key(hash_forward(b)) ==> located(q.live.conns, b) == (h, Dir::S2C, q.live.conns[h])
        }),
{
    assert(follows(b, a) ==> b.rec.src_ip =~= a.rec.src_ip && b.rec.dst_ip =~= a.rec.dst_ip);
    assert(reply_to(b, a) ==> b.rec.src_ip =~= a.rec.dst_ip && b.rec.dst_ip =~= a.rec.src_ip);
    assert(follows(b, a) ==> hash_forward(b) == hash_forward(a));
    assert(reply_to(b, a) ==> hash_backward(b) == hash_forward(a));
}

/// The sender of a packet is taken for the client.
pub open spec fn side_is_client(pl: PlanesView, r: IndexedRecord) -> bool {
    located(pl.live.conns, r).1 == Dir::C2S
}

/// The fields of a connection that only count and date its packets, after a packet of `dir` at `ts` with
/// `len` bytes on the wire.
pub open spec fn counted_on(a: ConnState, b: ConnState, r: IndexedRecord, dir: Dir) -> bool {
    let rec = r.rec;
    let (syn, fin) = (flagged(rec, TCP_SYN), flagged(rec, TCP_FIN));
    &&& b.last_ts == rec.timestamp_ns
    &&& b.first_ts == a.first_ts
    &&& b.client_ip == a.client_ip && b.client_port == a.client_port && b.server_ip == a.server_ip && b.server_port == a.server_port && b.proto
        == a.proto
    &&& dir == Dir::C2S ==> {
        &&& a.pkts_c < u64::MAX ==> b.pkts_c == a.pkts_c + 1
        &&& a.bytes_c + rec.orig_payload_len <= u64::MAX ==> b.bytes_c == a.bytes_c + rec.orig_payload_len
        &&& b.pkts_s == a.pkts_s && b.bytes_s == a.bytes_s
        &&& b.resp_cnt == a.resp_cnt
        &&& b.syn_seen == if syn {
            rec.timestamp_ns
        } else {
            a.syn_seen
        }
        &&& b.synack_seen == a.synack_seen
    }
    &&& dir == Dir::S2C ==> {
        &&& a.pkts_s < u64::MAX ==> b.pkts_s == a.pkts_s + 1
        &&& a.bytes_s + rec.orig_payload_len <= u64::MAX ==> b.bytes_s == a.bytes_s + rec.orig_payload_len
        &&& b.pkts_c == a.pkts_c && b.bytes_c == a.bytes_c
        &&& b.req_cnt == a.req_cnt
        &&& b.synack_seen == if syn {
            rec.timestamp_ns
        } else {
            a.synack_seen
        }
        &&& b.syn_seen == a.syn_seen
    }
    &&& b.fin_seen == if fin {
        rec.timestamp_ns
    } else {
        a.fin_seen
    }
    &&& b.rst_seen == a.rst_seen
}

#[verifier::rlimit(60)]
proof fn lemma_exchange_counts(
    pl: PlanesView,
    h: u64,
    st: ConnState,
    r: IndexedRecord,
    dir: Dir,
    par: QrParams,
    rules: Option<Seq<RuleView>>,
    high: bool,
)
    ensures
        counted_on(st, exchanged(pl, h, st, r, dir, par, rules, high).st, r, dir),
        ({
            let b = exchanged(pl, h, st, r, dir, par, rules, high).st;
            &&& b.state == shaken(st.state, r.rec, dir)
            &&& b.incarnation == st.incarnation
        }),
{
    let c0 = SeqStream::of(st, true);
    let s0 = SeqStream::of(st, false);
    let st2 = counted(handshake(st, r, dir), r.rec, dir);
    match dir {
        Dir::C2S => {
            let (c, start, fresh) = c0.fed(r.rec.tcp_seq, r.rec.orig_payload_len);
            let g = requested(pl, h, st2, r, start, fresh, rules, high);
            assert(counted_on(st, g.st, r, dir));
        },
        Dir::S2C => {
            let (s, start, fresh) = s0.fed(r.rec.tcp_seq, r.rec.orig_payload_len);
            let g = responded(pl, h, st2, r, c0, fresh, par);
            assert(counted_on(st, g.st, r, dir));
        },
    }
}

/// The handshake by its state codes: a SYN of the client leads to 0, a SYN of the server from there to 1, an
/// acknowledgement of the client from there to 2; anything else changes nothing.
pub open spec fn shaken(state: u8, rec: WalRecord, dir: Dir) -> u8 {
    if flagged(rec, TCP_SYN) && dir == Dir::C2S {
        0
    } else if flagged(rec, TCP_SYN) && state == 0 {
        1
    } else if !flagged(rec, TCP_SYN) && flagged(rec, TCP_ACK) && dir == Dir::C2S && state == 1 {
        2
    } else {
        state
    }
}

/// Every packet of a connection is counted and dated on its own side. A reset is not counted: it dates
/// itself and puts the connection in state 4. Any other packet moves the state as the handshake goes, unless
/// it closes the connection, state 3, or is a request too many, state 7.
#[verifier::rlimit(60)]
pub proof fn law_packets_are_counted_and_dated(pl: PlanesView, r: IndexedRecord, par: QrParams, rules: Option<Seq<RuleView>>, high: bool)
    requires
        r.rec.proto == 6,
    ensures
        ({
            let (h, dir, a) = located(pl.live.conns, r);
            let b = step(pl, r, par, rules, high).pl.live.conns[h];
            let from = if is_rebirth(a, r, dir) {
                6u8
            } else {
                a.state
            };
            if flagged(r.rec, TCP_RST) {
                &&& b.state == 4
                &&& b.rst_seen == r.rec.timestamp_ns
                &&& b.pkts_c == a.pkts_c && b.pkts_s == a.pkts_s && b.bytes_c == a.bytes_c && b.bytes_s == a.bytes_s
                &&& b.last_ts == a.last_ts && b.first_ts == a.first_ts
            } else {
                &&& counted_on(a, b, r, dir)
                &&& b.state == shaken(from, r.rec, dir) || b.state == 3 && flagged(r.rec, TCP_FIN) || b.state == 7
                &&& b.state == 7 && shaken(from, r.rec, dir) != 7 ==> dir == Dir::C2S && r.rec.orig_payload_len > 0
            }
        }),
{
    let p0 = recorded(pl, r);
    let (h, dir, st) = located(pl.live.conns, r);
    let (p1, s1) = after_rebirth(p0, h, st, r, dir);
    if !flagged(r.rec, TCP_RST) {
        lemma_exchange_counts(p1, h, s1, r, dir, par, rules, high);
        let g = exchanged(p1, h, s1, r, dir, par, rules, high);
        let c = concluded(g, h, s1, r, par);
        assert(counted_on(s1, c.st, r, dir));
        assert(stepped(p0, h, st, r, dir, par, rules, high).st == c.st);
        lemma_flood_needs_data(p1, h, s1, r, dir, par, rules, high);
    } else {
        let m = moved(p1, h, s1, r, dir, par, rules, high);
        assert(stepped(p0, h, st, r, dir, par, rules, high).st == m.st);
    }
}

proof fn lemma_flood_needs_data(
    pl: PlanesView,
    h: u64,
    st: ConnState,
    r: IndexedRecord,
    dir: Dir,
    par: QrParams,
    rules: Option<Seq<RuleView>>,
    high: bool,
)
    ensures
        exchanged(pl, h, st, r, dir, par, rules, high).st.qr_open > st.qr_open ==> dir == Dir::C2S && r.rec.orig_payload_len > 0,
{
    let c0 = SeqStream::of(st, true);
    let s0 = SeqStream::of(st, false);
    let st2 = counted(handshake(st, r, dir), r.rec, dir);
    match dir {
        Dir::C2S => {
            let (c, start, fresh) = c0.fed(r.rec.tcp_seq, r.rec.orig_payload_len);
            let g = requested(pl, h, st2, r, start, fresh, rules, high);
            assert(r.rec.orig_payload_len == 0 ==> g.st.qr_open == st.qr_open);
        },
        Dir::S2C => {
            let (s, start, fresh) = s0.fed(r.rec.tcp_seq, r.rec.orig_payload_len);
            let g = responded(pl, h, st2, r, c0, fresh, par);
            assert(g.st.qr_open <= st.qr_open);
        },
    }
}

/// A new SYN outside a handshake opens the next incarnation: it comes on a stream that has a baseline, with
/// another number than the head, or on a connection that is closed, reset or timed out, and is not the SYN of
/// the present incarnation.
pub proof fn law_new_syn_opens_an_incarnation(st: ConnState, r: IndexedRecord, dir: Dir)
    requires
        flagged(r.rec, TCP_SYN),
        SeqStream::of(st, dir == Dir::C2S).active,
    ensures
        is_rebirth(st, r, dir) <==> {
            &&& st.state != 0
            &&& st.state != 1
            &&& r.rec.tcp_seq != SeqStream::of(st, dir == Dir::C2S).last_raw || st.state == 3 || st.state == 4 || st.state == 5
            &&& r.file_id * 0x1_0000_0000 + r.offset != st.syn_pkt_idx
        },
{
}

/// New data of the client past what was acknowledged opens a request, and nothing else does. The request
/// stands under the locator of its packet in the live plane and in every index: by connection and time, by
/// time, by packet, by the end of its data and by the time it is due to be looked at.
#[verifier::rlimit(60)]
pub proof fn law_new_data_opens_a_request(
    pl: PlanesView,
    h: u64,
    st: ConnState,
    r: IndexedRecord,
    start: u64,
    fresh: u32,
    rules: Option<Seq<RuleView>>,
    high: bool,
)
    requires
        !pl.live.pairs.contains_key(r.loc()),
        start + fresh <= U48_MAX,
    ensures
        ({
            let g = requested(pl, h, st, r, start, fresh, rules, high);
            let idx = (r.file_id * 0x1_0000_0000 + r.offset) as u64;
            let ts = r.rec.timestamp_ns;
            let end = (start + fresh) as u64;
            if r.rec.orig_payload_len > 0 && fresh > 0 && start + fresh > st.consumed_ack_s {
                let p = g.pl.live.pairs[idx];
                &&& waits(g.pl.live, idx)
                &&& p.status == 0
                &&& p.conn_hash == h
                &&& p.q_ts == ts
                &&& p.q_len == r.rec.orig_payload_len
                &&& p.abs_q_seq == start
                &&& p.abs_q_end == start + fresh
                &&& p.q_idx == seq![idx]
                &&& p.r_ts == 0 && p.latency_ms == 0 && p.r_len == 0 && p.r_idx.len() == 0 && p.resp_key.len() == 0
                &&& rules is None ==> p.req_key.len() <= 32 && p.req_key.is_prefix_of(r.rec.payload@) && (p.req_key.len() < 32 ==> p.req_key
                    == r.rec.payload@) && p.pseudo == 0
                &&& g.pl.live.pending.contains_key(PendingKey { conn: h, inc: st.incarnation, end })
                &&& g.pl.live.ttl.contains_key(Key2 { a: ts, b: h })
                &&& g.pl.epoch.conn_qr.contains_key(Key3 { a: h, b: ts, c: idx })
                &&& g.pl.epoch.qr_time.contains_key(Key2 { a: ts, b: idx })
                &&& g.pl.epoch.packet_qr.contains_key(idx)
                &&& !pl.epoch.packet_qr.contains_key(idx) ==> g.pl.epoch.packet_qr[idx] == idx
                &&& st.req_cnt < u64::MAX ==> g.st.req_cnt == st.req_cnt + 1
                &&& st.qr_open < u64::MAX ==> g.st.qr_open == st.qr_open + 1
            } else {
                &&& g.pl == pl
                &&& g.st.req_cnt == st.req_cnt
                &&& g.st.qr_open == st.qr_open
                &&& r.rec.orig_payload_len > 0 ==> g.st.anomaly_flags == st.anomaly_flags | 0x80
            }
        }),
{
}

/// Seconds in nanoseconds.
pub open spec fn secs(n: u64) -> int {
    n * 1_000_000_000
}

/// A request times out exactly when it has waited for the timeout; where a FIN came at or after it, exactly
/// when the shorter of that and the short wait from the FIN is over. The short wait counts only where it is
/// set and below the timeout.
#[verifier::rlimit(60)]
pub proof fn law_requests_time_out_on_time(pl: PlanesView, now: u64, timeout: u64, fin_wait: u64, key: Key2)
    requires
        pl.live.ttl.dom().finite(),
        pl.live.ttl.contains_key(key),
        timeout > 0,
        key.a + secs(timeout) <= u64::MAX,
        state_of(pl.live.conns, key.b).fin_seen + secs(timeout) <= u64::MAX,
    ensures
        ({
            let q = ttl_scan(pl, now, timeout, fin_wait).pl;
            let fin = state_of(pl.live.conns, key.b).fin_seen;
            let short = if 0 < fin_wait < timeout {
                secs(fin_wait)
            } else {
                secs(timeout)
            };
            let due = if fin > 0 && key.a <= fin && fin + short < key.a + secs(timeout) {
                fin + short
            } else {
                key.a + secs(timeout)
            };
            q.live.ttl.contains_key(key) <==> now < due
        }),
{
    law_timeouts_strike_when_due(pl, now, timeout, fin_wait, key);
}

/// TCP flags are single bits: FIN weighs 1, SYN 2, RST 4, ACK 16.
pub proof fn law_flags_are_bits(rec: WalRecord)
    ensures
        flagged(rec, TCP_FIN) <==> rec.tcp_flags % 2 == 1,
        flagged(rec, TCP_SYN) <==> (rec.tcp_flags / 2) % 2 == 1,
        flagged(rec, TCP_RST) <==> (rec.tcp_flags / 4) % 2 == 1,
        flagged(rec, TCP_ACK) <==> (rec.tcp_flags / 16) % 2 == 1,
{
    let f = rec.tcp_flags;
    assert((f & 1u8 != 0 <==> f % 2 == 1) && (f & 2u8 != 0 <==> (f / 2) % 2 == 1) && (f & 4u8 != 0 <==> (f / 4) % 2 == 1) && (f & 16u8 != 0 <==> (f
        / 16) % 2 == 1)) by (bit_vector);
}

/// A new request is filed under its own locator in every index where its key is free, and in the index of
/// keys under the hash of its request key.
#[verifier::rlimit(60)]
pub proof fn law_request_is_filed_everywhere(pl: PlanesView, h: u64, inc: u16, p: QrPairView, idx: u64)
    requires
        p.abs_q_end <= U48_MAX,
    ensures
        ({
            let q = crate::matching::with_request(pl, h, inc, p, idx);
            let row = PendingKey { conn: h, inc, end: p.abs_q_end };
            let due = Key2 { a: p.q_ts, b: h };
            let by_key = Key3 { a: crate::connection::fnv(p.req_key), b: p.q_ts, c: idx };
            let by_conn = Key3 { a: h, b: p.q_ts, c: idx };
            let by_time = Key2 { a: p.q_ts, b: idx };
            &&& q.live.pairs.contains_key(idx) && q.live.pending.contains_key(row) && q.live.ttl.contains_key(due)
            &&& q.epoch.qr_key.contains_key(by_key) && q.epoch.conn_qr.contains_key(by_conn) && q.epoch.qr_time.contains_key(by_time)
                && q.epoch.packet_qr.contains_key(idx)
            &&& !pl.live.pairs.contains_key(idx) ==> q.live.pairs[idx] == p
            &&& !pl.live.pending.contains_key(row) ==> q.live.pending[row].q_first_idx == idx && q.live.pending[row].q_ts == p.q_ts
                && q.live.pending[row].q_len == p.q_len
            &&& !pl.live.ttl.contains_key(due) ==> q.live.ttl[due].q_first_idx == idx && q.live.ttl[due].abs_q_end == p.abs_q_end
            &&& !pl.epoch.qr_key.contains_key(by_key) ==> q.epoch.qr_key[by_key] == idx
            &&& !pl.epoch.conn_qr.contains_key(by_conn) ==> q.epoch.conn_qr[by_conn] == idx
            &&& !pl.epoch.qr_time.contains_key(by_time) ==> q.epoch.qr_time[by_time] == idx
            &&& !pl.epoch.packet_qr.contains_key(idx) ==> q.epoch.packet_qr[idx] == idx
            &&& q.epoch.pairs == pl.epoch.pairs && q.epoch.record_ts == pl.epoch.record_ts && q.live.conns == pl.live.conns
        }),
{
    assert(p.abs_q_end % 0x1_0000_0000_0000 == p.abs_q_end);
}

} // verus!
