//! What is matched, bound, archived, counted and audited.

use crate::anomaly::{look, Sweep};
use crate::codec::{from_be, lemma_be_len, lemma_be_round_trip, lemma_pow256_values};
use crate::connection::{conn_hash_of, ConnState};
use crate::db::{QrStatus, U48_MAX};
use crate::device::{concerns, conn_end, request_end, segment_lost, Cause};
use crate::ingest::live::{
    after_batch, after_chunk, after_event, after_seal, chunks_placed, failures, place_all, ActionView,
    ChunkFrame, IngestView, SealFrame, Stats,
};
use crate::laws::counts::{linked, row_linked, row_of_request, tidy};
use crate::laws::states::stands_at;
use crate::laws::{in_reach, law_ack_consumes_cumulatively, lemma_concluded_grown, run};
use crate::batch::{run_events, run_prints};
use crate::ledger::{where_text, AnomalyView};
use crate::matching::{
    closed, concluded, condition_marked, conn_event, consumed, counted, exchanged, flagged, flooded,
    gap_marked, handshake, is_open, is_rebirth, keyed, located, low48, moved, pending_upto, reborn, recorded,
    reset, responded, sat_add, step, Dir, Stage,
};
use crate::meta::{binding, PrintView, RuleView};
use crate::plane::PlanesView;
use crate::qr::{archives, QrParams, SeqStream};
use crate::reassembly::{placed, sealed, EventView, Model};
use crate::table::PendingKey;
use crate::text::dec;
use crate::wal::{IndexedRecord, TCP_FIN, TCP_RST, TCP_SYN};
use vstd::prelude::*;

verus! {

/// The point of the client stream that an acknowledgement reaches: its own place, or the head of the stream
/// if that lies further.
pub open spec fn reach_of(s: SeqStream, pos: int) -> int {
    if pos > s.last_abs {
        pos
    } else {
        s.last_abs as int
    }
}

/// A packet of the server answers every open request of its connection that ends within what it acknowledges
/// and the tolerance, and no other. Each such request leaves the open ones and is matched in history, with the
/// answer told. An acknowledgement counts up to 64 megabytes ahead of the client stream, and once.
#[verifier::rlimit(60)]
pub proof fn law_answer_matches_what_it_acknowledges(
    pl: PlanesView,
    r: IndexedRecord,
    par: QrParams,
    rules: Option<Seq<RuleView>>,
    high: bool,
    pos: int,
    id: u64,
)
    requires
        tidy(pl.live),
        r.rec.proto == 6,
        !flagged(r.rec, TCP_RST),
        !flagged(r.rec, TCP_SYN),
        located(pl.live.conns, r).1 == Dir::S2C,
        ({
            let st = located(pl.live.conns, r).2;
            let c = SeqStream::of(st, true);
            &&& c.active
            &&& stands_at(c, r.rec.tcp_ack, pos)
            &&& reach_of(c, pos) <= c.last_abs + 0x400_0000
            &&& reach_of(c, pos) > st.consumed_ack_s
        }),
        pl.live.pairs.contains_key(id),
        pl.live.pairs[id].conn_hash == located(pl.live.conns, r).0,
        pl.live.pairs[id].abs_q_end <= U48_MAX,
        !pl.epoch.pairs.contains_key(id),
    ensures
        ({
            let q = step(pl, r, par, rules, high).pl;
            let st = located(pl.live.conns, r).2;
            let limit = reach_of(SeqStream::of(st, true), pos) + par.ack_tolerance;
            let p = pl.live.pairs[id];
            &&& p.abs_q_end <= limit ==> {
                &&& !q.live.pairs.contains_key(id)
                &&& q.epoch.pairs.contains_key(id)
                &&& q.epoch.pairs[id].status == 1
            }
            &&& p.abs_q_end > limit && !flagged(r.rec, TCP_FIN) ==> q.live.pairs.contains_key(id) && q.live.pairs[id] == p
        }),
{
    let p0 = recorded(pl, r);
    let (h, dir, st) = located(pl.live.conns, r);
    assert(!is_rebirth(st, r, dir));
    let s1 = condition_marked(gap_marked(st, r.rec, dir), r.rec);
    let c0 = SeqStream::of(s1, true);
    assert(c0 == SeqStream::of(st, true));
    assert(pl.live.conns.contains_key(h));
    assert(crate::laws::counts::state_exact(pl.live, pl.live.conns[h], h));
    crate::laws::states::law_stream_follows_positions(c0, r.rec.tcp_ack, 0, pos);
    let abs_ack = c0.abs(r.rec.tcp_ack);
    assert(abs_ack == reach_of(c0, pos));
    let s0 = SeqStream::of(s1, false);
    let (s, start, fresh) = s0.fed(r.rec.tcp_seq, r.rec.orig_payload_len);
    let st2 = counted(handshake(s1, r, dir), r.rec, dir);
    let st3 = if fresh > 0 {
        ConnState { resp_cnt: sat_add(st2.resp_cnt, 1), ..st2 }
    } else {
        st2
    };
    let g0 = consumed(p0, h, st3, r, abs_ack, par);
    assert(responded(p0, h, st2, r, c0, fresh, par) == g0);
    let g = exchanged(p0, h, s1, r, dir, par, rules, high);
    assert(g.pl == g0.pl);
    assert(g.st.qr_open <= s1.qr_open);
    law_ack_consumes_cumulatively(p0, h, st3, r, abs_ack, par);
    let limit = sat_add(abs_ack, par.ack_tolerance as u64);
    let key = row_of_request(pl.live, pl.live.conns, id);
    assert(pl.live.pending.contains_key(key));
    assert(pl.live.pending[key].q_first_idx == id);
    assert(row_linked(pl.live, pl.live.conns, key));
    assert(low48(pl.live.pairs[id].abs_q_end) == pl.live.pairs[id].abs_q_end) by {
        let e = pl.live.pairs[id].abs_q_end;
        assert(e % 0x1_0000_0000_0000 == e);
    }
    assert(key.end == pl.live.pairs[id].abs_q_end);
    assert(p0.live.pending.contains_key(key));
    assert(is_open(p0, id));
    let c = concluded(g, h, s1, r, par);
    let m = moved(p0, h, s1, r, dir, par, rules, high);
    assert(m == c);
    let q = step(pl, r, par, rules, high).pl;
    assert(q.live.pairs == c.pl.live.pairs && q.epoch == c.pl.epoch);
    lemma_concluded_grown(g, h, s1, r, par);
    if pl.live.pairs[id].abs_q_end <= reach_of(c0, pos) + par.ack_tolerance {
        assert(in_reach(key, h, st3.incarnation, limit));
        assert(!g.pl.live.pairs.contains_key(id));
        assert(g.pl.epoch.pairs.contains_key(id) && g.pl.epoch.pairs[id].status == QrStatus::Matched.code());
        lemma_closing_opens_nothing(g, h, s1, r, par, id);
    } else if !flagged(r.rec, TCP_FIN) {
        assert(c.pl == g.pl);
        lemma_unacknowledged_stays(p0, h, st3, r, abs_ack, par, pl.live.conns, id);
    }
}

proof fn lemma_closing_opens_nothing(g: Stage, h: u64, before: ConnState, r: IndexedRecord, par: QrParams, id: u64)
    requires
        !g.pl.live.pairs.contains_key(id),
    ensures
        !concluded(g, h, before, r, par).pl.live.pairs.contains_key(id),
{
    let keys = pending_upto(g.pl.live.pending, h, g.st.incarnation, U48_MAX);
    lemma_close_opens_nothing(g.pl, keys, crate::matching::Outcome::Closed { status: QrStatus::Unmatched }, keys.len(), id);
    lemma_close_opens_nothing(g.pl, keys, crate::matching::Outcome::Closed { status: QrStatus::AbortedResource }, keys.len(), id);
}

proof fn lemma_close_opens_nothing(pl: PlanesView, keys: Seq<PendingKey>, how: crate::matching::Outcome, n: nat, id: u64)
    requires
        !pl.live.pairs.contains_key(id),
    ensures
        !crate::matching::close_all(pl, keys, how, n).live.pairs.contains_key(id),
    decreases n,
{
    if n > 0 {
        lemma_close_opens_nothing(pl, keys, how, (n - 1) as nat, id);
    }
}

#[verifier::rlimit(60)]
proof fn lemma_unacknowledged_stays(
    pl: PlanesView,
    h: u64,
    st: ConnState,
    r: IndexedRecord,
    abs_ack: u64,
    par: QrParams,
    conns: Map<u64, ConnState>,
    id: u64,
)
    requires
        linked(pl.live, conns),
        pl.live.pairs.contains_key(id),
        row_of_request(pl.live, conns, id).end > sat_add(abs_ack, par.ack_tolerance as u64),
    ensures
        ({
            let q = consumed(pl, h, st, r, abs_ack, par).pl;
            q.live.pairs.contains_key(id) && q.live.pairs[id] == pl.live.pairs[id]
        }),
{
    let (inc, limit) = (st.incarnation, sat_add(abs_ack, par.ack_tolerance as u64));
    let rows = pending_upto(pl.live.pending, h, inc, limit);
    let keys = crate::matching::still_open(pl.live, rows);
    let how = crate::matching::Outcome::Matched { r, ids: crate::matching::ids_of(pl.live.pending, keys) };
    crate::laws::lemma_pending_upto(pl, h, inc, limit);
    crate::qr::lemma_still_open(pl.live, rows);
    assert forall|i: int| 0 <= i < keys.len() implies pl.live.pending.contains_key(#[trigger] keys[i]) && keys[i].end <= limit by {
        assert(keys.contains(keys[i]));
        let j = choose|j: int| 0 <= j < rows.len() && rows[j] == keys[i];
        assert(pl.live.pending.contains_key(rows[j]));
    }
    lemma_close_spares(pl, keys, how, keys.len(), conns, id);
}

/// Closing rows leaves every request alone that waits under another row.
proof fn lemma_close_spares(
    pl: PlanesView,
    keys: Seq<PendingKey>,
    how: crate::matching::Outcome,
    n: nat,
    conns: Map<u64, ConnState>,
    id: u64,
)
    requires
        linked(pl.live, conns),
        pl.live.pairs.contains_key(id),
        n <= keys.len(),
        forall|i: int| 0 <= i < keys.len() ==> pl.live.pending.contains_key(#[trigger] keys[i]) && keys[i] != row_of_request(pl.live, conns, id),
        forall|i: int, j: int| 0 <= i < j < keys.len() ==> keys[i] != keys[j],
    ensures
        ({
            let q = crate::matching::close_all(pl, keys, how, n);
            q.live.pairs.contains_key(id) && q.live.pairs[id] == pl.live.pairs[id]
        }),
    decreases n,
{
    if n > 0 {
        let m = (n - 1) as nat;
        lemma_close_spares(pl, keys, how, m, conns, id);
        crate::laws::lemma_close_all(pl, keys, how, m);
        let p = crate::matching::close_all(pl, keys, how, m);
        let key = keys[m as int];
        assert(!crate::laws::among(keys, m, key));
        assert(p.live.pending.contains_key(key));
        assert(row_linked(pl.live, conns, key));
        let x = pl.live.pending[key].q_first_idx;
        if x == id {
            assert(key == row_of_request(pl.live, conns, id));
        }
    }
}

/// A server packet counts as a response if and only if it brings new data.
pub proof fn law_responses_are_counted(pl: PlanesView, h: u64, st: ConnState, r: IndexedRecord, client: SeqStream, fresh: u32, par: QrParams)
    requires
        st.resp_cnt < u64::MAX,
    ensures
        ({
            let g = responded(pl, h, st, r, client, fresh, par);
            g.st.resp_cnt == st.resp_cnt + (if fresh > 0 {
                1int
            } else {
                0
            }) && g.st.req_cnt == st.req_cnt
        }),
{
}

/// The first request of a connection binds it, once: the connection takes the rule and the protocol of the
/// binding, the request takes its key, and one fingerprint is handed out. A bound connection keeps both and
/// hands out none. Without rules nothing is bound.
#[verifier::rlimit(60)]
pub proof fn law_first_request_binds_once(st: ConnState, h: u64, r: IndexedRecord, rules: Seq<RuleView>, high: bool)
    ensures
        ({
            let (key, made_up, after, prints) = keyed(st, h, r, Some(rules), high);
            let b = binding(rules, r.rec.payload@, r.rec.proto as u8, r.rec.dst_port, high);
            if st.meta_bind_id == -1 && st.protocol_hint == 0 {
                &&& after.meta_bind_id == b.meta_bind_id
                &&& after.protocol_hint == b.protocol_hint
                &&& key == b.key && made_up == b.pseudo
                &&& prints.len() == 1
                &&& prints[0].conn_hash == h
                &&& prints[0].protocol_hint == b.protocol_hint
                &&& prints[0].dst_port == r.rec.dst_port
                &&& prints[0].packet_idx == r.file_id * 0x1_0000_0000 + r.offset
                &&& prints[0].magic_prefix.is_prefix_of(r.rec.payload@)
                &&& prints[0].magic_prefix.len() == if r.rec.payload@.len() < 4 {
                    r.rec.payload@.len()
                } else {
                    4
                }
            } else {
                &&& after == st
                &&& prints.len() == 0
                &&& (key, made_up) == crate::meta::request_key(
                    r.rec.payload@,
                    crate::meta::ProtocolKind::of_code(st.protocol_hint),
                )
            }
        }),
        keyed(st, h, r, None, high).2 == st,
        keyed(st, h, r, None, high).3.len() == 0,
        !keyed(st, h, r, None, high).1,
{
}

/// A new incarnation starts its opener's stream at the SYN, leaves the other side without a baseline, and
/// keeps the counts and the binding of the connection.
pub proof fn law_rebirth_starts_afresh(pl: PlanesView, h: u64, st: ConnState, r: IndexedRecord, dir: Dir)
    ensures
        ({
            let s = reborn(pl, h, st, r, dir).st;
            let own = SeqStream::of(s, dir == Dir::C2S);
            let other = SeqStream::of(s, dir != Dir::C2S);
            &&& own.active && own.last_raw == r.rec.tcp_seq && own.last_abs == r.rec.tcp_seq
            &&& !other.active
            &&& s.syn_pkt_idx == r.file_id * 0x1_0000_0000 + r.offset
            &&& s.consumed_ack_c == 0 && s.consumed_ack_s == 0
            &&& s.pkts_c == st.pkts_c && s.pkts_s == st.pkts_s && s.bytes_c == st.bytes_c && s.bytes_s == st.bytes_s
            &&& s.req_cnt == st.req_cnt && s.resp_cnt == st.resp_cnt
            &&& s.meta_bind_id == st.meta_bind_id && s.protocol_hint == st.protocol_hint
            &&& s.first_ts == st.first_ts
        }),
{
    assert(1u8 % 2 == 1 && 2u8 % 2 == 0 && (2u8 / 2) % 2 == 1 && (1u8 / 2) % 2 == 0);
}

/// An audit row of a connection: its time, its kind, the connection in big-endian bytes, and how many
/// requests were concerned.
pub open spec fn audits(e: AnomalyView, ts: u64, kind: int, h: u64, text: Seq<char>, n: nat) -> bool {
    &&& e.ts == ts as i64
    &&& e.kind == kind
    &&& e.conn_hash is Some
    &&& e.conn_hash->0.len() == 8
    &&& from_be(e.conn_hash->0) == h
    &&& e.dev_id is None && e.segment_seq is None && e.qr_id is None
    &&& e.detail == Some(text + dec(n))
}

proof fn lemma_audits(ts: u64, kind: i64, h: u64, text: Seq<char>, n: nat)
    ensures
        audits(conn_event(ts, kind, h, text, n), ts, kind as int, h, text, n),
{
    lemma_be_len(h as nat, 8);
    lemma_pow256_values();
    lemma_be_round_trip(h as nat, 8);
}

/// Every cut is audited with its kind and the number of requests that it ended: a rebirth as 10, a reset as
/// 11, a close with requests left and a flood as 13.
pub proof fn law_cuts_are_audited(pl: PlanesView, h: u64, st: ConnState, r: IndexedRecord, dir: Dir)
    ensures
        ({
            let n = pending_upto(pl.live.pending, h, st.incarnation, U48_MAX).len();
            let ts = r.rec.timestamp_ns;
            let (a, b, c, d) = (reborn(pl, h, st, r, dir).events, reset(pl, h, st, r).events, closed(pl, h, st, r).events, flooded(
                pl,
                h,
                st,
                r,
            ).events);
            &&& a.len() == 1 && audits(a[0], ts, 10, h, "EPOCH_REBIRTH_SYN pending="@, n)
            &&& b.len() == 1 && audits(b[0], ts, 11, h, "RST cascade pending="@, n)
            &&& n == 0 ==> c.len() == 0
            &&& n > 0 ==> c.len() == 1 && audits(c[0], ts, 13, h, "CONN_CLOSED pending="@, n)
            &&& d.len() == 1 && audits(d[0], ts, 13, h, "CONN_QR_FLOOD pending="@, n)
        }),
{
    let n = pending_upto(pl.live.pending, h, st.incarnation, U48_MAX).len();
    let ts = r.rec.timestamp_ns;
    lemma_audits(ts, 10, h, "EPOCH_REBIRTH_SYN pending="@, n);
    lemma_audits(ts, 11, h, "RST cascade pending="@, n);
    lemma_audits(ts, 13, h, "CONN_CLOSED pending="@, n);
    lemma_audits(ts, 13, h, "CONN_QR_FLOOD pending="@, n);
}

/// A timeout moves an open request to history as timed out, status 2, and audits it as kind 12 with its
/// locator and its connection; one row of the timeout index that is due audits at most one request.
#[verifier::rlimit(60)]
pub proof fn law_timeout_is_audited(s: Sweep, key: crate::table::Key2, now: u64, wait: u64, short: u64)
    requires
        s.pl.live.ttl.contains_key(key),
    ensures
        ({
            let t = look(s, key, now, wait, short);
            let id = s.pl.live.ttl[key].q_first_idx;
            &&& t.events.len() == s.events.len() || t.events.len() == s.events.len() + 1
            &&& t.events.len() > s.events.len() ==> {
                let e = t.events.last();
                &&& e.ts == now as i64
                &&& e.kind == 12
                &&& e.qr_id == Some(id as i64)
                &&& e.conn_hash is Some && from_be(e.conn_hash->0) == key.b
                &&& t.timed_out == s.timed_out + 1
                &&& is_open(s.pl, id)
                &&& !t.pl.live.pairs.contains_key(id)
                &&& !s.pl.epoch.pairs.contains_key(id) ==> t.pl.epoch.pairs[id].status == 2
            }
            &&& t.events.len() == s.events.len() ==> t.pl.live.pairs == s.pl.live.pairs && t.pl.epoch.pairs == s.pl.epoch.pairs && t.timed_out
                == s.timed_out
        }),
{
    lemma_be_len(key.b as nat, 8);
    lemma_pow256_values();
    lemma_be_round_trip(key.b as nat, 8);
}

/// A connection of a batch is archived if and only if it is closed, reset or timed out, with its times and
/// its state.
#[verifier::rlimit(60)]
pub proof fn law_ended_connections_are_archived(conns: Map<u64, ConnState>, hs: Seq<u64>, h: u64)
    ensures
        ({
            let rows = archives(conns, hs);
            let st = conns[h];
            &&& hs.contains(h) && conns.contains_key(h) && (st.state == 3 || st.state == 4 || st.state == 5) <==> exists|i: int|
                0 <= i < rows.len() && (#[trigger] rows[i]).conn_hash == h
            &&& forall|i: int|
                0 <= i < rows.len() && (#[trigger] rows[i]).conn_hash == h ==> rows[i].first_ts == st.first_ts && rows[i].last_ts == st.last_ts
                    && rows[i].state == st.state
        }),
    decreases hs.len(),
{
    let rows = archives(conns, hs);
    let st = conns[h];
    if hs.len() > 0 {
        let head = hs.drop_last();
        let before = archives(conns, head);
        law_ended_connections_are_archived(conns, head, h);
        assert(hs.contains(h) <==> head.contains(h) || hs.last() == h) by {
            if hs.contains(h) {
                let i = choose|i: int| 0 <= i < hs.len() && hs[i] == h;
                if i < head.len() {
                    assert(head[i] == h);
                }
            }
            if head.contains(h) {
                let i = choose|i: int| 0 <= i < head.len() && head[i] == h;
                assert(hs[i] == h);
            }
            assert(hs[hs.len() - 1] == hs.last());
        }
        assert forall|i: int| 0 <= i < rows.len() && (#[trigger] rows[i]).conn_hash == h implies rows[i].first_ts == st.first_ts && rows[i].last_ts
            == st.last_ts && rows[i].state == st.state by {
            if i < before.len() {
                assert(rows[i] == before[i]);
            }
        }
        if exists|i: int| 0 <= i < before.len() && (#[trigger] before[i]).conn_hash == h {
            let i = choose|i: int| 0 <= i < before.len() && (#[trigger] before[i]).conn_hash == h;
            assert(rows[i].conn_hash == h);
        }
        if exists|i: int| 0 <= i < rows.len() && (#[trigger] rows[i]).conn_hash == h {
            let i = choose|i: int| 0 <= i < rows.len() && (#[trigger] rows[i]).conn_hash == h;
            if i < before.len() {
                assert(before[i].conn_hash == h);
            }
        }
        if rows.len() > before.len() {
            assert(rows[rows.len() - 1].conn_hash == hs.last());
        }
    }
}

/// The quarantine of a device concerns its connections that are not closed, reset or timed out, and puts
/// them in state 7 with their mark; idleness concerns those that have had no packet for the wait and are not
/// quarantined either, and puts them in state 5.
pub proof fn law_endings_concern_the_right_connections(conns: Map<u64, ConnState>, dev: u32, wait: u64, now: u64, h: u64, n: nat)
    requires
        conns.contains_key(h),
        n <= conns[h].qr_open,
    ensures
        ({
            let st = conns[h];
            let over = st.state == 3 || st.state == 4 || st.state == 5;
            let (q, i) = (Cause::Quarantine { dev_id: dev }, Cause::Idle { wait_ns: wait });
            &&& concerns(q, conns, now, h) <==> !over && h == conn_hash_of(
                dev,
                st.client_ip,
                st.client_port,
                st.server_ip,
                st.server_port,
                st.proto,
            )
            &&& concerns(i, conns, now, h) <==> !over && st.state != 7 && st.last_ts + wait <= now
            &&& conn_end(q, st, n).state == 7 && conn_end(i, st, n).state == 5
            &&& conn_end(q, st, n).anomaly_flags == st.anomaly_flags | 0x800
            &&& n > 0 ==> conn_end(i, st, n).anomaly_flags == st.anomaly_flags | 0x008
            &&& conn_end(q, st, n).qr_open == st.qr_open - n && conn_end(i, st, n).qr_open == st.qr_open - n
            &&& request_end(q).code() == 5 && request_end(i).code() == 3
        }),
{
}

/// A lost segment marks exactly the connections that the device has under way, and touches nothing else.
pub proof fn law_lost_segment_marks_its_device(pl: PlanesView, dev: u32, h: u64)
    requires
        pl.live.conns.contains_key(h),
    ensures
        ({
            let q = segment_lost(pl, dev);
            let st = pl.live.conns[h];
            let over = st.state == 3 || st.state == 4 || st.state == 5;
            let own = h == conn_hash_of(dev, st.client_ip, st.client_port, st.server_ip, st.server_port, st.proto);
            &&& q.live.conns.contains_key(h)
            &&& own && !over ==> q.live.conns[h] == (ConnState { anomaly_flags: st.anomaly_flags | 0x001, ..st })
            &&& !own || over ==> q.live.conns[h] == st
            &&& q.live.pairs == pl.live.pairs && q.live.pending == pl.live.pending && q.live.ttl == pl.live.ttl && q.epoch == pl.epoch
        }),
{
}

/// Chunks of a frame are placed one after the other, in their order; one that does not decrypt is left out
/// and counted.
pub proof fn law_chunks_are_placed_in_order(v: Model, dev: u32, seq: u32, a: Seq<(u64, Option<Seq<u8>>)>, offset: u64, text: Seq<u8>)
    ensures
        place_all(v, dev, seq, Seq::empty()).v == v,
        place_all(v, dev, seq, Seq::empty()).events.len() == 0,
        ({
            let before = place_all(v, dev, seq, a);
            let out = placed(before.v, dev, seq, offset, text);
            let all = place_all(v, dev, seq, a.push((offset, Some(text))));
            &&& all.v == out.v
            &&& all.events == before.events + out.events
            &&& place_all(v, dev, seq, a.push((offset, None))) == before
            &&& failures(a.push((offset, Some(text)))) == failures(a)
            &&& failures(a.push((offset, None))) == failures(a) + 1
            &&& failures(Seq::empty()) == 0
        }),
{
    assert(a.push((offset, Some(text))).drop_last() =~= a);
    assert(a.push((offset, None)).drop_last() =~= a);
}

/// Frames are counted by what they are: one that could not be read as unframed, a batch and each of its
/// chunks, a reference as a chunk without data, a seal; nothing else of the intake moves with a count.
#[verifier::rlimit(60)]
pub proof fn law_frames_are_counted(s: IngestView, key: Seq<u8>, dev: u32, seq: u32, items: Seq<(u64, Option<Seq<u8>>)>, f: ChunkFrame, seal: SealFrame)
    requires
        s.stats.chunks + items.len() + 1 <= u64::MAX,
        s.stats.decrypt_failed + failures(items) <= u64::MAX,
        s.stats.seals < u64::MAX,
        s.stats.unframed_dropped < u64::MAX,
    ensures
        ({
            let t = chunks_placed(s, dev, seq, items);
            &&& t.stats.chunks == s.stats.chunks + items.len()
            &&& t.stats.decrypt_failed == s.stats.decrypt_failed + failures(items)
            &&& t.v == place_all(s.v, dev, seq, items).v
            &&& t.refills == s.refills && t.decoders == s.decoders
        }),
        after_batch(s, key, None).stats.unframed_dropped == s.stats.unframed_dropped + 1,
        after_batch(s, key, None).v == s.v,
        after_chunk(s, key, None).stats.unframed_dropped == s.stats.unframed_dropped + 1,
        after_seal(s, None).stats.unframed_dropped == s.stats.unframed_dropped + 1,
        after_seal(s, None).v == s.v,
        f.ref_only ==> after_chunk(s, key, Some(f)).v == s.v && after_chunk(s, key, Some(f)).stats.chunks == s.stats.chunks + 1,
        after_seal(s, Some(seal)).stats.seals == s.stats.seals + 1,
        after_seal(s, Some(seal)).v == sealed(s.v, seal.dev_id, seal.segment_seq, seal.sealed_size).v,
{
}

/// Every event moves its own count, by one or by its bytes, and leads to its own action: a complete segment
/// closes its file, a number passed over marks the device, a quarantine isolates it, an error is audited.
#[verifier::rlimit(60)]
pub proof fn law_events_lead_to_their_actions(s: IngestView, dev: u32, seq: u32, n: u64, size: u64, now: i64)
    requires
        s.stats.dups < u64::MAX,
        s.stats.gaps < u64::MAX,
        s.stats.seq_skips < u64::MAX,
        s.stats.quarantines < u64::MAX,
        s.stats.evict_bytes + n <= u64::MAX,
        s.stats.q_drop_bytes + n <= u64::MAX,
    ensures
        ({
            let (t, a) = after_event(s, EventView::Dup { dev_id: dev, segment_seq: seq }, now);
            a is Nothing && t.stats == (Stats { dups: (s.stats.dups + 1) as u64, ..s.stats })
        }),
        ({
            let (t, a) = after_event(s, EventView::Gap { dev_id: dev, segment_seq: seq, start_offset: n }, now);
            a is Nothing && t.stats == (Stats { gaps: (s.stats.gaps + 1) as u64, ..s.stats })
        }),
        ({
            let (t, a) = after_event(s, EventView::Evict { dev_id: dev, segment_seq: seq, offset: size, bytes: n }, now);
            a is Nothing && t.stats == (Stats { evict_bytes: (s.stats.evict_bytes + n) as u64, ..s.stats })
        }),
        ({
            let (t, a) = after_event(s, EventView::QuarantinedDrop { dev_id: dev, bytes: n }, now);
            a is Nothing && t.stats == (Stats { q_drop_bytes: (s.stats.q_drop_bytes + n) as u64, ..s.stats })
        }),
        ({
            let (t, a) = after_event(s, EventView::Sealed { dev_id: dev, segment_seq: seq, size }, now);
            a == ActionView::Close { dev_id: dev } && !t.decoders.contains_key(crate::table::Key2 { a: dev as u64, b: seq as u64 })
        }),
        ({
            let (t, a) = after_event(s, EventView::SeqSkipped { dev_id: dev, segment_seq: seq }, now);
            &&& a matches ActionView::MarkIncomplete { dev_id, row } && dev_id == dev && row.ts == now && row.dev_id == Some(dev as i64)
                && row.segment_seq == Some(seq as i64)
            &&& t.stats == (Stats { seq_skips: (s.stats.seq_skips + 1) as u64, ..s.stats })
        }),
        ({
            let (t, a) = after_event(s, EventView::Quarantine { dev_id: dev }, now);
            &&& a matches ActionView::Isolate { dev_id, row } && dev_id == dev && row.ts == now && row.dev_id == Some(dev as i64)
            &&& t.stats == (Stats { quarantines: (s.stats.quarantines + 1) as u64, ..s.stats })
        }),
        ({
            let e = EventView::SealGap { dev_id: dev, segment_seq: seq, next_expected: n, sealed_size: size };
            let (t, a) = after_event(s, e, now);
            let key = crate::table::Key2 { a: dev as u64, b: seq as u64 };
            &&& a is Nothing
            &&& t.refills.contains_key(key)
            &&& t.refills[key].sealed_size == size && t.refills[key].last_expected == n && t.refills[key].rounds == 0
            &&& t.stats == (Stats { gaps: (s.stats.gaps + 1) as u64, ..s.stats })
        }),
{
}

/// A batch may be cut anywhere: running its two parts one after the other gives the planes of the whole.
#[verifier::rlimit(60)]
pub proof fn law_batches_compose(
    pl: PlanesView,
    a: Seq<(IndexedRecord, bool)>,
    b: Seq<(IndexedRecord, bool)>,
    par: QrParams,
    rules: Option<Seq<RuleView>>,
)
    ensures
        run(pl, a + b, par, rules) == run(run(pl, a, par, rules), b, par, rules),
    decreases b.len(),
{
    if b.len() == 0 {
        assert(a + b =~= a);
    } else {
        assert((a + b).drop_last() =~= a + b.drop_last());
        assert((a + b).last() == b.last());
        law_batches_compose(pl, a, b.drop_last(), par, rules);
    }
}

/// A batch cut in two gives the audit rows and the fingerprints of the whole, in the same order.
#[verifier::rlimit(60)]
pub proof fn law_batches_report_in_order(
    pl: PlanesView,
    a: Seq<(IndexedRecord, bool)>,
    b: Seq<(IndexedRecord, bool)>,
    par: QrParams,
    rules: Option<Seq<RuleView>>,
)
    ensures
        run_events(pl, a + b, par, rules) == run_events(pl, a, par, rules) + run_events(run(pl, a, par, rules), b, par, rules),
        run_prints(pl, a + b, par, rules) == run_prints(pl, a, par, rules) + run_prints(run(pl, a, par, rules), b, par, rules),
    decreases b.len(),
{
    let x = run(pl, a, par, rules);
    let (e, f) = (run_events(pl, a, par, rules), run_prints(pl, a, par, rules));
    if b.len() == 0 {
        assert(a + b =~= a);
        assert(e + run_events(x, b, par, rules) =~= e);
        assert(f + run_prints(x, b, par, rules) =~= f);
    } else {
        let head = b.drop_last();
        assert((a + b).drop_last() =~= a + head);
        assert((a + b).last() == b.last());
        law_batches_report_in_order(pl, a, head, par, rules);
        law_batches_compose(pl, a, head, par, rules);
        let last = step(run(x, head, par, rules), b.last().0, par, rules, b.last().1);
        assert(run_events(pl, a + b, par, rules) == run_events(pl, a + head, par, rules) + last.events);
        assert(run_prints(pl, a + b, par, rules) == run_prints(pl, a + head, par, rules) + last.prints);
        assert(e + run_events(x, head, par, rules) + last.events =~= e + run_events(x, b, par, rules));
        assert(f + run_prints(x, head, par, rules) + last.prints =~= f + run_prints(x, b, par, rules));
    }
}

/// A record runs as one step, and its audit rows and fingerprints are those of the step.
#[verifier::rlimit(60)]
pub proof fn law_batch_of_one_is_a_step(pl: PlanesView, r: IndexedRecord, high: bool, par: QrParams, rules: Option<Seq<RuleView>>)
    ensures
        run(pl, seq![(r, high)], par, rules) == step(pl, r, par, rules, high).pl,
        run_events(pl, seq![(r, high)], par, rules) == step(pl, r, par, rules, high).events,
        run_prints(pl, seq![(r, high)], par, rules) == step(pl, r, par, rules, high).prints,
{
    let one = seq![(r, high)];
    let none = Seq::<(IndexedRecord, bool)>::empty();
    assert(one.drop_last() =~= none);
    assert(one.last() == (r, high));
    assert(run(pl, none, par, rules) == pl);
    assert(run_events(pl, none, par, rules) == Seq::<AnomalyView>::empty());
    assert(run_prints(pl, none, par, rules) == Seq::<PrintView>::empty());
    let e = step(pl, r, par, rules, high);
    assert(run_events(pl, one, par, rules) == Seq::<AnomalyView>::empty() + e.events);
    assert(Seq::<AnomalyView>::empty() + e.events =~= e.events);
    assert(run_prints(pl, one, par, rules) == Seq::<PrintView>::empty() + e.prints);
    assert(Seq::<PrintView>::empty() + e.prints =~= e.prints);
}

/// The conditions of an audit query stand behind one `WHERE`, with `AND` between them, in order.
pub proof fn law_conditions_are_joined(conds: Seq<Seq<char>>, c: Seq<char>)
    ensures
        where_text(Seq::empty()) == Seq::<char>::empty(),
        where_text(seq![c]) == " WHERE "@ + c,
        conds.len() > 0 ==> where_text(conds.push(c)) == where_text(conds) + " AND "@ + c,
{
    assert(conds.push(c).drop_last() =~= conds);
}

/// Every cut leaves its mark and its state: a reset mark 2 and state 4, a close state 3 and mark 8 where it
/// left requests unanswered, a flood mark 1024 and state 7. Each counts off the requests that it ended.
pub proof fn law_cuts_leave_their_marks(pl: PlanesView, h: u64, st: ConnState, r: IndexedRecord)
    ensures
        ({
            let n = pending_upto(pl.live.pending, h, st.incarnation, U48_MAX).len();
            let (a, b, c) = (reset(pl, h, st, r).st, closed(pl, h, st, r).st, flooded(pl, h, st, r).st);
            &&& a.state == 4 && a.anomaly_flags == st.anomaly_flags | 0x002 && a.rst_seen == r.rec.timestamp_ns
            &&& b.state == 3
            &&& n > 0 ==> b.anomaly_flags == st.anomaly_flags | 0x008
            &&& n == 0 ==> b.anomaly_flags == st.anomaly_flags
            &&& c.state == 7 && c.anomaly_flags == st.anomaly_flags | 0x400
            &&& n <= st.qr_open ==> a.qr_open == st.qr_open - n && b.qr_open == st.qr_open - n && c.qr_open == st.qr_open - n
        }),
{
}

/// A handshake leaves its marks: 16 for a SYN of the client, 32 for a FIN of either side; a connection first
/// seen without a SYN is half-open, mark 4.
pub proof fn law_handshake_leaves_its_marks(st: ConnState, r: IndexedRecord, dir: Dir)
    ensures
        ({
            let a = handshake(st, r, dir);
            let syn = flagged(r.rec, TCP_SYN) && dir == Dir::C2S;
            let fin = flagged(r.rec, TCP_FIN);
            &&& syn && !fin ==> a.anomaly_flags == st.anomaly_flags | 0x010
            &&& !syn && fin ==> a.anomaly_flags == st.anomaly_flags | 0x020
            &&& syn && fin ==> a.anomaly_flags == (st.anomaly_flags | 0x010) | 0x020
            &&& !syn && !fin ==> a.anomaly_flags == st.anomaly_flags
            &&& crate::matching::fresh_state(r.rec).anomaly_flags == if flagged(r.rec, TCP_SYN) {
                0u32
            } else {
                4u32
            }
        }),
{
}

/// The budget of open requests: the request that reaches it puts the connection in quarantine, one below it
/// does not, and no other packet does.
pub proof fn law_budget_is_the_limit(g: Stage, h: u64, before: ConnState, r: IndexedRecord, par: QrParams)
    requires
        !flagged(r.rec, TCP_FIN),
    ensures
        ({
            let c = concluded(g, h, before, r, par);
            &&& g.st.qr_open > before.qr_open && g.st.qr_open >= par.pending_budget ==> c.st.state == 7
            &&& g.st.qr_open <= before.qr_open || g.st.qr_open < par.pending_budget ==> c == g
        }),
{
}

} // verus!
