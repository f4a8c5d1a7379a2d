//! The count of open requests that a connection carries is exact.

use crate::anomaly::{due_rows, look, looked, row_for, rows_of, short_wait, state_of, ttl_scan, Sweep};
use crate::connection::ConnState;
use crate::db::{QrPairView, QrStatus, U48_MAX};
use crate::device::{all_conns, all_ended, concerns, ended_upto, segment_lost, Cause};
use crate::laws::{after_rebirth, in_reach, lemma_close_all, lemma_pending_upto, run};
use crate::matching::{
    close_all, close_one, consumed, counted, exchanged, flagged, handshake, is_rebirth, located, low48,
    moved, pending_upto, reborn, recorded, requested, reset, responded, sat_add, sat_sub, step, still_open,
    waits, with_request, with_streams, Dir, Outcome,
};
use crate::meta::RuleView;
use crate::plane::{LiveView, PendingVal, PlanesView};
use crate::qr::{aligned, law_stream_never_rewinds, law_stream_stays_aligned, QrParams, SeqStream};
use crate::table::{Key2, PendingKey};
use crate::wal::{IndexedRecord, TCP_RST};
use vstd::prelude::*;

verus! {

/// The open requests of a connection.
pub open spec fn open_requests(live: LiveView, h: u64) -> Set<u64> {
    live.pairs.dom().filter(|id: u64| live.pairs[id].conn_hash == h)
}

/// A pending row belongs to the current incarnation of its connection and stands for an open request that
/// ends there.
pub open spec fn row_linked(live: LiveView, conns: Map<u64, ConnState>, key: PendingKey) -> bool {
    let v = live.pending[key];
    &&& conns.contains_key(key.conn)
    &&& key.inc == conns[key.conn].incarnation
    &&& key.end <= U48_MAX
    &&& waits(live, v.q_first_idx)
    &&& live.pairs[v.q_first_idx].conn_hash == key.conn
    &&& low48(live.pairs[v.q_first_idx].abs_q_end) == key.end
    &&& live.pairs[v.q_first_idx].q_ts == v.q_ts
}

/// The row that an open request waits under.
pub open spec fn row_of_request(live: LiveView, conns: Map<u64, ConnState>, id: u64) -> PendingKey {
    let p = live.pairs[id];
    PendingKey { conn: p.conn_hash, inc: conns[p.conn_hash].incarnation, end: low48(p.abs_q_end) }
}

/// Open requests, pending rows and timeout rows agree: every request has its pending row and the other way
/// round, and a timeout row stands for an open request of its connection and time.
pub open spec fn linked(live: LiveView, conns: Map<u64, ConnState>) -> bool {
    &&& live.pairs.dom().finite()
    &&& live.pending.dom().finite()
    &&& live.ttl.dom().finite()
    &&& forall|key: PendingKey| #[trigger] live.pending.contains_key(key) ==> row_linked(live, conns, key)
    &&& forall|id: u64| #[trigger] live.pairs.contains_key(id) ==> waits(live, id) && live.pending.contains_key(
        row_of_request(live, conns, id),
    ) && live.pending[row_of_request(live, conns, id)].q_first_idx == id
    &&& forall|k: Key2| #[trigger] live.ttl.contains_key(k) ==> {
        let id = live.ttl[k].q_first_idx;
        live.pairs.contains_key(id) && live.pairs[id].conn_hash == k.b && live.pairs[id].q_ts == k.a
    }
}

/// Every pending row lies between what its client stream has had acknowledged and the head of that stream.
pub open spec fn rows_within(live: LiveView, conns: Map<u64, ConnState>) -> bool {
    forall|key: PendingKey| #[trigger]
        live.pending.contains_key(key) ==> conns[key.conn].has_c() && conns[key.conn].consumed_ack_s < key.end <= conns[key.conn].abs_seq_c
}

/// A connection counts its open requests, and its client stream is in order.
pub open spec fn state_exact(live: LiveView, st: ConnState, h: u64) -> bool {
    &&& st.qr_open == open_requests(live, h).len()
    &&& aligned(SeqStream::of(st, true))
    &&& st.abs_seq_c <= U48_MAX
}

/// The live plane is tidy: open requests, pending rows and timeout rows agree, and every connection counts
/// its open requests.
pub open spec fn tidy(live: LiveView) -> bool {
    &&& linked(live, live.conns)
    &&& rows_within(live, live.conns)
    &&& forall|h: u64| #[trigger] live.conns.contains_key(h) ==> state_exact(live, live.conns[h], h)
}

/// The live plane with the state of a connection written.
pub open spec fn seated(live: LiveView, h: u64, st: ConnState) -> LiveView {
    LiveView { conns: live.conns.insert(h, st), ..live }
}

/// A record that can be taken in: no open request stands at its locator, there are fewer requests than can
/// be counted, and its data ends within the 48 bits of an index key.
pub open spec fn admissible(pl: PlanesView, r: IndexedRecord) -> bool {
    let (h, dir, st) = located(pl.live.conns, r);
    r.rec.proto == 6 ==> {
        &&& !pl.live.pairs.contains_key(r.loc())
        &&& pl.live.pairs.dom().len() < u64::MAX
        &&& dir == Dir::C2S ==> SeqStream::of(opened_state(pl, r), true).fed(r.rec.tcp_seq, r.rec.orig_payload_len).0.last_abs <= U48_MAX
    }
}

/// The state that a record finds, after the new incarnation that it may open.
pub open spec fn opened_state(pl: PlanesView, r: IndexedRecord) -> ConnState {
    let (h, dir, st) = located(pl.live.conns, r);
    if is_rebirth(st, r, dir) {
        reborn(pl, h, st, r, dir).st
    } else {
        st
    }
}

/// Every record of a batch can be taken in when its turn comes.
pub open spec fn all_admissible(pl: PlanesView, recs: Seq<(IndexedRecord, bool)>, par: QrParams, rules: Option<Seq<RuleView>>) -> bool
    decreases recs.len(),
{
    recs.len() > 0 ==> all_admissible(pl, recs.drop_last(), par, rules) && admissible(run(pl, recs.drop_last(), par, rules), recs.last().0)
}

proof fn lemma_count_removed(a: LiveView, b: LiveView, id: u64)
    requires
        a.pairs.dom().finite(),
        a.pairs.contains_key(id),
        b.pairs == a.pairs.remove(id),
    ensures
        open_requests(b, a.pairs[id].conn_hash).len() == open_requests(a, a.pairs[id].conn_hash).len() - 1,
        forall|h: u64| h != a.pairs[id].conn_hash ==> #[trigger] open_requests(b, h) == open_requests(a, h),
        b.pairs.dom().len() == a.pairs.dom().len() - 1,
{
    let c = a.pairs[id].conn_hash;
    assert(open_requests(b, c) =~= open_requests(a, c).remove(id));
    assert(open_requests(a, c).contains(id));
    assert(open_requests(a, c).subset_of(a.pairs.dom()));
    vstd::set_lib::lemma_len_subset(open_requests(a, c), a.pairs.dom());
    assert forall|h: u64| h != c implies #[trigger] open_requests(b, h) == open_requests(a, h) by {
        assert(open_requests(b, h) =~= open_requests(a, h));
    }
}

proof fn lemma_count_added(a: LiveView, b: LiveView, id: u64, p: QrPairView)
    requires
        a.pairs.dom().finite(),
        !a.pairs.contains_key(id),
        b.pairs == a.pairs.insert(id, p),
    ensures
        open_requests(b, p.conn_hash).len() == open_requests(a, p.conn_hash).len() + 1,
        forall|h: u64| h != p.conn_hash ==> #[trigger] open_requests(b, h) == open_requests(a, h),
{
    let c = p.conn_hash;
    assert(open_requests(b, c) =~= open_requests(a, c).insert(id));
    assert(!open_requests(a, c).contains(id));
    assert(open_requests(a, c).subset_of(a.pairs.dom()));
    vstd::set_lib::lemma_len_subset(open_requests(a, c), a.pairs.dom());
    assert forall|h: u64| h != c implies #[trigger] open_requests(b, h) == open_requests(a, h) by {
        assert(open_requests(b, h) =~= open_requests(a, h));
    }
}

/// Taking out one open request with its rows leaves the rest linked.
proof fn lemma_unlinked(a: LiveView, b: LiveView, conns: Map<u64, ConnState>, key: PendingKey)
    requires
        linked(a, conns),
        a.pending.contains_key(key),
        b.pairs == a.pairs.remove(a.pending[key].q_first_idx),
        b.pending == a.pending.remove(key),
        b.ttl == a.ttl.remove(Key2 { a: a.pending[key].q_ts, b: key.conn }),
    ensures
        linked(b, conns),
        open_requests(b, key.conn).len() == open_requests(a, key.conn).len() - 1,
        forall|h: u64| h != key.conn ==> #[trigger] open_requests(b, h) == open_requests(a, h),
        b.pairs.dom().len() == a.pairs.dom().len() - 1,
{
    let id = a.pending[key].q_first_idx;
    assert(row_linked(a, conns, key));
    lemma_count_removed(a, b, id);
    assert forall|x: PendingKey| #[trigger] b.pending.contains_key(x) implies row_linked(b, conns, x) by {
        assert(a.pending.contains_key(x));
        assert(row_linked(a, conns, x));
        if a.pending[x].q_first_idx == id {
            assert(x == key);
        }
    }
    assert forall|y: u64| #[trigger] b.pairs.contains_key(y) implies waits(b, y) && b.pending.contains_key(row_of_request(b, conns, y))
        && b.pending[row_of_request(b, conns, y)].q_first_idx == y by {
        assert(a.pairs.contains_key(y));
        assert(row_of_request(b, conns, y) == row_of_request(a, conns, y));
        assert(a.pending[row_of_request(a, conns, y)].q_first_idx == y);
    }
    assert forall|k: Key2| #[trigger] b.ttl.contains_key(k) implies ({
        let t = b.ttl[k].q_first_idx;
        b.pairs.contains_key(t) && b.pairs[t].conn_hash == k.b && b.pairs[t].q_ts == k.a
    }) by {
        assert(a.ttl.contains_key(k));
    }
}

/// Finishing pending requests of one connection leaves the rest linked and counts them off.
proof fn lemma_close_linked(pl: PlanesView, conns: Map<u64, ConnState>, h: u64, keys: Seq<PendingKey>, how: Outcome, n: nat)
    requires
        linked(pl.live, conns),
        n <= keys.len(),
        forall|i: int| 0 <= i < keys.len() ==> pl.live.pending.contains_key(#[trigger] keys[i]) && keys[i].conn == h,
        forall|i: int, j: int| 0 <= i < j < keys.len() ==> keys[i] != keys[j],
    ensures
        ({
            let q = close_all(pl, keys, how, n);
            &&& linked(q.live, conns)
            &&& open_requests(q.live, h).len() == open_requests(pl.live, h).len() - n
            &&& forall|x: u64| x != h ==> #[trigger] open_requests(q.live, x) == open_requests(pl.live, x)
            &&& q.live.pairs.dom().len() == pl.live.pairs.dom().len() - n
            &&& q.live.conns == pl.live.conns
        }),
    decreases n,
{
    if n > 0 {
        let m = (n - 1) as nat;
        lemma_close_linked(pl, conns, h, keys, how, m);
        lemma_close_all(pl, keys, how, m);
        let p = close_all(pl, keys, how, m);
        let key = keys[m as int];
        assert(!crate::laws::among(keys, m, key));
        assert(p.live.pending.contains_key(key));
        assert(row_linked(p.live, conns, key));
        let q = close_one(p, key, how, m as int);
        assert(q == close_all(pl, keys, how, n));
        lemma_unlinked(p.live, q.live, conns, key);
    }
}

/// The pending rows of a connection's current incarnation are all of its pending rows.
proof fn lemma_all_rows(pl: PlanesView, conns: Map<u64, ConnState>, h: u64, key: PendingKey)
    requires
        linked(pl.live, conns),
        conns.contains_key(h),
        pl.live.pending.contains_key(key),
        key.conn == h,
    ensures
        in_reach(key, h, conns[h].incarnation, U48_MAX),
{
    assert(row_linked(pl.live, conns, key));
}

/// A connection without pending rows has no open requests, and its state can be any.
proof fn lemma_reseat_empty(live: LiveView, conns: Map<u64, ConnState>, h: u64, st: ConnState)
    requires
        linked(live, conns),
        forall|key: PendingKey| #[trigger] live.pending.contains_key(key) ==> key.conn != h,
    ensures
        linked(live, conns.insert(h, st)),
        open_requests(live, h).len() == 0,
{
    let c = conns.insert(h, st);
    assert forall|id: u64| #[trigger] live.pairs.contains_key(id) implies live.pairs[id].conn_hash != h && row_of_request(live, c, id)
        == row_of_request(live, conns, id) by {
        assert(live.pending.contains_key(row_of_request(live, conns, id)));
    }
    assert forall|key: PendingKey| #[trigger] live.pending.contains_key(key) implies row_linked(live, c, key) by {
        assert(row_linked(live, conns, key));
    }
    assert(open_requests(live, h) =~= Set::empty());
}

/// The link speaks of a connection's incarnation alone.
proof fn lemma_reseat(live: LiveView, conns: Map<u64, ConnState>, h: u64, st: ConnState)
    requires
        linked(live, conns),
        conns.contains_key(h),
        conns[h].incarnation == st.incarnation,
    ensures
        linked(live, conns.insert(h, st)),
{
    let c = conns.insert(h, st);
    assert forall|key: PendingKey| #[trigger] live.pending.contains_key(key) implies row_linked(live, c, key) by {
        assert(row_linked(live, conns, key));
    }
    assert forall|id: u64| #[trigger] live.pairs.contains_key(id) implies waits(live, id) && live.pending.contains_key(
        row_of_request(live, c, id),
    ) && live.pending[row_of_request(live, c, id)].q_first_idx == id by {
        let key = row_of_request(live, conns, id);
        assert(live.pending.contains_key(key));
        assert(row_linked(live, conns, key));
        assert(row_of_request(live, c, id) == key);
    }
}

/// The fields that tidiness speaks of.
pub(crate) open spec fn kin(a: ConnState, b: ConnState) -> bool {
    &&& a.incarnation == b.incarnation
    &&& a.qr_open == b.qr_open
    &&& a.last_raw_c == b.last_raw_c
    &&& a.abs_seq_c == b.abs_seq_c
    &&& a.has_c() == b.has_c()
    &&& a.consumed_ack_s == b.consumed_ack_s
}

/// What the rest of the plane has to be for a connection's state to fit in.
proof fn lemma_seat(live: LiveView, h: u64, a: ConnState, b: ConnState)
    requires
        tidy(seated(live, h, a)),
        linked(live, live.conns.insert(h, b)),
        rows_within(live, live.conns.insert(h, b)),
        state_exact(live, b, h),
    ensures
        tidy(seated(live, h, b)),
{
    let (s, t) = (seated(live, h, a), seated(live, h, b));
    assert forall|x: u64| #[trigger] t.conns.contains_key(x) implies state_exact(t, t.conns[x], x) by {
        assert(s.conns.contains_key(x));
        assert(open_requests(s, x) =~= open_requests(t, x));
        assert(open_requests(live, x) =~= open_requests(t, x));
    }
    lemma_same_tables(live, t, t.conns);
}

pub(crate) proof fn lemma_same_tables(a: LiveView, b: LiveView, conns: Map<u64, ConnState>)
    requires
        a.pairs == b.pairs,
        a.pending == b.pending,
        a.ttl == b.ttl,
    ensures
        linked(a, conns) == linked(b, conns),
        rows_within(a, conns) == rows_within(b, conns),
        forall|h: u64| #[trigger] open_requests(a, h) == open_requests(b, h),
{
    assert forall|key: PendingKey| #[trigger] a.pending.contains_key(key) implies row_linked(a, conns, key) == row_linked(b, conns, key) by {}
    assert forall|id: u64| #[trigger] a.pairs.contains_key(id) implies row_of_request(a, conns, id) == row_of_request(b, conns, id) && waits(a, id)
        == waits(b, id) by {}
    assert forall|h: u64| #[trigger] open_requests(a, h) == open_requests(b, h) by {
        assert(open_requests(a, h) =~= open_requests(b, h));
    }
    if linked(a, conns) {
        assert forall|key: PendingKey| #[trigger] b.pending.contains_key(key) implies row_linked(b, conns, key) by {
            assert(a.pending.contains_key(key));
        }
        assert forall|id: u64| #[trigger] b.pairs.contains_key(id) implies waits(b, id) && b.pending.contains_key(row_of_request(b, conns, id))
            && b.pending[row_of_request(b, conns, id)].q_first_idx == id by {
            assert(a.pairs.contains_key(id));
        }
        assert(linked(b, conns));
    }
    if linked(b, conns) {
        assert forall|key: PendingKey| #[trigger] a.pending.contains_key(key) implies row_linked(a, conns, key) by {
            assert(b.pending.contains_key(key));
        }
        assert forall|id: u64| #[trigger] a.pairs.contains_key(id) implies waits(a, id) && a.pending.contains_key(row_of_request(a, conns, id))
            && a.pending[row_of_request(a, conns, id)].q_first_idx == id by {
            assert(b.pairs.contains_key(id));
        }
        assert(linked(a, conns));
    }
}

/// Only these fields matter.
pub(crate) proof fn lemma_kin(live: LiveView, h: u64, a: ConnState, b: ConnState)
    requires
        tidy(seated(live, h, a)),
        kin(a, b),
    ensures
        tidy(seated(live, h, b)),
{
    let s = seated(live, h, a);
    lemma_same_tables(live, s, s.conns);
    lemma_reseat(live, s.conns, h, b);
    assert(s.conns.insert(h, b) =~= live.conns.insert(h, b));
    assert(s.conns.contains_key(h));
    assert(state_exact(s, a, h));
    assert forall|key: PendingKey| #[trigger] live.pending.contains_key(key) implies {
        let c = live.conns.insert(h, b);
        c[key.conn].has_c() && c[key.conn].consumed_ack_s < key.end <= c[key.conn].abs_seq_c
    } by {
        assert(s.pending.contains_key(key));
    }
    lemma_seat(live, h, a, b);
}

/// Finishing every pending request of a connection's incarnation leaves the plane tidy, with nothing of
/// the connection waiting, whatever its state becomes.
#[verifier::rlimit(60)]
pub(crate) proof fn lemma_sweep_tidy(pl: PlanesView, h: u64, st: ConnState, how: Outcome, next: ConnState)
    requires
        tidy(seated(pl.live, h, st)),
        ({
            let keys = pending_upto(pl.live.pending, h, st.incarnation, U48_MAX);
            next.qr_open == sat_sub(st.qr_open, keys.len())
        }),
        aligned(SeqStream::of(next, true)),
        next.abs_seq_c <= U48_MAX,
    ensures
        ({
            let keys = pending_upto(pl.live.pending, h, st.incarnation, U48_MAX);
            let q = close_all(pl, keys, how, keys.len());
            &&& tidy(seated(q.live, h, next))
            &&& q.live.conns == pl.live.conns
            &&& q.live.pairs.dom().subset_of(pl.live.pairs.dom())
            &&& forall|key: PendingKey| #[trigger] q.live.pending.contains_key(key) ==> key.conn != h
        }),
{
    let keys = pending_upto(pl.live.pending, h, st.incarnation, U48_MAX);
    let q = close_all(pl, keys, how, keys.len());
    let s = seated(pl.live, h, st);
    let c = s.conns;
    lemma_same_tables(pl.live, s, c);
    lemma_pending_upto(pl, h, st.incarnation, U48_MAX);
    lemma_close_linked(pl, c, h, keys, how, keys.len());
    lemma_close_all(pl, keys, how, keys.len());
    assert forall|key: PendingKey| #[trigger] q.live.pending.contains_key(key) implies key.conn != h by {
        assert(pl.live.pending.contains_key(key));
        if key.conn == h {
            lemma_all_rows(pl, c, h, key);
        }
    }
    assert forall|id: u64| q.live.pairs.dom().contains(id) implies pl.live.pairs.dom().contains(id) by {
        assert(q.live.pairs.contains_key(id));
    }
    lemma_reseat_empty(q.live, c, h, next);
    let t = seated(q.live, h, next);
    assert(c.insert(h, next) =~= t.conns);
    lemma_same_tables(q.live, t, t.conns);
    assert forall|key: PendingKey| #[trigger] q.live.pending.contains_key(key) implies t.conns[key.conn].has_c()
        && t.conns[key.conn].consumed_ack_s < key.end <= t.conns[key.conn].abs_seq_c by {
        assert(s.pending.contains_key(key));
    }
    assert(s.conns.contains_key(h));
    assert(state_exact(s, st, h));
    assert forall|x: u64| #[trigger] t.conns.contains_key(x) implies state_exact(t, t.conns[x], x) by {
        assert(s.conns.contains_key(x));
        assert(open_requests(t, x) == open_requests(q.live, x));
        assert(open_requests(s, x) == open_requests(pl.live, x));
    }
}

/// An acknowledgement counts off what it matches.
#[verifier::rlimit(60)]
pub(crate) proof fn lemma_consumed_tidy(pl: PlanesView, h: u64, st: ConnState, r: IndexedRecord, abs_ack: u64, par: QrParams)
    requires
        tidy(seated(pl.live, h, st)),
    ensures
        ({
            let g = consumed(pl, h, st, r, abs_ack, par);
            &&& tidy(seated(g.pl.live, h, g.st))
            &&& g.pl.live.conns == pl.live.conns
            &&& forall|key: PendingKey| #[trigger] g.pl.live.pending.contains_key(key) && key.conn == h ==> key.end > abs_ack
        }),
{
    let (inc, limit) = (st.incarnation, sat_add(abs_ack, par.ack_tolerance as u64));
    let rows = pending_upto(pl.live.pending, h, inc, limit);
    let keys = still_open(pl.live, rows);
    let how = Outcome::Matched { r, ids: crate::matching::ids_of(pl.live.pending, keys) };
    let q = close_all(pl, keys, how, keys.len());
    let g = consumed(pl, h, st, r, abs_ack, par);
    let s = seated(pl.live, h, st);
    let c = s.conns;
    lemma_same_tables(pl.live, s, c);
    lemma_pending_upto(pl, h, inc, limit);
    crate::qr::lemma_still_open(pl.live, rows);
    assert forall|i: int| 0 <= i < keys.len() implies pl.live.pending.contains_key(#[trigger] keys[i]) && keys[i].conn == h by {
        assert(keys.contains(keys[i]));
        let j = choose|j: int| 0 <= j < rows.len() && rows[j] == keys[i];
        assert(pl.live.pending.contains_key(rows[j]));
    }
    lemma_close_linked(pl, c, h, keys, how, keys.len());
    lemma_close_all(pl, keys, how, keys.len());
    assert(s.conns.contains_key(h));
    assert(state_exact(s, st, h));
    let next = g.st;
    assert(q.live.pairs.dom().len() == pl.live.pairs.dom().len() - keys.len());
    assert(next.qr_open == sat_sub(st.qr_open, keys.len()));
    lemma_reseat(q.live, c, h, next);
    let t = seated(q.live, h, next);
    assert(c.insert(h, next) =~= t.conns);
    lemma_same_tables(q.live, t, t.conns);
    assert forall|key: PendingKey| #[trigger] q.live.pending.contains_key(key) && key.conn == h implies key.end > abs_ack by {
        assert(pl.live.pending.contains_key(key));
        assert(row_linked(pl.live, c, key));
        if key.end <= limit {
            assert(in_reach(key, h, inc, limit));
            assert(crate::laws::among(rows, rows.len(), key));
            let j = choose|j: int| 0 <= j < rows.len() && j < rows.len() && #[trigger] rows[j] == key;
            assert(rows.contains(key));
            assert(keys.contains(key));
            let i = choose|i: int| 0 <= i < keys.len() && keys[i] == key;
            assert(keys[i] == key);
            assert(crate::laws::among(keys, keys.len(), key));
        }
    }
    assert forall|key: PendingKey| #[trigger] q.live.pending.contains_key(key) implies t.conns[key.conn].has_c()
        && t.conns[key.conn].consumed_ack_s < key.end <= t.conns[key.conn].abs_seq_c by {
        assert(s.pending.contains_key(key));
    }
    assert forall|x: u64| #[trigger] t.conns.contains_key(x) implies state_exact(t, t.conns[x], x) by {
        assert(s.conns.contains_key(x));
        assert(open_requests(t, x) == open_requests(q.live, x));
        assert(open_requests(s, x) == open_requests(pl.live, x));
    }
}

/// A new request is linked in.
proof fn lemma_request_linked(pl: PlanesView, conns: Map<u64, ConnState>, h: u64, inc: u16, p: QrPairView, idx: u64)
    requires
        linked(pl.live, conns),
        conns.contains_key(h),
        conns[h].incarnation == inc,
        p.conn_hash == h,
        p.status == QrStatus::Pending.code(),
        p.abs_q_end <= U48_MAX,
        !pl.live.pairs.contains_key(idx),
        !pl.live.pending.contains_key(PendingKey { conn: h, inc, end: p.abs_q_end }),
    ensures
        ({
            let q = with_request(pl, h, inc, p, idx);
            let key = PendingKey { conn: h, inc, end: p.abs_q_end };
            &&& linked(q.live, conns)
            &&& q.live.conns == pl.live.conns
            &&& forall|x: PendingKey| #[trigger] q.live.pending.contains_key(x) <==> x == key || pl.live.pending.contains_key(x)
            &&& open_requests(q.live, h).len() == open_requests(pl.live, h).len() + 1
            &&& forall|x: u64| x != h ==> #[trigger] open_requests(q.live, x) == open_requests(pl.live, x)
        }),
{
    let a = pl.live;
    let b = with_request(pl, h, inc, p, idx).live;
    let key = PendingKey { conn: h, inc, end: p.abs_q_end };
    assert(low48(p.abs_q_end) == p.abs_q_end) by {
        assert(p.abs_q_end % 0x1_0000_0000_0000 == p.abs_q_end);
    }
    lemma_count_added(a, b, idx, p);
    assert forall|x: PendingKey| #[trigger] b.pending.contains_key(x) implies row_linked(b, conns, x) by {
        if x != key {
            assert(a.pending.contains_key(x));
            assert(row_linked(a, conns, x));
        }
    }
    assert forall|y: u64| #[trigger] b.pairs.contains_key(y) implies waits(b, y) && b.pending.contains_key(row_of_request(b, conns, y))
        && b.pending[row_of_request(b, conns, y)].q_first_idx == y by {
        if y == idx {
            assert(row_of_request(b, conns, y) == key);
        } else {
            assert(a.pairs.contains_key(y));
            assert(row_of_request(b, conns, y) == row_of_request(a, conns, y));
        }
    }
    assert forall|k: Key2| #[trigger] b.ttl.contains_key(k) implies ({
        let t = b.ttl[k].q_first_idx;
        b.pairs.contains_key(t) && b.pairs[t].conn_hash == k.b && b.pairs[t].q_ts == k.a
    }) by {
        if a.ttl.contains_key(k) {
            assert(a.pairs.contains_key(a.ttl[k].q_first_idx));
        }
    }
}

/// The state with its client stream moved on keeps the plane tidy.
proof fn lemma_stream_tidy(live: LiveView, h: u64, st: ConnState, next: ConnState)
    requires
        tidy(seated(live, h, st)),
        next.incarnation == st.incarnation,
        next.qr_open == st.qr_open,
        next.consumed_ack_s == st.consumed_ack_s,
        st.has_c() ==> next.has_c() && next.abs_seq_c >= st.abs_seq_c,
        aligned(SeqStream::of(next, true)),
        next.abs_seq_c <= U48_MAX,
    ensures
        tidy(seated(live, h, next)),
{
    let s = seated(live, h, st);
    lemma_same_tables(live, s, s.conns);
    lemma_reseat(live, s.conns, h, next);
    assert(s.conns.insert(h, next) =~= live.conns.insert(h, next));
    assert(s.conns.contains_key(h));
    assert(state_exact(s, st, h));
    assert forall|key: PendingKey| #[trigger] live.pending.contains_key(key) implies {
        let c = live.conns.insert(h, next);
        c[key.conn].has_c() && c[key.conn].consumed_ack_s < key.end <= c[key.conn].abs_seq_c
    } by {
        assert(s.pending.contains_key(key));
    }
    lemma_seat(live, h, st, next);
}

pub(crate) proof fn lemma_streams_fit(st: ConnState, c: SeqStream, s: SeqStream)
    ensures
        SeqStream::of(with_streams(st, c, s), true) == c,
        with_streams(st, c, s).has_c() == c.active,
{
    let a = crate::connection::active_with_c(st.active, c.active);
    assert(a % 2 == if c.active { 1int } else { 0int });
    let b = crate::connection::active_with_s(a, s.active);
    assert(b % 2 == a % 2);
}

/// A request opened past the head of its stream is counted.
#[verifier::rlimit(60)]
proof fn lemma_opened_tidy(
    pl: PlanesView,
    h: u64,
    st: ConnState,
    r: IndexedRecord,
    s: SeqStream,
    rules: Option<Seq<RuleView>>,
    high: bool,
)
    requires
        tidy(seated(pl.live, h, st)),
        !pl.live.pairs.contains_key(r.loc()),
        pl.live.pairs.dom().len() < u64::MAX,
        SeqStream::of(st, true).fed(r.rec.tcp_seq, r.rec.orig_payload_len).0.last_abs <= U48_MAX,
        ({
            let (c, start, fresh) = SeqStream::of(st, true).fed(r.rec.tcp_seq, r.rec.orig_payload_len);
            fresh > 0 && sat_add(start, fresh as u64) > st.consumed_ack_s
        }),
    ensures
        ({
            let (c, start, fresh) = SeqStream::of(st, true).fed(r.rec.tcp_seq, r.rec.orig_payload_len);
            let g = crate::matching::opened(pl, h, st, r, start, sat_add(start, fresh as u64), rules, high);
            tidy(seated(g.pl.live, h, with_streams(g.st, c, s)))
        }),
{
    let c0 = SeqStream::of(st, true);
    let (c, start, fresh) = c0.fed(r.rec.tcp_seq, r.rec.orig_payload_len);
    let end = sat_add(start, fresh as u64);
    let g = crate::matching::opened(pl, h, st, r, start, end, rules, high);
    let (key, pseudo, st2, prints) = crate::matching::keyed(st, h, r, rules, high);
    let p = crate::matching::new_pair(h, r, start, end, key, pseudo);
    let next = with_streams(g.st, c, s);
    lemma_streams_fit(g.st, c, s);
    let u = seated(pl.live, h, st);
    assert(u.conns.contains_key(h));
    assert(state_exact(u, st, h));
    law_stream_stays_aligned(c0, r.rec.tcp_seq, r.rec.orig_payload_len);
    if c0.active {
        law_stream_never_rewinds(c0, r.rec.tcp_seq, r.rec.orig_payload_len);
    }
    assert(end == c.last_abs);
    let k = PendingKey { conn: h, inc: st.incarnation, end };
    lemma_same_tables(pl.live, u, u.conns);
    if pl.live.pending.contains_key(k) {
        assert(u.pending.contains_key(k));
        assert(k.end <= st.abs_seq_c);
    }
    lemma_request_linked(pl, u.conns, h, st.incarnation, p, r.loc());
    let q = g.pl.live;
    assert(st2.incarnation == st.incarnation);
    assert(g.pl == with_request(pl, h, st.incarnation, p, r.loc()));
    let t = seated(q, h, next);
    assert(u.conns.insert(h, next) =~= t.conns);
    lemma_reseat(q, u.conns, h, next);
    lemma_same_tables(q, t, t.conns);
    assert(open_requests(pl.live, h).subset_of(pl.live.pairs.dom()));
    vstd::set_lib::lemma_len_subset(open_requests(pl.live, h), pl.live.pairs.dom());
    assert forall|x: PendingKey| #[trigger] q.pending.contains_key(x) implies t.conns[x.conn].has_c() && t.conns[x.conn].consumed_ack_s < x.end
        <= t.conns[x.conn].abs_seq_c by {
        if x != k {
            assert(u.pending.contains_key(x));
        }
    }
    assert forall|x: u64| #[trigger] t.conns.contains_key(x) implies state_exact(t, t.conns[x], x) by {
        assert(u.conns.contains_key(x));
        assert(open_requests(t, x) == open_requests(q, x));
        assert(open_requests(u, x) == open_requests(pl.live, x));
    }
}

proof fn lemma_moved_stream(st: ConnState, g: ConnState, c: SeqStream, s: SeqStream, live: LiveView, h: u64, r: IndexedRecord)
    requires
        tidy(seated(live, h, st)),
        kin(st, g),
        c == SeqStream::of(st, true).fed(r.rec.tcp_seq, r.rec.orig_payload_len).0,
        c.last_abs <= U48_MAX,
    ensures
        tidy(seated(live, h, with_streams(g, c, s))),
{
    let c0 = SeqStream::of(st, true);
    let u = seated(live, h, st);
    assert(u.conns.contains_key(h));
    assert(state_exact(u, st, h));
    lemma_streams_fit(g, c, s);
    law_stream_stays_aligned(c0, r.rec.tcp_seq, r.rec.orig_payload_len);
    if c0.active {
        law_stream_never_rewinds(c0, r.rec.tcp_seq, r.rec.orig_payload_len);
    }
    lemma_stream_tidy(live, h, st, with_streams(g, c, s));
}

pub(crate) proof fn lemma_exchanged_tidy(
    pl: PlanesView,
    h: u64,
    st: ConnState,
    r: IndexedRecord,
    dir: Dir,
    par: QrParams,
    rules: Option<Seq<RuleView>>,
    high: bool,
)
    requires
        tidy(seated(pl.live, h, st)),
        !pl.live.pairs.contains_key(r.loc()),
        pl.live.pairs.dom().len() < u64::MAX,
        dir == Dir::C2S ==> SeqStream::of(st, true).fed(r.rec.tcp_seq, r.rec.orig_payload_len).0.last_abs <= U48_MAX,
    ensures
        ({
            let g = exchanged(pl, h, st, r, dir, par, rules, high);
            tidy(seated(g.pl.live, h, g.st))
        }),
{
    let c0 = SeqStream::of(st, true);
    let s0 = SeqStream::of(st, false);
    let st2 = counted(handshake(st, r, dir), r.rec, dir);
    assert(kin(st, st2));
    lemma_kin(pl.live, h, st, st2);
    assert(SeqStream::of(st2, true) == c0);
    match dir {
        Dir::C2S => {
            let (c, start, fresh) = c0.fed(r.rec.tcp_seq, r.rec.orig_payload_len);
            let g = requested(pl, h, st2, r, start, fresh, rules, high);
            if r.rec.orig_payload_len != 0 && fresh > 0 && sat_add(start, fresh as u64) > st2.consumed_ack_s {
                lemma_opened_tidy(pl, h, st2, r, s0, rules, high);
            } else {
                lemma_moved_stream(st2, g.st, c, s0, pl.live, h, r);
            }
        },
        Dir::S2C => {
            let (s, start, fresh) = s0.fed(r.rec.tcp_seq, r.rec.orig_payload_len);
            let g = responded(pl, h, st2, r, c0, fresh, par);
            let st3 = if fresh > 0 {
                ConnState { resp_cnt: sat_add(st2.resp_cnt, 1), ..st2 }
            } else {
                st2
            };
            lemma_kin(pl.live, h, st2, st3);
            let abs_ack = c0.abs(r.rec.tcp_ack);
            lemma_consumed_tidy(pl, h, st3, r, abs_ack, par);
            assert(tidy(seated(g.pl.live, h, g.st)));
            lemma_streams_fit(g.st, c0, s);
            assert(kin(g.st, with_streams(g.st, c0, s)));
            lemma_kin(g.pl.live, h, g.st, with_streams(g.st, c0, s));
        },
    }
}

pub(crate) proof fn lemma_seated_exact(live: LiveView, h: u64, st: ConnState)
    requires
        tidy(seated(live, h, st)),
    ensures
        aligned(SeqStream::of(st, true)),
        st.abs_seq_c <= U48_MAX,
{
    let s = seated(live, h, st);
    assert(s.conns.contains_key(h));
    assert(state_exact(s, s.conns[h], h));
}

proof fn lemma_moved_tidy(
    pl: PlanesView,
    h: u64,
    st: ConnState,
    r: IndexedRecord,
    dir: Dir,
    par: QrParams,
    rules: Option<Seq<RuleView>>,
    high: bool,
)
    requires
        tidy(seated(pl.live, h, st)),
        !pl.live.pairs.contains_key(r.loc()),
        pl.live.pairs.dom().len() < u64::MAX,
        dir == Dir::C2S ==> SeqStream::of(st, true).fed(r.rec.tcp_seq, r.rec.orig_payload_len).0.last_abs <= U48_MAX,
    ensures
        ({
            let g = moved(pl, h, st, r, dir, par, rules, high);
            tidy(seated(g.pl.live, h, g.st))
        }),
{
    if flagged(r.rec, TCP_RST) {
        lemma_seated_exact(pl.live, h, st);
        let g = reset(pl, h, st, r);
        assert(SeqStream::of(g.st, true) == SeqStream::of(st, true));
        lemma_sweep_tidy(pl, h, st, Outcome::Closed { status: QrStatus::RstAbort }, g.st);
    } else {
        let g = exchanged(pl, h, st, r, dir, par, rules, high);
        lemma_exchanged_tidy(pl, h, st, r, dir, par, rules, high);
        lemma_seated_exact(g.pl.live, h, g.st);
        let a = crate::matching::closed(g.pl, h, g.st, r);
        let b = crate::matching::flooded(g.pl, h, g.st, r);
        assert(SeqStream::of(a.st, true) == SeqStream::of(g.st, true));
        assert(SeqStream::of(b.st, true) == SeqStream::of(g.st, true));
        lemma_sweep_tidy(g.pl, h, g.st, Outcome::Closed { status: QrStatus::Unmatched }, a.st);
        lemma_sweep_tidy(g.pl, h, g.st, Outcome::Closed { status: QrStatus::AbortedResource }, b.st);
    }
}

/// The connection of a record fits into a tidy plane, known or new.
proof fn lemma_located_tidy(live: LiveView, r: IndexedRecord)
    requires
        tidy(live),
    ensures
        ({
            let (h, dir, st) = located(live.conns, r);
            tidy(seated(live, h, st))
        }),
{
    let (h, dir, st) = located(live.conns, r);
    let t = seated(live, h, st);
    if live.conns.contains_key(h) {
        assert(live.conns.insert(h, st) =~= live.conns);
        assert(t =~= live);
    } else {
        assert forall|key: PendingKey| #[trigger] live.pending.contains_key(key) implies key.conn != h by {
            assert(row_linked(live, live.conns, key));
        }
        lemma_reseat_empty(live, live.conns, h, st);
        lemma_same_tables(live, t, t.conns);
        assert forall|key: PendingKey| #[trigger] live.pending.contains_key(key) implies t.conns[key.conn].has_c()
            && t.conns[key.conn].consumed_ack_s < key.end <= t.conns[key.conn].abs_seq_c by {
            assert(live.conns[key.conn].has_c());
        }
        assert forall|x: u64| #[trigger] t.conns.contains_key(x) implies state_exact(t, t.conns[x], x) by {
            assert(open_requests(t, x) == open_requests(live, x));
            if x != h {
                assert(live.conns.contains_key(x));
            }
        }
    }
}

/// The new incarnation that a record may open keeps the plane tidy.
pub(crate) proof fn lemma_born_tidy(pl: PlanesView, r: IndexedRecord)
    requires
        tidy(pl.live),
        r.rec.proto == 6,
        admissible(pl, r),
    ensures
        ({
            let (h, dir, st) = located(pl.live.conns, r);
            let (p1, s1) = after_rebirth(recorded(pl, r), h, st, r, dir);
            &&& tidy(seated(p1.live, h, s1))
            &&& !p1.live.pairs.contains_key(r.loc())
            &&& p1.live.pairs.dom().len() < u64::MAX
            &&& SeqStream::of(s1, true) == SeqStream::of(opened_state(pl, r), true)
        }),
{
    let p0 = recorded(pl, r);
    let (h, dir, st) = located(pl.live.conns, r);
    lemma_located_tidy(pl.live, r);
    lemma_seated_exact(pl.live, h, st);
    let (p1, s1) = after_rebirth(p0, h, st, r, dir);
    if is_rebirth(st, r, dir) {
        let b = reborn(p0, h, st, r, dir);
        assert(aligned(SeqStream::of(b.st, true)));
        lemma_sweep_tidy(p0, h, st, Outcome::Closed { status: QrStatus::Unmatched }, b.st);
        lemma_kin(p1.live, h, b.st, s1);
        vstd::set_lib::lemma_len_subset(p1.live.pairs.dom(), p0.live.pairs.dom());
        assert(b.st == reborn(pl, h, st, r, dir).st);
        assert(!p1.live.pairs.contains_key(r.loc())) by {
            if p1.live.pairs.dom().contains(r.loc()) {
                assert(p0.live.pairs.dom().contains(r.loc()));
            }
        }
    } else {
        lemma_kin(p1.live, h, st, s1);
    }
}

/// A record keeps the plane tidy.
pub(crate) proof fn lemma_step_tidy(pl: PlanesView, r: IndexedRecord, par: QrParams, rules: Option<Seq<RuleView>>, high: bool)
    requires
        tidy(pl.live),
        admissible(pl, r),
    ensures
        tidy(step(pl, r, par, rules, high).pl.live),
{
    if r.rec.proto == 6 {
        let (h, dir, st) = located(pl.live.conns, r);
        lemma_born_tidy(pl, r);
        let (p1, s1) = after_rebirth(recorded(pl, r), h, st, r, dir);
        lemma_moved_tidy(p1, h, s1, r, dir, par, rules, high);
    }
}

/// Every connection counts its open requests: a batch on a tidy plane leaves a tidy plane. In particular the
/// count of each connection is the number of its requests that wait for an answer.
pub proof fn law_open_count_is_exact(pl: PlanesView, recs: Seq<(IndexedRecord, bool)>, par: QrParams, rules: Option<Seq<RuleView>>)
    requires
        tidy(pl.live),
        all_admissible(pl, recs, par, rules),
    ensures
        ({
            let live = run(pl, recs, par, rules).live;
            &&& tidy(live)
            &&& forall|h: u64| #[trigger] live.conns.contains_key(h) ==> live.conns[h].qr_open == open_requests(live, h).len()
        }),
    decreases recs.len(),
{
    if recs.len() > 0 {
        law_open_count_is_exact(pl, recs.drop_last(), par, rules);
        let x = run(pl, recs.drop_last(), par, rules);
        lemma_step_tidy(x, recs.last().0, par, rules, recs.last().1);
    }
    let live = run(pl, recs, par, rules).live;
    assert forall|h: u64| #[trigger] live.conns.contains_key(h) implies live.conns[h].qr_open == open_requests(live, h).len() by {
        assert(state_exact(live, live.conns[h], h));
    }
}

/// Empty planes are tidy.
pub proof fn law_new_planes_are_tidy()
    ensures
        tidy(crate::plane::empty_planes().live),
{
    let live = crate::plane::empty_planes().live;
    assert(live.pairs.dom() =~= Set::empty());
    assert(live.pending.dom() =~= Set::empty());
    assert(live.ttl.dom() =~= Set::empty());
}

proof fn lemma_row_for(pending: Map<PendingKey, PendingVal>, keys: Seq<PendingKey>, id: u64, i: int, j: int)
    requires
        0 <= i <= j < keys.len(),
        pending[keys[j]].q_first_idx == id,
    ensures
        row_for(pending, keys, id, i) matches Some(k) && keys.contains(k) && pending[k].q_first_idx == id,
    decreases keys.len() - i,
{
    if pending[keys[i]].q_first_idx != id {
        lemma_row_for(pending, keys, id, i + 1, j);
    } else {
        assert(keys.contains(keys[i]));
    }
}

#[verifier::rlimit(60)]
proof fn lemma_look_tidy(s: Sweep, key: Key2, now: u64, wait: u64, short: u64)
    requires
        tidy(s.pl.live),
        s.pl.live.ttl.contains_key(key),
    ensures
        tidy(look(s, key, now, wait, short).pl.live),
        forall|k: Key2| k != key && s.pl.live.ttl.contains_key(k) ==> #[trigger] look(s, key, now, wait, short).pl.live.ttl.contains_key(k),
{
    let a = s.pl.live;
    let b = look(s, key, now, wait, short).pl.live;
    let id = a.ttl[key].q_first_idx;
    let h = key.b;
    assert(a.pairs.contains_key(id));
    let row = row_of_request(a, a.conns, id);
    assert(a.pending.contains_key(row));
    assert(row_linked(a, a.conns, row));
    let st = a.conns[h];
    assert(state_of(a.conns, h) == st);
    if crate::anomaly::deadline(key.a, st.fin_seen, wait, short) > now {
        assert(a.conns.insert(h, st) =~= a.conns);
        assert(b =~= a);
    } else {
        let keys = rows_of(a.pending, h);
        let lo = PendingKey { conn: h, inc: 0, end: 0 };
        let hi = PendingKey { conn: h, inc: 0xffff, end: U48_MAX };
        crate::table::lemma_scan_exists(a.pending.dom(), lo, hi);
        assert(a.pending.dom().contains(row));
        assert(keys.contains(row));
        let j = choose|j: int| 0 <= j < keys.len() && keys[j] == row;
        lemma_row_for(a.pending, keys, id, 0, j);
        let k = row_for(a.pending, keys, id, 0)->0;
        let m = choose|m: int| 0 <= m < keys.len() && keys[m] == k;
        assert(a.pending.dom().contains(keys[m]));
        assert(a.pending.contains_key(k));
        assert(row_linked(a, a.conns, k));
        assert(k == row);
        assert(b.pending =~= a.pending.remove(row));
        lemma_unlinked(a, b, a.conns, row);
        assert(state_exact(a, st, h));
        let next = b.conns[h];
        lemma_reseat(b, a.conns, h, next);
        assert(a.conns.insert(h, next) =~= b.conns);
        assert forall|x: PendingKey| #[trigger] b.pending.contains_key(x) implies b.conns[x.conn].has_c() && b.conns[x.conn].consumed_ack_s
            < x.end <= b.conns[x.conn].abs_seq_c by {
            assert(a.pending.contains_key(x));
        }
        assert forall|x: u64| #[trigger] b.conns.contains_key(x) implies state_exact(b, b.conns[x], x) by {
            assert(a.conns.contains_key(x));
            assert(state_exact(a, a.conns[x], x));
        }
    }
}

proof fn lemma_looked_tidy(pl: PlanesView, keys: Seq<Key2>, n: nat, now: u64, wait: u64, short: u64)
    requires
        tidy(pl.live),
        n <= keys.len(),
        forall|i: int| 0 <= i < keys.len() ==> pl.live.ttl.contains_key(#[trigger] keys[i]),
        forall|i: int, j: int| 0 <= i < j < keys.len() ==> keys[i] != keys[j],
    ensures
        tidy(looked(pl, keys, n, now, wait, short).pl.live),
        forall|i: int| n <= i < keys.len() ==> looked(pl, keys, n, now, wait, short).pl.live.ttl.contains_key(#[trigger] keys[i]),
    decreases n,
{
    if n > 0 {
        let m = (n - 1) as nat;
        lemma_looked_tidy(pl, keys, m, now, wait, short);
        let s = looked(pl, keys, m, now, wait, short);
        assert(s.pl.live.ttl.contains_key(keys[m as int]));
        lemma_look_tidy(s, keys[m as int], now, wait, short);
        assert forall|i: int| n <= i < keys.len() implies looked(pl, keys, n, now, wait, short).pl.live.ttl.contains_key(#[trigger] keys[i]) by {
            assert(s.pl.live.ttl.contains_key(keys[i]));
            assert(look(s, keys[m as int], now, wait, short).pl.live.ttl.contains_key(keys[i]));
        }
    }
}

/// Timeouts are counted off: a scan of a tidy plane leaves a tidy plane.
pub proof fn law_timeouts_keep_the_count(pl: PlanesView, now: u64, qr_timeout_secs: u64, fin_short_secs: u64)
    requires
        tidy(pl.live),
    ensures
        tidy(ttl_scan(pl, now, qr_timeout_secs, fin_short_secs).pl.live),
{
    let short = short_wait(qr_timeout_secs, fin_short_secs);
    let keys = due_rows(pl, now, short);
    crate::table::lemma_scan_exists(
        pl.live.ttl.dom(),
        Key2 { a: 0, b: 0 },
        Key2 { a: sat_sub(now, short as nat), b: u64::MAX },
    );
    assert forall|i: int| 0 <= i < keys.len() implies pl.live.ttl.contains_key(#[trigger] keys[i]) by {
        assert(pl.live.ttl.dom().contains(keys[i]));
    }
    lemma_looked_tidy(pl, keys, keys.len(), now, crate::anomaly::nanos(qr_timeout_secs), short);
}

proof fn lemma_ended_tidy(pl: PlanesView, hs: Seq<u64>, cause: Cause, now: u64, n: nat)
    requires
        tidy(pl.live),
    ensures
        tidy(ended_upto(pl, hs, cause, now, n).pl.live),
    decreases n,
{
    if n > 0 {
        lemma_ended_tidy(pl, hs, cause, now, (n - 1) as nat);
        let q = ended_upto(pl, hs, cause, now, (n - 1) as nat).pl;
        let h = hs[n - 1];
        if concerns(cause, q.live.conns, now, h) {
            let st = q.live.conns[h];
            assert(q.live.conns.insert(h, st) =~= q.live.conns);
            assert(seated(q.live, h, st) =~= q.live);
            assert(state_exact(q.live, st, h));
            let keys = pending_upto(q.live.pending, h, st.incarnation, U48_MAX);
            let next = crate::device::conn_end(cause, st, keys.len());
            assert(SeqStream::of(next, true) == SeqStream::of(st, true));
            lemma_sweep_tidy(q, h, st, Outcome::Closed { status: crate::device::request_end(cause) }, next);
        }
    }
}

/// Connections that end from outside have their requests counted off.
pub proof fn law_endings_keep_the_count(pl: PlanesView, cause: Cause, now: u64)
    requires
        tidy(pl.live),
    ensures
        tidy(all_ended(pl, cause, now).pl.live),
{
    lemma_ended_tidy(pl, all_conns(pl), cause, now, all_conns(pl).len());
}

/// A lost segment touches no count.
pub proof fn law_lost_segment_keeps_the_count(pl: PlanesView, dev: u32)
    requires
        tidy(pl.live),
    ensures
        tidy(segment_lost(pl, dev).live),
{
    let (a, b) = (pl.live, segment_lost(pl, dev).live);
    assert forall|key: PendingKey| #[trigger] b.pending.contains_key(key) implies row_linked(b, b.conns, key) && b.conns[key.conn].has_c()
        && b.conns[key.conn].consumed_ack_s < key.end <= b.conns[key.conn].abs_seq_c by {
        assert(a.pending.contains_key(key));
        assert(row_linked(a, a.conns, key));
    }
    assert forall|id: u64| #[trigger] b.pairs.contains_key(id) implies waits(b, id) && b.pending.contains_key(row_of_request(b, b.conns, id))
        && b.pending[row_of_request(b, b.conns, id)].q_first_idx == id by {
        assert(a.pairs.contains_key(id));
        let row = row_of_request(a, a.conns, id);
        assert(a.pending.contains_key(row));
        assert(row_linked(a, a.conns, row));
        assert(row_of_request(b, b.conns, id) == row);
    }
    assert forall|h: u64| #[trigger] b.conns.contains_key(h) implies state_exact(b, b.conns[h], h) by {
        assert(a.conns.contains_key(h));
        assert(state_exact(a, a.conns[h], h));
        assert(open_requests(a, h) =~= open_requests(b, h));
    }
}

} // verus!
