//! Replay of a batch that was committed but whose watermark was lost.

use crate::connection::{ConnState, ConnStateKind};
use crate::db::{QrStatus, U48_MAX};
use crate::laws::counts::{
    admissible, all_admissible, law_open_count_is_exact, lemma_born_tidy, lemma_consumed_tidy,
    lemma_exchanged_tidy, lemma_kin, lemma_seated_exact, lemma_step_tidy, lemma_streams_fit,
    lemma_sweep_tidy, open_requests, opened_state, row_linked, row_of_request, seated, state_exact, tidy,
};
use crate::laws::{
    after_rebirth, all_settled, lemma_pending_upto, lemma_settled_step, run, same_requests, settled,
};
use crate::matching::{
    close_all, concluded, consumed, counted, exchanged, flagged, handshake, hash_backward, hash_forward,
    is_rebirth, located, moved, pending_upto, reborn, recorded, requested, reset, responded, sat_add, step,
    stepped, still_open, Dir, Outcome,
};
use crate::meta::RuleView;
use crate::plane::{LiveView, PlanesView};
use crate::qr::{aligned, law_stream_never_rewinds, seq_add, seq_diff, QrParams, SeqStream, ACK_LEAD_CAP};
use crate::table::PendingKey;
use crate::wal::{IndexedRecord, TCP_FIN, TCP_RST, TCP_SYN};
use vstd::prelude::*;

verus! {

/// The connection that the planes take a record for.
pub open spec fn place(pl: PlanesView, r: IndexedRecord) -> u64 {
    located(pl.live.conns, r).0
}

/// The side of the connection that a record comes from.
pub open spec fn side(pl: PlanesView, r: IndexedRecord) -> Dir {
    located(pl.live.conns, r).1
}

/// A TCP packet of a connection.
pub open spec fn on_conn(pl: PlanesView, r: IndexedRecord, h: u64) -> bool {
    r.rec.proto == 6 && place(pl, r) == h
}

/// Where a sequence number stands in a stream: before or after the head by less than half the circle; the
/// first number of a stream stands for itself.
pub open spec fn position(s: SeqStream, seq: u32) -> int {
    if s.active {
        s.last_abs + seq_diff(seq, s.last_raw)
    } else {
        seq as int
    }
}

/// The packet before packet `i` of its connection is packet `j`, and it carries a SYN.
pub open spec fn follows_syn(done: PlanesView, recs: Seq<(IndexedRecord, bool)>, j: int, i: int) -> bool {
    &&& 0 <= j < i
    &&& on_conn(done, recs[j].0, place(done, recs[i].0))
    &&& flagged(recs[j].0.rec, TCP_SYN)
    &&& forall|m: int| j < m < i ==> !on_conn(done, (#[trigger] recs[m]).0, place(done, recs[i].0))
}

/// A SYN is part of a handshake that the batch holds from its start: it carries nothing else, and it is the
/// first packet of its connection if it comes from the client, and directly follows a SYN if it comes from
/// the server.
pub open spec fn syn_in_place(done: PlanesView, recs: Seq<(IndexedRecord, bool)>, i: int) -> bool {
    let r = recs[i].0;
    flagged(r.rec, TCP_SYN) ==> {
        &&& !flagged(r.rec, TCP_RST)
        &&& !flagged(r.rec, TCP_FIN)
        &&& r.rec.orig_payload_len == 0
        &&& match side(done, r) {
            Dir::C2S => forall|m: int| 0 <= m < i ==> !on_conn(done, (#[trigger] recs[m]).0, place(done, r)),
            Dir::S2C => exists|j: int| follows_syn(done, recs, j, i),
        }
    }
}

/// After this packet nothing waits on its connection: it is a reset, or a server packet whose
/// acknowledgement is not too far ahead of the client stream to count.
pub open spec fn answers_all(x: PlanesView, r: IndexedRecord) -> bool {
    let c = SeqStream::of(opened_state(x, r), true);
    ||| flagged(r.rec, TCP_RST)
    ||| side(x, r) == Dir::S2C && c.abs(r.rec.tcp_ack) <= sat_add(c.last_abs, ACK_LEAD_CAP)
}

/// After packet `j` of a connection its client sends no more data in the batch.
pub open spec fn no_data_after(done: PlanesView, recs: Seq<(IndexedRecord, bool)>, j: int, h: u64) -> bool {
    &&& 0 <= j < recs.len()
    &&& on_conn(done, recs[j].0, h)
    &&& forall|m: int|
        j < m < recs.len() && on_conn(done, (#[trigger] recs[m]).0, h) ==> side(done, recs[m].0) == Dir::S2C || recs[m].0.rec.orig_payload_len
            == 0
}

/// A packet after the last data of the client leaves nothing waiting on a connection.
pub open spec fn ends_answered(
    pl: PlanesView,
    recs: Seq<(IndexedRecord, bool)>,
    par: QrParams,
    rules: Option<Seq<RuleView>>,
    h: u64,
) -> bool {
    exists|j: int|
        no_data_after(run(pl, recs, par, rules), recs, j, h) && #[trigger] answers_all(run(pl, recs.take(j), par, rules), recs[j].0)
}

/// What replay asks of packet `i` of a batch.
///
/// - The hash of its reverse direction becomes no other connection's.
/// - A SYN is in its place.
/// - Data of the client lies less than half the circle behind the point that its stream reaches in the batch.
/// - If it comes from the server, or ends the connection, all that the client sends on the connection is
///   answered within the batch.
pub open spec fn replayable_at(
    pl: PlanesView,
    recs: Seq<(IndexedRecord, bool)>,
    par: QrParams,
    rules: Option<Seq<RuleView>>,
    i: int,
) -> bool {
    let done = run(pl, recs, par, rules);
    let x = run(pl, recs.take(i), par, rules);
    let r = recs[i].0;
    let h = place(done, r);
    r.rec.proto == 6 ==> {
        &&& side(x, r) == Dir::S2C ==> !done.live.conns.contains_key(hash_forward(r))
        &&& syn_in_place(done, recs, i)
        &&& side(done, r) == Dir::C2S && !flagged(r.rec, TCP_RST) ==> {
            &&& r.rec.orig_payload_len < 0x8000_0000
            &&& done.live.conns[h].abs_seq_c - position(SeqStream::of(opened_state(x, r), true), r.rec.tcp_seq) < 0x8000_0000
        }
        &&& side(done, r) == Dir::S2C || flagged(r.rec, TCP_FIN) || flagged(r.rec, TCP_RST) ==> ends_answered(pl, recs, par, rules, h)
    }
}

/// A batch that can be replayed on the planes it left.
pub open spec fn replayable(pl: PlanesView, recs: Seq<(IndexedRecord, bool)>, par: QrParams, rules: Option<Seq<RuleView>>) -> bool {
    forall|i: int| 0 <= i < recs.len() ==> #[trigger] replayable_at(pl, recs, par, rules, i)
}

spec fn syn_checked(done: PlanesView, recs: Seq<(IndexedRecord, bool)>, i: int) -> bool {
    recs[i].0.rec.proto == 6 ==> syn_in_place(done, recs, i)
}

proof fn lemma_close_conns(pl: PlanesView, keys: Seq<PendingKey>, how: Outcome, n: nat)
    ensures
        close_all(pl, keys, how, n).live.conns == pl.live.conns,
    decreases n,
{
    if n > 0 {
        lemma_close_conns(pl, keys, how, (n - 1) as nat);
    }
}

/// In the middle of a handshake.
spec fn shaking(st: ConnState) -> bool {
    st.state == ConnStateKind::SynSent.code() || st.state == ConnStateKind::SynRcvd.code()
}

#[verifier::rlimit(60)]
proof fn lemma_exchanged_state(
    pl: PlanesView,
    h: u64,
    st: ConnState,
    r: IndexedRecord,
    dir: Dir,
    par: QrParams,
    rules: Option<Seq<RuleView>>,
    high: bool,
)
    ensures
        ({
            let g = exchanged(pl, h, st, r, dir, par, rules, high);
            &&& g.pl.live.conns == pl.live.conns
            &&& g.st.incarnation == st.incarnation
            &&& SeqStream::of(g.st, true) == if dir == Dir::S2C {
                SeqStream::of(st, true)
            } else {
                SeqStream::of(st, true).fed(r.rec.tcp_seq, r.rec.orig_payload_len).0
            }
            &&& g.st.syn_pkt_idx == if flagged(r.rec, TCP_SYN) && dir == Dir::C2S {
                r.loc()
            } else {
                st.syn_pkt_idx
            }
            &&& flagged(r.rec, TCP_SYN) && (dir == Dir::C2S || shaking(st)) ==> shaking(g.st)
            &&& dir == Dir::S2C || r.rec.orig_payload_len == 0 ==> g.st.qr_open <= st.qr_open
        }),
{
    let c0 = SeqStream::of(st, true);
    let s0 = SeqStream::of(st, false);
    let st2 = counted(handshake(st, r, dir), r.rec, dir);
    match dir {
        Dir::C2S => {
            let (c, start, fresh) = c0.fed(r.rec.tcp_seq, r.rec.orig_payload_len);
            let g = requested(pl, h, st2, r, start, fresh, rules, high);
            lemma_streams_fit(g.st, c, s0);
            assert(g.st.state == st2.state);
        },
        Dir::S2C => {
            let (s, start, fresh) = s0.fed(r.rec.tcp_seq, r.rec.orig_payload_len);
            let g = responded(pl, h, st2, r, c0, fresh, par);
            lemma_streams_fit(g.st, c0, s);
            let abs_ack = c0.abs(r.rec.tcp_ack);
            let keys = still_open(pl.live, pending_upto(pl.live.pending, h, st2.incarnation, sat_add(abs_ack, par.ack_tolerance as u64)));
            lemma_close_conns(pl, keys, Outcome::Matched { r, ids: crate::matching::ids_of(pl.live.pending, keys) }, keys.len());
            assert(g.st.state == st2.state);
        },
    }
}

/// What a packet does to the fields of its connection that replay looks at.
#[verifier::rlimit(60)]
proof fn lemma_moved_state(
    pl: PlanesView,
    h: u64,
    st: ConnState,
    r: IndexedRecord,
    dir: Dir,
    par: QrParams,
    rules: Option<Seq<RuleView>>,
    high: bool,
)
    ensures
        ({
            let g = moved(pl, h, st, r, dir, par, rules, high);
            let rst = flagged(r.rec, TCP_RST);
            &&& g.pl.live.conns == pl.live.conns
            &&& g.st.incarnation == st.incarnation
            &&& SeqStream::of(g.st, true) == if rst || dir == Dir::S2C {
                SeqStream::of(st, true)
            } else {
                SeqStream::of(st, true).fed(r.rec.tcp_seq, r.rec.orig_payload_len).0
            }
            &&& g.st.syn_pkt_idx == if flagged(r.rec, TCP_SYN) && dir == Dir::C2S && !rst {
                r.loc()
            } else {
                st.syn_pkt_idx
            }
            &&& flagged(r.rec, TCP_SYN) && !rst && !flagged(r.rec, TCP_FIN) && r.rec.orig_payload_len == 0 && (dir == Dir::C2S || shaking(st))
                ==> shaking(g.st)
            &&& dir == Dir::S2C || r.rec.orig_payload_len == 0 ==> g.st.qr_open <= st.qr_open
        }),
{
    if flagged(r.rec, TCP_RST) {
        let keys = pending_upto(pl.live.pending, h, st.incarnation, U48_MAX);
        lemma_close_conns(pl, keys, Outcome::Closed { status: QrStatus::RstAbort }, keys.len());
    } else {
        let g = exchanged(pl, h, st, r, dir, par, rules, high);
        lemma_exchanged_state(pl, h, st, r, dir, par, rules, high);
        let keys = pending_upto(g.pl.live.pending, h, g.st.incarnation, U48_MAX);
        lemma_close_conns(g.pl, keys, Outcome::Closed { status: QrStatus::Unmatched }, keys.len());
        lemma_close_conns(g.pl, keys, Outcome::Closed { status: QrStatus::AbortedResource }, keys.len());
        let c = concluded(g, h, st, r, par);
        assert(SeqStream::of(c.st, true) == SeqStream::of(g.st, true));
    }
}

/// A step in parts: a TCP packet writes its own connection and no other, and any other record writes none.
proof fn lemma_step_parts(x: PlanesView, r: IndexedRecord, par: QrParams, rules: Option<Seq<RuleView>>, high: bool)
    ensures
        ({
            let q = step(x, r, par, rules, high).pl;
            let (h, dir, st) = located(x.live.conns, r);
            let (p1, s1) = after_rebirth(recorded(x, r), h, st, r, dir);
            let g = moved(p1, h, s1, r, dir, par, rules, high);
            if r.rec.proto == 6 {
                &&& q.live == seated(g.pl.live, h, g.st)
                &&& q.live.conns == x.live.conns.insert(h, g.st)
                &&& SeqStream::of(s1, true) == SeqStream::of(opened_state(x, r), true)
                &&& s1.incarnation == opened_state(x, r).incarnation
                &&& s1.state == opened_state(x, r).state
                &&& s1.qr_open == opened_state(x, r).qr_open
                &&& s1.syn_pkt_idx == opened_state(x, r).syn_pkt_idx
            } else {
                q.live == x.live
            }
        }),
{
    if r.rec.proto == 6 {
        let p0 = recorded(x, r);
        let (h, dir, st) = located(x.live.conns, r);
        let (p1, s1) = after_rebirth(p0, h, st, r, dir);
        let keys = pending_upto(p0.live.pending, h, st.incarnation, U48_MAX);
        lemma_close_conns(p0, keys, Outcome::Closed { status: QrStatus::Unmatched }, keys.len());
        assert(reborn(p0, h, st, r, dir).st == reborn(x, h, st, r, dir).st);
        lemma_moved_state(p1, h, s1, r, dir, par, rules, high);
        let g = stepped(p0, h, st, r, dir, par, rules, high);
        let m = moved(p1, h, s1, r, dir, par, rules, high);
        assert(g.pl == m.pl && g.st == m.st);
        assert(step(x, r, par, rules, high).pl.live =~= seated(m.pl.live, h, m.st));
    }
}

/// What a packet writes to its connection.
spec fn written(before: ConnState, after: ConnState, r: IndexedRecord, dir: Dir) -> bool {
    let rst = flagged(r.rec, TCP_RST);
    let syn = flagged(r.rec, TCP_SYN);
    &&& after.incarnation == before.incarnation
    &&& SeqStream::of(after, true) == if rst || dir == Dir::S2C {
        SeqStream::of(before, true)
    } else {
        SeqStream::of(before, true).fed(r.rec.tcp_seq, r.rec.orig_payload_len).0
    }
    &&& after.syn_pkt_idx == if syn && dir == Dir::C2S && !rst {
        r.loc()
    } else {
        before.syn_pkt_idx
    }
    &&& syn && !rst && !flagged(r.rec, TCP_FIN) && r.rec.orig_payload_len == 0 && (dir == Dir::C2S || shaking(before)) ==> shaking(after)
    &&& dir == Dir::S2C || r.rec.orig_payload_len == 0 ==> after.qr_open <= before.qr_open
}

proof fn lemma_step_writes(x: PlanesView, r: IndexedRecord, par: QrParams, rules: Option<Seq<RuleView>>, high: bool)
    ensures
        ({
            let q = step(x, r, par, rules, high).pl;
            let h = place(x, r);
            if r.rec.proto == 6 {
                &&& q.live.conns.contains_key(h)
                &&& q.live.conns == x.live.conns.insert(h, q.live.conns[h])
                &&& written(opened_state(x, r), q.live.conns[h], r, side(x, r))
            } else {
                q.live == x.live
            }
        }),
{
    lemma_step_parts(x, r, par, rules, high);
    if r.rec.proto == 6 {
        let (h, dir, st) = located(x.live.conns, r);
        let (p1, s1) = after_rebirth(recorded(x, r), h, st, r, dir);
        lemma_moved_state(p1, h, s1, r, dir, par, rules, high);
        let q = step(x, r, par, rules, high).pl;
        assert(q.live.conns =~= x.live.conns.insert(h, q.live.conns[h]));
    }
}

/// The state that a record finds is in order.
proof fn lemma_opened_exact(x: PlanesView, r: IndexedRecord)
    requires
        tidy(x.live),
        r.rec.proto == 6,
        admissible(x, r),
    ensures
        aligned(SeqStream::of(opened_state(x, r), true)),
        opened_state(x, r).abs_seq_c <= U48_MAX,
{
    lemma_born_tidy(x, r);
    let (h, dir, st) = located(x.live.conns, r);
    let (p1, s1) = after_rebirth(recorded(x, r), h, st, r, dir);
    lemma_seated_exact(p1.live, h, s1);
    assert(SeqStream::of(s1, true).last_abs == s1.abs_seq_c);
    assert(SeqStream::of(opened_state(x, r), true).last_abs == opened_state(x, r).abs_seq_c);
}

/// The next prefix of a batch.
proof fn lemma_prefix(pl: PlanesView, recs: Seq<(IndexedRecord, bool)>, par: QrParams, rules: Option<Seq<RuleView>>, n: int)
    requires
        0 <= n < recs.len(),
    ensures
        run(pl, recs.take(n + 1), par, rules) == step(run(pl, recs.take(n), par, rules), recs[n].0, par, rules, recs[n].1).pl,
        all_admissible(pl, recs.take(n + 1), par, rules) ==> all_admissible(pl, recs.take(n), par, rules) && admissible(
            run(pl, recs.take(n), par, rules),
            recs[n].0,
        ),
        all_settled(pl, recs.take(n + 1), par, rules) <==> all_settled(pl, recs.take(n), par, rules) && settled(
            run(pl, recs.take(n), par, rules),
            recs[n].0,
        ),
{
    let a = recs.take(n + 1);
    assert(a.drop_last() =~= recs.take(n));
    assert(a.last() == recs[n]);
}

/// Every prefix of a batch leaves a tidy plane.
proof fn lemma_prefix_tidy(pl: PlanesView, recs: Seq<(IndexedRecord, bool)>, par: QrParams, rules: Option<Seq<RuleView>>, n: int)
    requires
        tidy(pl.live),
        all_admissible(pl, recs, par, rules),
        0 <= n <= recs.len(),
    ensures
        all_admissible(pl, recs.take(n), par, rules),
        tidy(run(pl, recs.take(n), par, rules).live),
        n < recs.len() ==> admissible(run(pl, recs.take(n), par, rules), recs[n].0),
    decreases recs.len() - n,
{
    if n == recs.len() {
        assert(recs.take(n) =~= recs);
    } else {
        lemma_prefix_tidy(pl, recs, par, rules, n + 1);
        lemma_prefix(pl, recs, par, rules, n);
    }
    law_open_count_is_exact(pl, recs.take(n), par, rules);
}

/// Known connections stay known.
proof fn lemma_conns_grow(pl: PlanesView, recs: Seq<(IndexedRecord, bool)>, par: QrParams, rules: Option<Seq<RuleView>>, m: int, n: int)
    requires
        0 <= m <= n <= recs.len(),
    ensures
        run(pl, recs.take(m), par, rules).live.conns.dom().subset_of(run(pl, recs.take(n), par, rules).live.conns.dom()),
    decreases n - m,
{
    if m < n {
        lemma_conns_grow(pl, recs, par, rules, m, n - 1);
        lemma_prefix(pl, recs, par, rules, n - 1);
        lemma_step_parts(run(pl, recs.take(n - 1), par, rules), recs[n - 1].0, par, rules, recs[n - 1].1);
    }
}

/// Each packet of a run is taken for the same connection and side as in the planes that the batch left.
spec fn seats(
    base: PlanesView,
    done: PlanesView,
    recs: Seq<(IndexedRecord, bool)>,
    par: QrParams,
    rules: Option<Seq<RuleView>>,
) -> bool {
    forall|n: int|
        0 <= n < recs.len() && (#[trigger] recs[n]).0.rec.proto == 6 ==> {
            let x = run(base, recs.take(n), par, rules);
            place(x, recs[n].0) == place(done, recs[n].0) && side(x, recs[n].0) == side(done, recs[n].0)
        }
}

proof fn lemma_first_seats(pl: PlanesView, recs: Seq<(IndexedRecord, bool)>, par: QrParams, rules: Option<Seq<RuleView>>)
    requires
        replayable(pl, recs, par, rules),
    ensures
        seats(pl, run(pl, recs, par, rules), recs, par, rules),
        forall|n: int|
            0 <= n < recs.len() && (#[trigger] recs[n]).0.rec.proto == 6 ==> run(pl, recs, par, rules).live.conns.contains_key(
                place(run(pl, recs, par, rules), recs[n].0),
            ),
{
    let done = run(pl, recs, par, rules);
    assert(recs.take(recs.len() as int) =~= recs);
    assert forall|n: int| 0 <= n < recs.len() && (#[trigger] recs[n]).0.rec.proto == 6 implies {
        let x = run(pl, recs.take(n), par, rules);
        place(x, recs[n].0) == place(done, recs[n].0) && side(x, recs[n].0) == side(done, recs[n].0) && done.live.conns.contains_key(
            place(done, recs[n].0),
        )
    } by {
        let x = run(pl, recs.take(n), par, rules);
        let r = recs[n].0;
        assert(replayable_at(pl, recs, par, rules, n));
        lemma_prefix(pl, recs, par, rules, n);
        lemma_step_parts(x, r, par, rules, recs[n].1);
        lemma_conns_grow(pl, recs, par, rules, n, recs.len() as int);
        lemma_conns_grow(pl, recs, par, rules, n + 1, recs.len() as int);
        let y = run(pl, recs.take(n + 1), par, rules);
        assert(y.live.conns.dom().contains(place(x, r)));
        assert(done.live.conns.dom().contains(place(x, r)));
        assert(x.live.conns.dom().contains(hash_forward(r)) ==> done.live.conns.dom().contains(hash_forward(r)));
    }
}

proof fn lemma_second_seats(pl: PlanesView, recs: Seq<(IndexedRecord, bool)>, par: QrParams, rules: Option<Seq<RuleView>>, n: int)
    requires
        0 <= n <= recs.len(),
        forall|m: int|
            0 <= m < recs.len() && (#[trigger] recs[m]).0.rec.proto == 6 ==> pl.live.conns.contains_key(place(pl, recs[m].0)),
    ensures
        run(pl, recs.take(n), par, rules).live.conns.dom() == pl.live.conns.dom(),
    decreases n,
{
    if n == 0 {
        assert(recs.take(0) =~= Seq::empty());
    } else {
        lemma_second_seats(pl, recs, par, rules, n - 1);
        lemma_prefix(pl, recs, par, rules, n - 1);
        let x = run(pl, recs.take(n - 1), par, rules);
        let r = recs[n - 1].0;
        lemma_step_parts(x, r, par, rules, recs[n - 1].1);
        if r.rec.proto == 6 {
            lemma_same_place(x, pl, r);
            assert(pl.live.conns.dom().contains(place(x, r)));
            assert(x.live.conns.insert(place(x, r), step(x, r, par, rules, recs[n - 1].1).pl.live.conns[place(x, r)]).dom() =~= pl.live.conns.dom());
        }
        assert(run(pl, recs.take(n), par, rules).live.conns.dom() =~= pl.live.conns.dom());
    }
}

/// The place of a packet depends on which connections are known alone.
proof fn lemma_same_place(x: PlanesView, y: PlanesView, r: IndexedRecord)
    requires
        x.live.conns.dom() == y.live.conns.dom(),
    ensures
        place(x, r) == place(y, r),
        side(x, r) == side(y, r),
{
    assert(x.live.conns.contains_key(hash_forward(r)) == x.live.conns.dom().contains(hash_forward(r)));
    assert(x.live.conns.contains_key(hash_backward(r)) == x.live.conns.dom().contains(hash_backward(r)));
    assert(y.live.conns.contains_key(hash_forward(r)) == y.live.conns.dom().contains(hash_forward(r)));
    assert(y.live.conns.contains_key(hash_backward(r)) == y.live.conns.dom().contains(hash_backward(r)));
}

/// Nothing opens an incarnation during a handshake.
proof fn lemma_shaking_opens_nothing(x: PlanesView, r: IndexedRecord)
    requires
        x.live.conns.contains_key(place(x, r)),
        shaking(x.live.conns[place(x, r)]),
    ensures
        opened_state(x, r) == x.live.conns[place(x, r)],
{
}

/// Between a SYN and the next packet of its connection the handshake is under way.
#[verifier::rlimit(60)]
proof fn lemma_shaking(
    base: PlanesView,
    done: PlanesView,
    recs: Seq<(IndexedRecord, bool)>,
    par: QrParams,
    rules: Option<Seq<RuleView>>,
    j: int,
    n: int,
)
    requires
        seats(base, done, recs, par, rules),
        0 <= j < n <= recs.len(),
        recs[j].0.rec.proto == 6,
        flagged(recs[j].0.rec, TCP_SYN),
        forall|m: int| 0 <= m < recs.len() ==> #[trigger] syn_checked(done, recs, m),
        forall|m: int| j < m < n ==> !on_conn(done, (#[trigger] recs[m]).0, place(done, recs[j].0)),
    ensures
        run(base, recs.take(n), par, rules).live.conns.contains_key(place(done, recs[j].0)),
        shaking(run(base, recs.take(n), par, rules).live.conns[place(done, recs[j].0)]),
    decreases j, n,
{
    let h = place(done, recs[j].0);
    lemma_prefix(base, recs, par, rules, n - 1);
    let x = run(base, recs.take(n - 1), par, rules);
    let r = recs[n - 1].0;
    lemma_step_writes(x, r, par, rules, recs[n - 1].1);
    if n == j + 1 {
        assert(syn_checked(done, recs, j));
        assert(place(x, r) == h && side(x, r) == side(done, r));
        if side(x, r) == Dir::S2C {
            let k = choose|k: int| follows_syn(done, recs, k, j);
            assert(follows_syn(done, recs, k, j));
            assert(place(done, recs[k].0) == h);
            lemma_shaking(base, done, recs, par, rules, k, j);
            lemma_shaking_opens_nothing(x, r);
        }
    } else {
        lemma_shaking(base, done, recs, par, rules, j, n - 1);
        assert(!on_conn(done, recs[n - 1].0, h));
    }
}

/// A packet moves its stream to its own end at least, and never back.
proof fn lemma_fed_covers(s: SeqStream, seq: u32, len: u32)
    requires
        s.last_abs <= U48_MAX,
        len < 0x8000_0000,
    ensures
        s.fed(seq, len).0.active,
        s.fed(seq, len).0.last_abs >= position(s, seq) + len,
        s.active ==> s.fed(seq, len).0.last_abs >= s.last_abs,
{
    if s.active {
        law_stream_never_rewinds(s, seq, len);
        let d = seq_diff(seq, s.last_raw);
        if d <= 0 {
            let end = seq_add(seq, len as int);
            assert(seq_diff(end, s.last_raw) == d + len);
        }
    }
}

/// A position is its sequence number on the circle.
proof fn lemma_position_on_circle(s: SeqStream, seq: u32)
    requires
        aligned(s),
    ensures
        position(s, seq) % 0x1_0000_0000 == seq,
{
    if s.active {
        let q = s.last_abs / 0x1_0000_0000;
        assert(s.last_abs == q * 0x1_0000_0000 + s.last_raw);
        let d = seq_diff(seq, s.last_raw);
        let e = s.last_raw + d;
        if e == seq {
            assert((q * 0x1_0000_0000 + seq) % 0x1_0000_0000 == seq);
        } else if e == seq + 0x1_0000_0000 {
            assert(((q + 1) * 0x1_0000_0000 + seq) % 0x1_0000_0000 == seq);
        } else {
            assert(e == seq - 0x1_0000_0000);
            assert(((q - 1) * 0x1_0000_0000 + seq) % 0x1_0000_0000 == seq);
        }
    }
}

/// How far a number lies behind the head shows on the circle.
proof fn lemma_distance(a: int, lo: int, raw: u32, seq: u32)
    requires
        a % 0x1_0000_0000 == raw,
        lo % 0x1_0000_0000 == seq,
        0 <= a - lo < 0x8000_0000,
    ensures
        seq_diff(seq, raw) == lo - a,
{
    let (p, q) = (a / 0x1_0000_0000, lo / 0x1_0000_0000);
    assert(a == p * 0x1_0000_0000 + raw);
    assert(lo == q * 0x1_0000_0000 + seq);
    let k = p - q;
    assert(a - lo == k * 0x1_0000_0000 + raw - seq);
    assert(k == 0 || k == 1);
}

/// Data that ends at or behind the head of a stream, less than half the circle away, brings nothing.
proof fn lemma_behind(s: SeqStream, lo: int, seq: u32, len: u32)
    requires
        s.active,
        aligned(s),
        lo % 0x1_0000_0000 == seq,
        lo + len <= s.last_abs,
        s.last_abs - lo < 0x8000_0000,
    ensures
        s.fed(seq, len) == (s, s.last_abs, 0u32),
{
    lemma_distance(s.last_abs as int, lo, s.last_raw, seq);
    let end = seq_add(seq, len as int);
    let q = lo / 0x1_0000_0000;
    assert(lo == q * 0x1_0000_0000 + seq);
    assert((lo + len) % 0x1_0000_0000 == end) by {
        if seq + len < 0x1_0000_0000 {
            assert((q * 0x1_0000_0000 + end) % 0x1_0000_0000 == end);
        } else {
            assert(((q + 1) * 0x1_0000_0000 + end) % 0x1_0000_0000 == end);
        }
    }
    lemma_distance(s.last_abs as int, lo + len, s.last_raw, end);
}

/// What the planes of a prefix still know of packet `i`: its connection, that the client stream has passed
/// its data, and that it is the SYN of its connection if it is one.
spec fn remembered(pl: PlanesView, recs: Seq<(IndexedRecord, bool)>, par: QrParams, rules: Option<Seq<RuleView>>, i: int, n: int) -> bool {
    let x = run(pl, recs.take(i), par, rules);
    let r = recs[i].0;
    let h = place(x, r);
    let y = run(pl, recs.take(n), par, rules);
    let st = y.live.conns[h];
    &&& y.live.conns.contains_key(h)
    &&& side(x, r) == Dir::C2S && !flagged(r.rec, TCP_RST) ==> {
        &&& st.has_c()
        &&& st.abs_seq_c >= position(SeqStream::of(opened_state(x, r), true), r.rec.tcp_seq) + r.rec.orig_payload_len
        &&& flagged(r.rec, TCP_SYN) ==> st.syn_pkt_idx == r.loc()
    }
}

/// A later packet of a connection opens no incarnation, in the first run or in another of the same seats.
#[verifier::rlimit(60)]
proof fn lemma_no_rebirth(
    base: PlanesView,
    done: PlanesView,
    recs: Seq<(IndexedRecord, bool)>,
    par: QrParams,
    rules: Option<Seq<RuleView>>,
    m: int,
)
    requires
        seats(base, done, recs, par, rules),
        0 <= m < recs.len(),
        recs[m].0.rec.proto == 6,
        forall|q: int| 0 <= q < recs.len() ==> #[trigger] syn_checked(done, recs, q),
        run(base, recs.take(m), par, rules).live.conns.contains_key(place(done, recs[m].0)),
        side(done, recs[m].0) == Dir::S2C || !flagged(recs[m].0.rec, TCP_SYN) || run(base, recs.take(m), par, rules).live.conns[place(
            done,
            recs[m].0,
        )].syn_pkt_idx == recs[m].0.loc(),
    ensures
        ({
            let x = run(base, recs.take(m), par, rules);
            let st = x.live.conns[place(done, recs[m].0)];
            &&& located(x.live.conns, recs[m].0) == (place(done, recs[m].0), side(done, recs[m].0), st)
            &&& !is_rebirth(st, recs[m].0, side(done, recs[m].0))
            &&& opened_state(x, recs[m].0) == st
        }),
{
    let x = run(base, recs.take(m), par, rules);
    let r = recs[m].0;
    let h = place(done, r);
    let st = x.live.conns[h];
    assert(place(x, r) == h && side(x, r) == side(done, r));
    if flagged(r.rec, TCP_SYN) && side(done, r) == Dir::S2C {
        assert(syn_checked(done, recs, m));
        let j = choose|j: int| follows_syn(done, recs, j, m);
        assert(follows_syn(done, recs, j, m));
        assert(place(done, recs[j].0) == h);
        lemma_shaking(base, done, recs, par, rules, j, m);
    }
}

/// A packet after the first of its connection finds the connection as it is.
#[verifier::rlimit(60)]
proof fn lemma_later(pl: PlanesView, recs: Seq<(IndexedRecord, bool)>, par: QrParams, rules: Option<Seq<RuleView>>, i: int, m: int)
    requires
        replayable(pl, recs, par, rules),
        0 <= i < m < recs.len(),
        recs[i].0.rec.proto == 6,
        on_conn(run(pl, recs, par, rules), recs[m].0, place(run(pl, recs, par, rules), recs[i].0)),
        run(pl, recs.take(m), par, rules).live.conns.contains_key(place(run(pl, recs, par, rules), recs[m].0)),
    ensures
        ({
            let x = run(pl, recs.take(m), par, rules);
            let r = recs[m].0;
            &&& opened_state(x, r) == x.live.conns[place(x, r)]
            &&& flagged(r.rec, TCP_SYN) ==> side(x, r) == Dir::S2C
        }),
{
    let done = run(pl, recs, par, rules);
    lemma_first_seats(pl, recs, par, rules);
    lemma_syns(pl, recs, par, rules);
    let r = recs[m].0;
    assert(syn_checked(done, recs, m));
    if flagged(r.rec, TCP_SYN) {
        assert(on_conn(done, recs[i].0, place(done, r)));
        assert(side(done, r) == Dir::S2C);
    }
    lemma_no_rebirth(pl, done, recs, par, rules, m);
}

/// What a packet of the client does to its stream.
#[verifier::rlimit(60)]
proof fn lemma_stream_written(pl: PlanesView, recs: Seq<(IndexedRecord, bool)>, par: QrParams, rules: Option<Seq<RuleView>>, m: int)
    requires
        tidy(pl.live),
        all_admissible(pl, recs, par, rules),
        replayable(pl, recs, par, rules),
        0 <= m < recs.len(),
        recs[m].0.rec.proto == 6,
    ensures
        ({
            let x = run(pl, recs.take(m), par, rules);
            let y = run(pl, recs.take(m + 1), par, rules);
            let r = recs[m].0;
            let before = opened_state(x, r);
            let after = y.live.conns[place(x, r)];
            &&& y.live.conns.contains_key(place(x, r))
            &&& before.has_c() ==> after.has_c() && after.abs_seq_c >= before.abs_seq_c
            &&& side(x, r) == Dir::C2S && !flagged(r.rec, TCP_RST) ==> {
                &&& after.has_c()
                &&& after.abs_seq_c >= position(SeqStream::of(before, true), r.rec.tcp_seq) + r.rec.orig_payload_len
                &&& flagged(r.rec, TCP_SYN) ==> after.syn_pkt_idx == r.loc()
            }
            &&& side(x, r) == Dir::S2C || !flagged(r.rec, TCP_SYN) ==> after.syn_pkt_idx == before.syn_pkt_idx
        }),
{
    let x = run(pl, recs.take(m), par, rules);
    let r = recs[m].0;
    lemma_prefix(pl, recs, par, rules, m);
    lemma_step_writes(x, r, par, rules, recs[m].1);
    lemma_prefix_tidy(pl, recs, par, rules, m);
    lemma_opened_exact(x, r);
    lemma_first_seats(pl, recs, par, rules);
    let s = SeqStream::of(opened_state(x, r), true);
    if side(x, r) == Dir::C2S && !flagged(r.rec, TCP_RST) {
        assert(replayable_at(pl, recs, par, rules, m));
        lemma_fed_covers(s, r.rec.tcp_seq, r.rec.orig_payload_len);
    }
}

#[verifier::rlimit(60)]
proof fn lemma_remembered(pl: PlanesView, recs: Seq<(IndexedRecord, bool)>, par: QrParams, rules: Option<Seq<RuleView>>, i: int, n: int)
    requires
        tidy(pl.live),
        all_admissible(pl, recs, par, rules),
        replayable(pl, recs, par, rules),
        0 <= i < n <= recs.len(),
        recs[i].0.rec.proto == 6,
    ensures
        remembered(pl, recs, par, rules, i, n),
    decreases n,
{
    let done = run(pl, recs, par, rules);
    let m = n - 1;
    if m == i {
        lemma_stream_written(pl, recs, par, rules, i);
    } else {
        lemma_remembered(pl, recs, par, rules, i, m);
        lemma_first_seats(pl, recs, par, rules);
        let h = place(done, recs[i].0);
        let x = run(pl, recs.take(m), par, rules);
        let r = recs[m].0;
        assert(place(run(pl, recs.take(i), par, rules), recs[i].0) == h);
        lemma_prefix(pl, recs, par, rules, m);
        lemma_step_writes(x, r, par, rules, recs[m].1);
        if r.rec.proto == 6 && place(done, r) == h {
            assert(place(x, r) == h);
            lemma_later(pl, recs, par, rules, i, m);
            lemma_stream_written(pl, recs, par, rules, m);
        }
    }
}

proof fn lemma_syns(pl: PlanesView, recs: Seq<(IndexedRecord, bool)>, par: QrParams, rules: Option<Seq<RuleView>>)
    requires
        replayable(pl, recs, par, rules),
    ensures
        forall|q: int| 0 <= q < recs.len() ==> #[trigger] syn_checked(run(pl, recs, par, rules), recs, q),
{
    assert forall|q: int| 0 <= q < recs.len() implies #[trigger] syn_checked(run(pl, recs, par, rules), recs, q) by {
        assert(replayable_at(pl, recs, par, rules, q));
    }
}

/// A connection without pending rows has no open request, and the other way round.
proof fn lemma_quiet(live: LiveView, h: u64)
    requires
        tidy(live),
        live.conns.contains_key(h),
    ensures
        live.conns[h].qr_open == 0 <==> forall|key: PendingKey| #[trigger] live.pending.contains_key(key) ==> key.conn != h,
{
    assert(state_exact(live, live.conns[h], h));
    let open = open_requests(live, h);
    assert(open.subset_of(live.pairs.dom()));
    vstd::set_lib::lemma_len_subset(open, live.pairs.dom());
    if live.conns[h].qr_open == 0 {
        assert(open =~= Set::empty());
        assert forall|key: PendingKey| #[trigger] live.pending.contains_key(key) implies key.conn != h by {
            assert(row_linked(live, live.conns, key));
            if key.conn == h {
                assert(open.contains(live.pending[key].q_first_idx));
            }
        }
    } else {
        let id = open.choose();
        assert(open.contains(id));
        assert(live.pairs.contains_key(id));
        assert(live.pending.contains_key(row_of_request(live, live.conns, id)));
    }
}

/// A packet that answers all leaves nothing waiting on its connection.
#[verifier::rlimit(60)]
proof fn lemma_answers_all(x: PlanesView, r: IndexedRecord, par: QrParams, rules: Option<Seq<RuleView>>, high: bool)
    requires
        tidy(x.live),
        admissible(x, r),
        r.rec.proto == 6,
        answers_all(x, r),
    ensures
        step(x, r, par, rules, high).pl.live.conns.contains_key(place(x, r)),
        step(x, r, par, rules, high).pl.live.conns[place(x, r)].qr_open == 0,
{
    let (h, dir, st) = located(x.live.conns, r);
    let (p1, s1) = after_rebirth(recorded(x, r), h, st, r, dir);
    lemma_step_parts(x, r, par, rules, high);
    lemma_step_tidy(x, r, par, rules, high);
    lemma_born_tidy(x, r);
    lemma_seated_exact(p1.live, h, s1);
    let out = step(x, r, par, rules, high).pl.live;
    let m = moved(p1, h, s1, r, dir, par, rules, high);
    if flagged(r.rec, TCP_RST) {
        let g = reset(p1, h, s1, r);
        assert(SeqStream::of(g.st, true) == SeqStream::of(s1, true));
        lemma_sweep_tidy(p1, h, s1, Outcome::Closed { status: QrStatus::RstAbort }, g.st);
    } else {
        let g = exchanged(p1, h, s1, r, dir, par, rules, high);
        lemma_server_packet_answers(p1, h, s1, r, par, rules, high);
        lemma_exchanged_tidy(p1, h, s1, r, dir, par, rules, high);
        let gs = seated(g.pl.live, h, g.st);
        assert(gs.pending.dom().finite());
        let keys = pending_upto(g.pl.live.pending, h, g.st.incarnation, U48_MAX);
        lemma_pending_upto(g.pl, h, g.st.incarnation, U48_MAX);
        if keys.len() > 0 {
            assert(g.pl.live.pending.contains_key(keys[0]));
        }
        assert(m.pl == g.pl);
    }
    assert forall|key: PendingKey| #[trigger] out.pending.contains_key(key) implies key.conn != h by {
        assert(m.pl.live.pending.contains_key(key));
    }
    lemma_quiet(out, h);
}

#[verifier::rlimit(60)]
proof fn lemma_server_packet_answers(
    pl: PlanesView,
    h: u64,
    st: ConnState,
    r: IndexedRecord,
    par: QrParams,
    rules: Option<Seq<RuleView>>,
    high: bool,
)
    requires
        tidy(seated(pl.live, h, st)),
        ({
            let c = SeqStream::of(st, true);
            c.abs(r.rec.tcp_ack) <= sat_add(c.last_abs, ACK_LEAD_CAP)
        }),
    ensures
        forall|key: PendingKey| #[trigger]
            exchanged(pl, h, st, r, Dir::S2C, par, rules, high).pl.live.pending.contains_key(key) ==> key.conn != h,
{
    let c0 = SeqStream::of(st, true);
    let s0 = SeqStream::of(st, false);
    let st2 = counted(handshake(st, r, Dir::S2C), r.rec, Dir::S2C);
    let (s, start, fresh) = s0.fed(r.rec.tcp_seq, r.rec.orig_payload_len);
    let st3 = if fresh > 0 {
        ConnState { resp_cnt: sat_add(st2.resp_cnt, 1), ..st2 }
    } else {
        st2
    };
    let abs_ack = c0.abs(r.rec.tcp_ack);
    let u = seated(pl.live, h, st);
    lemma_seated_exact(pl.live, h, st);
    lemma_kin(pl.live, h, st, st3);
    lemma_consumed_tidy(pl, h, st3, r, abs_ack, par);
    let q = exchanged(pl, h, st, r, Dir::S2C, par, rules, high).pl;
    assert(q == responded(pl, h, st2, r, c0, fresh, par).pl);
    assert(c0.active ==> abs_ack >= c0.last_abs) by {
        assert(c0.last_abs <= U48_MAX);
    }
    if abs_ack > st3.consumed_ack_s {
        let g = consumed(pl, h, st3, r, abs_ack, par);
        assert(q == g.pl);
        let t = seated(g.pl.live, h, g.st);
        assert(SeqStream::of(g.st, true) == c0);
        assert forall|key: PendingKey| #[trigger] q.live.pending.contains_key(key) implies key.conn != h by {
            assert(t.pending.contains_key(key));
        }
    } else {
        assert(q == pl);
        assert forall|key: PendingKey| #[trigger] q.live.pending.contains_key(key) implies key.conn != h by {
            assert(u.pending.contains_key(key));
        }
    }
}

/// A connection without data after a packet that answers all has nothing waiting in the end.
proof fn lemma_ends_quiet(
    pl: PlanesView,
    recs: Seq<(IndexedRecord, bool)>,
    par: QrParams,
    rules: Option<Seq<RuleView>>,
    h: u64,
    j: int,
    n: int,
)
    requires
        tidy(pl.live),
        all_admissible(pl, recs, par, rules),
        replayable(pl, recs, par, rules),
        no_data_after(run(pl, recs, par, rules), recs, j, h),
        answers_all(run(pl, recs.take(j), par, rules), recs[j].0),
        j < n <= recs.len(),
    ensures
        run(pl, recs.take(n), par, rules).live.conns.contains_key(h),
        run(pl, recs.take(n), par, rules).live.conns[h].qr_open == 0,
    decreases n,
{
    let m = n - 1;
    let done = run(pl, recs, par, rules);
    let x = run(pl, recs.take(m), par, rules);
    lemma_first_seats(pl, recs, par, rules);
    lemma_prefix(pl, recs, par, rules, m);
    lemma_prefix_tidy(pl, recs, par, rules, m);
    lemma_step_writes(x, recs[m].0, par, rules, recs[m].1);
    if m == j {
        lemma_answers_all(x, recs[m].0, par, rules, recs[m].1);
    } else {
        lemma_ends_quiet(pl, recs, par, rules, h, j, m);
        if on_conn(done, recs[m].0, h) {
            assert(place(x, recs[m].0) == h && side(x, recs[m].0) == side(done, recs[m].0));
            assert(opened_state(x, recs[m].0).qr_open <= x.live.conns[h].qr_open);
        }
    }
}

/// The fields of a connection that replay leaves alone.
spec fn unmoved(a: ConnState, b: ConnState) -> bool {
    &&& a.incarnation == b.incarnation
    &&& SeqStream::of(a, true) == SeqStream::of(b, true)
    &&& a.syn_pkt_idx == b.syn_pkt_idx
}

spec fn all_unmoved(a: PlanesView, b: PlanesView) -> bool {
    &&& a.live.conns.dom() == b.live.conns.dom()
    &&& forall|h: u64| #[trigger] a.live.conns.contains_key(h) ==> unmoved(a.live.conns[h], b.live.conns[h])
}

#[verifier::rlimit(60)]
proof fn lemma_replay(pl: PlanesView, recs: Seq<(IndexedRecord, bool)>, par: QrParams, rules: Option<Seq<RuleView>>, n: int)
    requires
        tidy(pl.live),
        all_admissible(pl, recs, par, rules),
        replayable(pl, recs, par, rules),
        0 <= n <= recs.len(),
    ensures
        ({
            let done = run(pl, recs, par, rules);
            let y = run(done, recs.take(n), par, rules);
            &&& all_settled(done, recs.take(n), par, rules)
            &&& same_requests(done, y)
            &&& all_unmoved(done, y)
        }),
    decreases n,
{
    let done = run(pl, recs, par, rules);
    let len = recs.len() as int;
    assert(recs.take(len) =~= recs);
    if n == 0 {
        assert(recs.take(0) =~= Seq::empty());
    } else {
        let m = n - 1;
        lemma_replay(pl, recs, par, rules, m);
        let y = run(done, recs.take(m), par, rules);
        let r = recs[m].0;
        lemma_prefix(done, recs, par, rules, m);
        lemma_prefix_tidy(pl, recs, par, rules, len);
        assert(y.live.pending.dom().finite());
        lemma_step_writes(y, r, par, rules, recs[m].1);
        if r.rec.proto == 6 {
            lemma_replayed_packet(pl, recs, par, rules, m);
            let z = step(y, r, par, rules, recs[m].1).pl;
            assert(y.live.conns.dom().contains(place(done, r)));
            assert(z.live.conns.dom() =~= done.live.conns.dom());
            assert forall|q: u64| #[trigger] done.live.conns.contains_key(q) implies unmoved(done.live.conns[q], z.live.conns[q]) by {
                assert(unmoved(done.live.conns[q], y.live.conns[q]));
            }
        }
        lemma_settled_step(y, r, par, rules, recs[m].1);
    }
}

/// Nothing waits in the end on a connection where replay asks for that.
#[verifier::rlimit(60)]
proof fn lemma_at_rest(pl: PlanesView, recs: Seq<(IndexedRecord, bool)>, par: QrParams, rules: Option<Seq<RuleView>>, m: int, y: PlanesView)
    requires
        tidy(pl.live),
        all_admissible(pl, recs, par, rules),
        replayable(pl, recs, par, rules),
        0 <= m < recs.len(),
        recs[m].0.rec.proto == 6,
        side(run(pl, recs, par, rules), recs[m].0) == Dir::S2C || flagged(recs[m].0.rec, TCP_FIN) || flagged(recs[m].0.rec, TCP_RST),
        y.live.pending == run(pl, recs, par, rules).live.pending,
    ensures
        forall|inc: u16| (#[trigger] pending_upto(y.live.pending, place(run(pl, recs, par, rules), recs[m].0), inc, U48_MAX)).len() == 0,
{
    let done = run(pl, recs, par, rules);
    let len = recs.len() as int;
    assert(recs.take(len) =~= recs);
    let h = place(done, recs[m].0);
    assert(replayable_at(pl, recs, par, rules, m));
    let j = choose|j: int| no_data_after(done, recs, j, h) && #[trigger] answers_all(run(pl, recs.take(j), par, rules), recs[j].0);
    lemma_ends_quiet(pl, recs, par, rules, h, j, len);
    lemma_prefix_tidy(pl, recs, par, rules, len);
    lemma_quiet(done.live, h);
    assert forall|inc: u16| (#[trigger] pending_upto(y.live.pending, h, inc, U48_MAX)).len() == 0 by {
        let keys = pending_upto(y.live.pending, h, inc, U48_MAX);
        lemma_pending_upto(y, h, inc, U48_MAX);
        if keys.len() > 0 {
            assert(y.live.pending.contains_key(keys[0]));
            assert(done.live.pending.contains_key(keys[0]));
        }
    }
}

/// Data of the client lies behind the head that its stream reached.
#[verifier::rlimit(60)]
proof fn lemma_client_data_is_behind(pl: PlanesView, recs: Seq<(IndexedRecord, bool)>, par: QrParams, rules: Option<Seq<RuleView>>, m: int)
    requires
        tidy(pl.live),
        all_admissible(pl, recs, par, rules),
        replayable(pl, recs, par, rules),
        0 <= m < recs.len(),
        recs[m].0.rec.proto == 6,
        side(run(pl, recs, par, rules), recs[m].0) == Dir::C2S,
        !flagged(recs[m].0.rec, TCP_RST),
    ensures
        ({
            let done = run(pl, recs, par, rules);
            let r = recs[m].0;
            let st = done.live.conns[place(done, r)];
            let c = SeqStream::of(st, true);
            &&& c.fed(r.rec.tcp_seq, r.rec.orig_payload_len) == (c, c.last_abs, 0u32)
            &&& flagged(r.rec, TCP_SYN) ==> st.syn_pkt_idx == r.loc()
        }),
{
    let done = run(pl, recs, par, rules);
    let len = recs.len() as int;
    assert(recs.take(len) =~= recs);
    let x = run(pl, recs.take(m), par, rules);
    let r = recs[m].0;
    let h = place(done, r);
    lemma_first_seats(pl, recs, par, rules);
    assert(place(x, r) == h && side(x, r) == Dir::C2S);
    assert(replayable_at(pl, recs, par, rules, m));
    lemma_remembered(pl, recs, par, rules, m, len);
    lemma_prefix_tidy(pl, recs, par, rules, len);
    lemma_prefix_tidy(pl, recs, par, rules, m);
    assert(state_exact(done.live, done.live.conns[h], h));
    lemma_opened_exact(x, r);
    let s = SeqStream::of(opened_state(x, r), true);
    lemma_position_on_circle(s, r.rec.tcp_seq);
    lemma_behind(SeqStream::of(done.live.conns[h], true), position(s, r.rec.tcp_seq), r.rec.tcp_seq, r.rec.orig_payload_len);
}

/// A packet of the batch is settled when it is replayed, and its connection's stream stays where it is.
#[verifier::rlimit(60)]
proof fn lemma_replayed_packet(pl: PlanesView, recs: Seq<(IndexedRecord, bool)>, par: QrParams, rules: Option<Seq<RuleView>>, m: int)
    requires
        tidy(pl.live),
        all_admissible(pl, recs, par, rules),
        replayable(pl, recs, par, rules),
        0 <= m < recs.len(),
        recs[m].0.rec.proto == 6,
        ({
            let done = run(pl, recs, par, rules);
            let y = run(done, recs.take(m), par, rules);
            same_requests(done, y) && all_unmoved(done, y)
        }),
    ensures
        ({
            let done = run(pl, recs, par, rules);
            let y = run(done, recs.take(m), par, rules);
            let r = recs[m].0;
            let h = place(done, r);
            let st = y.live.conns[h];
            let c = SeqStream::of(st, true);
            &&& settled(y, r)
            &&& y.live.conns.contains_key(h)
            &&& place(y, r) == h
            &&& side(y, r) == side(done, r)
            &&& opened_state(y, r) == st
            &&& side(done, r) == Dir::C2S && !flagged(r.rec, TCP_RST) ==> c.fed(r.rec.tcp_seq, r.rec.orig_payload_len).0 == c
            &&& side(done, r) == Dir::C2S && flagged(r.rec, TCP_SYN) && !flagged(r.rec, TCP_RST) ==> st.syn_pkt_idx == r.loc()
        }),
{
    let done = run(pl, recs, par, rules);
    let y = run(done, recs.take(m), par, rules);
    let r = recs[m].0;
    let h = place(done, r);
    lemma_first_seats(pl, recs, par, rules);
    lemma_syns(pl, recs, par, rules);
    assert(done.live.conns.contains_key(h));
    assert(y.live.conns.dom().contains(h));
    let st = y.live.conns[h];
    assert(unmoved(done.live.conns[h], st));
    assert(seats(done, done, recs, par, rules)) by {
        assert forall|q: int| 0 <= q < recs.len() && (#[trigger] recs[q]).0.rec.proto == 6 implies {
            let z = run(done, recs.take(q), par, rules);
            place(z, recs[q].0) == place(done, recs[q].0) && side(z, recs[q].0) == side(done, recs[q].0)
        } by {
            lemma_second_seats(done, recs, par, rules, q);
            lemma_same_place(run(done, recs.take(q), par, rules), done, recs[q].0);
        }
    }
    if side(done, r) == Dir::S2C || flagged(r.rec, TCP_FIN) || flagged(r.rec, TCP_RST) {
        lemma_at_rest(pl, recs, par, rules, m, y);
        assert(pending_upto(y.live.pending, h, st.incarnation, U48_MAX).len() == 0);
    }
    if flagged(r.rec, TCP_SYN) {
        assert(syn_checked(done, recs, m));
    }
    if side(done, r) == Dir::C2S && !flagged(r.rec, TCP_RST) {
        lemma_client_data_is_behind(pl, recs, par, rules, m);
    }
    lemma_no_rebirth(done, done, recs, par, rules, m);
}

/// A batch that was committed but whose watermark was lost can be run again on the planes that it left: no
/// request is added, doubled, answered anew or changed, in either plane or any index. This holds of every
/// batch in which each handshake is held from its start, no stream advances by half the circle, and all that
/// the client sends on a connection that the server takes part in, or that ends, is answered.
pub proof fn law_committed_batch_can_be_replayed(
    pl: PlanesView,
    recs: Seq<(IndexedRecord, bool)>,
    par: QrParams,
    rules: Option<Seq<RuleView>>,
)
    requires
        tidy(pl.live),
        all_admissible(pl, recs, par, rules),
        replayable(pl, recs, par, rules),
    ensures
        ({
            let done = run(pl, recs, par, rules);
            same_requests(done, run(done, recs, par, rules))
        }),
{
    assert(recs.take(recs.len() as int) =~= recs);
    lemma_replay(pl, recs, par, rules, recs.len() as int);
}

} // verus!
