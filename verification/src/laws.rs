//! Laws of the matching engine.

use crate::anomaly::{deadline, due_rows, looked, nanos, short_wait, state_of, ttl_scan, Sweep};
use crate::codec::{
    be, be_words, from_be, law_key_order_is_numeric, lemma_be_len, lemma_be_round_trip, lemma_from_be_concat,
    lemma_pow256_values, lex_less,
};
use crate::connection::anomaly;
use crate::connection::{active_with_c, active_with_fin, active_with_s, both_fins, ConnState, ConnStateKind};
use crate::db::{pending_key, QrPairView, QrStatus, U48_MAX};
use crate::device::{all_conns, all_ended, concerns, conn_end, ended, ended_upto, request_end, Cause};
use crate::matching::{
    close_all, close_one, closes, concluded, condition_marked, consumed, counted, exchanged, finish_pair,
    finished, flagged, gap_marked, handshake, ids_of, is_open, is_rebirth, located, low48, merged, moved, opened,
    pending_upto, reborn, recorded, requested, reset, responded, sat_add, step, stepped, still_open,
    with_request, Dir, Outcome, Stage,
};
use crate::meta::RuleView;
use crate::plane::{EpochView, PlanesView};
use crate::qr::{QrParams, SeqStream, ACK_LEAD_CAP};
use crate::table::{IndexKey, Key2, Key3, PendingKey};
use crate::wal::{IndexedRecord, FLAG_DEGRADED, TCP_FIN, TCP_RST, TCP_SYN};
use vstd::prelude::*;

pub mod audits;
pub mod calls;
pub mod counts;
pub mod exports;
pub mod formats;
pub mod intake;
pub mod protocols;
pub mod queries;
pub mod records;
pub mod replay;
pub mod staging;
pub mod states;

verus! {

/// Every row of `a` is in `b`, unchanged.
pub open spec fn kept<K, W>(a: Map<K, W>, b: Map<K, W>) -> bool {
    forall|k: K| #![trigger a.contains_key(k)] #![trigger b.contains_key(k)] a.contains_key(k) ==> b.contains_key(k) && a[k] == b[k]
}

/// Every row of history `a` is in history `b`, unchanged.
pub open spec fn grown(a: EpochView, b: EpochView) -> bool {
    &&& kept(a.pairs, b.pairs)
    &&& kept(a.conn_qr, b.conn_qr)
    &&& kept(a.qr_key, b.qr_key)
    &&& kept(a.qr_time, b.qr_time)
    &&& kept(a.packet_qr, b.packet_qr)
    &&& kept(a.record_ts, b.record_ts)
}

proof fn lemma_finish_grown(pl: PlanesView, k: u64, how: Outcome, i: int)
    ensures
        grown(pl.epoch, finish_pair(pl, k, how, i).epoch),
{
}

proof fn lemma_close_grown(pl: PlanesView, keys: Seq<PendingKey>, how: Outcome, m: nat, n: nat)
    requires
        m <= n,
    ensures
        grown(close_all(pl, keys, how, m).epoch, close_all(pl, keys, how, n).epoch),
    decreases n,
{
    if m < n {
        let p = close_all(pl, keys, how, (n - 1) as nat);
        lemma_close_grown(pl, keys, how, m, (n - 1) as nat);
        lemma_finish_grown(p, p.live.pending[keys[n - 1]].q_first_idx, how, n - 1);
    }
}

proof fn lemma_exchanged_grown(
    pl: PlanesView,
    h: u64,
    st: ConnState,
    r: IndexedRecord,
    dir: Dir,
    par: QrParams,
    rules: Option<Seq<RuleView>>,
    high: bool,
)
    ensures
        grown(pl.epoch, exchanged(pl, h, st, r, dir, par, rules, high).pl.epoch),
{
    let st2 = crate::matching::counted(crate::matching::handshake(st, r, dir), r.rec, dir);
    if dir == Dir::S2C {
        let c0 = SeqStream::of(st, true);
        let fresh = SeqStream::of(st, false).fed(r.rec.tcp_seq, r.rec.orig_payload_len).2;
        let st3 = if fresh > 0 {
            ConnState { resp_cnt: sat_add(st2.resp_cnt, 1), ..st2 }
        } else {
            st2
        };
        let rows = pending_upto(pl.live.pending, h, st3.incarnation, sat_add(c0.abs(r.rec.tcp_ack), par.ack_tolerance as u64));
        let keys = still_open(pl.live, rows);
        let how = Outcome::Matched { r, ids: ids_of(pl.live.pending, keys) };
        lemma_close_grown(pl, keys, how, 0, keys.len());
    }
}

proof fn lemma_sweep_grown(pl: PlanesView, h: u64, inc: u16, status: QrStatus)
    ensures
        ({
            let keys = pending_upto(pl.live.pending, h, inc, U48_MAX);
            grown(pl.epoch, close_all(pl, keys, Outcome::Closed { status }, keys.len()).epoch)
        }),
{
    let keys = pending_upto(pl.live.pending, h, inc, U48_MAX);
    lemma_close_grown(pl, keys, Outcome::Closed { status }, 0, keys.len());
}

/// The planes after the rebirth that a record may bring.
pub open spec fn after_rebirth(pl: PlanesView, h: u64, st: ConnState, r: IndexedRecord, dir: Dir) -> (PlanesView, ConnState) {
    if is_rebirth(st, r, dir) {
        (reborn(pl, h, st, r, dir).pl, condition_marked(reborn(pl, h, st, r, dir).st, r.rec))
    } else {
        (pl, condition_marked(gap_marked(st, r.rec, dir), r.rec))
    }
}

proof fn lemma_stepped_grown(
    pl: PlanesView,
    h: u64,
    st: ConnState,
    r: IndexedRecord,
    dir: Dir,
    par: QrParams,
    rules: Option<Seq<RuleView>>,
    high: bool,
)
    ensures
        grown(pl.epoch, after_rebirth(pl, h, st, r, dir).0.epoch),
        grown(after_rebirth(pl, h, st, r, dir).0.epoch, stepped(pl, h, st, r, dir, par, rules, high).pl.epoch),
{
    lemma_sweep_grown(pl, h, st.incarnation, QrStatus::Unmatched);
    let (p1, s1) = after_rebirth(pl, h, st, r, dir);
    lemma_sweep_grown(p1, h, s1.incarnation, QrStatus::RstAbort);
    lemma_exchanged_grown(p1, h, s1, r, dir, par, rules, high);
    let g = exchanged(p1, h, s1, r, dir, par, rules, high);
    lemma_concluded_grown(g, h, s1, r, par);
    lemma_grown_trans(p1.epoch, g.pl.epoch, concluded(g, h, s1, r, par).pl.epoch);
    assert(stepped(pl, h, st, r, dir, par, rules, high).pl == moved(p1, h, s1, r, dir, par, rules, high).pl);
}

proof fn lemma_concluded_grown(g: Stage, h: u64, before: ConnState, r: IndexedRecord, par: QrParams)
    ensures
        grown(g.pl.epoch, concluded(g, h, before, r, par).pl.epoch),
{
    lemma_sweep_grown(g.pl, h, g.st.incarnation, QrStatus::Unmatched);
    lemma_sweep_grown(g.pl, h, g.st.incarnation, QrStatus::AbortedResource);
}

/// History is write-once: whatever a record does, every row that history holds stays as it is.
pub proof fn law_history_is_write_once(pl: PlanesView, r: IndexedRecord, par: QrParams, rules: Option<Seq<RuleView>>, high: bool)
    ensures
        grown(pl.epoch, step(pl, r, par, rules, high).pl.epoch),
{
    let p0 = recorded(pl, r);
    let (h, dir, st) = located(p0.live.conns, r);
    assert(grown(pl.epoch, p0.epoch));
    if r.rec.proto == 6 {
        let p1 = after_rebirth(p0, h, st, r, dir).0;
        let p2 = stepped(p0, h, st, r, dir, par, rules, high).pl;
        lemma_stepped_grown(p0, h, st, r, dir, par, rules, high);
        lemma_grown_trans(pl.epoch, p0.epoch, p1.epoch);
        lemma_grown_trans(pl.epoch, p1.epoch, p2.epoch);
        assert(step(pl, r, par, rules, high).pl.epoch == p2.epoch);
    }
}

/// `b` runs the same records as `a`, but from a history that is already complete: what is in flight agrees.
spec fn shadows(a: PlanesView, b: PlanesView, e: EpochView) -> bool {
    &&& a.live == b.live
    &&& b.epoch == e
    &&& grown(a.epoch, e)
}

proof fn lemma_finish_shadows(a: PlanesView, b: PlanesView, e: EpochView, k: u64, how: Outcome, i: int)
    requires
        shadows(a, b, e),
        grown(finish_pair(a, k, how, i).epoch, e),
    ensures
        shadows(finish_pair(a, k, how, i), finish_pair(b, k, how, i), e),
{
    let (x, y) = (finish_pair(a, k, how, i), finish_pair(b, k, how, i));
    if is_open(b, k) {
        assert(x.epoch.pairs.contains_key(k));
        assert(e.pairs.contains_key(k));
        assert(y.epoch =~= e);
    }
}

proof fn lemma_close_shadows(a: PlanesView, b: PlanesView, e: EpochView, keys: Seq<PendingKey>, how: Outcome, n: nat)
    requires
        shadows(a, b, e),
        grown(close_all(a, keys, how, n).epoch, e),
    ensures
        shadows(close_all(a, keys, how, n), close_all(b, keys, how, n), e),
    decreases n,
{
    if n > 0 {
        let m = (n - 1) as nat;
        lemma_close_grown(a, keys, how, m, n);
        lemma_grown_trans(close_all(a, keys, how, m).epoch, close_all(a, keys, how, n).epoch, e);
        lemma_close_shadows(a, b, e, keys, how, m);
        let (x, y) = (close_all(a, keys, how, m), close_all(b, keys, how, m));
        let v = x.live.pending[keys[n - 1]];
        lemma_finish_shadows(x, y, e, v.q_first_idx, how, n - 1);
    }
}

proof fn lemma_grown_trans(a: EpochView, b: EpochView, c: EpochView)
    requires
        grown(a, b),
        grown(b, c),
    ensures
        grown(a, c),
{
}

proof fn lemma_request_shadows(a: PlanesView, b: PlanesView, e: EpochView, h: u64, inc: u16, p: QrPairView, idx: u64)
    requires
        shadows(a, b, e),
        grown(with_request(a, h, inc, p, idx).epoch, e),
    ensures
        shadows(with_request(a, h, inc, p, idx), with_request(b, h, inc, p, idx), e),
{
    let (x, y) = (with_request(a, h, inc, p, idx), with_request(b, h, inc, p, idx));
    assert(x.epoch.packet_qr.contains_key(idx));
    assert(x.epoch.conn_qr.contains_key(Key3 { a: h, b: p.q_ts, c: idx }));
    assert(x.epoch.qr_key.contains_key(Key3 { a: crate::connection::fnv(p.req_key), b: p.q_ts, c: idx }));
    assert(x.epoch.qr_time.contains_key(Key2 { a: p.q_ts, b: idx }));
    assert(y.epoch =~= e);
}

proof fn lemma_stepped_shadows(
    a: PlanesView,
    b: PlanesView,
    e: EpochView,
    h: u64,
    st: ConnState,
    r: IndexedRecord,
    dir: Dir,
    par: QrParams,
    rules: Option<Seq<RuleView>>,
    high: bool,
)
    requires
        shadows(a, b, e),
        grown(stepped(a, h, st, r, dir, par, rules, high).pl.epoch, e),
    ensures
        shadows(stepped(a, h, st, r, dir, par, rules, high).pl, stepped(b, h, st, r, dir, par, rules, high).pl, e),
        stepped(a, h, st, r, dir, par, rules, high).st == stepped(b, h, st, r, dir, par, rules, high).st,
        stepped(a, h, st, r, dir, par, rules, high).events == stepped(b, h, st, r, dir, par, rules, high).events,
{
    lemma_stepped_grown(a, h, st, r, dir, par, rules, high);
    let (a1, s1) = after_rebirth(a, h, st, r, dir);
    let (b1, t1) = after_rebirth(b, h, st, r, dir);
    lemma_grown_trans(a1.epoch, stepped(a, h, st, r, dir, par, rules, high).pl.epoch, e);
    if is_rebirth(st, r, dir) {
        let keys = pending_upto(a.live.pending, h, st.incarnation, U48_MAX);
        lemma_close_shadows(a, b, e, keys, Outcome::Closed { status: QrStatus::Unmatched }, keys.len());
    }
    assert(shadows(a1, b1, e));
    if flagged(r.rec, TCP_RST) {
        let keys = pending_upto(a1.live.pending, h, s1.incarnation, U48_MAX);
        lemma_close_shadows(a1, b1, e, keys, Outcome::Closed { status: QrStatus::RstAbort }, keys.len());
    } else {
        let ga = exchanged(a1, h, s1, r, dir, par, rules, high);
        let gb = exchanged(b1, h, s1, r, dir, par, rules, high);
        lemma_concluded_grown(ga, h, s1, r, par);
        assert(stepped(a, h, st, r, dir, par, rules, high).pl == concluded(ga, h, s1, r, par).pl);
        lemma_grown_trans(ga.pl.epoch, concluded(ga, h, s1, r, par).pl.epoch, e);
        lemma_exchanged_shadows(a1, b1, e, h, s1, r, dir, par, rules, high);
        lemma_concluded_shadows(ga, gb, e, h, s1, r, par);
    }
}

proof fn lemma_concluded_shadows(ga: Stage, gb: Stage, e: EpochView, h: u64, before: ConnState, r: IndexedRecord, par: QrParams)
    requires
        shadows(ga.pl, gb.pl, e),
        ga.st == gb.st,
        ga.events == gb.events,
        grown(concluded(ga, h, before, r, par).pl.epoch, e),
    ensures
        shadows(concluded(ga, h, before, r, par).pl, concluded(gb, h, before, r, par).pl, e),
        concluded(ga, h, before, r, par).st == concluded(gb, h, before, r, par).st,
        concluded(ga, h, before, r, par).events == concluded(gb, h, before, r, par).events,
{
    let keys = pending_upto(ga.pl.live.pending, h, ga.st.incarnation, U48_MAX);
    if closes(ga.st, r.rec) {
        lemma_close_shadows(ga.pl, gb.pl, e, keys, Outcome::Closed { status: QrStatus::Unmatched }, keys.len());
    } else if ga.st.qr_open > before.qr_open && ga.st.qr_open >= par.pending_budget {
        lemma_close_shadows(ga.pl, gb.pl, e, keys, Outcome::Closed { status: QrStatus::AbortedResource }, keys.len());
    }
}

proof fn lemma_exchanged_shadows(
    a: PlanesView,
    b: PlanesView,
    e: EpochView,
    h: u64,
    st: ConnState,
    r: IndexedRecord,
    dir: Dir,
    par: QrParams,
    rules: Option<Seq<RuleView>>,
    high: bool,
)
    requires
        shadows(a, b, e),
        grown(exchanged(a, h, st, r, dir, par, rules, high).pl.epoch, e),
    ensures
        shadows(exchanged(a, h, st, r, dir, par, rules, high).pl, exchanged(b, h, st, r, dir, par, rules, high).pl, e),
        exchanged(a, h, st, r, dir, par, rules, high).st == exchanged(b, h, st, r, dir, par, rules, high).st,
        exchanged(a, h, st, r, dir, par, rules, high).events == exchanged(b, h, st, r, dir, par, rules, high).events,
{
    let st2 = crate::matching::counted(crate::matching::handshake(st, r, dir), r.rec, dir);
    match dir {
        Dir::C2S => {
            let (c, start, fresh) = SeqStream::of(st, true).fed(r.rec.tcp_seq, r.rec.orig_payload_len);
            let end = sat_add(start, fresh as u64);
            if r.rec.orig_payload_len > 0 && fresh > 0 && end > st2.consumed_ack_s {
                let (key, pseudo, st3, prints) = crate::matching::keyed(st2, h, r, rules, high);
                let p = crate::matching::new_pair(h, r, start, end, key, pseudo);
                lemma_request_shadows(a, b, e, h, st3.incarnation, p, r.loc());
            }
        },
        Dir::S2C => {
            let c0 = SeqStream::of(st, true);
            let fresh = SeqStream::of(st, false).fed(r.rec.tcp_seq, r.rec.orig_payload_len).2;
            let st3 = if fresh > 0 {
                ConnState { resp_cnt: sat_add(st2.resp_cnt, 1), ..st2 }
            } else {
                st2
            };
            let ack = c0.abs(r.rec.tcp_ack);
            if ack > st3.consumed_ack_s && ack <= sat_add(c0.last_abs, ACK_LEAD_CAP) {
                let rows = pending_upto(a.live.pending, h, st3.incarnation, sat_add(ack, par.ack_tolerance as u64));
                let keys = still_open(a.live, rows);
                let how = Outcome::Matched { r, ids: ids_of(a.live.pending, keys) };
                lemma_close_shadows(a, b, e, keys, how, keys.len());
            }
        },
    }
}

/// A batch: its records one after the other, each with its entropy verdict.
pub open spec fn run(pl: PlanesView, recs: Seq<(IndexedRecord, bool)>, par: QrParams, rules: Option<Seq<RuleView>>) -> PlanesView
    decreases recs.len(),
{
    if recs.len() == 0 {
        pl
    } else {
        step(run(pl, recs.drop_last(), par, rules), recs.last().0, par, rules, recs.last().1).pl
    }
}

proof fn lemma_run_shadows(a: PlanesView, b: PlanesView, e: EpochView, recs: Seq<(IndexedRecord, bool)>, par: QrParams, rules: Option<Seq<RuleView>>)
    requires
        shadows(a, b, e),
        grown(run(a, recs, par, rules).epoch, e),
    ensures
        shadows(run(a, recs, par, rules), run(b, recs, par, rules), e),
    decreases recs.len(),
{
    if recs.len() > 0 {
        let x = run(a, recs.drop_last(), par, rules);
        let y = run(b, recs.drop_last(), par, rules);
        let (r, high) = recs.last();
        law_history_is_write_once(x, r, par, rules, high);
        lemma_grown_trans(x.epoch, run(a, recs, par, rules).epoch, e);
        lemma_run_shadows(a, b, e, recs.drop_last(), par, rules);
        let (x0, y0) = (recorded(x, r), recorded(y, r));
        let (h, dir, st) = located(x.live.conns, r);
        if r.rec.proto == 6 {
            lemma_stepped_grown(x0, h, st, r, dir, par, rules, high);
            lemma_grown_trans(x0.epoch, stepped(x0, h, st, r, dir, par, rules, high).pl.epoch, e);
        }
        let key = Key2 { a: r.rec.timestamp_ns, b: r.loc() };
        assert(x0.epoch.record_ts.contains_key(key));
        assert(y0.epoch =~= e);
        assert(shadows(x0, y0, e));
        if r.rec.proto == 6 {
            lemma_stepped_shadows(x0, y0, e, h, st, r, dir, par, rules, high);
        }
    }
}

/// Replay converges. If a batch reached history but its live part was lost, running the batch again on
/// the old live part and the new history ends in the same planes: nothing is doubled, nothing is left
/// over.
pub proof fn law_replay_converges(pl: PlanesView, recs: Seq<(IndexedRecord, bool)>, par: QrParams, rules: Option<Seq<RuleView>>)
    ensures
        ({
            let done = run(pl, recs, par, rules);
            run(PlanesView { live: pl.live, epoch: done.epoch }, recs, par, rules) == done
        }),
{
    let done = run(pl, recs, par, rules);
    let again = PlanesView { live: pl.live, epoch: done.epoch };
    law_batch_keeps_history(pl, recs, par, rules);
    lemma_run_shadows(pl, again, done.epoch, recs, par, rules);
    let b = run(again, recs, par, rules);
    assert(b =~= done);
}

/// A whole batch leaves every row of history as it was.
pub proof fn law_batch_keeps_history(pl: PlanesView, recs: Seq<(IndexedRecord, bool)>, par: QrParams, rules: Option<Seq<RuleView>>)
    ensures
        grown(pl.epoch, run(pl, recs, par, rules).epoch),
    decreases recs.len(),
{
    if recs.len() > 0 {
        let x = run(pl, recs.drop_last(), par, rules);
        law_batch_keeps_history(pl, recs.drop_last(), par, rules);
        law_history_is_write_once(x, recs.last().0, par, rules, recs.last().1);
    }
}

/// A record is in the time index.
pub open spec fn indexed(pl: PlanesView, r: IndexedRecord) -> bool {
    pl.epoch.record_ts.contains_key(Key2 { a: r.rec.timestamp_ns, b: r.loc() })
}

proof fn lemma_close_keeps_records(pl: PlanesView, keys: Seq<PendingKey>, how: Outcome, n: nat)
    ensures
        close_all(pl, keys, how, n).epoch.record_ts == pl.epoch.record_ts,
    decreases n,
{
    if n > 0 {
        lemma_close_keeps_records(pl, keys, how, (n - 1) as nat);
    }
}

proof fn lemma_step_records(pl: PlanesView, r: IndexedRecord, par: QrParams, rules: Option<Seq<RuleView>>, high: bool)
    ensures
        step(pl, r, par, rules, high).pl.epoch.record_ts == recorded(pl, r).epoch.record_ts,
{
    let p0 = recorded(pl, r);
    let (h, dir, st) = located(p0.live.conns, r);
    if r.rec.proto == 6 {
        let born = pending_upto(p0.live.pending, h, st.incarnation, U48_MAX);
        lemma_close_keeps_records(p0, born, Outcome::Closed { status: QrStatus::Unmatched }, born.len());
        let (p1, s1) = after_rebirth(p0, h, st, r, dir);
        let cut = pending_upto(p1.live.pending, h, s1.incarnation, U48_MAX);
        lemma_close_keeps_records(p1, cut, Outcome::Closed { status: QrStatus::RstAbort }, cut.len());
        let rows = pending_upto(
            p1.live.pending,
            h,
            s1.incarnation,
            sat_add(SeqStream::of(s1, true).abs(r.rec.tcp_ack), par.ack_tolerance as u64),
        );
        let ack = still_open(p1.live, rows);
        let how = Outcome::Matched { r, ids: ids_of(p1.live.pending, ack) };
        lemma_close_keeps_records(p1, ack, how, ack.len());
        let g = exchanged(p1, h, s1, r, dir, par, rules, high);
        assert(g.pl.epoch.record_ts == p1.epoch.record_ts);
        let rest = pending_upto(g.pl.live.pending, h, g.st.incarnation, U48_MAX);
        lemma_close_keeps_records(g.pl, rest, Outcome::Closed { status: QrStatus::Unmatched }, rest.len());
        lemma_close_keeps_records(g.pl, rest, Outcome::Closed { status: QrStatus::AbortedResource }, rest.len());
        assert(concluded(g, h, s1, r, par).pl.epoch.record_ts == p1.epoch.record_ts);
        assert(stepped(p0, h, st, r, dir, par, rules, high).pl == moved(p1, h, s1, r, dir, par, rules, high).pl);
    }
}

/// Every record of a batch is in the time index afterwards, whatever else becomes of it.
pub proof fn law_every_record_is_indexed(
    pl: PlanesView,
    recs: Seq<(IndexedRecord, bool)>,
    par: QrParams,
    rules: Option<Seq<RuleView>>,
    i: int,
)
    requires
        0 <= i < recs.len(),
    ensures
        indexed(run(pl, recs, par, rules), recs[i].0),
    decreases recs.len(),
{
    let x = run(pl, recs.drop_last(), par, rules);
    lemma_step_records(x, recs.last().0, par, rules, recs.last().1);
    if i < recs.len() - 1 {
        law_every_record_is_indexed(pl, recs.drop_last(), par, rules, i);
        assert(recs.drop_last()[i] == recs[i]);
    }
}

proof fn lemma_run_adds_no_record(pl: PlanesView, recs: Seq<(IndexedRecord, bool)>, par: QrParams, rules: Option<Seq<RuleView>>)
    requires
        forall|i: int| 0 <= i < recs.len() ==> indexed(pl, (#[trigger] recs[i]).0),
    ensures
        run(pl, recs, par, rules).epoch.record_ts == pl.epoch.record_ts,
    decreases recs.len(),
{
    if recs.len() > 0 {
        assert forall|i: int| 0 <= i < recs.drop_last().len() implies indexed(pl, (#[trigger] recs.drop_last()[i]).0) by {
            assert(recs.drop_last()[i] == recs[i]);
        }
        lemma_run_adds_no_record(pl, recs.drop_last(), par, rules);
        let x = run(pl, recs.drop_last(), par, rules);
        lemma_step_records(x, recs.last().0, par, rules, recs.last().1);
        assert(indexed(pl, recs[recs.len() - 1].0));
    }
}

/// No record is doubled: if a batch was committed but its watermark was not moved, running it once more
/// on the planes it left adds no row to the time index and changes none.
pub proof fn law_replay_doubles_no_record(pl: PlanesView, recs: Seq<(IndexedRecord, bool)>, par: QrParams, rules: Option<Seq<RuleView>>)
    ensures
        ({
            let done = run(pl, recs, par, rules);
            run(done, recs, par, rules).epoch.record_ts == done.epoch.record_ts
        }),
{
    let done = run(pl, recs, par, rules);
    assert forall|i: int| 0 <= i < recs.len() implies indexed(done, (#[trigger] recs[i]).0) by {
        law_every_record_is_indexed(pl, recs, par, rules, i);
    }
    lemma_run_adds_no_record(done, recs, par, rules);
}

/// What a record brings is known already: it opens no incarnation; a reset or a FIN finds nothing
/// pending; client data lies behind the head of its stream; and a server packet acknowledges nothing new,
/// or finds nothing pending.
pub open spec fn settled(pl: PlanesView, r: IndexedRecord) -> bool {
    let (h, dir, st) = located(pl.live.conns, r);
    let idle = pending_upto(pl.live.pending, h, st.incarnation, U48_MAX).len() == 0;
    r.rec.proto == 6 ==> {
        &&& !is_rebirth(st, r, dir)
        &&& flagged(r.rec, TCP_RST) || flagged(r.rec, TCP_FIN) ==> idle
        &&& if flagged(r.rec, TCP_RST) {
            true
        } else if dir == Dir::C2S {
            r.rec.orig_payload_len == 0 || SeqStream::of(st, true).fed(r.rec.tcp_seq, r.rec.orig_payload_len).2 == 0
        } else {
            idle || SeqStream::of(st, true).abs(r.rec.tcp_ack) <= st.consumed_ack_s
        }
    }
}

/// Every record of a batch is settled when its turn comes.
pub open spec fn all_settled(pl: PlanesView, recs: Seq<(IndexedRecord, bool)>, par: QrParams, rules: Option<Seq<RuleView>>) -> bool
    decreases recs.len(),
{
    recs.len() == 0 || (all_settled(pl, recs.drop_last(), par, rules) && settled(run(pl, recs.drop_last(), par, rules), recs.last().0))
}

/// The same requests in the same indexes.
pub open spec fn same_requests(p: PlanesView, q: PlanesView) -> bool {
    &&& p.live.pairs == q.live.pairs
    &&& p.live.pending == q.live.pending
    &&& p.live.ttl == q.live.ttl
    &&& p.epoch.pairs == q.epoch.pairs
    &&& p.epoch.conn_qr == q.epoch.conn_qr
    &&& p.epoch.qr_key == q.epoch.qr_key
    &&& p.epoch.qr_time == q.epoch.qr_time
    &&& p.epoch.packet_qr == q.epoch.packet_qr
}

/// Replaying what is settled changes no request: only the counters and marks of connections move.
pub proof fn law_settled_replay_changes_no_request(
    pl: PlanesView,
    recs: Seq<(IndexedRecord, bool)>,
    par: QrParams,
    rules: Option<Seq<RuleView>>,
)
    requires
        pl.live.pending.dom().finite(),
        all_settled(pl, recs, par, rules),
    ensures
        same_requests(pl, run(pl, recs, par, rules)),
    decreases recs.len(),
{
    if recs.len() > 0 {
        law_settled_replay_changes_no_request(pl, recs.drop_last(), par, rules);
        let x = run(pl, recs.drop_last(), par, rules);
        let r = recs.last().0;
        lemma_settled_step(x, r, par, rules, recs.last().1);
    }
}

proof fn lemma_settled_step(x: PlanesView, r: IndexedRecord, par: QrParams, rules: Option<Seq<RuleView>>, high: bool)
    requires
        x.live.pending.dom().finite(),
        settled(x, r),
    ensures
        same_requests(x, step(x, r, par, rules, high).pl),
{
    if r.rec.proto == 6 {
        let p0 = recorded(x, r);
        let (h, dir, st) = located(x.live.conns, r);
        let s1 = after_rebirth(p0, h, st, r, dir).1;
        assert(s1.incarnation == st.incarnation);
        assert(SeqStream::of(s1, true) == SeqStream::of(st, true));
        if flagged(r.rec, TCP_RST) {
            assert(reset(p0, h, s1, r).pl == p0);
        } else {
            let g = exchanged(p0, h, s1, r, dir, par, rules, high);
            lemma_settled_exchange(p0, h, s1, r, dir, par, rules, high);
            assert(concluded(g, h, s1, r, par).pl == p0);
        }
        assert(stepped(p0, h, st, r, dir, par, rules, high).pl == p0);
    }
}

proof fn lemma_settled_exchange(
    pl: PlanesView,
    h: u64,
    st: ConnState,
    r: IndexedRecord,
    dir: Dir,
    par: QrParams,
    rules: Option<Seq<RuleView>>,
    high: bool,
)
    requires
        dir == Dir::C2S ==> r.rec.orig_payload_len == 0 || SeqStream::of(st, true).fed(r.rec.tcp_seq, r.rec.orig_payload_len).2 == 0,
        dir == Dir::S2C ==> SeqStream::of(st, true).abs(r.rec.tcp_ack) <= st.consumed_ack_s || pending_upto(
            pl.live.pending,
            h,
            st.incarnation,
            U48_MAX,
        ).len() == 0,
        pl.live.pending.dom().finite(),
    ensures
        exchanged(pl, h, st, r, dir, par, rules, high).pl == pl,
        exchanged(pl, h, st, r, dir, par, rules, high).st.qr_open == st.qr_open,
        exchanged(pl, h, st, r, dir, par, rules, high).st.incarnation == st.incarnation,
{
    let abs_ack = SeqStream::of(st, true).abs(r.rec.tcp_ack);
    if dir == Dir::S2C && abs_ack > st.consumed_ack_s {
        let limit = sat_add(abs_ack, par.ack_tolerance as u64);
        let rows = pending_upto(pl.live.pending, h, st.incarnation, limit);
        lemma_pending_upto(pl, h, st.incarnation, limit);
        lemma_pending_upto(pl, h, st.incarnation, U48_MAX);
        if rows.len() > 0 {
            assert(pl.live.pending.contains_key(rows[0]));
            assert(in_reach(rows[0], h, st.incarnation, U48_MAX));
        }
        assert(still_open(pl.live, rows) =~= Seq::empty());
    }
}

/// Whether `key` is among the first `n` of `keys`.
pub open spec fn among(keys: Seq<PendingKey>, n: nat, key: PendingKey) -> bool {
    exists|i: int| 0 <= i < n && i < keys.len() && #[trigger] keys[i] == key
}

/// A request that either plane knows.
pub open spec fn known(pl: PlanesView, k: u64) -> bool {
    pl.live.pairs.contains_key(k) || pl.epoch.pairs.contains_key(k)
}

/// `q` is a finished form of the request `p`: what identifies the request is as it was at its birth.
pub open spec fn anchored(p: QrPairView, q: QrPairView) -> bool {
    &&& q.conn_hash == p.conn_hash
    &&& q.q_ts == p.q_ts
    &&& q.q_len == p.q_len
    &&& q.abs_q_seq == p.abs_q_seq
    &&& q.abs_q_end == p.abs_q_end
    &&& q.req_key == p.req_key
    &&& q.pseudo == p.pseudo
    &&& p.q_idx.len() <= q.q_idx.len()
    &&& q.q_idx.take(p.q_idx.len() as int) == p.q_idx
}

proof fn lemma_merged_extends(xs: Seq<u64>, more: Seq<u64>)
    ensures
        xs.len() <= crate::matching::merged(xs, more).len(),
        crate::matching::merged(xs, more).take(xs.len() as int) == xs,
    decreases more.len(),
{
    if more.len() == 0 {
        assert(xs.take(xs.len() as int) =~= xs);
    } else {
        lemma_merged_extends(xs, more.drop_last());
        let m = crate::matching::merged(xs, more.drop_last());
        assert(m.push(more.last()).take(xs.len() as int) =~= m.take(xs.len() as int));
    }
}

proof fn lemma_finished_anchored(p: QrPairView, how: Outcome, i: int)
    ensures
        anchored(p, finished(p, how, i)),
{
    assert(p.q_idx.take(p.q_idx.len() as int) =~= p.q_idx);
    if let Outcome::Matched { r, ids } = how {
        lemma_merged_extends(p.q_idx, ids.skip(1));
    }
}

/// What closing the first `n` pending requests does.
proof fn lemma_close_all(pl: PlanesView, keys: Seq<PendingKey>, how: Outcome, n: nat)
    requires
        n <= keys.len(),
        forall|i: int| 0 <= i < keys.len() ==> pl.live.pending.contains_key(#[trigger] keys[i]),
        forall|i: int, j: int| 0 <= i < j < keys.len() ==> keys[i] != keys[j],
    ensures
        ({
            let q = close_all(pl, keys, how, n);
            &&& q.live.conns == pl.live.conns
            &&& forall|key: PendingKey| #[trigger]
                q.live.pending.contains_key(key) <==> pl.live.pending.contains_key(key) && !among(keys, n, key)
            &&& forall|key: PendingKey| #[trigger] q.live.pending.contains_key(key) ==> q.live.pending[key] == pl.live.pending[key]
            &&& forall|k: u64| #[trigger] q.live.pairs.contains_key(k) ==> pl.live.pairs.contains_key(k) && q.live.pairs[k] == pl.live.pairs[k] && (
            q.epoch.pairs.contains_key(k) ==> pl.epoch.pairs.contains_key(k))
            &&& forall|k: u64| #[trigger]
                pl.live.pairs.contains_key(k) && !q.live.pairs.contains_key(k) ==> q.epoch.pairs.contains_key(k) && (pl.epoch.pairs.contains_key(
                    k,
                ) || exists|i: int| 0 <= i < n && q.epoch.pairs[k] == #[trigger] finished(pl.live.pairs[k], how, i))
            &&& forall|i: int| 0 <= i < n ==> !is_open(q, pl.live.pending[#[trigger] keys[i]].q_first_idx)
        }),
    decreases n,
{
    if n > 0 {
        let m = (n - 1) as nat;
        lemma_close_all(pl, keys, how, m);
        let p = close_all(pl, keys, how, m);
        let q = close_all(pl, keys, how, n);
        let key = keys[m as int];
        assert(!among(keys, m, key));
        assert(p.live.pending.contains_key(key));
        let v = pl.live.pending[key];
        let f = finish_pair(p, v.q_first_idx, how, m as int);
        assert forall|x: PendingKey| #[trigger]
            q.live.pending.contains_key(x) <==> pl.live.pending.contains_key(x) && !among(keys, n, x) by {
            if among(keys, n, x) && x != key {
                let i = choose|i: int| 0 <= i < n && i < keys.len() && #[trigger] keys[i] == x;
                assert(keys[i] == x && i < m);
            }
            if among(keys, m, x) {
                let i = choose|i: int| 0 <= i < m && i < keys.len() && #[trigger] keys[i] == x;
                assert(keys[i] == x && i < n);
            }
            assert(keys[m as int] == key);
        }
        assert forall|k: u64| #[trigger]
            pl.live.pairs.contains_key(k) && !q.live.pairs.contains_key(k) implies q.epoch.pairs.contains_key(k) && (
        pl.epoch.pairs.contains_key(k) || exists|i: int| 0 <= i < n && q.epoch.pairs[k] == #[trigger] finished(pl.live.pairs[k], how, i)) by {
            if !p.live.pairs.contains_key(k) {
                if !pl.epoch.pairs.contains_key(k) {
                    let i = choose|i: int| 0 <= i < m && p.epoch.pairs[k] == #[trigger] finished(pl.live.pairs[k], how, i);
                    assert(q.epoch.pairs[k] == finished(pl.live.pairs[k], how, i));
                }
            } else {
                assert(k == v.q_first_idx);
                if !p.epoch.pairs.contains_key(k) {
                    assert(q.epoch.pairs[k] == finished(pl.live.pairs[k], how, m as int));
                }
            }
        }
        assert forall|i: int| 0 <= i < n implies !is_open(q, pl.live.pending[#[trigger] keys[i]].q_first_idx) by {
            if i < m {
                assert(!is_open(p, pl.live.pending[keys[i]].q_first_idx));
            }
        }
    }
}

/// The pending rows that a scan up to `limit` finds.
pub open spec fn in_reach(key: PendingKey, h: u64, inc: u16, limit: u64) -> bool {
    key.conn == h && key.inc == inc && key.end <= limit && key.end <= U48_MAX
}

proof fn lemma_pending_upto(pl: PlanesView, h: u64, inc: u16, limit: u64)
    requires
        pl.live.pending.dom().finite(),
    ensures
        ({
            let keys = pending_upto(pl.live.pending, h, inc, limit);
            &&& forall|i: int| 0 <= i < keys.len() ==> pl.live.pending.contains_key(#[trigger] keys[i]) && in_reach(keys[i], h, inc, limit)
            &&& forall|i: int, j: int| 0 <= i < j < keys.len() ==> keys[i] != keys[j]
            &&& forall|key: PendingKey| #[trigger]
                pl.live.pending.contains_key(key) && in_reach(key, h, inc, limit) ==> among(keys, keys.len(), key)
        }),
{
    let top = if limit < U48_MAX {
        limit
    } else {
        U48_MAX
    };
    let lo = PendingKey { conn: h, inc, end: 0 };
    let hi = PendingKey { conn: h, inc, end: top };
    let keys = pending_upto(pl.live.pending, h, inc, limit);
    crate::table::lemma_scan_exists(pl.live.pending.dom(), lo, hi);
    assert forall|i: int| 0 <= i < keys.len() implies pl.live.pending.contains_key(#[trigger] keys[i]) && in_reach(keys[i], h, inc, limit) by {
        assert(pl.live.pending.dom().contains(keys[i]));
    }
    assert forall|key: PendingKey| #[trigger] pl.live.pending.contains_key(key) && in_reach(key, h, inc, limit) implies among(
        keys,
        keys.len(),
        key,
    ) by {
        assert(pl.live.pending.dom().contains(key));
        assert(keys.contains(key));
        let i = choose|i: int| 0 <= i < keys.len() && keys[i] == key;
        assert(keys[i] == key);
    }
}

/// The planes after closing what a scan finds: exactly those pending rows are gone, and each of their
/// open requests is in history with the given outcome, unless history had it before.
pub open spec fn swept(pl: PlanesView, q: PlanesView, h: u64, inc: u16, limit: u64, status: QrStatus) -> bool {
    &&& q.live.conns == pl.live.conns
    &&& forall|key: PendingKey| #[trigger]
        q.live.pending.contains_key(key) <==> pl.live.pending.contains_key(key) && !in_reach(key, h, inc, limit)
    &&& forall|key: PendingKey| #[trigger] q.live.pending.contains_key(key) ==> q.live.pending[key] == pl.live.pending[key]
    &&& forall|key: PendingKey| #[trigger]
        pl.live.pending.contains_key(key) && in_reach(key, h, inc, limit) && is_open(pl, pl.live.pending[key].q_first_idx) ==> {
            let k = pl.live.pending[key].q_first_idx;
            !q.live.pairs.contains_key(k) && q.epoch.pairs.contains_key(k) && (pl.epoch.pairs.contains_key(k) || q.epoch.pairs[k].status
                == status.code())
        }
}

spec fn status_of(how: Outcome) -> QrStatus {
    match how {
        Outcome::Matched { r, ids } => QrStatus::Matched,
        Outcome::Closed { status } => status,
    }
}

proof fn lemma_sweep(pl: PlanesView, h: u64, inc: u16, limit: u64, how: Outcome)
    requires
        pl.live.pending.dom().finite(),
    ensures
        ({
            let keys = pending_upto(pl.live.pending, h, inc, limit);
            swept(pl, close_all(pl, keys, how, keys.len()), h, inc, limit, status_of(how))
        }),
{
    let keys = pending_upto(pl.live.pending, h, inc, limit);
    let q = close_all(pl, keys, how, keys.len());
    lemma_pending_upto(pl, h, inc, limit);
    lemma_close_all(pl, keys, how, keys.len());
    assert forall|key: PendingKey| #[trigger]
        q.live.pending.contains_key(key) <==> pl.live.pending.contains_key(key) && !in_reach(key, h, inc, limit) by {
        if among(keys, keys.len(), key) {
            let i = choose|i: int| 0 <= i < keys.len() && i < keys.len() && #[trigger] keys[i] == key;
            assert(in_reach(keys[i], h, inc, limit));
        }
    }
    assert forall|key: PendingKey| #[trigger]
        pl.live.pending.contains_key(key) && in_reach(key, h, inc, limit) && is_open(pl, pl.live.pending[key].q_first_idx) implies ({
        let k = pl.live.pending[key].q_first_idx;
        !q.live.pairs.contains_key(k) && q.epoch.pairs.contains_key(k) && (pl.epoch.pairs.contains_key(k) || q.epoch.pairs[k].status
            == status_of(how).code())
    }) by {
        let i = choose|i: int| 0 <= i < keys.len() && i < keys.len() && #[trigger] keys[i] == key;
        let k = pl.live.pending[keys[i]].q_first_idx;
        assert(!is_open(q, k));
        if q.live.pairs.contains_key(k) {
            assert(q.live.pairs[k] == pl.live.pairs[k]);
        }
        assert(pl.live.pairs.contains_key(k));
        if !pl.epoch.pairs.contains_key(k) {
            let j = choose|j: int| 0 <= j < keys.len() && q.epoch.pairs[k] == #[trigger] finished(pl.live.pairs[k], how, j);
            assert(finished(pl.live.pairs[k], how, j).status == status_of(how).code());
        }
    }
}

/// The planes after an acknowledgement: of the pending rows in reach exactly those whose request was open
/// are gone, and each of these requests is matched in history, unless history had it before. Every other
/// row stays.
pub open spec fn answered(pl: PlanesView, q: PlanesView, h: u64, inc: u16, limit: u64) -> bool {
    &&& q.live.conns == pl.live.conns
    &&& forall|key: PendingKey| #[trigger]
        q.live.pending.contains_key(key) <==> pl.live.pending.contains_key(key) && !(in_reach(key, h, inc, limit) && is_open(
            pl,
            pl.live.pending[key].q_first_idx,
        ))
    &&& forall|key: PendingKey| #[trigger] q.live.pending.contains_key(key) ==> q.live.pending[key] == pl.live.pending[key]
    &&& forall|key: PendingKey| #[trigger]
        pl.live.pending.contains_key(key) && in_reach(key, h, inc, limit) && is_open(pl, pl.live.pending[key].q_first_idx) ==> {
            let k = pl.live.pending[key].q_first_idx;
            !q.live.pairs.contains_key(k) && q.epoch.pairs.contains_key(k) && (pl.epoch.pairs.contains_key(k) || q.epoch.pairs[k].status
                == QrStatus::Matched.code())
        }
}

/// A cumulative acknowledgement matches every open request of the current incarnation that ends within
/// it and its tolerance, and no other.
pub proof fn law_ack_consumes_cumulatively(pl: PlanesView, h: u64, st: ConnState, r: IndexedRecord, abs_ack: u64, par: QrParams)
    requires
        pl.live.pending.dom().finite(),
    ensures
        answered(pl, consumed(pl, h, st, r, abs_ack, par).pl, h, st.incarnation, sat_add(abs_ack, par.ack_tolerance as u64)),
        consumed(pl, h, st, r, abs_ack, par).st.consumed_ack_s >= abs_ack,
        consumed(pl, h, st, r, abs_ack, par).st.consumed_ack_s >= st.consumed_ack_s,
{
    let (inc, limit) = (st.incarnation, sat_add(abs_ack, par.ack_tolerance as u64));
    let rows = pending_upto(pl.live.pending, h, inc, limit);
    let keys = still_open(pl.live, rows);
    let how = Outcome::Matched { r, ids: ids_of(pl.live.pending, keys) };
    let q = close_all(pl, keys, how, keys.len());
    lemma_pending_upto(pl, h, inc, limit);
    crate::qr::lemma_still_open(pl.live, rows);
    assert forall|i: int| 0 <= i < keys.len() implies pl.live.pending.contains_key(#[trigger] keys[i]) && in_reach(keys[i], h, inc, limit)
        && is_open(pl, pl.live.pending[keys[i]].q_first_idx) by {
        assert(keys.contains(keys[i]));
        let j = choose|j: int| 0 <= j < rows.len() && rows[j] == keys[i];
        assert(pl.live.pending.contains_key(rows[j]));
    }
    assert forall|key: PendingKey| #[trigger]
        pl.live.pending.contains_key(key) && in_reach(key, h, inc, limit) && is_open(pl, pl.live.pending[key].q_first_idx) implies among(
        keys,
        keys.len(),
        key,
    ) by {
        let j = choose|j: int| 0 <= j < rows.len() && j < rows.len() && #[trigger] rows[j] == key;
        assert(rows.contains(key));
        assert(keys.contains(key));
        let i = choose|i: int| 0 <= i < keys.len() && keys[i] == key;
        assert(keys[i] == key);
    }
    lemma_close_all(pl, keys, how, keys.len());
    assert forall|key: PendingKey| #[trigger]
        q.live.pending.contains_key(key) <==> pl.live.pending.contains_key(key) && !(in_reach(key, h, inc, limit) && is_open(
            pl,
            pl.live.pending[key].q_first_idx,
        )) by {
        if among(keys, keys.len(), key) {
            let i = choose|i: int| 0 <= i < keys.len() && i < keys.len() && #[trigger] keys[i] == key;
            assert(in_reach(keys[i], h, inc, limit));
        }
    }
    assert forall|key: PendingKey| #[trigger]
        pl.live.pending.contains_key(key) && in_reach(key, h, inc, limit) && is_open(pl, pl.live.pending[key].q_first_idx) implies ({
        let k = pl.live.pending[key].q_first_idx;
        !q.live.pairs.contains_key(k) && q.epoch.pairs.contains_key(k) && (pl.epoch.pairs.contains_key(k) || q.epoch.pairs[k].status
            == QrStatus::Matched.code())
    }) by {
        assert(among(keys, keys.len(), key));
        let i = choose|i: int| 0 <= i < keys.len() && i < keys.len() && #[trigger] keys[i] == key;
        let k = pl.live.pending[keys[i]].q_first_idx;
        assert(!is_open(q, k));
        if q.live.pairs.contains_key(k) {
            assert(q.live.pairs[k] == pl.live.pairs[k]);
        }
        assert(pl.live.pairs.contains_key(k));
        if !pl.epoch.pairs.contains_key(k) {
            let j = choose|j: int| 0 <= j < keys.len() && q.epoch.pairs[k] == #[trigger] finished(pl.live.pairs[k], how, j);
            assert(finished(pl.live.pairs[k], how, j).status == QrStatus::Matched.code());
        }
    }
}

/// A pending row whose request is not open is left where it is, and counts for nothing.
pub proof fn law_ack_passes_over_finished_requests(pl: PlanesView, h: u64, st: ConnState, r: IndexedRecord, abs_ack: u64, par: QrParams)
    requires
        pl.live.pending.dom().finite(),
        forall|key: PendingKey| #[trigger]
            pl.live.pending.contains_key(key) && in_reach(key, h, st.incarnation, sat_add(abs_ack, par.ack_tolerance as u64)) ==> !is_open(
                pl,
                pl.live.pending[key].q_first_idx,
            ),
    ensures
        consumed(pl, h, st, r, abs_ack, par).pl == pl,
        consumed(pl, h, st, r, abs_ack, par).st.qr_open == st.qr_open,
{
    let (inc, limit) = (st.incarnation, sat_add(abs_ack, par.ack_tolerance as u64));
    let rows = pending_upto(pl.live.pending, h, inc, limit);
    let keys = still_open(pl.live, rows);
    lemma_pending_upto(pl, h, inc, limit);
    crate::qr::lemma_still_open(pl.live, rows);
    if keys.len() > 0 {
        assert(keys.contains(keys[0]));
        let j = choose|j: int| 0 <= j < rows.len() && rows[j] == keys[0];
        assert(pl.live.pending.contains_key(rows[j]));
    }
}

proof fn lemma_merged_holds(xs: Seq<u64>, more: Seq<u64>)
    ensures
        forall|x: u64| #[trigger] merged(xs, more).contains(x) <==> xs.contains(x) || more.contains(x),
    decreases more.len(),
{
    if more.len() > 0 {
        let m = merged(xs, more.drop_last());
        lemma_merged_holds(xs, more.drop_last());
        assert(more =~= more.drop_last().push(more.last()));
        assert forall|x: u64| #[trigger] merged(xs, more).contains(x) <==> xs.contains(x) || more.contains(x) by {
            assert(more.contains(x) <==> more.drop_last().contains(x) || x == more.last()) by {
                if more.contains(x) {
                    let i = choose|i: int| 0 <= i < more.len() && more[i] == x;
                    if i < more.len() - 1 {
                        assert(more.drop_last()[i] == x);
                    }
                }
                if more.drop_last().contains(x) {
                    let i = choose|i: int| 0 <= i < more.drop_last().len() && more.drop_last()[i] == x;
                    assert(more[i] == x);
                }
                assert(more[more.len() - 1] == more.last());
            }
            if !m.contains(more.last()) {
                let w = m.push(more.last());
                if m.contains(x) {
                    let i = choose|i: int| 0 <= i < m.len() && m[i] == x;
                    assert(w[i] == x);
                }
                assert(w[m.len() as int] == more.last());
                if w.contains(x) {
                    let i = choose|i: int| 0 <= i < w.len() && w[i] == x;
                    if i < m.len() {
                        assert(m[i] == x);
                    }
                }
            }
        }
    } else {
        assert forall|x: u64| #[trigger] merged(xs, more).contains(x) <==> xs.contains(x) || more.contains(x) by {
            if more.contains(x) {
                let i = choose|i: int| 0 <= i < more.len() && more[i] == x;
            }
        }
    }
}

/// An acknowledgement of several requests gathers them in one pair: the first of them takes the locators
/// of all the others beside its own, and its response is the packet that acknowledged.
pub proof fn law_batched_ack_aggregates(pl: PlanesView, h: u64, st: ConnState, r: IndexedRecord, abs_ack: u64, par: QrParams)
    requires
        pl.live.pending.dom().finite(),
        ({
            let keys = still_open(
                pl.live,
                pending_upto(pl.live.pending, h, st.incarnation, sat_add(abs_ack, par.ack_tolerance as u64)),
            );
            let head = pl.live.pending[keys[0]].q_first_idx;
            keys.len() > 0 && !pl.epoch.pairs.contains_key(head)
        }),
    ensures
        ({
            let keys = still_open(
                pl.live,
                pending_upto(pl.live.pending, h, st.incarnation, sat_add(abs_ack, par.ack_tolerance as u64)),
            );
            let ids = ids_of(pl.live.pending, keys);
            let q = consumed(pl, h, st, r, abs_ack, par).pl;
            let pair = q.epoch.pairs[ids[0]];
            &&& q.epoch.pairs.contains_key(ids[0])
            &&& pair.status == QrStatus::Matched.code()
            &&& pair.r_idx == pl.live.pairs[ids[0]].r_idx.push(r.loc())
            &&& forall|x: u64| #[trigger] pair.q_idx.contains(x) <==> pl.live.pairs[ids[0]].q_idx.contains(x) || ids.skip(1).contains(x)
        }),
{
    let keys = still_open(
                pl.live,
                pending_upto(pl.live.pending, h, st.incarnation, sat_add(abs_ack, par.ack_tolerance as u64)),
            );
    let ids = ids_of(pl.live.pending, keys);
    let how = Outcome::Matched { r, ids };
    let rows = pending_upto(pl.live.pending, h, st.incarnation, sat_add(abs_ack, par.ack_tolerance as u64));
    lemma_pending_upto(pl, h, st.incarnation, sat_add(abs_ack, par.ack_tolerance as u64));
    crate::qr::lemma_still_open(pl.live, rows);
    assert(keys.contains(keys[0]));
    assert(is_open(pl, ids[0]));
    reveal_with_fuel(close_all, 2);
    let one = close_all(pl, keys, how, 1);
    assert(one.epoch.pairs.contains_key(ids[0]));
    assert(one.epoch.pairs[ids[0]] == finished(pl.live.pairs[ids[0]], how, 0));
    lemma_close_grown(pl, keys, how, 1, keys.len());
    let all = close_all(pl, keys, how, keys.len());
    assert(kept(one.epoch.pairs, all.epoch.pairs));
    assert(all.epoch.pairs[ids[0]] == one.epoch.pairs[ids[0]]);
    lemma_merged_holds(pl.live.pairs[ids[0]].q_idx, ids.skip(1));
}

/// A reset aborts every pending request of the current incarnation at once.
pub proof fn law_reset_aborts_all(pl: PlanesView, h: u64, st: ConnState, r: IndexedRecord)
    requires
        pl.live.pending.dom().finite(),
    ensures
        swept(pl, reset(pl, h, st, r).pl, h, st.incarnation, U48_MAX, QrStatus::RstAbort),
        reset(pl, h, st, r).st.state == ConnStateKind::Reset.code(),
{
    lemma_sweep(pl, h, st.incarnation, U48_MAX, Outcome::Closed { status: QrStatus::RstAbort });
}

proof fn lemma_active_bits(a: u8, x: bool, y: bool)
    ensures
        active_with_s(active_with_c(a, x), y) / 4 == a / 4,
        active_with_s(active_with_c(a, x), y) / 8 == a / 8,
{
    let b = active_with_c(a, x);
    assert(b / 4 == a / 4);
    let c = active_with_s(b, y);
    assert(c / 4 == b / 4);
    assert(c / 8 == c / 4 / 2);
    assert(a / 8 == a / 4 / 2);
}

proof fn lemma_fin_bits(a: u8, client: bool)
    ensures
        active_with_fin(a, client) / 4 % 2 == 1 <==> a / 4 % 2 == 1 || client,
        active_with_fin(a, client) / 8 % 2 == 1 <==> a / 8 % 2 == 1 || !client,
{
}

/// The FIN of one side, after the FIN of the other, completes the pair: the bits of both sides are set once
/// the packet is handled, and a side's bit is not set by anything but its own FIN.
pub proof fn law_fins_are_kept_apart(
    pl: PlanesView,
    h: u64,
    st: ConnState,
    r: IndexedRecord,
    dir: Dir,
    par: QrParams,
    rules: Option<Seq<RuleView>>,
    high: bool,
)
    ensures
        ({
            let a = exchanged(pl, h, st, r, dir, par, rules, high).st.active;
            let fin = flagged(r.rec, TCP_FIN);
            &&& a / 4 % 2 == 1 <==> st.active / 4 % 2 == 1 || fin && dir == Dir::C2S
            &&& a / 8 % 2 == 1 <==> st.active / 8 % 2 == 1 || fin && dir == Dir::S2C
        }),
{
    let a1 = if flagged(r.rec, TCP_FIN) {
        active_with_fin(st.active, dir == Dir::C2S)
    } else {
        st.active
    };
    lemma_fin_bits(st.active, dir == Dir::C2S);
    let st2 = counted(handshake(st, r, dir), r.rec, dir);
    assert(st2.active == a1);
    let c0 = SeqStream::of(st, true);
    let s0 = SeqStream::of(st, false);
    match dir {
        Dir::C2S => {
            let (c, start, fresh) = c0.fed(r.rec.tcp_seq, r.rec.orig_payload_len);
            let g = requested(pl, h, st2, r, start, fresh, rules, high);
            assert(g.st.active == a1);
            lemma_active_bits(a1, c.active, s0.active);
        },
        Dir::S2C => {
            let (s, start, fresh) = s0.fed(r.rec.tcp_seq, r.rec.orig_payload_len);
            let g = responded(pl, h, st2, r, c0, fresh, par);
            assert(g.st.active == a1);
            lemma_active_bits(a1, c0.active, s.active);
        },
    }
}

/// The second FIN closes the connection: every request of its current incarnation that is still pending
/// ends unmatched, and nothing of it waits any more.
pub proof fn law_second_fin_closes(g: Stage, h: u64, before: ConnState, r: IndexedRecord, par: QrParams)
    requires
        g.pl.live.pending.dom().finite(),
        flagged(r.rec, TCP_FIN),
        both_fins(g.st.active),
        g.st.state != ConnStateKind::Reset.code(),
    ensures
        swept(g.pl, concluded(g, h, before, r, par).pl, h, g.st.incarnation, U48_MAX, QrStatus::Unmatched),
        concluded(g, h, before, r, par).st.state == ConnStateKind::Closed.code(),
{
    lemma_sweep(g.pl, h, g.st.incarnation, U48_MAX, Outcome::Closed { status: QrStatus::Unmatched });
}

/// A request too many puts the connection in quarantine: all pending requests of its current incarnation
/// are aborted for want of resources.
pub proof fn law_request_flood_aborts(g: Stage, h: u64, before: ConnState, r: IndexedRecord, par: QrParams)
    requires
        g.pl.live.pending.dom().finite(),
        !(flagged(r.rec, TCP_FIN) && both_fins(g.st.active)),
        g.st.qr_open > before.qr_open,
        g.st.qr_open >= par.pending_budget,
    ensures
        swept(g.pl, concluded(g, h, before, r, par).pl, h, g.st.incarnation, U48_MAX, QrStatus::AbortedResource),
        concluded(g, h, before, r, par).st.state == ConnStateKind::Quarantined.code(),
        concluded(g, h, before, r, par).st.anomaly_flags == g.st.anomaly_flags | anomaly::CONN_QR_FLOOD,
{
    lemma_sweep(g.pl, h, g.st.incarnation, U48_MAX, Outcome::Closed { status: QrStatus::AbortedResource });
}

/// Whether a pending row belongs to the current incarnation of one of the first `n` connections, and the
/// cause concerns it.
spec fn given_up_upto(pl: PlanesView, hs: Seq<u64>, cause: Cause, now: u64, n: nat, key: PendingKey) -> bool {
    &&& among_conns(hs, n, key.conn)
    &&& concerns(cause, pl.live.conns, now, key.conn)
    &&& in_reach(key, key.conn, pl.live.conns[key.conn].incarnation, U48_MAX)
}

spec fn among_conns(hs: Seq<u64>, n: nat, h: u64) -> bool {
    exists|i: int| 0 <= i < n && i < hs.len() && #[trigger] hs[i] == h
}

/// A pair is as it was, or finished in history.
spec fn spared_or_finished(p: PlanesView, q: PlanesView, cause: Cause, k: u64) -> bool {
    if q.live.pairs.contains_key(k) {
        q.live.pairs[k] == p.live.pairs[k] && (q.epoch.pairs.contains_key(k) ==> p.epoch.pairs.contains_key(k))
    } else {
        q.epoch.pairs.contains_key(k) && (p.epoch.pairs.contains_key(k) || q.epoch.pairs[k].status == request_end(cause).code())
    }
}

/// What the end of those of the first `n` connections does that the cause concerns.
spec fn ending_done(p: PlanesView, q: PlanesView, hs: Seq<u64>, cause: Cause, now: u64, n: nat) -> bool {
    &&& q.live.conns.dom() == p.live.conns.dom()
    &&& q.live.pending.dom().finite()
    &&& forall|h: u64| #[trigger] p.live.conns.contains_key(h) ==> if among_conns(hs, n, h) && concerns(cause, p.live.conns, now, h) {
        exists|m: nat| q.live.conns[h] == #[trigger] conn_end(cause, p.live.conns[h], m)
    } else {
        q.live.conns[h] == p.live.conns[h]
    }
    &&& forall|key: PendingKey| #[trigger]
        q.live.pending.contains_key(key) <==> p.live.pending.contains_key(key) && !given_up_upto(p, hs, cause, now, n, key)
    &&& forall|key: PendingKey| #[trigger] q.live.pending.contains_key(key) ==> q.live.pending[key] == p.live.pending[key]
    &&& forall|k: u64| #[trigger] q.live.pairs.contains_key(k) ==> p.live.pairs.contains_key(k)
    &&& forall|k: u64| #[trigger] p.live.pairs.contains_key(k) ==> spared_or_finished(p, q, cause, k)
    &&& forall|key: PendingKey| #[trigger]
        p.live.pending.contains_key(key) && given_up_upto(p, hs, cause, now, n, key) ==> !is_open(q, p.live.pending[key].q_first_idx)
}

proof fn lemma_ended_one(p: PlanesView, q: PlanesView, hs: Seq<u64>, cause: Cause, now: u64, m: nat)
    requires
        m < hs.len(),
        forall|i: int, j: int| 0 <= i < j < hs.len() ==> hs[i] != hs[j],
        ending_done(p, q, hs, cause, now, m),
        p.live.conns.contains_key(hs[m as int]),
        concerns(cause, q.live.conns, now, hs[m as int]),
    ensures
        ending_done(p, ended(q, cause, now, hs[m as int]).pl, hs, cause, now, m + 1),
{
    let h = hs[m as int];
    let n = m + 1;
    assert(!among_conns(hs, m, h));
    let st = q.live.conns[h];
    assert(st == p.live.conns[h]);
    let how = Outcome::Closed { status: request_end(cause) };
    let keys = pending_upto(q.live.pending, h, st.incarnation, U48_MAX);
    lemma_pending_upto(q, h, st.incarnation, U48_MAX);
    lemma_close_all(q, keys, how, keys.len());
    let c = close_all(q, keys, how, keys.len());
    let w = ended(q, cause, now, h).pl;
    assert(w.live.conns.dom() =~= p.live.conns.dom());
    assert(w.live.conns[h] == conn_end(cause, p.live.conns[h], keys.len()));
    assert(w.live.pending.dom().subset_of(q.live.pending.dom()));
    vstd::set_lib::lemma_len_subset(w.live.pending.dom(), q.live.pending.dom());
    assert forall|x: u64| among_conns(hs, n, x) == (among_conns(hs, m, x) || x == h) by {
        if among_conns(hs, n, x) && x != h {
            let i = choose|i: int| 0 <= i < n && i < hs.len() && #[trigger] hs[i] == x;
            assert(hs[i] == x && i < m);
        }
        if among_conns(hs, m, x) {
            let i = choose|i: int| 0 <= i < m && i < hs.len() && #[trigger] hs[i] == x;
            assert(hs[i] == x && i < n);
        }
        assert(hs[m as int] == h);
    }
    assert forall|key: PendingKey| #[trigger]
        w.live.pending.contains_key(key) <==> p.live.pending.contains_key(key) && !given_up_upto(p, hs, cause, now, n, key) by {
        assert(q.live.pending.contains_key(key) <==> p.live.pending.contains_key(key) && !given_up_upto(p, hs, cause, now, m, key));
        if among(keys, keys.len(), key) {
            let i = choose|i: int| 0 <= i < keys.len() && i < keys.len() && #[trigger] keys[i] == key;
            assert(in_reach(keys[i], h, st.incarnation, U48_MAX));
        }
    }
    assert forall|k: u64| #[trigger] p.live.pairs.contains_key(k) implies spared_or_finished(p, w, cause, k) by {
        assert(spared_or_finished(p, q, cause, k));
        lemma_close_grown(q, keys, how, 0, keys.len());
        assert(close_all(q, keys, how, 0) == q);
        assert(kept(q.epoch.pairs, c.epoch.pairs));
        if q.live.pairs.contains_key(k) && !c.live.pairs.contains_key(k) && !q.epoch.pairs.contains_key(k) {
            let i = choose|i: int| 0 <= i < keys.len() && c.epoch.pairs[k] == #[trigger] finished(q.live.pairs[k], how, i);
            assert(finished(q.live.pairs[k], how, i).status == request_end(cause).code());
        }
    }
    assert forall|key: PendingKey| #[trigger]
        p.live.pending.contains_key(key) && given_up_upto(p, hs, cause, now, n, key) implies !is_open(w, p.live.pending[key].q_first_idx) by {
        let k = p.live.pending[key].q_first_idx;
        if given_up_upto(p, hs, cause, now, m, key) {
            assert(!is_open(q, k));
            if c.live.pairs.contains_key(k) {
                assert(c.live.pairs[k] == q.live.pairs[k]);
            }
        } else {
            assert(q.live.pending.contains_key(key));
            assert(among(keys, keys.len(), key));
            let i = choose|i: int| 0 <= i < keys.len() && i < keys.len() && #[trigger] keys[i] == key;
            assert(!is_open(c, q.live.pending[keys[i]].q_first_idx));
        }
    }
}

proof fn lemma_ended_upto(p: PlanesView, hs: Seq<u64>, cause: Cause, now: u64, n: nat)
    requires
        p.live.pending.dom().finite(),
        n <= hs.len(),
        forall|i: int, j: int| 0 <= i < j < hs.len() ==> hs[i] != hs[j],
        forall|i: int| 0 <= i < hs.len() ==> p.live.conns.contains_key(#[trigger] hs[i]),
    ensures
        ending_done(p, ended_upto(p, hs, cause, now, n).pl, hs, cause, now, n),
    decreases n,
{
    if n > 0 {
        let m = (n - 1) as nat;
        lemma_ended_upto(p, hs, cause, now, m);
        let q = ended_upto(p, hs, cause, now, m).pl;
        let h = hs[m as int];
        if concerns(cause, q.live.conns, now, h) {
            lemma_ended_one(p, q, hs, cause, now, m);
        } else {
            assert(!among_conns(hs, m, h));
            assert(p.live.conns.contains_key(h));
            assert(!concerns(cause, p.live.conns, now, h));
            assert forall|x: u64| among_conns(hs, n, x) && x != h implies among_conns(hs, m, x) by {
                let i = choose|i: int| 0 <= i < n && i < hs.len() && #[trigger] hs[i] == x;
                assert(hs[i] == x && i < m);
            }
            assert forall|x: u64| among_conns(hs, m, x) implies among_conns(hs, n, x) by {
                let i = choose|i: int| 0 <= i < m && i < hs.len() && #[trigger] hs[i] == x;
                assert(hs[i] == x && i < n);
            }
            assert forall|key: PendingKey| given_up_upto(p, hs, cause, now, n, key) == given_up_upto(p, hs, cause, now, m, key) by {}
        }
    }
}

/// A cause ends each connection that it concerns and leaves every other connection as it is. Of the
/// pending requests exactly those go that belong to the current incarnation of such a connection, and each
/// of these that was open is in history with the outcome that the cause gives it, unless history had it
/// before: aborted for want of resources where the device was quarantined, unmatched where the connection
/// was idle.
pub proof fn law_ending_finishes_what_waits(pl: PlanesView, cause: Cause, now: u64)
    requires
        pl.live.conns.dom().finite(),
        pl.live.pending.dom().finite(),
    ensures
        ({
            let q = all_ended(pl, cause, now).pl;
            &&& q.live.conns.dom() == pl.live.conns.dom()
            &&& forall|h: u64| #[trigger] pl.live.conns.contains_key(h) ==> if concerns(cause, pl.live.conns, now, h) {
                exists|n: nat| q.live.conns[h] == #[trigger] conn_end(cause, pl.live.conns[h], n)
            } else {
                q.live.conns[h] == pl.live.conns[h]
            }
            &&& forall|key: PendingKey| #[trigger]
                q.live.pending.contains_key(key) <==> pl.live.pending.contains_key(key) && !waits_to_end(pl, cause, now, key)
            &&& forall|key: PendingKey| #[trigger] q.live.pending.contains_key(key) ==> q.live.pending[key] == pl.live.pending[key]
            &&& forall|key: PendingKey| #[trigger]
                pl.live.pending.contains_key(key) && waits_to_end(pl, cause, now, key) && is_open(pl, pl.live.pending[key].q_first_idx) ==> {
                    let k = pl.live.pending[key].q_first_idx;
                    !q.live.pairs.contains_key(k) && q.epoch.pairs.contains_key(k) && (pl.epoch.pairs.contains_key(k)
                        || q.epoch.pairs[k].status == request_end(cause).code())
                }
        }),
{
    let hs = all_conns(pl);
    crate::table::lemma_scan_exists(pl.live.conns.dom(), 0u64, u64::MAX);
    assert forall|i: int| 0 <= i < hs.len() implies pl.live.conns.contains_key(#[trigger] hs[i]) by {
        assert(pl.live.conns.dom().contains(hs[i]));
    }
    lemma_ended_upto(pl, hs, cause, now, hs.len());
    let q = all_ended(pl, cause, now).pl;
    assert forall|h: u64| #[trigger] pl.live.conns.contains_key(h) implies among_conns(hs, hs.len(), h) by {
        assert(pl.live.conns.dom().contains(h));
        assert(hs.contains(h));
        let i = choose|i: int| 0 <= i < hs.len() && hs[i] == h;
        assert(hs[i] == h);
    }
    assert forall|key: PendingKey| waits_to_end(pl, cause, now, key) == given_up_upto(pl, hs, cause, now, hs.len(), key) by {
        if concerns(cause, pl.live.conns, now, key.conn) {
            assert(pl.live.conns.contains_key(key.conn));
        }
    }
    assert forall|key: PendingKey| #[trigger]
        pl.live.pending.contains_key(key) && waits_to_end(pl, cause, now, key) && is_open(pl, pl.live.pending[key].q_first_idx) implies ({
        let k = pl.live.pending[key].q_first_idx;
        !q.live.pairs.contains_key(k) && q.epoch.pairs.contains_key(k) && (pl.epoch.pairs.contains_key(k) || q.epoch.pairs[k].status
            == request_end(cause).code())
    }) by {
        let k = pl.live.pending[key].q_first_idx;
        assert(given_up_upto(pl, hs, cause, now, hs.len(), key));
        assert(pl.live.pairs.contains_key(k));
        assert(spared_or_finished(pl, q, cause, k));
        assert(!is_open(q, k));
    }
}

/// Whether a pending row belongs to the current incarnation of a connection that the cause concerns.
pub open spec fn waits_to_end(pl: PlanesView, cause: Cause, now: u64, key: PendingKey) -> bool {
    concerns(cause, pl.live.conns, now, key.conn) && in_reach(key, key.conn, pl.live.conns[key.conn].incarnation, U48_MAX)
}

/// Every bit of `a` is set in `b`.
pub open spec fn bits_within(a: u32, b: u32) -> bool {
    a | b == b
}

proof fn lemma_bits(a: u32, b: u32, c: u32)
    ensures
        bits_within(a, a),
        bits_within(a, a | b),
        bits_within(b, a | b),
        bits_within(a, b) && bits_within(b, c) ==> bits_within(a, c),
{
    assert(a | a == a) by (bit_vector);
    assert(a | (a | b) == a | b) by (bit_vector);
    assert(b | (a | b) == a | b) by (bit_vector);
    assert((a | b == b && b | c == c) ==> a | c == c) by (bit_vector);
}

proof fn lemma_exchange_marks(
    pl: PlanesView,
    h: u64,
    st: ConnState,
    r: IndexedRecord,
    dir: Dir,
    par: QrParams,
    rules: Option<Seq<RuleView>>,
    high: bool,
)
    ensures
        bits_within(st.anomaly_flags, exchanged(pl, h, st, r, dir, par, rules, high).st.anomaly_flags),
{
    let f = st.anomaly_flags;
    let f1 = if flagged(r.rec, TCP_SYN) && dir == Dir::C2S {
        f | anomaly::SYN_SEEN
    } else {
        f
    };
    let f2 = if flagged(r.rec, TCP_FIN) {
        f1 | anomaly::FIN_SEEN
    } else {
        f1
    };
    let st2 = counted(handshake(st, r, dir), r.rec, dir);
    assert(st2.anomaly_flags == f2);
    lemma_bits(f, anomaly::SYN_SEEN, f2);
    lemma_bits(f1, anomaly::FIN_SEEN, f2);
    lemma_bits(f, f1, f2);
    let c0 = SeqStream::of(st, true);
    let s0 = SeqStream::of(st, false);
    match dir {
        Dir::C2S => {
            let (c, start, fresh) = c0.fed(r.rec.tcp_seq, r.rec.orig_payload_len);
            let g = requested(pl, h, st2, r, start, fresh, rules, high);
            assert(g.st.anomaly_flags == f2 || g.st.anomaly_flags == f2 | anomaly::RETRANS);
            lemma_bits(f2, anomaly::RETRANS, f2);
            lemma_bits(f, f2, g.st.anomaly_flags);
        },
        Dir::S2C => {
            let (s, start, fresh) = s0.fed(r.rec.tcp_seq, r.rec.orig_payload_len);
            let g = responded(pl, h, st2, r, c0, fresh, par);
            assert(g.st.anomaly_flags == f2);
        },
    }
}

proof fn lemma_move_marks(
    pl: PlanesView,
    h: u64,
    st: ConnState,
    r: IndexedRecord,
    dir: Dir,
    par: QrParams,
    rules: Option<Seq<RuleView>>,
    high: bool,
)
    ensures
        bits_within(st.anomaly_flags, moved(pl, h, st, r, dir, par, rules, high).st.anomaly_flags),
{
    let f = st.anomaly_flags;
    if flagged(r.rec, TCP_RST) {
        lemma_bits(f, anomaly::RESET, f);
    } else {
        let g = exchanged(pl, h, st, r, dir, par, rules, high);
        lemma_exchange_marks(pl, h, st, r, dir, par, rules, high);
        let f1 = g.st.anomaly_flags;
        let f2 = concluded(g, h, st, r, par).st.anomaly_flags;
        assert(f2 == f1 || f2 == f1 | anomaly::QR_UNMATCHED || f2 == f1 | anomaly::CONN_QR_FLOOD);
        lemma_bits(f1, anomaly::QR_UNMATCHED, f2);
        lemma_bits(f1, anomaly::CONN_QR_FLOOD, f2);
        lemma_bits(f, f1, f2);
    }
}

/// A packet takes no mark off its connection, a closed window is marked, and so is a record that the probe
/// took in a degraded state.
pub proof fn law_marks_accumulate(
    pl: PlanesView,
    h: u64,
    st: ConnState,
    r: IndexedRecord,
    dir: Dir,
    par: QrParams,
    rules: Option<Seq<RuleView>>,
    high: bool,
)
    ensures
        ({
            let marks = stepped(pl, h, st, r, dir, par, rules, high).st.anomaly_flags;
            &&& bits_within(st.anomaly_flags, marks)
            &&& r.rec.window_size == 0 ==> bits_within(anomaly::ZERO_WIN, marks)
            &&& r.rec.flags & FLAG_DEGRADED != 0 ==> bits_within(anomaly::DEGRADED, marks)
        }),
{
    let f = st.anomaly_flags;
    let (p1, s1) = if is_rebirth(st, r, dir) {
        (reborn(pl, h, st, r, dir).pl, reborn(pl, h, st, r, dir).st)
    } else {
        (pl, gap_marked(st, r.rec, dir))
    };
    let f1 = s1.anomaly_flags;
    let s2 = condition_marked(s1, r.rec);
    let f2 = if r.rec.window_size == 0 {
        f1 | anomaly::ZERO_WIN
    } else {
        f1
    };
    let f3 = s2.anomaly_flags;
    let f4 = stepped(pl, h, st, r, dir, par, rules, high).st.anomaly_flags;
    lemma_move_marks(p1, h, s2, r, dir, par, rules, high);
    assert(bits_within(f3, f4));
    lemma_bits(f, anomaly::SEQ_GAP, f1);
    assert(bits_within(f, f1));
    lemma_bits(f1, anomaly::ZERO_WIN, f2);
    lemma_bits(f2, anomaly::DEGRADED, f3);
    lemma_bits(f, f1, f2);
    lemma_bits(f, f2, f3);
    lemma_bits(f, f3, f4);
    lemma_bits(anomaly::ZERO_WIN, f2, f3);
    lemma_bits(anomaly::ZERO_WIN, f3, f4);
    lemma_bits(anomaly::DEGRADED, f3, f4);
}

/// A new incarnation ends every pending request of the old one unmatched, counts on by one, and starts
/// with nothing acknowledged.
pub proof fn law_rebirth_isolates(pl: PlanesView, h: u64, st: ConnState, r: IndexedRecord, dir: Dir)
    requires
        pl.live.pending.dom().finite(),
    ensures
        swept(pl, reborn(pl, h, st, r, dir).pl, h, st.incarnation, U48_MAX, QrStatus::Unmatched),
        reborn(pl, h, st, r, dir).st.incarnation != st.incarnation,
        reborn(pl, h, st, r, dir).st.incarnation == (st.incarnation + 1) % 0x1_0000,
        reborn(pl, h, st, r, dir).st.consumed_ack_s == 0,
{
    lemma_sweep(pl, h, st.incarnation, U48_MAX, Outcome::Closed { status: QrStatus::Unmatched });
}

/// An acknowledgement too far ahead of the client stream, as a late packet of another incarnation may
/// carry, touches no request and acknowledges nothing.
pub proof fn law_far_ack_is_ignored(pl: PlanesView, h: u64, st: ConnState, r: IndexedRecord, client: SeqStream, fresh: u32, par: QrParams)
    requires
        client.abs(r.rec.tcp_ack) > sat_add(client.last_abs, ACK_LEAD_CAP),
    ensures
        responded(pl, h, st, r, client, fresh, par).pl == pl,
        responded(pl, h, st, r, client, fresh, par).st.consumed_ack_s == st.consumed_ack_s,
{
}

/// A repeated acknowledgement consumes nothing.
pub proof fn law_repeated_ack_is_ignored(pl: PlanesView, h: u64, st: ConnState, r: IndexedRecord, client: SeqStream, fresh: u32, par: QrParams)
    requires
        client.abs(r.rec.tcp_ack) <= st.consumed_ack_s,
    ensures
        responded(pl, h, st, r, client, fresh, par).pl == pl,
        responded(pl, h, st, r, client, fresh, par).st.consumed_ack_s == st.consumed_ack_s,
{
}

/// Every pending row outside an incarnation of a connection is as it was.
pub open spec fn reaches_only(p: PlanesView, q: PlanesView, h: u64, inc: u16) -> bool {
    forall|key: PendingKey| #[trigger]
        p.live.pending.contains_key(key) && (key.conn != h || key.inc != inc) ==> q.live.pending.contains_key(key) && q.live.pending[key]
            == p.live.pending[key]
}

/// Every pending row of another connection is as it was.
pub open spec fn spares_others(p: PlanesView, q: PlanesView, h: u64) -> bool {
    forall|key: PendingKey| #[trigger]
        p.live.pending.contains_key(key) && key.conn != h ==> q.live.pending.contains_key(key) && q.live.pending[key]
            == p.live.pending[key]
}

proof fn lemma_swept_reach(p: PlanesView, q: PlanesView, h: u64, inc: u16, limit: u64, status: QrStatus)
    requires
        swept(p, q, h, inc, limit, status),
    ensures
        reaches_only(p, q, h, inc),
        spares_others(p, q, h),
        p.live.pending.dom().finite() ==> q.live.pending.dom().finite(),
{
    assert forall|key: PendingKey| #[trigger] p.live.pending.contains_key(key) && (key.conn != h || key.inc != inc) implies
        q.live.pending.contains_key(key) && q.live.pending[key] == p.live.pending[key] by {
        assert(!in_reach(key, h, inc, limit));
        assert(q.live.pending.contains_key(key));
    }
    if p.live.pending.dom().finite() {
        assert forall|key: PendingKey| q.live.pending.dom().contains(key) implies p.live.pending.dom().contains(key) by {
            assert(q.live.pending.contains_key(key));
        }
        vstd::set_lib::lemma_len_subset(q.live.pending.dom(), p.live.pending.dom());
    }
}

proof fn lemma_request_reach(
    pl: PlanesView,
    h: u64,
    st: ConnState,
    r: IndexedRecord,
    start: u64,
    fresh: u32,
    rules: Option<Seq<RuleView>>,
    high: bool,
)
    ensures
        ({
            let g = crate::matching::requested(pl, h, st, r, start, fresh, rules, high);
            &&& g.st.incarnation == st.incarnation
            &&& g.pl.live.conns == pl.live.conns
            &&& reaches_only(pl, g.pl, h, st.incarnation)
            &&& pl.live.pending.dom().finite() ==> g.pl.live.pending.dom().finite()
        }),
{
}

proof fn lemma_response_reach(
    pl: PlanesView,
    h: u64,
    st: ConnState,
    r: IndexedRecord,
    client: SeqStream,
    fresh: u32,
    par: QrParams,
)
    requires
        pl.live.pending.dom().finite(),
    ensures
        ({
            let g = responded(pl, h, st, r, client, fresh, par);
            &&& g.st.incarnation == st.incarnation
            &&& g.pl.live.conns == pl.live.conns
            &&& reaches_only(pl, g.pl, h, st.incarnation)
            &&& pl.live.pending.dom().finite() ==> g.pl.live.pending.dom().finite()
        }),
{
    let st2 = if fresh > 0 {
        ConnState { resp_cnt: sat_add(st.resp_cnt, 1), ..st }
    } else {
        st
    };
    let ack = client.abs(r.rec.tcp_ack);
    law_ack_consumes_cumulatively(pl, h, st2, r, ack, par);
    let c = consumed(pl, h, st2, r, ack, par);
    lemma_answered_reach(pl, c.pl, h, st.incarnation, sat_add(ack, par.ack_tolerance as u64));
}

proof fn lemma_answered_reach(p: PlanesView, q: PlanesView, h: u64, inc: u16, limit: u64)
    requires
        answered(p, q, h, inc, limit),
        p.live.pending.dom().finite(),
    ensures
        reaches_only(p, q, h, inc),
        q.live.pending.dom().finite(),
{
    assert forall|key: PendingKey| #[trigger] p.live.pending.contains_key(key) && (key.conn != h || key.inc != inc) implies
        q.live.pending.contains_key(key) && q.live.pending[key] == p.live.pending[key] by {
        assert(!in_reach(key, h, inc, limit));
        assert(q.live.pending.contains_key(key));
    }
    assert forall|key: PendingKey| q.live.pending.dom().contains(key) implies p.live.pending.dom().contains(key) by {
        assert(q.live.pending.contains_key(key));
    }
    vstd::set_lib::lemma_len_subset(q.live.pending.dom(), p.live.pending.dom());
}

/// What a packet comes to reaches only pending rows of its connection and incarnation.
proof fn lemma_concluded_reach(g: Stage, h: u64, before: ConnState, r: IndexedRecord, par: QrParams)
    requires
        g.pl.live.pending.dom().finite(),
    ensures
        ({
            let c = concluded(g, h, before, r, par);
            &&& c.st.incarnation == g.st.incarnation
            &&& c.pl.live.conns == g.pl.live.conns
            &&& reaches_only(g.pl, c.pl, h, g.st.incarnation)
        }),
{
    let inc = g.st.incarnation;
    let keys = pending_upto(g.pl.live.pending, h, inc, U48_MAX);
    let un = Outcome::Closed { status: QrStatus::Unmatched };
    let ab = Outcome::Closed { status: QrStatus::AbortedResource };
    lemma_sweep(g.pl, h, inc, U48_MAX, un);
    lemma_swept_reach(g.pl, close_all(g.pl, keys, un, keys.len()), h, inc, U48_MAX, QrStatus::Unmatched);
    lemma_sweep(g.pl, h, inc, U48_MAX, ab);
    lemma_swept_reach(g.pl, close_all(g.pl, keys, ab, keys.len()), h, inc, U48_MAX, QrStatus::AbortedResource);
}

/// What a packet within an incarnation can do to pending rows: those of other connections and incarnations
/// stay.
proof fn lemma_moved_reach(
    pl: PlanesView,
    h: u64,
    st: ConnState,
    r: IndexedRecord,
    dir: Dir,
    par: QrParams,
    rules: Option<Seq<RuleView>>,
    high: bool,
)
    requires
        pl.live.pending.dom().finite(),
    ensures
        ({
            let g = moved(pl, h, st, r, dir, par, rules, high);
            &&& g.st.incarnation == st.incarnation
            &&& g.pl.live.conns == pl.live.conns
            &&& reaches_only(pl, g.pl, h, st.incarnation)
        }),
{
    if flagged(r.rec, TCP_RST) {
        law_reset_aborts_all(pl, h, st, r);
        lemma_swept_reach(pl, reset(pl, h, st, r).pl, h, st.incarnation, U48_MAX, QrStatus::RstAbort);
    } else {
        let g = exchanged(pl, h, st, r, dir, par, rules, high);
        lemma_exchange_reach(pl, h, st, r, dir, par, rules, high);
        lemma_concluded_reach(g, h, st, r, par);
        let c = concluded(g, h, st, r, par);
        assert forall|key: PendingKey| #[trigger]
            pl.live.pending.contains_key(key) && (key.conn != h || key.inc != st.incarnation) implies c.pl.live.pending.contains_key(key)
            && c.pl.live.pending[key] == pl.live.pending[key] by {
            assert(g.pl.live.pending.contains_key(key));
        }
    }
}

/// What a packet that is no reset can do to pending rows: those of other connections and incarnations
/// stay.
proof fn lemma_exchange_reach(
    pl: PlanesView,
    h: u64,
    st: ConnState,
    r: IndexedRecord,
    dir: Dir,
    par: QrParams,
    rules: Option<Seq<RuleView>>,
    high: bool,
)
    requires
        pl.live.pending.dom().finite(),
    ensures
        ({
            let g = exchanged(pl, h, st, r, dir, par, rules, high);
            &&& g.st.incarnation == st.incarnation
            &&& g.pl.live.conns == pl.live.conns
            &&& reaches_only(pl, g.pl, h, st.incarnation)
            &&& pl.live.pending.dom().finite() ==> g.pl.live.pending.dom().finite()
        }),
{
    let st2 = crate::matching::counted(crate::matching::handshake(st, r, dir), r.rec, dir);
    let c0 = SeqStream::of(st, true);
    let s0 = SeqStream::of(st, false);
    match dir {
        Dir::C2S => {
            let (c, start, fresh) = c0.fed(r.rec.tcp_seq, r.rec.orig_payload_len);
            lemma_request_reach(pl, h, st2, r, start, fresh, rules, high);
        },
        Dir::S2C => {
            let (s, start, fresh) = s0.fed(r.rec.tcp_seq, r.rec.orig_payload_len);
            lemma_response_reach(pl, h, st2, r, c0, fresh, par);
        },
    }
}

/// Only a SYN opens a new incarnation: no other packet does, however far its sequence number jumps,
/// and none but SYN touches a pending row outside the current incarnation of its connection.
pub proof fn law_only_syn_rebirths(pl: PlanesView, r: IndexedRecord, par: QrParams, rules: Option<Seq<RuleView>>, high: bool)
    requires
        pl.live.pending.dom().finite(),
        r.rec.proto == 6,
        !flagged(r.rec, TCP_SYN),
    ensures
        ({
            let (h, dir, st) = located(pl.live.conns, r);
            let q = step(pl, r, par, rules, high).pl;
            &&& q.live.conns[h].incarnation == st.incarnation
            &&& reaches_only(pl, q, h, st.incarnation)
        }),
{
    let p0 = recorded(pl, r);
    let (h, dir, st) = located(p0.live.conns, r);
    assert(!is_rebirth(st, r, dir));
    let s1 = after_rebirth(p0, h, st, r, dir).1;
    lemma_moved_reach(p0, h, s1, r, dir, par, rules, high);
    let g = moved(p0, h, s1, r, dir, par, rules, high);
    assert(stepped(p0, h, st, r, dir, par, rules, high).pl == g.pl);
    assert(stepped(p0, h, st, r, dir, par, rules, high).st == g.st);
}

/// A record reaches its own connection only: the state and the pending rows of every other connection
/// stay as they are.
pub proof fn law_connections_are_isolated(pl: PlanesView, r: IndexedRecord, par: QrParams, rules: Option<Seq<RuleView>>, high: bool)
    requires
        pl.live.pending.dom().finite(),
        r.rec.proto == 6,
    ensures
        ({
            let h = located(pl.live.conns, r).0;
            let q = step(pl, r, par, rules, high).pl;
            &&& forall|x: u64| #[trigger]
                pl.live.conns.contains_key(x) && x != h ==> q.live.conns.contains_key(x) && q.live.conns[x] == pl.live.conns[x]
            &&& spares_others(pl, q, h)
        }),
{
    let p0 = recorded(pl, r);
    let (h, dir, st) = located(p0.live.conns, r);
    let (p1, s1) = after_rebirth(p0, h, st, r, dir);
    if is_rebirth(st, r, dir) {
        law_rebirth_isolates(p0, h, st, r, dir);
        lemma_swept_reach(p0, p1, h, st.incarnation, U48_MAX, QrStatus::Unmatched);
    }
    assert(spares_others(p0, p1, h));
    let p2 = stepped(p0, h, st, r, dir, par, rules, high).pl;
    lemma_moved_reach(p1, h, s1, r, dir, par, rules, high);
    assert(p2 == moved(p1, h, s1, r, dir, par, rules, high).pl);
    assert(reaches_only(p1, p2, h, s1.incarnation));
    assert forall|key: PendingKey| #[trigger] p0.live.pending.contains_key(key) && key.conn != h implies p2.live.pending.contains_key(key)
        && p2.live.pending[key] == p0.live.pending[key] by {
        assert(p1.live.pending.contains_key(key));
    }
}

/// What a finished row tells of the answer, if there is one. A matched row has the time of the answer, its locator, its
/// length added, the start of its payload unless another request of the same answer carries that, and the
/// whole milliseconds from the request to the answer, none if the answer is older. Any other row tells of
/// no answer.
pub open spec fn tells_answer(p: QrPairView, q: QrPairView, answer: Option<IndexedRecord>) -> bool {
    if q.status == QrStatus::Matched.code() {
        let r = answer->0;
        &&& answer is Some
        &&& q.r_ts == r.rec.timestamp_ns
        &&& p.q_ts <= q.r_ts ==> q.latency_ms * 1_000_000 <= q.r_ts - p.q_ts < (q.latency_ms + 1) * 1_000_000
        &&& p.q_ts > q.r_ts ==> q.latency_ms == 0
        &&& q.r_idx.len() == p.r_idx.len() + 1
        &&& q.r_idx.last() == r.loc()
        &&& q.r_idx.drop_last() == p.r_idx
        &&& p.r_len + r.rec.orig_payload_len <= u32::MAX ==> q.r_len - p.r_len == r.rec.orig_payload_len
        &&& q.resp_key == p.resp_key || q.resp_key.len() <= 32 && q.resp_key.is_prefix_of(r.rec.payload@) && (q.resp_key.len() < 32
            ==> q.resp_key == r.rec.payload@)
    } else {
        &&& q.r_ts == p.r_ts
        &&& q.latency_ms == p.latency_ms
        &&& q.r_idx == p.r_idx
        &&& q.r_len == p.r_len
        &&& q.resp_key == p.resp_key
        &&& q.q_idx == p.q_idx
    }
}

proof fn lemma_finished_answer(p: QrPairView, how: Outcome, i: int, r: Option<IndexedRecord>)
    requires
        how matches Outcome::Matched { r: by, ids } ==> Some(by) == r,
        how matches Outcome::Closed { status } ==> status != QrStatus::Matched,
    ensures
        tells_answer(p, finished(p, how, i), r),
{
    let q = finished(p, how, i);
    if let Outcome::Matched { r: by, ids } = how {
        assert(q.r_idx.drop_last() =~= p.r_idx);
        let d = if by.rec.timestamp_ns < p.q_ts {
            0
        } else {
            by.rec.timestamp_ns - p.q_ts
        };
        assert(q.latency_ms == d / 1_000_000);
        assert(d / 1_000_000 * 1_000_000 <= d < (d / 1_000_000 + 1) * 1_000_000);
    }
}

/// The finished form of a request under a record.
pub open spec fn finished_by(p: QrPairView, q: QrPairView, r: Option<IndexedRecord>) -> bool {
    anchored(p, q) && tells_answer(p, q, r)
}

/// Requests survive a stage: what was known stays known, an open request stays as it is or is in history,
/// and what enters history is the request as it was born.
spec fn survives(p: PlanesView, q: PlanesView, r: Option<IndexedRecord>) -> bool {
    &&& grown(p.epoch, q.epoch)
    &&& forall|k: u64| #[trigger]
        p.live.pairs.contains_key(k) ==> {
            ||| q.live.pairs.contains_key(k) && q.live.pairs[k] == p.live.pairs[k] && (q.epoch.pairs.contains_key(k)
                ==> p.epoch.pairs.contains_key(k))
            ||| q.epoch.pairs.contains_key(k) && (p.epoch.pairs.contains_key(k) || finished_by(
                p.live.pairs[k],
                q.epoch.pairs[k],
                r,
            ))
        }
}

proof fn lemma_survives_trans(p: PlanesView, q: PlanesView, s: PlanesView, r: Option<IndexedRecord>)
    requires
        survives(p, q, r),
        survives(q, s, r),
    ensures
        survives(p, s, r),
{
    lemma_grown_trans(p.epoch, q.epoch, s.epoch);
    assert forall|k: u64| #[trigger] p.live.pairs.contains_key(k) implies {
        ||| s.live.pairs.contains_key(k) && s.live.pairs[k] == p.live.pairs[k] && (s.epoch.pairs.contains_key(k)
            ==> p.epoch.pairs.contains_key(k))
        ||| s.epoch.pairs.contains_key(k) && (p.epoch.pairs.contains_key(k) || finished_by(
            p.live.pairs[k],
            s.epoch.pairs[k],
            r,
        ))
    } by {
        if q.epoch.pairs.contains_key(k) {
            assert(s.epoch.pairs[k] == q.epoch.pairs[k]);
        }
    }
}

proof fn lemma_close_survives(pl: PlanesView, keys: Seq<PendingKey>, how: Outcome, n: nat, r: Option<IndexedRecord>)
    requires
        how matches Outcome::Matched { r: by, ids } ==> Some(by) == r,
        how matches Outcome::Closed { status } ==> status != QrStatus::Matched,
    ensures
        survives(pl, close_all(pl, keys, how, n), r),
    decreases n,
{
    if n > 0 {
        let p = close_all(pl, keys, how, (n - 1) as nat);
        lemma_close_survives(pl, keys, how, (n - 1) as nat, r);
        let k = p.live.pending[keys[n - 1]].q_first_idx;
        lemma_finished_anchored(p.live.pairs[k], how, n - 1);
        lemma_finished_answer(p.live.pairs[k], how, n - 1, r);
        lemma_finish_grown(p, k, how, n - 1);
        assert(survives(p, close_one(p, keys[n - 1], how, n - 1), r));
        lemma_survives_trans(pl, p, close_all(pl, keys, how, n), r);
    }
}

proof fn lemma_exchanged_survives(
    pl: PlanesView,
    h: u64,
    st: ConnState,
    r: IndexedRecord,
    dir: Dir,
    par: QrParams,
    rules: Option<Seq<RuleView>>,
    high: bool,
)
    ensures
        survives(pl, exchanged(pl, h, st, r, dir, par, rules, high).pl, Some(r)),
{
    lemma_exchanged_grown(pl, h, st, r, dir, par, rules, high);
    let st2 = crate::matching::counted(crate::matching::handshake(st, r, dir), r.rec, dir);
    if dir == Dir::S2C {
        let c0 = SeqStream::of(st, true);
        let fresh = SeqStream::of(st, false).fed(r.rec.tcp_seq, r.rec.orig_payload_len).2;
        let st3 = if fresh > 0 {
            ConnState { resp_cnt: sat_add(st2.resp_cnt, 1), ..st2 }
        } else {
            st2
        };
        let rows = pending_upto(pl.live.pending, h, st3.incarnation, sat_add(c0.abs(r.rec.tcp_ack), par.ack_tolerance as u64));
        let keys = still_open(pl.live, rows);
        lemma_close_survives(pl, keys, Outcome::Matched { r, ids: ids_of(pl.live.pending, keys) }, keys.len(), Some(r));
    }
}

/// A request is never lost. Whatever a record does, a request that is known stays known; an open one
/// stays open as it is or moves to history, and what history then holds has the connection, the time,
/// the stream range, the key and the locators that the request was born with. Where the record answers it,
/// the row tells the answer: its time, its length, its start and its locator, and how many whole
/// milliseconds the request waited. Any other end leaves the answer empty.
pub proof fn law_requests_are_never_lost(pl: PlanesView, r: IndexedRecord, par: QrParams, rules: Option<Seq<RuleView>>, high: bool)
    ensures
        ({
            let q = step(pl, r, par, rules, high).pl;
            &&& forall|k: u64| #[trigger] known(pl, k) ==> known(q, k)
            &&& forall|k: u64| #[trigger]
                is_open(pl, k) ==> {
                    ||| is_open(q, k) && q.live.pairs[k] == pl.live.pairs[k]
                    ||| q.epoch.pairs.contains_key(k) && (pl.epoch.pairs.contains_key(k) || finished_by(
                        pl.live.pairs[k],
                        q.epoch.pairs[k],
                        Some(r),
                    ))
                }
        }),
{
    let p0 = recorded(pl, r);
    let q = step(pl, r, par, rules, high).pl;
    assert(survives(pl, p0, Some(r)));
    if r.rec.proto == 6 {
        let (h, dir, st) = located(p0.live.conns, r);
        let (p1, s1) = after_rebirth(p0, h, st, r, dir);
        if is_rebirth(st, r, dir) {
            let keys = pending_upto(p0.live.pending, h, st.incarnation, U48_MAX);
            lemma_close_survives(p0, keys, Outcome::Closed { status: QrStatus::Unmatched }, keys.len(), Some(r));
        }
        assert(survives(p0, p1, Some(r)));
        let p2 = stepped(p0, h, st, r, dir, par, rules, high).pl;
        if flagged(r.rec, TCP_RST) {
            let keys = pending_upto(p1.live.pending, h, s1.incarnation, U48_MAX);
            lemma_close_survives(p1, keys, Outcome::Closed { status: QrStatus::RstAbort }, keys.len(), Some(r));
        } else {
            let g = exchanged(p1, h, s1, r, dir, par, rules, high);
            lemma_exchanged_survives(p1, h, s1, r, dir, par, rules, high);
            let keys = pending_upto(g.pl.live.pending, h, g.st.incarnation, U48_MAX);
            lemma_close_survives(g.pl, keys, Outcome::Closed { status: QrStatus::Unmatched }, keys.len(), Some(r));
            lemma_close_survives(g.pl, keys, Outcome::Closed { status: QrStatus::AbortedResource }, keys.len(), Some(r));
            let c = concluded(g, h, s1, r, par);
            assert(survives(g.pl, c.pl, Some(r)));
            lemma_survives_trans(p1, g.pl, c.pl, Some(r));
        }
        assert(p2 == moved(p1, h, s1, r, dir, par, rules, high).pl);
        lemma_survives_trans(pl, p0, p1, Some(r));
        lemma_survives_trans(pl, p1, p2, Some(r));
        assert(q.live.pairs == p2.live.pairs && q.epoch == p2.epoch);
    }
    assert(survives(pl, q, Some(r)));
    assert forall|k: u64| #[trigger] known(pl, k) implies known(q, k) by {
        if pl.live.pairs.contains_key(k) {
        } else {
            assert(pl.epoch.pairs.contains_key(k));
        }
    }
}

/// A request exists from its first packet: opening one that is not in flight files it as pending under its
/// own locator, with its key, and in the pending index; one that is in flight is not filed again, and
/// finished pairs stay as they are.
pub proof fn law_request_is_born_pending(
    pl: PlanesView,
    h: u64,
    st: ConnState,
    r: IndexedRecord,
    start: u64,
    end: u64,
    rules: Option<Seq<RuleView>>,
    high: bool,
)
    ensures
        ({
            let q = opened(pl, h, st, r, start, end, rules, high).pl;
            let idx = r.loc();
            &&& known(q, idx)
            &&& !pl.live.pairs.contains_key(idx) ==> is_open(q, idx) && q.live.pairs[idx].q_idx == seq![idx] && q.live.pairs[idx].conn_hash == h
                && q.live.pairs[idx].abs_q_end == end
            &&& pl.live.pairs.contains_key(idx) ==> q.live.pairs == pl.live.pairs
            &&& q.epoch.pairs == pl.epoch.pairs
            &&& q.epoch.packet_qr.contains_key(idx)
            &&& q.live.pending.contains_key(PendingKey { conn: h, inc: st.incarnation, end: low48(end) })
        }),
{
}

/// The key of a request, readable or pseudo, has no part in the pending and timeout indexes.
pub proof fn law_pending_ignores_request_key(pl: PlanesView, h: u64, inc: u16, p: QrPairView, key: Seq<u8>, pseudo: u8, idx: u64)
    ensures
        ({
            let q = QrPairView { req_key: key, pseudo, ..p };
            with_request(pl, h, inc, p, idx).live.pending == with_request(pl, h, inc, q, idx).live.pending && with_request(
                pl,
                h,
                inc,
                p,
                idx,
            ).live.ttl == with_request(pl, h, inc, q, idx).live.ttl
        }),
{
}

proof fn lemma_pending_key_number(k: PendingKey)
    requires
        k.end <= U48_MAX,
    ensures
        pending_key(k.conn, k.inc, k.end).len() == 16,
        from_be(pending_key(k.conn, k.inc, k.end)) == (k.conn * 0x1_0000 + k.inc) * 0x1_0000_0000_0000 + k.end,
{
    let (a, b, c) = (be(k.conn as nat, 8), be(k.inc as nat, 2), be(k.end as nat, 6));
    lemma_pow256_values();
    lemma_be_len(k.conn as nat, 8);
    lemma_be_len(k.inc as nat, 2);
    lemma_be_len(k.end as nat, 6);
    lemma_be_round_trip(k.conn as nat, 8);
    lemma_be_round_trip(k.inc as nat, 2);
    lemma_be_round_trip(k.end as nat, 6);
    lemma_from_be_concat(a, b);
    lemma_from_be_concat(a + b, c);
}

proof fn lemma_two_scales(a: int, b: int, e: int, f: int)
    requires
        0 <= e < 0x1_0000_0000_0000,
        0 <= f < 0x1_0000_0000_0000,
    ensures
        (a * 0x1_0000_0000_0000 + e < b * 0x1_0000_0000_0000 + f) <==> (a * 0x1_0000_0000_0000_0000 + e < b * 0x1_0000_0000_0000_0000 + f),
{
    if a < b {
        assert(a + 1 <= b);
    } else if b < a {
        assert(b + 1 <= a);
    }
}

/// Pending keys are stored in the order in which they are scanned: by connection, then by incarnation,
/// then by stream position.
pub proof fn law_pending_keys_sort_by_position(x: PendingKey, y: PendingKey)
    requires
        x.end <= U48_MAX,
        y.end <= U48_MAX,
    ensures
        lex_less(pending_key(x.conn, x.inc, x.end), pending_key(y.conn, y.inc, y.end)) <==> x.rank() < y.rank(),
{
    lemma_pending_key_number(x);
    lemma_pending_key_number(y);
    lemma_two_scales(x.conn * 0x1_0000 + x.inc, y.conn * 0x1_0000 + y.inc, x.end as int, y.end as int);
    law_key_order_is_numeric(pending_key(x.conn, x.inc, x.end), pending_key(y.conn, y.inc, y.end));
}

proof fn lemma_words_number(ws: Seq<u64>)
    ensures
        from_be(be_words(ws)) == words_number(ws),
        be_words(ws).len() == 8 * ws.len(),
    decreases ws.len(),
{
    crate::codec::lemma_be_words_len(ws);
    if ws.len() > 0 {
        lemma_words_number(ws.drop_last());
        lemma_pow256_values();
        lemma_be_len(ws.last() as nat, 8);
        lemma_be_round_trip(ws.last() as nat, 8);
        lemma_from_be_concat(be_words(ws.drop_last()), be(ws.last() as nat, 8));
    }
}

/// The number that words spell.
spec fn words_number(ws: Seq<u64>) -> int
    decreases ws.len(),
{
    if ws.len() == 0 {
        0
    } else {
        words_number(ws.drop_last()) * 0x1_0000_0000_0000_0000 + ws.last()
    }
}

/// Two-word keys are stored in the order of their words.
pub proof fn law_two_word_keys_sort_by_words(x: Key2, y: Key2)
    ensures
        lex_less(be_words(seq![x.a, x.b]), be_words(seq![y.a, y.b])) <==> x.rank() < y.rank(),
{
    lemma_two_words(x);
    lemma_two_words(y);
    law_key_order_is_numeric(be_words(seq![x.a, x.b]), be_words(seq![y.a, y.b]));
}

proof fn lemma_two_words(x: Key2)
    ensures
        from_be(be_words(seq![x.a, x.b])) == x.rank(),
        be_words(seq![x.a, x.b]).len() == 16,
{
    lemma_words_number(seq![x.a, x.b]);
    assert(seq![x.a, x.b].drop_last() =~= seq![x.a]);
    assert(seq![x.a].drop_last() =~= Seq::<u64>::empty());
    reveal_with_fuel(words_number, 3);
}

/// Three-word keys are stored in the order of their words.
pub proof fn law_three_word_keys_sort_by_words(x: Key3, y: Key3)
    ensures
        lex_less(be_words(seq![x.a, x.b, x.c]), be_words(seq![y.a, y.b, y.c])) <==> x.rank() < y.rank(),
{
    lemma_three_words(x);
    lemma_three_words(y);
    law_key_order_is_numeric(be_words(seq![x.a, x.b, x.c]), be_words(seq![y.a, y.b, y.c]));
}

proof fn lemma_three_words(x: Key3)
    ensures
        from_be(be_words(seq![x.a, x.b, x.c])) == x.rank(),
        be_words(seq![x.a, x.b, x.c]).len() == 24,
{
    lemma_words_number(seq![x.a, x.b, x.c]);
    assert(seq![x.a, x.b, x.c].drop_last() =~= seq![x.a, x.b]);
    assert(seq![x.a, x.b].drop_last() =~= seq![x.a]);
    assert(seq![x.a].drop_last() =~= Seq::<u64>::empty());
    reveal_with_fuel(words_number, 4);
}

/// Whether a timeout row is due.
pub open spec fn is_due(pl: PlanesView, key: Key2, now: u64, wait: u64, short: u64) -> bool {
    deadline(key.a, state_of(pl.live.conns, key.b).fin_seen, wait, short) <= now
}

/// Whether `key` is one of the first `n` rows looked at.
spec fn visited(keys: Seq<Key2>, n: nat, key: Key2) -> bool {
    exists|i: int| 0 <= i < n && i < keys.len() && #[trigger] keys[i] == key
}

proof fn lemma_looked(pl: PlanesView, keys: Seq<Key2>, n: nat, now: u64, wait: u64, short: u64)
    requires
        n <= keys.len(),
        forall|i: int, j: int| 0 <= i < j < keys.len() ==> keys[i] != keys[j],
    ensures
        ({
            let a = looked(pl, keys, n, now, wait, short);
            &&& forall|key: Key2| #[trigger]
                a.pl.live.ttl.contains_key(key) <==> pl.live.ttl.contains_key(key) && !(visited(keys, n, key) && is_due(
                    pl,
                    key,
                    now,
                    wait,
                    short,
                ))
            &&& forall|h: u64| #[trigger] state_of(a.pl.live.conns, h).fin_seen == state_of(pl.live.conns, h).fin_seen
            &&& forall|i: int| 0 <= i < n ==> a.pl.live.conns.contains_key((#[trigger] keys[i]).b)
            &&& survives(pl, a.pl, None)
        }),
    decreases n,
{
    if n == 0 {
        assert(survives(pl, pl, None));
    } else {
        let m = (n - 1) as nat;
        lemma_looked(pl, keys, m, now, wait, short);
        let s = looked(pl, keys, m, now, wait, short);
        let a = looked(pl, keys, n, now, wait, short);
        let key = keys[m as int];
        let id = s.pl.live.ttl[key].q_first_idx;
        let how = Outcome::Closed { status: QrStatus::Timeout };
        assert(state_of(s.pl.live.conns, key.b).fin_seen == state_of(pl.live.conns, key.b).fin_seen);
        assert forall|x: Key2| #[trigger]
            a.pl.live.ttl.contains_key(x) <==> pl.live.ttl.contains_key(x) && !(visited(keys, n, x) && is_due(pl, x, now, wait, short)) by {
            assert(s.pl.live.ttl.contains_key(x) <==> pl.live.ttl.contains_key(x) && !(visited(keys, m, x) && is_due(pl, x, now, wait, short)));
            if visited(keys, m, x) {
                let i = choose|i: int| 0 <= i < m && i < keys.len() && #[trigger] keys[i] == x;
                assert(keys[i] == x && i < n);
            }
            if visited(keys, n, x) && x != key {
                let i = choose|i: int| 0 <= i < n && i < keys.len() && #[trigger] keys[i] == x;
                assert(keys[i] == x && i < m);
            }
            assert(keys[m as int] == key);
        }
        assert forall|h: u64| #[trigger] state_of(a.pl.live.conns, h).fin_seen == state_of(pl.live.conns, h).fin_seen by {
            assert(state_of(s.pl.live.conns, h).fin_seen == state_of(pl.live.conns, h).fin_seen);
        }
        assert forall|i: int| 0 <= i < n implies a.pl.live.conns.contains_key((#[trigger] keys[i]).b) by {
            if i < m {
                assert(s.pl.live.conns.contains_key(keys[i].b));
            }
        }
        lemma_finished_anchored(s.pl.live.pairs[id], how, 0);
        lemma_finish_grown(s.pl, id, how, 0);
        assert(survives(s.pl, a.pl, None));
        lemma_survives_trans(pl, s.pl, a.pl, None);
    }
}

proof fn lemma_nothing_due(pl: PlanesView, keys: Seq<Key2>, n: nat, now: u64, wait: u64, short: u64)
    requires
        n <= keys.len(),
        forall|i: int| 0 <= i < keys.len() ==> !is_due(pl, #[trigger] keys[i], now, wait, short) && pl.live.conns.contains_key(keys[i].b),
    ensures
        looked(pl, keys, n, now, wait, short) == (Sweep { pl, events: Seq::empty(), timed_out: 0, stale: 0 }),
    decreases n,
{
    if n > 0 {
        let m = (n - 1) as nat;
        lemma_nothing_due(pl, keys, m, now, wait, short);
        let key = keys[m as int];
        assert(!is_due(pl, key, now, wait, short));
        assert(pl.live.conns.insert(key.b, state_of(pl.live.conns, key.b)) =~= pl.live.conns);
    }
}

proof fn lemma_due_rows(pl: PlanesView, now: u64, short: u64)
    requires
        pl.live.ttl.dom().finite(),
    ensures
        ({
            let keys = due_rows(pl, now, short);
            &&& forall|i: int, j: int| 0 <= i < j < keys.len() ==> keys[i] != keys[j]
            &&& forall|key: Key2| #[trigger] visited(keys, keys.len(), key) <==> pl.live.ttl.contains_key(key) && key.a
                <= crate::matching::sat_sub(now, short as nat)
        }),
{
    let hi = Key2 { a: crate::matching::sat_sub(now, short as nat), b: u64::MAX };
    let lo = Key2 { a: 0, b: 0 };
    let keys = due_rows(pl, now, short);
    crate::table::lemma_scan_exists(pl.live.ttl.dom(), lo, hi);
    assert forall|key: Key2| #[trigger] visited(keys, keys.len(), key) <==> pl.live.ttl.contains_key(key) && key.a
        <= crate::matching::sat_sub(now, short as nat) by {
        if visited(keys, keys.len(), key) {
            let i = choose|i: int| 0 <= i < keys.len() && i < keys.len() && #[trigger] keys[i] == key;
            assert(pl.live.ttl.dom().contains(keys[i]));
        }
        if pl.live.ttl.contains_key(key) && key.a <= hi.a {
            assert(pl.live.ttl.dom().contains(key));
            assert(keys.contains(key));
            let i = choose|i: int| 0 <= i < keys.len() && keys[i] == key;
            assert(keys[i] == key);
        }
    }
}

/// A second timeout scan at the same moment finds nothing to do and changes nothing.
pub proof fn law_timeout_scan_is_idempotent(pl: PlanesView, now: u64, qr_timeout_secs: u64, fin_short_secs: u64)
    requires
        pl.live.ttl.dom().finite(),
    ensures
        ({
            let once = ttl_scan(pl, now, qr_timeout_secs, fin_short_secs).pl;
            ttl_scan(once, now, qr_timeout_secs, fin_short_secs) == (Sweep { pl: once, events: Seq::empty(), timed_out: 0, stale: 0 })
        }),
{
    if qr_timeout_secs != 0 {
        let short = short_wait(qr_timeout_secs, fin_short_secs);
        let wait = nanos(qr_timeout_secs);
        let keys = due_rows(pl, now, short);
        lemma_due_rows(pl, now, short);
        lemma_looked(pl, keys, keys.len(), now, wait, short);
        let once = ttl_scan(pl, now, qr_timeout_secs, fin_short_secs).pl;
        assert(once.live.ttl.dom().subset_of(pl.live.ttl.dom())) by {
            assert forall|key: Key2| once.live.ttl.dom().contains(key) implies pl.live.ttl.dom().contains(key) by {
                assert(once.live.ttl.contains_key(key));
            }
        }
        vstd::set_lib::lemma_len_subset(once.live.ttl.dom(), pl.live.ttl.dom());
        let again = due_rows(once, now, short);
        lemma_due_rows(once, now, short);
        assert forall|i: int| 0 <= i < again.len() implies !is_due(once, #[trigger] again[i], now, wait, short) && once.live.conns.contains_key(
            again[i].b,
        ) by {
            let key = again[i];
            assert(visited(again, again.len(), key));
            assert(once.live.ttl.contains_key(key));
            assert(visited(keys, keys.len(), key));
            let j = choose|j: int| 0 <= j < keys.len() && j < keys.len() && #[trigger] keys[j] == key;
            assert(once.live.conns.contains_key(keys[j].b));
            assert(state_of(once.live.conns, key.b).fin_seen == state_of(pl.live.conns, key.b).fin_seen);
        }
        lemma_nothing_due(once, again, again.len(), now, wait, short);
    }
}

/// A timeout scan loses no request and rewrites no history: what was known stays known, and an open
/// request stays as it is or moves to history as it was born.
pub proof fn law_timeouts_keep_requests(pl: PlanesView, now: u64, qr_timeout_secs: u64, fin_short_secs: u64)
    requires
        pl.live.ttl.dom().finite(),
    ensures
        ({
            let q = ttl_scan(pl, now, qr_timeout_secs, fin_short_secs).pl;
            &&& grown(pl.epoch, q.epoch)
            &&& forall|k: u64| #[trigger] known(pl, k) ==> known(q, k)
            &&& forall|k: u64| #[trigger]
                is_open(pl, k) ==> {
                    ||| is_open(q, k) && q.live.pairs[k] == pl.live.pairs[k]
                    ||| q.epoch.pairs.contains_key(k) && (pl.epoch.pairs.contains_key(k) || anchored(
                        pl.live.pairs[k],
                        q.epoch.pairs[k],
                    ))
                }
        }),
{
    let q = ttl_scan(pl, now, qr_timeout_secs, fin_short_secs).pl;
    if qr_timeout_secs != 0 {
        let short = short_wait(qr_timeout_secs, fin_short_secs);
        let keys = due_rows(pl, now, short);
        lemma_due_rows(pl, now, short);
        lemma_looked(pl, keys, keys.len(), now, nanos(qr_timeout_secs), short);
    }
    assert(survives(pl, q, None));
    assert forall|k: u64| #[trigger] known(pl, k) implies known(q, k) by {
        if pl.live.pairs.contains_key(k) {
        } else {
            assert(pl.epoch.pairs.contains_key(k));
        }
    }
}

/// A timeout row goes if and only if it is due; a row of a request younger than the shortest wait never
/// is.
pub proof fn law_timeouts_strike_when_due(pl: PlanesView, now: u64, qr_timeout_secs: u64, fin_short_secs: u64, key: Key2)
    requires
        pl.live.ttl.dom().finite(),
        pl.live.ttl.contains_key(key),
        qr_timeout_secs > 0,
    ensures
        ({
            let short = short_wait(qr_timeout_secs, fin_short_secs);
            let q = ttl_scan(pl, now, qr_timeout_secs, fin_short_secs).pl;
            q.live.ttl.contains_key(key) <==> !(key.a <= crate::matching::sat_sub(now, short as nat) && is_due(
                pl,
                key,
                now,
                nanos(qr_timeout_secs),
                short,
            ))
        }),
{
    let short = short_wait(qr_timeout_secs, fin_short_secs);
    let keys = due_rows(pl, now, short);
    lemma_due_rows(pl, now, short);
    lemma_looked(pl, keys, keys.len(), now, nanos(qr_timeout_secs), short);
    assert(visited(keys, keys.len(), key) || !visited(keys, keys.len(), key));
}

/// A FIN shortens only the wait of requests that were sent before it.
pub proof fn law_fin_spares_later_requests(q_ts: u64, fin_seen: u64, wait: u64, short: u64)
    ensures
        q_ts > fin_seen ==> deadline(q_ts, fin_seen, wait, short) == sat_add(q_ts, wait),
        deadline(q_ts, fin_seen, wait, short) <= sat_add(q_ts, wait),
{
}

} // verus!
