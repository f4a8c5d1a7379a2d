//! What queries for pairs return, told from what the tables hold.

use crate::db::QrStatus;
use crate::ledger::{ConnArchive, EpochBoundary};
use crate::laws::records::{lemma_targets, lemma_time_rank, within};
use crate::paging::{
    all_rows, first_page, law_scan_finds_what_it_wants, lemma_row_source, listing, shard_rows, wanted_keys,
    PageKey,
};
use crate::plane::LiveView;
use crate::query::{
    all_targets, boundary_of, conn_hi, conn_lo, conn_part, conn_scan, conn_shards, found_pair, found_pairs,
    in_window, packet_in, pair_at, pair_in, planned, pruned, query_located, status_of, time_hi, time_lo,
    time_part, time_scan, time_shards, window_of, Epoch, EpochTarget, PlanError, QrFilter, QrPlan,
};
use crate::table::{IndexKey, Key2, Key3};
use crate::text::{all_digits, digit_value, digits_number};
use vstd::prelude::*;

verus! {

/// The lookup of a pair: the open row where there is one, else the row of the first epoch that has one, and
/// nothing if no table has it.
pub proof fn law_lookup_finds_the_pair(live: LiveView, epochs: Seq<Epoch>, idx: u64, e: int)
    requires
        0 <= e <= epochs.len(),
        forall|d: int| 0 <= d < e ==> !(#[trigger] epochs[d]).plane@.pairs.contains_key(idx),
        e < epochs.len() ==> epochs[e].plane@.pairs.contains_key(idx),
    ensures
        live.pairs.contains_key(idx) ==> pair_at(live, epochs, idx) == Some(live.pairs[idx]),
        !live.pairs.contains_key(idx) && e < epochs.len() ==> pair_at(live, epochs, idx) == Some(epochs[e].plane@.pairs[idx]),
        !live.pairs.contains_key(idx) && e == epochs.len() ==> pair_at(live, epochs, idx) is None,
{
    lemma_pair_in(epochs, idx, e);
}

proof fn lemma_pair_in(epochs: Seq<Epoch>, idx: u64, e: int)
    requires
        0 <= e <= epochs.len(),
        forall|d: int| 0 <= d < e ==> !(#[trigger] epochs[d]).plane@.pairs.contains_key(idx),
        e < epochs.len() ==> epochs[e].plane@.pairs.contains_key(idx),
    ensures
        pair_in(epochs, idx) == if e < epochs.len() {
            Some(epochs[e].plane@.pairs[idx])
        } else {
            None
        },
    decreases epochs.len(),
{
    if epochs.len() > 0 {
        let head = epochs.drop_last();
        let n = epochs.len() - 1;
        assert forall|d: int| 0 <= d < head.len() implies head[d] == epochs[d] by {}
        if e < n {
            assert(head[e] == epochs[e]);
            lemma_pair_in(head, idx, e);
        } else {
            lemma_pair_in(head, idx, n);
            assert(epochs.last() == epochs[n]);
        }
    }
}

/// The lookup of a packet gives the pair that the first epoch which knows the packet names.
pub proof fn law_packet_leads_to_its_pair(epochs: Seq<Epoch>, idx: u64, e: int)
    requires
        0 <= e <= epochs.len(),
        forall|d: int| 0 <= d < e ==> !(#[trigger] epochs[d]).plane@.packet_qr.contains_key(idx),
        e < epochs.len() ==> epochs[e].plane@.packet_qr.contains_key(idx),
    ensures
        packet_in(epochs, idx) == if e < epochs.len() {
            Some(epochs[e].plane@.packet_qr[idx])
        } else {
            None
        },
    decreases epochs.len(),
{
    if epochs.len() > 0 {
        let head = epochs.drop_last();
        let n = epochs.len() - 1;
        assert forall|d: int| 0 <= d < head.len() implies head[d] == epochs[d] by {}
        if e < n {
            assert(head[e] == epochs[e]);
            law_packet_leads_to_its_pair(head, idx, e);
        } else {
            law_packet_leads_to_its_pair(head, idx, n);
            assert(epochs.last() == epochs[n]);
        }
    }
}

/// A pair is shown with a status if its main row is there with one of the six codes, and the status is the
/// one asked for, if one is.
pub open spec fn shown(live: LiveView, epochs: Seq<Epoch>, want: Option<QrStatus>, idx: u64) -> bool {
    let p = pair_at(live, epochs, idx);
    &&& p is Some
    &&& p->0.status <= 5
    &&& want matches Some(s) ==> p->0.status == s.code()
}

/// Codes and statuses name each other.
proof fn lemma_status(code: u8)
    ensures
        status_of(code) is Some <==> code <= 5,
        status_of(code) matches Some(s) ==> s.code() == code,
        forall|s: QrStatus| #[trigger] s.code() == code ==> status_of(code) == Some(s),
{
}

proof fn lemma_found_pair(live: LiveView, epochs: Seq<Epoch>, want: Option<QrStatus>, conn: Option<u64>, q_ts: u64, idx: u64)
    ensures
        found_pair(live, epochs, want, conn, q_ts, idx) is Some <==> shown(live, epochs, want, idx),
        found_pair(live, epochs, want, conn, q_ts, idx) matches Some(r) ==> {
            &&& r.q_first_idx == idx
            &&& r.q_ts == q_ts
            &&& r.status == pair_at(live, epochs, idx)->0.status
            &&& r.conn_hash == conn
        },
{
    if let Some(p) = pair_at(live, epochs, idx) {
        lemma_status(p.status);
        if let Some(s) = want {
            assert(s.code() == s.code());
            if p.status == s.code() {
                assert(status_of(p.status) == Some(s));
            }
        }
    }
}

#[verifier::rlimit(60)]
proof fn lemma_found_pairs(live: LiveView, epochs: Seq<Epoch>, want: Option<QrStatus>, conn: Option<u64>, at: Seq<(u64, u64)>, idx: u64, q_ts: u64)
    ensures
        ({
            let rows = found_pairs(live, epochs, want, conn, at);
            (exists|n: int| 0 <= n < rows.len() && (#[trigger] rows[n]).q_first_idx == idx && rows[n].q_ts == q_ts) <==> at.contains((q_ts, idx))
                && shown(live, epochs, want, idx)
        }),
        forall|n: int|
            0 <= n < found_pairs(live, epochs, want, conn, at).len() ==> {
                let r = #[trigger] found_pairs(live, epochs, want, conn, at)[n];
                r.conn_hash == conn && shown(live, epochs, want, r.q_first_idx) && r.status == pair_at(live, epochs, r.q_first_idx)->0.status
            },
    decreases at.len(),
{
    let rows = found_pairs(live, epochs, want, conn, at);
    if at.len() > 0 {
        let head = at.drop_last();
        let (t, k) = at.last();
        lemma_found_pairs(live, epochs, want, conn, head, idx, q_ts);
        lemma_found_pair(live, epochs, want, conn, t, k);
        let before = found_pairs(live, epochs, want, conn, head);
        assert forall|n: int| 0 <= n < rows.len() implies {
            let r = #[trigger] rows[n];
            r.conn_hash == conn && shown(live, epochs, want, r.q_first_idx) && r.status == pair_at(live, epochs, r.q_first_idx)->0.status
        } by {
            if n < before.len() {
                assert(rows[n] == before[n]);
            }
        }
        if exists|n: int| 0 <= n < rows.len() && (#[trigger] rows[n]).q_first_idx == idx && rows[n].q_ts == q_ts {
            let n = choose|n: int| 0 <= n < rows.len() && (#[trigger] rows[n]).q_first_idx == idx && rows[n].q_ts == q_ts;
            if n < before.len() {
                assert(before[n].q_first_idx == idx && before[n].q_ts == q_ts);
                let i = choose|i: int| 0 <= i < head.len() && head[i] == (q_ts, idx);
                assert(at[i] == (q_ts, idx));
            } else {
                assert(at[at.len() - 1] == (q_ts, idx));
            }
        }
        if at.contains((q_ts, idx)) && shown(live, epochs, want, idx) {
            let i = choose|i: int| 0 <= i < at.len() && at[i] == (q_ts, idx);
            if i < head.len() {
                assert(head[i] == (q_ts, idx));
                let n = choose|n: int| 0 <= n < before.len() && (#[trigger] before[n]).q_first_idx == idx && before[n].q_ts == q_ts;
                assert(rows[n] == before[n]);
            } else {
                assert(rows[rows.len() - 1].q_first_idx == idx);
            }
        }
    }
}

/// A query by connection returns a pair if and only if some epoch lists it under that connection at a time
/// within the window, ends included, and its main row has the status asked for. Each row carries the locator,
/// the time, the status of the main row and the connection.
#[verifier::rlimit(60)]
pub proof fn law_connection_query_is_exact(live: LiveView, epochs: Seq<Epoch>, current: u32, f: QrFilter, idx: u64, q_ts: u64)
    requires
        crate::query::epochs_ok(epochs),
        epochs.len() <= usize::MAX,
        f.conn_hash is Some,
    ensures
        ({
            let ts = all_targets(epochs, current);
            let rows = found_pairs(live, epochs, f.status, f.conn_hash, query_located(epochs, ts, f));
            let k = Key3 { a: f.conn_hash->0, b: q_ts, c: idx };
            &&& (exists|n: int| 0 <= n < rows.len() && (#[trigger] rows[n]).q_first_idx == idx && rows[n].q_ts == q_ts) <==> {
                &&& within(q_ts, f.start_ts, f.end_ts)
                &&& exists|e: int| 0 <= e < epochs.len() && (#[trigger] epochs[e]).plane@.conn_qr.contains_key(k)
                &&& shown(live, epochs, f.status, idx)
            }
            &&& forall|n: int|
                0 <= n < rows.len() ==> (#[trigger] rows[n]).conn_hash == f.conn_hash && rows[n].status == pair_at(
                    live,
                    epochs,
                    rows[n].q_first_idx,
                )->0.status
        }),
{
    let ts = all_targets(epochs, current);
    let h = f.conn_hash->0;
    let raw = conn_scan(epochs, ts, h, f, None, true);
    let at = query_located(epochs, ts, f);
    let k = Key3 { a: h, b: q_ts, c: idx };
    let shards = conn_shards(epochs, ts);
    let (lo, hi) = (conn_lo(h, f.start_ts), conn_hi(h, f.end_ts));
    lemma_targets(epochs, current);
    lemma_found_pairs(live, epochs, f.status, f.conn_hash, at, idx, q_ts);
    lemma_conn_rank(k, h, f.start_ts, f.end_ts);
    if at.contains((q_ts, idx)) {
        let i = choose|i: int| 0 <= i < at.len() && at[i] == (q_ts, idx);
        let x = raw[i].1;
        lemma_row_source(shards, lo, hi, None, true, i);
        lemma_conn_rank(x, h, f.start_ts, f.end_ts);
        assert(conn_part(raw[i]) == (q_ts, idx));
        assert(x == k);
        let e = choose|e: int| 0 <= e < shards.len() && (#[trigger] shards[e]).0 == raw[i].0 && shards[e].1.contains(x);
        assert(ts[e].slot == e);
        assert(epochs[e].plane@.conn_qr.contains_key(k));
    }
    if within(q_ts, f.start_ts, f.end_ts) && exists|e: int| 0 <= e < epochs.len() && (#[trigger] epochs[e]).plane@.conn_qr.contains_key(k) {
        let e = choose|e: int| 0 <= e < epochs.len() && (#[trigger] epochs[e]).plane@.conn_qr.contains_key(k);
        assert(ts[e].slot == e);
        assert(shards[e].1.contains(k));
        law_scan_finds_what_it_wants(shards, lo, hi, None, true, e, k);
        let i = choose|i: int| 0 <= i < raw.len() && raw[i] == (shards[e].0, k);
        assert(at[i] == (q_ts, idx));
    }
}

proof fn lemma_conn_rank(k: Key3, h: u64, start_ts: Option<u64>, end_ts: Option<u64>)
    ensures
        conn_lo(h, start_ts).rank() <= k.rank() && k.rank() <= conn_hi(h, end_ts).rank() ==> k.a == h && within(k.b, start_ts, end_ts),
        k.a == h && within(k.b, start_ts, end_ts) ==> conn_lo(h, start_ts).rank() <= k.rank() && k.rank() <= conn_hi(h, end_ts).rank(),
{
}

/// A query by time returns a pair if and only if some epoch lists it at a time within the window, ends
/// included, and its main row has the status asked for.
#[verifier::rlimit(60)]
pub proof fn law_time_query_is_exact(live: LiveView, epochs: Seq<Epoch>, current: u32, f: QrFilter, idx: u64, q_ts: u64)
    requires
        crate::query::epochs_ok(epochs),
        epochs.len() <= usize::MAX,
        f.conn_hash is None,
    ensures
        ({
            let ts = all_targets(epochs, current);
            let rows = found_pairs(live, epochs, f.status, f.conn_hash, query_located(epochs, ts, f));
            let k = Key2 { a: q_ts, b: idx };
            &&& (exists|n: int| 0 <= n < rows.len() && (#[trigger] rows[n]).q_first_idx == idx && rows[n].q_ts == q_ts) <==> {
                &&& within(q_ts, f.start_ts, f.end_ts)
                &&& exists|e: int| 0 <= e < epochs.len() && (#[trigger] epochs[e]).plane@.qr_time.contains_key(k)
                &&& shown(live, epochs, f.status, idx)
            }
            &&& forall|n: int|
                0 <= n < rows.len() ==> (#[trigger] rows[n]).conn_hash is None && rows[n].status == pair_at(
                    live,
                    epochs,
                    rows[n].q_first_idx,
                )->0.status
        }),
{
    let ts = all_targets(epochs, current);
    let raw = time_scan(epochs, ts, f, None, true);
    let at = query_located(epochs, ts, f);
    let k = Key2 { a: q_ts, b: idx };
    let shards = time_shards(epochs, ts);
    let (lo, hi) = (time_lo(f.start_ts), time_hi(f.end_ts));
    lemma_targets(epochs, current);
    lemma_found_pairs(live, epochs, f.status, f.conn_hash, at, idx, q_ts);
    lemma_time_rank(k, f.start_ts, f.end_ts);
    if at.contains((q_ts, idx)) {
        let i = choose|i: int| 0 <= i < at.len() && at[i] == (q_ts, idx);
        let x = raw[i].1;
        lemma_row_source(shards, lo, hi, None, true, i);
        assert(time_part(raw[i]) == (q_ts, idx));
        assert(x == k);
        let e = choose|e: int| 0 <= e < shards.len() && (#[trigger] shards[e]).0 == raw[i].0 && shards[e].1.contains(x);
        assert(ts[e].slot == e);
        assert(epochs[e].plane@.qr_time.contains_key(k));
    }
    if within(q_ts, f.start_ts, f.end_ts) && exists|e: int| 0 <= e < epochs.len() && (#[trigger] epochs[e]).plane@.qr_time.contains_key(k) {
        let e = choose|e: int| 0 <= e < epochs.len() && (#[trigger] epochs[e]).plane@.qr_time.contains_key(k);
        assert(ts[e].slot == e);
        assert(shards[e].1.contains(k));
        law_scan_finds_what_it_wants(shards, lo, hi, None, true, e, k);
        let i = choose|i: int| 0 <= i < raw.len() && raw[i] == (shards[e].0, k);
        assert(at[i] == (q_ts, idx));
    }
}

/// A page holds the first rows of a list: as many as it may, at least one, all where they fit.
pub proof fn law_page_is_the_front<T>(rows: Seq<T>, limit: usize)
    ensures
        ({
            let page = first_page(rows, limit);
            &&& page.is_prefix_of(rows)
            &&& limit > 0 ==> page.len() <= limit
            &&& rows.len() > 0 ==> page.len() >= 1
            &&& page.len() < limit ==> page == rows
        }),
{
    assert(first_page(rows, limit).is_prefix_of(rows));
}

/// Pruning keeps an epoch if and only if no window is given, or it is the current one, or nothing is known of
/// its span, or its span meets the window; the order stays.
#[verifier::rlimit(60)]
pub proof fn law_pruning_goes_by_the_span(ts: Seq<EpochTarget>, bs: Seq<EpochBoundary>, start_ts: Option<u64>, end_ts: Option<u64>, t: EpochTarget)
    ensures
        pruned(ts, bs, start_ts, end_ts).contains(t) <==> ts.contains(t) && {
            ||| start_ts is None && end_ts is None
            ||| t.is_current
            ||| boundary_of(bs, t.num) is None
            ||| {
                let b = boundary_of(bs, t.num)->0;
                &&& start_ts is None || b.max_ts is None || b.max_ts->0 as u64 >= start_ts->0
                &&& end_ts is None || b.min_ts is None || b.min_ts->0 as u64 <= end_ts->0
            }
        },
    decreases ts.len(),
{
    let out = pruned(ts, bs, start_ts, end_ts);
    if !(start_ts is None && end_ts is None) && ts.len() > 0 {
        let head = ts.drop_last();
        let rest = pruned(head, bs, start_ts, end_ts);
        law_pruning_goes_by_the_span(head, bs, start_ts, end_ts, t);
        assert(ts.contains(t) <==> head.contains(t) || ts.last() == t) by {
            if ts.contains(t) {
                let i = choose|i: int| 0 <= i < ts.len() && ts[i] == t;
                if i < head.len() {
                    assert(head[i] == t);
                }
            }
            if head.contains(t) {
                let i = choose|i: int| 0 <= i < head.len() && head[i] == t;
                assert(ts[i] == t);
            }
            assert(ts[ts.len() - 1] == ts.last());
        }
        if in_window(ts.last(), bs, start_ts, end_ts) {
            assert(out == rest.push(ts.last()));
            if out.contains(t) {
                let i = choose|i: int| 0 <= i < out.len() && out[i] == t;
                if i < rest.len() {
                    assert(rest[i] == t);
                }
            }
            if rest.contains(t) {
                let i = choose|i: int| 0 <= i < rest.len() && rest[i] == t;
                assert(out[i] == t);
            }
            assert(out[out.len() - 1] == ts.last());
        }
    }
}

/// The boundary of an epoch is the last row with its number.
pub proof fn law_last_boundary_counts(bs: Seq<EpochBoundary>, num: u32, i: int)
    requires
        0 <= i < bs.len(),
        bs[i].epoch_id == num,
        forall|j: int| i < j < bs.len() ==> (#[trigger] bs[j]).epoch_id != num,
    ensures
        boundary_of(bs, num) == Some(bs[i]),
    decreases bs.len(),
{
    if i < bs.len() - 1 {
        assert(bs.last() == bs[bs.len() - 1]);
        let head = bs.drop_last();
        assert forall|j: int| i < j < head.len() implies (#[trigger] head[j]).epoch_id != num by {
            assert(head[j] == bs[j]);
        }
        law_last_boundary_counts(head, num, i);
    }
}

/// The times of a connection come from its state while it is live, first then last.
pub proof fn law_connection_window(live: LiveView, archive: Option<ConnArchive>, h: u64)
    ensures
        live.conns.contains_key(h) && live.conns[h].first_ts > 0 && live.conns[h].last_ts > 0 ==> window_of(live, archive, h) == Some(
            (live.conns[h].first_ts, live.conns[h].last_ts),
        ),
        !live.conns.contains_key(h) && archive is None ==> window_of(live, archive, h) is None,
        !live.conns.contains_key(h) ==> (archive matches Some(a) ==> (window_of(live, archive, h) matches Some(w) ==> Some(w.0 as i64)
            == a.first_ts && Some(w.1 as i64) == a.last_ts)),
{
}

/// A lookup goes by the locator if one is given, else by the packet, else it scans with the window and the
/// connection as given; an unknown status is refused before anything else.
pub proof fn law_lookup_plan(
    conn: Option<Seq<char>>,
    idx: Option<u64>,
    packet: Option<u64>,
    start_ts: Option<u64>,
    end_ts: Option<u64>,
)
    ensures
        idx matches Some(i) ==> planned(conn, idx, packet, start_ts, end_ts, None) == Ok::<QrPlan, PlanError>(QrPlan::ByIdx(i)),
        idx is None ==> (packet matches Some(p) ==> planned(conn, idx, packet, start_ts, end_ts, None) == Ok::<QrPlan, PlanError>(
            QrPlan::ByPacket(p),
        )),
        planned(None, None, None, start_ts, end_ts, None) matches Ok(QrPlan::Scan(f)) && f.start_ts == start_ts && f.end_ts == end_ts
            && f.conn_hash is None && f.status is None,
{
}

/// A scan backward lists the same rows as a scan forward, in the opposite order.
#[verifier::rlimit(60)]
pub proof fn law_backward_is_forward_reversed<K: PageKey>(shards: Seq<(u32, Set<K>)>, lo: K, hi: K)
    ensures
        all_rows(shards, lo, hi, None, false) == all_rows(shards, lo, hi, None, true).reverse(),
    decreases shards.len(),
{
    if shards.len() == 0 {
        assert(Seq::<(u32, K)>::empty().reverse() =~= Seq::empty());
    } else {
        let (head, last) = (shards.drop_last(), shards.last());
        law_backward_is_forward_reversed(head, lo, hi);
        let up = listing(last.1, lo, hi, None, true);
        let down = listing(last.1, lo, hi, None, false);
        assert(wanted_keys(last.1, lo, hi, None, true) =~= wanted_keys(last.1, lo, hi, None, false));
        assert(down == up.reverse());
        let a = shard_rows(last.0, last.1, lo, hi, None, true);
        let b = shard_rows(last.0, last.1, lo, hi, None, false);
        assert(b =~= a.reverse());
        let rest = all_rows(head, lo, hi, None, true);
        assert((rest + a).reverse() =~= a.reverse() + rest.reverse());
    }
}

/// The value of a hexadecimal digit, in either case.
pub proof fn law_hex_digits(d: nat)
    requires
        d < 10,
    ensures
        digit_value((48 + d) as char, 16) == Some(d),
        digit_value((48 + d) as char, 10) == Some(d),
        d < 6 ==> digit_value((65 + d) as char, 16) == Some((10 + d) as nat) && digit_value((97 + d) as char, 16) == Some((10 + d) as nat),
        d < 6 ==> digit_value((65 + d) as char, 10) is None && digit_value((97 + d) as char, 10) is None,
{
}

/// A connection is named by its number in hexadecimal, most significant digit first, with or without `0x` in
/// front; both name the same connection, and anything else is refused.
#[verifier::rlimit(60)]
pub proof fn law_connection_is_named_in_hex(text: Seq<char>, c: char, start_ts: Option<u64>, end_ts: Option<u64>)
    requires
        all_digits(text, 16),
        digits_number(text, 16) <= u64::MAX,
    ensures
        digits_number(text.push(c), 16) == digits_number(text, 16) * 16 + digit_value(c, 16)->0,
        planned(Some(seq!['0', 'x'] + text), None, None, start_ts, end_ts, None) matches Ok(QrPlan::Scan(f)) && f.conn_hash == Some(
            digits_number(text, 16) as u64,
        ) && f.start_ts == start_ts && f.end_ts == end_ts,
        text.len() < 2 || text[1] != 'x' ==> (planned(Some(text), None, None, start_ts, end_ts, None) matches Ok(QrPlan::Scan(f)) && f.conn_hash
            == Some(digits_number(text, 16) as u64)),
        planned(Some(Seq::empty()), None, None, start_ts, end_ts, None) == Err::<QrPlan, PlanError>(PlanError::BadConnection),
{
    assert(text.push(c).drop_last() =~= text);
    let full = seq!['0', 'x'] + text;
    assert(full.skip(2) =~= text);
    assert(digit_value(text[0], 16) is Some);
    assert(text[0] != '+');
}

} // verus!
