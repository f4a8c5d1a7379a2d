//! What the time index and its queries say of a captured record, told from the record itself.

use crate::codec::{from_be, lemma_from_be_round_trip};
use crate::db::RecordSummary;
use crate::laws::{lemma_step_records, run};
use crate::matching::recorded;
use crate::meta::RuleView;
use crate::paging::{law_scan_finds_what_it_wants, lemma_row_source, shards_ok};
use crate::plane::PlanesView;
use crate::qr::QrParams;
use crate::query::{
    all_targets, epochs_ok, record_rows, record_scan, record_shards, summary_in, time_hi, time_lo, Epoch,
    RecordRow,
};
use crate::table::{IndexKey, Key2};
use crate::wal::{summary_of, IndexedRecord, WalRecord};
use vstd::prelude::*;

verus! {

/// An IPv4 address in dotted order as a number: the first byte weighs most.
pub open spec fn address(a: Seq<u8>) -> int {
    a[0] * 0x100_0000 + a[1] * 0x1_0000 + a[2] * 0x100 + a[3]
}

/// A digest describes a record: its two ends as they stand in the record, its protocol, its TCP flags with
/// the degraded mark on the lowest bit, and the length of its stored payload.
pub open spec fn describes(s: RecordSummary, rec: WalRecord) -> bool {
    &&& s.src_ip == address(rec.src_ip@)
    &&& s.dst_ip == address(rec.dst_ip@)
    &&& s.sport == rec.src_port
    &&& s.dport == rec.dst_port
    &&& rec.proto < 256 ==> s.proto == rec.proto
    &&& rec.payload@.len() <= u32::MAX ==> s.len == rec.payload@.len()
    &&& s.flags / 2 == rec.tcp_flags / 2
    &&& s.flags % 2 == 1 <==> rec.tcp_flags % 2 == 1 || rec.flags % 2 == 1
}

pub(crate) proof fn lemma_address(a: [u8; 4])
    ensures
        crate::wal::ip_number(a) == address(a@),
{
    let s = a@;
    lemma_from_be_round_trip(s);
    crate::codec::lemma_pow256_values();
    assert(s.len() == 4);
    assert(s.drop_last().drop_last().drop_last().drop_last().len() == 0);
    assert(s.drop_last().drop_last().drop_last().last() == s[0]);
    assert(s.drop_last().drop_last().last() == s[1]);
    assert(s.drop_last().last() == s[2]);
    assert(s.last() == s[3]);
    reveal_with_fuel(from_be, 5);
}

/// The digest of a record describes it.
pub proof fn law_digest_describes_the_record(rec: WalRecord)
    ensures
        describes(summary_of(rec), rec),
{
    lemma_address(rec.src_ip);
    lemma_address(rec.dst_ip);
    let (f, g) = (rec.tcp_flags, rec.flags);
    assert((f | (g & 1u16) as u8) / 2 == f / 2) by (bit_vector);
    assert((f | (g & 1u16) as u8) % 2 == 1 <==> f % 2 == 1 || g % 2 == 1) by (bit_vector);
}

/// Two records with the same key are one.
pub open spec fn keys_differ(recs: Seq<(IndexedRecord, bool)>) -> bool {
    forall|i: int, j: int|
        0 <= i < j < recs.len() ==> !((#[trigger] recs[i]).0.rec.timestamp_ns == (#[trigger] recs[j]).0.rec.timestamp_ns && recs[i].0.loc()
            == recs[j].0.loc())
}

/// The key of a record in the time index: its time, then its place, the file before the offset.
pub open spec fn time_key(r: IndexedRecord) -> Key2 {
    Key2 { a: r.rec.timestamp_ns, b: (r.file_id * 0x1_0000_0000 + r.offset) as u64 }
}

/// After a batch on an empty time index, the index holds one row for each record of the batch, under its
/// time and place, and the row describes the record; it holds no other row.
#[verifier::rlimit(60)]
pub proof fn law_batch_is_indexed_as_captured(
    pl: PlanesView,
    recs: Seq<(IndexedRecord, bool)>,
    par: QrParams,
    rules: Option<Seq<RuleView>>,
)
    requires
        pl.epoch.record_ts == Map::<Key2, RecordSummary>::empty(),
        keys_differ(recs),
    ensures
        ({
            let index = run(pl, recs, par, rules).epoch.record_ts;
            &&& forall|i: int|
                0 <= i < recs.len() ==> index.contains_key(time_key((#[trigger] recs[i]).0)) && describes(
                    index[time_key(recs[i].0)],
                    recs[i].0.rec,
                )
            &&& forall|k: Key2| #[trigger] index.contains_key(k) ==> exists|i: int| 0 <= i < recs.len() && time_key((#[trigger] recs[i]).0) == k
        }),
    decreases recs.len(),
{
    if recs.len() > 0 {
        let head = recs.drop_last();
        let x = run(pl, head, par, rules);
        let (r, high) = recs.last();
        assert(keys_differ(head)) by {
            assert forall|i: int, j: int| 0 <= i < j < head.len() implies !((#[trigger] head[i]).0.rec.timestamp_ns == (
            #[trigger] head[j]).0.rec.timestamp_ns && head[i].0.loc() == head[j].0.loc()) by {
                assert(head[i] == recs[i] && head[j] == recs[j]);
            }
        }
        law_batch_is_indexed_as_captured(pl, head, par, rules);
        lemma_step_records(x, r, par, rules, high);
        let index = run(pl, recs, par, rules).epoch.record_ts;
        assert(index == recorded(x, r).epoch.record_ts);
        let k0 = time_key(r);
        assert(k0 == Key2 { a: r.rec.timestamp_ns, b: r.loc() });
        law_digest_describes_the_record(r.rec);
        let n = recs.len() - 1;
        assert(recs[n] == recs.last());
        assert(!x.epoch.record_ts.contains_key(k0)) by {
            if x.epoch.record_ts.contains_key(k0) {
                let i = choose|i: int| 0 <= i < head.len() && time_key((#[trigger] head[i]).0) == k0;
                assert(head[i] == recs[i]);
                assert(recs[i].0.loc() == recs[n].0.loc());
            }
        }
        assert forall|i: int| 0 <= i < recs.len() implies index.contains_key(time_key((#[trigger] recs[i]).0)) && describes(
            index[time_key(recs[i].0)],
            recs[i].0.rec,
        ) by {
            if i < n {
                assert(head[i] == recs[i]);
                assert(x.epoch.record_ts.contains_key(time_key(head[i].0)));
            }
        }
        assert forall|k: Key2| #[trigger] index.contains_key(k) implies exists|i: int|
            0 <= i < recs.len() && time_key((#[trigger] recs[i]).0) == k by {
            if k == k0 {
                assert(time_key(recs[n].0) == k);
            } else {
                assert(x.epoch.record_ts.contains_key(k));
                let i = choose|i: int| 0 <= i < head.len() && time_key((#[trigger] head[i]).0) == k;
                assert(head[i] == recs[i]);
                assert(time_key(recs[i].0) == k);
            }
        }
    }
}

/// A time within a window; an end that is not given is open.
pub open spec fn within(t: u64, start_ts: Option<u64>, end_ts: Option<u64>) -> bool {
    &&& start_ts matches Some(s) ==> s <= t
    &&& end_ts matches Some(e) ==> t <= e
}

#[verifier::rlimit(60)]
pub proof fn lemma_targets(epochs: Seq<Epoch>, current: u32)
    requires
        epochs_ok(epochs),
        epochs.len() <= usize::MAX,
    ensures
        shards_ok(record_shards(epochs, all_targets(epochs, current))),
        shards_ok(crate::query::conn_shards(epochs, all_targets(epochs, current))),
        shards_ok(crate::query::time_shards(epochs, all_targets(epochs, current))),
{
    let ts = all_targets(epochs, current);
    assert forall|i: int, j: int| 0 <= i < j < ts.len() implies (#[trigger] ts[i]).num < (#[trigger] ts[j]).num by {
        assert(epochs[i].num < epochs[j].num);
    }
    assert forall|i: int| 0 <= i < ts.len() implies (#[trigger] ts[i]).slot == i && epochs[i].plane@.conn_qr.dom().finite()
        && epochs[i].plane@.qr_time.dom().finite() && epochs[i].plane@.record_ts.dom().finite() by {
        assert(epochs[i].plane.wf());
        epochs[i].plane.conn_qr.lemma_finite();
        epochs[i].plane.qr_time.lemma_finite();
        epochs[i].plane.record_ts.lemma_finite();
    }
    let a = record_shards(epochs, ts);
    let b = crate::query::conn_shards(epochs, ts);
    let c = crate::query::time_shards(epochs, ts);
    assert forall|i: int, j: int| 0 <= i < j < ts.len() implies (#[trigger] a[i]).0 < (#[trigger] a[j]).0 by {
        assert(ts[i].num < ts[j].num);
    }
    assert forall|i: int, j: int| 0 <= i < j < ts.len() implies (#[trigger] b[i]).0 < (#[trigger] b[j]).0 by {
        assert(ts[i].num < ts[j].num);
    }
    assert forall|i: int, j: int| 0 <= i < j < ts.len() implies (#[trigger] c[i]).0 < (#[trigger] c[j]).0 by {
        assert(ts[i].num < ts[j].num);
    }
    assert forall|i: int| 0 <= i < ts.len() implies (#[trigger] a[i]).1.finite() by {
        assert(ts[i].slot == i);
    }
    assert forall|i: int| 0 <= i < ts.len() implies (#[trigger] b[i]).1.finite() by {
        assert(ts[i].slot == i);
    }
    assert forall|i: int| 0 <= i < ts.len() implies (#[trigger] c[i]).1.finite() by {
        assert(ts[i].slot == i);
    }
}

/// Rank order of a time window.
pub proof fn lemma_time_rank(k: Key2, start_ts: Option<u64>, end_ts: Option<u64>)
    ensures
        time_lo(start_ts).rank() <= k.rank() && k.rank() <= time_hi(end_ts).rank() <==> within(k.a, start_ts, end_ts),
{
}

/// A query for the records of a time window returns a row if and only if some epoch holds it and its time
/// lies in the window, ends included. Each row comes with the digest that the epoch holds for it.
#[verifier::rlimit(60)]
pub proof fn law_record_query_is_the_window(
    epochs: Seq<Epoch>,
    current: u32,
    start_ts: Option<u64>,
    end_ts: Option<u64>,
    row: RecordRow,
)
    requires
        epochs_ok(epochs),
        epochs.len() <= usize::MAX,
    ensures
        ({
            let ts = all_targets(epochs, current);
            let rows = record_rows(epochs, ts, record_scan(epochs, ts, start_ts, end_ts, None, true));
            let k = Key2 { a: row.ts_ns, b: row.packet_idx };
            rows.contains(row) <==> within(row.ts_ns, start_ts, end_ts) && exists|e: int|
                0 <= e < epochs.len() && (#[trigger] epochs[e]).plane@.record_ts.contains_key(k) && epochs[e].plane@.record_ts[k] == row.summary
        }),
{
    let ts = all_targets(epochs, current);
    let raw = record_scan(epochs, ts, start_ts, end_ts, None, true);
    let rows = record_rows(epochs, ts, raw);
    let shards = record_shards(epochs, ts);
    let k = Key2 { a: row.ts_ns, b: row.packet_idx };
    lemma_targets(epochs, current);
    lemma_time_rank(k, start_ts, end_ts);
    assert forall|e: int| 0 <= e < epochs.len() implies summary_in(epochs, ts, (#[trigger] epochs[e]).num, k) == epochs[e].plane@.record_ts[k]
        by {
        let num = epochs[e].num;
        assert(ts[e].num == num);
        let i = choose|i: int| 0 <= i < ts.len() && (#[trigger] ts[i]).num == num;
        if i < e {
            assert(epochs[i].num < epochs[e].num);
        } else if e < i {
            assert(epochs[e].num < epochs[i].num);
        }
        assert(ts[i].slot == e);
    }
    if rows.contains(row) {
        let i = choose|i: int| 0 <= i < rows.len() && rows[i] == row;
        assert(raw[i].1 == k);
        lemma_row_source(shards, time_lo(start_ts), time_hi(end_ts), None, true, i);
        let e = choose|e: int| 0 <= e < shards.len() && (#[trigger] shards[e]).0 == raw[i].0 && shards[e].1.contains(raw[i].1);
        assert(ts[e].slot == e);
        assert(raw.contains((shards[e].0, k)));
        law_scan_finds_what_it_wants(shards, time_lo(start_ts), time_hi(end_ts), None, true, e, k);
        assert(epochs[e].num == raw[i].0);
        assert(epochs[e].plane@.record_ts.contains_key(k));
    }
    if within(row.ts_ns, start_ts, end_ts) && exists|e: int|
        0 <= e < epochs.len() && (#[trigger] epochs[e]).plane@.record_ts.contains_key(k) && epochs[e].plane@.record_ts[k] == row.summary {
        let e = choose|e: int|
            0 <= e < epochs.len() && (#[trigger] epochs[e]).plane@.record_ts.contains_key(k) && epochs[e].plane@.record_ts[k] == row.summary;
        assert(ts[e].slot == e);
        assert(shards[e].1.contains(k));
        law_scan_finds_what_it_wants(shards, time_lo(start_ts), time_hi(end_ts), None, true, e, k);
        let i = choose|i: int| 0 <= i < raw.len() && raw[i] == (shards[e].0, k);
        assert(rows[i] == row);
    }
}

/// Some row of a query tells of a record.
pub open spec fn told_of(rows: Seq<RecordRow>, r: IndexedRecord) -> bool {
    exists|n: int| 0 <= n < rows.len() && told_by(#[trigger] rows[n], r)
}

/// A row of a query tells of some record of a batch.
pub open spec fn tells_of_one(row: RecordRow, recs: Seq<(IndexedRecord, bool)>) -> bool {
    exists|i: int| 0 <= i < recs.len() && told_by(row, (#[trigger] recs[i]).0)
}

/// From capture to query: after a batch on an empty time index, a query over a window that holds the time of
/// a record of the batch returns a row under its time and place that describes it.
#[verifier::rlimit(60)]
pub proof fn law_captured_record_is_found(
    pl: PlanesView,
    recs: Seq<(IndexedRecord, bool)>,
    par: QrParams,
    rules: Option<Seq<RuleView>>,
    epochs: Seq<Epoch>,
    start_ts: Option<u64>,
    end_ts: Option<u64>,
    i: int,
)
    requires
        pl.epoch.record_ts == Map::<Key2, RecordSummary>::empty(),
        keys_differ(recs),
        epochs_ok(epochs),
        epochs.len() == 1,
        epochs[0].plane@.record_ts == run(pl, recs, par, rules).epoch.record_ts,
        0 <= i < recs.len(),
        within(recs[i].0.rec.timestamp_ns, start_ts, end_ts),
    ensures
        ({
            let ts = all_targets(epochs, epochs[0].num);
            told_of(record_rows(epochs, ts, record_scan(epochs, ts, start_ts, end_ts, None, true)), recs[i].0)
        }),
{
    let ts = all_targets(epochs, epochs[0].num);
    let rows = record_rows(epochs, ts, record_scan(epochs, ts, start_ts, end_ts, None, true));
    let index = run(pl, recs, par, rules).epoch.record_ts;
    law_batch_is_indexed_as_captured(pl, recs, par, rules);
    let k = time_key(recs[i].0);
    let row = RecordRow { ts_ns: k.a, packet_idx: k.b, summary: index[k] };
    law_record_query_is_the_window(epochs, epochs[0].num, start_ts, end_ts, row);
    assert(index.contains_key(time_key(recs[i].0)));
    assert(epochs[0].plane@.record_ts.contains_key(k));
    let n = choose|n: int| 0 <= n < rows.len() && rows[n] == row;
    assert(told_by(rows[n], recs[i].0));
}

/// Every row that such a query returns lies in its window and describes a record of the batch.
#[verifier::rlimit(60)]
pub proof fn law_queried_row_was_captured(
    pl: PlanesView,
    recs: Seq<(IndexedRecord, bool)>,
    par: QrParams,
    rules: Option<Seq<RuleView>>,
    epochs: Seq<Epoch>,
    start_ts: Option<u64>,
    end_ts: Option<u64>,
    row: RecordRow,
)
    requires
        pl.epoch.record_ts == Map::<Key2, RecordSummary>::empty(),
        keys_differ(recs),
        epochs_ok(epochs),
        epochs.len() == 1,
        epochs[0].plane@.record_ts == run(pl, recs, par, rules).epoch.record_ts,
        ({
            let ts = all_targets(epochs, epochs[0].num);
            record_rows(epochs, ts, record_scan(epochs, ts, start_ts, end_ts, None, true)).contains(row)
        }),
    ensures
        tells_of_one(row, recs),
        within(row.ts_ns, start_ts, end_ts),
{
    let index = run(pl, recs, par, rules).epoch.record_ts;
    law_batch_is_indexed_as_captured(pl, recs, par, rules);
    law_record_query_is_the_window(epochs, epochs[0].num, start_ts, end_ts, row);
    let k = Key2 { a: row.ts_ns, b: row.packet_idx };
    assert(index.contains_key(k));
    let i = choose|i: int| 0 <= i < recs.len() && time_key((#[trigger] recs[i]).0) == k;
    assert(index.contains_key(time_key(recs[i].0)));
    assert(told_by(row, recs[i].0));
}

/// A row of a query tells of a record: its time, its file and offset, and what describes it.
pub open spec fn told_by(row: RecordRow, r: IndexedRecord) -> bool {
    &&& row.ts_ns == r.rec.timestamp_ns
    &&& row.packet_idx / 0x1_0000_0000 == r.file_id
    &&& row.packet_idx % 0x1_0000_0000 == r.offset
    &&& describes(row.summary, r.rec)
}

} // verus!
