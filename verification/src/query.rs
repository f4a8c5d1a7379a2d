//! Queries over the index plane: by connection, by time, by packet and by record time.
//!
//! Open pairs and connection states are looked up in the live tables, everything else in the epochs. The
//! secondary indexes only locate candidates; the status of a pair is always that of its main row.

use crate::connection::ConnState;
use crate::db::{status_named, QrPairValue, QrPairView, QrStatus, RecordSummary};
use crate::ledger::{ConnArchive, EpochBoundary};
use crate::paging::{
    all_rows, cursor_at, cursor_view, encode_cursor, first_page, lemma_next_page, lemma_row_source, page_rows_epochs, shards_of,
    shards_ok, PageKey,
};
use crate::plane::{EpochPlane, LivePlane, LiveView};
use crate::config::text_of;
use crate::table::{Key2, Key3, Table};
use crate::text::{chars_of, parse_unsigned, parsed, part};
use vstd::prelude::*;

verus! {

/// Which rows of a scan to return.
#[derive(Debug, Clone)]
pub struct Page {
    /// Where the page before this one ended; none for the first page.
    pub cursor: Option<Vec<u8>>,
    pub limit: usize,
    /// Ascending where set, else descending.
    pub forward: bool,
}

impl Default for Page {
    fn default() -> (p: Page)
        ensures
            p == (Page { cursor: None, limit: 100, forward: true }),
    {
        Page { cursor: None, limit: 100, forward: true }
    }
}

/// One page of rows, with the cursor of the next.
#[derive(Debug, Clone)]
pub struct PageRows<T> {
    pub rows: Vec<T>,
    /// The page was filled, so there may be more.
    pub has_more: bool,
    pub next_cursor: Option<Vec<u8>>,
}

/// Which pairs a query wants.
#[derive(Debug, Clone, Copy, PartialEq, Eq)]
pub struct QrFilter {
    /// The connection, for a scan by connection.
    pub conn_hash: Option<u64>,
    pub start_ts: Option<u64>,
    pub end_ts: Option<u64>,
    pub status: Option<QrStatus>,
}

impl Default for QrFilter {
    fn default() -> (f: QrFilter)
        ensures
            f == (QrFilter { conn_hash: None, start_ts: None, end_ts: None, status: None }),
    {
        QrFilter { conn_hash: None, start_ts: None, end_ts: None, status: None }
    }
}

/// Which records a query wants.
#[derive(Debug, Clone, Copy)]
pub struct RecordFilter {
    pub start_ts: Option<u64>,
    pub end_ts: Option<u64>,
}

impl Default for RecordFilter {
    fn default() -> (f: RecordFilter)
        ensures
            f == (RecordFilter { start_ts: None, end_ts: None }),
    {
        RecordFilter { start_ts: None, end_ts: None }
    }
}

/// A pair found by a scan.
#[derive(Debug, Clone, Copy, PartialEq, Eq)]
pub struct QrIndexRow {
    pub q_first_idx: u64,
    pub q_ts: u64,
    pub status: u8,
    pub status_name: &'static str,
    /// The connection, where the scan went by connection.
    pub conn_hash: Option<u64>,
}

/// What a found pair says.
pub struct QrRowView {
    pub q_first_idx: u64,
    pub q_ts: u64,
    pub status: u8,
    pub status_name: Seq<char>,
    pub conn_hash: Option<u64>,
}

impl View for QrIndexRow {
    type V = QrRowView;

    open spec fn view(&self) -> QrRowView {
        QrRowView {
            q_first_idx: self.q_first_idx,
            q_ts: self.q_ts,
            status: self.status,
            status_name: self.status_name@,
            conn_hash: self.conn_hash,
        }
    }
}

/// A list of found pairs by what they say.
pub open spec fn qr_row_views(rows: Seq<QrIndexRow>) -> Seq<QrRowView> {
    rows.map_values(|r: QrIndexRow| r@)
}

/// A record found by a scan.
#[derive(Debug, Clone, Copy, PartialEq, Eq)]
pub struct RecordRow {
    pub ts_ns: u64,
    pub packet_idx: u64,
    pub summary: RecordSummary,
}

/// One numbered epoch of history.
pub struct Epoch {
    pub num: u32,
    pub plane: EpochPlane,
}

/// An epoch that a session may scan.
#[derive(Debug, Clone, Copy, PartialEq, Eq, Structural)]
pub struct EpochTarget {
    pub num: u32,
    /// The epoch that is still written to.
    pub is_current: bool,
    /// Its place in the list of epochs.
    pub slot: usize,
}

/// Why a query was refused.
#[derive(Debug, Clone, Copy, PartialEq, Eq, Structural)]
pub enum QueryError {
    /// A scan by connection names no connection.
    MissingConnection,
}

/// The boundary row of an epoch: the last one with its number.
pub open spec fn boundary_of(bs: Seq<EpochBoundary>, num: u32) -> Option<EpochBoundary>
    decreases bs.len(),
{
    if bs.len() == 0 {
        None
    } else if bs.last().epoch_id == num {
        Some(bs.last())
    } else {
        boundary_of(bs.drop_last(), num)
    }
}

/// Start of a frozen epoch.
pub open spec fn first_time(b: EpochBoundary) -> u64 {
    match b.min_ts {
        Some(t) => t as u64,
        None => 0,
    }
}

/// End of a frozen epoch.
pub open spec fn last_time(b: EpochBoundary) -> u64 {
    match b.max_ts {
        Some(t) => t as u64,
        None => u64::MAX,
    }
}

/// Start of a window; open where none is given.
pub open spec fn from_ts(start_ts: Option<u64>) -> u64 {
    match start_ts {
        Some(t) => t,
        None => 0,
    }
}

/// End of a window; open where none is given.
pub open spec fn to_ts(end_ts: Option<u64>) -> u64 {
    match end_ts {
        Some(t) => t,
        None => u64::MAX,
    }
}

/// Whether an epoch may hold rows of a window: the current one always, one without a boundary row
/// always, any other where its time span meets the window.
pub open spec fn in_window(t: EpochTarget, bs: Seq<EpochBoundary>, start_ts: Option<u64>, end_ts: Option<u64>) -> bool {
    t.is_current || match boundary_of(bs, t.num) {
        None => true,
        Some(b) => last_time(b) >= from_ts(start_ts) && first_time(b) <= to_ts(end_ts),
    }
}

/// The epochs that may hold rows of a window.
pub open spec fn pruned(ts: Seq<EpochTarget>, bs: Seq<EpochBoundary>, start_ts: Option<u64>, end_ts: Option<u64>) -> Seq<EpochTarget>
    decreases ts.len(),
{
    if start_ts is None && end_ts is None {
        ts
    } else if ts.len() == 0 {
        Seq::empty()
    } else {
        let rest = pruned(ts.drop_last(), bs, start_ts, end_ts);
        if in_window(ts.last(), bs, start_ts, end_ts) {
            rest.push(ts.last())
        } else {
            rest
        }
    }
}

/// Epochs that are passed over hold no time within the window.
pub proof fn law_pruning_loses_nothing(t: EpochTarget, bs: Seq<EpochBoundary>, start_ts: Option<u64>, end_ts: Option<u64>, ts: u64)
    requires
        !in_window(t, bs, start_ts, end_ts),
        boundary_of(bs, t.num) matches Some(b) ==> first_time(b) <= ts <= last_time(b),
    ensures
        !(from_ts(start_ts) <= ts <= to_ts(end_ts)),
{
}

/// What is kept are targets of the list, in their order.
proof fn lemma_pruned_sub(ts: Seq<EpochTarget>, bs: Seq<EpochBoundary>, start_ts: Option<u64>, end_ts: Option<u64>, epochs: Seq<Epoch>)
    requires
        targets_ok(ts, epochs),
    ensures
        targets_ok(pruned(ts, bs, start_ts, end_ts), epochs),
        forall|t: EpochTarget| #[trigger] pruned(ts, bs, start_ts, end_ts).contains(t) ==> ts.contains(t),
    decreases ts.len(),
{
    if ts.len() > 0 && !(start_ts is None && end_ts is None) {
        let head = ts.drop_last();
        let rest = pruned(head, bs, start_ts, end_ts);
        let out = pruned(ts, bs, start_ts, end_ts);
        lemma_pruned_sub(head, bs, start_ts, end_ts, epochs);
        assert forall|t: EpochTarget| #[trigger] rest.contains(t) implies head.contains(t) && ts.contains(t) && t.slot < ts.last().slot by {
            let j = choose|j: int| 0 <= j < head.len() && head[j] == t;
            assert(ts[j] == t);
        }
        if in_window(ts.last(), bs, start_ts, end_ts) {
            assert forall|i: int, j: int| 0 <= i < j < out.len() implies (#[trigger] out[i]).slot < (#[trigger] out[j]).slot by {
                if j == out.len() - 1 {
                    assert(rest.contains(rest[i]));
                }
            }
            assert forall|i: int| 0 <= i < out.len() implies (#[trigger] out[i]).slot < epochs.len() && out[i].num
                == epochs[out[i].slot as int].num by {
                if i < rest.len() {
                    assert(rest[i] == out[i]);
                } else {
                    assert(out[i] == ts[ts.len() - 1]);
                }
            }
            assert forall|t: EpochTarget| #[trigger] out.contains(t) implies ts.contains(t) by {
                let j = choose|j: int| 0 <= j < out.len() && out[j] == t;
                if j < rest.len() {
                    assert(rest[j] == t);
                    assert(rest.contains(t));
                } else {
                    assert(ts[ts.len() - 1] == t);
                }
            }
        }
    }
}

/// Keeps the epochs that may hold rows of a window.
pub fn prune_targets_by_window(
    targets: &Vec<EpochTarget>,
    boundaries: &Vec<EpochBoundary>,
    start_ts: Option<u64>,
    end_ts: Option<u64>,
) -> (r: Vec<EpochTarget>)
    ensures
        r@ == pruned(targets@, boundaries@, start_ts, end_ts),
{
    let whole: bool = start_ts.is_none() && end_ts.is_none();
    let s: u64 = match start_ts {
        Some(t) => t,
        None => 0,
    };
    let e: u64 = match end_ts {
        Some(t) => t,
        None => 0xffff_ffff_ffff_ffff,
    };
    let mut r: Vec<EpochTarget> = Vec::new();
    let mut i: usize = 0;
    assert(targets@.take(0) =~= Seq::empty());
    while i < targets.len()
        invariant
            i <= targets@.len(),
            whole == (start_ts is None && end_ts is None),
            s == from_ts(start_ts),
            e == to_ts(end_ts),
            r@ == pruned(targets@.take(i as int), boundaries@, start_ts, end_ts),
        decreases targets@.len() - i,
    {
        let t = targets[i];
        let keep: bool = if whole || t.is_current {
            true
        } else {
            match find_boundary(boundaries, t.num) {
                None => true,
                Some(b) => {
                    let first: u64 = match b.min_ts {
                        Some(x) => x as u64,
                        None => 0,
                    };
                    let last: u64 = match b.max_ts {
                        Some(x) => x as u64,
                        None => 0xffff_ffff_ffff_ffff,
                    };
                    !(last < s || first > e)
                },
            }
        };
        assert(targets@.take(i + 1).drop_last() =~= targets@.take(i as int));
        assert(targets@.take(i + 1).last() == t);
        assert(targets@.take(i + 1) =~= targets@.take(i as int).push(t));
        if keep {
            r.push(t);
        }
        i += 1;
    }
    assert(targets@.take(targets@.len() as int) =~= targets@);
    r
}

fn find_boundary(bs: &Vec<EpochBoundary>, num: u32) -> (r: Option<&EpochBoundary>)
    ensures
        r is Some <==> boundary_of(bs@, num) is Some,
        r matches Some(b) ==> boundary_of(bs@, num) == Some(*b),
{
    let mut i: usize = bs.len();
    assert(bs@.take(bs@.len() as int) =~= bs@);
    while i > 0
        invariant
            i <= bs@.len(),
            boundary_of(bs@, num) == boundary_of(bs@.take(i as int), num),
        decreases i,
    {
        i -= 1;
        assert(bs@.take(i + 1).drop_last() =~= bs@.take(i as int));
        assert(bs@.take(i + 1).last() == bs@[i as int]);
        if bs[i].epoch_id == num as i64 {
            return Some(&bs[i]);
        }
    }
    None
}

/// The times between which a connection was seen: from its state while it is live, else from its archive
/// row.
pub open spec fn window_of(live: LiveView, archive: Option<ConnArchive>, conn_hash: u64) -> Option<(u64, u64)> {
    let st = live.conns[conn_hash];
    if live.conns.contains_key(conn_hash) && st.first_ts > 0 && st.last_ts > 0 {
        Some((st.first_ts, st.last_ts))
    } else {
        match archive {
            Some(ConnArchive { first_ts: Some(f), last_ts: Some(l) }) => if f > 0 && l > 0 {
                Some((f as u64, l as u64))
            } else {
                None
            },
            _ => None,
        }
    }
}

/// Looks up the times between which a connection was seen.
pub fn conn_window(live: &LivePlane, archive: Option<ConnArchive>, conn_hash: u64) -> (r: Option<(u64, u64)>)
    requires
        live.wf(),
    ensures
        r == window_of(live@, archive, conn_hash),
{
    if let Some(st) = live.conns.get(&conn_hash) {
        if st.first_ts > 0 && st.last_ts > 0 {
            return Some((st.first_ts, st.last_ts));
        }
    }
    if let Some(a) = archive {
        if let (Some(f), Some(l)) = (a.first_ts, a.last_ts) {
            if f > 0 && l > 0 {
                return Some((f as u64, l as u64));
            }
        }
    }
    None
}

/// Bounds of a scan of one connection over a window.
pub open spec fn conn_lo(conn_hash: u64, start_ts: Option<u64>) -> Key3 {
    Key3 { a: conn_hash, b: from_ts(start_ts), c: 0 }
}

pub open spec fn conn_hi(conn_hash: u64, end_ts: Option<u64>) -> Key3 {
    Key3 { a: conn_hash, b: to_ts(end_ts), c: u64::MAX }
}

/// Bounds of a scan by time over a window.
pub open spec fn time_lo(start_ts: Option<u64>) -> Key2 {
    Key2 { a: from_ts(start_ts), b: 0 }
}

pub open spec fn time_hi(end_ts: Option<u64>) -> Key2 {
    Key2 { a: to_ts(end_ts), b: u64::MAX }
}

/// First and last key of one connection within a window.
pub fn conn_qr_bounds(conn_hash: u64, start_ts: Option<u64>, end_ts: Option<u64>) -> (r: (Key3, Key3))
    ensures
        r.0 == conn_lo(conn_hash, start_ts),
        r.1 == conn_hi(conn_hash, end_ts),
{
    let (lo, hi) = ts_bounds(start_ts, end_ts);
    (Key3 { a: conn_hash, b: lo.a, c: lo.b }, Key3 { a: conn_hash, b: hi.a, c: hi.b })
}

/// First and last key within a window.
pub fn ts_bounds(start_ts: Option<u64>, end_ts: Option<u64>) -> (r: (Key2, Key2))
    ensures
        r.0 == time_lo(start_ts),
        r.1 == time_hi(end_ts),
{
    let lo: u64 = match start_ts {
        Some(t) => t,
        None => 0,
    };
    let hi: u64 = match end_ts {
        Some(t) => t,
        None => 0xffff_ffff_ffff_ffff,
    };
    (Key2 { a: lo, b: 0 }, Key2 { a: hi, b: 0xffff_ffff_ffff_ffff })
}

/// The status with a stored code, if there is one.
pub open spec fn status_of(code: u8) -> Option<QrStatus> {
    if code == 0 {
        Some(QrStatus::Pending)
    } else if code == 1 {
        Some(QrStatus::Matched)
    } else if code == 2 {
        Some(QrStatus::Timeout)
    } else if code == 3 {
        Some(QrStatus::Unmatched)
    } else if code == 4 {
        Some(QrStatus::RstAbort)
    } else if code == 5 {
        Some(QrStatus::AbortedResource)
    } else {
        None
    }
}

/// The first epoch, in order, that has a row for a pair.
pub open spec fn pair_in(epochs: Seq<Epoch>, idx: u64) -> Option<QrPairView>
    decreases epochs.len(),
{
    if epochs.len() == 0 {
        None
    } else {
        match pair_in(epochs.drop_last(), idx) {
            Some(p) => Some(p),
            None => if epochs.last().plane@.pairs.contains_key(idx) {
                Some(epochs.last().plane@.pairs[idx])
            } else {
                None
            },
        }
    }
}

/// The main row of a pair: among the open pairs, else in the epochs.
pub open spec fn pair_at(live: LiveView, epochs: Seq<Epoch>, idx: u64) -> Option<QrPairView> {
    if live.pairs.contains_key(idx) {
        Some(live.pairs[idx])
    } else {
        pair_in(epochs, idx)
    }
}

/// The pair that a packet belongs to, in the first epoch that knows it.
pub open spec fn packet_in(epochs: Seq<Epoch>, packet_idx: u64) -> Option<u64>
    decreases epochs.len(),
{
    if epochs.len() == 0 {
        None
    } else {
        match packet_in(epochs.drop_last(), packet_idx) {
            Some(q) => Some(q),
            None => if epochs.last().plane@.packet_qr.contains_key(packet_idx) {
                Some(epochs.last().plane@.packet_qr[packet_idx])
            } else {
                None
            },
        }
    }
}

/// Status of a pair by its main row.
pub open spec fn main_status(live: LiveView, epochs: Seq<Epoch>, idx: u64) -> Option<QrStatus> {
    match pair_at(live, epochs, idx) {
        Some(p) => status_of(p.status),
        None => None,
    }
}

/// The row that a located pair gives, if its main row is there and has the status asked for.
pub open spec fn found_pair(
    live: LiveView,
    epochs: Seq<Epoch>,
    status: Option<QrStatus>,
    conn_hash: Option<u64>,
    q_ts: u64,
    idx: u64,
) -> Option<QrRowView> {
    match main_status(live, epochs, idx) {
        None => None,
        Some(s) => if status is Some && status != Some(s) {
            None
        } else {
            Some(QrRowView { q_first_idx: idx, q_ts, status: s.code(), status_name: s.label(), conn_hash })
        },
    }
}

/// The time and the locator in a key of an index of pairs.
pub open spec fn conn_part(r: (u32, Key3)) -> (u64, u64) {
    (r.1.b, r.1.c)
}

pub open spec fn time_part(r: (u32, Key2)) -> (u64, u64) {
    (r.1.a, r.1.b)
}

/// The rows that located pairs give, in order.
pub open spec fn found_pairs(
    live: LiveView,
    epochs: Seq<Epoch>,
    status: Option<QrStatus>,
    conn_hash: Option<u64>,
    located: Seq<(u64, u64)>,
) -> Seq<QrRowView>
    decreases located.len(),
{
    if located.len() == 0 {
        Seq::empty()
    } else {
        let rest = found_pairs(live, epochs, status, conn_hash, located.drop_last());
        match found_pair(live, epochs, status, conn_hash, located.last().0, located.last().1) {
            Some(r) => rest.push(r),
            None => rest,
        }
    }
}

/// The cursor after a page of raw rows.
pub open spec fn cursor_after<K: PageKey>(raw: Seq<(u32, K)>) -> Option<Seq<u8>> {
    if raw.len() == 0 {
        None
    } else {
        Some(cursor_at(raw.last().0, raw.last().1.bytes()))
    }
}

/// Puts a page together: there may be more where the raw page was filled.
fn paged<K: PageKey, T>(raw: &Vec<(u32, K)>, rows: Vec<T>, limit: usize) -> (p: PageRows<T>)
    ensures
        p.rows == rows,
        p.has_more == (raw@.len() >= limit && raw@.len() > 0),
        cursor_view(p.next_cursor) == cursor_after(raw@),
{
    let next: Option<Vec<u8>> = if raw.len() == 0 {
        None
    } else {
        let last = raw[raw.len() - 1];
        Some(encode_cursor(last.0, &last.1.stored()))
    };
    PageRows { rows, has_more: raw.len() >= limit && next.is_some(), next_cursor: next }
}

/// Targets name epochs of the list, in order.
pub open spec fn targets_ok(ts: Seq<EpochTarget>, epochs: Seq<Epoch>) -> bool {
    &&& forall|i: int, j: int| 0 <= i < j < ts.len() ==> (#[trigger] ts[i]).slot < (#[trigger] ts[j]).slot
    &&& forall|i: int| 0 <= i < ts.len() ==> (#[trigger] ts[i]).slot < epochs.len() && ts[i].num == epochs[ts[i].slot as int].num
}

/// Epochs in ascending order, with their tables in order.
pub open spec fn epochs_ok(epochs: Seq<Epoch>) -> bool {
    &&& forall|i: int, j: int| 0 <= i < j < epochs.len() ==> (#[trigger] epochs[i]).num < (#[trigger] epochs[j]).num
    &&& forall|i: int| 0 <= i < epochs.len() ==> (#[trigger] epochs[i]).plane.wf()
}

/// All epochs as targets.
pub open spec fn all_targets(epochs: Seq<Epoch>, current: u32) -> Seq<EpochTarget> {
    Seq::new(epochs.len(), |i: int| EpochTarget { num: epochs[i].num, is_current: epochs[i].num == current, slot: i as usize })
}

/// The epochs of a scan by connection.
pub open spec fn conn_shards(epochs: Seq<Epoch>, ts: Seq<EpochTarget>) -> Seq<(u32, Set<Key3>)> {
    ts.map_values(|t: EpochTarget| (t.num, epochs[t.slot as int].plane@.conn_qr.dom()))
}

/// The epochs of a scan by time.
pub open spec fn time_shards(epochs: Seq<Epoch>, ts: Seq<EpochTarget>) -> Seq<(u32, Set<Key2>)> {
    ts.map_values(|t: EpochTarget| (t.num, epochs[t.slot as int].plane@.qr_time.dom()))
}

/// The epochs of a scan of records.
pub open spec fn record_shards(epochs: Seq<Epoch>, ts: Seq<EpochTarget>) -> Seq<(u32, Set<Key2>)> {
    ts.map_values(|t: EpochTarget| (t.num, epochs[t.slot as int].plane@.record_ts.dom()))
}

/// The raw rows of a scan by connection, from a cursor on.
pub open spec fn conn_scan(
    epochs: Seq<Epoch>,
    ts: Seq<EpochTarget>,
    conn_hash: u64,
    f: QrFilter,
    cursor: Option<Seq<u8>>,
    forward: bool,
) -> Seq<(u32, Key3)> {
    all_rows(conn_shards(epochs, ts), conn_lo(conn_hash, f.start_ts), conn_hi(conn_hash, f.end_ts), cursor, forward)
}

/// The raw rows of a scan by time, from a cursor on.
pub open spec fn time_scan(
    epochs: Seq<Epoch>,
    ts: Seq<EpochTarget>,
    f: QrFilter,
    cursor: Option<Seq<u8>>,
    forward: bool,
) -> Seq<(u32, Key2)> {
    all_rows(time_shards(epochs, ts), time_lo(f.start_ts), time_hi(f.end_ts), cursor, forward)
}

/// The raw rows of a scan of records, from a cursor on.
pub open spec fn record_scan(
    epochs: Seq<Epoch>,
    ts: Seq<EpochTarget>,
    start_ts: Option<u64>,
    end_ts: Option<u64>,
    cursor: Option<Seq<u8>>,
    forward: bool,
) -> Seq<(u32, Key2)> {
    all_rows(record_shards(epochs, ts), time_lo(start_ts), time_hi(end_ts), cursor, forward)
}

/// The digest of a record in an epoch with a given number.
pub open spec fn summary_in(epochs: Seq<Epoch>, ts: Seq<EpochTarget>, num: u32, k: Key2) -> RecordSummary {
    let i = choose|i: int| 0 <= i < ts.len() && (#[trigger] ts[i]).num == num;
    epochs[ts[i].slot as int].plane@.record_ts[k]
}

/// The record rows of a list of raw rows.
pub open spec fn record_rows(epochs: Seq<Epoch>, ts: Seq<EpochTarget>, raw: Seq<(u32, Key2)>) -> Seq<RecordRow> {
    raw.map_values(
        |r: (u32, Key2)| RecordRow { ts_ns: r.1.a, packet_idx: r.1.b, summary: summary_in(epochs, ts, r.0, r.1) },
    )
}

/// A read-only view of the planes: the live tables, every epoch, and the epochs that scans visit. Lookups
/// of single rows always see every epoch, since a pair may have been finished in a later epoch than the
/// one it was opened in.
pub struct QuerySession<'a> {
    live: &'a LivePlane,
    epochs: &'a Vec<Epoch>,
    targets: Vec<EpochTarget>,
}

impl<'a> QuerySession<'a> {
    /// The live tables.
    pub closed spec fn live_view(&self) -> LiveView {
        self.live@
    }

    /// Every epoch, in order.
    pub closed spec fn epoch_list(&self) -> Seq<Epoch> {
        self.epochs@
    }

    /// The epochs that scans visit.
    pub closed spec fn target_list(&self) -> Seq<EpochTarget> {
        self.targets@
    }

    /// The epochs that scans visit.
    pub fn targets(&self) -> (ts: &Vec<EpochTarget>)
        ensures
            ts@ == self.target_list(),
    {
        &self.targets
    }

    /// The tables are in order, and the targets name epochs of the list in order.
    pub closed spec fn wf(&self) -> bool {
        &&& self.live.wf()
        &&& epochs_ok(self.epochs@)
        &&& targets_ok(self.targets@, self.epochs@)
    }

    fn build(
        live: &'a LivePlane,
        epochs: &'a Vec<Epoch>,
        current: u32,
        boundaries: Option<&Vec<EpochBoundary>>,
        start_ts: Option<u64>,
        end_ts: Option<u64>,
    ) -> (s: QuerySession<'a>)
        requires
            live.wf(),
            epochs_ok(epochs@),
        ensures
            s.wf(),
            s.live_view() == live@,
            s.epoch_list() == epochs@,
            s.target_list() == (match boundaries {
                Some(bs) => pruned(all_targets(epochs@, current), bs@, start_ts, end_ts),
                None => all_targets(epochs@, current),
            }),
    {
        let mut all: Vec<EpochTarget> = Vec::new();
        let mut i: usize = 0;
        while i < epochs.len()
            invariant
                i <= epochs@.len(),
                all@ == all_targets(epochs@, current).take(i as int),
            decreases epochs@.len() - i,
        {
            all.push(EpochTarget { num: epochs[i].num, is_current: epochs[i].num == current, slot: i });
            assert(all@ =~= all_targets(epochs@, current).take(i + 1));
            i += 1;
        }
        assert(all@ =~= all_targets(epochs@, current));
        assert(targets_ok(all@, epochs@));
        let targets = match boundaries {
            Some(bs) => {
                proof {
                    lemma_pruned_sub(all@, bs@, start_ts, end_ts, epochs@);
                }
                prune_targets_by_window(&all, bs, start_ts, end_ts)
            },
            None => all,
        };
        QuerySession { live, epochs, targets }
    }

    /// A session that scans every epoch.
    pub fn open(live: &'a LivePlane, epochs: &'a Vec<Epoch>, current: u32) -> (s: QuerySession<'a>)
        requires
            live.wf(),
            epochs_ok(epochs@),
        ensures
            s.wf(),
            s.live_view() == live@,
            s.epoch_list() == epochs@,
            s.target_list() == all_targets(epochs@, current),
    {
        QuerySession::build(live, epochs, current, None, None, None)
    }

    /// A session that scans the epochs which may hold rows of a window.
    pub fn open_with_window(
        live: &'a LivePlane,
        epochs: &'a Vec<Epoch>,
        current: u32,
        boundaries: &Vec<EpochBoundary>,
        start_ts: Option<u64>,
        end_ts: Option<u64>,
    ) -> (s: QuerySession<'a>)
        requires
            live.wf(),
            epochs_ok(epochs@),
        ensures
            s.wf(),
            s.live_view() == live@,
            s.epoch_list() == epochs@,
            s.target_list() == pruned(all_targets(epochs@, current), boundaries@, start_ts, end_ts),
    {
        QuerySession::build(live, epochs, current, Some(boundaries), start_ts, end_ts)
    }

    /// A session that scans the epochs which may hold rows of a connection; all of them where it is not
    /// known when the connection was seen.
    pub fn open_for_conn(
        live: &'a LivePlane,
        epochs: &'a Vec<Epoch>,
        current: u32,
        boundaries: &Vec<EpochBoundary>,
        archive: Option<ConnArchive>,
        conn_hash: u64,
    ) -> (s: QuerySession<'a>)
        requires
            live.wf(),
            epochs_ok(epochs@),
        ensures
            s.wf(),
            s.live_view() == live@,
            s.epoch_list() == epochs@,
            s.target_list() == (match window_of(live@, archive, conn_hash) {
                Some(w) => pruned(all_targets(epochs@, current), boundaries@, Some(w.0), Some(w.1)),
                None => all_targets(epochs@, current),
            }),
    {
        match conn_window(live, archive, conn_hash) {
            Some((first, last)) => QuerySession::build(live, epochs, current, Some(boundaries), Some(first), Some(last)),
            None => QuerySession::build(live, epochs, current, None, None, None),
        }
    }

    /// The main row of a pair.
    pub fn qr_by_idx(&self, q_first_idx: u64) -> (r: Option<&QrPairValue>)
        requires
            self.wf(),
        ensures
            (match r {
                Some(p) => Some(p@),
                None => None,
            }) == pair_at(self.live_view(), self.epoch_list(), q_first_idx),
    {
        if let Some(p) = self.live.pairs.get(&q_first_idx) {
            return Some(p);
        }
        let mut i: usize = 0;
        assert(self.epochs@.take(0) =~= Seq::empty());
        while i < self.epochs.len()
            invariant
                self.wf(),
                i <= self.epochs@.len(),
                !self.live@.pairs.contains_key(q_first_idx),
                pair_in(self.epochs@.take(i as int), q_first_idx) is None,
            decreases self.epochs@.len() - i,
        {
            assert(self.epochs@.take(i + 1).drop_last() =~= self.epochs@.take(i as int));
            assert(self.epochs@.take(i + 1).last() == self.epochs@[i as int]);
            assert(self.epochs@[i as int].plane.wf());
            if let Some(p) = self.epochs[i].plane.pairs.get(&q_first_idx) {
                proof {
                    lemma_pair_found(self.epochs@, i + 1, q_first_idx);
                }
                return Some(p);
            }
            i += 1;
        }
        assert(self.epochs@.take(self.epochs@.len() as int) =~= self.epochs@);
        None
    }

    /// The pair that a packet belongs to.
    pub fn qr_by_packet(&self, packet_idx: u64) -> (r: Option<u64>)
        requires
            self.wf(),
        ensures
            r == packet_in(self.epoch_list(), packet_idx),
    {
        let mut i: usize = 0;
        assert(self.epochs@.take(0) =~= Seq::empty());
        while i < self.epochs.len()
            invariant
                self.wf(),
                i <= self.epochs@.len(),
                packet_in(self.epochs@.take(i as int), packet_idx) is None,
            decreases self.epochs@.len() - i,
        {
            assert(self.epochs@.take(i + 1).drop_last() =~= self.epochs@.take(i as int));
            assert(self.epochs@.take(i + 1).last() == self.epochs@[i as int]);
            assert(self.epochs@[i as int].plane.wf());
            if let Some(q) = self.epochs[i].plane.packet_qr.get(&packet_idx) {
                proof {
                    lemma_packet_found(self.epochs@, i + 1, packet_idx);
                }
                return Some(*q);
            }
            i += 1;
        }
        assert(self.epochs@.take(self.epochs@.len() as int) =~= self.epochs@);
        None
    }

    /// The state of a live connection.
    pub fn conn_state(&self, conn_hash: u64) -> (r: Option<ConnState>)
        requires
            self.wf(),
        ensures
            r is Some <==> self.live_view().conns.contains_key(conn_hash),
            r matches Some(st) ==> st == self.live_view().conns[conn_hash],
    {
        match self.live.conns.get(&conn_hash) {
            Some(st) => Some(*st),
            None => None,
        }
    }

    /// Status of a pair by its main row.
    fn status_by_main(&self, q_first_idx: u64) -> (r: Option<QrStatus>)
        requires
            self.wf(),
        ensures
            r == main_status(self.live_view(), self.epoch_list(), q_first_idx),
    {
        match self.qr_by_idx(q_first_idx) {
            Some(p) => QrStatus::from_u8(p.status),
            None => None,
        }
    }

    /// The row that a located pair gives.
    fn found(&self, status: Option<QrStatus>, conn_hash: Option<u64>, q_ts: u64, idx: u64) -> (r: Option<QrIndexRow>)
        requires
            self.wf(),
        ensures
            (match r {
                Some(row) => Some(row@),
                None => None,
            }) == found_pair(self.live_view(), self.epoch_list(), status, conn_hash, q_ts, idx),
    {
        match self.status_by_main(idx) {
            None => None,
            Some(s) => {
                if let Some(want) = status {
                    if want != s {
                        return None;
                    }
                }
                Some(QrIndexRow { q_first_idx: idx, q_ts, status: s.as_u8(), status_name: s.name(), conn_hash })
            },
        }
    }

    /// One page of a scan by connection, in order of time.
    pub fn scan_conn_qr(&self, f: &QrFilter, page: &Page) -> (r: Result<PageRows<QrIndexRow>, QueryError>)
        requires
            self.wf(),
        ensures
            r is Err <==> f.conn_hash is None,
            r matches Err(e) ==> e == QueryError::MissingConnection,
            r matches Ok(p) ==> {
                let ch = f.conn_hash->0;
                let raw = first_page(
                    conn_scan(self.epoch_list(), self.target_list(), ch, *f, cursor_view(page.cursor), page.forward),
                    page.limit,
                );
                &&& qr_row_views(p.rows@) == found_pairs(
                    self.live_view(),
                    self.epoch_list(),
                    f.status,
                    Some(ch),
                    raw.map_values(|x: (u32, Key3)| conn_part(x)),
                )
                &&& p.has_more == (raw.len() >= page.limit && raw.len() > 0)
                &&& cursor_view(p.next_cursor) == cursor_after(raw)
            },
    {
        let ch: u64 = match f.conn_hash {
            Some(ch) => ch,
            None => {
                return Err(QueryError::MissingConnection);
            },
        };
        let (lo, hi) = conn_qr_bounds(ch, f.start_ts, f.end_ts);
        let mut tables: Vec<(u32, &Table<Key3, u64>)> = Vec::new();
        let mut i: usize = 0;
        while i < self.targets.len()
            invariant
                self.wf(),
                i <= self.targets@.len(),
                tables@.len() == i,
                forall|j: int| 0 <= j < i ==> (#[trigger] tables@[j]).1.wf(),
                shards_of(tables@) == conn_shards(self.epochs@, self.targets@).take(i as int),
            decreases self.targets@.len() - i,
        {
            let t = self.targets[i];
            assert(self.targets@[i as int].slot < self.epochs@.len());
            assert(self.epochs@[t.slot as int].plane.wf());
            tables.push((t.num, &self.epochs[t.slot].plane.conn_qr));
            assert(shards_of(tables@) =~= conn_shards(self.epochs@, self.targets@).take(i + 1));
            i += 1;
        }
        assert(shards_of(tables@) =~= conn_shards(self.epochs@, self.targets@));
        let raw = page_rows_epochs(&tables, &lo, &hi, &page.cursor, page.forward, page.limit);
        let ghost located = raw@.map_values(|x: (u32, Key3)| conn_part(x));
        let mut rows: Vec<QrIndexRow> = Vec::new();
        let mut n: usize = 0;
        assert(located.take(0) =~= Seq::empty());
        assert(qr_row_views(rows@) =~= Seq::empty());
        while n < raw.len()
            invariant
                self.wf(),
                n <= raw@.len(),
                located == raw@.map_values(|x: (u32, Key3)| conn_part(x)),
                qr_row_views(rows@) == found_pairs(self.live@, self.epochs@, f.status, Some(ch), located.take(n as int)),
            decreases raw@.len() - n,
        {
            let k = raw[n].1;
            assert(located.take(n + 1).drop_last() =~= located.take(n as int));
            assert(located.take(n + 1).last() == (k.b, k.c));
            let ghost before = rows@;
            if let Some(row) = self.found(f.status, Some(ch), k.b, k.c) {
                rows.push(row);
                assert(qr_row_views(rows@) =~= qr_row_views(before).push(row@));
            }
            n += 1;
        }
        assert(located.take(raw@.len() as int) =~= located);
        Ok(paged(&raw, rows, page.limit))
    }

    /// One page of a scan by time.
    pub fn scan_time_qr(&self, f: &QrFilter, page: &Page) -> (p: PageRows<QrIndexRow>)
        requires
            self.wf(),
        ensures
            ({
                let raw = first_page(
                    time_scan(self.epoch_list(), self.target_list(), *f, cursor_view(page.cursor), page.forward),
                    page.limit,
                );
                &&& qr_row_views(p.rows@) == found_pairs(
                    self.live_view(),
                    self.epoch_list(),
                    f.status,
                    None,
                    raw.map_values(|x: (u32, Key2)| time_part(x)),
                )
                &&& p.has_more == (raw.len() >= page.limit && raw.len() > 0)
                &&& cursor_view(p.next_cursor) == cursor_after(raw)
            }),
    {
        let (lo, hi) = ts_bounds(f.start_ts, f.end_ts);
        let mut tables: Vec<(u32, &Table<Key2, u64>)> = Vec::new();
        let mut i: usize = 0;
        while i < self.targets.len()
            invariant
                self.wf(),
                i <= self.targets@.len(),
                tables@.len() == i,
                forall|j: int| 0 <= j < i ==> (#[trigger] tables@[j]).1.wf(),
                shards_of(tables@) == time_shards(self.epochs@, self.targets@).take(i as int),
            decreases self.targets@.len() - i,
        {
            let t = self.targets[i];
            assert(self.targets@[i as int].slot < self.epochs@.len());
            assert(self.epochs@[t.slot as int].plane.wf());
            tables.push((t.num, &self.epochs[t.slot].plane.qr_time));
            assert(shards_of(tables@) =~= time_shards(self.epochs@, self.targets@).take(i + 1));
            i += 1;
        }
        assert(shards_of(tables@) =~= time_shards(self.epochs@, self.targets@));
        let raw = page_rows_epochs(&tables, &lo, &hi, &page.cursor, page.forward, page.limit);
        let ghost located = raw@.map_values(|x: (u32, Key2)| time_part(x));
        let mut rows: Vec<QrIndexRow> = Vec::new();
        let mut n: usize = 0;
        assert(located.take(0) =~= Seq::empty());
        assert(qr_row_views(rows@) =~= Seq::empty());
        while n < raw.len()
            invariant
                self.wf(),
                n <= raw@.len(),
                located == raw@.map_values(|x: (u32, Key2)| time_part(x)),
                qr_row_views(rows@) == found_pairs(self.live@, self.epochs@, f.status, None, located.take(n as int)),
            decreases raw@.len() - n,
        {
            let k = raw[n].1;
            assert(located.take(n + 1).drop_last() =~= located.take(n as int));
            assert(located.take(n + 1).last() == (k.a, k.b));
            let ghost before = rows@;
            if let Some(row) = self.found(f.status, None, k.a, k.b) {
                rows.push(row);
                assert(qr_row_views(rows@) =~= qr_row_views(before).push(row@));
            }
            n += 1;
        }
        assert(located.take(raw@.len() as int) =~= located);
        paged(&raw, rows, page.limit)
    }
}

impl<'a> QuerySession<'a> {
    /// The targets give epochs in order, with finitely many rows each.
    proof fn lemma_shards(&self)
        requires
            self.wf(),
        ensures
            shards_ok(conn_shards(self.epoch_list(), self.target_list())),
            shards_ok(time_shards(self.epoch_list(), self.target_list())),
            shards_ok(record_shards(self.epoch_list(), self.target_list())),
    {
        let (es, ts) = (self.epochs@, self.targets@);
        assert forall|i: int, j: int| 0 <= i < j < ts.len() implies (#[trigger] ts[i]).num < (#[trigger] ts[j]).num by {
            assert(ts[i].slot < ts[j].slot);
            assert(es[ts[i].slot as int].num < es[ts[j].slot as int].num);
        }
        assert forall|i: int| 0 <= i < ts.len() implies es[(#[trigger] ts[i]).slot as int].plane@.conn_qr.dom().finite()
            && es[ts[i].slot as int].plane@.qr_time.dom().finite() && es[ts[i].slot as int].plane@.record_ts.dom().finite() by {
            let e = es[ts[i].slot as int];
            assert(e.plane.wf());
            e.plane.conn_qr.lemma_finite();
            e.plane.qr_time.lemma_finite();
            e.plane.record_ts.lemma_finite();
        }
        let (a, b, c) = (conn_shards(es, ts), time_shards(es, ts), record_shards(es, ts));
        assert forall|i: int, j: int| 0 <= i < j < a.len() implies (#[trigger] a[i]).0 < (#[trigger] a[j]).0 by {
            assert(ts[i].num < ts[j].num);
        }
        assert forall|i: int, j: int| 0 <= i < j < b.len() implies (#[trigger] b[i]).0 < (#[trigger] b[j]).0 by {
            assert(ts[i].num < ts[j].num);
        }
        assert forall|i: int, j: int| 0 <= i < j < c.len() implies (#[trigger] c[i]).0 < (#[trigger] c[j]).0 by {
            assert(ts[i].num < ts[j].num);
        }
        assert forall|i: int| 0 <= i < a.len() implies (#[trigger] a[i]).1.finite() by {
            assert(es[ts[i].slot as int].plane@.conn_qr.dom().finite());
        }
        assert forall|i: int| 0 <= i < b.len() implies (#[trigger] b[i]).1.finite() by {
            assert(es[ts[i].slot as int].plane@.conn_qr.dom().finite());
        }
        assert forall|i: int| 0 <= i < c.len() implies (#[trigger] c[i]).1.finite() by {
            assert(es[ts[i].slot as int].plane@.conn_qr.dom().finite());
        }
    }

    /// The record row of a raw row.
    fn record_row(&self, num: u32, k: Key2) -> (r: RecordRow)
        requires
            self.wf(),
            exists|j: int|
                0 <= j < self.target_list().len() && (#[trigger] self.target_list()[j]).num == num
                    && self.epoch_list()[self.target_list()[j].slot as int].plane@.record_ts.contains_key(k),
        ensures
            r == (RecordRow { ts_ns: k.a, packet_idx: k.b, summary: summary_in(self.epoch_list(), self.target_list(), num, k) }),
    {
        let ghost (es, ts) = (self.epochs@, self.targets@);
        let ghost w = choose|j: int| 0 <= j < ts.len() && (#[trigger] ts[j]).num == num && es[ts[j].slot as int].plane@.record_ts.contains_key(k);
        let mut i: usize = 0;
        while i < self.targets.len() && self.targets[i].num != num
            invariant
                i <= self.targets@.len(),
                ts == self.targets@,
                0 <= w < ts.len(),
                ts[w].num == num,
                i <= w,
            decreases self.targets@.len() - i,
        {
            i += 1;
        }
        proof {
            let c = choose|c: int| 0 <= c < ts.len() && (#[trigger] ts[c]).num == num;
            assert(ts[i as int].num == num);
            self.lemma_one_target(i as int, w);
            self.lemma_one_target(i as int, c);
            assert(ts[i as int].slot < es.len());
            assert(es[ts[i as int].slot as int].plane.wf());
        }
        let slot: usize = self.targets[i].slot;
        let summary: RecordSummary = match self.epochs[slot].plane.record_ts.get(&k) {
            Some(s) => *s,
            None => {
                assert(false);
                RecordSummary::default()
            },
        };
        RecordRow { ts_ns: k.a, packet_idx: k.b, summary }
    }

    /// A number names one target.
    proof fn lemma_one_target(&self, i: int, j: int)
        requires
            self.wf(),
            0 <= i < self.target_list().len(),
            0 <= j < self.target_list().len(),
            self.target_list()[i].num == self.target_list()[j].num,
        ensures
            i == j,
    {
        let (es, ts) = (self.epochs@, self.targets@);
        if i < j {
            assert(ts[i].slot < ts[j].slot);
            assert(es[ts[i].slot as int].num < es[ts[j].slot as int].num);
        } else if j < i {
            assert(ts[j].slot < ts[i].slot);
            assert(es[ts[j].slot as int].num < es[ts[i].slot as int].num);
        }
    }

    /// The record tables of the targets.
    fn record_tables(&self) -> (tables: Vec<(u32, &Table<Key2, RecordSummary>)>)
        requires
            self.wf(),
        ensures
            forall|j: int| 0 <= j < tables@.len() ==> (#[trigger] tables@[j]).1.wf(),
            shards_of(tables@) == record_shards(self.epoch_list(), self.target_list()),
    {
        let mut tables: Vec<(u32, &Table<Key2, RecordSummary>)> = Vec::new();
        let mut i: usize = 0;
        while i < self.targets.len()
            invariant
                self.wf(),
                i <= self.targets@.len(),
                tables@.len() == i,
                forall|j: int| 0 <= j < i ==> (#[trigger] tables@[j]).1.wf(),
                shards_of(tables@) == record_shards(self.epochs@, self.targets@).take(i as int),
            decreases self.targets@.len() - i,
        {
            let t = self.targets[i];
            assert(self.targets@[i as int].slot < self.epochs@.len());
            assert(self.epochs@[t.slot as int].plane.wf());
            tables.push((t.num, &self.epochs[t.slot].plane.record_ts));
            assert(shards_of(tables@) =~= record_shards(self.epochs@, self.targets@).take(i + 1));
            i += 1;
        }
        assert(shards_of(tables@) =~= record_shards(self.epochs@, self.targets@));
        tables
    }

    /// The record rows of the first raw rows of a scan.
    fn rows_of(&self, raw: &Vec<(u32, Key2)>, Ghost(all): Ghost<Seq<(u32, Key2)>>, Ghost(q): Ghost<(Key2, Key2, Option<Seq<u8>>, bool)>) -> (rows: Vec<
        RecordRow,
    >)
        requires
            self.wf(),
            all == all_rows(record_shards(self.epoch_list(), self.target_list()), q.0, q.1, q.2, q.3),
            raw@.len() <= all.len(),
            raw@ == all.take(raw@.len() as int),
        ensures
            rows@ == record_rows(self.epoch_list(), self.target_list(), raw@),
    {
        proof {
            self.lemma_shards();
        }
        let mut rows: Vec<RecordRow> = Vec::new();
        let mut n: usize = 0;
        let ghost want = record_rows(self.epochs@, self.targets@, raw@);
        let ghost shards = record_shards(self.epochs@, self.targets@);
        while n < raw.len()
            invariant
                self.wf(),
                n <= raw@.len(),
                shards == record_shards(self.epochs@, self.targets@),
                shards_ok(shards),
                all == all_rows(shards, q.0, q.1, q.2, q.3),
                raw@.len() <= all.len(),
                raw@ == all.take(raw@.len() as int),
                want == record_rows(self.epochs@, self.targets@, raw@),
                rows@ == want.take(n as int),
            decreases raw@.len() - n,
        {
            let (num, k) = raw[n];
            proof {
                assert(all[n as int] == (num, k));
                lemma_row_source(shards, q.0, q.1, q.2, q.3, n as int);
                let j = choose|j: int| 0 <= j < shards.len() && (#[trigger] shards[j]).0 == num && shards[j].1.contains(k);
                let t = self.target_list()[j];
                assert(t.num == num && self.epoch_list()[t.slot as int].plane@.record_ts.contains_key(k));
            }
            rows.push(self.record_row(num, k));
            assert(rows@ =~= want.take(n + 1));
            n += 1;
        }
        assert(want.take(raw@.len() as int) =~= want);
        rows
    }

    /// One page of a scan of records.
    pub fn scan_records(&self, f: &RecordFilter, page: &Page) -> (p: PageRows<RecordRow>)
        requires
            self.wf(),
        ensures
            ({
                let raw = first_page(
                    record_scan(self.epoch_list(), self.target_list(), f.start_ts, f.end_ts, cursor_view(page.cursor), page.forward),
                    page.limit,
                );
                &&& p.rows@ == record_rows(self.epoch_list(), self.target_list(), raw)
                &&& p.has_more == (raw.len() >= page.limit && raw.len() > 0)
                &&& cursor_view(p.next_cursor) == cursor_after(raw)
            }),
    {
        let (lo, hi) = ts_bounds(f.start_ts, f.end_ts);
        let tables = self.record_tables();
        let raw = page_rows_epochs(&tables, &lo, &hi, &page.cursor, page.forward, page.limit);
        let ghost all = record_scan(self.epochs@, self.targets@, f.start_ts, f.end_ts, cursor_view(page.cursor), page.forward);
        assert(raw@ =~= all.take(raw@.len() as int));
        let rows = self.rows_of(&raw, Ghost(all), Ghost((lo, hi, cursor_view(page.cursor), page.forward)));
        paged(&raw, rows, page.limit)
    }

    /// Every record of a window, epoch by epoch and within an epoch in order of time.
    pub fn replay(&self, start_ts: Option<u64>, end_ts: Option<u64>) -> (rows: Vec<RecordRow>)
        requires
            self.wf(),
        ensures
            rows@ == record_rows(
                self.epoch_list(),
                self.target_list(),
                record_scan(self.epoch_list(), self.target_list(), start_ts, end_ts, None, true),
            ),
    {
        let (lo, hi) = ts_bounds(start_ts, end_ts);
        let tables = self.record_tables();
        let ghost all = record_scan(self.epochs@, self.targets@, start_ts, end_ts, None, true);
        let ghost es = self.epochs@;
        let ghost ts = self.targets@;
        proof {
            self.lemma_shards();
        }
        let mut page = Page { cursor: None, limit: 4096, forward: true };
        let mut out: Vec<RecordRow> = Vec::new();
        let ghost mut done: int = 0;
        assert(all.skip(0) =~= all);
        assert(out@ =~= record_rows(es, ts, all.take(0)));
        let f = RecordFilter { start_ts, end_ts };
        loop
            invariant_except_break
                self.wf(),
                es == self.epoch_list(),
                ts == self.target_list(),
                f.start_ts == start_ts,
                f.end_ts == end_ts,
                all == record_scan(es, ts, start_ts, end_ts, None, true),
                shards_ok(record_shards(es, ts)),
                page.limit == 4096,
                page.forward,
                0 <= done <= all.len(),
                record_scan(es, ts, start_ts, end_ts, cursor_view(page.cursor), true) == all.skip(done),
                out@ == record_rows(es, ts, all.take(done)),
            ensures
                out@ == record_rows(es, ts, all),
            decreases all.len() - done,
        {
            let p = self.scan_records(&f, &page);
            let ghost raw = first_page(all.skip(done), 4096);
            let mut rows = p.rows;
            let ghost out0 = out@;
            out.append(&mut rows);
            proof {
                lemma_next_page(
                    record_shards(es, ts),
                    time_lo(start_ts),
                    time_hi(end_ts),
                    cursor_view(page.cursor),
                    all,
                    done,
                    4096,
                );
                assert(out@ =~= record_rows(es, ts, all.take(done + raw.len())));
            }
            if !p.has_more {
                assert(all.take(done + raw.len()) =~= all);
                break;
            }
            proof {
                done = done + raw.len();
            }
            page.cursor = p.next_cursor;
        }
        out
    }
}

proof fn lemma_found_concat(live: LiveView, epochs: Seq<Epoch>, status: Option<QrStatus>, conn: Option<u64>, a: Seq<(u64, u64)>, b: Seq<(u64, u64)>)
    ensures
        found_pairs(live, epochs, status, conn, a + b) == found_pairs(live, epochs, status, conn, a) + found_pairs(
            live,
            epochs,
            status,
            conn,
            b,
        ),
    decreases b.len(),
{
    if b.len() == 0 {
        assert(a + b =~= a);
    } else {
        assert((a + b).drop_last() =~= a + b.drop_last());
        assert((a + b).last() == b.last());
        lemma_found_concat(live, epochs, status, conn, a, b.drop_last());
    }
    assert(found_pairs(live, epochs, status, conn, a + b) =~= found_pairs(live, epochs, status, conn, a) + found_pairs(
        live,
        epochs,
        status,
        conn,
        b,
    ));
}

/// What every page of a query together locates.
pub open spec fn query_located(epochs: Seq<Epoch>, ts: Seq<EpochTarget>, f: QrFilter) -> Seq<(u64, u64)> {
    match f.conn_hash {
        Some(ch) => conn_scan(epochs, ts, ch, f, None, true).map_values(|x: (u32, Key3)| conn_part(x)),
        None => time_scan(epochs, ts, f, None, true).map_values(|x: (u32, Key2)| time_part(x)),
    }
}

proof fn lemma_pair_found(epochs: Seq<Epoch>, n: int, idx: u64)
    requires
        0 <= n <= epochs.len(),
        pair_in(epochs.take(n), idx) is Some,
    ensures
        pair_in(epochs, idx) == pair_in(epochs.take(n), idx),
    decreases epochs.len() - n,
{
    if n == epochs.len() {
        assert(epochs.take(n) =~= epochs);
    } else {
        assert(epochs.take(n + 1).drop_last() =~= epochs.take(n));
        lemma_pair_found(epochs, n + 1, idx);
    }
}

impl<'a> QuerySession<'a> {
    /// Every pair that a query wants, page after page: by connection where one is given, else by time.
    pub fn stream_qrs(&self, f: &QrFilter) -> (rows: Vec<QrIndexRow>)
        requires
            self.wf(),
        ensures
            qr_row_views(rows@) == found_pairs(
                self.live_view(),
                self.epoch_list(),
                f.status,
                f.conn_hash,
                query_located(self.epoch_list(), self.target_list(), *f),
            ),
    {
        match f.conn_hash {
            Some(ch) => self.stream_conn(f, ch),
            None => self.stream_time(f),
        }
    }

    fn stream_conn(&self, f: &QrFilter, ch: u64) -> (out: Vec<QrIndexRow>)
        requires
            self.wf(),
            f.conn_hash == Some(ch),
        ensures
            qr_row_views(out@) == found_pairs(
                self.live_view(),
                self.epoch_list(),
                f.status,
                f.conn_hash,
                query_located(self.epoch_list(), self.target_list(), *f),
            ),
    {
        let ghost (lv, es, ts) = (self.live@, self.epochs@, self.targets@);
        let ghost all = conn_scan(es, ts, ch, *f, None, true);
        let ghost part = |x: (u32, Key3)| conn_part(x);
        proof {
            self.lemma_shards();
        }
        let mut page = Page::default();
        let mut out: Vec<QrIndexRow> = Vec::new();
        let ghost mut done: int = 0;
        assert(all.skip(0) =~= all);
        assert(all.take(0).map_values(part) =~= Seq::empty());
        assert(qr_row_views(out@) =~= found_pairs(lv, es, f.status, Some(ch), all.take(0).map_values(part)));
        loop
            invariant_except_break
                self.wf(),
                lv == self.live_view(),
                es == self.epoch_list(),
                ts == self.target_list(),
                f.conn_hash == Some(ch),
                part == (|x: (u32, Key3)| conn_part(x)),
                all == conn_scan(es, ts, ch, *f, None, true),
                shards_ok(conn_shards(es, ts)),
                page.limit == 100,
                page.forward,
                0 <= done <= all.len(),
                conn_scan(es, ts, ch, *f, cursor_view(page.cursor), true) == all.skip(done),
                qr_row_views(out@) == found_pairs(lv, es, f.status, Some(ch), all.take(done).map_values(part)),
            ensures
                qr_row_views(out@) == found_pairs(lv, es, f.status, Some(ch), all.map_values(part)),
            decreases all.len() - done,
        {
            let p = match self.scan_conn_qr(f, &page) {
                Ok(p) => p,
                Err(_) => {
                    assert(false);
                    break;
                },
            };
            let ghost raw = first_page(all.skip(done), 100);
            let mut rows = p.rows;
            let ghost out0 = out@;
            let ghost rows0 = rows@;
            out.append(&mut rows);
            proof {
                assert(qr_row_views(out@) =~= qr_row_views(out0) + qr_row_views(rows0));
                lemma_next_page(
                    conn_shards(es, ts),
                    conn_lo(ch, f.start_ts),
                    conn_hi(ch, f.end_ts),
                    cursor_view(page.cursor),
                    all,
                    done,
                    100,
                );
                assert(all.take(done).map_values(part) + raw.map_values(part) =~= (all.take(done) + raw).map_values(part));
                lemma_found_concat(lv, es, f.status, Some(ch), all.take(done).map_values(part), raw.map_values(part));
            }
            if !p.has_more {
                assert(all.take(done + raw.len()) =~= all);
                break;
            }
            proof {
                done = done + raw.len();
            }
            page.cursor = p.next_cursor;
        }
        out
    }

    fn stream_time(&self, f: &QrFilter) -> (out: Vec<QrIndexRow>)
        requires
            self.wf(),
            f.conn_hash is None,
        ensures
            qr_row_views(out@) == found_pairs(
                self.live_view(),
                self.epoch_list(),
                f.status,
                f.conn_hash,
                query_located(self.epoch_list(), self.target_list(), *f),
            ),
    {
        let ghost (lv, es, ts) = (self.live@, self.epochs@, self.targets@);
        let ghost all = time_scan(es, ts, *f, None, true);
        let ghost part = |x: (u32, Key2)| time_part(x);
        proof {
            self.lemma_shards();
        }
        let mut page = Page::default();
        let mut out: Vec<QrIndexRow> = Vec::new();
        let ghost mut done: int = 0;
        assert(all.skip(0) =~= all);
        assert(all.take(0).map_values(part) =~= Seq::empty());
        assert(qr_row_views(out@) =~= found_pairs(lv, es, f.status, None, all.take(0).map_values(part)));
        loop
            invariant_except_break
                self.wf(),
                lv == self.live_view(),
                es == self.epoch_list(),
                ts == self.target_list(),
                f.conn_hash is None,
                part == (|x: (u32, Key2)| time_part(x)),
                all == time_scan(es, ts, *f, None, true),
                shards_ok(time_shards(es, ts)),
                page.limit == 100,
                page.forward,
                0 <= done <= all.len(),
                time_scan(es, ts, *f, cursor_view(page.cursor), true) == all.skip(done),
                qr_row_views(out@) == found_pairs(lv, es, f.status, None, all.take(done).map_values(part)),
            ensures
                qr_row_views(out@) == found_pairs(lv, es, f.status, None, all.map_values(part)),
            decreases all.len() - done,
        {
            let p = self.scan_time_qr(f, &page);
            let ghost raw = first_page(all.skip(done), 100);
            let mut rows = p.rows;
            let ghost out0 = out@;
            let ghost rows0 = rows@;
            out.append(&mut rows);
            proof {
                assert(qr_row_views(out@) =~= qr_row_views(out0) + qr_row_views(rows0));
                lemma_next_page(
                    time_shards(es, ts),
                    time_lo(f.start_ts),
                    time_hi(f.end_ts),
                    cursor_view(page.cursor),
                    all,
                    done,
                    100,
                );
                assert(all.take(done).map_values(part) + raw.map_values(part) =~= (all.take(done) + raw).map_values(part));
                lemma_found_concat(lv, es, f.status, None, all.take(done).map_values(part), raw.map_values(part));
            }
            if !p.has_more {
                assert(all.take(done + raw.len()) =~= all);
                break;
            }
            proof {
                done = done + raw.len();
            }
            page.cursor = p.next_cursor;
        }
        out
    }
}

/// Every pair that a query wants, over all epochs.
pub fn stream_qrs(live: &LivePlane, epochs: &Vec<Epoch>, current: u32, f: &QrFilter) -> (rows: Vec<QrIndexRow>)
    requires
        live.wf(),
        epochs_ok(epochs@),
    ensures
        qr_row_views(rows@) == found_pairs(
            live@,
            epochs@,
            f.status,
            f.conn_hash,
            query_located(epochs@, all_targets(epochs@, current), *f),
        ),
{
    QuerySession::open(live, epochs, current).stream_qrs(f)
}

/// Every record of a window, over all epochs.
pub fn stream_records(live: &LivePlane, epochs: &Vec<Epoch>, current: u32, f: &RecordFilter) -> (rows: Vec<RecordRow>)
    requires
        live.wf(),
        epochs_ok(epochs@),
    ensures
        ({
            let ts = all_targets(epochs@, current);
            rows@ == record_rows(epochs@, ts, record_scan(epochs@, ts, f.start_ts, f.end_ts, None, true))
        }),
{
    QuerySession::open(live, epochs, current).replay(f.start_ts, f.end_ts)
}

/// Every record of a window, over the epochs that may hold one.
pub fn replay_scan(
    live: &LivePlane,
    epochs: &Vec<Epoch>,
    current: u32,
    boundaries: &Vec<EpochBoundary>,
    start_ts: Option<u64>,
    end_ts: Option<u64>,
) -> (rows: Vec<RecordRow>)
    requires
        live.wf(),
        epochs_ok(epochs@),
    ensures
        ({
            let ts = pruned(all_targets(epochs@, current), boundaries@, start_ts, end_ts);
            rows@ == record_rows(epochs@, ts, record_scan(epochs@, ts, start_ts, end_ts, None, true))
        }),
{
    QuerySession::open_with_window(live, epochs, current, boundaries, start_ts, end_ts).replay(start_ts, end_ts)
}

proof fn lemma_packet_found(epochs: Seq<Epoch>, n: int, idx: u64)
    requires
        0 <= n <= epochs.len(),
        packet_in(epochs.take(n), idx) is Some,
    ensures
        packet_in(epochs, idx) == packet_in(epochs.take(n), idx),
    decreases epochs.len() - n,
{
    if n == epochs.len() {
        assert(epochs.take(n) =~= epochs);
    } else {
        assert(epochs.take(n + 1).drop_last() =~= epochs.take(n));
        lemma_packet_found(epochs, n + 1, idx);
    }
}

/// What a lookup of pairs asks for.
#[derive(Debug, Clone, Copy, PartialEq, Eq)]
pub enum QrPlan {
    /// The pair with this locator.
    ByIdx(u64),
    /// The pair of this packet.
    ByPacket(u64),
    /// A scan.
    Scan(QrFilter),
}

/// Why a lookup of pairs was refused.
#[derive(Debug, Clone, Copy, PartialEq, Eq, Structural)]
pub enum PlanError {
    /// There is no status of this name.
    UnknownStatus,
    /// The connection is not given by a number of at most 64 bits in hexadecimal, with or without `0x`.
    BadConnection,
}

/// The digits of a connection hash: a `0x` in front does not count.
pub open spec fn hash_digits(text: Seq<char>) -> Seq<char> {
    if text.len() >= 2 && text[0] == '0' && text[1] == 'x' {
        text.skip(2)
    } else {
        text
    }
}

/// What the parts of a lookup come to: a locator wins over a packet, and a packet over a scan.
pub open spec fn planned(
    conn: Option<Seq<char>>,
    idx: Option<u64>,
    packet: Option<u64>,
    start_ts: Option<u64>,
    end_ts: Option<u64>,
    status: Option<Seq<char>>,
) -> Result<QrPlan, PlanError> {
    let want = match status {
        Some(name) => status_named(name),
        None => None,
    };
    let hash = match conn {
        Some(text) => parsed(hash_digits(text), 16, u64::MAX as nat),
        None => None,
    };
    if status is Some && want is None {
        Err(PlanError::UnknownStatus)
    } else if idx is Some {
        Ok(QrPlan::ByIdx(idx->0))
    } else if packet is Some {
        Ok(QrPlan::ByPacket(packet->0))
    } else if conn is Some && hash is None {
        Err(PlanError::BadConnection)
    } else {
        Ok(
            QrPlan::Scan(
                QrFilter {
                    conn_hash: match hash {
                        Some(h) => Some(h as u64),
                        None => None,
                    },
                    start_ts,
                    end_ts,
                    status: want,
                },
            ),
        )
    }
}

/// Puts the parts of a lookup together.
pub fn plan_qr(
    conn: Option<&str>,
    idx: Option<u64>,
    packet: Option<u64>,
    start_ts: Option<u64>,
    end_ts: Option<u64>,
    status: Option<&str>,
) -> (r: Result<QrPlan, PlanError>)
    ensures
        r == planned(text_of(conn), idx, packet, start_ts, end_ts, text_of(status)),
{
    let want: Option<QrStatus> = match status {
        Some(name) => match QrStatus::parse(name) {
            Some(s) => Some(s),
            None => {
                return Err(PlanError::UnknownStatus);
            },
        },
        None => None,
    };
    if let Some(q) = idx {
        return Ok(QrPlan::ByIdx(q));
    }
    if let Some(p) = packet {
        return Ok(QrPlan::ByPacket(p));
    }
    let conn_hash: Option<u64> = match conn {
        Some(text) => {
            let cs = chars_of(text);
            let from: usize = if cs.len() >= 2 && cs[0] == '0' && cs[1] == 'x' { 2 } else { 0 };
            let digits = part(&cs, from, cs.len());
            assert(digits@ =~= hash_digits(text@));
            match parse_unsigned(&digits, 16, 0xffff_ffff_ffff_ffff) {
                Some(h) => Some(h),
                None => {
                    return Err(PlanError::BadConnection);
                },
            }
        },
        None => None,
    };
    Ok(QrPlan::Scan(QrFilter { conn_hash, start_ts, end_ts, status: want }))
}

} // verus!
