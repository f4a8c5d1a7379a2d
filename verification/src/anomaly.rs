//! Timeouts: requests that waited too long for their response.
//!
//! The timeout index is ordered by the time of the request, so one scan up to the shortest timeout finds
//! every candidate. A FIN that was seen after a request shortens its wait.

use crate::codec::{be, push_be};
use crate::connection::anomaly;
use crate::connection::{zero_state, ConnState};
use crate::db::{QrStatus, U48_MAX};
use crate::ledger::{anomaly_views, AnomalyEvent, AnomalyView};
use crate::matching::{finish_pair, sat_add, sat_sub, Outcome};
use crate::plane::{LiveView, PendingVal, Planes, PlanesView};
use crate::qr::How;
use crate::table::{scan, Key2, PendingKey, Table};
use crate::text::{dec, push_dec};
use vstd::prelude::*;
use vstd::string::*;

verus! {

pub const ANOM_EPOCH_REBIRTH: i64 = 10;

pub const ANOM_CONN_RST: i64 = 11;

pub const ANOM_QR_TIMEOUT: i64 = 12;

pub const ANOM_QR_UNMATCHED: i64 = 13;

pub const ANOM_QR_RST_ABORT: i64 = 14;

/// Counts of one timeout scan.
#[derive(Debug, Clone, Copy, PartialEq, Eq, Structural)]
pub struct TtlScanStats {
    /// Rows of the timeout index that were looked at.
    pub scanned: u64,
    /// Requests that timed out.
    pub timed_out: u64,
    /// Rows whose request was not open any more.
    pub stale: u64,
    /// Connections whose state was written.
    pub conns_touched: u64,
}

impl Default for TtlScanStats {
    fn default() -> (s: TtlScanStats)
        ensures
            s == (TtlScanStats { scanned: 0, timed_out: 0, stale: 0, conns_touched: 0 }),
    {
        TtlScanStats { scanned: 0, timed_out: 0, stale: 0, conns_touched: 0 }
    }
}

/// Seconds as nanoseconds, at most the largest number.
pub open spec fn nanos(secs: u64) -> u64 {
    if secs * 1_000_000_000 > u64::MAX {
        u64::MAX
    } else {
        (secs * 1_000_000_000) as u64
    }
}

/// The shortest wait: the FIN timeout where it is set and below the general one.
pub open spec fn short_wait(qr_timeout_secs: u64, fin_short_secs: u64) -> u64 {
    if 0 < fin_short_secs < qr_timeout_secs {
        nanos(fin_short_secs)
    } else {
        nanos(qr_timeout_secs)
    }
}

/// When a request of time `q_ts` is due: after the general timeout, or, if a FIN came at or after it,
/// after the short wait from the FIN, whichever is earlier.
pub open spec fn deadline(q_ts: u64, fin_seen: u64, wait: u64, short: u64) -> u64 {
    let base = sat_add(q_ts, wait);
    if fin_seen > 0 && q_ts <= fin_seen && sat_add(fin_seen, short) < base {
        sat_add(fin_seen, short)
    } else {
        base
    }
}

/// The state of a connection; all zero if there is none.
pub open spec fn state_of(conns: Map<u64, ConnState>, h: u64) -> ConnState {
    if conns.contains_key(h) {
        conns[h]
    } else {
        zero_state()
    }
}

/// The first of `keys`, from position `i`, whose pending row is for request `id`.
pub open spec fn row_for(pending: Map<PendingKey, PendingVal>, keys: Seq<PendingKey>, id: u64, i: int) -> Option<PendingKey>
    decreases keys.len() - i,
{
    if i < 0 || i >= keys.len() {
        None
    } else if pending[keys[i]].q_first_idx == id {
        Some(keys[i])
    } else {
        row_for(pending, keys, id, i + 1)
    }
}

/// The pending rows of a connection, in every incarnation.
pub open spec fn rows_of(pending: Map<PendingKey, PendingVal>, h: u64) -> Seq<PendingKey> {
    scan(pending.dom(), PendingKey { conn: h, inc: 0, end: 0 }, PendingKey { conn: h, inc: 0xffff, end: U48_MAX })
}

/// The pending index without the first row of a connection for request `id`.
pub open spec fn without_request(pending: Map<PendingKey, PendingVal>, h: u64, id: u64) -> Map<PendingKey, PendingVal> {
    match row_for(pending, rows_of(pending, h), id, 0) {
        Some(k) => pending.remove(k),
        None => pending,
    }
}

/// The audit event of a timeout.
pub open spec fn timeout_event(now: u64, q_ts: u64, h: u64, id: u64) -> AnomalyView {
    AnomalyView {
        ts: now as i64,
        kind: ANOM_QR_TIMEOUT,
        dev_id: None,
        segment_seq: None,
        conn_hash: Some(be(h as nat, 8)),
        qr_id: Some(id as i64),
        detail: Some("qr_timeout_ms="@ + dec((sat_sub(now, q_ts as nat) / 1_000_000) as nat)),
    }
}

/// Where a scan stands.
pub struct Sweep {
    pub pl: PlanesView,
    pub events: Seq<AnomalyView>,
    pub timed_out: nat,
    pub stale: nat,
}

/// Looks at one row of the timeout index. A row that is not due is left; a row that is due goes, with its
/// pending row, and its request, if it is still open, times out.
pub open spec fn look(s: Sweep, key: Key2, now: u64, wait: u64, short: u64) -> Sweep {
    let id = s.pl.live.ttl[key].q_first_idx;
    let h = key.b;
    let st = state_of(s.pl.live.conns, h);
    if deadline(key.a, st.fin_seen, wait, short) > now {
        Sweep { pl: PlanesView { live: LiveView { conns: s.pl.live.conns.insert(h, st), ..s.pl.live }, ..s.pl }, ..s }
    } else {
        let open = s.pl.live.pairs.contains_key(id) && s.pl.live.pairs[id].status == QrStatus::Pending.code();
        let p = finish_pair(s.pl, id, Outcome::Closed { status: QrStatus::Timeout }, 0);
        Sweep {
            pl: PlanesView {
                live: LiveView {
                    pending: without_request(p.live.pending, h, id),
                    ttl: p.live.ttl.remove(key),
                    conns: p.live.conns.insert(
                        h,
                        if open {
                            ConnState { qr_open: sat_sub(st.qr_open, 1), anomaly_flags: st.anomaly_flags | anomaly::QR_UNMATCHED, ..st }
                        } else {
                            st
                        },
                    ),
                    ..p.live
                },
                ..p
            },
            events: if open {
                s.events.push(timeout_event(now, key.a, h, id))
            } else {
                s.events
            },
            timed_out: if open {
                s.timed_out + 1
            } else {
                s.timed_out
            },
            stale: if open {
                s.stale
            } else {
                s.stale + 1
            },
        }
    }
}

/// The first `n` rows of a scan.
pub open spec fn looked(pl: PlanesView, keys: Seq<Key2>, n: nat, now: u64, wait: u64, short: u64) -> Sweep
    decreases n,
{
    if n == 0 {
        Sweep { pl, events: Seq::empty(), timed_out: 0, stale: 0 }
    } else {
        look(looked(pl, keys, (n - 1) as nat, now, wait, short), keys[n - 1], now, wait, short)
    }
}

/// The rows that can be due at `now`.
pub open spec fn due_rows(pl: PlanesView, now: u64, short: u64) -> Seq<Key2> {
    scan(pl.live.ttl.dom(), Key2 { a: 0, b: 0 }, Key2 { a: sat_sub(now, short as nat), b: u64::MAX })
}

/// A whole scan; a timeout of zero switches it off.
pub open spec fn ttl_scan(pl: PlanesView, now: u64, qr_timeout_secs: u64, fin_short_secs: u64) -> Sweep {
    if qr_timeout_secs == 0 {
        Sweep { pl, events: Seq::empty(), timed_out: 0, stale: 0 }
    } else {
        let short = short_wait(qr_timeout_secs, fin_short_secs);
        let keys = due_rows(pl, now, short);
        looked(pl, keys, keys.len(), now, nanos(qr_timeout_secs), short)
    }
}

pub(crate) fn to_nanos(secs: u64) -> (n: u64)
    ensures
        n == nanos(secs),
{
    match secs.checked_mul(1_000_000_000) {
        Some(n) => n,
        None => 0xffff_ffff_ffff_ffff,
    }
}

fn due_at(q_ts: u64, fin_seen: u64, wait: u64, short: u64) -> (t: u64)
    ensures
        t == deadline(q_ts, fin_seen, wait, short),
{
    let base: u64 = q_ts.saturating_add(wait);
    if fin_seen > 0 && q_ts <= fin_seen {
        let fin: u64 = fin_seen.saturating_add(short);
        if fin < base {
            return fin;
        }
    }
    base
}

/// Removes the pending row of a request; the timeout row does not know its incarnation.
fn cleanup_pending(pending: &mut Table<PendingKey, PendingVal>, h: u64, id: u64)
    requires
        old(pending).wf(),
    ensures
        final(pending).wf(),
        final(pending)@ == without_request(old(pending)@, h, id),
{
    let keys = pending.range(&PendingKey { conn: h, inc: 0, end: 0 }, &PendingKey { conn: h, inc: 0xffff, end: U48_MAX });
    let mut i: usize = 0;
    while i < keys.len()
        invariant
            i <= keys@.len(),
            pending.wf(),
            pending@ == old(pending)@,
            keys@ == rows_of(pending@, h),
            forall|j: int| 0 <= j < keys@.len() ==> pending@.dom().contains(#[trigger] keys@[j]),
            row_for(pending@, keys@, id, 0) == row_for(pending@, keys@, id, i as int),
        decreases keys@.len() - i,
    {
        let found = match pending.get(&keys[i]) {
            Some(v) => v.q_first_idx == id,
            None => false,
        };
        if found {
            pending.delete(&keys[i]);
            return;
        }
        i += 1;
    }
}

fn make_timeout(now: u64, q_ts: u64, h: u64, id: u64) -> (e: AnomalyEvent)
    ensures
        e@ == timeout_event(now, q_ts, h, id),
{
    let mut hash: Vec<u8> = Vec::new();
    push_be(&mut hash, h, 8);
    let mut detail = String::from_str("qr_timeout_ms=");
    push_dec(&mut detail, now.saturating_sub(q_ts) / 1_000_000);
    assert(hash@ =~= be(h as nat, 8));
    AnomalyEvent {
        ts: now as i64,
        kind: ANOM_QR_TIMEOUT,
        dev_id: None,
        segment_seq: None,
        conn_hash: Some(hash),
        qr_id: Some(id as i64),
        detail: Some(detail),
    }
}

/// Times out every open request that is due at `now_ns`, and removes rows left over from requests that
/// are no longer open. Returns one audit event per timeout, and the counts.
pub fn scan_pending_ttl(planes: &mut Planes, now_ns: u64, qr_timeout_secs: u64, fin_short_timeout_secs: u64) -> (r: (
    Vec<AnomalyEvent>,
    TtlScanStats,
))
    requires
        old(planes).wf(),
    ensures
        final(planes).wf(),
        ({
            let s = ttl_scan(old(planes)@, now_ns, qr_timeout_secs, fin_short_timeout_secs);
            let keys = due_rows(old(planes)@, now_ns, short_wait(qr_timeout_secs, fin_short_timeout_secs));
            &&& final(planes)@ == s.pl
            &&& anomaly_views(r.0@) == s.events
            &&& r.1.timed_out == s.timed_out
            &&& r.1.stale == s.stale
            &&& r.1.scanned == if qr_timeout_secs == 0 {
                0
            } else {
                keys.len()
            }
            &&& r.1.conns_touched == if qr_timeout_secs == 0 {
                0
            } else {
                keys.map_values(|k: Key2| k.b).to_set().len()
            }
        }),
{
    let mut stats = TtlScanStats::default();
    let mut events: Vec<AnomalyEvent> = Vec::new();
    assert(anomaly_views(events@) =~= Seq::<AnomalyView>::empty());
    if qr_timeout_secs == 0 {
        return (events, stats);
    }
    let wait: u64 = to_nanos(qr_timeout_secs);
    let short: u64 = if fin_short_timeout_secs > 0 && fin_short_timeout_secs < qr_timeout_secs {
        to_nanos(fin_short_timeout_secs)
    } else {
        wait
    };
    let hi = Key2 { a: now_ns.saturating_sub(short), b: 0xffff_ffff_ffff_ffff };
    let keys = planes.live.ttl.range(&Key2 { a: 0, b: 0 }, &hi);
    let ghost p0 = planes@;
    let ghost conns_of = |k: Key2| k.b;
    stats.scanned = keys.len() as u64;
    let mut touched: Table<u64, u64> = Table::new();
    let mut i: usize = 0;
    assert(touched@.dom() =~= keys@.take(0).map_values(conns_of).to_set());
    while i < keys.len()
        invariant
            i <= keys@.len(),
            planes.wf(),
            touched.wf(),
            short == short_wait(qr_timeout_secs, fin_short_timeout_secs),
            keys@ == due_rows(p0, now_ns, short),
            forall|j: int| i <= j < keys@.len() ==> planes@.live.ttl.contains_key(#[trigger] keys@[j]),
            forall|j: int, k: int| 0 <= j < k < keys@.len() ==> keys@[j] != keys@[k],
            conns_of == |k: Key2| k.b,
            touched@.dom() == keys@.take(i as int).map_values(conns_of).to_set(),
            stats.scanned == keys@.len(),
            stats.conns_touched == 0,
            stats.timed_out <= i,
            stats.stale <= i,
            ({
                let s = looked(p0, keys@, i as nat, now_ns, wait, short);
                &&& planes@ == s.pl
                &&& anomaly_views(events@) == s.events
                &&& stats.timed_out == s.timed_out
                &&& stats.stale == s.stale
            }),
        decreases keys@.len() - i,
    {
        let key = keys[i];
        let h: u64 = key.b;
        let ghost before = looked(p0, keys@, i as nat, now_ns, wait, short);
        let mut st = match planes.live.conns.get(&h) {
            Some(st) => *st,
            None => ConnState::default(),
        };
        if due_at(key.a, st.fin_seen, wait, short) <= now_ns {
            let row = planes.live.ttl.delete(&key);
            if let Some(v) = row {
                let id: u64 = v.q_first_idx;
                let open = match planes.live.pairs.get(&id) {
                    Some(p) => p.status == QrStatus::Pending.as_u8(),
                    None => false,
                };
                planes.finish_pair(id, &How::Closed { status: QrStatus::Timeout }, 0);
                cleanup_pending(&mut planes.live.pending, h, id);
                if open {
                    st.qr_open = st.qr_open.saturating_sub(1);
                    st.anomaly_flags = st.anomaly_flags | anomaly::QR_UNMATCHED;
                    let e = make_timeout(now_ns, key.a, h, id);
                    events.push(e);
                    assert(anomaly_views(events@) =~= before.events.push(e@));
                    stats.timed_out = stats.timed_out + 1;
                } else {
                    stats.stale = stats.stale + 1;
                }
            }
        }
        planes.live.conns.put(h, st);
        touched.put_new(h, 0);
        proof {
            assert(planes@ =~= look(before, key, now_ns, wait, short).pl);
            let a = keys@.take(i as int).map_values(conns_of);
            let b = keys@.take(i + 1).map_values(conns_of);
            assert(b =~= a.push(h));
            assert(b.to_set() =~= a.to_set().insert(h)) by {
                assert forall|x: u64| b.to_set().contains(x) == a.to_set().insert(h).contains(x) by {
                    if a.contains(x) {
                        let j = choose|j: int| 0 <= j < a.len() && a[j] == x;
                        assert(b[j] == x);
                    }
                    assert(b[a.len() as int] == h);
                }
            }
            assert(touched@.dom() =~= b.to_set());
        }
        i += 1;
    }
    assert(keys@.take(i as int) =~= keys@);
    stats.conns_touched = touched.len() as u64;
    (events, stats)
}

} // verus!
