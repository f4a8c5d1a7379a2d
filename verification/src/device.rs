//! What befalls connections from outside their packets.
//!
//! A segment that was passed over is data lost on every connection that the device has under way. A
//! quarantined device will send no answers, and neither will a connection that has been idle for too long:
//! what such connections still wait for is given up.

use crate::anomaly::{nanos, to_nanos, ANOM_QR_UNMATCHED};
use crate::connection::anomaly;
use crate::connection::{conn_hash, conn_hash_of, ConnState, ConnStateKind};
use crate::db::{QrStatus, U48_MAX};
use crate::ledger::{anomaly_views, AnomalyEvent, AnomalyView};
use crate::matching::{close_all, conn_event, pending_upto, sat_sub, Outcome};
use crate::plane::{LiveView, Planes, PlanesView};
use crate::qr::{make_event, push_event, How};
use crate::table::scan;
use vstd::prelude::*;

verus! {

/// Whether a connection is one of a device: its hash starts from the device.
pub open spec fn belongs(h: u64, st: ConnState, dev: u32) -> bool {
    h == conn_hash_of(dev, st.client_ip, st.client_port, st.server_ip, st.server_port, st.proto)
}

/// Whether a connection is over: closed, reset or timed out.
pub open spec fn is_over(st: ConnState) -> bool {
    ||| st.state == ConnStateKind::Closed.code()
    ||| st.state == ConnStateKind::Reset.code()
    ||| st.state == ConnStateKind::Timeout.code()
}

/// The connections that a device has under way.
pub open spec fn under_way(conns: Map<u64, ConnState>, dev: u32, h: u64) -> bool {
    conns.contains_key(h) && belongs(h, conns[h], dev) && !is_over(conns[h])
}

/// A connection with data missing.
pub open spec fn incomplete(st: ConnState) -> ConnState {
    ConnState { anomaly_flags: st.anomaly_flags | anomaly::INCOMPLETE, ..st }
}

/// The planes after a device lost a segment: each connection that it has under way is marked.
pub open spec fn segment_lost(pl: PlanesView, dev: u32) -> PlanesView {
    PlanesView {
        live: LiveView {
            conns: Map::new(
                |h: u64| pl.live.conns.contains_key(h),
                |h: u64| if under_way(pl.live.conns, dev, h) {
                    incomplete(pl.live.conns[h])
                } else {
                    pl.live.conns[h]
                },
            ),
            ..pl.live
        },
        ..pl
    }
}

/// Why connections end though no packet ends them.
#[derive(Debug, Clone, Copy, PartialEq, Eq, Structural)]
pub enum Cause {
    /// The device was quarantined.
    Quarantine { dev_id: u32 },
    /// No packet for this long.
    Idle { wait_ns: u64 },
}

/// Whether a connection ends for a cause at `now`: it is under way on the quarantined device, or neither
/// over nor in quarantine and idle for too long.
pub open spec fn concerns(cause: Cause, conns: Map<u64, ConnState>, now: u64, h: u64) -> bool {
    match cause {
        Cause::Quarantine { dev_id } => under_way(conns, dev_id, h),
        Cause::Idle { wait_ns } => {
            &&& conns.contains_key(h)
            &&& !is_over(conns[h])
            &&& conns[h].state != ConnStateKind::Quarantined.code()
            &&& conns[h].last_ts + wait_ns <= now
        },
    }
}

/// How the requests of such a connection end.
pub open spec fn request_end(cause: Cause) -> QrStatus {
    match cause {
        Cause::Quarantine { dev_id } => QrStatus::AbortedResource,
        Cause::Idle { wait_ns } => QrStatus::Unmatched,
    }
}

/// The connection at its end, `n` of its requests given up.
pub open spec fn conn_end(cause: Cause, st: ConnState, n: nat) -> ConnState {
    let s = ConnState { qr_open: sat_sub(st.qr_open, n), ..st };
    match cause {
        Cause::Quarantine { dev_id } => ConnState {
            state: ConnStateKind::Quarantined.code(),
            anomaly_flags: st.anomaly_flags | anomaly::CONN_OOO_FLOOD,
            ..s
        },
        Cause::Idle { wait_ns } => ConnState {
            state: ConnStateKind::Timeout.code(),
            anomaly_flags: if n > 0 {
                st.anomaly_flags | anomaly::QR_UNMATCHED
            } else {
                st.anomaly_flags
            },
            ..s
        },
    }
}

/// What is audited: every connection in quarantine, and an idle one if requests of it were given up.
pub open spec fn end_events(cause: Cause, now: u64, h: u64, n: nat) -> Seq<AnomalyView> {
    match cause {
        Cause::Quarantine { dev_id } => seq![conn_event(now, ANOM_QR_UNMATCHED, h, "CONN_OOO_FLOOD pending="@, n)],
        Cause::Idle { wait_ns } => if n > 0 {
            seq![conn_event(now, ANOM_QR_UNMATCHED, h, "CONN_TIMEOUT pending="@, n)]
        } else {
            Seq::empty()
        },
    }
}

/// The planes with their audit events.
pub struct Ended {
    pub pl: PlanesView,
    pub events: Seq<AnomalyView>,
}

/// The end of one connection: all pending requests of its current incarnation are finished.
pub open spec fn ended(pl: PlanesView, cause: Cause, now: u64, h: u64) -> Ended {
    let st = pl.live.conns[h];
    let keys = pending_upto(pl.live.pending, h, st.incarnation, U48_MAX);
    let q = close_all(pl, keys, Outcome::Closed { status: request_end(cause) }, keys.len());
    Ended {
        pl: PlanesView { live: LiveView { conns: q.live.conns.insert(h, conn_end(cause, st, keys.len())), ..q.live }, ..q },
        events: end_events(cause, now, h, keys.len()),
    }
}

/// The end of those of the first `n` connections `hs` that the cause concerns.
pub open spec fn ended_upto(pl: PlanesView, hs: Seq<u64>, cause: Cause, now: u64, n: nat) -> Ended
    decreases n,
{
    if n == 0 {
        Ended { pl, events: Seq::empty() }
    } else {
        let before = ended_upto(pl, hs, cause, now, (n - 1) as nat);
        let h = hs[n - 1];
        if concerns(cause, before.pl.live.conns, now, h) {
            let one = ended(before.pl, cause, now, h);
            Ended { pl: one.pl, events: before.events + one.events }
        } else {
            before
        }
    }
}

/// All connections, in order.
pub open spec fn all_conns(pl: PlanesView) -> Seq<u64> {
    scan(pl.live.conns.dom(), 0u64, u64::MAX)
}

/// The end of every connection that the cause concerns.
pub open spec fn all_ended(pl: PlanesView, cause: Cause, now: u64) -> Ended {
    ended_upto(pl, all_conns(pl), cause, now, all_conns(pl).len())
}

/// Whether a connection is over.
fn over(st: &ConnState) -> (b: bool)
    ensures
        b == is_over(*st),
{
    st.state == ConnStateKind::Closed.as_u8() || st.state == ConnStateKind::Reset.as_u8() || st.state == ConnStateKind::Timeout.as_u8()
}

/// The state of a connection that a device has under way.
fn find_under_way(planes: &Planes, dev_id: u32, h: u64) -> (r: Option<ConnState>)
    requires
        planes.wf(),
    ensures
        r == if under_way(planes@.live.conns, dev_id, h) {
            Some(planes@.live.conns[h])
        } else {
            None
        },
{
    match planes.live.conns.get(&h) {
        Some(st) => {
            if !over(st) && h == conn_hash(dev_id, st.client_ip, st.client_port, st.server_ip, st.server_port, st.proto) {
                Some(*st)
            } else {
                None
            }
        },
        None => None,
    }
}

/// Marks the connections that a device has under way as incomplete: one of its segments was passed over.
pub fn mark_incomplete(planes: &mut Planes, dev_id: u32)
    requires
        old(planes).wf(),
    ensures
        final(planes).wf(),
        final(planes)@ == segment_lost(old(planes)@, dev_id),
{
    let hs = planes.live.conns.range(&0u64, &0xffff_ffff_ffff_ffffu64);
    let ghost p0 = planes@;
    let ghost want = segment_lost(p0, dev_id).live.conns;
    let mut i: usize = 0;
    while i < hs.len()
        invariant
            i <= hs@.len(),
            planes.wf(),
            planes@ == (PlanesView { live: LiveView { conns: planes@.live.conns, ..p0.live }, ..p0 }),
            planes@.live.conns.dom() == p0.live.conns.dom(),
            want == segment_lost(p0, dev_id).live.conns,
            forall|j: int| 0 <= j < hs@.len() ==> p0.live.conns.dom().contains(#[trigger] hs@[j]),
            forall|j: int, k: int| 0 <= j < k < hs@.len() ==> hs@[j] != hs@[k],
            forall|j: int| 0 <= j < i ==> planes@.live.conns[#[trigger] hs@[j]] == want[hs@[j]],
            forall|j: int| i <= j < hs@.len() ==> planes@.live.conns[#[trigger] hs@[j]] == p0.live.conns[hs@[j]],
        decreases hs@.len() - i,
    {
        let h: u64 = hs[i];
        let ghost before = planes@;
        assert(p0.live.conns.dom().contains(hs@[i as int]));
        assert(before.live.conns.dom().contains(h));
        let found = find_under_way(planes, dev_id, h);
        if let Some(s) = found {
            let mut st = s;
            st.anomaly_flags = st.anomaly_flags | anomaly::INCOMPLETE;
            planes.live.conns.put(h, st);
            assert(planes@ =~= (PlanesView {
                live: LiveView { conns: before.live.conns.insert(h, st), ..before.live },
                ..before
            }));
            assert(planes@.live.conns.dom() =~= p0.live.conns.dom());
        }
        assert(planes@.live.conns[h] == want[h]);
        i += 1;
    }
    proof {
        assert forall|h: u64| p0.live.conns.contains_key(h) implies planes@.live.conns[h] == want[h] by {
            assert(p0.live.conns.dom().contains(h));
            assert(hs@.contains(h));
            let j = choose|j: int| 0 <= j < hs@.len() && hs@[j] == h;
            assert(planes@.live.conns[hs@[j]] == want[hs@[j]]);
        }
        assert(planes@.live.conns =~= want);
        assert(planes@ =~= segment_lost(p0, dev_id));
    }
}

/// The state of a connection that a cause concerns.
fn find_concerned(planes: &Planes, cause: Cause, now_ns: u64, h: u64) -> (r: Option<ConnState>)
    requires
        planes.wf(),
    ensures
        r == if concerns(cause, planes@.live.conns, now_ns, h) {
            Some(planes@.live.conns[h])
        } else {
            None
        },
{
    match cause {
        Cause::Quarantine { dev_id } => find_under_way(planes, dev_id, h),
        Cause::Idle { wait_ns } => match planes.live.conns.get(&h) {
            Some(st) => {
                if !over(st) && st.state != ConnStateKind::Quarantined.as_u8() && st.last_ts <= now_ns && wait_ns <= now_ns - st.last_ts {
                    Some(*st)
                } else {
                    None
                }
            },
            None => None,
        },
    }
}

/// Ends one connection.
fn end_conn(planes: &mut Planes, cause: Cause, now_ns: u64, h: u64, state: ConnState, events: &mut Vec<AnomalyEvent>)
    requires
        old(planes).wf(),
        old(planes)@.live.conns.contains_key(h),
        state == old(planes)@.live.conns[h],
    ensures
        final(planes).wf(),
        final(planes)@ == ended(old(planes)@, cause, now_ns, h).pl,
        anomaly_views(final(events)@) == anomaly_views(old(events)@) + ended(old(planes)@, cause, now_ns, h).events,
{
    assert(anomaly_views(events@) =~= anomaly_views(events@) + Seq::<AnomalyView>::empty());
    let mut st = state;
    let keys = planes.scan_pending_upto(h, st.incarnation, U48_MAX);
    let n: u64 = keys.len() as u64;
    st.qr_open = st.qr_open.saturating_sub(n);
    match cause {
        Cause::Quarantine { dev_id: _ } => {
            planes.close_all(&keys, &How::Closed { status: QrStatus::AbortedResource });
            st.state = ConnStateKind::Quarantined.as_u8();
            st.anomaly_flags = st.anomaly_flags | anomaly::CONN_OOO_FLOOD;
            push_event(events, make_event(now_ns, ANOM_QR_UNMATCHED, h, "CONN_OOO_FLOOD pending=", n));
        },
        Cause::Idle { wait_ns: _ } => {
            planes.close_all(&keys, &How::Closed { status: QrStatus::Unmatched });
            st.state = ConnStateKind::Timeout.as_u8();
            if n > 0 {
                st.anomaly_flags = st.anomaly_flags | anomaly::QR_UNMATCHED;
                push_event(events, make_event(now_ns, ANOM_QR_UNMATCHED, h, "CONN_TIMEOUT pending=", n));
            }
        },
    }
    planes.live.conns.put(h, st);
    assert(planes@ =~= ended(old(planes)@, cause, now_ns, h).pl);
    assert(anomaly_views(events@) =~= anomaly_views(old(events)@) + ended(old(planes)@, cause, now_ns, h).events);
}

/// Ends every connection that a cause concerns.
fn end_conns(planes: &mut Planes, cause: Cause, now_ns: u64) -> (events: Vec<AnomalyEvent>)
    requires
        old(planes).wf(),
    ensures
        final(planes).wf(),
        final(planes)@ == all_ended(old(planes)@, cause, now_ns).pl,
        anomaly_views(events@) == all_ended(old(planes)@, cause, now_ns).events,
{
    let mut events: Vec<AnomalyEvent> = Vec::new();
    assert(anomaly_views(events@) =~= Seq::<AnomalyView>::empty());
    let hs = planes.live.conns.range(&0u64, &0xffff_ffff_ffff_ffffu64);
    let ghost p0 = planes@;
    let mut i: usize = 0;
    while i < hs.len()
        invariant
            i <= hs@.len(),
            planes.wf(),
            hs@ == all_conns(p0),
            planes@ == ended_upto(p0, hs@, cause, now_ns, i as nat).pl,
            anomaly_views(events@) == ended_upto(p0, hs@, cause, now_ns, i as nat).events,
        decreases hs@.len() - i,
    {
        let h: u64 = hs[i];
        let found = find_concerned(planes, cause, now_ns, h);
        if let Some(st) = found {
            end_conn(planes, cause, now_ns, h, st, &mut events);
        }
        i += 1;
    }
    events
}

/// Puts the connections that a device has under way in quarantine and aborts their pending requests for
/// want of resources. Returns one audit event per connection.
pub fn quarantine_device(planes: &mut Planes, dev_id: u32, now_ns: u64) -> (events: Vec<AnomalyEvent>)
    requires
        old(planes).wf(),
    ensures
        final(planes).wf(),
        final(planes)@ == all_ended(old(planes)@, Cause::Quarantine { dev_id }, now_ns).pl,
        anomaly_views(events@) == all_ended(old(planes)@, Cause::Quarantine { dev_id }, now_ns).events,
{
    end_conns(planes, Cause::Quarantine { dev_id }, now_ns)
}

/// Times out the connections that have been idle for a number of seconds; their pending requests end
/// unmatched. A wait of zero turns this off. Returns one audit event per connection with such requests.
pub fn expire_idle(planes: &mut Planes, now_ns: u64, conn_idle_timeout_secs: u64) -> (events: Vec<AnomalyEvent>)
    requires
        old(planes).wf(),
    ensures
        final(planes).wf(),
        ({
            let out = all_ended(old(planes)@, Cause::Idle { wait_ns: nanos(conn_idle_timeout_secs) }, now_ns);
            if conn_idle_timeout_secs == 0 {
                final(planes)@ == old(planes)@ && events@.len() == 0
            } else {
                final(planes)@ == out.pl && anomaly_views(events@) == out.events
            }
        }),
{
    if conn_idle_timeout_secs == 0 {
        return Vec::new();
    }
    end_conns(planes, Cause::Idle { wait_ns: to_nanos(conn_idle_timeout_secs) }, now_ns)
}

} // verus!
