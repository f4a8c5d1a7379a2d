//! Reassembly of segments from chunks that arrive in any order.
//!
//! Data at the cursor of its segment passes straight through; data ahead of the cursor is staged, within
//! budgets that are checked before anything is stored. Every answer to a blown budget is internal: the
//! oldest staged chunk goes, the segment is given up, or the device is quarantined.

use crate::table::{scan, Key2, Key3, Table};
use crate::total::{lemma_total_insert, lemma_total_le, lemma_total_remove, lemma_total_same, lemma_total_zero, total};
use crate::text::copy_range;
use vstd::prelude::*;

pub mod laws;

verus! {

/// Device and segment number.
pub type SegmentKey = (u32, u32);

/// State of a segment.
#[derive(Debug, Clone, Copy, PartialEq, Eq, Structural)]
pub enum SegmentState {
    New,
    Unfinished,
    Sealed,
    Skipped,
    Error,
}

/// What a step of reassembly reports.
#[derive(Debug, Clone, PartialEq, Eq)]
pub enum Event {
    /// Data that continues the segment.
    Append { dev_id: u32, segment_seq: u32, offset: u64, data: Vec<u8> },
    /// A chunk that brought nothing new.
    Dup { dev_id: u32, segment_seq: u32 },
    /// Data is missing from `start_offset` on.
    Gap { dev_id: u32, segment_seq: u32, start_offset: u64 },
    /// The segment is complete.
    Sealed { dev_id: u32, segment_seq: u32, size: u64 },
    /// The segment was sealed, but what arrived does not add up to its size.
    SealGap { dev_id: u32, segment_seq: u32, next_expected: u64, sealed_size: u64 },
    /// A segment number was passed over.
    SeqSkipped { dev_id: u32, segment_seq: u32 },
    /// The segment was given up.
    SegmentError { dev_id: u32, segment_seq: u32, reason: &'static str },
    /// A staged chunk was dropped to make room.
    Evict { dev_id: u32, segment_seq: u32, offset: u64, bytes: u64 },
    /// The device was quarantined.
    Quarantine { dev_id: u32 },
    /// Data of a quarantined device.
    QuarantinedDrop { dev_id: u32, bytes: u64 },
}

/// What an event says.
pub enum EventView {
    Append { dev_id: u32, segment_seq: u32, offset: u64, data: Seq<u8> },
    Dup { dev_id: u32, segment_seq: u32 },
    Gap { dev_id: u32, segment_seq: u32, start_offset: u64 },
    Sealed { dev_id: u32, segment_seq: u32, size: u64 },
    SealGap { dev_id: u32, segment_seq: u32, next_expected: u64, sealed_size: u64 },
    SeqSkipped { dev_id: u32, segment_seq: u32 },
    SegmentError { dev_id: u32, segment_seq: u32, reason: Seq<char> },
    Evict { dev_id: u32, segment_seq: u32, offset: u64, bytes: u64 },
    Quarantine { dev_id: u32 },
    QuarantinedDrop { dev_id: u32, bytes: u64 },
}

impl View for Event {
    type V = EventView;

    open spec fn view(&self) -> EventView {
        match *self {
            Event::Append { dev_id, segment_seq, offset, data } => EventView::Append { dev_id, segment_seq, offset, data: data@ },
            Event::Dup { dev_id, segment_seq } => EventView::Dup { dev_id, segment_seq },
            Event::Gap { dev_id, segment_seq, start_offset } => EventView::Gap { dev_id, segment_seq, start_offset },
            Event::Sealed { dev_id, segment_seq, size } => EventView::Sealed { dev_id, segment_seq, size },
            Event::SealGap { dev_id, segment_seq, next_expected, sealed_size } => EventView::SealGap {
                dev_id,
                segment_seq,
                next_expected,
                sealed_size,
            },
            Event::SeqSkipped { dev_id, segment_seq } => EventView::SeqSkipped { dev_id, segment_seq },
            Event::SegmentError { dev_id, segment_seq, reason } => EventView::SegmentError { dev_id, segment_seq, reason: reason@ },
            Event::Evict { dev_id, segment_seq, offset, bytes } => EventView::Evict { dev_id, segment_seq, offset, bytes },
            Event::Quarantine { dev_id } => EventView::Quarantine { dev_id },
            Event::QuarantinedDrop { dev_id, bytes } => EventView::QuarantinedDrop { dev_id, bytes },
        }
    }
}

/// A list of events by what they say.
pub open spec fn event_views(v: Seq<Event>) -> Seq<EventView> {
    v.map_values(|e: Event| e@)
}

/// Limits on staged data.
#[derive(Debug, Clone, Copy, PartialEq, Eq, Structural)]
pub struct Budgets {
    /// Staged bytes of one segment.
    pub l2_segment_cap: u64,
    /// Staged bytes of one device.
    pub l25_conn_cap: u64,
    /// Staged bytes in all.
    pub l3_global_cap: u64,
    /// Seconds within which evictions of one device count together.
    pub evict_window_secs: u64,
    /// Evictions within the window that lead to quarantine.
    pub evict_threshold: u32,
}

impl Budgets {
    /// Limits from the configuration; a segment limit of zero stands for 8 MB.
    pub fn from_config(
        segment_pending_cap: u64,
        conn_pending_cap_bytes: u64,
        pending_budget_bytes: u64,
        evict_window_secs: u64,
        evict_threshold: u32,
    ) -> (b: Budgets)
        ensures
            b == (Budgets {
                l2_segment_cap: if segment_pending_cap == 0 {
                    8_388_608
                } else {
                    segment_pending_cap
                },
                l25_conn_cap: conn_pending_cap_bytes,
                l3_global_cap: pending_budget_bytes,
                evict_window_secs,
                evict_threshold,
            }),
    {
        Budgets {
            l2_segment_cap: if segment_pending_cap == 0 { 8_388_608 } else { segment_pending_cap },
            l25_conn_cap: conn_pending_cap_bytes,
            l3_global_cap: pending_budget_bytes,
            evict_window_secs,
            evict_threshold,
        }
    }
}

/// One segment under reassembly.
#[derive(Debug, Clone, Copy, PartialEq, Eq, Structural)]
pub struct SegmentBuf {
    pub state: SegmentState,
    /// Everything before this offset has been passed on.
    pub next_expected: u64,
    /// Size given when the segment was sealed.
    pub sealed_size: Option<u64>,
    /// Bytes charged for staged chunks.
    pub pending_bytes: u64,
    pub dup_count: u64,
    pub gap_count: u64,
}

impl View for SegmentBuf {
    type V = SegmentBuf;

    open spec fn view(&self) -> SegmentBuf {
        *self
    }
}

/// A segment of which nothing has arrived.
pub open spec fn new_segment() -> SegmentBuf {
    SegmentBuf { state: SegmentState::New, next_expected: 0, sealed_size: None, pending_bytes: 0, dup_count: 0, gap_count: 0 }
}

/// Evictions of a device within the current window.
#[derive(Debug, Clone, Copy, PartialEq, Eq, Structural)]
pub struct EvictState {
    pub streak: u32,
    pub window_start: u64,
}

impl View for EvictState {
    type V = EvictState;

    open spec fn view(&self) -> EvictState {
        *self
    }
}

/// What the reassembler knows. Segments are keyed by device and number, staged chunks by device, number
/// and offset.
#[verifier::ext_equal]
pub struct Model {
    pub segs: Map<Key2, SegmentBuf>,
    pub staged: Map<Key3, Seq<u8>>,
    pub quarantined: Set<u32>,
    pub evict: Map<u32, EvictState>,
    pub last_seq: Map<u32, u32>,
    pub budgets: Budgets,
    pub now: u64,
}

/// Nothing known yet.
pub open spec fn empty_model(budgets: Budgets) -> Model {
    Model {
        segs: Map::empty(),
        staged: Map::empty(),
        quarantined: Set::empty(),
        evict: Map::empty(),
        last_seq: Map::empty(),
        budgets,
        now: 0,
    }
}

/// Bytes charged to each segment; those of other devices count as none where a device is given.
pub open spec fn charges(segs: Map<Key2, SegmentBuf>, dev: Option<u32>) -> Map<Key2, nat> {
    Map::new(
        |k: Key2| segs.contains_key(k),
        |k: Key2| if dev is None || k.a == dev->0 {
            segs[k].pending_bytes as nat
        } else {
            0
        },
    )
}

/// Length of each staged chunk of a segment.
pub open spec fn lengths(staged: Map<Key3, Seq<u8>>, key: Key2) -> Map<Key3, nat> {
    Map::new(
        |k: Key3| staged.contains_key(k),
        |k: Key3| if k.a == key.a && k.b == key.b {
            staged[k].len()
        } else {
            0
        },
    )
}

/// All bytes charged for staged chunks.
pub open spec fn charged(v: Model) -> nat {
    total(charges(v.segs, None))
}

/// Bytes charged to one device.
pub open spec fn charged_to(v: Model, dev: u32) -> nat {
    total(charges(v.segs, Some(dev)))
}

/// Every staged chunk belongs to a known segment and ends within 64 bits, and a segment is charged exactly
/// the length of its staged chunks.
pub open spec fn inv(v: Model) -> bool {
    &&& v.segs.dom().finite()
    &&& v.staged.dom().finite()
    &&& forall|k: Key3| #[trigger] v.staged.contains_key(k) ==> v.segs.contains_key(Key2 { a: k.a, b: k.b }) && k.c + v.staged[k].len() <= u64::MAX
    &&& forall|k: Key2| #[trigger] v.segs.contains_key(k) ==> total(lengths(v.staged, k)) == v.segs[k].pending_bytes
    &&& forall|k: Key2| #[trigger] v.segs.contains_key(k) ==> k.a <= u32::MAX && k.b <= u32::MAX
    &&& charged(v) <= u64::MAX
}

/// No segment is charged more than its limit.
pub open spec fn capped(v: Model) -> bool {
    forall|k: Key2| #[trigger] v.segs.contains_key(k) ==> v.segs[k].pending_bytes <= v.budgets.l2_segment_cap
}

/// Every staged chunk lies ahead of the cursor of its segment.
pub open spec fn forward(v: Model) -> bool {
    forall|k: Key3| #[trigger] v.staged.contains_key(k) ==> v.segs[Key2 { a: k.a, b: k.b }].next_expected < k.c
}

/// Nothing is staged for a quarantined device.
pub open spec fn cleared(v: Model) -> bool {
    forall|k: Key3| #[trigger] v.staged.contains_key(k) ==> !v.quarantined.contains(k.a as u32)
}

/// Between two calls: no segment is over its limit, nothing that could be passed on is staged, and nothing
/// is staged for a quarantined device.
pub open spec fn steady(v: Model) -> bool {
    capped(v) && forward(v) && cleared(v)
}

/// The key of a segment.
pub open spec fn seg_key(dev: u32, seq: u32) -> Key2 {
    Key2 { a: dev as u64, b: seq as u64 }
}

/// The segment under a key, new if it is not known.
pub open spec fn seg_at(v: Model, key: Key2) -> SegmentBuf {
    if v.segs.contains_key(key) {
        v.segs[key]
    } else {
        new_segment()
    }
}

/// A model with its events.
pub struct Out {
    pub v: Model,
    pub events: Seq<EventView>,
}

/// The staged chunks without those of a segment.
pub open spec fn unstaged(staged: Map<Key3, Seq<u8>>, key: Key2) -> Map<Key3, Seq<u8>> {
    Map::new(|k: Key3| staged.contains_key(k) && !(k.a == key.a && k.b == key.b), |k: Key3| staged[k])
}

/// A chunk without new data: it is counted and reported.
pub open spec fn duplicate(v: Model, dev: u32, seq: u32) -> Out {
    let key = seg_key(dev, seq);
    Out {
        v: if v.segs.contains_key(key) {
            let s = v.segs[key];
            Model {
                segs: v.segs.insert(
                    key,
                    SegmentBuf {
                        dup_count: if s.dup_count == u64::MAX {
                            s.dup_count
                        } else {
                            (s.dup_count + 1) as u64
                        },
                        ..s
                    },
                ),
                ..v
            }
        } else {
            v
        },
        events: seq![EventView::Dup { dev_id: dev, segment_seq: seq }],
    }
}

/// A segment over its limit is given up: its staged chunks go, and the gap starts at its cursor.
pub open spec fn given_up(v: Model, dev: u32, seq: u32) -> Out {
    let key = seg_key(dev, seq);
    Out {
        v: if v.segs.contains_key(key) {
            Model {
                segs: v.segs.insert(key, SegmentBuf { state: SegmentState::Error, pending_bytes: 0, ..v.segs[key] }),
                staged: unstaged(v.staged, key),
                ..v
            }
        } else {
            v
        },
        events: seq![
            EventView::SegmentError { dev_id: dev, segment_seq: seq, reason: "L2 segment cap exceeded"@ },
            EventView::Gap { dev_id: dev, segment_seq: seq, start_offset: seg_at(v, key).next_expected },
        ],
    }
}

/// Whether `k` should go before `best`: data of a quarantined device first, then the lower offset.
pub open spec fn goes_before(quarantined: Set<u32>, k: Key3, best: Key3) -> bool {
    let (kq, bq) = (quarantined.contains(k.a as u32), quarantined.contains(best.a as u32));
    (kq && !bq) || (kq == bq && k.c < best.c)
}

/// The chunk to evict among the first `n` of `keys`.
pub open spec fn victim(quarantined: Set<u32>, keys: Seq<Key3>, n: nat) -> Option<Key3>
    decreases n,
{
    if n == 0 {
        None
    } else {
        let k = keys[n - 1];
        match victim(quarantined, keys, (n - 1) as nat) {
            None => Some(k),
            Some(b) => if goes_before(quarantined, k, b) {
                Some(k)
            } else {
                Some(b)
            },
        }
    }
}

/// Staged chunks of one device, or all, in key order.
pub open spec fn staged_keys(v: Model, dev: Option<u32>) -> Seq<Key3> {
    match dev {
        Some(d) => scan(
            v.staged.dom(),
            Key3 { a: d as u64, b: 0, c: 0 },
            Key3 { a: d as u64, b: u64::MAX, c: u64::MAX },
        ),
        None => scan(v.staged.dom(), Key3 { a: 0, b: 0, c: 0 }, Key3 { a: u64::MAX, b: u64::MAX, c: u64::MAX }),
    }
}

/// The model without one staged chunk.
pub open spec fn without_chunk(v: Model, k: Key3) -> Model {
    let key = Key2 { a: k.a, b: k.b };
    let s = v.segs[key];
    Model {
        segs: v.segs.insert(key, SegmentBuf { pending_bytes: (s.pending_bytes - v.staged[k].len()) as u64, ..s }),
        staged: v.staged.remove(k),
        ..v
    }
}

/// Drops one chunk and reports it.
pub open spec fn evicted(v: Model, k: Key3) -> Out {
    Out {
        v: without_chunk(v, k),
        events: seq![
            EventView::Evict { dev_id: k.a as u32, segment_seq: k.b as u32, offset: k.c, bytes: v.staged[k].len() as u64 },
        ],
    }
}

/// A device in quarantine: its segments are skipped and its staged chunks go.
pub open spec fn quarantine_of(v: Model, dev: u32) -> Out {
    if v.quarantined.contains(dev) {
        Out { v, events: Seq::empty() }
    } else {
        Out {
            v: Model {
                segs: Map::new(
                    |k: Key2| v.segs.contains_key(k),
                    |k: Key2| if k.a == dev {
                        SegmentBuf { state: SegmentState::Skipped, pending_bytes: 0, ..v.segs[k] }
                    } else {
                        v.segs[k]
                    },
                ),
                staged: Map::new(|k: Key3| v.staged.contains_key(k) && k.a != dev, |k: Key3| v.staged[k]),
                quarantined: v.quarantined.insert(dev),
                evict: v.evict.remove(dev),
                ..v
            },
            events: seq![EventView::Quarantine { dev_id: dev }],
        }
    }
}

/// The eviction count after one more eviction at `now`.
pub open spec fn next_streak(v: Model, dev: u32) -> EvictState {
    let st = if v.evict.contains_key(dev) {
        v.evict[dev]
    } else {
        EvictState { streak: 0, window_start: v.now }
    };
    if v.now > st.window_start && v.now - st.window_start > v.budgets.evict_window_secs {
        EvictState { streak: 1, window_start: v.now }
    } else {
        EvictState {
            streak: if st.streak == u32::MAX {
                st.streak
            } else {
                (st.streak + 1) as u32
            },
            ..st
        }
    }
}

/// A device over its limit: its oldest staged chunk goes, and too many of these evictions in a window
/// put the device in quarantine.
pub open spec fn device_relieved(v: Model, dev: u32) -> Out {
    let keys = staged_keys(v, Some(dev));
    match victim(v.quarantined, keys, keys.len()) {
        None => Out { v, events: Seq::empty() },
        Some(k) => {
            let e = evicted(v, k);
            let st = next_streak(v, dev);
            let w = Model { evict: v.evict.insert(dev, st), ..e.v };
            if st.streak >= v.budgets.evict_threshold {
                let q = quarantine_of(w, dev);
                Out { v: q.v, events: e.events + q.events }
            } else {
                Out { v: w, events: e.events }
            }
        },
    }
}

/// The whole over its limit: one staged chunk goes.
pub open spec fn relieved(v: Model) -> Out {
    let keys = staged_keys(v, None);
    match victim(v.quarantined, keys, keys.len()) {
        None => Out { v, events: Seq::empty() },
        Some(k) => evicted(v, k),
    }
}

/// Length of the chunk staged at an offset of a segment.
pub open spec fn staged_len(v: Model, key: Key2, offset: u64) -> nat {
    let k = Key3 { a: key.a, b: key.b, c: offset };
    if v.staged.contains_key(k) {
        v.staged[k].len()
    } else {
        0
    }
}

/// By how much the staged bytes grow when a chunk takes the place of what is staged at its offset.
pub open spec fn growth(v: Model, key: Key2, offset: u64, data: Seq<u8>) -> int {
    data.len() - staged_len(v, key, offset)
}

/// The model with a chunk staged, in place of what was staged at its offset.
pub open spec fn with_chunk(v: Model, key: Key2, offset: u64, data: Seq<u8>) -> Model {
    let s = seg_at(v, key);
    Model {
        segs: v.segs.insert(key, SegmentBuf { pending_bytes: (s.pending_bytes + growth(v, key, offset, data)) as u64, ..s }),
        staged: v.staged.insert(Key3 { a: key.a, b: key.b, c: offset }, data),
        ..v
    }
}

/// Staged chunks of a segment that start at or behind its cursor, in the order of their offsets.
pub open spec fn ripe(v: Model, key: Key2) -> Seq<Key3> {
    scan(v.staged.dom(), Key3 { a: key.a, b: key.b, c: 0 }, Key3 { a: key.a, b: key.b, c: v.segs[key].next_expected })
}

/// Whether a staged chunk lies behind the cursor as a whole. A chunk at the cursor does not, even one
/// without data.
pub open spec fn left_behind(v: Model, key: Key2, k: Key3) -> bool {
    k.c < v.segs[key].next_expected && k.c + v.staged[k].len() <= v.segs[key].next_expected
}

/// The model after one ripe chunk: it is taken out, and unless it was left behind the cursor moves to its
/// end.
pub open spec fn drained_once(v: Model, key: Key2, k: Key3) -> Model {
    let w = without_chunk(v, k);
    if left_behind(v, key, k) {
        w
    } else {
        Model {
            segs: w.segs.insert(
                key,
                SegmentBuf { next_expected: (k.c + v.staged[k].len()) as u64, state: SegmentState::Unfinished, ..w.segs[key] },
            ),
            ..w
        }
    }
}

/// What a ripe chunk passes on: its part from the cursor on, unless it was left behind.
pub open spec fn drained_event(v: Model, key: Key2, k: Key3) -> Seq<EventView> {
    let at = v.segs[key].next_expected;
    let data = v.staged[k];
    if left_behind(v, key, k) {
        Seq::empty()
    } else {
        seq![EventView::Append { dev_id: key.a as u32, segment_seq: key.b as u32, offset: at, data: data.skip(at - k.c) }]
    }
}

/// Passes on what continues the segment, up to `n` chunks; what lies behind the cursor is dropped.
pub open spec fn drained(v: Model, key: Key2, n: nat) -> Out
    decreases n,
{
    if n == 0 || !v.segs.contains_key(key) || ripe(v, key).len() == 0 {
        Out { v, events: Seq::empty() }
    } else {
        let k = ripe(v, key)[0];
        let rest = drained(drained_once(v, key, k), key, (n - 1) as nat);
        Out { v: rest.v, events: drained_event(v, key, k) + rest.events }
    }
}

/// The relief that a device needs before `more` bytes are staged for it.
pub open spec fn room_for_device(v: Model, dev: u32, more: int) -> Out {
    if more > 0 && charged_to(v, dev) + more > v.budgets.l25_conn_cap {
        device_relieved(v, dev)
    } else {
        Out { v, events: Seq::empty() }
    }
}

/// The relief that the whole needs before `more` bytes are staged.
pub open spec fn room_for_all(v: Model, more: int) -> Out {
    if more > 0 && charged(v) + more > v.budgets.l3_global_cap {
        relieved(v)
    } else {
        Out { v, events: Seq::empty() }
    }
}

/// Staging of new data at or ahead of the cursor. Where making room for it puts the device in quarantine,
/// it is dropped.
pub open spec fn accepted(v: Model, dev: u32, seq: u32, offset: u64, data: Seq<u8>) -> Out {
    let key = seg_key(dev, seq);
    let s = seg_at(v, key);
    let ahead = offset > s.next_expected;
    if ahead && s.pending_bytes + growth(v, key, offset, data) > v.budgets.l2_segment_cap {
        given_up(v, dev, seq)
    } else {
        let a = room_for_device(
            v,
            dev,
            if ahead {
                growth(v, key, offset, data)
            } else {
                0
            },
        );
        if a.v.quarantined.contains(dev) {
            Out { v: a.v, events: a.events.push(EventView::QuarantinedDrop { dev_id: dev, bytes: data.len() as u64 }) }
        } else {
            let b = room_for_all(a.v, growth(a.v, key, offset, data));
            let w = with_chunk(b.v, key, offset, data);
            let d = drained(w, key, w.staged.dom().len());
            Out { v: d.v, events: a.events + b.events + d.events }
        }
    }
}

/// One chunk of plain data.
pub open spec fn placed(v: Model, dev: u32, seq: u32, offset: u64, data: Seq<u8>) -> Out {
    let next = seg_at(v, seg_key(dev, seq)).next_expected;
    if v.quarantined.contains(dev) {
        Out { v, events: seq![EventView::QuarantinedDrop { dev_id: dev, bytes: data.len() as u64 }] }
    } else if offset + data.len() <= next {
        duplicate(v, dev, seq)
    } else if offset < next {
        accepted(v, dev, seq, next, data.skip(next - offset))
    } else {
        accepted(v, dev, seq, offset, data)
    }
}

/// The numbers between the highest segment sealed so far, if any, and the one sealed now.
pub open spec fn skipped(dev: u32, last: Option<u32>, seq: u32) -> Seq<EventView> {
    match last {
        Some(n) if seq - n > 1 => Seq::new(
            (seq - n - 1) as nat,
            |i: int| EventView::SeqSkipped { dev_id: dev, segment_seq: (n + 1 + i) as u32 },
        ),
        _ => Seq::empty(),
    }
}

/// The highest segment of a device sealed so far.
pub open spec fn last_sealed(v: Model, dev: u32) -> Option<u32> {
    if v.last_seq.contains_key(dev) {
        Some(v.last_seq[dev])
    } else {
        None
    }
}

/// The seal of a segment: complete, or with a gap; the numbers passed over are reported first.
pub open spec fn sealed(v: Model, dev: u32, seq: u32, size: u64) -> Out {
    let last = last_sealed(v, dev);
    let w = Model {
        last_seq: if last is None || seq > last->0 {
            v.last_seq.insert(dev, seq)
        } else {
            v.last_seq
        },
        ..v
    };
    let key = seg_key(dev, seq);
    let gone = skipped(dev, last, seq);
    if !v.segs.contains_key(key) {
        Out { v: w, events: gone }
    } else if v.segs[key].next_expected == size {
        Out {
            v: Model { segs: w.segs.remove(key), staged: unstaged(w.staged, key), ..w },
            events: gone.push(EventView::Sealed { dev_id: dev, segment_seq: seq, size }),
        }
    } else {
        Out {
            v: Model { segs: w.segs.insert(key, SegmentBuf { sealed_size: Some(size), ..w.segs[key] }), ..w },
            events: gone.push(
                EventView::SealGap { dev_id: dev, segment_seq: seq, next_expected: v.segs[key].next_expected, sealed_size: size },
            ),
        }
    }
}

proof fn lemma_charge(segs: Map<Key2, SegmentBuf>, dev: Option<u32>, key: Key2, s: SegmentBuf)
    requires
        segs.dom().finite(),
    ensures
        charges(segs, dev).dom().finite(),
        total(charges(segs.insert(key, s), dev)) == total(charges(segs, dev)) + (if dev is None || key.a == dev->0 {
            s.pending_bytes as int
        } else {
            0
        }) - (if segs.contains_key(key) && (dev is None || key.a == dev->0) {
            segs[key].pending_bytes as int
        } else {
            0
        }),
{
    let w: nat = if dev is None || key.a == dev->0 {
        s.pending_bytes as nat
    } else {
        0
    };
    assert(charges(segs, dev).dom() =~= segs.dom());
    assert(charges(segs.insert(key, s), dev) =~= charges(segs, dev).insert(key, w));
    lemma_total_insert(charges(segs, dev), key, w);
}

proof fn lemma_charge_removed(segs: Map<Key2, SegmentBuf>, dev: Option<u32>, key: Key2)
    requires
        segs.dom().finite(),
        segs.contains_key(key),
    ensures
        total(charges(segs.remove(key), dev)) == total(charges(segs, dev)) - (if dev is None || key.a == dev->0 {
            segs[key].pending_bytes as int
        } else {
            0
        }),
{
    assert(charges(segs, dev).dom() =~= segs.dom());
    assert(charges(segs.remove(key), dev) =~= charges(segs, dev).remove(key));
    lemma_total_remove(charges(segs, dev), key);
}

proof fn lemma_charged_to_le(segs: Map<Key2, SegmentBuf>, dev: Option<u32>, key: Key2)
    requires
        segs.dom().finite(),
        segs.contains_key(key),
    ensures
        total(charges(segs, dev)) <= total(charges(segs, None)),
        segs[key].pending_bytes <= total(charges(segs, None)),
        dev is Some && key.a == dev->0 ==> segs[key].pending_bytes <= total(charges(segs, dev)),
{
    assert(charges(segs, dev).dom() =~= segs.dom());
    assert(charges(segs, None).dom() =~= segs.dom());
    lemma_total_le(charges(segs, dev), charges(segs, None));
    lemma_total_remove(charges(segs, None), key);
    lemma_total_remove(charges(segs, dev), key);
}

proof fn lemma_lengths_remove(staged: Map<Key3, Seq<u8>>, k: Key3, key: Key2)
    requires
        staged.dom().finite(),
        staged.contains_key(k),
    ensures
        total(lengths(staged.remove(k), key)) == total(lengths(staged, key)) - (if k.a == key.a && k.b == key.b {
            staged[k].len() as int
        } else {
            0
        }),
{
    assert(lengths(staged, key).dom() =~= staged.dom());
    assert(lengths(staged.remove(k), key) =~= lengths(staged, key).remove(k));
    lemma_total_remove(lengths(staged, key), k);
}

proof fn lemma_lengths_insert(staged: Map<Key3, Seq<u8>>, k: Key3, data: Seq<u8>, key: Key2)
    requires
        staged.dom().finite(),
    ensures
        total(lengths(staged.insert(k, data), key)) == total(lengths(staged, key)) + (if k.a == key.a && k.b == key.b {
            data.len() - (if staged.contains_key(k) {
                staged[k].len()
            } else {
                0
            })
        } else {
            0
        }),
{
    let w: nat = if k.a == key.a && k.b == key.b {
        data.len()
    } else {
        0
    };
    assert(lengths(staged, key).dom() =~= staged.dom());
    assert(lengths(staged.insert(k, data), key) =~= lengths(staged, key).insert(k, w));
    lemma_total_insert(lengths(staged, key), k, w);
}

/// Leaving out chunks of other segments takes nothing off a segment.
proof fn lemma_lengths_sub(a: Map<Key3, Seq<u8>>, b: Map<Key3, Seq<u8>>, key: Key2)
    requires
        b.dom().finite(),
        a.dom().finite(),
        forall|k: Key3| #[trigger] a.contains_key(k) ==> b.contains_key(k) && a[k] == b[k],
        forall|k: Key3| #[trigger] b.contains_key(k) && !a.contains_key(k) ==> !(k.a == key.a && k.b == key.b),
    ensures
        total(lengths(a, key)) == total(lengths(b, key)),
{
    let (la, lb) = (lengths(a, key), lengths(b, key));
    assert(la.dom() =~= a.dom());
    assert(lb.dom() =~= b.dom());
    assert forall|k: Key3| #[trigger] la.contains_key(k) implies lb.contains_key(k) && la[k] == lb[k] by {
        assert(a.contains_key(k));
    }
    assert forall|k: Key3| #[trigger] lb.contains_key(k) && !la.contains_key(k) implies lb[k] == 0 by {
        assert(b.contains_key(k));
    }
    lemma_total_same(la, lb);
}

proof fn lemma_lengths_none(staged: Map<Key3, Seq<u8>>, key: Key2)
    requires
        staged.dom().finite(),
        forall|k: Key3| #[trigger] staged.contains_key(k) ==> !(k.a == key.a && k.b == key.b),
    ensures
        total(lengths(staged, key)) == 0,
{
    assert(lengths(staged, key).dom() =~= staged.dom());
    assert forall|k: Key3| #[trigger] lengths(staged, key).contains_key(k) implies lengths(staged, key)[k] == 0 by {
        assert(staged.contains_key(k));
    }
    lemma_total_zero(lengths(staged, key));
}

/// Taking out one staged chunk keeps the books.
proof fn lemma_without_chunk(v: Model, k: Key3)
    requires
        inv(v),
        v.staged.contains_key(k),
    ensures
        ({
            let key = Key2 { a: k.a, b: k.b };
            let w = without_chunk(v, k);
            let n = v.staged[k].len();
            &&& inv(w)
            &&& v.segs.contains_key(key)
            &&& n <= v.segs[key].pending_bytes
            &&& n <= charged(v)
            &&& charged(w) == charged(v) - n
            &&& forall|d: u32| #[trigger] charged_to(w, d) == charged_to(v, d) - (if k.a == d {
                n as int
            } else {
                0
            })
            &&& capped(v) ==> capped(w)
            &&& w.segs.dom() == v.segs.dom()
        }),
{
    let key = Key2 { a: k.a, b: k.b };
    let w = without_chunk(v, k);
    let s = v.segs[key];
    let n = v.staged[k].len();
    assert(lengths(v.staged, key).dom() =~= v.staged.dom());
    lemma_total_remove(lengths(v.staged, key), k);
    assert(lengths(v.staged, key)[k] == n);
    let t = SegmentBuf { pending_bytes: (s.pending_bytes - n) as u64, ..s };
    lemma_charge(v.segs, None, key, t);
    lemma_charged_to_le(v.segs, None, key);
    assert forall|d: u32| #[trigger] charged_to(w, d) == charged_to(v, d) - (if k.a == d {
        n as int
    } else {
        0
    }) by {
        lemma_charge(v.segs, Some(d), key, t);
    }
    assert forall|x: Key2| #[trigger] w.segs.contains_key(x) implies total(lengths(w.staged, x)) == w.segs[x].pending_bytes by {
        assert(v.segs.contains_key(x));
        lemma_lengths_remove(v.staged, k, x);
    }
    assert forall|x: Key3| #[trigger] w.staged.contains_key(x) implies w.segs.contains_key(Key2 { a: x.a, b: x.b }) && x.c + w.staged[x].len()
        <= u64::MAX by {
        assert(v.staged.contains_key(x));
    }
    assert(w.segs.dom() =~= v.segs.dom());
}

/// A staged chunk is paid for by its segment.
proof fn lemma_staged_len(v: Model, key: Key2, offset: u64)
    requires
        inv(v),
    ensures
        staged_len(v, key, offset) <= seg_at(v, key).pending_bytes,
{
    let k = Key3 { a: key.a, b: key.b, c: offset };
    if v.staged.contains_key(k) {
        assert(v.segs.contains_key(key));
        assert(lengths(v.staged, key).dom() =~= v.staged.dom());
        lemma_total_remove(lengths(v.staged, key), k);
    }
}

/// Staging a chunk keeps the books.
proof fn lemma_with_chunk(v: Model, key: Key2, offset: u64, data: Seq<u8>)
    requires
        inv(v),
        key.a <= u32::MAX,
        key.b <= u32::MAX,
        offset + data.len() <= u64::MAX,
        charged(v) + data.len() <= u64::MAX,
    ensures
        ({
            let w = with_chunk(v, key, offset, data);
            &&& inv(w)
            &&& seg_at(v, key).pending_bytes + data.len() <= u64::MAX
            &&& staged_len(v, key, offset) <= seg_at(v, key).pending_bytes
            &&& charged(w) == charged(v) + growth(v, key, offset, data)
            &&& forall|d: u32| #[trigger] charged_to(w, d) == charged_to(v, d) + (if key.a == d {
                growth(v, key, offset, data)
            } else {
                0
            })
        }),
{
    let w = with_chunk(v, key, offset, data);
    let s = seg_at(v, key);
    let k = Key3 { a: key.a, b: key.b, c: offset };
    if v.segs.contains_key(key) {
        lemma_charged_to_le(v.segs, None, key);
    } else {
        lemma_lengths_none_unknown(v, key);
    }
    lemma_staged_len(v, key, offset);
    let t = SegmentBuf { pending_bytes: (s.pending_bytes + growth(v, key, offset, data)) as u64, ..s };
    lemma_charge(v.segs, None, key, t);
    assert forall|d: u32| #[trigger] charged_to(w, d) == charged_to(v, d) + (if key.a == d {
        growth(v, key, offset, data)
    } else {
        0
    }) by {
        lemma_charge(v.segs, Some(d), key, t);
    }
    assert forall|x: Key2| #[trigger] w.segs.contains_key(x) implies total(lengths(w.staged, x)) == w.segs[x].pending_bytes by {
        lemma_lengths_insert(v.staged, k, data, x);
        if x != key {
            assert(v.segs.contains_key(x));
        }
    }
    assert forall|x: Key3| #[trigger] w.staged.contains_key(x) implies w.segs.contains_key(Key2 { a: x.a, b: x.b }) && x.c + w.staged[x].len()
        <= u64::MAX by {
        if x != k {
            assert(v.staged.contains_key(x));
        }
    }
}

proof fn lemma_lengths_none_unknown(v: Model, key: Key2)
    requires
        inv(v),
        !v.segs.contains_key(key),
    ensures
        total(lengths(v.staged, key)) == 0,
{
    assert forall|k: Key3| #[trigger] v.staged.contains_key(k) implies !(k.a == key.a && k.b == key.b) by {
        assert(v.segs.contains_key(Key2 { a: k.a, b: k.b }));
    }
    lemma_lengths_none(v.staged, key);
}

/// Replacing a segment by one with the same charge keeps the books.
proof fn lemma_same_charge(v: Model, key: Key2, s: SegmentBuf)
    requires
        inv(v),
        v.segs.contains_key(key),
        s.pending_bytes == v.segs[key].pending_bytes,
    ensures
        ({
            let w = Model { segs: v.segs.insert(key, s), ..v };
            &&& inv(w)
            &&& charged(w) == charged(v)
            &&& forall|d: u32| #[trigger] charged_to(w, d) == charged_to(v, d)
            &&& capped(v) ==> capped(w)
        }),
{
    let w = Model { segs: v.segs.insert(key, s), ..v };
    lemma_charge(v.segs, None, key, s);
    assert forall|d: u32| #[trigger] charged_to(w, d) == charged_to(v, d) by {
        lemma_charge(v.segs, Some(d), key, s);
    }
    assert forall|x: Key2| #[trigger] w.segs.contains_key(x) implies total(lengths(w.staged, x)) == w.segs[x].pending_bytes by {
        assert(v.segs.contains_key(x));
    }
    assert forall|x: Key3| #[trigger] w.staged.contains_key(x) implies w.segs.contains_key(Key2 { a: x.a, b: x.b }) && x.c + w.staged[x].len()
        <= u64::MAX by {
        assert(v.staged.contains_key(x));
    }
}

/// The books concern the segments and the staged chunks alone.
proof fn lemma_same_segments(v: Model, w: Model)
    requires
        inv(v),
        w.segs == v.segs,
        w.staged == v.staged,
    ensures
        inv(w),
        charged(w) == charged(v),
        forall|d: u32| #[trigger] charged_to(w, d) == charged_to(v, d),
{
    assert forall|x: Key2| #[trigger] w.segs.contains_key(x) implies total(lengths(w.staged, x)) == w.segs[x].pending_bytes && x.a <= u32::MAX
        && x.b <= u32::MAX by {
        assert(v.segs.contains_key(x));
    }
    assert forall|x: Key3| #[trigger] w.staged.contains_key(x) implies w.segs.contains_key(Key2 { a: x.a, b: x.b }) && x.c + w.staged[x].len()
        <= u64::MAX by {
        assert(v.staged.contains_key(x));
    }
}

proof fn lemma_unstaged(v: Model, key: Key2)
    requires
        inv(v),
    ensures
        unstaged(v.staged, key).dom().finite(),
        total(lengths(unstaged(v.staged, key), key)) == 0,
        forall|x: Key2| #[trigger] v.segs.contains_key(x) && x != key ==> total(lengths(unstaged(v.staged, key), x)) == v.segs[x].pending_bytes,
{
    let u = unstaged(v.staged, key);
    assert(u.dom().subset_of(v.staged.dom()));
    vstd::set_lib::lemma_len_subset(u.dom(), v.staged.dom());
    lemma_lengths_none(u, key);
    assert forall|x: Key2| #[trigger] v.segs.contains_key(x) && x != key implies total(lengths(u, x)) == v.segs[x].pending_bytes by {
        lemma_lengths_sub(u, v.staged, x);
    }
}

/// Clearing a segment keeps the books.
proof fn lemma_cleared(v: Model, key: Key2, s: SegmentBuf)
    requires
        inv(v),
        v.segs.contains_key(key),
        s.pending_bytes == 0,
    ensures
        ({
            let w = Model { segs: v.segs.insert(key, s), staged: unstaged(v.staged, key), ..v };
            let n = v.segs[key].pending_bytes;
            &&& inv(w)
            &&& n <= charged(v)
            &&& charged(w) == charged(v) - n
            &&& forall|d: u32| #[trigger] charged_to(w, d) == charged_to(v, d) - (if key.a == d {
                n as int
            } else {
                0
            })
            &&& capped(v) ==> capped(w)
        }),
{
    let w = Model { segs: v.segs.insert(key, s), staged: unstaged(v.staged, key), ..v };
    lemma_charge(v.segs, None, key, s);
    lemma_charged_to_le(v.segs, None, key);
    assert forall|d: u32| #[trigger] charged_to(w, d) == charged_to(v, d) - (if key.a == d {
        v.segs[key].pending_bytes as int
    } else {
        0
    }) by {
        lemma_charge(v.segs, Some(d), key, s);
    }
    lemma_unstaged(v, key);
    assert forall|x: Key2| #[trigger] w.segs.contains_key(x) implies total(lengths(w.staged, x)) == w.segs[x].pending_bytes by {
        assert(v.segs.contains_key(x));
    }
    assert forall|x: Key3| #[trigger] w.staged.contains_key(x) implies w.segs.contains_key(Key2 { a: x.a, b: x.b }) && x.c + w.staged[x].len()
        <= u64::MAX by {
        assert(v.staged.contains_key(x));
    }
}

/// Releasing a segment keeps the books.
proof fn lemma_released(v: Model, key: Key2)
    requires
        inv(v),
        v.segs.contains_key(key),
    ensures
        ({
            let w = Model { segs: v.segs.remove(key), staged: unstaged(v.staged, key), ..v };
            let n = v.segs[key].pending_bytes;
            &&& inv(w)
            &&& n <= charged(v)
            &&& charged(w) == charged(v) - n
            &&& forall|d: u32| #[trigger] charged_to(w, d) == charged_to(v, d) - (if key.a == d {
                n as int
            } else {
                0
            })
            &&& capped(v) ==> capped(w)
        }),
{
    let w = Model { segs: v.segs.remove(key), staged: unstaged(v.staged, key), ..v };
    lemma_charge_removed(v.segs, None, key);
    lemma_charged_to_le(v.segs, None, key);
    assert forall|d: u32| #[trigger] charged_to(w, d) == charged_to(v, d) - (if key.a == d {
        v.segs[key].pending_bytes as int
    } else {
        0
    }) by {
        lemma_charge_removed(v.segs, Some(d), key);
    }
    lemma_unstaged(v, key);
    assert forall|x: Key2| #[trigger] w.segs.contains_key(x) implies total(lengths(w.staged, x)) == w.segs[x].pending_bytes by {
        assert(v.segs.contains_key(x));
    }
    assert forall|x: Key3| #[trigger] w.staged.contains_key(x) implies w.segs.contains_key(Key2 { a: x.a, b: x.b }) && x.c + w.staged[x].len()
        <= u64::MAX by {
        assert(v.staged.contains_key(x));
    }
}

/// The books of an empty reassembler are right.
proof fn lemma_empty(budgets: Budgets)
    ensures
        inv(empty_model(budgets)),
        steady(empty_model(budgets)),
        charged(empty_model(budgets)) == 0,
        forall|d: u32| #[trigger] charged_to(empty_model(budgets), d) == 0,
{
    let v = empty_model(budgets);
    assert(v.segs.dom() =~= Set::<Key2>::empty());
    assert(v.staged.dom() =~= Set::<Key3>::empty());
    assert(charges(v.segs, None).dom() =~= Set::<Key2>::empty());
    lemma_total_zero(charges(v.segs, None));
    assert forall|d: u32| #[trigger] charged_to(v, d) == 0 by {
        assert(charges(v.segs, Some(d)).dom() =~= Set::<Key2>::empty());
        lemma_total_zero(charges(v.segs, Some(d)));
    }
}

/// The cached charge of a device.
spec fn cached(conn: Map<u32, u64>, dev: u32) -> nat {
    if conn.contains_key(dev) {
        conn[dev] as nat
    } else {
        0
    }
}

/// The reassembler.
pub struct Reassembler {
    segs: Table<Key2, SegmentBuf>,
    staged: Table<Key3, Vec<u8>>,
    conn_pending: Table<u32, u64>,
    quarantined: Table<u32, bool>,
    evict: Table<u32, EvictState>,
    global_pending: u64,
    last_seq: Table<u32, u32>,
    budgets: Budgets,
    now: u64,
}

impl View for Reassembler {
    type V = Model;

    closed spec fn view(&self) -> Model {
        Model {
            segs: self.segs@,
            staged: self.staged@,
            quarantined: self.quarantined@.dom(),
            evict: self.evict@,
            last_seq: self.last_seq@,
            budgets: self.budgets,
            now: self.now,
        }
    }
}

fn push_event(events: &mut Vec<Event>, e: Event)
    ensures
        event_views(final(events)@) == event_views(old(events)@).push(e@),
{
    events.push(e);
    assert(event_views(events@) =~= event_views(old(events)@).push(e@));
}

impl Reassembler {
    /// The tables are in order and the counts agree with them.
    spec fn sound(&self) -> bool {
        &&& self.segs.wf()
        &&& self.staged.wf()
        &&& self.conn_pending.wf()
        &&& self.quarantined.wf()
        &&& self.evict.wf()
        &&& self.last_seq.wf()
        &&& inv(self@)
        &&& self.global_pending == charged(self@)
        &&& forall|d: u32| #[trigger] cached(self.conn_pending@, d) == charged_to(self@, d)
    }

    /// Well-formed: the books are right, and the contents are as they should be between two calls.
    pub closed spec fn wf(&self) -> bool {
        self.sound() && steady(self@)
    }

    /// What being well-formed means for the contents.
    pub proof fn lemma_wf(&self)
        requires
            self.wf(),
        ensures
            inv(self@),
            steady(self@),
    {
    }

    /// An empty reassembler.
    pub fn new(budgets: Budgets) -> (r: Reassembler)
        ensures
            r.wf(),
            inv(r@),
            steady(r@),
            r@ == empty_model(budgets),
    {
        let r = Reassembler {
            segs: Table::new(),
            staged: Table::new(),
            conn_pending: Table::new(),
            quarantined: Table::new(),
            evict: Table::new(),
            global_pending: 0,
            last_seq: Table::new(),
            budgets,
            now: 0,
        };
        proof {
            assert(r.quarantined@.dom() =~= Set::<u32>::empty());
            lemma_empty(budgets);
            assert(r@ =~= empty_model(budgets));
        }
        r
    }

    /// Sets the clock, in seconds.
    pub fn set_now(&mut self, now: u64)
        requires
            old(self).wf(),
        ensures
            final(self).wf(),
            final(self)@ == (Model { now, ..old(self)@ }),
    {
        self.now = now;
        assert(forall|d: u32| #[trigger] charged_to(self@, d) == charged_to(old(self)@, d));
    }

    /// Bytes charged for staged chunks in all.
    pub fn global_pending(&self) -> (n: u64)
        requires
            self.wf(),
        ensures
            n == charged(self@),
    {
        self.global_pending
    }

    /// Bytes charged to one device.
    pub fn conn_pending(&self, dev_id: u32) -> (n: u64)
        requires
            self.wf(),
        ensures
            n == charged_to(self@, dev_id),
    {
        self.conn_used(dev_id)
    }

    fn conn_used(&self, dev_id: u32) -> (n: u64)
        requires
            self.sound(),
        ensures
            n == charged_to(self@, dev_id),
    {
        assert(cached(self.conn_pending@, dev_id) == charged_to(self@, dev_id));
        match self.conn_pending.get(&dev_id) {
            Some(n) => *n,
            None => 0,
        }
    }

    /// Whether a device is in quarantine.
    pub fn is_quarantined(&self, dev_id: u32) -> (r: bool)
        requires
            self.wf(),
        ensures
            r == self@.quarantined.contains(dev_id),
    {
        self.quarantined.contains(&dev_id)
    }

    /// The cursor of a segment; zero if nothing of it has arrived.
    pub fn next_expected(&self, dev_id: u32, segment_seq: u32) -> (n: u64)
        requires
            self.wf(),
        ensures
            n == seg_at(self@, seg_key(dev_id, segment_seq)).next_expected,
    {
        self.segment(&Key2 { a: dev_id as u64, b: segment_seq as u64 }).next_expected
    }

    fn segment(&self, key: &Key2) -> (s: SegmentBuf)
        requires
            self.sound(),
        ensures
            s == seg_at(self@, *key),
    {
        match self.segs.get(key) {
            Some(s) => *s,
            None => SegmentBuf {
                state: SegmentState::New,
                next_expected: 0,
                sealed_size: None,
                pending_bytes: 0,
                dup_count: 0,
                gap_count: 0,
            },
        }
    }

    /// Takes bytes off the account of a device.
    fn uncharge(conn: &mut Table<u32, u64>, dev: u32, bytes: u64)
        requires
            old(conn).wf(),
            bytes <= cached(old(conn)@, dev),
        ensures
            final(conn).wf(),
            forall|d: u32| #[trigger] cached(final(conn)@, d) == cached(old(conn)@, d) - (if d == dev {
                bytes as int
            } else {
                0
            }),
    {
        let used = match conn.get(&dev) {
            Some(n) => Some(*n),
            None => None,
        };
        if let Some(n) = used {
            conn.put(dev, n.saturating_sub(bytes));
        }
    }

    /// Counts a chunk without new data.
    fn note_duplicate(&mut self, dev_id: u32, segment_seq: u32, events: &mut Vec<Event>)
        requires
            old(self).wf(),
        ensures
            final(self).wf(),
            final(self)@ == duplicate(old(self)@, dev_id, segment_seq).v,
            event_views(final(events)@) == event_views(old(events)@) + duplicate(old(self)@, dev_id, segment_seq).events,
    {
        let key = Key2 { a: dev_id as u64, b: segment_seq as u64 };
        if self.segs.contains(&key) {
            let mut s = self.segment(&key);
            s.dup_count = s.dup_count.saturating_add(1);
            proof {
                lemma_same_charge(self@, key, s);
            }
            self.segs.put(key, s);
            assert(self@ =~= duplicate(old(self)@, dev_id, segment_seq).v);
        }
        push_event(events, Event::Dup { dev_id, segment_seq });
        assert(event_views(events@) =~= event_views(old(events)@) + duplicate(old(self)@, dev_id, segment_seq).events);
    }

    /// Removes every staged chunk of a segment.
    fn unstage(staged: &mut Table<Key3, Vec<u8>>, key: Key2)
        requires
            old(staged).wf(),
        ensures
            final(staged).wf(),
            final(staged)@ == unstaged(old(staged)@, key),
    {
        let ks = staged.range(
            &Key3 { a: key.a, b: key.b, c: 0 },
            &Key3 { a: key.a, b: key.b, c: 0xffff_ffff_ffff_ffff },
        );
        let mut i: usize = 0;
        let ghost m0 = staged@;
        while i < ks.len()
            invariant
                i <= ks@.len(),
                staged.wf(),
                forall|j: int| 0 <= j < ks@.len() ==> (#[trigger] ks@[j]).a == key.a && ks@[j].b == key.b,
                forall|k: Key3| #[trigger] staged@.contains_key(k) ==> m0.contains_key(k) && staged@[k] == m0[k],
                forall|k: Key3| #[trigger] m0.contains_key(k) && !(k.a == key.a && k.b == key.b) ==> staged@.contains_key(k),
                forall|j: int| 0 <= j < i ==> !staged@.contains_key(#[trigger] ks@[j]),
            decreases ks@.len() - i,
        {
            staged.delete(&ks[i]);
            i += 1;
        }
        proof {
            assert forall|k: Key3| staged@.contains_key(k) implies !(k.a == key.a && k.b == key.b) by {
                if k.a == key.a && k.b == key.b {
                    assert(m0.dom().contains(k));
                    assert(ks@.contains(k));
                    let j = choose|j: int| 0 <= j < ks@.len() && ks@[j] == k;
                    assert(!staged@.contains_key(ks@[j]));
                }
            }
            assert(staged@ =~= unstaged(m0, key));
        }
    }

    /// Gives a segment up.
    fn mark_segment_error(&mut self, events: &mut Vec<Event>, dev_id: u32, segment_seq: u32)
        requires
            old(self).wf(),
        ensures
            final(self).wf(),
            final(self)@ == given_up(old(self)@, dev_id, segment_seq).v,
            event_views(final(events)@) == event_views(old(events)@) + given_up(old(self)@, dev_id, segment_seq).events,
    {
        let key = Key2 { a: dev_id as u64, b: segment_seq as u64 };
        let s0 = self.segment(&key);
        if self.segs.contains(&key) {
            let mut s = s0;
            s.state = SegmentState::Error;
            s.pending_bytes = 0;
            proof {
                lemma_cleared(self@, key, s);
                assert(cached(self.conn_pending@, dev_id) == charged_to(self@, dev_id));
                lemma_charged_to_le(self.segs@, Some(dev_id), key);
            }
            self.segs.put(key, s);
            Self::unstage(&mut self.staged, key);
            self.global_pending = self.global_pending.saturating_sub(s0.pending_bytes);
            Self::uncharge(&mut self.conn_pending, dev_id, s0.pending_bytes);
            proof {
                assert(self@ =~= given_up(old(self)@, dev_id, segment_seq).v);
                assert forall|d: u32| #[trigger] cached(self.conn_pending@, d) == charged_to(self@, d) by {
                    assert(cached(old(self).conn_pending@, d) == charged_to(old(self)@, d));
                }
            }
        }
        push_event(events, Event::SegmentError { dev_id, segment_seq, reason: "L2 segment cap exceeded" });
        push_event(events, Event::Gap { dev_id, segment_seq, start_offset: s0.next_expected });
        assert(event_views(events@) =~= event_views(old(events)@) + given_up(old(self)@, dev_id, segment_seq).events);
    }

    /// Takes out one staged chunk.
    fn take_chunk(&mut self, k: Key3) -> (data: Vec<u8>)
        requires
            old(self).sound(),
            old(self)@.staged.contains_key(k),
        ensures
            final(self).sound(),
            final(self)@ == without_chunk(old(self)@, k),
            data@ == old(self)@.staged[k],
            capped(old(self)@) ==> capped(final(self)@),
    {
        let key = Key2 { a: k.a, b: k.b };
        proof {
            lemma_without_chunk(self@, k);
            assert(self@.segs.contains_key(key));
            let dev = k.a as u32;
            assert(cached(self.conn_pending@, dev) == charged_to(self@, dev));
            lemma_charged_to_le(self.segs@, Some(dev), key);
        }
        let mut data: Vec<u8> = Vec::new();
        if let Some(d) = self.staged.delete(&k) {
            data = d;
        }
        let n: u64 = data.len() as u64;
        let mut s = self.segment_raw(&key);
        s.pending_bytes = s.pending_bytes - n;
        self.segs.put(key, s);
        self.global_pending = self.global_pending - n;
        Self::uncharge(&mut self.conn_pending, k.a as u32, n);
        proof {
            assert(self@ =~= without_chunk(old(self)@, k));
            assert forall|d: u32| #[trigger] cached(self.conn_pending@, d) == charged_to(self@, d) by {
                assert(cached(old(self).conn_pending@, d) == charged_to(old(self)@, d));
            }
        }
        data
    }

    fn segment_raw(&self, key: &Key2) -> (s: SegmentBuf)
        requires
            self.segs.wf(),
            self.segs@.contains_key(*key),
        ensures
            s == self.segs@[*key],
    {
        match self.segs.get(key) {
            Some(s) => *s,
            None => SegmentBuf {
                state: SegmentState::New,
                next_expected: 0,
                sealed_size: None,
                pending_bytes: 0,
                dup_count: 0,
                gap_count: 0,
            },
        }
    }

    /// Moves the cursor of a segment.
    fn move_cursor(&mut self, key: Key2, to: u64)
        requires
            old(self).sound(),
            old(self)@.segs.contains_key(key),
        ensures
            final(self).sound(),
            final(self)@ == (Model {
                segs: old(self)@.segs.insert(
                    key,
                    SegmentBuf { next_expected: to, state: SegmentState::Unfinished, ..old(self)@.segs[key] },
                ),
                ..old(self)@
            }),
    {
        let mut t = self.segment_raw(&key);
        t.next_expected = to;
        t.state = SegmentState::Unfinished;
        let ghost w = self@;
        proof {
            lemma_same_charge(w, key, t);
        }
        self.segs.put(key, t);
        proof {
            assert(self@ =~= (Model { segs: w.segs.insert(key, t), ..w }));
            assert forall|d: u32| #[trigger] cached(self.conn_pending@, d) == charged_to(self@, d) by {
                assert(charged_to(self@, d) == charged_to(w, d));
                assert(cached(old(self).conn_pending@, d) == charged_to(w, d));
            }
        }
    }

    /// Takes out one ripe chunk and passes on its part from the cursor on.
    fn drain_one(&mut self, events: &mut Vec<Event>, key: Key2, k: Key3)
        requires
            old(self).sound(),
            old(self)@.segs.contains_key(key),
            old(self)@.staged.contains_key(k),
            k.a == key.a,
            k.b == key.b,
            k.c <= old(self)@.segs[key].next_expected,
        ensures
            final(self).sound(),
            final(self)@ == drained_once(old(self)@, key, k),
            event_views(final(events)@) == event_views(old(events)@) + drained_event(old(self)@, key, k),
    {
        let ghost v = self@;
        let at: u64 = self.segment_raw(&key).next_expected;
        let data = self.take_chunk(k);
        assert(k.c + data@.len() <= u64::MAX);
        let end: u64 = k.c + data.len() as u64;
        if k.c < at && end <= at {
            assert(event_views(events@) =~= event_views(events@) + drained_event(v, key, k));
            return;
        }
        let fresh = copy_range(&data, (at - k.c) as usize, data.len());
        assert(fresh@ =~= v.staged[k].skip(at - k.c));
        self.move_cursor(key, end);
        push_event(events, Event::Append { dev_id: key.a as u32, segment_seq: key.b as u32, offset: at, data: fresh });
        assert(event_views(events@) =~= event_views(old(events)@) + drained_event(v, key, k));
    }

    /// Passes on what continues a segment.
    fn drain_contiguous(&mut self, events: &mut Vec<Event>, key: Key2)
        requires
            old(self).sound(),
            old(self)@.segs.contains_key(key),
        ensures
            final(self).sound(),
            final(self)@ == drained(old(self)@, key, old(self)@.staged.dom().len()).v,
            event_views(final(events)@) == event_views(old(events)@) + drained(old(self)@, key, old(self)@.staged.dom().len()).events,
    {
        let ghost n0 = self@.staged.dom().len();
        let ghost mut n: nat = n0;
        let ghost all = drained(self@, key, n0);
        let ghost e0 = event_views(events@);
        let mut more = true;
        assert(e0 + all.events =~= event_views(events@) + drained(self@, key, n).events);
        while more
            invariant
                self.sound(),
                self@.segs.contains_key(key),
                n >= self@.staged.dom().len(),
                all.v == drained(self@, key, n).v,
                e0 + all.events =~= event_views(events@) + drained(self@, key, n).events,
                !more ==> self@ == all.v && event_views(events@) == e0 + all.events,
            decreases self@.staged.dom().len() + (if more { 1nat } else { 0nat }),
        {
            let at: u64 = self.segment_raw(&key).next_expected;
            let ks = self.staged.range(&Key3 { a: key.a, b: key.b, c: 0 }, &Key3 { a: key.a, b: key.b, c: at });
            let ghost before = self@;
            assert(ks@ == ripe(before, key));
            proof {
                lemma_ripe(before, key);
            }
            if ks.len() == 0 {
                more = false;
                assert(event_views(events@) + Seq::<EventView>::empty() =~= event_views(events@));
            } else {
                let k = ks[0];
                let ghost ev = event_views(events@);
                proof {
                    assert(before.staged.dom().contains(k));
                    if before.staged.dom().len() == 0 {
                        assert(before.staged.dom() =~= Set::empty());
                    }
                    lemma_drained_once(before, key, k);
                }
                self.drain_one(events, key, k);
                proof {
                    let rest = drained(self@, key, (n - 1) as nat);
                    assert(drained(before, key, n).v == rest.v);
                    assert(drained(before, key, n).events == drained_event(before, key, k) + rest.events);
                    assert(ev + (drained_event(before, key, k) + rest.events) =~= event_views(events@) + rest.events);
                    n = (n - 1) as nat;
                }
            }
        }
    }

    /// The chunk to evict.
    fn find_victim(&self, dev: Option<u32>) -> (r: Option<Key3>)
        requires
            self.sound(),
        ensures
            ({
                let keys = staged_keys(self@, dev);
                r == victim(self@.quarantined, keys, keys.len())
            }),
            r matches Some(k) ==> self@.staged.contains_key(k) && (dev matches Some(d) ==> k.a == d),
    {
        let (lo, hi): (u64, u64) = match dev {
            Some(d) => (d as u64, d as u64),
            None => (0, 0xffff_ffff_ffff_ffff),
        };
        let keys = self.staged.range(
            &Key3 { a: lo, b: 0, c: 0 },
            &Key3 { a: hi, b: 0xffff_ffff_ffff_ffff, c: 0xffff_ffff_ffff_ffff },
        );
        let mut best: Option<Key3> = None;
        let mut i: usize = 0;
        while i < keys.len()
            invariant
                i <= keys@.len(),
                self.sound(),
                keys@ == staged_keys(self@, dev),
                forall|j: int| 0 <= j < keys@.len() ==> self@.staged.dom().contains(#[trigger] keys@[j]) && (dev matches Some(d) ==> keys@[j].a
                    == d),
                best == victim(self@.quarantined, keys@, i as nat),
                best matches Some(k) ==> self@.staged.contains_key(k) && (dev matches Some(d) ==> k.a == d),
            decreases keys@.len() - i,
        {
            let k = keys[i];
            let better = match best {
                None => true,
                Some(b) => {
                    let kq = self.quarantined.contains(&(k.a as u32));
                    let bq = self.quarantined.contains(&(b.a as u32));
                    (kq && !bq) || (kq == bq && k.c < b.c)
                },
            };
            if better {
                best = Some(k);
            }
            i += 1;
        }
        best
    }

    /// Drops one staged chunk.
    fn evict_chunk(&mut self, events: &mut Vec<Event>, k: Key3)
        requires
            old(self).sound(),
            old(self)@.staged.contains_key(k),
        ensures
            final(self).sound(),
            final(self)@ == evicted(old(self)@, k).v,
            event_views(final(events)@) == event_views(old(events)@) + evicted(old(self)@, k).events,
            capped(old(self)@) ==> capped(final(self)@),
    {
        let data = self.take_chunk(k);
        push_event(events, Event::Evict { dev_id: k.a as u32, segment_seq: k.b as u32, offset: k.c, bytes: data.len() as u64 });
        assert(event_views(events@) =~= event_views(old(events)@) + evicted(old(self)@, k).events);
    }
}

/// What the ripe chunks are.
pub(crate) proof fn lemma_ripe(v: Model, key: Key2)
    requires
        v.staged.dom().finite(),
    ensures
        forall|i: int|
            0 <= i < ripe(v, key).len() ==> v.staged.contains_key(#[trigger] ripe(v, key)[i]) && ripe(v, key)[i].a == key.a && ripe(
                v,
                key,
            )[i].b == key.b && ripe(v, key)[i].c <= v.segs[key].next_expected,
        forall|k: Key3| #[trigger]
            v.staged.contains_key(k) && k.a == key.a && k.b == key.b && k.c <= v.segs[key].next_expected ==> ripe(v, key).len() > 0
                && ripe(v, key).contains(k),
{
    let lo = Key3 { a: key.a, b: key.b, c: 0 };
    let hi = Key3 { a: key.a, b: key.b, c: v.segs[key].next_expected };
    crate::table::lemma_scan_exists(v.staged.dom(), lo, hi);
    let ks = ripe(v, key);
    assert forall|i: int| 0 <= i < ks.len() implies v.staged.contains_key(#[trigger] ks[i]) && ks[i].a == key.a && ks[i].b == key.b
        && ks[i].c <= hi.c by {
        assert(v.staged.dom().contains(ks[i]));
    }
    assert forall|k: Key3| #[trigger] v.staged.contains_key(k) && k.a == key.a && k.b == key.b && k.c <= hi.c implies ks.len() > 0
        && ks.contains(k) by {
        assert(v.staged.dom().contains(k));
        assert(ks.contains(k));
        let i = choose|i: int| 0 <= i < ks.len() && ks[i] == k;
        assert(ks[i] == k);
    }
}

/// Taking out a ripe chunk keeps the books.
proof fn lemma_drained_once(v: Model, key: Key2, k: Key3)
    requires
        inv(v),
        v.segs.contains_key(key),
        v.staged.contains_key(k),
        k.a == key.a,
        k.b == key.b,
    ensures
        ({
            let w = drained_once(v, key, k);
            let n = v.staged[k].len();
            &&& inv(w)
            &&& charged(w) == charged(v) - n
            &&& capped(v) ==> capped(w)
            &&& w.segs.dom() == v.segs.dom()
            &&& w.staged == v.staged.remove(k)
            &&& w.segs[key].pending_bytes == v.segs[key].pending_bytes - n
            &&& w.segs[key].next_expected == if k.c + n <= v.segs[key].next_expected {
                v.segs[key].next_expected as int
            } else {
                k.c + n
            }
            &&& forall|q: Key2| #[trigger] v.segs.contains_key(q) && q != key ==> w.segs[q] == v.segs[q]
            &&& w.quarantined == v.quarantined
            &&& w.last_seq == v.last_seq
            &&& w.budgets == v.budgets
            &&& w.staged.dom().len() == v.staged.dom().len() - 1
        }),
{
    let w = without_chunk(v, k);
    lemma_without_chunk(v, k);
    let t = SegmentBuf { next_expected: (k.c + v.staged[k].len()) as u64, state: SegmentState::Unfinished, ..w.segs[key] };
    lemma_same_charge(w, key, t);
    assert(w.segs.insert(key, t).dom() =~= v.segs.dom());
}

/// Draining leaves nothing ripe, and no segment over its limit.
proof fn lemma_drained_steady(v: Model, key: Key2, n: nat)
    requires
        inv(v),
        capped(v),
        cleared(v),
        v.segs.contains_key(key),
        n >= v.staged.dom().len(),
        forall|k: Key3| #[trigger]
            v.staged.contains_key(k) && !(k.a == key.a && k.b == key.b) ==> v.segs[Key2 { a: k.a, b: k.b }].next_expected < k.c,
    ensures
        steady(drained(v, key, n).v),
    decreases n,
{
    lemma_ripe(v, key);
    let ks = ripe(v, key);
    if n == 0 {
        assert(v.staged.dom() =~= Set::empty());
        assert forall|k: Key3| #[trigger] v.staged.contains_key(k) implies v.segs[Key2 { a: k.a, b: k.b }].next_expected < k.c by {
            assert(v.staged.dom().contains(k));
        }
    } else if ks.len() > 0 {
        let k = ks[0];
        lemma_drained_once(v, key, k);
        let w = drained_once(v, key, k);
        assert forall|q: Key3| #[trigger] w.staged.contains_key(q) && !(q.a == key.a && q.b == key.b) implies w.segs[Key2 {
            a: q.a,
            b: q.b,
        }].next_expected < q.c by {
            assert(v.staged.contains_key(q));
            assert(v.segs.contains_key(Key2 { a: q.a, b: q.b }));
        }
        assert(cleared(w)) by {
            assert forall|q: Key3| #[trigger] w.staged.contains_key(q) implies !w.quarantined.contains(q.a as u32) by {
                assert(v.staged.contains_key(q));
            }
        }
        lemma_drained_steady(w, key, (n - 1) as nat);
    } else {
        assert forall|k: Key3| #[trigger] v.staged.contains_key(k) implies v.segs[Key2 { a: k.a, b: k.b }].next_expected < k.c by {
            if k.a == key.a && k.b == key.b {
                assert(key == Key2 { a: k.a, b: k.b });
            }
        }
    }
}

/// In-order data is the first that is ripe.
proof fn lemma_in_order_first(v: Model, key: Key2, data: Seq<u8>)
    requires
        inv(v),
        forward(v),
    ensures
        ({
            let at = seg_at(v, key).next_expected;
            let w = with_chunk(v, key, at, data);
            let k = Key3 { a: key.a, b: key.b, c: at };
            &&& ripe(w, key).len() > 0
            &&& ripe(w, key)[0] == k
            &&& w.staged.dom().len() > 0
            &&& staged_len(v, key, at) == 0
        }),
{
    let at = seg_at(v, key).next_expected;
    let w = with_chunk(v, key, at, data);
    let k = Key3 { a: key.a, b: key.b, c: at };
    lemma_ripe(w, key);
    assert(w.staged.contains_key(k));
    assert(w.staged.dom().contains(k));
    if w.staged.dom().len() == 0 {
        assert(w.staged.dom() =~= Set::empty());
    }
    let q = ripe(w, key)[0];
    assert(w.staged.contains_key(q));
    if q != k {
        assert(v.staged.contains_key(q));
        assert(Key2 { a: q.a, b: q.b } == key);
    }
    if v.staged.contains_key(k) {
        assert(v.segs.contains_key(Key2 { a: k.a, b: k.b }));
    }
}

/// A chunk that its segment has room for leaves the whole as it should be between two calls.
proof fn lemma_staged_steady(v: Model, key: Key2, offset: u64, data: Seq<u8>)
    requires
        inv(v),
        steady(v),
        !v.quarantined.contains(key.a as u32),
        key.a <= u32::MAX,
        key.b <= u32::MAX,
        offset >= seg_at(v, key).next_expected,
        offset + data.len() <= u64::MAX,
        charged(v) + data.len() <= u64::MAX,
        offset > seg_at(v, key).next_expected ==> seg_at(v, key).pending_bytes + growth(v, key, offset, data) <= v.budgets.l2_segment_cap,
    ensures
        ({
            let w = with_chunk(v, key, offset, data);
            steady(drained(w, key, w.staged.dom().len()).v)
        }),
{
    let s = seg_at(v, key);
    let w = with_chunk(v, key, offset, data);
    lemma_with_chunk(v, key, offset, data);
    let n = w.staged.dom().len();
    assert(cleared(w)) by {
        assert forall|k: Key3| #[trigger] w.staged.contains_key(k) implies !w.quarantined.contains(k.a as u32) by {
            if k != (Key3 { a: key.a, b: key.b, c: offset }) {
                assert(v.staged.contains_key(k));
            }
        }
    }
    assert forall|k: Key3| #[trigger] w.staged.contains_key(k) && !(k.a == key.a && k.b == key.b) implies w.segs[Key2 {
        a: k.a,
        b: k.b,
    }].next_expected < k.c by {
        assert(v.staged.contains_key(k));
    }
    if offset > s.next_expected {
        assert forall|q: Key2| #[trigger] w.segs.contains_key(q) implies w.segs[q].pending_bytes <= w.budgets.l2_segment_cap by {
            if q != key {
                assert(v.segs.contains_key(q));
            }
        }
        lemma_drained_steady(w, key, n);
    } else {
        lemma_in_order_first(v, key, data);
        let k = Key3 { a: key.a, b: key.b, c: offset };
        let x = drained_once(w, key, k);
        assert(w.staged.contains_key(k));
        lemma_drained_once(w, key, k);
        assert forall|q: Key2| #[trigger] x.segs.contains_key(q) implies x.segs[q].pending_bytes <= x.budgets.l2_segment_cap by {
            assert(w.segs.contains_key(q));
            if q != key {
                assert(v.segs.contains_key(q));
            } else if v.segs.contains_key(key) {
                assert(v.segs[key].pending_bytes <= v.budgets.l2_segment_cap);
            }
        }
        assert forall|q: Key3| #[trigger] x.staged.contains_key(q) && !(q.a == key.a && q.b == key.b) implies x.segs[Key2 {
            a: q.a,
            b: q.b,
        }].next_expected < q.c by {
            assert(w.staged.contains_key(q));
            assert(w.segs.contains_key(Key2 { a: q.a, b: q.b }));
        }
        assert(cleared(x)) by {
            assert forall|q: Key3| #[trigger] x.staged.contains_key(q) implies !x.quarantined.contains(q.a as u32) by {
                assert(w.staged.contains_key(q));
            }
        }
        lemma_drained_steady(x, key, (n - 1) as nat);
    }
}

/// Quarantine keeps the books.
proof fn lemma_quarantined(v: Model, dev: u32)
    requires
        inv(v),
    ensures
        inv(quarantine_of(v, dev).v),
        capped(v) ==> capped(quarantine_of(v, dev).v),
        !v.quarantined.contains(dev) ==> charged_to(quarantine_of(v, dev).v, dev) == 0,
        forall|d: u32| d != dev ==> #[trigger] charged_to(quarantine_of(v, dev).v, d) == charged_to(v, d),
{
    let w = quarantine_of(v, dev).v;
    if !v.quarantined.contains(dev) {
        assert(w.segs.dom() =~= v.segs.dom());
        assert(w.staged.dom().subset_of(v.staged.dom()));
        vstd::set_lib::lemma_len_subset(w.staged.dom(), v.staged.dom());
        assert(charges(w.segs, None).dom() =~= w.segs.dom());
        assert(charges(v.segs, None).dom() =~= v.segs.dom());
        assert forall|k: Key2| #[trigger] charges(w.segs, None).contains_key(k) implies charges(w.segs, None)[k] <= charges(v.segs, None)[k] by {
            assert(w.segs.contains_key(k));
        }
        lemma_total_le(charges(w.segs, None), charges(v.segs, None));
        assert(charges(w.segs, Some(dev)).dom() =~= w.segs.dom());
        assert forall|k: Key2| #[trigger] charges(w.segs, Some(dev)).contains_key(k) implies charges(w.segs, Some(dev))[k] == 0 by {
            assert(w.segs.contains_key(k));
        }
        lemma_total_zero(charges(w.segs, Some(dev)));
        assert forall|d: u32| d != dev implies #[trigger] charged_to(w, d) == charged_to(v, d) by {
            assert(charges(w.segs, Some(d)) =~= charges(v.segs, Some(d)));
        }
        assert forall|x: Key2| #[trigger] w.segs.contains_key(x) implies total(lengths(w.staged, x)) == w.segs[x].pending_bytes by {
            assert(v.segs.contains_key(x));
            if x.a == dev {
                lemma_lengths_none(w.staged, x);
            } else {
                lemma_lengths_sub(w.staged, v.staged, x);
            }
        }
        assert forall|x: Key3| #[trigger] w.staged.contains_key(x) implies w.segs.contains_key(Key2 { a: x.a, b: x.b }) && x.c
            + w.staged[x].len() <= u64::MAX by {
            assert(v.staged.contains_key(x));
        }
        assert forall|k: Key2| #[trigger] w.segs.contains_key(k) implies k.a <= u32::MAX && k.b <= u32::MAX by {
            assert(v.segs.contains_key(k));
        }
        if capped(v) {
            assert forall|k: Key2| #[trigger] w.segs.contains_key(k) implies w.segs[k].pending_bytes <= w.budgets.l2_segment_cap by {
                assert(v.segs.contains_key(k));
            }
        }
    }
}

impl Reassembler {
    /// Marks the segments of a device as skipped and takes their charges back.
    fn skip_segments(&mut self, dev_id: u32)
        requires
            old(self).sound(),
        ensures
            final(self).segs.wf(),
            final(self).segs@ == quarantine_of(Model { quarantined: Set::empty(), ..old(self)@ }, dev_id).v.segs,
            final(self).global_pending == total(charges(final(self).segs@, None)),
            final(self).staged == old(self).staged,
            final(self).conn_pending == old(self).conn_pending,
            final(self).quarantined == old(self).quarantined,
            final(self).evict == old(self).evict,
            final(self).last_seq == old(self).last_seq,
            final(self).budgets == old(self).budgets,
            final(self).now == old(self).now,
    {
        let ks = self.segs.range(
            &Key2 { a: dev_id as u64, b: 0 },
            &Key2 { a: dev_id as u64, b: 0xffff_ffff_ffff_ffff },
        );
        let ghost m0 = self.segs@;
        let mut i: usize = 0;
        while i < ks.len()
            invariant
                i <= ks@.len(),
                self.segs.wf(),
                m0.dom().finite(),
                self.segs@.dom() == m0.dom(),
                m0 == old(self).segs@,
                self.global_pending == total(charges(self.segs@, None)),
                self.staged == old(self).staged,
                self.conn_pending == old(self).conn_pending,
                self.quarantined == old(self).quarantined,
                self.evict == old(self).evict,
                self.last_seq == old(self).last_seq,
                self.budgets == old(self).budgets,
                self.now == old(self).now,
                forall|j: int| 0 <= j < ks@.len() ==> m0.dom().contains(#[trigger] ks@[j]) && ks@[j].a == dev_id,
                forall|j: int, l: int| 0 <= j < l < ks@.len() ==> ks@[j] != ks@[l],
                forall|j: int| 0 <= j < i ==> self.segs@[#[trigger] ks@[j]] == (SegmentBuf {
                    state: SegmentState::Skipped,
                    pending_bytes: 0,
                    ..m0[ks@[j]]
                }),
                forall|j: int| i <= j < ks@.len() ==> self.segs@[#[trigger] ks@[j]] == m0[ks@[j]],
                forall|k: Key2| #[trigger] m0.contains_key(k) && k.a != dev_id ==> self.segs@[k] == m0[k],
            decreases ks@.len() - i,
        {
            let key = ks[i];
            assert(self.segs@.dom().contains(key));
            let s0 = self.segment_raw(&key);
            let mut s = s0;
            s.state = SegmentState::Skipped;
            s.pending_bytes = 0;
            proof {
                lemma_charge(self.segs@, None, key, s);
                lemma_charged_to_le(self.segs@, None, key);
            }
            self.segs.put(key, s);
            self.global_pending = self.global_pending.saturating_sub(s0.pending_bytes);
            assert(self.segs@.dom() =~= m0.dom());
            i += 1;
        }
        proof {
            let want = quarantine_of(Model { quarantined: Set::empty(), ..old(self)@ }, dev_id).v.segs;
            assert forall|k: Key2| self.segs@.contains_key(k) implies self.segs@[k] == want[k] by {
                assert(m0.dom().contains(k));
                if k.a == dev_id {
                    assert(ks@.contains(k));
                    let j = choose|j: int| 0 <= j < ks@.len() && ks@[j] == k;
                    assert(self.segs@[ks@[j]] == (SegmentBuf { state: SegmentState::Skipped, pending_bytes: 0, ..m0[ks@[j]] }));
                }
            }
            assert(self.segs@ =~= want);
        }
    }

    /// Removes every staged chunk of a device.
    fn unstage_device(staged: &mut Table<Key3, Vec<u8>>, dev_id: u32)
        requires
            old(staged).wf(),
        ensures
            final(staged).wf(),
            final(staged)@ == Map::new(|k: Key3| old(staged)@.contains_key(k) && k.a != dev_id, |k: Key3| old(staged)@[k]),
    {
        let ks = staged.range(
            &Key3 { a: dev_id as u64, b: 0, c: 0 },
            &Key3 { a: dev_id as u64, b: 0xffff_ffff_ffff_ffff, c: 0xffff_ffff_ffff_ffff },
        );
        let mut i: usize = 0;
        let ghost m0 = staged@;
        while i < ks.len()
            invariant
                i <= ks@.len(),
                staged.wf(),
                forall|j: int| 0 <= j < ks@.len() ==> (#[trigger] ks@[j]).a == dev_id,
                forall|k: Key3| #[trigger] staged@.contains_key(k) ==> m0.contains_key(k) && staged@[k] == m0[k],
                forall|k: Key3| #[trigger] m0.contains_key(k) && k.a != dev_id ==> staged@.contains_key(k),
                forall|j: int| 0 <= j < i ==> !staged@.contains_key(#[trigger] ks@[j]),
            decreases ks@.len() - i,
        {
            staged.delete(&ks[i]);
            i += 1;
        }
        proof {
            assert forall|k: Key3| staged@.contains_key(k) implies k.a != dev_id by {
                if k.a == dev_id {
                    assert(m0.dom().contains(k));
                    assert(ks@.contains(k));
                    let j = choose|j: int| 0 <= j < ks@.len() && ks@[j] == k;
                    assert(!staged@.contains_key(ks@[j]));
                }
            }
            assert(staged@ =~= Map::new(|k: Key3| m0.contains_key(k) && k.a != dev_id, |k: Key3| m0[k]));
        }
    }

    /// Puts a device in quarantine.
    fn quarantine(&mut self, dev_id: u32, events: &mut Vec<Event>)
        requires
            old(self).wf(),
        ensures
            final(self).wf(),
            final(self)@ == quarantine_of(old(self)@, dev_id).v,
            event_views(final(events)@) == event_views(old(events)@) + quarantine_of(old(self)@, dev_id).events,
    {
        if self.quarantined.contains(&dev_id) {
            assert(event_views(events@) =~= event_views(events@) + Seq::<EventView>::empty());
            return;
        }
        proof {
            lemma_quarantined(self@, dev_id);
        }
        let ghost v0 = self@;
        let ghost want = quarantine_of(v0, dev_id).v;
        self.skip_segments(dev_id);
        self.quarantined.put(dev_id, true);
        Self::unstage_device(&mut self.staged, dev_id);
        self.conn_pending.delete(&dev_id);
        self.evict.delete(&dev_id);
        proof {
            assert(self@.segs =~= want.segs);
            assert(self@.staged =~= want.staged);
            assert(self@.quarantined =~= want.quarantined);
            assert(self@ =~= want);
            assert forall|d: u32| #[trigger] cached(self.conn_pending@, d) == charged_to(self@, d) by {
                assert(cached(old(self).conn_pending@, d) == charged_to(v0, d));
                if d != dev_id {
                    assert(charged_to(want, d) == charged_to(v0, d));
                }
            }
        }
        push_event(events, Event::Quarantine { dev_id });
        assert(event_views(events@) =~= event_views(old(events)@) + quarantine_of(old(self)@, dev_id).events);
    }

    /// Relieves a device that is over its limit.
    fn evict_oldest_in_dev(&mut self, events: &mut Vec<Event>, dev_id: u32)
        requires
            old(self).wf(),
        ensures
            final(self).wf(),
            final(self)@ == device_relieved(old(self)@, dev_id).v,
            event_views(final(events)@) == event_views(old(events)@) + device_relieved(old(self)@, dev_id).events,
    {
        assert(event_views(events@) =~= event_views(events@) + Seq::<EventView>::empty());
        let ghost v0 = self@;
        let ghost e0 = event_views(events@);
        let found = self.find_victim(Some(dev_id));
        if let Some(k) = found {
            self.evict_chunk(events, k);
            let mut st = match self.evict.get(&dev_id) {
                Some(st) => *st,
                None => EvictState { streak: 0, window_start: self.now },
            };
            if self.now.saturating_sub(st.window_start) > self.budgets.evict_window_secs {
                st.streak = 1;
                st.window_start = self.now;
            } else {
                st.streak = st.streak.saturating_add(1);
            }
            let ghost e1 = self@;
            self.evict.put(dev_id, st);
            proof {
                assert(st == next_streak(v0, dev_id));
                assert(self@ =~= (Model { evict: v0.evict.insert(dev_id, st), ..e1 }));
                assert forall|d: u32| #[trigger] cached(self.conn_pending@, d) == charged_to(self@, d) by {
                    assert(charged_to(self@, d) == charged_to(e1, d));
                }
            }
            if st.streak >= self.budgets.evict_threshold {
                self.quarantine(dev_id, events);
            }
            assert(event_views(events@) =~= e0 + device_relieved(v0, dev_id).events);
        }
    }

    /// Relieves the whole.
    fn evict_oldest_global(&mut self, events: &mut Vec<Event>)
        requires
            old(self).wf(),
        ensures
            final(self).wf(),
            final(self)@ == relieved(old(self)@).v,
            event_views(final(events)@) == event_views(old(events)@) + relieved(old(self)@).events,
    {
        assert(event_views(events@) =~= event_views(events@) + Seq::<EventView>::empty());
        let found = self.find_victim(None);
        if let Some(k) = found {
            self.evict_chunk(events, k);
        }
    }

    /// Length of the chunk staged at an offset.
    fn staged_bytes(&self, key: Key2, offset: u64) -> (n: u64)
        requires
            self.sound(),
        ensures
            n == staged_len(self@, key, offset),
    {
        proof {
            lemma_staged_len(self@, key, offset);
        }
        match self.staged.get(&Key3 { a: key.a, b: key.b, c: offset }) {
            Some(d) => d.len() as u64,
            None => 0,
        }
    }

    /// Makes room for a device before it stages more.
    fn make_room_for_device(&mut self, events: &mut Vec<Event>, dev_id: u32, grown: u64, gone: u64)
        requires
            old(self).wf(),
            charged(old(self)@) + grown <= u64::MAX,
            gone <= charged_to(old(self)@, dev_id),
        ensures
            final(self).wf(),
            final(self)@ == room_for_device(old(self)@, dev_id, grown - gone).v,
            event_views(final(events)@) == event_views(old(events)@) + room_for_device(old(self)@, dev_id, grown - gone).events,
    {
        assert(event_views(events@) =~= event_views(events@) + Seq::<EventView>::empty());
        proof {
            assert(charges(self.segs@, Some(dev_id)).dom() =~= self.segs@.dom());
            assert(charges(self.segs@, None).dom() =~= self.segs@.dom());
            lemma_total_le(charges(self.segs@, Some(dev_id)), charges(self.segs@, None));
        }
        let used: u64 = self.conn_used(dev_id);
        if grown > gone && used + grown - gone > self.budgets.l25_conn_cap {
            self.evict_oldest_in_dev(events, dev_id);
        }
    }

    /// Makes room for all before more is staged.
    fn make_room_for_all(&mut self, events: &mut Vec<Event>, grown: u64, gone: u64)
        requires
            old(self).wf(),
            charged(old(self)@) + grown <= u64::MAX,
            gone <= charged(old(self)@),
        ensures
            final(self).wf(),
            final(self)@ == room_for_all(old(self)@, grown - gone).v,
            event_views(final(events)@) == event_views(old(events)@) + room_for_all(old(self)@, grown - gone).events,
    {
        assert(event_views(events@) =~= event_views(events@) + Seq::<EventView>::empty());
        if grown > gone && self.global_pending + grown - gone > self.budgets.l3_global_cap {
            self.evict_oldest_global(events);
        }
    }

    /// Stages a chunk.
    fn stage(&mut self, key: Key2, offset: u64, data: Vec<u8>)
        requires
            old(self).sound(),
            key.a <= u32::MAX,
            key.b <= u32::MAX,
            offset + data@.len() <= u64::MAX,
            charged(old(self)@) + data@.len() <= u64::MAX,
        ensures
            final(self).sound(),
            final(self)@ == with_chunk(old(self)@, key, offset, data@),
    {
        proof {
            lemma_with_chunk(self@, key, offset, data@);
            let dev = key.a as u32;
            assert(cached(self.conn_pending@, dev) == charged_to(self@, dev));
            assert(charges(self.segs@, Some(dev)).dom() =~= self.segs@.dom());
            assert(charges(self.segs@, None).dom() =~= self.segs@.dom());
            lemma_total_le(charges(self.segs@, Some(dev)), charges(self.segs@, None));
        }
        let n: u64 = data.len() as u64;
        let dev: u32 = key.a as u32;
        let mut s = self.segment(&key);
        let gone: u64 = self.staged_bytes(key, offset);
        s.pending_bytes = s.pending_bytes + n - gone;
        let used: u64 = self.conn_used(dev);
        proof {
            if old(self)@.segs.contains_key(key) {
                lemma_charged_to_le(old(self).segs@, Some(dev), key);
            }
        }
        self.segs.put(key, s);
        self.staged.put(Key3 { a: key.a, b: key.b, c: offset }, data);
        self.global_pending = self.global_pending + n - gone;
        self.conn_pending.put(dev, used + n - gone);
        proof {
            assert(self@ =~= with_chunk(old(self)@, key, offset, data@));
            assert forall|d: u32| #[trigger] cached(self.conn_pending@, d) == charged_to(self@, d) by {
                assert(cached(old(self).conn_pending@, d) == charged_to(old(self)@, d));
            }
        }
    }

    /// Takes in new data at or ahead of the cursor.
    fn accept(&mut self, events: &mut Vec<Event>, dev_id: u32, segment_seq: u32, offset: u64, data: Vec<u8>)
        requires
            old(self).wf(),
            offset >= seg_at(old(self)@, seg_key(dev_id, segment_seq)).next_expected,
            offset + data@.len() <= u64::MAX,
            charged(old(self)@) + data@.len() <= u64::MAX,
        ensures
            final(self).wf(),
            final(self)@ == accepted(old(self)@, dev_id, segment_seq, offset, data@).v,
            event_views(final(events)@) == event_views(old(events)@) + accepted(old(self)@, dev_id, segment_seq, offset, data@).events,
    {
        let ghost v0 = self@;
        let ghost e0 = event_views(events@);
        let key = Key2 { a: dev_id as u64, b: segment_seq as u64 };
        let n: u64 = data.len() as u64;
        let s = self.segment(&key);
        let ahead = offset > s.next_expected;
        let gone: u64 = self.staged_bytes(key, offset);
        proof {
            lemma_with_chunk(v0, key, offset, data@);
            lemma_charge_covers(v0, key, offset);
        }
        if ahead && s.pending_bytes + n - gone > self.budgets.l2_segment_cap {
            self.mark_segment_error(events, dev_id, segment_seq);
            return;
        }
        let ghost a = room_for_device(v0, dev_id, if ahead { growth(v0, key, offset, data@) } else { 0 });
        proof {
            lemma_device_relieved(v0, dev_id, key);
            assert(staged_len(a.v, key, offset) >= 0);
        }
        if ahead {
            self.make_room_for_device(events, dev_id, n, gone);
        } else {
            assert(event_views(events@) =~= e0 + a.events);
        }
        if self.quarantined.contains(&dev_id) {
            push_event(events, Event::QuarantinedDrop { dev_id, bytes: n });
            assert(event_views(events@) =~= e0 + accepted(v0, dev_id, segment_seq, offset, data@).events);
            return;
        }
        let gone: u64 = self.staged_bytes(key, offset);
        let ghost b = room_for_all(a.v, growth(a.v, key, offset, data@));
        proof {
            lemma_charge_covers(a.v, key, offset);
            lemma_relieved(a.v, key);
            assert(staged_len(b.v, key, offset) >= 0);
        }
        self.make_room_for_all(events, n, gone);
        let ghost w = with_chunk(b.v, key, offset, data@);
        let ghost d = drained(w, key, w.staged.dom().len());
        proof {
            lemma_staged_steady(b.v, key, offset, data@);
        }
        self.stage(key, offset, data);
        self.drain_contiguous(events, key);
        assert(event_views(events@) =~= e0 + (a.events + b.events + d.events));
    }
}

impl Reassembler {
    /// Takes in one chunk of plain data and returns what follows from it.
    pub fn place_chunk(&mut self, dev_id: u32, segment_seq: u32, offset: u64, data: &[u8]) -> (events: Vec<Event>)
        requires
            old(self).wf(),
            offset + data@.len() <= u64::MAX,
            charged(old(self)@) + data@.len() <= u64::MAX,
        ensures
            final(self).wf(),
            final(self)@ == placed(old(self)@, dev_id, segment_seq, offset, data@).v,
            event_views(events@) == placed(old(self)@, dev_id, segment_seq, offset, data@).events,
    {
        let mut events: Vec<Event> = Vec::new();
        assert(event_views(events@) =~= Seq::<EventView>::empty());
        let ghost out = placed(self@, dev_id, segment_seq, offset, data@);
        let n: u64 = data.len() as u64;
        if self.quarantined.contains(&dev_id) {
            push_event(&mut events, Event::QuarantinedDrop { dev_id, bytes: n });
            assert(event_views(events@) =~= out.events);
            return events;
        }
        let next: u64 = self.segment(&Key2 { a: dev_id as u64, b: segment_seq as u64 }).next_expected;
        if offset + n <= next {
            self.note_duplicate(dev_id, segment_seq, &mut events);
            assert(event_views(events@) =~= out.events);
            return events;
        }
        if offset < next {
            let cut: usize = (next - offset) as usize;
            let fresh = copy_range(data, cut, data.len());
            assert(fresh@ =~= data@.skip(next - offset));
            self.accept(&mut events, dev_id, segment_seq, next, fresh);
        } else {
            let fresh = copy_range(data, 0, data.len());
            assert(fresh@ =~= data@);
            self.accept(&mut events, dev_id, segment_seq, offset, fresh);
        }
        assert(event_views(events@) =~= out.events);
        events
    }

    /// Reports the segment numbers that were passed over.
    fn report_skipped(events: &mut Vec<Event>, dev_id: u32, last: Option<u32>, segment_seq: u32)
        ensures
            event_views(final(events)@) == event_views(old(events)@) + skipped(dev_id, last, segment_seq),
    {
        assert(event_views(events@) =~= event_views(old(events)@) + Seq::<EventView>::empty());
        let n: u32 = match last {
            Some(n) => n,
            None => segment_seq,
        };
        let ghost all = skipped(dev_id, last, segment_seq);
        if segment_seq > n && segment_seq - n > 1 {
            let mut miss: u32 = n + 1;
            while miss < segment_seq
                invariant
                    n < miss <= segment_seq,
                    last == Some(n),
                    segment_seq - n > 1,
                    all == skipped(dev_id, last, segment_seq),
                    event_views(events@) == event_views(old(events)@) + all.take(miss - n - 1),
                decreases segment_seq - miss,
            {
                push_event(events, Event::SeqSkipped { dev_id, segment_seq: miss });
                assert(all.take(miss - n) =~= all.take(miss - n - 1).push(EventView::SeqSkipped { dev_id, segment_seq: miss }));
                miss += 1;
            }
            assert(all.take(segment_seq - n - 1) =~= all);
        }
    }

    /// Releases a segment with what it has staged.
    fn release_segment(&mut self, key: Key2)
        requires
            old(self).wf(),
            old(self)@.segs.contains_key(key),
        ensures
            final(self).wf(),
            final(self)@ == (Model {
                segs: old(self)@.segs.remove(key),
                staged: unstaged(old(self)@.staged, key),
                ..old(self)@
            }),
    {
        proof {
            assert(self@.segs.contains_key(key));
            lemma_released(self@, key);
            let dev = key.a as u32;
            lemma_charged_to_le(self.segs@, Some(dev), key);
            assert(cached(self.conn_pending@, dev) == charged_to(self@, dev));
        }
        let s = self.segment_raw(&key);
        self.segs.delete(&key);
        Self::unstage(&mut self.staged, key);
        self.global_pending = self.global_pending.saturating_sub(s.pending_bytes);
        Self::uncharge(&mut self.conn_pending, key.a as u32, s.pending_bytes);
        proof {
            assert(self@ =~= (Model { segs: old(self)@.segs.remove(key), staged: unstaged(old(self)@.staged, key), ..old(self)@ }));
            assert forall|d: u32| #[trigger] cached(self.conn_pending@, d) == charged_to(self@, d) by {
                assert(cached(old(self).conn_pending@, d) == charged_to(old(self)@, d));
            }
        }
    }

    /// Seals a segment: compares what has arrived with the size given, and reports the segment numbers
    /// passed over since the highest one sealed.
    pub fn seal(&mut self, dev_id: u32, segment_seq: u32, sealed_size: u64) -> (events: Vec<Event>)
        requires
            old(self).wf(),
        ensures
            final(self).wf(),
            final(self)@ == sealed(old(self)@, dev_id, segment_seq, sealed_size).v,
            event_views(events@) == sealed(old(self)@, dev_id, segment_seq, sealed_size).events,
    {
        let mut events: Vec<Event> = Vec::new();
        let ghost out = sealed(self@, dev_id, segment_seq, sealed_size);
        let last: Option<u32> = match self.last_seq.get(&dev_id) {
            Some(n) => Some(*n),
            None => None,
        };
        Self::report_skipped(&mut events, dev_id, last, segment_seq);
        assert(event_views(events@) =~= skipped(dev_id, last, segment_seq));
        let highest = match last {
            Some(n) => segment_seq > n,
            None => true,
        };
        if highest {
            self.last_seq.put(dev_id, segment_seq);
        }
        assert(forall|d: u32| #[trigger] charged_to(self@, d) == charged_to(old(self)@, d));
        let key = Key2 { a: dev_id as u64, b: segment_seq as u64 };
        assert(self.wf());
        if !self.segs.contains(&key) {
            return events;
        }
        let mut s = self.segment_raw(&key);
        if s.next_expected == sealed_size {
            self.release_segment(key);
            push_event(&mut events, Event::Sealed { dev_id, segment_seq, size: sealed_size });
        } else {
            s.sealed_size = Some(sealed_size);
            proof {
                lemma_same_charge(self@, key, s);
            }
            let ghost w = self@;
            self.segs.put(key, s);
            proof {
                assert(self@ =~= (Model { segs: w.segs.insert(key, s), ..w }));
                assert forall|d: u32| #[trigger] cached(self.conn_pending@, d) == charged_to(self@, d) by {
                    assert(cached(old(self).conn_pending@, d) == charged_to(old(self)@, d));
                    assert(charged_to(w, d) == charged_to(old(self)@, d));
                }
            }
            push_event(
                &mut events,
                Event::SealGap { dev_id, segment_seq, next_expected: s.next_expected, sealed_size },
            );
        }
        assert(event_views(events@) =~= out.events);
        events
    }
}

/// Relieving a device changes no cursor, and charges no segment more.
proof fn lemma_device_relieved(v: Model, dev: u32, key: Key2)
    requires
        inv(v),
        steady(v),
    ensures
        ({
            let w = device_relieved(v, dev).v;
            &&& inv(w)
            &&& steady(w)
            &&& charged(w) <= charged(v)
            &&& w.budgets == v.budgets
            &&& seg_at(w, key).next_expected == seg_at(v, key).next_expected
            &&& seg_at(w, key).pending_bytes <= seg_at(v, key).pending_bytes
            &&& forall|o: u64| #[trigger] staged_len(w, key, o) >= seg_at(w, key).pending_bytes - seg_at(v, key).pending_bytes + staged_len(v, key, o)
        }),
{
    let keys = staged_keys(v, Some(dev));
    crate::table::lemma_scan_exists(
        v.staged.dom(),
        Key3 { a: dev as u64, b: 0, c: 0 },
        Key3 { a: dev as u64, b: u64::MAX, c: u64::MAX },
    );
    lemma_victim(v, keys, keys.len());
    if let Some(k) = victim(v.quarantined, keys, keys.len()) {
        lemma_without_chunk(v, k);
        let e = without_chunk(v, k);
        let st = next_streak(v, dev);
        let w = Model { evict: v.evict.insert(dev, st), ..e };
        lemma_same_segments(e, w);
        lemma_quarantined(w, dev);
        let q = quarantine_of(w, dev).v;
        assert(charges(q.segs, None).dom() =~= q.segs.dom());
        assert(charges(w.segs, None).dom() =~= w.segs.dom());
        if !w.quarantined.contains(dev) {
            assert(q.segs.dom() =~= w.segs.dom());
        }
        assert forall|x: Key2| #[trigger] charges(q.segs, None).contains_key(x) implies charges(q.segs, None)[x] <= charges(w.segs, None)[x] by {
            assert(q.segs.contains_key(x));
        }
        lemma_total_le(charges(q.segs, None), charges(w.segs, None));
        let r = device_relieved(v, dev).v;
        assert forall|x: Key3| #[trigger] r.staged.contains_key(x) implies r.segs[Key2 { a: x.a, b: x.b }].next_expected < x.c by {
            assert(v.staged.contains_key(x));
            assert(v.segs.contains_key(Key2 { a: x.a, b: x.b }));
        }
        assert forall|x: Key3| #[trigger] r.staged.contains_key(x) implies !r.quarantined.contains(x.a as u32) by {
            assert(v.staged.contains_key(x));
            assert(v.segs.contains_key(Key2 { a: x.a, b: x.b }));
        }
        assert forall|o: u64| #[trigger] staged_len(r, key, o) >= seg_at(r, key).pending_bytes - seg_at(v, key).pending_bytes + staged_len(
            v,
            key,
            o,
        ) by {
            lemma_staged_len(v, key, o);
        }
    }
}

/// Relieving the whole changes no cursor, and charges no segment more.
proof fn lemma_relieved(v: Model, key: Key2)
    requires
        inv(v),
        steady(v),
    ensures
        ({
            let w = relieved(v).v;
            &&& inv(w)
            &&& steady(w)
            &&& charged(w) <= charged(v)
            &&& w.budgets == v.budgets
            &&& seg_at(w, key).next_expected == seg_at(v, key).next_expected
            &&& seg_at(w, key).pending_bytes <= seg_at(v, key).pending_bytes
            &&& forall|o: u64| #[trigger] staged_len(w, key, o) >= seg_at(w, key).pending_bytes - seg_at(v, key).pending_bytes + staged_len(v, key, o)
        }),
{
    let keys = staged_keys(v, None);
    crate::table::lemma_scan_exists(v.staged.dom(), Key3 { a: 0, b: 0, c: 0 }, Key3 { a: u64::MAX, b: u64::MAX, c: u64::MAX });
    lemma_victim(v, keys, keys.len());
    if let Some(k) = victim(v.quarantined, keys, keys.len()) {
        lemma_without_chunk(v, k);
        let w = without_chunk(v, k);
        assert forall|x: Key3| #[trigger] w.staged.contains_key(x) implies w.segs[Key2 { a: x.a, b: x.b }].next_expected < x.c by {
            assert(v.staged.contains_key(x));
        }
        assert forall|o: u64| #[trigger] staged_len(w, key, o) >= seg_at(w, key).pending_bytes - seg_at(v, key).pending_bytes + staged_len(
            v,
            key,
            o,
        ) by {
            lemma_staged_len(v, key, o);
        }
    }
}

/// What a chunk replaces is part of what is charged.
proof fn lemma_charge_covers(v: Model, key: Key2, offset: u64)
    requires
        inv(v),
    ensures
        staged_len(v, key, offset) <= charged(v),
        key.a <= u32::MAX ==> staged_len(v, key, offset) <= charged_to(v, key.a as u32),
{
    lemma_staged_len(v, key, offset);
    if v.segs.contains_key(key) {
        lemma_charged_to_le(v.segs, Some(key.a as u32), key);
    }
}

proof fn lemma_victim(v: Model, keys: Seq<Key3>, n: nat)
    requires
        n <= keys.len(),
        forall|i: int| 0 <= i < keys.len() ==> v.staged.dom().contains(#[trigger] keys[i]),
    ensures
        victim(v.quarantined, keys, n) matches Some(k) ==> v.staged.contains_key(k),
    decreases n,
{
    if n > 0 {
        lemma_victim(v, keys, (n - 1) as nat);
        assert(v.staged.dom().contains(keys[n - 1]));
    }
}

} // verus!
