//! Laws of reassembly.

use crate::reassembly::{
    accepted, charged, charged_to, charges, device_relieved, drained, drained_event, drained_once, duplicate,
    empty_model, given_up, growth, inv, left_behind, lemma_cleared, lemma_device_relieved,
    lemma_drained_once, lemma_in_order_first, lemma_lengths_none, lemma_released, lemma_relieved, lemma_ripe,
    lemma_same_charge, lemma_same_segments, lemma_staged_steady, lemma_victim, lemma_with_chunk, placed,
    relieved, ripe, room_for_all, room_for_device, sealed, seg_at, seg_key, staged_keys, staged_len, steady,
    victim, with_chunk, Budgets, EventView, Model, Out, SegmentBuf, SegmentState,
};
use crate::table::{lemma_scan_exists, Key2, Key3};
use crate::total::lemma_total_zero;
use vstd::prelude::*;

verus! {

/// What is staged for a segment agrees with its content.
pub open spec fn truthful(v: Model, key: Key2, content: Seq<u8>) -> bool {
    forall|k: Key3| #[trigger]
        v.staged.contains_key(k) && k.a == key.a && k.b == key.b ==> k.c + v.staged[k].len() <= content.len() && v.staged[k]
            == content.subrange(k.c as int, k.c + v.staged[k].len())
}

/// What the events pass on, end to end.
pub open spec fn passed_on(events: Seq<EventView>) -> Seq<u8>
    decreases events.len(),
{
    if events.len() == 0 {
        Seq::empty()
    } else {
        let rest = passed_on(events.drop_first());
        match events[0] {
            EventView::Append { dev_id, segment_seq, offset, data } => data + rest,
            _ => rest,
        }
    }
}

/// Every piece passed on belongs to the segment and stands where the pieces before it end.
pub open spec fn in_sequence(events: Seq<EventView>, key: Key2, at: int) -> bool
    decreases events.len(),
{
    if events.len() == 0 {
        true
    } else {
        match events[0] {
            EventView::Append { dev_id, segment_seq, offset, data } => {
                &&& dev_id == key.a
                &&& segment_seq == key.b
                &&& offset == at
                &&& in_sequence(events.drop_first(), key, at + data.len())
            },
            _ => in_sequence(events.drop_first(), key, at),
        }
    }
}

/// No event passes anything on.
spec fn silent(events: Seq<EventView>) -> bool {
    forall|i: int| 0 <= i < events.len() ==> !(#[trigger] events[i] is Append)
}

proof fn lemma_silent_before(a: Seq<EventView>, b: Seq<EventView>, key: Key2, at: int)
    requires
        silent(a),
    ensures
        passed_on(a + b) == passed_on(b),
        in_sequence(a + b, key, at) == in_sequence(b, key, at),
    decreases a.len(),
{
    if a.len() == 0 {
        assert(a + b =~= b);
    } else {
        assert((a + b).drop_first() =~= a.drop_first() + b);
        assert((a + b)[0] == a[0]);
        assert forall|i: int| 0 <= i < a.drop_first().len() implies !(#[trigger] a.drop_first()[i] is Append) by {
            assert(a.drop_first()[i] == a[i + 1]);
        }
        lemma_silent_before(a.drop_first(), b, key, at);
    }
}

proof fn lemma_silent(a: Seq<EventView>, key: Key2, at: int)
    requires
        silent(a),
    ensures
        passed_on(a) == Seq::<u8>::empty(),
        in_sequence(a, key, at),
{
    lemma_silent_before(a, Seq::empty(), key, at);
    assert(a + Seq::<EventView>::empty() =~= a);
}

/// What a step that only drops staged data leaves alone.
spec fn lightened(v: Model, w: Model) -> bool {
    &&& w.segs.dom() == v.segs.dom()
    &&& forall|k: Key2| #[trigger] v.segs.contains_key(k) ==> w.segs[k].next_expected == v.segs[k].next_expected
    &&& forall|k: Key3| #[trigger] w.staged.contains_key(k) ==> v.staged.contains_key(k) && w.staged[k] == v.staged[k]
    &&& v.quarantined.subset_of(w.quarantined)
    &&& w.last_seq == v.last_seq
    &&& w.budgets == v.budgets
}

/// Every staged chunk belongs to a known segment and ends within 64 bits.
spec fn framed(v: Model) -> bool {
    &&& v.staged.dom().finite()
    &&& forall|k: Key3| #[trigger] v.staged.contains_key(k) ==> v.segs.contains_key(Key2 { a: k.a, b: k.b }) && k.c + v.staged[k].len() <= u64::MAX
}

proof fn lemma_lightened_framed(v: Model, w: Model)
    requires
        framed(v),
        lightened(v, w),
    ensures
        framed(w),
{
    assert(w.staged.dom().subset_of(v.staged.dom())) by {
        assert forall|k: Key3| w.staged.dom().contains(k) implies v.staged.dom().contains(k) by {
            assert(w.staged.contains_key(k));
        }
    }
    vstd::set_lib::lemma_len_subset(w.staged.dom(), v.staged.dom());
    assert forall|k: Key3| #[trigger] w.staged.contains_key(k) implies w.segs.contains_key(Key2 { a: k.a, b: k.b }) && k.c + w.staged[k].len()
        <= u64::MAX by {
        assert(v.staged.contains_key(k));
        assert(v.segs.dom().contains(Key2 { a: k.a, b: k.b }));
    }
}

proof fn lemma_device_relieved_lightens(v: Model, dev: u32)
    requires
        framed(v),
    ensures
        lightened(v, device_relieved(v, dev).v),
        silent(device_relieved(v, dev).events),
{
    let keys = staged_keys(v, Some(dev));
    lemma_scan_exists(
        v.staged.dom(),
        Key3 { a: dev as u64, b: 0, c: 0 },
        Key3 { a: dev as u64, b: u64::MAX, c: u64::MAX },
    );
    lemma_victim(v, keys, keys.len());
    let w = device_relieved(v, dev).v;
    if let Some(k) = victim(v.quarantined, keys, keys.len()) {
        assert(v.segs.contains_key(Key2 { a: k.a, b: k.b }));
        assert(w.segs.dom() =~= v.segs.dom());
    }
}

proof fn lemma_relieved_lightens(v: Model)
    requires
        framed(v),
    ensures
        lightened(v, relieved(v).v),
        silent(relieved(v).events),
{
    let keys = staged_keys(v, None);
    lemma_scan_exists(v.staged.dom(), Key3 { a: 0, b: 0, c: 0 }, Key3 { a: u64::MAX, b: u64::MAX, c: u64::MAX });
    lemma_victim(v, keys, keys.len());
    if let Some(k) = victim(v.quarantined, keys, keys.len()) {
        assert(v.segs.contains_key(Key2 { a: k.a, b: k.b }));
        assert(relieved(v).v.segs.dom() =~= v.segs.dom());
    }
}

proof fn lemma_drained(v: Model, key: Key2, n: nat, content: Seq<u8>)
    requires
        inv(v),
        v.segs.contains_key(key),
    ensures
        ({
            let d = drained(v, key, n);
            let at = v.segs[key].next_expected;
            let end = d.v.segs[key].next_expected;
            &&& inv(d.v)
            &&& charged(d.v) <= charged(v)
            &&& d.v.segs.dom() == v.segs.dom()
            &&& forall|k: Key2| #[trigger] v.segs.contains_key(k) && k != key ==> d.v.segs[k] == v.segs[k]
            &&& d.v.quarantined == v.quarantined
            &&& d.v.last_seq == v.last_seq
            &&& d.v.budgets == v.budgets
            &&& at <= end
            &&& in_sequence(d.events, key, at as int)
            &&& passed_on(d.events).len() == end - at
            &&& truthful(v, key, content) && at <= content.len() ==> {
                &&& truthful(d.v, key, content)
                &&& end <= content.len()
                &&& passed_on(d.events) == content.subrange(at as int, end as int)
            }
        }),
    decreases n,
{
    let at = v.segs[key].next_expected;
    let d = drained(v, key, n);
    lemma_ripe(v, key);
    if n == 0 || ripe(v, key).len() == 0 {
        if at <= content.len() {
            assert(content.subrange(at as int, at as int) =~= Seq::<u8>::empty());
        }
    } else {
        let k = ripe(v, key)[0];
        let data = v.staged[k];
        lemma_drained_once(v, key, k);
        let next = drained_once(v, key, k);
        lemma_drained(next, key, (n - 1) as nat, content);
        let rest = drained(next, key, (n - 1) as nat);
        assert forall|q: Key2| #[trigger] v.segs.contains_key(q) && q != key implies d.v.segs[q] == v.segs[q] by {
            assert(next.segs.contains_key(q));
        }
        assert(truthful(v, key, content) ==> truthful(next, key, content));
        if left_behind(v, key, k) {
            assert(d.events =~= rest.events);
        } else {
            let fresh = data.skip(at - k.c);
            let e = EventView::Append { dev_id: key.a as u32, segment_seq: key.b as u32, offset: at, data: fresh };
            assert(d.events == seq![e] + rest.events);
            assert(d.events.drop_first() =~= rest.events);
            assert(d.events[0] == e);
            assert(passed_on(d.events) == fresh + passed_on(rest.events));
            if truthful(v, key, content) && at <= content.len() {
                let end = rest.v.segs[key].next_expected as int;
                assert(content.subrange(at as int, end) =~= fresh + content.subrange(at + fresh.len(), end));
            }
        }
    }
}

/// The relief of a device before a chunk is staged for it.
spec fn room_of(v: Model, dev: u32, seq: u32, offset: u64, data: Seq<u8>) -> Out {
    let key = seg_key(dev, seq);
    room_for_device(
        v,
        dev,
        if offset > seg_at(v, key).next_expected {
            growth(v, key, offset, data)
        } else {
            0
        },
    )
}

proof fn lemma_lightened_twice(u: Model, v: Model, w: Model)
    requires
        lightened(u, v),
        lightened(v, w),
    ensures
        lightened(u, w),
{
    assert forall|k: Key2| #[trigger] u.segs.contains_key(k) implies w.segs[k].next_expected == u.segs[k].next_expected by {
        assert(v.segs.contains_key(k));
    }
    assert forall|k: Key3| #[trigger] w.staged.contains_key(k) implies u.staged.contains_key(k) && w.staged[k] == u.staged[k] by {
        assert(v.staged.contains_key(k));
    }
}

/// Making room drops staged chunks and passes nothing on.
proof fn lemma_room(v: Model, dev: u32, seq: u32, offset: u64, data: Seq<u8>)
    requires
        inv(v),
        steady(v),
        charged(v) + data.len() <= u64::MAX,
    ensures
        ({
            let key = seg_key(dev, seq);
            let a = room_of(v, dev, seq, offset, data);
            let b = room_for_all(a.v, growth(a.v, key, offset, data));
            &&& inv(a.v)
            &&& steady(a.v)
            &&& charged(a.v) <= charged(v)
            &&& lightened(v, a.v)
            &&& silent(a.events)
            &&& inv(b.v)
            &&& steady(b.v)
            &&& charged(b.v) <= charged(v)
            &&& lightened(v, b.v)
            &&& silent(b.events)
            &&& seg_at(b.v, key).next_expected == seg_at(v, key).next_expected
            &&& seg_at(b.v, key).pending_bytes + growth(b.v, key, offset, data) <= seg_at(v, key).pending_bytes + growth(
                v,
                key,
                offset,
                data,
            )
        }),
{
    let key = seg_key(dev, seq);
    let a = room_of(v, dev, seq, offset, data);
    let b = room_for_all(a.v, growth(a.v, key, offset, data));
    lemma_device_relieved(v, dev, key);
    assert(framed(v));
    lemma_device_relieved_lightens(v, dev);
    assert(framed(a.v));
    assert(staged_len(a.v, key, offset) >= 0);
    lemma_relieved(a.v, key);
    lemma_relieved_lightens(a.v);
    assert(staged_len(b.v, key, offset) >= 0);
    lemma_lightened_twice(v, a.v, b.v);
}

/// What a chunk of new data leaves behind and reports.
proof fn lemma_accepted(v: Model, dev: u32, seq: u32, offset: u64, data: Seq<u8>, content: Seq<u8>)
    requires
        inv(v),
        steady(v),
        offset + data.len() <= u64::MAX,
        charged(v) + data.len() <= u64::MAX,
        offset >= seg_at(v, seg_key(dev, seq)).next_expected,
    ensures
        ({
            let key = seg_key(dev, seq);
            let a = accepted(v, dev, seq, offset, data);
            let at = seg_at(v, key).next_expected;
            let end = seg_at(a.v, key).next_expected;
            &&& inv(a.v)
            &&& steady(a.v)
            &&& charged(a.v) <= charged(v) + data.len()
            &&& v.quarantined.subset_of(a.v.quarantined)
            &&& forall|k: Key2| k != key ==> #[trigger] seg_at(a.v, k).next_expected == seg_at(v, k).next_expected
            &&& at <= end
            &&& in_sequence(a.events, key, at as int)
            &&& passed_on(a.events).len() == end - at
            &&& truthful(v, key, content) && offset + data.len() <= content.len() && data == content.subrange(
                offset as int,
                offset + data.len(),
            ) ==> {
                &&& truthful(a.v, key, content)
                &&& end <= content.len()
                &&& passed_on(a.events) == content.subrange(at as int, end as int)
            }
        }),
{
    let key = seg_key(dev, seq);
    let s = seg_at(v, key);
    let at = s.next_expected;
    let ahead = offset > at;
    let out = accepted(v, dev, seq, offset, data);
    if ahead && s.pending_bytes + growth(v, key, offset, data) > v.budgets.l2_segment_cap {
        let g = given_up(v, dev, seq);
        if v.segs.contains_key(key) {
            lemma_cleared(v, key, SegmentBuf { state: SegmentState::Error, pending_bytes: 0, ..v.segs[key] });
        }
        assert(silent(g.events));
        lemma_silent(g.events, key, at as int);
        if offset + data.len() <= content.len() {
            assert(content.subrange(at as int, at as int) =~= Seq::<u8>::empty());
        }
    } else {
        lemma_room(v, dev, seq, offset, data);
        let a = room_of(v, dev, seq, offset, data);
        if a.v.quarantined.contains(dev) {
            assert(silent(out.events));
            lemma_silent(out.events, key, at as int);
            if offset + data.len() <= content.len() {
                assert(content.subrange(at as int, at as int) =~= Seq::<u8>::empty());
            }
        } else {
            let b = room_for_all(a.v, growth(a.v, key, offset, data));
            let w = with_chunk(b.v, key, offset, data);
            lemma_with_chunk(b.v, key, offset, data);
            let d = drained(w, key, w.staged.dom().len());
            assert(out.v == d.v);
            assert(out.events == a.events + b.events + d.events);
            lemma_drained(w, key, w.staged.dom().len(), content);
            assert(seg_at(b.v, key).next_expected == at);
            assert(w.segs[key].next_expected == at);
            lemma_silent_before(b.events, d.events, key, at as int);
            lemma_silent_before(a.events, b.events + d.events, key, at as int);
            assert(a.events + b.events + d.events =~= a.events + (b.events + d.events));
            assert forall|k: Key2| k != key implies #[trigger] seg_at(out.v, k).next_expected == seg_at(v, k).next_expected by {
                assert(v.segs.contains_key(k) == w.segs.contains_key(k));
                assert(d.v.segs.dom().contains(k) == w.segs.dom().contains(k));
                if v.segs.contains_key(k) {
                    assert(b.v.segs.contains_key(k));
                }
            }
            lemma_staged_steady(b.v, key, offset, data);
            assert(w.segs.dom().contains(key));
            if truthful(v, key, content) && offset + data.len() <= content.len() && data == content.subrange(
                offset as int,
                offset + data.len(),
            ) {
                assert forall|k: Key3| #[trigger] w.staged.contains_key(k) && k.a == key.a && k.b == key.b implies k.c + w.staged[k].len()
                    <= content.len() && w.staged[k] == content.subrange(k.c as int, k.c + w.staged[k].len()) by {
                    if k.c != offset {
                        assert(b.v.staged.contains_key(k));
                        assert(v.staged.contains_key(k));
                    }
                }
                assert(truthful(w, key, content));
            }
        }
    }
}

/// The books stay right, no segment is ever charged more than its limit whatever arrives, nothing that
/// could be passed on stays staged, and a chunk adds at most its own length to what is staged.
pub proof fn law_segment_budget_holds(v: Model, dev: u32, seq: u32, offset: u64, data: Seq<u8>)
    requires
        inv(v),
        steady(v),
        offset + data.len() <= u64::MAX,
        charged(v) + data.len() <= u64::MAX,
    ensures
        inv(placed(v, dev, seq, offset, data).v),
        steady(placed(v, dev, seq, offset, data).v),
        charged(placed(v, dev, seq, offset, data).v) <= charged(v) + data.len(),
{
    let key = seg_key(dev, seq);
    let next = seg_at(v, key).next_expected;
    if v.quarantined.contains(dev) {
    } else if offset + data.len() <= next {
        if v.segs.contains_key(key) {
            lemma_same_charge(v, key, duplicate(v, dev, seq).v.segs[key]);
        }
    } else if offset < next {
        lemma_accepted(v, dev, seq, next, data.skip(next - offset), Seq::empty());
    } else {
        lemma_accepted(v, dev, seq, offset, data, Seq::empty());
    }
}

/// Sealing keeps the books right and the limits kept.
pub proof fn law_seal_keeps_budgets(v: Model, dev: u32, seq: u32, size: u64)
    requires
        inv(v),
        steady(v),
    ensures
        inv(sealed(v, dev, seq, size).v),
        steady(sealed(v, dev, seq, size).v),
{
    let key = seg_key(dev, seq);
    let out = sealed(v, dev, seq, size).v;
    let w = Model { last_seq: out.last_seq, ..v };
    lemma_same_segments(v, w);
    if v.segs.contains_key(key) {
        if v.segs[key].next_expected == size {
            lemma_released(w, key);
        } else {
            lemma_same_charge(w, key, SegmentBuf { sealed_size: Some(size), ..v.segs[key] });
        }
    }
}

/// Chunks that agree with the content of a segment are passed on as that content, in order, each byte
/// once: what one chunk sets free starts at the cursor and ends at the new cursor. Nothing else is ever
/// passed on.
pub proof fn law_content_is_passed_on_once_in_order(v: Model, dev: u32, seq: u32, offset: u64, data: Seq<u8>, content: Seq<u8>)
    requires
        inv(v),
        steady(v),
        charged(v) + data.len() <= u64::MAX,
        content.len() <= u64::MAX,
        truthful(v, seg_key(dev, seq), content),
        seg_at(v, seg_key(dev, seq)).next_expected <= content.len(),
        offset + data.len() <= content.len(),
        data == content.subrange(offset as int, offset + data.len()),
    ensures
        ({
            let key = seg_key(dev, seq);
            let out = placed(v, dev, seq, offset, data);
            let at = seg_at(v, key).next_expected;
            let end = seg_at(out.v, key).next_expected;
            &&& truthful(out.v, key, content)
            &&& at <= end <= content.len()
            &&& in_sequence(out.events, key, at as int)
            &&& passed_on(out.events) == content.subrange(at as int, end as int)
        }),
{
    let key = seg_key(dev, seq);
    let out = placed(v, dev, seq, offset, data);
    let at = seg_at(v, key).next_expected;
    if v.quarantined.contains(dev) || offset + data.len() <= at {
        assert(silent(out.events));
        lemma_silent(out.events, key, at as int);
        assert(content.subrange(at as int, at as int) =~= Seq::<u8>::empty());
    } else if offset < at {
        let fresh = data.skip(at - offset);
        assert(fresh =~= content.subrange(at as int, at + fresh.len()));
        lemma_accepted(v, dev, seq, at, fresh, content);
    } else {
        lemma_accepted(v, dev, seq, offset, data, content);
    }
}

/// A cursor never goes back, the cursors of other segments stand still, and what is passed on is as long
/// as the way the cursor went.
pub proof fn law_cursor_only_advances(v: Model, dev: u32, seq: u32, offset: u64, data: Seq<u8>)
    requires
        inv(v),
        steady(v),
        offset + data.len() <= u64::MAX,
        charged(v) + data.len() <= u64::MAX,
    ensures
        ({
            let key = seg_key(dev, seq);
            let out = placed(v, dev, seq, offset, data);
            let at = seg_at(v, key).next_expected;
            let end = seg_at(out.v, key).next_expected;
            &&& at <= end
            &&& passed_on(out.events).len() == end - at
            &&& in_sequence(out.events, key, at as int)
            &&& forall|k: Key2| k != key ==> #[trigger] seg_at(out.v, k).next_expected == seg_at(v, k).next_expected
        }),
{
    let key = seg_key(dev, seq);
    let out = placed(v, dev, seq, offset, data);
    let at = seg_at(v, key).next_expected;
    if v.quarantined.contains(dev) || offset + data.len() <= at {
        assert(silent(out.events));
        lemma_silent(out.events, key, at as int);
    } else if offset < at {
        lemma_accepted(v, dev, seq, at, data.skip(at - offset), Seq::empty());
    } else {
        lemma_accepted(v, dev, seq, offset, data, Seq::empty());
    }
}

/// A chunk delivered again is inert. One that has been passed on already is counted and reported as a
/// duplicate; one that is still staged changes nothing at all. Either way no cursor moves, nothing is
/// staged, dropped or passed on, and no device is quarantined.
pub proof fn law_repeated_chunk_is_inert(v: Model, dev: u32, seq: u32, offset: u64, data: Seq<u8>)
    requires
        inv(v),
        steady(v),
        !v.quarantined.contains(dev),
        ({
            let k = Key3 { a: dev as u64, b: seq as u64, c: offset };
            ||| offset + data.len() <= seg_at(v, seg_key(dev, seq)).next_expected
            ||| v.staged.contains_key(k) && v.staged[k] == data
        }),
    ensures
        ({
            let key = seg_key(dev, seq);
            let out = placed(v, dev, seq, offset, data);
            let behind = offset + data.len() <= seg_at(v, key).next_expected;
            &&& out.events == if behind {
                seq![EventView::Dup { dev_id: dev, segment_seq: seq }]
            } else {
                Seq::empty()
            }
            &&& !behind ==> out.v == v
            &&& out.v.staged == v.staged
            &&& out.v.quarantined == v.quarantined
            &&& seg_at(out.v, key) == (SegmentBuf { dup_count: seg_at(out.v, key).dup_count, ..seg_at(v, key) })
            &&& forall|k: Key2| k != key ==> #[trigger] seg_at(out.v, k) == seg_at(v, k)
        }),
{
    let key = seg_key(dev, seq);
    let k = Key3 { a: dev as u64, b: seq as u64, c: offset };
    if offset + data.len() > seg_at(v, key).next_expected {
        assert(v.segs.contains_key(Key2 { a: k.a, b: k.b }));
        assert(v.segs[key].pending_bytes <= v.budgets.l2_segment_cap);
        let w = with_chunk(v, key, offset, data);
        assert(w.segs =~= v.segs);
        assert(w.staged =~= v.staged);
        assert(w =~= v);
        lemma_ripe(v, key);
        if ripe(v, key).len() > 0 {
            assert(v.staged.contains_key(ripe(v, key)[0]));
        }
        let none = Seq::<EventView>::empty();
        assert(none + none + none =~= none);
    }
}

/// A segment is reported complete exactly when everything up to the size given has been passed on; a
/// complete segment is forgotten.
pub proof fn law_seal_tells_complete_from_gap(v: Model, dev: u32, seq: u32, size: u64)
    requires
        v.segs.contains_key(seg_key(dev, seq)),
    ensures
        ({
            let key = seg_key(dev, seq);
            let out = sealed(v, dev, seq, size);
            let complete = v.segs[key].next_expected == size;
            &&& out.events.contains(EventView::Sealed { dev_id: dev, segment_seq: seq, size }) <==> complete
            &&& out.v.segs.contains_key(key) <==> !complete
        }),
{
    let key = seg_key(dev, seq);
    let out = sealed(v, dev, seq, size);
    let e = EventView::Sealed { dev_id: dev, segment_seq: seq, size };
    assert(out.events.last() == out.events[out.events.len() - 1]);
    if v.segs[key].next_expected == size {
        assert(out.events.last() == e);
    } else if out.events.contains(e) {
        let i = choose|i: int| 0 <= i < out.events.len() && out.events[i] == e;
        assert(out.events[i] == e);
    }
}

/// Data at the cursor is passed on at once.
pub proof fn law_in_order_data_passes_through(v: Model, dev: u32, seq: u32, data: Seq<u8>)
    requires
        inv(v),
        steady(v),
        data.len() > 0,
        !v.quarantined.contains(dev),
        seg_at(v, seg_key(dev, seq)).next_expected + data.len() <= u64::MAX,
        charged(v) + data.len() <= u64::MAX,
    ensures
        ({
            let at = seg_at(v, seg_key(dev, seq)).next_expected;
            let out = placed(v, dev, seq, at, data);
            &&& out.events.contains(EventView::Append { dev_id: dev, segment_seq: seq, offset: at, data })
            &&& seg_at(out.v, seg_key(dev, seq)).next_expected >= at + data.len()
        }),
{
    let key = seg_key(dev, seq);
    let at = seg_at(v, key).next_expected;
    let out = placed(v, dev, seq, at, data);
    assert(out == accepted(v, dev, seq, at, data));
    lemma_room(v, dev, seq, at, data);
    let b = room_for_all(v, growth(v, key, at, data));
    let w = with_chunk(b.v, key, at, data);
    lemma_with_chunk(b.v, key, at, data);
    lemma_in_order_first(b.v, key, data);
    let k = Key3 { a: key.a, b: key.b, c: at };
    let n = w.staged.dom().len();
    let d = drained(w, key, n);
    let e = EventView::Append { dev_id: dev, segment_seq: seq, offset: at, data };
    assert(w.staged.contains_key(k));
    lemma_drained_once(w, key, k);
    let next = drained_once(w, key, k);
    let rest = drained(next, key, (n - 1) as nat);
    lemma_drained(next, key, (n - 1) as nat, Seq::empty());
    assert(data.skip(0) =~= data);
    assert(drained_event(w, key, k) == seq![e]);
    assert(d.events == seq![e] + rest.events);
    assert(out.events == Seq::<EventView>::empty() + b.events + d.events);
    assert(out.events[b.events.len() as int] == e);
    assert(d.v.segs.dom().contains(key));
}

/// Nothing is charged to a quarantined device.
pub proof fn law_quarantine_empties_the_device(v: Model, dev: u32)
    requires
        inv(v),
        steady(v),
        v.quarantined.contains(dev),
    ensures
        charged_to(v, dev) == 0,
        forall|k: Key3| #[trigger] v.staged.contains_key(k) ==> k.a != dev,
{
    let c = charges(v.segs, Some(dev));
    assert(c.dom() =~= v.segs.dom());
    assert forall|x: Key2| #[trigger] c.contains_key(x) implies c[x] == 0 by {
        assert(v.segs.contains_key(x));
        if x.a == dev {
            assert forall|k: Key3| #[trigger] v.staged.contains_key(k) implies !(k.a == x.a && k.b == x.b) by {}
            lemma_lengths_none(v.staged, x);
        }
    }
    lemma_total_zero(c);
}

/// One call on the reassembler.
pub enum Call {
    Place { dev_id: u32, segment_seq: u32, offset: u64, data: Seq<u8> },
    Seal { dev_id: u32, segment_seq: u32, sealed_size: u64 },
    SetNow { now: u64 },
}

/// What a call does.
pub open spec fn called(v: Model, c: Call) -> Out {
    match c {
        Call::Place { dev_id, segment_seq, offset, data } => placed(v, dev_id, segment_seq, offset, data),
        Call::Seal { dev_id, segment_seq, sealed_size } => sealed(v, dev_id, segment_seq, sealed_size),
        Call::SetNow { now } => Out { v: Model { now, ..v }, events: Seq::empty() },
    }
}

/// A reassembler after some calls, with all the events they gave.
pub open spec fn history(v: Model, calls: Seq<Call>) -> Out
    decreases calls.len(),
{
    if calls.len() == 0 {
        Out { v, events: Seq::empty() }
    } else {
        let h = history(v, calls.drop_last());
        let out = called(h.v, calls.last());
        Out { v: out.v, events: h.events + out.events }
    }
}

/// Every chunk ends within 64 bits.
pub open spec fn within_range(calls: Seq<Call>) -> bool {
    forall|i: int| 0 <= i < calls.len() ==> in_range(#[trigger] calls[i])
}

/// A chunk ends within 64 bits.
pub open spec fn in_range(c: Call) -> bool {
    c matches Call::Place { dev_id, segment_seq, offset, data } ==> offset + data.len() <= u64::MAX
}

/// No event reports the segment complete.
pub open spec fn never_sealed(events: Seq<EventView>, dev: u32, seq: u32) -> bool {
    forall|i: int| 0 <= i < events.len() ==> !(#[trigger] events[i] matches EventView::Sealed { dev_id, segment_seq, size } && dev_id == dev
        && segment_seq == seq)
}

/// What an event passes on of a segment.
pub open spec fn piece(e: EventView, dev: u32, seq: u32) -> Seq<u8> {
    match e {
        EventView::Append { dev_id, segment_seq, offset, data } if dev_id == dev && segment_seq == seq => data,
        _ => Seq::empty(),
    }
}

/// How many bytes of a segment the events pass on.
pub open spec fn appended(events: Seq<EventView>, dev: u32, seq: u32) -> nat
    decreases events.len(),
{
    if events.len() == 0 {
        0
    } else {
        appended(events.drop_last(), dev, seq) + piece(events.last(), dev, seq).len()
    }
}

/// A chunk of the segment that carries a byte at an absolute offset.
pub open spec fn carries(c: Call, dev: u32, seq: u32, x: int, byte: u8) -> bool {
    c matches Call::Place { dev_id, segment_seq, offset, data } && dev_id == dev && segment_seq == seq && offset <= x < offset + data.len()
        && data[x - offset] == byte
}

/// Some chunk placed for the segment carries a byte at an absolute offset.
pub open spec fn carried(calls: Seq<Call>, dev: u32, seq: u32) -> spec_fn(int, u8) -> bool {
    |x: int, byte: u8| exists|j: int| 0 <= j < calls.len() && carries(#[trigger] calls[j], dev, seq, x, byte)
}

/// An event that passes data of the segment on passes it on at `at`, and each byte is true for its offset.
pub open spec fn fitting(e: EventView, dev: u32, seq: u32, at: int, good: spec_fn(int, u8) -> bool) -> bool {
    match e {
        EventView::Append { dev_id, segment_seq, offset, data } if dev_id == dev && segment_seq == seq => {
            &&& offset == at
            &&& forall|i: int| 0 <= i < data.len() ==> good(at + i, #[trigger] data[i])
        },
        _ => true,
    }
}

/// Each piece of the segment stands where the pieces before it end, and each of its bytes is true for its
/// offset.
pub open spec fn continuous(events: Seq<EventView>, dev: u32, seq: u32, at: int, good: spec_fn(int, u8) -> bool) -> bool {
    forall|i: int| 0 <= i < events.len() ==> fitting(#[trigger] events[i], dev, seq, at + appended(events.take(i), dev, seq), good)
}

/// Each staged byte of the segment is true for its offset.
spec fn staged_true(v: Model, dev: u32, seq: u32, good: spec_fn(int, u8) -> bool) -> bool {
    forall|k: Key3, i: int|
        v.staged.contains_key(k) && k.a == dev && k.b == seq && 0 <= i < v.staged[k].len() ==> good(k.c + i, #[trigger] v.staged[k][i])
}

proof fn lemma_appended_join(a: Seq<EventView>, b: Seq<EventView>, dev: u32, seq: u32)
    ensures
        appended(a + b, dev, seq) == appended(a, dev, seq) + appended(b, dev, seq),
    decreases b.len(),
{
    if b.len() == 0 {
        assert(a + b =~= a);
    } else {
        assert((a + b).drop_last() =~= a + b.drop_last());
        assert((a + b).last() == b.last());
        lemma_appended_join(a, b.drop_last(), dev, seq);
    }
}

proof fn lemma_continuous_join(
    a: Seq<EventView>,
    b: Seq<EventView>,
    dev: u32,
    seq: u32,
    at: int,
    good: spec_fn(int, u8) -> bool,
)
    requires
        continuous(a, dev, seq, at, good),
        continuous(b, dev, seq, at + appended(a, dev, seq), good),
    ensures
        continuous(a + b, dev, seq, at, good),
        appended(a + b, dev, seq) == appended(a, dev, seq) + appended(b, dev, seq),
{
    lemma_appended_join(a, b, dev, seq);
    let c = a + b;
    assert forall|i: int| 0 <= i < c.len() implies fitting(#[trigger] c[i], dev, seq, at + appended(c.take(i), dev, seq), good) by {
        if i < a.len() {
            assert(c.take(i) =~= a.take(i));
            assert(c[i] == a[i]);
        } else {
            let j = i - a.len();
            assert(c.take(i) =~= a + b.take(j));
            lemma_appended_join(a, b.take(j), dev, seq);
            assert(c[i] == b[j]);
        }
    }
}

/// Events that pass nothing on of the segment.
spec fn foreign(events: Seq<EventView>, dev: u32, seq: u32) -> bool {
    forall|i: int| 0 <= i < events.len() ==> !(#[trigger] events[i] matches EventView::Append { dev_id, segment_seq, offset, data } && dev_id
        == dev && segment_seq == seq)
}

proof fn lemma_foreign(events: Seq<EventView>, dev: u32, seq: u32, at: int, good: spec_fn(int, u8) -> bool)
    requires
        foreign(events, dev, seq),
    ensures
        continuous(events, dev, seq, at, good),
        appended(events, dev, seq) == 0,
    decreases events.len(),
{
    if events.len() > 0 {
        assert(foreign(events.drop_last(), dev, seq)) by {
            assert forall|i: int| 0 <= i < events.drop_last().len() implies !(#[trigger] events.drop_last()[i] matches EventView::Append {
                dev_id,
                segment_seq,
                offset,
                data,
            } && dev_id == dev && segment_seq == seq) by {
                assert(events.drop_last()[i] == events[i]);
            }
        }
        lemma_foreign(events.drop_last(), dev, seq, at, good);
        assert(events.last() == events[events.len() - 1]);
    }
}

/// Taking out a ripe chunk keeps the frame.
proof fn lemma_drained_once_framed(v: Model, key: Key2, k: Key3)
    requires
        framed(v),
        v.segs.contains_key(key),
        v.staged.contains_key(k),
        k.a == key.a,
        k.b == key.b,
    ensures
        ({
            let w = drained_once(v, key, k);
            let end = k.c + v.staged[k].len();
            &&& framed(w)
            &&& w.segs.dom() == v.segs.dom()
            &&& w.staged == v.staged.remove(k)
            &&& w.segs[key].next_expected == if end <= v.segs[key].next_expected {
                v.segs[key].next_expected as int
            } else {
                end
            }
            &&& forall|q: Key2| #[trigger] v.segs.contains_key(q) && q != key ==> w.segs[q] == v.segs[q]
            &&& w.quarantined == v.quarantined
        }),
{
    let w = drained_once(v, key, k);
    assert(w.segs.dom() =~= v.segs.dom());
    assert forall|q: Key3| #[trigger] w.staged.contains_key(q) implies w.segs.contains_key(Key2 { a: q.a, b: q.b }) && q.c + w.staged[q].len()
        <= u64::MAX by {
        assert(v.staged.contains_key(q));
        assert(v.segs.dom().contains(Key2 { a: q.a, b: q.b }));
    }
}

/// Draining concerns its own segment alone: it takes staged chunks of it out and passes nothing else on.
proof fn lemma_drained_framed(v: Model, key: Key2, n: nat)
    requires
        framed(v),
        v.segs.contains_key(key),
        key.a <= u32::MAX,
        key.b <= u32::MAX,
    ensures
        ({
            let d = drained(v, key, n);
            &&& framed(d.v)
            &&& d.v.segs.dom() == v.segs.dom()
            &&& forall|q: Key2| #[trigger] v.segs.contains_key(q) && q != key ==> d.v.segs[q] == v.segs[q]
            &&& forall|k: Key3| #[trigger] d.v.staged.contains_key(k) ==> v.staged.contains_key(k) && d.v.staged[k] == v.staged[k]
            &&& forall|dev: u32, seq: u32| seg_key(dev, seq) != key ==> #[trigger] foreign(d.events, dev, seq)
        }),
    decreases n,
{
    lemma_ripe(v, key);
    let d = drained(v, key, n);
    if n > 0 && ripe(v, key).len() > 0 {
        let k = ripe(v, key)[0];
        assert(v.staged.contains_key(k));
        lemma_drained_once_framed(v, key, k);
        let next = drained_once(v, key, k);
        lemma_drained_framed(next, key, (n - 1) as nat);
        let rest = drained(next, key, (n - 1) as nat);
        assert(d.v == rest.v);
        assert forall|q: Key2| #[trigger] v.segs.contains_key(q) && q != key implies d.v.segs[q] == v.segs[q] by {
            assert(next.segs.dom().contains(q));
            assert(next.segs.contains_key(q));
        }
        assert forall|q: Key3| #[trigger] d.v.staged.contains_key(q) implies v.staged.contains_key(q) && d.v.staged[q] == v.staged[q] by {
            assert(next.staged.contains_key(q));
        }
        let e = drained_event(v, key, k);
        assert(d.events == e + rest.events);
        assert forall|dev: u32, seq: u32| seg_key(dev, seq) != key implies #[trigger] foreign(d.events, dev, seq) by {
            assert(foreign(rest.events, dev, seq));
            assert forall|i: int| 0 <= i < d.events.len() implies !(#[trigger] d.events[i] matches EventView::Append {
                dev_id,
                segment_seq,
                offset,
                data,
            } && dev_id == dev && segment_seq == seq) by {
                if i < e.len() {
                    assert(d.events[i] == e[i]);
                } else {
                    assert(d.events[i] == rest.events[i - e.len()]);
                }
            }
        }
    }
}

/// Draining passes on what is staged, piece after piece.
proof fn lemma_drained_continuous(v: Model, dev: u32, seq: u32, n: nat, good: spec_fn(int, u8) -> bool)
    requires
        framed(v),
        v.segs.contains_key(seg_key(dev, seq)),
        staged_true(v, dev, seq, good),
    ensures
        ({
            let key = seg_key(dev, seq);
            let d = drained(v, key, n);
            &&& staged_true(d.v, dev, seq, good)
            &&& continuous(d.events, dev, seq, v.segs[key].next_expected as int, good)
            &&& d.v.segs[key].next_expected == v.segs[key].next_expected + appended(d.events, dev, seq)
        }),
    decreases n,
{
    let key = seg_key(dev, seq);
    let d = drained(v, key, n);
    let at = v.segs[key].next_expected;
    lemma_ripe(v, key);
    if n > 0 && ripe(v, key).len() > 0 {
        let k = ripe(v, key)[0];
        assert(v.staged.contains_key(k));
        let data = v.staged[k];
        lemma_drained_once_framed(v, key, k);
        let next = drained_once(v, key, k);
        lemma_staged_still_true(v, next, dev, seq, good);
        lemma_drained_continuous(next, dev, seq, (n - 1) as nat, good);
        let rest = drained(next, key, (n - 1) as nat);
        let e = drained_event(v, key, k);
        assert(d.events == e + rest.events);
        if left_behind(v, key, k) {
            lemma_foreign(e, dev, seq, at as int, good);
        } else {
            let fresh = data.skip(at - k.c);
            assert forall|i: int| 0 <= i < fresh.len() implies good(at + i, #[trigger] fresh[i]) by {
                assert(fresh[i] == data[i + (at - k.c)]);
                assert(good(k.c + (i + (at - k.c)), v.staged[k][i + (at - k.c)]));
            }
            assert(e.take(0) =~= Seq::empty());
            assert(e.drop_last() =~= Seq::empty());
            assert(appended(e.take(0), dev, seq) == 0);
            assert(appended(e.drop_last(), dev, seq) == 0);
            assert(e.last() == e[0]);
            assert(piece(e[0], dev, seq) == fresh);
            assert(appended(e, dev, seq) == fresh.len());
        }
        lemma_continuous_join(e, rest.events, dev, seq, at as int, good);
    } else {
        assert(d.events =~= Seq::empty());
        lemma_foreign(d.events, dev, seq, at as int, good);
    }
}

proof fn lemma_staged_still_true(v: Model, w: Model, dev: u32, seq: u32, good: spec_fn(int, u8) -> bool)
    requires
        staged_true(v, dev, seq, good),
        forall|k: Key3| #[trigger]
            w.staged.contains_key(k) && k.a == dev && k.b == seq ==> v.staged.contains_key(k) && w.staged[k] == v.staged[k],
    ensures
        staged_true(w, dev, seq, good),
{
    assert forall|k: Key3, i: int|
        w.staged.contains_key(k) && k.a == dev && k.b == seq && 0 <= i < w.staged[k].len() implies good(k.c + i, #[trigger] w.staged[k][i]) by {
        assert(v.staged.contains_key(k) && w.staged[k] == v.staged[k]);
        assert(good(k.c + i, v.staged[k][i]));
    }
}

/// Making room drops staged chunks and passes nothing on, whatever the books say.
proof fn lemma_room_framed(v: Model, dev: u32, seq: u32, offset: u64, data: Seq<u8>)
    requires
        framed(v),
    ensures
        ({
            let key = seg_key(dev, seq);
            let a = room_of(v, dev, seq, offset, data);
            let b = room_for_all(a.v, growth(a.v, key, offset, data));
            &&& framed(a.v)
            &&& lightened(v, a.v)
            &&& silent(a.events)
            &&& framed(b.v)
            &&& lightened(v, b.v)
            &&& silent(b.events)
        }),
{
    let key = seg_key(dev, seq);
    let a = room_of(v, dev, seq, offset, data);
    let b = room_for_all(a.v, growth(a.v, key, offset, data));
    lemma_device_relieved_lightens(v, dev);
    assert(lightened(v, a.v));
    lemma_lightened_framed(v, a.v);
    lemma_relieved_lightens(a.v);
    lemma_lightened_framed(a.v, b.v);
    lemma_lightened_twice(v, a.v, b.v);
}

/// What a chunk of new data sets free of its own segment.
proof fn lemma_accepted_continuous(v: Model, dev: u32, seq: u32, offset: u64, data: Seq<u8>, good: spec_fn(int, u8) -> bool)
    requires
        framed(v),
        offset + data.len() <= u64::MAX,
        offset >= seg_at(v, seg_key(dev, seq)).next_expected,
        staged_true(v, dev, seq, good),
        forall|i: int| 0 <= i < data.len() ==> good(offset + i, #[trigger] data[i]),
    ensures
        ({
            let key = seg_key(dev, seq);
            let a = accepted(v, dev, seq, offset, data);
            let at = seg_at(v, key).next_expected;
            &&& staged_true(a.v, dev, seq, good)
            &&& continuous(a.events, dev, seq, at as int, good)
            &&& seg_at(a.v, key).next_expected == at + appended(a.events, dev, seq)
        }),
{
    let key = seg_key(dev, seq);
    let s = seg_at(v, key);
    let at = s.next_expected;
    let out = accepted(v, dev, seq, offset, data);
    if offset > at && s.pending_bytes + growth(v, key, offset, data) > v.budgets.l2_segment_cap {
        assert(silent(out.events));
        lemma_foreign(out.events, dev, seq, at as int, good);
        lemma_staged_still_true(v, out.v, dev, seq, good);
    } else {
        lemma_room_framed(v, dev, seq, offset, data);
        let a = room_of(v, dev, seq, offset, data);
        if a.v.quarantined.contains(dev) {
            assert(silent(out.events));
            lemma_foreign(out.events, dev, seq, at as int, good);
            lemma_staged_still_true(v, a.v, dev, seq, good);
        } else {
            let b = room_for_all(a.v, growth(a.v, key, offset, data));
            let w = with_chunk(b.v, key, offset, data);
            lemma_with_chunk_framed(b.v, key, offset, data);
            let d = drained(w, key, w.staged.dom().len());
            assert forall|k: Key3, i: int|
                w.staged.contains_key(k) && k.a == dev && k.b == seq && 0 <= i < w.staged[k].len() implies good(
                k.c + i,
                #[trigger] w.staged[k][i],
            ) by {
                if k.c != offset {
                    assert(b.v.staged.contains_key(k));
                    assert(v.staged.contains_key(k) && w.staged[k] == v.staged[k]);
                    assert(good(k.c + i, v.staged[k][i]));
                } else {
                    assert(w.staged[k] == data);
                    assert(good(offset + i, data[i]));
                }
            }
            lemma_drained_continuous(w, dev, seq, w.staged.dom().len(), good);
            lemma_drained_framed(w, key, w.staged.dom().len());
            assert(v.segs.dom().contains(key) == b.v.segs.dom().contains(key));
            assert(w.segs[key].next_expected == at);
            lemma_foreign(a.events, dev, seq, at as int, good);
            lemma_foreign(b.events, dev, seq, at as int, good);
            lemma_continuous_join(a.events, b.events, dev, seq, at as int, good);
            lemma_continuous_join(a.events + b.events, d.events, dev, seq, at as int, good);
            assert(out.events == a.events + b.events + d.events);
            assert(d.v.segs.dom().contains(key));
        }
    }
}

proof fn lemma_with_chunk_framed(v: Model, key: Key2, offset: u64, data: Seq<u8>)
    requires
        framed(v),
        offset + data.len() <= u64::MAX,
    ensures
        framed(with_chunk(v, key, offset, data)),
{
    let w = with_chunk(v, key, offset, data);
    assert forall|k: Key3| #[trigger] w.staged.contains_key(k) implies w.segs.contains_key(Key2 { a: k.a, b: k.b }) && k.c + w.staged[k].len()
        <= u64::MAX by {
        if k != (Key3 { a: key.a, b: key.b, c: offset }) {
            assert(v.staged.contains_key(k));
        }
    }
}

/// A chunk keeps the frame, stages nothing for another segment, moves no other cursor, passes nothing on
/// of another segment, and frees no device from quarantine.
proof fn lemma_accepted_framed(v: Model, dev: u32, seq: u32, offset: u64, data: Seq<u8>)
    requires
        framed(v),
        offset + data.len() <= u64::MAX,
    ensures
        ({
            let a = accepted(v, dev, seq, offset, data);
            &&& framed(a.v)
            &&& forall|k: Key3| #[trigger]
                a.v.staged.contains_key(k) && !(k.a == dev && k.b == seq) ==> v.staged.contains_key(k) && a.v.staged[k] == v.staged[k]
            &&& forall|k: Key2| k != seg_key(dev, seq) ==> #[trigger] seg_at(a.v, k).next_expected == seg_at(v, k).next_expected
            &&& forall|d: u32, s: u32| seg_key(d, s) != seg_key(dev, seq) ==> #[trigger] foreign(a.events, d, s)
        }),
{
    let key = seg_key(dev, seq);
    let s = seg_at(v, key);
    let out = accepted(v, dev, seq, offset, data);
    if offset > s.next_expected && s.pending_bytes + growth(v, key, offset, data) > v.budgets.l2_segment_cap {
        assert(out.v.staged.dom().subset_of(v.staged.dom()));
        vstd::set_lib::lemma_len_subset(out.v.staged.dom(), v.staged.dom());
        assert forall|k: Key3| #[trigger] out.v.staged.contains_key(k) implies out.v.segs.contains_key(Key2 { a: k.a, b: k.b }) && k.c
            + out.v.staged[k].len() <= u64::MAX by {
            assert(v.staged.contains_key(k));
        }
    } else {
        lemma_room_framed(v, dev, seq, offset, data);
        let a = room_of(v, dev, seq, offset, data);
        if a.v.quarantined.contains(dev) {
            assert forall|k: Key2| k != key implies #[trigger] seg_at(out.v, k).next_expected == seg_at(v, k).next_expected by {
                assert(v.segs.dom().contains(k) == a.v.segs.dom().contains(k));
                assert(v.segs.contains_key(k) ==> a.v.segs[k].next_expected == v.segs[k].next_expected);
            }
        } else {
            let b = room_for_all(a.v, growth(a.v, key, offset, data));
            let w = with_chunk(b.v, key, offset, data);
            lemma_with_chunk_framed(b.v, key, offset, data);
            let d = drained(w, key, w.staged.dom().len());
            lemma_drained_framed(w, key, w.staged.dom().len());
            assert(out.v == d.v);
            assert(out.events == a.events + b.events + d.events);
            assert forall|k: Key3| #[trigger] out.v.staged.contains_key(k) && !(k.a == dev && k.b == seq) implies v.staged.contains_key(k)
                && out.v.staged[k] == v.staged[k] by {
                assert(w.staged.contains_key(k));
                assert(b.v.staged.contains_key(k));
            }
            assert forall|k: Key2| k != key implies #[trigger] seg_at(out.v, k).next_expected == seg_at(v, k).next_expected by {
                assert(v.segs.dom().contains(k) == b.v.segs.dom().contains(k));
                assert(w.segs.dom().contains(k) == d.v.segs.dom().contains(k));
                assert(v.segs.contains_key(k) ==> b.v.segs[k].next_expected == v.segs[k].next_expected);
                assert(w.segs.contains_key(k) ==> d.v.segs[k] == w.segs[k]);
            }
            assert forall|x: u32, y: u32| seg_key(x, y) != key implies #[trigger] foreign(out.events, x, y) by {
                assert(foreign(d.events, x, y));
                assert forall|i: int| 0 <= i < out.events.len() implies !(#[trigger] out.events[i] matches EventView::Append {
                    dev_id,
                    segment_seq,
                    offset,
                    data,
                } && dev_id == x && segment_seq == y) by {
                    let (m, n) = (a.events.len(), b.events.len());
                    if i < m {
                        assert(out.events[i] == a.events[i]);
                    } else if i < m + n {
                        assert(out.events[i] == b.events[i - m]);
                    } else {
                        assert(out.events[i] == d.events[i - m - n]);
                    }
                }
            }
        }
    }
}

/// Every call keeps the frame.
proof fn lemma_called_framed(v: Model, c: Call)
    requires
        framed(v),
        in_range(c),
    ensures
        framed(called(v, c).v),
{
    match c {
        Call::Place { dev_id, segment_seq, offset, data } => {
            let next = seg_at(v, seg_key(dev_id, segment_seq)).next_expected;
            if v.quarantined.contains(dev_id) {
            } else if offset + data.len() <= next {
                let w = called(v, c).v;
                assert forall|k: Key3| #[trigger] w.staged.contains_key(k) implies w.segs.contains_key(Key2 { a: k.a, b: k.b }) && k.c
                    + w.staged[k].len() <= u64::MAX by {
                    assert(v.staged.contains_key(k));
                }
            } else if offset < next {
                lemma_accepted_framed(v, dev_id, segment_seq, next, data.skip(next - offset));
            } else {
                lemma_accepted_framed(v, dev_id, segment_seq, offset, data);
            }
        },
        Call::Seal { dev_id, segment_seq, sealed_size } => {
            let w = called(v, c).v;
            assert(w.staged.dom().subset_of(v.staged.dom()));
            vstd::set_lib::lemma_len_subset(w.staged.dom(), v.staged.dom());
            assert forall|k: Key3| #[trigger] w.staged.contains_key(k) implies w.segs.contains_key(Key2 { a: k.a, b: k.b }) && k.c
                + w.staged[k].len() <= u64::MAX by {
                assert(v.staged.contains_key(k));
            }
        },
        Call::SetNow { now } => {
            let w = called(v, c).v;
            assert forall|k: Key3| #[trigger] w.staged.contains_key(k) implies w.segs.contains_key(Key2 { a: k.a, b: k.b }) && k.c
                + w.staged[k].len() <= u64::MAX by {
                assert(v.staged.contains_key(k));
            }
        },
    }
}

/// What one call does for a segment that it does not complete.
proof fn lemma_called(v: Model, c: Call, dev: u32, seq: u32, good: spec_fn(int, u8) -> bool)
    requires
        framed(v),
        in_range(c),
        never_sealed(called(v, c).events, dev, seq),
        staged_true(v, dev, seq, good),
        forall|x: int, byte: u8| #[trigger] carries(c, dev, seq, x, byte) ==> good(x, byte),
    ensures
        ({
            let key = seg_key(dev, seq);
            let out = called(v, c);
            let at = seg_at(v, key).next_expected;
            &&& staged_true(out.v, dev, seq, good)
            &&& continuous(out.events, dev, seq, at as int, good)
            &&& seg_at(out.v, key).next_expected == at + appended(out.events, dev, seq)
        }),
{
    let key = seg_key(dev, seq);
    let out = called(v, c);
    let at = seg_at(v, key).next_expected;
    match c {
        Call::Place { dev_id, segment_seq, offset, data } => {
            let other = seg_key(dev_id, segment_seq);
            let next = seg_at(v, other).next_expected;
            if v.quarantined.contains(dev_id) || offset + data.len() <= next {
                assert(silent(out.events));
                lemma_foreign(out.events, dev, seq, at as int, good);
                lemma_staged_still_true(v, out.v, dev, seq, good);
            } else {
                let (o, fresh) = if offset < next {
                    (next, data.skip(next - offset))
                } else {
                    (offset, data)
                };
                if dev_id == dev && segment_seq == seq {
                    assert forall|i: int| 0 <= i < fresh.len() implies good(o + i, #[trigger] fresh[i]) by {
                        assert(fresh[i] == data[o + i - offset]);
                        assert(carries(c, dev, seq, o + i, fresh[i]));
                    }
                    lemma_accepted_continuous(v, dev, seq, o, fresh, good);
                } else {
                    lemma_accepted_framed(v, dev_id, segment_seq, o, fresh);
                    assert(key != other);
                    assert(foreign(out.events, dev, seq));
                    lemma_foreign(out.events, dev, seq, at as int, good);
                    assert(seg_at(out.v, key).next_expected == at);
                    lemma_staged_still_true(v, out.v, dev, seq, good);
                }
            }
        },
        Call::Seal { dev_id, segment_seq, sealed_size } => {
            assert(silent(out.events));
            lemma_foreign(out.events, dev, seq, at as int, good);
            if dev_id == dev && segment_seq == seq && v.segs.contains_key(key) && v.segs[key].next_expected == sealed_size {
                assert(out.events[out.events.len() - 1] == (EventView::Sealed { dev_id, segment_seq, size: sealed_size }));
            }
            lemma_staged_still_true(v, out.v, dev, seq, good);
        },
        Call::SetNow { now } => {
            lemma_foreign(out.events, dev, seq, at as int, good);
            lemma_staged_still_true(v, out.v, dev, seq, good);
        },
    }
}

proof fn lemma_history(v: Model, calls: Seq<Call>, dev: u32, seq: u32, good: spec_fn(int, u8) -> bool)
    requires
        framed(v),
        staged_true(v, dev, seq, good),
        within_range(calls),
        never_sealed(history(v, calls).events, dev, seq),
        forall|j: int, x: int, byte: u8| 0 <= j < calls.len() && #[trigger] carries(calls[j], dev, seq, x, byte) ==> good(x, byte),
    ensures
        ({
            let h = history(v, calls);
            let at = seg_at(v, seg_key(dev, seq)).next_expected;
            &&& framed(h.v)
            &&& staged_true(h.v, dev, seq, good)
            &&& continuous(h.events, dev, seq, at as int, good)
            &&& seg_at(h.v, seg_key(dev, seq)).next_expected == at + appended(h.events, dev, seq)
        }),
    decreases calls.len(),
{
    let h = history(v, calls);
    let at = seg_at(v, seg_key(dev, seq)).next_expected;
    if calls.len() == 0 {
        lemma_foreign(h.events, dev, seq, at as int, good);
    } else {
        let before = calls.drop_last();
        let p = history(v, before);
        let out = called(p.v, calls.last());
        assert(h.events == p.events + out.events);
        assert forall|i: int| 0 <= i < p.events.len() implies !(#[trigger] p.events[i] matches EventView::Sealed {
            dev_id,
            segment_seq,
            size,
        } && dev_id == dev && segment_seq == seq) by {
            assert(p.events[i] == h.events[i]);
        }
        assert forall|i: int| 0 <= i < out.events.len() implies !(#[trigger] out.events[i] matches EventView::Sealed {
            dev_id,
            segment_seq,
            size,
        } && dev_id == dev && segment_seq == seq) by {
            assert(out.events[i] == h.events[p.events.len() + i]);
        }
        assert forall|j: int, x: int, byte: u8| 0 <= j < before.len() && #[trigger] carries(before[j], dev, seq, x, byte) implies good(
            x,
            byte,
        ) by {
            assert(before[j] == calls[j]);
            assert(carries(calls[j], dev, seq, x, byte));
        }
        assert(within_range(before)) by {
            assert forall|i: int| 0 <= i < before.len() implies in_range(#[trigger] before[i]) by {
                assert(before[i] == calls[i]);
            }
        }
        lemma_history(v, before, dev, seq, good);
        assert(in_range(calls[calls.len() - 1]));
        assert forall|x: int, byte: u8| #[trigger] carries(calls.last(), dev, seq, x, byte) implies good(x, byte) by {
            assert(carries(calls[calls.len() - 1], dev, seq, x, byte));
        }
        lemma_called_framed(p.v, calls.last());
        lemma_called(p.v, calls.last(), dev, seq, good);
        lemma_continuous_join(p.events, out.events, dev, seq, at as int, good);
    }
}

/// Over all the calls on a new reassembler, a segment that was never reported complete is passed on from
/// its first byte on, without a hole and without an overlap: each piece stands where all the pieces before
/// it end, the cursor stands at the end of the last one, and each byte is one that some chunk placed for
/// the segment carried at that very offset.
pub proof fn law_segment_is_passed_on_without_hole_or_overlap(budgets: Budgets, calls: Seq<Call>, dev: u32, seq: u32)
    requires
        within_range(calls),
        never_sealed(history(empty_model(budgets), calls).events, dev, seq),
    ensures
        ({
            let h = history(empty_model(budgets), calls);
            &&& continuous(h.events, dev, seq, 0, carried(calls, dev, seq))
            &&& seg_at(h.v, seg_key(dev, seq)).next_expected == appended(h.events, dev, seq)
        }),
{
    let good = carried(calls, dev, seq);
    assert forall|j: int, x: int, byte: u8| 0 <= j < calls.len() && #[trigger] carries(calls[j], dev, seq, x, byte) implies good(x, byte) by {
        assert(carries(calls[j], dev, seq, x, byte));
    }
    assert(empty_model(budgets).staged.dom() =~= Set::<Key3>::empty());
    lemma_history(empty_model(budgets), calls, dev, seq, good);
}

proof fn lemma_drained_quarantine(v: Model, key: Key2, n: nat)
    ensures
        drained(v, key, n).v.quarantined == v.quarantined,
    decreases n,
{
    if n > 0 && v.segs.contains_key(key) && ripe(v, key).len() > 0 {
        lemma_drained_quarantine(drained_once(v, key, ripe(v, key)[0]), key, (n - 1) as nat);
    }
}

proof fn lemma_called_quarantine(v: Model, c: Call, dev: u32)
    requires
        v.quarantined.contains(dev),
    ensures
        called(v, c).v.quarantined.contains(dev),
{
    if let Call::Place { dev_id, segment_seq, offset, data } = c {
        let key = seg_key(dev_id, segment_seq);
        let next = seg_at(v, key).next_expected;
        if !v.quarantined.contains(dev_id) && offset + data.len() > next {
            let (o, fresh) = if offset < next {
                (next, data.skip(next - offset))
            } else {
                (offset, data)
            };
            let a = room_of(v, dev_id, segment_seq, o, fresh);
            let b = room_for_all(a.v, growth(a.v, key, o, fresh));
            let w = with_chunk(b.v, key, o, fresh);
            lemma_drained_quarantine(w, key, w.staged.dom().len());
            assert(a.v.quarantined.contains(dev));
            assert(w.quarantined == a.v.quarantined);
        }
    }
}

/// Quarantine is final: whatever calls follow, the device stays in quarantine, and each later chunk of it is
/// only counted and reported, and leaves the reassembler as it is.
pub proof fn law_quarantine_is_final(v: Model, calls: Seq<Call>, dev: u32, seq: u32, offset: u64, data: Seq<u8>)
    requires
        v.quarantined.contains(dev),
    ensures
        ({
            let w = history(v, calls).v;
            let out = placed(w, dev, seq, offset, data);
            &&& w.quarantined.contains(dev)
            &&& out.events == seq![EventView::QuarantinedDrop { dev_id: dev, bytes: data.len() as u64 }]
            &&& out.v == w
        }),
    decreases calls.len(),
{
    if calls.len() > 0 {
        law_quarantine_is_final(v, calls.drop_last(), dev, seq, offset, data);
        lemma_called_quarantine(history(v, calls.drop_last()).v, calls.last(), dev);
    }
}

} // verus!
