//! How reassembly stages, evicts and seals, told from what was staged before.

use crate::reassembly::{
    charged, charged_to, cleared, device_relieved, drained, growth, inv, last_sealed, lemma_ripe,
    next_streak, placed, relieved, ripe, sealed, seg_at, seg_key, skipped, staged_keys, steady, victim,
    with_chunk, EventView, Model,
};
use crate::table::{lemma_scan_exists, IndexKey, Key2, Key3};
use vstd::prelude::*;

verus! {

/// A staged chunk that no other staged chunk of the same device lies before.
pub open spec fn oldest_of(v: Model, dev: u32, k: Key3) -> bool {
    &&& v.staged.contains_key(k)
    &&& k.a == dev
    &&& forall|j: Key3| #[trigger] v.staged.contains_key(j) && j.a == dev ==> k.c <= j.c
}

/// A staged chunk that no other staged chunk lies before.
pub open spec fn oldest(v: Model, k: Key3) -> bool {
    &&& v.staged.contains_key(k)
    &&& forall|j: Key3| #[trigger] v.staged.contains_key(j) ==> k.c <= j.c
}

proof fn lemma_lowest(quarantined: Set<u32>, keys: Seq<Key3>, n: nat)
    requires
        n <= keys.len(),
        forall|i: int, j: int|
            0 <= i < keys.len() && 0 <= j < keys.len() ==> quarantined.contains((#[trigger] keys[i]).a as u32) == quarantined.contains(
                (#[trigger] keys[j]).a as u32,
            ),
    ensures
        n > 0 ==> victim(quarantined, keys, n) is Some,
        n == 0 ==> victim(quarantined, keys, n) is None,
        victim(quarantined, keys, n) matches Some(b) ==> {
            &&& exists|i: int| 0 <= i < n && #[trigger] keys[i] == b
            &&& forall|i: int| 0 <= i < n ==> b.c <= (#[trigger] keys[i]).c
        },
    decreases n,
{
    if n > 0 {
        let m = (n - 1) as nat;
        lemma_lowest(quarantined, keys, m);
        let k = keys[m as int];
        if let Some(b) = victim(quarantined, keys, m) {
            let i = choose|i: int| 0 <= i < m && #[trigger] keys[i] == b;
            assert(quarantined.contains(keys[i].a as u32) == quarantined.contains(keys[m as int].a as u32));
            assert(keys[i] == b);
        }
        assert(keys[m as int] == k);
    }
}

/// A device over its limit loses exactly one staged chunk, the one with the lowest offset, and that is
/// reported with its place and its length. One without staged chunks loses nothing. Where this was one
/// eviction too many within the window, the device is quarantined and loses the rest too.
#[verifier::rlimit(60)]
pub proof fn law_relief_drops_the_lowest_offset(v: Model, dev: u32)
    requires
        v.staged.dom().finite(),
        !v.quarantined.contains(dev),
    ensures
        ({
            let out = device_relieved(v, dev);
            let any = exists|k: Key3| #[trigger] v.staged.contains_key(k) && k.a == dev;
            &&& !any ==> out.v == v && out.events.len() == 0
            &&& any ==> exists|k: Key3|
                #[trigger] oldest_of(v, dev, k) && out.events.len() >= 1 && out.events[0] == (EventView::Evict {
                    dev_id: dev,
                    segment_seq: k.b as u32,
                    offset: k.c,
                    bytes: v.staged[k].len() as u64,
                }) && !out.v.staged.contains_key(k) && (!out.v.quarantined.contains(dev) ==> out.v.staged == v.staged.remove(k)
                    && out.events.len() == 1)
            &&& any ==> (out.v.quarantined.contains(dev) <==> next_streak(v, dev).streak >= v.budgets.evict_threshold)
            &&& out.v.quarantined.contains(dev) ==> forall|k: Key3| #[trigger] out.v.staged.contains_key(k) ==> k.a != dev
            &&& forall|k: Key3| k.a != dev ==> (#[trigger] out.v.staged.contains_key(k) == v.staged.contains_key(k))
        }),
{
    let keys = staged_keys(v, Some(dev));
    let lo = Key3 { a: dev as u64, b: 0, c: 0 };
    let hi = Key3 { a: dev as u64, b: u64::MAX, c: u64::MAX };
    lemma_scan_exists(v.staged.dom(), lo, hi);
    assert forall|i: int| 0 <= i < keys.len() implies v.staged.contains_key(#[trigger] keys[i]) && keys[i].a == dev by {
        assert(v.staged.dom().contains(keys[i]));
    }
    lemma_lowest(v.quarantined, keys, keys.len());
    let out = device_relieved(v, dev);
    assert forall|k: Key3| #[trigger] v.staged.contains_key(k) && k.a == dev implies keys.contains(k) by {
        assert(v.staged.dom().contains(k));
    }
    if let Some(b) = victim(v.quarantined, keys, keys.len()) {
        let i = choose|i: int| 0 <= i < keys.len() && #[trigger] keys[i] == b;
        assert(v.staged.contains_key(keys[i]));
        assert forall|j: Key3| #[trigger] v.staged.contains_key(j) && j.a == dev implies b.c <= j.c by {
            assert(keys.contains(j));
            let x = choose|x: int| 0 <= x < keys.len() && keys[x] == j;
            assert(b.c <= keys[x].c);
        }
        assert(oldest_of(v, dev, b));
        assert(out.events[0] == (EventView::Evict { dev_id: dev, segment_seq: b.b as u32, offset: b.c, bytes: v.staged[b].len() as u64 }));
    } else if exists|k: Key3| #[trigger] v.staged.contains_key(k) && k.a == dev {
        let k = choose|k: Key3| #[trigger] v.staged.contains_key(k) && k.a == dev;
        assert(keys.contains(k));
    }
}

/// The whole over its limit loses exactly one staged chunk, the one with the lowest offset, and no device is
/// quarantined for it.
#[verifier::rlimit(60)]
pub proof fn law_global_relief_drops_the_lowest_offset(v: Model)
    requires
        v.staged.dom().finite(),
        cleared(v),
    ensures
        ({
            let out = relieved(v);
            let any = exists|k: Key3| #[trigger] v.staged.contains_key(k);
            &&& !any ==> out.v == v && out.events.len() == 0
            &&& any ==> exists|k: Key3|
                #[trigger] oldest(v, k) && out.v.staged == v.staged.remove(k) && out.events == seq![
                    EventView::Evict { dev_id: k.a as u32, segment_seq: k.b as u32, offset: k.c, bytes: v.staged[k].len() as u64 },
                ]
            &&& out.v.quarantined == v.quarantined
        }),
{
    let keys = staged_keys(v, None);
    let lo = Key3 { a: 0, b: 0, c: 0 };
    let hi = Key3 { a: u64::MAX, b: u64::MAX, c: u64::MAX };
    lemma_scan_exists(v.staged.dom(), lo, hi);
    assert forall|i: int| 0 <= i < keys.len() implies v.staged.contains_key(#[trigger] keys[i]) && !v.quarantined.contains(keys[i].a as u32) by {
        assert(v.staged.dom().contains(keys[i]));
    }
    lemma_lowest(v.quarantined, keys, keys.len());
    let out = relieved(v);
    assert forall|k: Key3| #[trigger] v.staged.contains_key(k) implies keys.contains(k) by {
        assert(v.staged.dom().contains(k));
        assert(lo.rank() <= k.rank() <= hi.rank());
    }
    if let Some(b) = victim(v.quarantined, keys, keys.len()) {
        let i = choose|i: int| 0 <= i < keys.len() && #[trigger] keys[i] == b;
        assert(v.staged.contains_key(keys[i]));
        assert forall|j: Key3| #[trigger] v.staged.contains_key(j) implies b.c <= j.c by {
            assert(keys.contains(j));
            let x = choose|x: int| 0 <= x < keys.len() && keys[x] == j;
            assert(b.c <= keys[x].c);
        }
        assert(oldest(v, b));
    } else if exists|k: Key3| #[trigger] v.staged.contains_key(k) {
        let k = choose|k: Key3| #[trigger] v.staged.contains_key(k);
        assert(keys.contains(k));
    }
}

/// Evictions of a device count together within the window that the first of them opens, and count anew from
/// one after it.
pub proof fn law_evictions_count_within_their_window(v: Model, dev: u32)
    ensures
        ({
            let st = next_streak(v, dev);
            &&& !v.evict.contains_key(dev) ==> st.streak == 1 && st.window_start == v.now
            &&& v.evict.contains_key(dev) ==> {
                let old = v.evict[dev];
                &&& v.now > old.window_start + v.budgets.evict_window_secs ==> st.streak == 1 && st.window_start == v.now
                &&& v.now <= old.window_start + v.budgets.evict_window_secs && old.streak < u32::MAX ==> st.streak == old.streak + 1
                    && st.window_start == old.window_start
            }
        }),
{
}

/// The numbers reported as passed over are exactly those between the highest segment sealed so far and the
/// one sealed now, each once and in ascending order; before the first seal none is. The highest number is
/// kept.
#[verifier::rlimit(60)]
pub proof fn law_passed_over_numbers_are_reported(v: Model, dev: u32, seq: u32, size: u64)
    ensures
        ({
            let out = sealed(v, dev, seq, size);
            let gone = skipped(dev, last_sealed(v, dev), seq);
            &&& out.events.len() >= gone.len()
            &&& out.events.take(gone.len() as int) == gone
            &&& out.events.len() <= gone.len() + 1
            &&& !v.last_seq.contains_key(dev) ==> gone.len() == 0
            &&& v.last_seq.contains_key(dev) ==> {
                let last = v.last_seq[dev];
                &&& gone.len() == if seq > last {
                    seq - last - 1
                } else {
                    0
                }
                &&& forall|i: int|
                    0 <= i < gone.len() ==> #[trigger] gone[i] == (EventView::SeqSkipped { dev_id: dev, segment_seq: (last + 1 + i) as u32 })
            }
            &&& out.v.last_seq.contains_key(dev)
            &&& out.v.last_seq[dev] >= seq
            &&& out.v.last_seq[dev] == seq || v.last_seq.contains_key(dev) && out.v.last_seq[dev] == v.last_seq[dev]
            &&& forall|d: u32| d != dev ==> (#[trigger] out.v.last_seq.contains_key(d) == v.last_seq.contains_key(d))
        }),
{
    let out = sealed(v, dev, seq, size);
    let gone = skipped(dev, last_sealed(v, dev), seq);
    assert(out.events.take(gone.len() as int) =~= gone);
}

/// The seal of a segment that is known has its outcome as the last event: complete with its size, or a gap
/// from where the segment stands up to its size.
pub proof fn law_seal_ends_with_its_outcome(v: Model, dev: u32, seq: u32, size: u64)
    requires
        v.segs.contains_key(seg_key(dev, seq)),
    ensures
        ({
            let out = sealed(v, dev, seq, size);
            let at = v.segs[seg_key(dev, seq)].next_expected;
            &&& out.events.len() > 0
            &&& at == size ==> out.events.last() == (EventView::Sealed { dev_id: dev, segment_seq: seq, size })
            &&& at != size ==> out.events.last() == (EventView::SealGap { dev_id: dev, segment_seq: seq, next_expected: at, sealed_size: size })
        }),
{
}

/// A chunk ahead of its segment for which every budget has room is staged as it is: nothing is dropped,
/// nothing is reported, no cursor moves.
#[verifier::rlimit(60)]
pub proof fn law_chunk_with_room_is_staged(v: Model, dev: u32, seq: u32, offset: u64, data: Seq<u8>)
    requires
        inv(v),
        steady(v),
        !v.quarantined.contains(dev),
        offset > seg_at(v, seg_key(dev, seq)).next_expected,
        !v.staged.contains_key(Key3 { a: dev as u64, b: seq as u64, c: offset }),
        seg_at(v, seg_key(dev, seq)).pending_bytes + data.len() <= v.budgets.l2_segment_cap,
        charged_to(v, dev) + data.len() <= v.budgets.l25_conn_cap,
        charged(v) + data.len() <= v.budgets.l3_global_cap,
    ensures
        ({
            let out = placed(v, dev, seq, offset, data);
            let key = seg_key(dev, seq);
            &&& out.events.len() == 0
            &&& out.v.staged == v.staged.insert(Key3 { a: dev as u64, b: seq as u64, c: offset }, data)
            &&& seg_at(out.v, key).next_expected == seg_at(v, key).next_expected
            &&& seg_at(out.v, key).pending_bytes == seg_at(v, key).pending_bytes + data.len()
            &&& out.v.quarantined == v.quarantined
        }),
{
    let key = seg_key(dev, seq);
    let k = Key3 { a: dev as u64, b: seq as u64, c: offset };
    let w = with_chunk(v, key, offset, data);
    assert(growth(v, key, offset, data) == data.len());
    assert(w.staged.dom().finite());
    lemma_ripe(w, key);
    if ripe(w, key).len() > 0 {
        let q = ripe(w, key)[0];
        assert(w.staged.contains_key(q));
        if q != k {
            assert(v.staged.contains_key(q));
            assert(v.segs.contains_key(Key2 { a: q.a, b: q.b }));
            assert(Key2 { a: q.a, b: q.b } == key);
        }
    }
    let none = Seq::<EventView>::empty();
    assert(none + none + none =~= none);
    assert(drained(w, key, w.staged.dom().len()).v == w);
}

/// A chunk ahead of its segment that would take it over its own limit gives the segment up: its staged
/// chunks go, and the gap is reported from where it stands. No other segment is touched.
pub proof fn law_segment_over_its_limit_is_given_up(v: Model, dev: u32, seq: u32, offset: u64, data: Seq<u8>)
    requires
        !v.quarantined.contains(dev),
        offset > seg_at(v, seg_key(dev, seq)).next_expected,
        !v.staged.contains_key(Key3 { a: dev as u64, b: seq as u64, c: offset }),
        seg_at(v, seg_key(dev, seq)).pending_bytes + data.len() > v.budgets.l2_segment_cap,
    ensures
        ({
            let out = placed(v, dev, seq, offset, data);
            let at = seg_at(v, seg_key(dev, seq)).next_expected;
            &&& out.events.len() == 2
            &&& out.events[0] is SegmentError
            &&& out.events[1] == (EventView::Gap { dev_id: dev, segment_seq: seq, start_offset: at })
            &&& v.segs.contains_key(seg_key(dev, seq)) ==> forall|k: Key3| #[trigger]
                out.v.staged.contains_key(k) <==> v.staged.contains_key(k) && !(k.a == dev && k.b == seq)
            &&& forall|k: Key2| k != seg_key(dev, seq) ==> #[trigger] seg_at(out.v, k) == seg_at(v, k)
            &&& v.segs.contains_key(seg_key(dev, seq)) ==> seg_at(out.v, seg_key(dev, seq)).pending_bytes == 0
        }),
{
    let key = seg_key(dev, seq);
    assert(growth(v, key, offset, data) == data.len());
}

} // verus!
