//! How the live intake heals gaps and keeps time.

use crate::ingest::live::{
    after_event, after_tick, all_retried, fed, retried, retry_end, retry_start, scan_due, ActionView,
    GapQuery, IngestView, RefillState, RetryView,
};
use crate::reassembly::{sealed, seg_key, EventView, Model};
use crate::table::{lemma_scan_exists, scan, Key2};
use vstd::prelude::*;

verus! {

/// A query for a segment.
pub open spec fn asks_for(q: GapQuery, key: Key2) -> bool {
    q.dev_id == key.a && q.segment_seq == key.b
}

/// How many of the queries are for a segment.
pub open spec fn asked(queries: Seq<GapQuery>, key: Key2) -> nat
    decreases queries.len(),
{
    if queries.len() == 0 {
        0
    } else {
        asked(queries.drop_last(), key) + (if asks_for(queries.last(), key) {
            1nat
        } else {
            0
        })
    }
}

/// Everything that arrived of a sealed segment adds up to its size.
pub open spec fn filled(v: Model, refill: RefillState, key: Key2) -> bool {
    v.segs.contains_key(key) && v.segs[key].next_expected == refill.sealed_size
}

/// What a retry of one segment does: a filled gap is settled and reported; an open one is asked for exactly
/// once, from where the segment stands, until it has been tried twenty times; no other segment is touched.
spec fn retried_well(s: RetryView, t: RetryView, key: Key2) -> bool {
    let refill = s.refills[key];
    let from = if s.v.segs.contains_key(key) {
        s.v.segs[key].next_expected
    } else {
        refill.last_expected
    };
    let q = GapQuery { dev_id: key.a as u32, segment_seq: key.b as u32, start_offset: from };
    &&& if filled(s.v, refill, key) {
        &&& !t.refills.contains_key(key)
        &&& t.queries == s.queries
        &&& t.events.contains(EventView::Sealed { dev_id: key.a as u32, segment_seq: key.b as u32, size: refill.sealed_size })
    } else if refill.rounds + 1 < 20 {
        &&& t.refills.contains_key(key)
        &&& t.refills[key].rounds == refill.rounds + 1
        &&& t.refills[key].sealed_size == refill.sealed_size
        &&& t.refills[key].last_expected == from
        &&& t.queries == s.queries.push(q)
    } else {
        &&& !t.refills.contains_key(key)
        &&& t.queries == s.queries
    }
    &&& forall|k: Key2| k != key ==> (#[trigger] t.refills.contains_key(k) == s.refills.contains_key(k))
    &&& forall|k: Key2| k != key && #[trigger] t.refills.contains_key(k) ==> t.refills[k] == s.refills[k]
    &&& forall|k: Key2| k != key ==> (#[trigger] t.v.segs.contains_key(k) == s.v.segs.contains_key(k))
    &&& forall|k: Key2| k != key && #[trigger] t.v.segs.contains_key(k) ==> t.v.segs[k] == s.v.segs[k]
    &&& t.events.len() >= s.events.len()
    &&& t.events.take(s.events.len() as int) == s.events
}

#[verifier::rlimit(60)]
proof fn lemma_retried(s: RetryView, key: Key2)
    requires
        s.refills.contains_key(key),
        key.a <= u32::MAX,
        key.b <= u32::MAX,
    ensures
        retried_well(s, retried(s, key), key),
{
    let t = retried(s, key);
    let out = sealed(s.v, key.a as u32, key.b as u32, s.refills[key].sealed_size);
    assert(seg_key(key.a as u32, key.b as u32) == key);
    assert(t.events.take(s.events.len() as int) =~= s.events);
    if filled(s.v, s.refills[key], key) {
        assert(t.events[t.events.len() - 1] == out.events.last());
    }
}

/// Whether `key` is among the first `n` of `keys`.
pub open spec fn one_of(keys: Seq<Key2>, n: nat, key: Key2) -> bool {
    exists|i: int| 0 <= i < n && i < keys.len() && #[trigger] keys[i] == key
}

/// What a tick has done after `n` segments, told of one segment.
spec fn ticked_well(s: IngestView, t: RetryView, keys: Seq<Key2>, n: nat, key: Key2) -> bool {
    let refill = s.refills[key];
    let from = if s.v.segs.contains_key(key) {
        s.v.segs[key].next_expected
    } else {
        refill.last_expected
    };
    let q = GapQuery { dev_id: key.a as u32, segment_seq: key.b as u32, start_offset: from };
    if !one_of(keys, n, key) {
        &&& t.refills.contains_key(key) == s.refills.contains_key(key)
        &&& s.refills.contains_key(key) ==> t.refills[key] == refill
        &&& t.v.segs.contains_key(key) == s.v.segs.contains_key(key)
        &&& s.v.segs.contains_key(key) ==> t.v.segs[key] == s.v.segs[key]
        &&& asked(t.queries, key) == 0
    } else if filled(s.v, refill, key) {
        &&& !t.refills.contains_key(key)
        &&& asked(t.queries, key) == 0
        &&& t.events.contains(EventView::Sealed { dev_id: key.a as u32, segment_seq: key.b as u32, size: refill.sealed_size })
    } else if refill.rounds + 1 < 20 {
        &&& t.refills.contains_key(key)
        &&& t.refills[key].rounds == refill.rounds + 1
        &&& t.refills[key].sealed_size == refill.sealed_size
        &&& t.refills[key].last_expected == from
        &&& asked(t.queries, key) == 1
        &&& t.queries.contains(q)
    } else {
        &&& !t.refills.contains_key(key)
        &&& asked(t.queries, key) == 0
    }
}

#[verifier::rlimit(60)]
proof fn lemma_ticked(s: IngestView, keys: Seq<Key2>, n: nat, key: Key2)
    requires
        n <= keys.len(),
        forall|i: int| 0 <= i < keys.len() ==> s.refills.contains_key(#[trigger] keys[i]) && keys[i].a <= u32::MAX && keys[i].b <= u32::MAX,
        forall|i: int, j: int| 0 <= i < j < keys.len() ==> keys[i] != keys[j],
        key.a <= u32::MAX,
        key.b <= u32::MAX,
    ensures
        ticked_well(s, all_retried(retry_start(s), keys, n), keys, n, key),
    decreases n,
{
    if n > 0 {
        let m = (n - 1) as nat;
        let x = keys[m as int];
        lemma_ticked(s, keys, m, key);
        lemma_ticked(s, keys, m, x);
        let a = all_retried(retry_start(s), keys, m);
        let b = all_retried(retry_start(s), keys, n);
        assert(!one_of(keys, m, x));
        lemma_retried(a, x);
        if one_of(keys, n, key) && key != x {
            let i = choose|i: int| 0 <= i < n && i < keys.len() && #[trigger] keys[i] == key;
            assert(keys[i] == key && i < m);
        }
        if one_of(keys, m, key) {
            let i = choose|i: int| 0 <= i < m && i < keys.len() && #[trigger] keys[i] == key;
            assert(keys[i] == key && i < n);
        }
        assert(keys[m as int] == x);
        if b.queries.len() > a.queries.len() {
            assert(b.queries.drop_last() =~= a.queries);
            assert(asks_for(b.queries.last(), x));
            assert(asks_for(b.queries.last(), key) == (key == x));
            if key == x {
                assert(b.queries[b.queries.len() - 1] == b.queries.last());
            } else if one_of(keys, m, key) && asked(a.queries, key) == 1 && !filled(s.v, s.refills[key], key) && s.refills[key].rounds + 1 < 20 {
                let from = if s.v.segs.contains_key(key) {
                    s.v.segs[key].next_expected
                } else {
                    s.refills[key].last_expected
                };
                let q = GapQuery { dev_id: key.a as u32, segment_seq: key.b as u32, start_offset: from };
                let i = choose|i: int| 0 <= i < a.queries.len() && a.queries[i] == q;
                assert(b.queries[i] == q);
            }
        }
        let e = EventView::Sealed { dev_id: key.a as u32, segment_seq: key.b as u32, size: s.refills[key].sealed_size };
        if a.events.contains(e) {
            let i = choose|i: int| 0 <= i < a.events.len() && a.events[i] == e;
            assert(b.events.take(a.events.len() as int)[i] == e);
            assert(b.events[i] == e);
        }
    }
}

/// A tick heals gaps. A sealed segment whose gap has been filled is reported complete and asked for no more.
/// One whose gap is still open is asked for exactly once, from the point that it has reached, and stays in
/// flight with one more round, until it has been tried twenty times; then it is dropped. Nothing is asked for
/// that is not in flight.
#[verifier::rlimit(60)]
pub proof fn law_tick_asks_for_what_is_missing(s: IngestView, key: Key2)
    requires
        s.refills.dom().finite(),
        forall|k: Key2| #[trigger] s.refills.contains_key(k) ==> k.a <= u32::MAX && k.b <= u32::MAX,
        key.a <= u32::MAX,
        key.b <= u32::MAX,
    ensures
        ({
            let t = after_tick(s);
            let queries = retry_end(s).queries;
            let refill = s.refills[key];
            if !s.refills.contains_key(key) {
                &&& !t.refills.contains_key(key)
                &&& asked(queries, key) == 0
            } else if filled(s.v, refill, key) {
                &&& !t.refills.contains_key(key)
                &&& asked(queries, key) == 0
                &&& retry_end(s).events.contains(
                    EventView::Sealed { dev_id: key.a as u32, segment_seq: key.b as u32, size: refill.sealed_size },
                )
            } else if refill.rounds + 1 < 20 {
                &&& t.refills.contains_key(key)
                &&& t.refills[key].rounds == refill.rounds + 1
                &&& t.refills[key].sealed_size == refill.sealed_size
                &&& asked(queries, key) == 1
                &&& s.v.segs.contains_key(key) ==> queries.contains(
                    GapQuery { dev_id: key.a as u32, segment_seq: key.b as u32, start_offset: s.v.segs[key].next_expected },
                )
                &&& !s.v.segs.contains_key(key) ==> queries.contains(
                    GapQuery { dev_id: key.a as u32, segment_seq: key.b as u32, start_offset: refill.last_expected },
                )
            } else {
                &&& !t.refills.contains_key(key)
                &&& asked(queries, key) == 0
            }
        }),
{
    let (lo, hi) = (Key2 { a: 0, b: 0 }, Key2 { a: u64::MAX, b: u64::MAX });
    let keys = scan(s.refills.dom(), lo, hi);
    lemma_scan_exists(s.refills.dom(), lo, hi);
    assert forall|i: int| 0 <= i < keys.len() implies s.refills.contains_key(#[trigger] keys[i]) && keys[i].a <= u32::MAX && keys[i].b
        <= u32::MAX by {
        assert(s.refills.dom().contains(keys[i]));
    }
    lemma_ticked(s, keys, keys.len(), key);
    if s.refills.contains_key(key) {
        assert(s.refills.dom().contains(key));
        assert(keys.contains(key));
        let i = choose|i: int| 0 <= i < keys.len() && keys[i] == key;
        assert(keys[i] == key);
    } else if one_of(keys, keys.len(), key) {
        let i = choose|i: int| 0 <= i < keys.len() && i < keys.len() && #[trigger] keys[i] == key;
        assert(s.refills.contains_key(keys[i]));
    }
}

/// Some ticks, one after the other.
pub open spec fn ticks(s: IngestView, n: nat) -> IngestView
    decreases n,
{
    if n == 0 {
        s
    } else {
        after_tick(ticks(s, (n - 1) as nat))
    }
}

/// From a fresh start, a scan for requests without an answer is due on every `ttl_secs`-th tick and on no
/// other.
#[verifier::rlimit(60)]
pub proof fn law_scans_keep_time(s: IngestView, n: nat)
    requires
        s.ttl_ticks == 0,
        s.ttl_secs > 0,
    ensures
        ticks(s, n).ttl_secs == s.ttl_secs,
        ticks(s, n).ttl_ticks == n as int % (s.ttl_secs as int),
        scan_due(ticks(s, n)) <==> (n + 1) as int % (s.ttl_secs as int) == 0,
    decreases n,
{
    let m = s.ttl_secs as int;
    if n > 0 {
        law_scans_keep_time(s, (n - 1) as nat);
        let k = (n - 1) as int;
        assert((k + 1) % m == if k % m + 1 == m {
            0
        } else {
            k % m + 1
        }) by {
            lemma_next_mod(k, m);
        }
    }
    lemma_next_mod(n as int, m);
}

proof fn lemma_next_mod(k: int, m: int)
    requires
        k >= 0,
        m > 0,
    ensures
        0 <= k % m < m,
        (k + 1) % m == if k % m + 1 == m {
            0
        } else {
            k % m + 1
        },
{
    let q = k / m;
    let r = k % m;
    vstd::arithmetic::div_mod::lemma_fundamental_div_mod(k, m);
    if r + 1 == m {
        assert(k + 1 == m * (q + 1) + 0) by (nonlinear_arith)
            requires
                k == m * q + r,
                r + 1 == m,
        ;
        vstd::arithmetic::div_mod::lemma_fundamental_div_mod_converse(k + 1, m, q + 1, 0);
    } else {
        vstd::arithmetic::div_mod::lemma_fundamental_div_mod_converse(k + 1, m, q, r + 1);
    }
}

/// Data that continues a segment waits behind what waited already, up to a megabyte; beyond that the wait is
/// dropped. It is decoded next, and no other segment's bytes move.
pub proof fn law_appended_data_waits_in_order(s: IngestView, dev: u32, seq: u32, offset: u64, data: Seq<u8>, now: i64)
    ensures
        ({
            let e = EventView::Append { dev_id: dev, segment_seq: seq, offset, data };
            let (t, action) = after_event(s, e, now);
            let key = Key2 { a: dev as u64, b: seq as u64 };
            let waiting = if s.decoders.contains_key(key) {
                s.decoders[key]
            } else {
                Seq::empty()
            };
            &&& action == ActionView::Decode { dev_id: dev, segment_seq: seq }
            &&& t.decoders.contains_key(key)
            &&& waiting.len() + data.len() <= 1_048_576 ==> {
                &&& t.decoders[key].len() == waiting.len() + data.len()
                &&& t.decoders[key].take(waiting.len() as int) == waiting
                &&& t.decoders[key].skip(waiting.len() as int) == data
            }
            &&& waiting.len() + data.len() > 1_048_576 ==> t.decoders[key].len() == 0
            &&& forall|k: Key2| k != key ==> (#[trigger] t.decoders.contains_key(k) == s.decoders.contains_key(k))
            &&& forall|k: Key2| k != key && #[trigger] t.decoders.contains_key(k) ==> t.decoders[k] == s.decoders[k]
            &&& t.v == s.v && t.refills == s.refills && t.stats == s.stats
        }),
{
    let key = Key2 { a: dev as u64, b: seq as u64 };
    let waiting = if s.decoders.contains_key(key) {
        s.decoders[key]
    } else {
        Seq::empty()
    };
    let all = fed(waiting, data);
    if waiting.len() + data.len() <= 1_048_576 {
        assert(all.take(waiting.len() as int) =~= waiting);
        assert(all.skip(waiting.len() as int) =~= data);
    }
}

} // verus!
