//! Paged scans over one index that is split into numbered epochs.
//!
//! A scan lists the wanted rows of the epochs one after the other; a page is a stretch of that list, and
//! a cursor is where the stretch ended: the epoch number in four bytes, then the key.

use crate::codec::{be, be_words, from_be, lemma_be_len, lemma_be_round_trip, lemma_pow256_values, lex_less, push_be, read_be};
use crate::db::{k_conn_qr, k_qr_time};
use crate::laws::{law_three_word_keys_sort_by_words, law_two_word_keys_sort_by_words};
use crate::table::{ascending, is_scan, lemma_scan_exists, lemma_scan_unique, scan, IndexKey, Key2, Key3, Table};
use crate::text::{copy_range, push_range};
use vstd::prelude::*;

verus! {

/// Keys that a cursor can point at: they have a stored form, in the order of the index.
pub trait PageKey: IndexKey {
    /// The stored form.
    spec fn bytes(self) -> Seq<u8>;

    /// The first key there can be.
    spec fn least() -> Self;

    /// The last key there can be.
    spec fn greatest() -> Self;

    proof fn between(k: Self)
        ensures
            Self::least().rank() <= k.rank() <= Self::greatest().rank(),
    ;

    proof fn stored_in_order(a: Self, b: Self)
        ensures
            lex_less(a.bytes(), b.bytes()) <==> a.rank() < b.rank(),
    ;

    /// The stored form.
    fn stored(&self) -> (b: Vec<u8>)
        ensures
            b@ == self.bytes(),
    ;

    /// The first and the last key there can be.
    fn extremes() -> (r: (Self, Self))
        ensures
            r.0 == Self::least(),
            r.1 == Self::greatest(),
    ;
}

impl PageKey for Key2 {
    open spec fn bytes(self) -> Seq<u8> {
        be_words(seq![self.a, self.b])
    }

    open spec fn least() -> Self {
        Key2 { a: 0, b: 0 }
    }

    open spec fn greatest() -> Self {
        Key2 { a: u64::MAX, b: u64::MAX }
    }

    proof fn between(k: Self) {
    }

    proof fn stored_in_order(a: Self, b: Self) {
        law_two_word_keys_sort_by_words(a, b);
    }

    fn stored(&self) -> (b: Vec<u8>) {
        k_qr_time(self.a, self.b)
    }

    fn extremes() -> (r: (Self, Self)) {
        (Key2 { a: 0, b: 0 }, Key2 { a: 0xffff_ffff_ffff_ffff, b: 0xffff_ffff_ffff_ffff })
    }
}

impl PageKey for Key3 {
    open spec fn bytes(self) -> Seq<u8> {
        be_words(seq![self.a, self.b, self.c])
    }

    open spec fn least() -> Self {
        Key3 { a: 0, b: 0, c: 0 }
    }

    open spec fn greatest() -> Self {
        Key3 { a: u64::MAX, b: u64::MAX, c: u64::MAX }
    }

    proof fn between(k: Self) {
    }

    proof fn stored_in_order(a: Self, b: Self) {
        law_three_word_keys_sort_by_words(a, b);
    }

    fn stored(&self) -> (b: Vec<u8>) {
        k_conn_qr(self.a, self.b, self.c)
    }

    fn extremes() -> (r: (Self, Self)) {
        (
            Key3 { a: 0, b: 0, c: 0 },
            Key3 { a: 0xffff_ffff_ffff_ffff, b: 0xffff_ffff_ffff_ffff, c: 0xffff_ffff_ffff_ffff },
        )
    }
}

/// Whether a scan wants a key: it lies between the bounds, and where the scan resumes, beyond the key it
/// resumes after, which then takes the place of the bound it moves away from.
pub open spec fn wanted<K: PageKey>(k: K, lo: K, hi: K, after: Option<Seq<u8>>, forward: bool) -> bool {
    if forward {
        k.rank() <= hi.rank() && match after {
            Some(c) => lex_less(c, k.bytes()),
            None => lo.rank() <= k.rank(),
        }
    } else {
        lo.rank() <= k.rank() && match after {
            Some(c) => lex_less(k.bytes(), c),
            None => k.rank() <= hi.rank(),
        }
    }
}

/// The keys that a scan wants.
pub open spec fn wanted_keys<K: PageKey>(keys: Set<K>, lo: K, hi: K, after: Option<Seq<u8>>, forward: bool) -> Set<K> {
    keys.filter(|k: K| wanted(k, lo, hi, after, forward))
}

/// The keys that a scan of one epoch lists: ascending, or descending where it goes backward.
pub open spec fn listing<K: PageKey>(keys: Set<K>, lo: K, hi: K, after: Option<Seq<u8>>, forward: bool) -> Seq<K> {
    let up = scan(wanted_keys(keys, lo, hi, after, forward), K::least(), K::greatest());
    if forward {
        up
    } else {
        up.reverse()
    }
}

/// A cursor: the epoch and the stored key of a row.
pub open spec fn cursor_at(epoch: u32, key: Seq<u8>) -> Seq<u8> {
    be(epoch as nat, 4) + key
}

/// The epoch that a cursor names; a cursor too short to name one names the first.
pub open spec fn cursor_epoch(c: Seq<u8>) -> nat {
    if c.len() >= 4 {
        from_be(c.take(4))
    } else {
        0
    }
}

/// The stored key that a cursor names.
pub open spec fn cursor_key(c: Seq<u8>) -> Option<Seq<u8>> {
    if c.len() >= 4 {
        Some(c.skip(4))
    } else {
        None
    }
}

/// Whether a scan that resumes at a cursor has anything to do with an epoch.
pub open spec fn visited(num: u32, cursor: Option<Seq<u8>>, forward: bool) -> bool {
    match cursor {
        Some(c) => if forward {
            num >= cursor_epoch(c)
        } else {
            num <= cursor_epoch(c)
        },
        None => true,
    }
}

/// The key after which a scan resumes within an epoch.
pub open spec fn resume_in(num: u32, cursor: Option<Seq<u8>>) -> Option<Seq<u8>> {
    match cursor {
        Some(c) => if num == cursor_epoch(c) {
            cursor_key(c)
        } else {
            None
        },
        None => None,
    }
}

/// The rows of one epoch that a scan lists.
pub open spec fn shard_rows<K: PageKey>(
    num: u32,
    keys: Set<K>,
    lo: K,
    hi: K,
    cursor: Option<Seq<u8>>,
    forward: bool,
) -> Seq<(u32, K)> {
    if visited(num, cursor, forward) {
        listing(keys, lo, hi, resume_in(num, cursor), forward).map_values(|k: K| (num, k))
    } else {
        Seq::empty()
    }
}

/// All rows that a scan lists, epoch by epoch, the highest first where it goes backward.
pub open spec fn all_rows<K: PageKey>(
    shards: Seq<(u32, Set<K>)>,
    lo: K,
    hi: K,
    cursor: Option<Seq<u8>>,
    forward: bool,
) -> Seq<(u32, K)>
    decreases shards.len(),
{
    if shards.len() == 0 {
        Seq::empty()
    } else {
        let rest = all_rows(shards.drop_last(), lo, hi, cursor, forward);
        let last = shard_rows(shards.last().0, shards.last().1, lo, hi, cursor, forward);
        if forward {
            rest + last
        } else {
            last + rest
        }
    }
}

/// The first rows of a list, at most as many as a page holds; a page holds at least one.
pub open spec fn first_page<T>(rows: Seq<T>, limit: usize) -> Seq<T> {
    let n = if limit == 0 {
        1int
    } else {
        limit as int
    };
    if rows.len() <= n {
        rows
    } else {
        rows.take(n)
    }
}

/// Epochs in ascending order, with finitely many rows each.
pub open spec fn shards_ok<K>(shards: Seq<(u32, Set<K>)>) -> bool {
    &&& forall|i: int, j: int| 0 <= i < j < shards.len() ==> (#[trigger] shards[i]).0 < (#[trigger] shards[j]).0
    &&& forall|i: int| 0 <= i < shards.len() ==> (#[trigger] shards[i]).1.finite()
}

/// Whether one byte string comes before another.
pub fn bytes_before(a: &[u8], b: &[u8]) -> (r: bool)
    ensures
        r == lex_less(a@, b@),
{
    let mut i: usize = 0;
    assert(a@.skip(0) =~= a@);
    assert(b@.skip(0) =~= b@);
    while i < a.len() && i < b.len() && a[i] == b[i]
        invariant
            i <= a@.len(),
            i <= b@.len(),
            lex_less(a@, b@) == lex_less(a@.skip(i as int), b@.skip(i as int)),
        decreases a@.len() - i,
    {
        assert(a@.skip(i as int).skip(1) =~= a@.skip(i + 1));
        assert(b@.skip(i as int).skip(1) =~= b@.skip(i + 1));
        i += 1;
    }
    if i == b.len() {
        false
    } else if i == a.len() {
        true
    } else {
        a[i] < b[i]
    }
}

/// Encodes a cursor.
pub fn encode_cursor(epoch: u32, key: &[u8]) -> (c: Vec<u8>)
    ensures
        c@ == cursor_at(epoch, key@),
{
    let mut c: Vec<u8> = Vec::new();
    push_be(&mut c, epoch as u64, 4);
    push_range(&mut c, key, 0, key.len());
    assert(c@ =~= be(epoch as nat, 4) + key@);
    c
}

/// Splits a cursor into the epoch and the stored key; one that is missing or too short names the first
/// epoch and no key.
pub fn parse_cursor(cursor: &Option<Vec<u8>>) -> (r: (u32, Option<Vec<u8>>))
    ensures
        cursor matches Some(c) ==> r.0 == cursor_epoch(c@) && (match r.1 {
            Some(k) => Some(k@),
            None => None,
        }) == cursor_key(c@),
        cursor is None ==> r.0 == 0 && r.1 is None,
{
    match cursor {
        Some(c) => if c.len() >= 4 {
            proof {
                assert(c@.subrange(0, 4) =~= c@.take(4));
                crate::codec::lemma_from_be_round_trip(c@.take(4));
                lemma_pow256_values();
            }
            let epoch: u64 = read_be(c, 0, 4);
            let key = copy_range(c, 4, c.len());
            assert(key@ =~= c@.skip(4));
            (epoch as u32, Some(key))
        } else {
            (0, None)
        },
        None => (0, None),
    }
}

/// A cursor gives back the epoch and the key it was made of.
pub proof fn law_cursor_round_trip(epoch: u32, key: Seq<u8>)
    ensures
        cursor_epoch(cursor_at(epoch, key)) == epoch,
        cursor_key(cursor_at(epoch, key)) == Some(key),
{
    let c = cursor_at(epoch, key);
    lemma_be_len(epoch as nat, 4);
    lemma_pow256_values();
    lemma_be_round_trip(epoch as nat, 4);
    assert(c.take(4) =~= be(epoch as nat, 4));
    assert(c.skip(4) =~= key);
}

/// Lists the wanted keys of one epoch.
fn list_shard<K: PageKey, V: View>(t: &Table<K, V>, lo: &K, hi: &K, after: Option<&Vec<u8>>, forward: bool) -> (ks: Vec<K>)
    requires
        t.wf(),
    ensures
        ks@ == listing(
            t@.dom(),
            *lo,
            *hi,
            match after {
                Some(c) => Some(c@),
                None => None,
            },
            forward,
        ),
{
    let ghost a = match after {
        Some(c) => Some(c@),
        None => None,
    };
    let ghost want = wanted_keys(t@.dom(), *lo, *hi, a, forward);
    let (least, greatest) = K::extremes();
    let (from, to) = match after {
        Some(_) => if forward {
            (least, *hi)
        } else {
            (*lo, greatest)
        },
        None => (*lo, *hi),
    };
    let candidates = t.range(&from, &to);
    let mut up: Vec<K> = Vec::new();
    let mut i: usize = 0;
    while i < candidates.len()
        invariant
            i <= candidates@.len(),
            is_scan(candidates@, t@.dom(), from, to),
            want == wanted_keys(t@.dom(), *lo, *hi, a, forward),
            a == (match after {
                Some(c) => Some(c@),
                None => None,
            }),
            from == (if after is Some && forward {
                K::least()
            } else {
                *lo
            }),
            to == (if after is Some && !forward {
                K::greatest()
            } else {
                *hi
            }),
            ascending(up@),
            forall|j: int| 0 <= j < up@.len() ==> want.contains(#[trigger] up@[j]),
            forall|j: int| 0 <= j < i && want.contains(#[trigger] candidates@[j]) ==> up@.contains(candidates@[j]),
            forall|j: int| #![auto] 0 <= j < up@.len() && i < candidates@.len() ==> up@[j].rank() < candidates@[i as int].rank(),
        decreases candidates@.len() - i,
    {
        let k = candidates[i];
        let take: bool = match after {
            Some(c) => {
                let b = k.stored();
                if forward {
                    bytes_before(c, &b)
                } else {
                    bytes_before(&b, c)
                }
            },
            None => true,
        };
        assert(t@.dom().contains(candidates@[i as int]));
        proof {
            K::between(k);
            assert(take == want.contains(k));
            if i + 1 < candidates@.len() {
                assert(candidates@[i as int].rank() < candidates@[i + 1].rank());
            }
        }
        let ghost before = up@;
        if take {
            up.push(k);
            assert(up@[up@.len() - 1] == k);
        }
        proof {
            assert forall|j: int| 0 <= j < i + 1 && want.contains(#[trigger] candidates@[j]) implies up@.contains(candidates@[j]) by {
                if j < i {
                    let p = choose|p: int| 0 <= p < before.len() && before[p] == candidates@[j];
                    assert(up@[p] == candidates@[j]);
                }
            }
        }
        i += 1;
    }
    proof {
        assert forall|k: K| #[trigger] want.contains(k) implies up@.contains(k) by {
            K::between(k);
            assert(t@.dom().contains(k));
            assert(candidates@.contains(k));
            let j = choose|j: int| 0 <= j < candidates@.len() && candidates@[j] == k;
            assert(want.contains(candidates@[j]));
        }
        assert forall|j: int| 0 <= j < up@.len() implies want.contains(#[trigger] up@[j]) && K::least().rank() <= up@[j].rank()
            <= K::greatest().rank() by {
            K::between(up@[j]);
        }
        lemma_scan_unique(up@, want, K::least(), K::greatest());
    }
    if forward {
        up
    } else {
        let mut down: Vec<K> = Vec::new();
        let mut n: usize = up.len();
        while n > 0
            invariant
                n <= up@.len(),
                down@ == up@.reverse().take(up@.len() - n),
            decreases n,
        {
            n -= 1;
            down.push(up[n]);
            assert(down@ =~= up@.reverse().take(up@.len() - n));
        }
        assert(down@ =~= up@.reverse());
        down
    }
}

/// Adds the wanted rows of one epoch to a page, as far as it holds them.
pub fn scan_epoch_range<K: PageKey, V: View>(
    t: &Table<K, V>,
    lo: &K,
    hi: &K,
    epoch_num: u32,
    cursor_key: Option<&Vec<u8>>,
    forward: bool,
    limit: usize,
    out: &mut Vec<(u32, K)>,
) -> (done: bool)
    requires
        t.wf(),
        old(out)@.len() < limit,
    ensures
        ({
            let rows = listing(
                t@.dom(),
                *lo,
                *hi,
                match cursor_key {
                    Some(c) => Some(c@),
                    None => None,
                },
                forward,
            ).map_values(|k: K| (epoch_num, k));
            let all = old(out)@ + rows;
            &&& done == (all.len() >= limit)
            &&& final(out)@ == (if done {
                all.take(limit as int)
            } else {
                all
            })
        }),
{
    let ks = list_shard(t, lo, hi, cursor_key, forward);
    let ghost rows = ks@.map_values(|k: K| (epoch_num, k));
    let ghost out0 = out@;
    let mut i: usize = 0;
    assert(out@ =~= out0 + rows.take(0));
    while i < ks.len()
        invariant
            i <= ks@.len(),
            rows == ks@.map_values(|k: K| (epoch_num, k)),
            out@ == out0 + rows.take(i as int),
            out@.len() < limit,
            out0 == old(out)@,
            rows == listing(
                t@.dom(),
                *lo,
                *hi,
                match cursor_key {
                    Some(c) => Some(c@),
                    None => None,
                },
                forward,
            ).map_values(|k: K| (epoch_num, k)),
        decreases ks@.len() - i,
    {
        out.push((epoch_num, ks[i]));
        assert(out@ =~= out0 + rows.take(i + 1));
        i += 1;
        if out.len() >= limit {
            assert(out@ =~= (out0 + rows).take(limit as int));
            return true;
        }
    }
    assert(rows.take(ks@.len() as int) =~= rows);
    false
}

proof fn lemma_wanted_scan<K: PageKey>(keys: Set<K>, lo: K, hi: K, after: Option<Seq<u8>>, forward: bool)
    requires
        keys.finite(),
    ensures
        is_scan(
            scan(wanted_keys(keys, lo, hi, after, forward), K::least(), K::greatest()),
            wanted_keys(keys, lo, hi, after, forward),
            K::least(),
            K::greatest(),
        ),
{
    lemma_scan_exists(wanted_keys(keys, lo, hi, after, forward), K::least(), K::greatest());
}

/// Within an epoch, a scan that resumes after one of its keys lists what came after that key.
proof fn lemma_listing_resumes<K: PageKey>(keys: Set<K>, lo: K, hi: K, after: Option<Seq<u8>>, forward: bool, i: int)
    requires
        keys.finite(),
        0 <= i < listing(keys, lo, hi, after, forward).len(),
    ensures
        ({
            let all = listing(keys, lo, hi, after, forward);
            listing(keys, lo, hi, Some(all[i].bytes()), forward) == all.skip(i + 1)
        }),
{
    let all = listing(keys, lo, hi, after, forward);
    let old_set = wanted_keys(keys, lo, hi, after, forward);
    let up = scan(old_set, K::least(), K::greatest());
    lemma_wanted_scan(keys, lo, hi, after, forward);
    let k = all[i];
    let new_set = wanted_keys(keys, lo, hi, Some(k.bytes()), forward);
    if forward {
        let rest = up.skip(i + 1);
        assert(old_set.contains(up[i]));
        assert forall|j: int| 0 <= j < rest.len() implies new_set.contains(#[trigger] rest[j]) && K::least().rank() <= rest[j].rank()
            <= K::greatest().rank() by {
            assert(rest[j] == up[i + 1 + j]);
            assert(old_set.contains(up[i + 1 + j]));
            assert(up[i].rank() < up[i + 1 + j].rank());
            K::stored_in_order(k, rest[j]);
        }
        assert forall|x: K| #[trigger] new_set.contains(x) && K::least().rank() <= x.rank() <= K::greatest().rank() implies rest.contains(
            x,
        ) by {
            K::stored_in_order(k, x);
            lemma_still_wanted(k, x, lo, hi, after, forward);
            assert(old_set.contains(x));
            assert(up.contains(x));
            let j = choose|j: int| 0 <= j < up.len() && up[j] == x;
            if j < i {
                assert(up[j].rank() < up[i].rank());
            }
            assert(rest[j - i - 1] == x);
        }
        assert forall|a: int, b: int| 0 <= a < b < rest.len() implies (#[trigger] rest[a]).rank() < (#[trigger] rest[b]).rank() by {
            assert(up[i + 1 + a].rank() < up[i + 1 + b].rank());
        }
        lemma_scan_unique(rest, new_set, K::least(), K::greatest());
    } else {
        let m = up.len() - 1 - i;
        assert(k == up[m]);
        let rest = up.take(m);
        assert(old_set.contains(up[m]));
        assert forall|j: int| 0 <= j < rest.len() implies new_set.contains(#[trigger] rest[j]) && K::least().rank() <= rest[j].rank()
            <= K::greatest().rank() by {
            assert(rest[j] == up[j]);
            assert(old_set.contains(up[j]));
            assert(up[j].rank() < up[m].rank());
            K::stored_in_order(rest[j], k);
        }
        assert forall|x: K| #[trigger] new_set.contains(x) && K::least().rank() <= x.rank() <= K::greatest().rank() implies rest.contains(
            x,
        ) by {
            K::stored_in_order(x, k);
            lemma_still_wanted(k, x, lo, hi, after, forward);
            assert(old_set.contains(x));
            assert(up.contains(x));
            let j = choose|j: int| 0 <= j < up.len() && up[j] == x;
            if j > m {
                assert(up[m].rank() < up[j].rank());
            }
            assert(rest[j] == x);
        }
        assert forall|a: int, b: int| 0 <= a < b < rest.len() implies (#[trigger] rest[a]).rank() < (#[trigger] rest[b]).rank() by {
            assert(up[a].rank() < up[b].rank());
        }
        lemma_scan_unique(rest, new_set, K::least(), K::greatest());
        assert(rest.reverse() =~= all.skip(i + 1));
    }
}

/// What lies beyond a wanted key, and short of the far bound, is wanted too.
proof fn lemma_still_wanted<K: PageKey>(k: K, x: K, lo: K, hi: K, after: Option<Seq<u8>>, forward: bool)
    requires
        wanted(k, lo, hi, after, forward),
        wanted(x, lo, hi, Some(k.bytes()), forward),
    ensures
        wanted(x, lo, hi, after, forward),
{
    K::stored_in_order(k, x);
    K::stored_in_order(x, k);
    if let Some(c) = after {
        if forward {
            lemma_lex_less_trans(c, k.bytes(), x.bytes());
        } else {
            lemma_lex_less_trans(x.bytes(), k.bytes(), c);
        }
    }
}

proof fn lemma_lex_less_trans(a: Seq<u8>, b: Seq<u8>, c: Seq<u8>)
    requires
        lex_less(a, b),
        lex_less(b, c),
    ensures
        lex_less(a, c),
    decreases a.len(),
{
    if a.len() > 0 && a[0] == b[0] && b[0] == c[0] {
        lemma_lex_less_trans(a.skip(1), b.skip(1), c.skip(1));
    }
}

/// Every row of a scan comes from one of its epochs.
proof fn lemma_row_epoch<K: PageKey>(shards: Seq<(u32, Set<K>)>, lo: K, hi: K, cursor: Option<Seq<u8>>, forward: bool, i: int)
    requires
        0 <= i < all_rows(shards, lo, hi, cursor, forward).len(),
    ensures
        ({
            let r = all_rows(shards, lo, hi, cursor, forward)[i];
            &&& visited(r.0, cursor, forward)
            &&& exists|j: int| 0 <= j < shards.len() && (#[trigger] shards[j]).0 == r.0
        }),
    decreases shards.len(),
{
    let n = shards.len() - 1;
    let (head, last) = (shards.drop_last(), shards.last());
    let rest = all_rows(head, lo, hi, cursor, forward);
    let own = shard_rows(last.0, last.1, lo, hi, cursor, forward);
    let r = all_rows(shards, lo, hi, cursor, forward)[i];
    let at = if forward {
        i
    } else {
        i - own.len()
    };
    if 0 <= at < rest.len() {
        assert(r == rest[at]);
        lemma_row_epoch(head, lo, hi, cursor, forward, at);
        let j = choose|j: int| 0 <= j < head.len() && (#[trigger] head[j]).0 == r.0;
        assert(shards[j].0 == r.0);
    } else {
        let p = if forward {
            i - rest.len()
        } else {
            i
        };
        assert(r == own[p]);
        assert(shards[n].0 == r.0);
    }
}

/// Every row of a scan stands in the epoch it comes from.
pub proof fn lemma_row_source<K: PageKey>(shards: Seq<(u32, Set<K>)>, lo: K, hi: K, cursor: Option<Seq<u8>>, forward: bool, i: int)
    requires
        shards_ok(shards),
        0 <= i < all_rows(shards, lo, hi, cursor, forward).len(),
    ensures
        ({
            let r = all_rows(shards, lo, hi, cursor, forward)[i];
            &&& exists|j: int| 0 <= j < shards.len() && (#[trigger] shards[j]).0 == r.0 && shards[j].1.contains(r.1)
            &&& visited(r.0, cursor, forward)
            &&& wanted(r.1, lo, hi, resume_in(r.0, cursor), forward)
        }),
    decreases shards.len(),
{
    let n = shards.len() - 1;
    let (head, last) = (shards.drop_last(), shards.last());
    assert(last == shards[n]);
    let rest = all_rows(head, lo, hi, cursor, forward);
    let own = shard_rows(last.0, last.1, lo, hi, cursor, forward);
    let r = all_rows(shards, lo, hi, cursor, forward)[i];
    let at = if forward {
        i
    } else {
        i - own.len()
    };
    if 0 <= at < rest.len() {
        assert(r == rest[at]);
        assert(shards_ok(head)) by {
            assert forall|x: int, y: int| 0 <= x < y < head.len() implies (#[trigger] head[x]).0 < (#[trigger] head[y]).0 by {
                assert(shards[x].0 < shards[y].0);
            }
            assert forall|x: int| 0 <= x < head.len() implies (#[trigger] head[x]).1.finite() by {
                assert(shards[x].1.finite());
            }
        }
        lemma_row_source(head, lo, hi, cursor, forward, at);
        let j = choose|j: int| 0 <= j < head.len() && (#[trigger] head[j]).0 == r.0 && head[j].1.contains(r.1);
        assert(shards[j].0 == r.0 && shards[j].1.contains(r.1));
    } else {
        let p = if forward {
            i - rest.len()
        } else {
            i
        };
        assert(r == own[p]);
        let up = scan(wanted_keys(last.1, lo, hi, resume_in(last.0, cursor), forward), K::least(), K::greatest());
        lemma_wanted_scan(last.1, lo, hi, resume_in(last.0, cursor), forward);
        let q = if forward {
            p
        } else {
            up.len() - 1 - p
        };
        assert(r.1 == up[q]);
        assert(wanted_keys(last.1, lo, hi, resume_in(last.0, cursor), forward).contains(up[q]));
        assert(shards[n].0 == r.0 && shards[n].1.contains(r.1));
    }
}

/// Epochs that a scan passes by contribute nothing.
proof fn lemma_unvisited<K: PageKey>(shards: Seq<(u32, Set<K>)>, lo: K, hi: K, cursor: Option<Seq<u8>>, forward: bool)
    requires
        forall|j: int| 0 <= j < shards.len() ==> !visited((#[trigger] shards[j]).0, cursor, forward),
    ensures
        all_rows(shards, lo, hi, cursor, forward) == Seq::<(u32, K)>::empty(),
    decreases shards.len(),
{
    if shards.len() > 0 {
        let head = shards.drop_last();
        assert forall|j: int| 0 <= j < head.len() implies !visited((#[trigger] head[j]).0, cursor, forward) by {
            assert(head[j] == shards[j]);
        }
        lemma_unvisited(head, lo, hi, cursor, forward);
        assert(!visited(shards[shards.len() - 1].0, cursor, forward));
    }
}

/// Epochs that two scans visit in full contribute the same to both.
proof fn lemma_visited_in_full<K: PageKey>(shards: Seq<(u32, Set<K>)>, lo: K, hi: K, a: Option<Seq<u8>>, b: Option<Seq<u8>>, forward: bool)
    requires
        forall|j: int|
            0 <= j < shards.len() ==> visited((#[trigger] shards[j]).0, a, forward) && visited(shards[j].0, b, forward) && resume_in(
                shards[j].0,
                a,
            ) is None && resume_in(shards[j].0, b) is None,
    ensures
        all_rows(shards, lo, hi, a, forward) == all_rows(shards, lo, hi, b, forward),
    decreases shards.len(),
{
    if shards.len() > 0 {
        let head = shards.drop_last();
        assert forall|j: int| 0 <= j < head.len() implies visited((#[trigger] head[j]).0, a, forward) && visited(head[j].0, b, forward)
            && resume_in(head[j].0, a) is None && resume_in(head[j].0, b) is None by {
            assert(head[j] == shards[j]);
        }
        lemma_visited_in_full(head, lo, hi, a, b, forward);
        assert(visited(shards[shards.len() - 1].0, a, forward));
    }
}

/// A scan that resumes at the cursor of one of its rows lists exactly what came after that row: paging
/// neither repeats a row nor skips one, in either direction.
pub proof fn law_pages_neither_repeat_nor_skip<K: PageKey>(
    shards: Seq<(u32, Set<K>)>,
    lo: K,
    hi: K,
    cursor: Option<Seq<u8>>,
    forward: bool,
    i: int,
)
    requires
        shards_ok(shards),
        0 <= i < all_rows(shards, lo, hi, cursor, forward).len(),
    ensures
        ({
            let all = all_rows(shards, lo, hi, cursor, forward);
            all_rows(shards, lo, hi, Some(cursor_at(all[i].0, all[i].1.bytes())), forward) == all.skip(i + 1)
        }),
    decreases shards.len(),
{
    let all = all_rows(shards, lo, hi, cursor, forward);
    let (num, k) = all[i];
    let c = cursor_at(num, k.bytes());
    let next = Some(c);
    law_cursor_round_trip(num, k.bytes());
    let n = shards.len() - 1;
    let (head, last) = (shards.drop_last(), shards.last());
    assert(last == shards[n]);
    let rest = all_rows(head, lo, hi, cursor, forward);
    let own = shard_rows(last.0, last.1, lo, hi, cursor, forward);
    let own_next = shard_rows(last.0, last.1, lo, hi, next, forward);
    let rest_next = all_rows(head, lo, hi, next, forward);
    let list = listing(last.1, lo, hi, resume_in(last.0, cursor), forward);
    assert forall|j: int| 0 <= j < head.len() implies (#[trigger] head[j]).0 < last.0 && head[j] == shards[j] by {
        assert(shards[j].0 < shards[n].0);
    }
    let in_own = if forward {
        i >= rest.len()
    } else {
        i < own.len()
    };
    if in_own {
        let p = if forward {
            i - rest.len()
        } else {
            i
        };
        assert(own[p] == (num, k));
        assert(num == last.0 && k == list[p]);
        lemma_listing_resumes(last.1, lo, hi, resume_in(last.0, cursor), forward, p);
        assert(own_next =~= own.skip(p + 1));
        if forward {
            lemma_unvisited(head, lo, hi, next, forward);
            assert(rest_next + own_next =~= all.skip(i + 1));
        } else {
            lemma_visited_in_full(head, lo, hi, cursor, next, forward);
            assert(own_next + rest_next =~= all.skip(i + 1));
        }
    } else {
        let p = if forward {
            i
        } else {
            i - own.len()
        };
        assert(rest[p] == (num, k));
        lemma_row_epoch(head, lo, hi, cursor, forward, p);
        let j = choose|j: int| 0 <= j < head.len() && (#[trigger] head[j]).0 == num;
        assert(head[j].0 < last.0);
        assert(shards_ok(head)) by {
            assert forall|x: int, y: int| 0 <= x < y < head.len() implies (#[trigger] head[x]).0 < (#[trigger] head[y]).0 by {
                assert(shards[x].0 < shards[y].0);
            }
            assert forall|x: int| 0 <= x < head.len() implies (#[trigger] head[x]).1.finite() by {
                assert(shards[x].1.finite());
            }
        }
        law_pages_neither_repeat_nor_skip(head, lo, hi, cursor, forward, p);
        if forward {
            assert(own_next == own);
            assert(rest_next + own_next =~= all.skip(i + 1));
        } else {
            assert(own_next + rest_next =~= all.skip(i + 1));
        }
    }
}

/// A scan of a list of epochs is the scan of its two parts, one after the other.
proof fn lemma_split<K: PageKey>(shards: Seq<(u32, Set<K>)>, lo: K, hi: K, cursor: Option<Seq<u8>>, forward: bool, i: int)
    requires
        0 <= i <= shards.len(),
    ensures
        ({
            let all = all_rows(shards, lo, hi, cursor, forward);
            let a = all_rows(shards.take(i), lo, hi, cursor, forward);
            let b = all_rows(shards.skip(i), lo, hi, cursor, forward);
            all == if forward {
                a + b
            } else {
                b + a
            }
        }),
    decreases shards.len(),
{
    let all = all_rows(shards, lo, hi, cursor, forward);
    let a = all_rows(shards.take(i), lo, hi, cursor, forward);
    let b = all_rows(shards.skip(i), lo, hi, cursor, forward);
    if i == shards.len() {
        assert(shards.take(i) =~= shards);
        assert(all =~= if forward {
            a + b
        } else {
            b + a
        });
    } else {
        let head = shards.drop_last();
        lemma_split(head, lo, hi, cursor, forward, i);
        assert(head.take(i) =~= shards.take(i));
        assert(shards.skip(i).drop_last() =~= head.skip(i));
        assert(shards.skip(i).last() == shards.last());
        assert(all =~= if forward {
            a + b
        } else {
            b + a
        });
    }
}

/// The first `i` epochs that a scan reaches.
spec fn reached<K>(shards: Seq<(u32, Set<K>)>, forward: bool, i: int) -> Seq<(u32, Set<K>)> {
    if forward {
        shards.take(i)
    } else {
        shards.skip(shards.len() - i)
    }
}

/// The next epoch that a scan reaches adds its rows.
proof fn lemma_step<K: PageKey>(shards: Seq<(u32, Set<K>)>, lo: K, hi: K, cursor: Option<Seq<u8>>, forward: bool, i: int)
    requires
        0 <= i < shards.len(),
    ensures
        ({
            let s = shards[if forward {
                i
            } else {
                shards.len() - 1 - i
            }];
            let all = all_rows(shards, lo, hi, cursor, forward);
            let upto = all_rows(reached(shards, forward, i), lo, hi, cursor, forward) + shard_rows(s.0, s.1, lo, hi, cursor, forward);
            &&& all_rows(reached(shards, forward, i + 1), lo, hi, cursor, forward) == upto
            &&& upto.len() <= all.len()
            &&& upto == all.take(upto.len() as int)
        }),
{
    let n = shards.len();
    let all = all_rows(shards, lo, hi, cursor, forward);
    if forward {
        let part = shards.take(i + 1);
        assert(part.drop_last() =~= shards.take(i));
        assert(part.last() == shards[i]);
        lemma_split(shards, lo, hi, cursor, forward, i + 1);
        let upto = all_rows(part, lo, hi, cursor, forward);
        assert(all.take(upto.len() as int) =~= upto);
    } else {
        let at = n - 1 - i;
        let s = shards[at];
        let part = shards.skip(at);
        lemma_split(part, lo, hi, cursor, forward, 1);
        assert(part.skip(1) =~= shards.skip(n - i));
        let one = part.take(1);
        assert(one.last() == s);
        assert(one.drop_last() =~= Seq::<(u32, Set<K>)>::empty());
        assert(all_rows(one.drop_last(), lo, hi, cursor, forward) =~= Seq::<(u32, K)>::empty());
        assert(all_rows(one, lo, hi, cursor, forward) =~= shard_rows(s.0, s.1, lo, hi, cursor, forward));
        lemma_split(shards, lo, hi, cursor, forward, at);
        let upto = all_rows(part, lo, hi, cursor, forward);
        assert(all.take(upto.len() as int) =~= upto);
    }
}

/// The epochs of a scan with the rows they hold of one index.
pub open spec fn shards_of<K: PageKey, V: View>(tables: Seq<(u32, &Table<K, V>)>) -> Seq<(u32, Set<K>)> {
    tables.map_values(|t: (u32, &Table<K, V>)| (t.0, t.1@.dom()))
}

/// The cursor of a page.
pub open spec fn cursor_view(cursor: Option<Vec<u8>>) -> Option<Seq<u8>> {
    match cursor {
        Some(c) => Some(c@),
        None => None,
    }
}

/// One page of raw rows over the epochs given, in ascending order of their numbers.
pub fn page_rows_epochs<K: PageKey, V: View>(
    tables: &Vec<(u32, &Table<K, V>)>,
    lo: &K,
    hi: &K,
    cursor: &Option<Vec<u8>>,
    forward: bool,
    limit: usize,
) -> (out: Vec<(u32, K)>)
    requires
        forall|i: int| 0 <= i < tables@.len() ==> (#[trigger] tables@[i]).1.wf(),
    ensures
        out@ == first_page(all_rows(shards_of(tables@), *lo, *hi, cursor_view(*cursor), forward), limit),
{
    let ghost shards = shards_of(tables@);
    let ghost c = cursor_view(*cursor);
    let ghost all = all_rows(shards, *lo, *hi, c, forward);
    let most: usize = if limit == 0 { 1 } else { limit };
    let mut out: Vec<(u32, K)> = Vec::new();
    let (cur_epoch, cur_key) = parse_cursor(cursor);
    let n: usize = tables.len();
    let mut i: usize = 0;
    assert(shards.take(0) =~= Seq::empty());
    assert(shards.skip(n as int) =~= Seq::empty());
    while i < n
        invariant
            n == tables@.len(),
            i <= n,
            shards == shards_of(tables@),
            forall|j: int| 0 <= j < tables@.len() ==> (#[trigger] tables@[j]).1.wf(),
            c == cursor_view(*cursor),
            all == all_rows(shards, *lo, *hi, c, forward),
            most == (if limit == 0 {
                1
            } else {
                limit
            }),
            cursor matches Some(x) ==> cur_epoch == cursor_epoch(x@) && (match cur_key {
                Some(k) => Some(k@),
                None => None,
            }) == cursor_key(x@),
            out@.len() < most,
            out@ == all_rows(reached(shards, forward, i as int), *lo, *hi, c, forward),
        decreases n - i,
    {
        let at: usize = if forward { i } else { n - 1 - i };
        let num: u32 = tables[at].0;
        let ghost own = shard_rows(num, shards[at as int].1, *lo, *hi, c, forward);
        proof {
            lemma_step(shards, *lo, *hi, c, forward, i as int);
        }
        let here: bool = match cursor {
            Some(_) => if forward {
                num >= cur_epoch
            } else {
                num <= cur_epoch
            },
            None => true,
        };
        assert(here == visited(num, c, forward));
        if here {
            let after: Option<&Vec<u8>> = if cursor.is_some() && num == cur_epoch {
                match &cur_key {
                    Some(k) => Some(k),
                    None => None,
                }
            } else {
                None
            };
            let ghost out0 = out@;
            let done: bool = scan_epoch_range(tables[at].1, lo, hi, num, after, forward, most, &mut out);
            if done {
                assert(out@ =~= all.take(most as int));
                assert(all.len() >= most);
                assert(all.len() == most ==> all.take(most as int) =~= all);
                return out;
            }
        }
        i += 1;
    }
    assert(shards.take(n as int) =~= shards);
    assert(shards.skip(0) =~= shards);
    out
}

/// One page after another: a page is the next stretch of the list, a page that is not filled is the last,
/// and the cursor after a page leads to the rest.
pub proof fn lemma_next_page<K: PageKey>(
    shards: Seq<(u32, Set<K>)>,
    lo: K,
    hi: K,
    cursor: Option<Seq<u8>>,
    all: Seq<(u32, K)>,
    done: int,
    limit: usize,
)
    requires
        shards_ok(shards),
        0 <= done <= all.len(),
        all_rows(shards, lo, hi, cursor, true) == all.skip(done),
        limit > 0,
    ensures
        ({
            let raw = first_page(all.skip(done), limit);
            let next = Some(cursor_at(raw.last().0, raw.last().1.bytes()));
            &&& done + raw.len() <= all.len()
            &&& all.take(done) + raw == all.take(done + raw.len())
            &&& raw.len() < limit ==> done + raw.len() == all.len()
            &&& raw.len() > 0 ==> all_rows(shards, lo, hi, next, true) == all.skip(done + raw.len())
        }),
{
    let rest = all.skip(done);
    let raw = first_page(rest, limit);
    assert(all.take(done) + raw =~= all.take(done + raw.len()));
    if raw.len() > 0 {
        assert(raw.last() == rest[raw.len() - 1]);
        law_pages_neither_repeat_nor_skip(shards, lo, hi, cursor, true, raw.len() - 1);
        assert(rest.skip(raw.len() as int) =~= all.skip(done + raw.len()));
    }
}

/// A scan finds exactly what it wants: a row is listed if and only if one of the epochs visited holds it
/// and its key is wanted.
pub proof fn law_scan_finds_what_it_wants<K: PageKey>(
    shards: Seq<(u32, Set<K>)>,
    lo: K,
    hi: K,
    cursor: Option<Seq<u8>>,
    forward: bool,
    j: int,
    k: K,
)
    requires
        shards_ok(shards),
        0 <= j < shards.len(),
    ensures
        all_rows(shards, lo, hi, cursor, forward).contains((shards[j].0, k)) <==> {
            &&& shards[j].1.contains(k)
            &&& visited(shards[j].0, cursor, forward)
            &&& wanted(k, lo, hi, resume_in(shards[j].0, cursor), forward)
        },
{
    let all = all_rows(shards, lo, hi, cursor, forward);
    let r = (shards[j].0, k);
    if all.contains(r) {
        let i = choose|i: int| 0 <= i < all.len() && all[i] == r;
        lemma_row_source(shards, lo, hi, cursor, forward, i);
        let x = choose|x: int| 0 <= x < shards.len() && (#[trigger] shards[x]).0 == r.0 && shards[x].1.contains(r.1);
        if x < j {
            assert(shards[x].0 < shards[j].0);
        } else if j < x {
            assert(shards[j].0 < shards[x].0);
        }
    }
    if shards[j].1.contains(k) && visited(r.0, cursor, forward) && wanted(k, lo, hi, resume_in(r.0, cursor), forward) {
        lemma_listed(shards, lo, hi, cursor, forward, j, k);
    }
}

proof fn lemma_listed<K: PageKey>(shards: Seq<(u32, Set<K>)>, lo: K, hi: K, cursor: Option<Seq<u8>>, forward: bool, j: int, k: K)
    requires
        shards_ok(shards),
        0 <= j < shards.len(),
        shards[j].1.contains(k),
        visited(shards[j].0, cursor, forward),
        wanted(k, lo, hi, resume_in(shards[j].0, cursor), forward),
    ensures
        all_rows(shards, lo, hi, cursor, forward).contains((shards[j].0, k)),
    decreases shards.len(),
{
    let all = all_rows(shards, lo, hi, cursor, forward);
    let r = (shards[j].0, k);
    let (head, last) = (shards.drop_last(), shards.last());
    let rest = all_rows(head, lo, hi, cursor, forward);
    let own = shard_rows(last.0, last.1, lo, hi, cursor, forward);
    if j < head.len() {
        assert(head[j] == shards[j]);
        assert(shards_ok(head)) by {
            assert forall|x: int, y: int| 0 <= x < y < head.len() implies (#[trigger] head[x]).0 < (#[trigger] head[y]).0 by {
                assert(shards[x].0 < shards[y].0);
            }
            assert forall|x: int| 0 <= x < head.len() implies (#[trigger] head[x]).1.finite() by {
                assert(shards[x].1.finite());
            }
        }
        lemma_listed(head, lo, hi, cursor, forward, j, k);
        let i = choose|i: int| 0 <= i < rest.len() && rest[i] == r;
        if forward {
            assert(all[i] == r);
        } else {
            assert(all[own.len() + i] == r);
        }
    } else {
        let want = wanted_keys(last.1, lo, hi, resume_in(last.0, cursor), forward);
        assert(last.1.finite()) by {
            assert(shards[j].1.finite());
        }
        lemma_wanted_scan(last.1, lo, hi, resume_in(last.0, cursor), forward);
        let up = scan(want, K::least(), K::greatest());
        K::between(k);
        assert(want.contains(k));
        assert(up.contains(k));
        let i = choose|i: int| 0 <= i < up.len() && up[i] == k;
        if forward {
            assert(own[i] == r);
            assert(all[rest.len() + i] == r);
        } else {
            assert(up.reverse()[up.len() - 1 - i] == k);
            assert(own[up.len() - 1 - i] == r);
            assert(all[up.len() - 1 - i] == r);
        }
    }
}

/// Forward rows come epoch by epoch and within an epoch in key order; backward rows the other way round.
pub proof fn law_rows_come_in_order<K: PageKey>(
    shards: Seq<(u32, Set<K>)>,
    lo: K,
    hi: K,
    cursor: Option<Seq<u8>>,
    forward: bool,
    i: int,
    j: int,
)
    requires
        shards_ok(shards),
        0 <= i < j < all_rows(shards, lo, hi, cursor, forward).len(),
    ensures
        ({
            let all = all_rows(shards, lo, hi, cursor, forward);
            let (x, y) = if forward {
                (all[i], all[j])
            } else {
                (all[j], all[i])
            };
            x.0 < y.0 || (x.0 == y.0 && x.1.rank() < y.1.rank())
        }),
    decreases shards.len(),
{
    let all = all_rows(shards, lo, hi, cursor, forward);
    let n = shards.len() - 1;
    let (head, last) = (shards.drop_last(), shards.last());
    assert(last == shards[n]);
    let rest = all_rows(head, lo, hi, cursor, forward);
    let own = shard_rows(last.0, last.1, lo, hi, cursor, forward);
    assert forall|x: int| 0 <= x < head.len() implies (#[trigger] head[x]).0 < last.0 by {
        assert(shards[x].0 < shards[n].0);
    }
    assert(shards_ok(head)) by {
        assert forall|x: int, y: int| 0 <= x < y < head.len() implies (#[trigger] head[x]).0 < (#[trigger] head[y]).0 by {
            assert(shards[x].0 < shards[y].0);
        }
        assert forall|x: int| 0 <= x < head.len() implies (#[trigger] head[x]).1.finite() by {
            assert(shards[x].1.finite());
        }
    }
    assert(last.1.finite());
    lemma_wanted_scan(last.1, lo, hi, resume_in(last.0, cursor), forward);
    let up = scan(wanted_keys(last.1, lo, hi, resume_in(last.0, cursor), forward), K::least(), K::greatest());
    if forward {
        if j < rest.len() {
            law_rows_come_in_order(head, lo, hi, cursor, forward, i, j);
        } else {
            assert(all[j] == own[j - rest.len()]);
            if i < rest.len() {
                assert(all[i] == rest[i]);
                lemma_row_epoch(head, lo, hi, cursor, forward, i);
            } else {
                assert(all[i] == own[i - rest.len()]);
                assert(up[i - rest.len()].rank() < up[j - rest.len()].rank());
            }
        }
    } else {
        if i >= own.len() {
            law_rows_come_in_order(head, lo, hi, cursor, forward, i - own.len(), j - own.len());
        } else {
            assert(all[i] == own[i]);
            if j >= own.len() {
                assert(all[j] == rest[j - own.len()]);
                lemma_row_epoch(head, lo, hi, cursor, forward, j - own.len());
            } else {
                assert(all[j] == own[j]);
                assert(up[up.len() - 1 - j].rank() < up[up.len() - 1 - i].rank());
            }
        }
    }
}

} // verus!
