//! Ordered tables: the in-memory form of one index, with lookups and range scans.

use vstd::prelude::*;

verus! {

/// Keys of an index. `rank` places a key in the order of the index.
pub trait IndexKey: Copy {
    spec fn rank(self) -> int;

    /// Keys are told apart by their rank.
    proof fn rank_injective(a: Self, b: Self)
        requires
            a.rank() == b.rank(),
        ensures
            a == b,
    ;

    /// Whether this key comes before the other.
    fn before(&self, other: &Self) -> (r: bool)
        ensures
            r == (self.rank() < other.rank()),
    ;
}

/// Number of 64-bit values.
pub open spec fn word() -> int {
    0x1_0000_0000_0000_0000
}

impl IndexKey for u64 {
    open spec fn rank(self) -> int {
        self as int
    }

    proof fn rank_injective(a: Self, b: Self) {
    }

    fn before(&self, other: &Self) -> (r: bool) {
        *self < *other
    }
}

impl IndexKey for u32 {
    open spec fn rank(self) -> int {
        self as int
    }

    proof fn rank_injective(a: Self, b: Self) {
    }

    fn before(&self, other: &Self) -> (r: bool) {
        *self < *other
    }
}

/// Two words, compared in order: a time and a locator, or a time and a connection.
#[derive(Debug, Clone, Copy, PartialEq, Eq, Structural)]
pub struct Key2 {
    pub a: u64,
    pub b: u64,
}

impl IndexKey for Key2 {
    open spec fn rank(self) -> int {
        self.a * word() + self.b
    }

    proof fn rank_injective(a: Self, b: Self) {
    }

    fn before(&self, other: &Self) -> (r: bool) {
        self.a < other.a || (self.a == other.a && self.b < other.b)
    }
}

/// Three words, compared in order: a connection or a request-key hash, a time, a locator.
#[derive(Debug, Clone, Copy, PartialEq, Eq, Structural)]
pub struct Key3 {
    pub a: u64,
    pub b: u64,
    pub c: u64,
}

impl IndexKey for Key3 {
    open spec fn rank(self) -> int {
        (self.a * word() + self.b) * word() + self.c
    }

    proof fn rank_injective(a: Self, b: Self) {
    }

    fn before(&self, other: &Self) -> (r: bool) {
        self.a < other.a || (self.a == other.a && (self.b < other.b || (self.b == other.b && self.c < other.c)))
    }
}

/// Key of a pending request: connection, incarnation, end of the request in the client stream.
#[derive(Debug, Clone, Copy, PartialEq, Eq, Structural)]
pub struct PendingKey {
    pub conn: u64,
    pub inc: u16,
    pub end: u64,
}

impl IndexKey for PendingKey {
    open spec fn rank(self) -> int {
        (self.conn * 0x1_0000 + self.inc) * word() + self.end
    }

    proof fn rank_injective(a: Self, b: Self) {
    }

    fn before(&self, other: &Self) -> (r: bool) {
        self.conn < other.conn || (self.conn == other.conn && (self.inc < other.inc || (self.inc == other.inc && self.end < other.end)))
    }
}

/// Keys in strictly ascending order.
pub open spec fn ascending<K: IndexKey>(ks: Seq<K>) -> bool {
    forall|i: int, j: int| 0 <= i < j < ks.len() ==> (#[trigger] ks[i]).rank() < (#[trigger] ks[j]).rank()
}

/// `ks` lists the keys from `lo` to `hi`, both included, in ascending order.
pub open spec fn is_scan<K: IndexKey>(ks: Seq<K>, keys: Set<K>, lo: K, hi: K) -> bool {
    &&& ascending(ks)
    &&& forall|i: int| 0 <= i < ks.len() ==> keys.contains(#[trigger] ks[i]) && lo.rank() <= ks[i].rank() <= hi.rank()
    &&& forall|k: K| #[trigger] keys.contains(k) && lo.rank() <= k.rank() <= hi.rank() ==> ks.contains(k)
}

/// The keys from `lo` to `hi` in ascending order.
pub open spec fn scan<K: IndexKey>(keys: Set<K>, lo: K, hi: K) -> Seq<K> {
    choose|ks: Seq<K>| is_scan(ks, keys, lo, hi)
}

proof fn lemma_ascending_unique<K: IndexKey>(a: Seq<K>, b: Seq<K>)
    requires
        ascending(a),
        ascending(b),
        forall|k: K| #![auto] a.contains(k) <==> b.contains(k),
    ensures
        a == b,
    decreases a.len(),
{
    if a.len() == 0 {
        if b.len() > 0 {
            assert(b.contains(b[0]));
        }
        assert(a =~= b);
    } else {
        assert(a.contains(a.last()));
        let j = choose|j: int| 0 <= j < b.len() && b[j] == a.last();
        assert(b.contains(b.last()));
        let i = choose|i: int| 0 <= i < a.len() && a[i] == b.last();
        assert(a.last().rank() <= b.last().rank());
        assert(b.last().rank() <= a.last().rank());
        K::rank_injective(a.last(), b.last());
        let (x, y) = (a.drop_last(), b.drop_last());
        assert forall|k: K| #![auto] x.contains(k) <==> y.contains(k) by {
            if x.contains(k) {
                let p = choose|p: int| 0 <= p < x.len() && x[p] == k;
                assert(a[p] == k);
                assert(a.contains(k));
                let q = choose|q: int| 0 <= q < b.len() && b[q] == k;
                assert(k.rank() < a.last().rank());
                assert(q < b.len() - 1);
                assert(y[q] == k);
            }
            if y.contains(k) {
                let p = choose|p: int| 0 <= p < y.len() && y[p] == k;
                assert(b[p] == k);
                assert(b.contains(k));
                let q = choose|q: int| 0 <= q < a.len() && a[q] == k;
                assert(k.rank() < b.last().rank());
                assert(q < a.len() - 1);
                assert(x[q] == k);
            }
        }
        lemma_ascending_unique(x, y);
        assert(a =~= x.push(a.last()));
        assert(b =~= y.push(b.last()));
    }
}

/// There is one scan of a range, whoever lists it.
pub proof fn lemma_scan_unique<K: IndexKey>(ks: Seq<K>, keys: Set<K>, lo: K, hi: K)
    requires
        is_scan(ks, keys, lo, hi),
    ensures
        ks == scan(keys, lo, hi),
{
    let other = scan(keys, lo, hi);
    assert(is_scan(other, keys, lo, hi));
    assert forall|k: K| #![auto] ks.contains(k) <==> other.contains(k) by {
        if ks.contains(k) {
            let i = choose|i: int| 0 <= i < ks.len() && ks[i] == k;
            assert(keys.contains(ks[i]));
        }
        if other.contains(k) {
            let i = choose|i: int| 0 <= i < other.len() && other[i] == k;
            assert(keys.contains(other[i]));
        }
    }
    lemma_ascending_unique(ks, other);
}

/// A key placed in ascending keys.
spec fn placed<K: IndexKey>(ks: Seq<K>, k: K) -> Seq<K>
    decreases ks.len(),
{
    if ks.len() == 0 {
        seq![k]
    } else if ks.last().rank() < k.rank() {
        ks.push(k)
    } else if ks.last().rank() == k.rank() {
        ks
    } else {
        placed(ks.drop_last(), k).push(ks.last())
    }
}

proof fn lemma_placed<K: IndexKey>(ks: Seq<K>, k: K)
    requires
        ascending(ks),
    ensures
        ascending(placed(ks, k)),
        forall|x: K| #[trigger] placed(ks, k).contains(x) <==> ks.contains(x) || x == k,
        forall|i: int| 0 <= i < placed(ks, k).len() ==> (#[trigger] placed(ks, k)[i]).rank() <= if ks.len() > 0 && ks.last().rank() > k.rank() {
            ks.last().rank()
        } else {
            k.rank()
        },
    decreases ks.len(),
{
    if ks.len() == 0 {
        assert(placed(ks, k)[0] == k);
    } else if ks.last().rank() < k.rank() {
        assert forall|x: K| #[trigger] placed(ks, k).contains(x) <==> ks.contains(x) || x == k by {
            if ks.contains(x) {
                let i = choose|i: int| 0 <= i < ks.len() && ks[i] == x;
                assert(placed(ks, k)[i] == x);
            }
            assert(placed(ks, k)[ks.len() as int] == k);
        }
    } else if ks.last().rank() == k.rank() {
        K::rank_injective(ks.last(), k);
        assert(ks[ks.len() - 1] == k);
    } else {
        let rest = ks.drop_last();
        lemma_placed(rest, k);
        let p = placed(rest, k);
        let all = p.push(ks.last());
        assert forall|i: int| 0 <= i < p.len() implies (#[trigger] p[i]).rank() < ks.last().rank() by {
            if rest.len() > 0 {
                assert(rest.last() == ks[ks.len() - 2]);
            }
        }
        assert forall|x: K| #[trigger] all.contains(x) <==> ks.contains(x) || x == k by {
            if ks.contains(x) {
                let i = choose|i: int| 0 <= i < ks.len() && ks[i] == x;
                if i == ks.len() - 1 {
                    assert(all[p.len() as int] == x);
                } else {
                    assert(rest[i] == x);
                    assert(rest.contains(x));
                    assert(p.contains(x));
                    let j = choose|j: int| 0 <= j < p.len() && p[j] == x;
                    assert(all[j] == x);
                }
            }
            if x == k {
                assert(p.contains(k));
                let j = choose|j: int| 0 <= j < p.len() && p[j] == k;
                assert(all[j] == k);
            }
            if all.contains(x) {
                let j = choose|j: int| 0 <= j < all.len() && all[j] == x;
                if j < p.len() {
                    assert(p.contains(p[j]));
                    if rest.contains(x) {
                        let i = choose|i: int| 0 <= i < rest.len() && rest[i] == x;
                        assert(ks[i] == x);
                    }
                } else {
                    assert(ks[ks.len() - 1] == x);
                }
            }
        }
    }
}

proof fn lemma_scan_found<K: IndexKey>(keys: Set<K>, lo: K, hi: K) -> (ks: Seq<K>)
    requires
        keys.finite(),
    ensures
        is_scan(ks, keys, lo, hi),
    decreases keys.len(),
{
    if keys.len() == 0 {
        assert(keys =~= Set::<K>::empty());
        Seq::empty()
    } else {
        let k = keys.choose();
        let rest = lemma_scan_found(keys.remove(k), lo, hi);
        if lo.rank() <= k.rank() <= hi.rank() {
            lemma_placed(rest, k);
            let ks = placed(rest, k);
            assert forall|i: int| 0 <= i < ks.len() implies keys.contains(#[trigger] ks[i]) && lo.rank() <= ks[i].rank() <= hi.rank() by {
                assert(ks.contains(ks[i]));
                if ks[i] != k {
                    assert(rest.contains(ks[i]));
                    let j = choose|j: int| 0 <= j < rest.len() && rest[j] == ks[i];
                    assert(keys.remove(k).contains(rest[j]));
                }
            }
            assert forall|x: K| #[trigger] keys.contains(x) && lo.rank() <= x.rank() <= hi.rank() implies ks.contains(x) by {
                if x != k {
                    assert(keys.remove(k).contains(x));
                }
            }
            ks
        } else {
            assert forall|x: K| #[trigger] keys.contains(x) && lo.rank() <= x.rank() <= hi.rank() implies rest.contains(x) by {
                assert(keys.remove(k).contains(x));
            }
            assert forall|i: int| 0 <= i < rest.len() implies keys.contains(#[trigger] rest[i]) by {
                assert(keys.remove(k).contains(rest[i]));
            }
            rest
        }
    }
}

/// Every range of a finite index can be scanned.
pub proof fn lemma_scan_exists<K: IndexKey>(keys: Set<K>, lo: K, hi: K)
    requires
        keys.finite(),
    ensures
        is_scan(scan(keys, lo, hi), keys, lo, hi),
{
    let ks = lemma_scan_found(keys, lo, hi);
    lemma_scan_unique(ks, keys, lo, hi);
}

/// Rows in strictly ascending key order.
pub open spec fn sorted_rows<K: IndexKey, V: View>(rows: Seq<(K, V)>) -> bool {
    forall|i: int, j: int| 0 <= i < j < rows.len() ==> (#[trigger] rows[i]).0.rank() < (#[trigger] rows[j]).0.rank()
}

/// Where a key stands in the rows.
pub open spec fn row_of<K: IndexKey, V: View>(rows: Seq<(K, V)>, k: K) -> int {
    choose|i: int| 0 <= i < rows.len() && (#[trigger] rows[i]).0 == k
}

/// The contents of sorted rows.
pub open spec fn rows_map<K: IndexKey, V: View>(rows: Seq<(K, V)>) -> Map<K, V::V> {
    Map::new(|k: K| exists|i: int| 0 <= i < rows.len() && (#[trigger] rows[i]).0 == k, |k: K| rows[row_of(rows, k)].1@)
}

proof fn lemma_row<K: IndexKey, V: View>(rows: Seq<(K, V)>, i: int)
    requires
        sorted_rows(rows),
        0 <= i < rows.len(),
    ensures
        rows_map(rows).contains_key(rows[i].0),
        rows_map(rows)[rows[i].0] == rows[i].1@,
        row_of(rows, rows[i].0) == i,
{
    let j = row_of(rows, rows[i].0);
    assert(0 <= j < rows.len() && rows[j].0 == rows[i].0);
    if i < j {
        assert(rows[i].0.rank() < rows[j].0.rank());
    } else if j < i {
        assert(rows[j].0.rank() < rows[i].0.rank());
    }
}

proof fn lemma_insert_row<K: IndexKey, V: View>(rows: Seq<(K, V)>, p: int, k: K, v: V)
    requires
        sorted_rows(rows),
        0 <= p <= rows.len(),
        forall|i: int| 0 <= i < p ==> (#[trigger] rows[i]).0.rank() < k.rank(),
        forall|i: int| p <= i < rows.len() ==> (#[trigger] rows[i]).0.rank() > k.rank(),
    ensures
        sorted_rows(rows.insert(p, (k, v))),
        rows_map(rows.insert(p, (k, v))) == rows_map(rows).insert(k, v@),
        !rows_map(rows).contains_key(k),
{
    let next = rows.insert(p, (k, v));
    let (m, n) = (rows_map(rows), rows_map(next));
    assert(sorted_rows(next));
    assert forall|x: K| n.contains_key(x) == m.insert(k, v@).contains_key(x) by {
        if m.contains_key(x) {
            let i = row_of(rows, x);
            assert(next[if i < p { i } else { i + 1 }].0 == x);
        }
        if n.contains_key(x) {
            let i = row_of(next, x);
            if i != p {
                assert(rows[if i < p { i } else { i - 1 }].0 == x);
            }
        }
        assert(next[p].0 == k);
    }
    assert forall|x: K| n.contains_key(x) implies n[x] == m.insert(k, v@)[x] by {
        let i = row_of(next, x);
        lemma_row(next, i);
        lemma_row(next, p);
        if i != p {
            lemma_row(rows, if i < p { i } else { i - 1 });
        }
    }
    assert(n =~= m.insert(k, v@));
}

proof fn lemma_replace_row<K: IndexKey, V: View>(rows: Seq<(K, V)>, p: int, v: V)
    requires
        sorted_rows(rows),
        0 <= p < rows.len(),
    ensures
        sorted_rows(rows.update(p, (rows[p].0, v))),
        rows_map(rows.update(p, (rows[p].0, v))) == rows_map(rows).insert(rows[p].0, v@),
{
    let k = rows[p].0;
    let next = rows.update(p, (k, v));
    let (m, n) = (rows_map(rows), rows_map(next));
    assert(forall|i: int| 0 <= i < rows.len() ==> (#[trigger] next[i]).0 == rows[i].0);
    assert(sorted_rows(next));
    assert forall|x: K| n.contains_key(x) == m.insert(k, v@).contains_key(x) by {
        if m.contains_key(x) {
            assert(next[row_of(rows, x)].0 == x);
        }
        if n.contains_key(x) {
            assert(rows[row_of(next, x)].0 == x);
        }
        assert(next[p].0 == k);
    }
    assert forall|x: K| n.contains_key(x) implies n[x] == m.insert(k, v@)[x] by {
        let i = row_of(next, x);
        lemma_row(next, i);
        lemma_row(rows, i);
        lemma_row(next, p);
    }
    assert(n =~= m.insert(k, v@));
}

proof fn lemma_remove_row<K: IndexKey, V: View>(rows: Seq<(K, V)>, p: int)
    requires
        sorted_rows(rows),
        0 <= p < rows.len(),
    ensures
        sorted_rows(rows.remove(p)),
        rows_map(rows.remove(p)) == rows_map(rows).remove(rows[p].0),
{
    let k = rows[p].0;
    let next = rows.remove(p);
    let (m, n) = (rows_map(rows), rows_map(next));
    assert(sorted_rows(next));
    assert forall|x: K| n.contains_key(x) == m.remove(k).contains_key(x) by {
        if m.contains_key(x) && x != k {
            let i = row_of(rows, x);
            assert(next[if i < p { i } else { i - 1 }].0 == x);
        }
        if n.contains_key(x) {
            let i = row_of(next, x);
            let j = if i < p { i } else { i + 1 };
            assert(rows[j].0 == x);
            assert(rows[j].0.rank() != rows[p].0.rank());
        }
    }
    assert forall|x: K| n.contains_key(x) implies n[x] == m.remove(k)[x] by {
        let i = row_of(next, x);
        lemma_row(next, i);
        lemma_row(rows, if i < p { i } else { i + 1 });
    }
    assert(n =~= m.remove(k));
}

/// An index: rows kept in key order.
pub struct Table<K: IndexKey, V: View> {
    rows: Vec<(K, V)>,
}

impl<K: IndexKey, V: View> View for Table<K, V> {
    type V = Map<K, V::V>;

    closed spec fn view(&self) -> Map<K, V::V> {
        rows_map(self.rows@)
    }
}

impl<K: IndexKey, V: View> Table<K, V> {
    /// The rows are in order.
    pub closed spec fn wf(&self) -> bool {
        sorted_rows(self.rows@)
    }

    /// An empty index.
    pub fn new() -> (t: Table<K, V>)
        ensures
            t.wf(),
            t@ == Map::<K, V::V>::empty(),
    {
        let t = Table { rows: Vec::new() };
        assert(t@ =~= Map::<K, V::V>::empty());
        t
    }

    /// There are finitely many rows.
    pub proof fn lemma_finite(&self)
        requires
            self.wf(),
        ensures
            self@.dom().finite(),
    {
        lemma_rows_len(self.rows@);
    }

    /// Number of rows.
    pub fn len(&self) -> (n: usize)
        requires
            self.wf(),
        ensures
            n == self@.dom().len(),
            self@.dom().finite(),
    {
        proof {
            lemma_rows_len(self.rows@);
        }
        self.rows.len()
    }

    /// The rows in key order.
    pub fn entries(&self) -> (r: &Vec<(K, V)>)
        requires
            self.wf(),
        ensures
            sorted_rows(r@),
            rows_map(r@) == self@,
    {
        &self.rows
    }

    /// First position whose key is not before `k`.
    fn position(&self, k: &K) -> (p: usize)
        requires
            self.wf(),
        ensures
            p <= self.rows@.len(),
            forall|i: int| 0 <= i < p ==> (#[trigger] self.rows@[i]).0.rank() < k.rank(),
            forall|i: int| p <= i < self.rows@.len() ==> (#[trigger] self.rows@[i]).0.rank() >= k.rank(),
    {
        let mut lo: usize = 0;
        let mut hi: usize = self.rows.len();
        while lo < hi
            invariant
                self.wf(),
                lo <= hi <= self.rows@.len(),
                forall|i: int| 0 <= i < lo ==> (#[trigger] self.rows@[i]).0.rank() < k.rank(),
                forall|i: int| hi <= i < self.rows@.len() ==> (#[trigger] self.rows@[i]).0.rank() >= k.rank(),
            decreases hi - lo,
        {
            let mid: usize = lo + (hi - lo) / 2;
            if self.rows[mid].0.before(k) {
                lo = mid + 1;
            } else {
                hi = mid;
            }
        }
        lo
    }

    /// Whether the row at a position has a given key.
    fn is_at(&self, p: usize, k: &K) -> (r: bool)
        requires
            self.wf(),
            p <= self.rows@.len(),
            forall|i: int| 0 <= i < p ==> (#[trigger] self.rows@[i]).0.rank() < k.rank(),
            forall|i: int| p <= i < self.rows@.len() ==> (#[trigger] self.rows@[i]).0.rank() >= k.rank(),
        ensures
            r == self@.contains_key(*k),
            r ==> p < self.rows@.len() && self.rows@[p as int].0 == *k && self@[*k] == self.rows@[p as int].1@,
            !r ==> forall|i: int| p <= i < self.rows@.len() ==> (#[trigger] self.rows@[i]).0.rank() > k.rank(),
    {
        if p < self.rows.len() && !k.before(&self.rows[p].0) {
            proof {
                K::rank_injective(self.rows@[p as int].0, *k);
                lemma_row(self.rows@, p as int);
            }
            true
        } else {
            proof {
                if self@.contains_key(*k) {
                    let i = row_of(self.rows@, *k);
                    assert(self.rows@[i].0 == *k);
                    if p < self.rows@.len() && i > p {
                        assert(self.rows@[p as int].0.rank() < self.rows@[i].0.rank());
                    }
                }
                assert forall|i: int| p <= i < self.rows@.len() implies (#[trigger] self.rows@[i]).0.rank() > k.rank() by {
                    if i > p {
                        assert(self.rows@[p as int].0.rank() < self.rows@[i].0.rank());
                    }
                }
            }
            false
        }
    }

    /// The value under a key.
    pub fn get(&self, k: &K) -> (r: Option<&V>)
        requires
            self.wf(),
        ensures
            r is Some <==> self@.contains_key(*k),
            r matches Some(v) ==> v@ == self@[*k],
    {
        let p: usize = self.position(k);
        if self.is_at(p, k) {
            Some(&self.rows[p].1)
        } else {
            None
        }
    }

    /// Whether a key is present.
    pub fn contains(&self, k: &K) -> (r: bool)
        requires
            self.wf(),
        ensures
            r == self@.contains_key(*k),
    {
        let p: usize = self.position(k);
        self.is_at(p, k)
    }

    /// Writes a row, replacing what was there.
    pub fn put(&mut self, k: K, v: V)
        requires
            old(self).wf(),
        ensures
            final(self).wf(),
            final(self)@ == old(self)@.insert(k, v@),
    {
        let p: usize = self.position(&k);
        if self.is_at(p, &k) {
            proof {
                lemma_replace_row(self.rows@, p as int, v);
            }
            self.rows[p] = (k, v);
        } else {
            proof {
                lemma_insert_row(self.rows@, p as int, k, v);
            }
            self.rows.insert(p, (k, v));
        }
    }

    /// Writes a row only where the key is free; says whether it did.
    pub fn put_new(&mut self, k: K, v: V) -> (r: bool)
        requires
            old(self).wf(),
        ensures
            final(self).wf(),
            r == !old(self)@.contains_key(k),
            final(self)@ == put_new(old(self)@, k, v@),
    {
        let p: usize = self.position(&k);
        if self.is_at(p, &k) {
            false
        } else {
            proof {
                lemma_insert_row(self.rows@, p as int, k, v);
            }
            self.rows.insert(p, (k, v));
            true
        }
    }

    /// Removes a row, and hands it back if there was one.
    pub fn delete(&mut self, k: &K) -> (r: Option<V>)
        requires
            old(self).wf(),
        ensures
            final(self).wf(),
            final(self)@ == old(self)@.remove(*k),
            r is Some <==> old(self)@.contains_key(*k),
            r matches Some(v) ==> v@ == old(self)@[*k],
    {
        let p: usize = self.position(k);
        if self.is_at(p, k) {
            proof {
                lemma_remove_row(self.rows@, p as int);
            }
            let row = self.rows.remove(p);
            Some(row.1)
        } else {
            assert(self@.remove(*k) =~= self@);
            None
        }
    }

    /// The keys from `lo` to `hi`, both included, in ascending order.
    pub fn range(&self, lo: &K, hi: &K) -> (ks: Vec<K>)
        requires
            self.wf(),
        ensures
            is_scan(ks@, self@.dom(), *lo, *hi),
            ks@ == scan(self@.dom(), *lo, *hi),
    {
        let mut ks: Vec<K> = Vec::new();
        let start: usize = self.position(lo);
        let mut p: usize = start;
        while p < self.rows.len() && !hi.before(&self.rows[p].0)
            invariant
                self.wf(),
                start <= p <= self.rows@.len(),
                forall|i: int| 0 <= i < start ==> (#[trigger] self.rows@[i]).0.rank() < lo.rank(),
                forall|i: int| start <= i < self.rows@.len() ==> (#[trigger] self.rows@[i]).0.rank() >= lo.rank(),
                ks@.len() == p - start,
                forall|i: int| 0 <= i < ks@.len() ==> #[trigger] ks@[i] == self.rows@[start + i].0,
                forall|i: int| start <= i < p ==> (#[trigger] self.rows@[i]).0.rank() <= hi.rank(),
            decreases self.rows@.len() - p,
        {
            ks.push(self.rows[p].0);
            p += 1;
        }
        proof {
            assert forall|i: int, j: int| 0 <= i < j < ks@.len() implies (#[trigger] ks@[i]).rank() < (#[trigger] ks@[j]).rank() by {
                assert(self.rows@[start + i].0.rank() < self.rows@[start + j].0.rank());
            }
            assert forall|i: int| 0 <= i < ks@.len() implies self@.dom().contains(#[trigger] ks@[i]) && lo.rank() <= ks@[i].rank()
                <= hi.rank() by {
                lemma_row(self.rows@, start + i);
            }
            assert forall|k: K| #[trigger] self@.dom().contains(k) && lo.rank() <= k.rank() <= hi.rank() implies ks@.contains(k) by {
                let i = row_of(self.rows@, k);
                assert(self.rows@[i].0 == k);
                if i >= p {
                    if i > p {
                        assert(self.rows@[p as int].0.rank() < self.rows@[i].0.rank());
                    }
                } else {
                    assert(ks@[i - start] == k);
                }
            }
            lemma_scan_unique(ks@, self@.dom(), *lo, *hi);
        }
        ks
    }
}

/// A map with a row added where its key was free.
pub open spec fn put_new<K, W>(m: Map<K, W>, k: K, w: W) -> Map<K, W> {
    if m.contains_key(k) {
        m
    } else {
        m.insert(k, w)
    }
}

proof fn lemma_rows_len<K: IndexKey, V: View>(rows: Seq<(K, V)>)
    requires
        sorted_rows(rows),
    ensures
        rows_map(rows).dom().finite(),
        rows_map(rows).dom().len() == rows.len(),
    decreases rows.len(),
{
    if rows.len() == 0 {
        assert(rows_map(rows).dom() =~= Set::<K>::empty());
    } else {
        let last = rows.len() - 1;
        lemma_remove_row(rows, last);
        let rest = rows.remove(last);
        lemma_rows_len(rest);
        lemma_row(rows, last);
        let d = rows_map(rows).dom();
        assert(rows_map(rest).dom() =~= d.remove(rows[last].0));
        assert(d =~= rows_map(rest).dom().insert(rows[last].0));
    }
}

} // verus!
