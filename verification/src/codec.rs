//! Big-endian integers as byte sequences, and the byte order of index keys.

use vstd::prelude::*;

verus! {

/// `256^n`.
pub open spec fn pow256(n: nat) -> nat
    decreases n,
{
    if n == 0 {
        1
    } else {
        256 * pow256((n - 1) as nat)
    }
}

/// The `n` low-order bytes of `x`, most significant first.
pub open spec fn be(x: nat, n: nat) -> Seq<u8>
    decreases n,
{
    if n == 0 {
        Seq::empty()
    } else {
        be(x / 256, (n - 1) as nat).push((x % 256) as u8)
    }
}

/// The number whose big-endian bytes are `s`.
pub open spec fn from_be(s: Seq<u8>) -> nat
    decreases s.len(),
{
    if s.len() == 0 {
        0
    } else {
        from_be(s.drop_last()) * 256 + s.last() as nat
    }
}

pub proof fn lemma_be_len(x: nat, n: nat)
    ensures
        be(x, n).len() == n,
    decreases n,
{
    if n > 0 {
        lemma_be_len(x / 256, (n - 1) as nat);
    }
}

/// Reading back `n` big-endian bytes gives the number that was written, when it fits.
pub proof fn lemma_be_round_trip(x: nat, n: nat)
    requires
        x < pow256(n),
    ensures
        from_be(be(x, n)) == x,
    decreases n,
{
    lemma_be_len(x, n);
    if n > 0 {
        let m = (n - 1) as nat;
        assert(x / 256 < pow256(m)) by {
            assert(x < 256 * pow256(m));
        }
        lemma_be_round_trip(x / 256, m);
        assert(be(x, n).drop_last() =~= be(x / 256, m));
        assert(be(x, n).last() == (x % 256) as u8);
    }
}

/// Every byte sequence is the big-endian form of the number that it spells.
pub proof fn lemma_from_be_round_trip(s: Seq<u8>)
    ensures
        from_be(s) < pow256(s.len()),
        be(from_be(s), s.len()) == s,
    decreases s.len(),
{
    if s.len() > 0 {
        lemma_from_be_round_trip(s.drop_last());
        let h = from_be(s.drop_last());
        assert((h * 256 + s.last() as nat) / 256 == h);
        assert((h * 256 + s.last() as nat) % 256 == s.last());
        assert(be(from_be(s), s.len()) =~= s);
    } else {
        assert(be(from_be(s), s.len()) =~= s);
    }
}

pub proof fn lemma_pow256_values()
    ensures
        pow256(1) == 0x100,
        pow256(2) == 0x1_0000,
        pow256(4) == 0x1_0000_0000,
        pow256(6) == 0x1_0000_0000_0000,
        pow256(8) == 0x1_0000_0000_0000_0000,
{
    reveal_with_fuel(pow256, 9);
}

/// Byte order of keys: the first difference decides, and a proper prefix comes first.
pub open spec fn lex_less(a: Seq<u8>, b: Seq<u8>) -> bool
    decreases a.len(),
{
    if b.len() == 0 {
        false
    } else if a.len() == 0 {
        true
    } else if a[0] != b[0] {
        a[0] < b[0]
    } else {
        lex_less(a.skip(1), b.skip(1))
    }
}

/// The number spelled by a concatenation.
pub proof fn lemma_from_be_concat(a: Seq<u8>, b: Seq<u8>)
    ensures
        from_be(a + b) == from_be(a) * pow256(b.len()) + from_be(b),
    decreases b.len(),
{
    if b.len() == 0 {
        assert(a + b =~= a);
        assert(from_be(a) * pow256(0) == from_be(a)) by {
            assert(pow256(0) == 1);
        }
    } else {
        let m = b.drop_last();
        lemma_from_be_concat(a, m);
        assert((a + b).drop_last() =~= a + m);
        assert((a + b).last() == b.last());
        assert(pow256(b.len()) == 256 * pow256(m.len()));
        assert((from_be(a) * pow256(m.len()) + from_be(m)) * 256 == from_be(a) * (256 * pow256(m.len())) + from_be(m) * 256)
            by (nonlinear_arith);
    }
}

/// Keys of equal length are ordered as the numbers that they spell.
pub proof fn law_key_order_is_numeric(a: Seq<u8>, b: Seq<u8>)
    requires
        a.len() == b.len(),
    ensures
        lex_less(a, b) <==> from_be(a) < from_be(b),
    decreases a.len(),
{
    if a.len() > 0 {
        let (x, y) = (a.skip(1), b.skip(1));
        let n = x.len();
        law_key_order_is_numeric(x, y);
        assert(a =~= seq![a[0]] + x);
        assert(b =~= seq![b[0]] + y);
        lemma_from_be_concat(seq![a[0]], x);
        lemma_from_be_concat(seq![b[0]], y);
        lemma_from_be_round_trip(x);
        lemma_from_be_round_trip(y);
        assert(seq![a[0]].drop_last() =~= Seq::<u8>::empty());
        assert(seq![b[0]].drop_last() =~= Seq::<u8>::empty());
        assert(from_be(seq![a[0]]) == a[0]) by {
            reveal_with_fuel(from_be, 2);
        }
        assert(from_be(seq![b[0]]) == b[0]) by {
            reveal_with_fuel(from_be, 2);
        }
        let (p, q) = (a[0] as nat, b[0] as nat);
        let w = pow256(n);
        if p < q {
            assert(p * w + w <= q * w) by (nonlinear_arith)
                requires
                    p + 1 <= q,
            ;
        } else if q < p {
            assert(q * w + w <= p * w) by (nonlinear_arith)
                requires
                    q + 1 <= p,
            ;
        }
    }
}

/// Appends the `n` big-endian bytes of `x`.
pub fn push_be(v: &mut Vec<u8>, x: u64, n: usize)
    ensures
        final(v)@ == old(v)@ + be(x as nat, n as nat),
    decreases n,
{
    if n > 0 {
        push_be(v, x / 256, n - 1);
        v.push((x % 256) as u8);
        assert(v@ =~= old(v)@ + be(x as nat, n as nat));
    } else {
        assert(v@ =~= old(v)@ + be(x as nat, n as nat));
    }
}

/// Reads the big-endian number in `b[lo..hi]`.
pub fn read_be(b: &[u8], lo: usize, hi: usize) -> (x: u64)
    requires
        lo <= hi <= b@.len(),
        hi - lo <= 8,
    ensures
        x as nat == from_be(b@.subrange(lo as int, hi as int)),
    decreases hi - lo,
{
    let ghost s = b@.subrange(lo as int, hi as int);
    if lo == hi {
        0
    } else {
        let h: u64 = read_be(b, lo, hi - 1);
        proof {
            assert(s.drop_last() =~= b@.subrange(lo as int, hi - 1));
            lemma_from_be_round_trip(s.drop_last());
            lemma_pow256_mono((hi - lo - 1) as nat, 7);
            reveal_with_fuel(pow256, 9);
        }
        h * 256 + b[hi - 1] as u64
    }
}

pub proof fn lemma_pow256_mono(a: nat, b: nat)
    requires
        a <= b,
    ensures
        pow256(a) <= pow256(b),
        pow256(a) > 0,
    decreases b,
{
    if a < b {
        lemma_pow256_mono(a, (b - 1) as nat);
    } else if a > 0 {
        lemma_pow256_mono((a - 1) as nat, (a - 1) as nat);
    }
}

/// The concatenated 8-byte forms of a list of words.
pub open spec fn be_words(ws: Seq<u64>) -> Seq<u8>
    decreases ws.len(),
{
    if ws.len() == 0 {
        Seq::empty()
    } else {
        be_words(ws.drop_last()) + be(ws.last() as nat, 8)
    }
}

pub proof fn lemma_be_words_len(ws: Seq<u64>)
    ensures
        be_words(ws).len() == 8 * ws.len(),
    decreases ws.len(),
{
    if ws.len() > 0 {
        lemma_be_words_len(ws.drop_last());
        lemma_be_len(ws.last() as nat, 8);
    }
}

/// A big-endian field determines its value.
pub proof fn lemma_be_injective(x: nat, y: nat, n: nat)
    requires
        x < pow256(n),
        y < pow256(n),
        be(x, n) == be(y, n),
    ensures
        x == y,
{
    lemma_be_round_trip(x, n);
    lemma_be_round_trip(y, n);
}

/// Concatenated words determine the list, given its length.
pub proof fn lemma_be_words_injective(a: Seq<u64>, b: Seq<u64>)
    requires
        a.len() == b.len(),
        be_words(a) == be_words(b),
    ensures
        a == b,
    decreases a.len(),
{
    if a.len() > 0 {
        let (pa, pb) = (be_words(a.drop_last()), be_words(b.drop_last()));
        let (la, lb) = (be(a.last() as nat, 8), be(b.last() as nat, 8));
        lemma_be_words_len(a.drop_last());
        lemma_be_words_len(b.drop_last());
        lemma_be_len(a.last() as nat, 8);
        lemma_be_len(b.last() as nat, 8);
        assert(pa =~= (pa + la).take(pa.len() as int));
        assert(pb =~= (pb + lb).take(pa.len() as int));
        assert(la =~= (pa + la).skip(pa.len() as int));
        assert(lb =~= (pb + lb).skip(pa.len() as int));
        lemma_be_words_injective(a.drop_last(), b.drop_last());
        lemma_pow256_values();
        lemma_be_injective(a.last() as nat, b.last() as nat, 8);
        assert(a =~= a.drop_last().push(a.last()));
        assert(b =~= b.drop_last().push(b.last()));
    }
    assert(a =~= b);
}

/// Appends a list of words.
pub fn push_words(v: &mut Vec<u8>, ws: &Vec<u64>)
    ensures
        final(v)@ == old(v)@ + be_words(ws@),
{
    let ghost v0 = v@;
    let mut i: usize = 0;
    assert(ws@.take(0) =~= Seq::<u64>::empty());
    assert(v@ =~= v0 + be_words(ws@.take(0)));
    while i < ws.len()
        invariant
            i <= ws@.len(),
            v@ == v0 + be_words(ws@.take(i as int)),
        decreases ws@.len() - i,
    {
        push_be(v, ws[i], 8);
        assert(ws@.take(i + 1).drop_last() =~= ws@.take(i as int));
        assert(v@ =~= v0 + be_words(ws@.take(i + 1)));
        i += 1;
    }
    assert(ws@.take(i as int) =~= ws@);
}

/// Reads `n` words from `b[lo..]`.
pub fn read_words(b: &[u8], lo: usize, n: usize) -> (ws: Vec<u64>)
    requires
        lo + 8 * n <= b@.len(),
    ensures
        ws@.len() == n,
        be_words(ws@) == b@.subrange(lo as int, lo + 8 * n),
{
    let total: usize = b.len();
    let mut ws: Vec<u64> = Vec::new();
    let mut i: usize = 0;
    assert(b@.subrange(lo as int, lo as int) =~= Seq::<u8>::empty());
    while i < n
        invariant
            i <= n,
            lo + 8 * n <= b@.len(),
            b@.len() == total,
            ws@.len() == i,
            be_words(ws@) == b@.subrange(lo as int, lo + 8 * i),
        decreases n - i,
    {
        let at: usize = lo + 8 * i;
        let x: u64 = read_be(b, at, at + 8);
        let ghost prev = ws@;
        ws.push(x);
        proof {
            let word = b@.subrange(at as int, at + 8);
            lemma_from_be_round_trip(word);
            lemma_be_len(x as nat, 8);
            assert(be(x as nat, 8) =~= word);
            assert(ws@.drop_last() =~= prev);
            assert(b@.subrange(lo as int, lo + 8 * (i + 1)) =~= b@.subrange(lo as int, lo + 8 * i) + word);
        }
        i += 1;
    }
    ws
}

/// The bytes of a vector of known length, as an array.
pub fn to_array<const N: usize>(v: &Vec<u8>) -> (r: [u8; N])
    requires
        v@.len() == N,
    ensures
        r@ == v@,
{
    let mut r: [u8; N] = [0u8; N];
    let mut i: usize = 0;
    while i < N
        invariant
            i <= N,
            v@.len() == N,
            forall|j: int| 0 <= j < i ==> r@[j] == v@[j],
        decreases N - i,
    {
        r[i] = v[i];
        i += 1;
    }
    assert(r@ =~= v@);
    r
}

} // verus!
