//! Offline intake: which files of a directory are scanned, and in which order.

use crate::codec::lex_less;
use crate::paging::bytes_before;
use vstd::prelude::*;
use vstd::string::*;
use vstd::utf8::encode_utf8;

verus! {

/// Scans the stored segments of a directory.
#[derive(Debug, Clone)]
pub struct OfflineScanner {
    dir: String,
}

/// Whether a file name has the extension of a segment: `.wal` behind a name that is not empty.
pub open spec fn is_segment(name: Seq<char>) -> bool {
    name.len() > 4 && name.skip(name.len() - 4) == seq!['.', 'w', 'a', 'l']
}

/// Tests the extension of a file name.
pub fn has_wal_extension(name: &str) -> (r: bool)
    ensures
        r == is_segment(name@),
{
    let n: usize = name.unicode_len();
    if n <= 4 {
        return false;
    }
    let r: bool = name.get_char(n - 4) == '.' && name.get_char(n - 3) == 'w' && name.get_char(n - 2) == 'a' && name.get_char(n - 1) == 'l';
    proof {
        let t = name@.skip(n - 4);
        if r {
            assert(t =~= seq!['.', 'w', 'a', 'l']);
        } else {
            assert(t[0] == name@[n - 4] && t[1] == name@[n - 3] && t[2] == name@[n - 2] && t[3] == name@[n - 1]);
        }
    }
    r
}

/// Whether one name comes before another, byte by byte.
pub open spec fn name_before(a: Seq<char>, b: Seq<char>) -> bool {
    lex_less(encode_utf8(a), encode_utf8(b))
}

/// No name comes before the one in front of it.
pub open spec fn names_in_order(names: Seq<String>) -> bool {
    forall|i: int, j: int| 0 <= i < j < names.len() ==> !name_before(#[trigger] names[j]@, #[trigger] names[i]@)
}

/// The segments among a list of names.
pub open spec fn segments(names: Seq<String>) -> Seq<String>
    decreases names.len(),
{
    if names.len() == 0 {
        Seq::empty()
    } else {
        let rest = segments(names.drop_last());
        if is_segment(names.last()@) {
            rest.push(names.last())
        } else {
            rest
        }
    }
}

impl OfflineScanner {
    /// The directory scanned.
    pub closed spec fn path(&self) -> Seq<char> {
        self.dir@
    }

    /// A scanner of a directory.
    pub fn new(dir: &str) -> (s: OfflineScanner)
        ensures
            s.path() == dir@,
    {
        OfflineScanner { dir: String::from_str(dir) }
    }

    /// The directory scanned.
    pub fn dir(&self) -> (d: &str)
        ensures
            d@ == self.path(),
    {
        self.dir.as_str()
    }
}

proof fn lemma_total_order(a: Seq<u8>, b: Seq<u8>)
    ensures
        lex_less(a, b) ==> !lex_less(b, a),
        !lex_less(a, b) && !lex_less(b, a) ==> a == b,
    decreases a.len(),
{
    if a.len() > 0 && b.len() > 0 && a[0] == b[0] {
        lemma_total_order(a.skip(1), b.skip(1));
        if !lex_less(a, b) && !lex_less(b, a) {
            assert(a =~= seq![a[0]] + a.skip(1));
            assert(b =~= seq![b[0]] + b.skip(1));
        }
    } else if a.len() == 0 && b.len() == 0 {
        assert(a =~= b);
    }
}

proof fn lemma_before_trans(a: Seq<u8>, b: Seq<u8>, c: Seq<u8>)
    requires
        !lex_less(b, a),
        !lex_less(c, b),
    ensures
        !lex_less(c, a),
    decreases a.len(),
{
    if a.len() > 0 && b.len() > 0 && c.len() > 0 && a[0] == b[0] && b[0] == c[0] {
        lemma_before_trans(a.skip(1), b.skip(1), c.skip(1));
    }
}

/// The segments among the names of a directory, in the order of their names.
pub fn scan_order(names: Vec<String>) -> (out: Vec<String>)
    ensures
        names_in_order(out@),
        out@.to_multiset() == segments(names@).to_multiset(),
{
    let mut out: Vec<String> = Vec::new();
    let mut i: usize = 0;
    assert(names@.take(0) =~= Seq::empty());
    while i < names.len()
        invariant
            i <= names@.len(),
            names_in_order(out@),
            out@.to_multiset() == segments(names@.take(i as int)).to_multiset(),
        decreases names@.len() - i,
    {
        assert(names@.take(i + 1).drop_last() =~= names@.take(i as int));
        assert(names@.take(i + 1).last() == names@[i as int]);
        if has_wal_extension(names[i].as_str()) {
            let name = names[i].clone();
            let ghost seen = segments(names@.take(i as int));
            proof {
                vstd::seq_lib::to_multiset_build(seen, name);
            }
            insert_in_order(&mut out, name);
        }
        i += 1;
    }
    assert(names@.take(names@.len() as int) =~= names@);
    out
}

fn insert_in_order(out: &mut Vec<String>, name: String)
    requires
        names_in_order(old(out)@),
    ensures
        names_in_order(final(out)@),
        final(out)@.to_multiset() == old(out)@.to_multiset().insert(name),
{
    let mut p: usize = out.len();
    while p > 0 && bytes_before(name.as_str().as_bytes(), out[p - 1].as_str().as_bytes())
        invariant
            p <= out@.len(),
            forall|j: int| p <= j < out@.len() ==> name_before(name@, (#[trigger] out@[j])@),
        decreases p,
    {
        p -= 1;
    }
    let ghost before = out@;
    let ghost at = p as int;
    proof {
        if at > 0 {
            assert forall|j: int| 0 <= j < at implies !name_before(name@, (#[trigger] before[j])@) by {
                if j < at - 1 {
                    assert(!name_before(before[at - 1]@, before[j]@));
                    lemma_before_trans(encode_utf8(before[j]@), encode_utf8(before[at - 1]@), encode_utf8(name@));
                }
            }
        }
    }
    let ghost x = name;
    out.insert(p, name);
    proof {
        assert forall|i: int, j: int| 0 <= i < j < out@.len() implies !name_before(#[trigger] out@[j]@, #[trigger] out@[i]@) by {
            if j == at {
                assert(out@[i] == before[i]);
            } else if i == at {
                assert(out@[j] == before[j - 1]);
                lemma_total_order(encode_utf8(x@), encode_utf8(before[j - 1]@));
            } else {
                let a = if i < at {
                    i
                } else {
                    i - 1
                };
                let b = if j < at {
                    j
                } else {
                    j - 1
                };
                assert(out@[i] == before[a] && out@[j] == before[b]);
            }
        }
        assert(out@.remove(at) =~= before);
        vstd::seq_lib::to_multiset_remove(out@, at);
        out@.to_multiset_ensures();
        assert(out@.contains(x)) by {
            assert(out@[at] == x);
        }
        assert(out@.to_multiset() =~= before.to_multiset().insert(x));
    }
}

} // verus!
