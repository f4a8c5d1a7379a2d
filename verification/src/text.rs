//! Byte and text helpers.

use vstd::prelude::*;
use vstd::string::*;
use vstd::utf8::encode_utf8_decode_utf8;

verus! {

/// Whether two byte slices hold the same bytes.
pub fn bytes_eq(a: &[u8], b: &[u8]) -> (r: bool)
    ensures
        r == (a@ == b@),
{
    if a.len() != b.len() {
        return false;
    }
    let mut i: usize = 0;
    while i < a.len()
        invariant
            i <= a@.len(),
            a@.len() == b@.len(),
            forall|j: int| 0 <= j < i ==> a@[j] == b@[j],
        decreases a@.len() - i,
    {
        if a[i] != b[i] {
            return false;
        }
        i += 1;
    }
    assert(a@ =~= b@);
    true
}

/// Whether two strings hold the same characters.
pub fn str_eq(a: &str, b: &str) -> (r: bool)
    ensures
        r == (a@ == b@),
{
    let r = bytes_eq(a.as_bytes(), b.as_bytes());
    proof {
        encode_utf8_decode_utf8(a@);
        encode_utf8_decode_utf8(b@);
    }
    r
}

/// The bytes `b[lo..hi]` as a vector.
pub fn copy_range(b: &[u8], lo: usize, hi: usize) -> (v: Vec<u8>)
    requires
        lo <= hi <= b@.len(),
    ensures
        v@ == b@.subrange(lo as int, hi as int),
{
    vstd::slice::slice_to_vec(vstd::slice::slice_subrange(b, lo, hi))
}

/// Appends the bytes `b[lo..hi]`.
pub fn push_range(v: &mut Vec<u8>, b: &[u8], lo: usize, hi: usize)
    requires
        lo <= hi <= b@.len(),
    ensures
        final(v)@ == old(v)@ + b@.subrange(lo as int, hi as int),
{
    let ghost v0 = v@;
    let mut i: usize = lo;
    assert(v@ =~= v0 + b@.subrange(lo as int, lo as int));
    while i < hi
        invariant
            lo <= i <= hi <= b@.len(),
            v@ == v0 + b@.subrange(lo as int, i as int),
        decreases hi - i,
    {
        v.push(b[i]);
        assert(v@ =~= v0 + b@.subrange(lo as int, i + 1));
        i += 1;
    }
}

/// The character of a decimal digit.
pub open spec fn digit(d: nat) -> char {
    (48 + d) as char
}

/// A number in decimal, without leading zeros.
pub open spec fn dec(n: nat) -> Seq<char>
    decreases n,
{
    if n < 10 {
        seq![digit(n)]
    } else {
        dec(n / 10).push(digit(n % 10))
    }
}

fn push_digit(s: &mut String, d: u64)
    requires
        d < 10,
    ensures
        final(s)@ == old(s)@.push(digit(d as nat)),
{
    proof {
        reveal_strlit("0");
        reveal_strlit("1");
        reveal_strlit("2");
        reveal_strlit("3");
        reveal_strlit("4");
        reveal_strlit("5");
        reveal_strlit("6");
        reveal_strlit("7");
        reveal_strlit("8");
        reveal_strlit("9");
    }
    let ghost s0 = s@;
    if d == 0 {
        s.append("0");
    } else if d == 1 {
        s.append("1");
    } else if d == 2 {
        s.append("2");
    } else if d == 3 {
        s.append("3");
    } else if d == 4 {
        s.append("4");
    } else if d == 5 {
        s.append("5");
    } else if d == 6 {
        s.append("6");
    } else if d == 7 {
        s.append("7");
    } else if d == 8 {
        s.append("8");
    } else {
        s.append("9");
    }
    assert(s@ =~= s0.push(digit(d as nat)));
}

/// Appends a number in decimal.
pub fn push_dec(s: &mut String, n: u64)
    ensures
        final(s)@ == old(s)@ + dec(n as nat),
    decreases n,
{
    let ghost s0 = s@;
    if n < 10 {
        push_digit(s, n);
    } else {
        push_dec(s, n / 10);
        push_digit(s, n % 10);
    }
    assert(s@ =~= s0 + dec(n as nat));
}

/// A number in decimal, with leading zeros where it has fewer than `width` digits.
pub open spec fn dec_min(n: nat, width: nat) -> Seq<char> {
    let d = dec(n);
    if d.len() >= width {
        d
    } else {
        Seq::new((width - d.len()) as nat, |i: int| '0') + d
    }
}

/// Appends a number in decimal, with leading zeros where it has fewer than `width` digits.
pub fn push_dec_min(s: &mut String, n: u64, width: u32)
    ensures
        final(s)@ == old(s)@ + dec_min(n as nat, width as nat),
{
    let ghost s0 = s@;
    let mut len: u32 = 1;
    let mut rest: u64 = n;
    let ghost d = dec(n as nat);
    while rest >= 10 && len < width
        invariant
            d == dec(n as nat),
            1 <= len,
            len < width || len == 1 || len == width,
            dec(rest as nat).len() + len == d.len() + 1,
        decreases rest,
    {
        rest = rest / 10;
        len += 1;
    }
    proof {
        reveal_strlit("0");
        assert(dec(rest as nat).len() >= 1);
        if rest < 10 {
            assert(dec(rest as nat).len() == 1);
        }
    }
    let mut i: u32 = len;
    while i < width
        invariant
            len <= i,
            len <= width ==> i <= width,
            len > width ==> i == len,
            s@ == s0 + Seq::new((i - len) as nat, |j: int| '0'),
        decreases width - i,
    {
        let ghost before = s@;
        s.append("0");
        proof {
            reveal_strlit("0");
        }
        assert(s@ =~= s0 + Seq::new((i + 1 - len) as nat, |j: int| '0'));
        i += 1;
    }
    push_dec(s, n);
    assert(s@ =~= s0 + dec_min(n as nat, width as nat));
}

/// The characters of a string.
pub fn chars_of(s: &str) -> (v: Vec<char>)
    ensures
        v@ == s@,
{
    let n: usize = s.unicode_len();
    let mut v: Vec<char> = Vec::new();
    let mut i: usize = 0;
    while i < n
        invariant
            n == s@.len(),
            i <= n,
            v@ == s@.take(i as int),
        decreases n - i,
    {
        v.push(s.get_char(i));
        assert(v@ =~= s@.take(i + 1));
        i += 1;
    }
    assert(v@ =~= s@);
    v
}

/// Unicode white space.
pub open spec fn space(c: char) -> bool {
    let n = c as u32;
    9 <= n <= 13 || n == 32 || n == 0x85 || n == 0xA0 || n == 0x1680 || 0x2000 <= n <= 0x200A || n == 0x2028 || n == 0x2029 || n
        == 0x202F || n == 0x205F || n == 0x3000
}

/// Whether a character is white space.
pub fn is_space(c: char) -> (r: bool)
    ensures
        r == space(c),
{
    let n: u32 = c as u32;
    (9 <= n && n <= 13) || n == 32 || n == 0x85 || n == 0xA0 || n == 0x1680 || (0x2000 <= n && n <= 0x200A) || n == 0x2028 || n == 0x2029
        || n == 0x202F || n == 0x205F || n == 0x3000
}

/// The text without white space at its end.
pub open spec fn trimmed_back(s: Seq<char>) -> Seq<char>
    decreases s.len(),
{
    if s.len() > 0 && space(s.last()) {
        trimmed_back(s.drop_last())
    } else {
        s
    }
}

/// The text without white space at either end.
pub open spec fn trimmed(s: Seq<char>) -> Seq<char>
    decreases s.len(),
{
    if s.len() > 0 && space(s[0]) {
        trimmed(s.skip(1))
    } else {
        trimmed_back(s)
    }
}

/// Drops white space at either end.
pub fn trim(s: &Vec<char>) -> (v: Vec<char>)
    ensures
        v@ == trimmed(s@),
{
    let mut i: usize = 0;
    assert(s@.skip(0) =~= s@);
    while i < s.len() && is_space(s[i])
        invariant
            i <= s@.len(),
            trimmed(s@) == trimmed(s@.skip(i as int)),
        decreases s@.len() - i,
    {
        assert(s@.skip(i as int).skip(1) =~= s@.skip(i + 1));
        i += 1;
    }
    let mut j: usize = s.len();
    assert(s@.subrange(i as int, j as int) =~= s@.skip(i as int));
    while j > i && is_space(s[j - 1])
        invariant
            i <= j <= s@.len(),
            trimmed_back(s@.skip(i as int)) == trimmed_back(s@.subrange(i as int, j as int)),
        decreases j,
    {
        assert(s@.subrange(i as int, j as int).drop_last() =~= s@.subrange(i as int, j - 1));
        j -= 1;
    }
    part(s, i, j)
}

/// Drops white space at either end of a string.
pub fn trim_str(s: &str) -> (r: &str)
    ensures
        r@ == trimmed(s@),
{
    let n: usize = s.unicode_len();
    let mut i: usize = 0;
    assert(s@.skip(0) =~= s@);
    while i < n && is_space(s.get_char(i))
        invariant
            n == s@.len(),
            i <= n,
            trimmed(s@) == trimmed(s@.skip(i as int)),
        decreases n - i,
    {
        assert(s@.skip(i as int).skip(1) =~= s@.skip(i + 1));
        i += 1;
    }
    let mut j: usize = n;
    assert(s@.subrange(i as int, j as int) =~= s@.skip(i as int));
    while j > i && is_space(s.get_char(j - 1))
        invariant
            n == s@.len(),
            i <= j <= n,
            trimmed_back(s@.skip(i as int)) == trimmed_back(s@.subrange(i as int, j as int)),
        decreases j,
    {
        assert(s@.subrange(i as int, j as int).drop_last() =~= s@.subrange(i as int, j - 1));
        j -= 1;
    }
    s.substring_char(i, j)
}

/// The characters `s[lo..hi]`.
pub fn part(s: &Vec<char>, lo: usize, hi: usize) -> (v: Vec<char>)
    requires
        lo <= hi <= s@.len(),
    ensures
        v@ == s@.subrange(lo as int, hi as int),
{
    let mut v: Vec<char> = Vec::new();
    let mut i: usize = lo;
    while i < hi
        invariant
            lo <= i <= hi <= s@.len(),
            v@ == s@.subrange(lo as int, i as int),
        decreases hi - i,
    {
        v.push(s[i]);
        assert(v@ =~= s@.subrange(lo as int, i + 1));
        i += 1;
    }
    v
}

/// Value of a digit in base ten or sixteen.
pub open spec fn digit_value(c: char, radix: nat) -> Option<nat> {
    let n = c as u32;
    let v = if 48 <= n <= 57 {
        (n - 48) as nat
    } else if 65 <= n <= 70 {
        (n - 55) as nat
    } else if 97 <= n <= 102 {
        (n - 87) as nat
    } else {
        radix
    };
    if v < radix {
        Some(v)
    } else {
        None
    }
}

/// Whether a text consists of digits, at least one.
pub open spec fn all_digits(s: Seq<char>, radix: nat) -> bool {
    s.len() > 0 && forall|i: int| 0 <= i < s.len() ==> digit_value(#[trigger] s[i], radix) is Some
}

/// The number that digits spell.
pub open spec fn digits_number(s: Seq<char>, radix: nat) -> nat
    decreases s.len(),
{
    if s.len() == 0 {
        0
    } else {
        digits_number(s.drop_last(), radix) * radix + digit_value(s.last(), radix)->0
    }
}

/// The digits of a number that may start with a plus sign.
pub open spec fn unsigned_digits(s: Seq<char>) -> Seq<char> {
    if s.len() > 0 && s[0] == '+' {
        s.skip(1)
    } else {
        s
    }
}

/// The unsigned number that a text spells, where there is one that is not too large.
pub open spec fn parsed(s: Seq<char>, radix: nat, max: nat) -> Option<nat> {
    let d = unsigned_digits(s);
    if all_digits(d, radix) && digits_number(d, radix) <= max {
        Some(digits_number(d, radix))
    } else {
        None
    }
}

proof fn lemma_digits_grow(s: Seq<char>, radix: nat, i: int)
    requires
        0 <= i <= s.len(),
        radix >= 1,
    ensures
        digits_number(s.take(i), radix) <= digits_number(s, radix),
    decreases s.len(),
{
    if i == s.len() {
        assert(s.take(i) =~= s);
    } else {
        lemma_digits_grow(s.drop_last(), radix, i);
        assert(s.drop_last().take(i) =~= s.take(i));
        let n = digits_number(s.drop_last(), radix);
        assert(n * radix >= n) by (nonlinear_arith)
            requires
                radix >= 1,
        ;
    }
}

/// Reads an unsigned number in base ten or sixteen.
pub fn parse_unsigned(s: &Vec<char>, radix: u64, max: u64) -> (r: Option<u64>)
    requires
        radix == 10 || radix == 16,
    ensures
        (match r {
            Some(n) => Some(n as nat),
            None => None,
        }) == parsed(s@, radix as nat, max as nat),
{
    let ghost d = unsigned_digits(s@);
    let start: usize = if s.len() > 0 && s[0] == '+' { 1 } else { 0 };
    assert(d =~= s@.skip(start as int));
    if start == s.len() {
        return None;
    }
    let mut n: u64 = 0;
    let mut i: usize = start;
    assert(d.take(0) =~= Seq::empty());
    while i < s.len()
        invariant
            radix == 10 || radix == 16,
            start <= i <= s@.len(),
            d == s@.skip(start as int),
            d == unsigned_digits(s@),
            n == digits_number(d.take(i - start), radix as nat),
            n <= max,
            forall|j: int| 0 <= j < i - start ==> digit_value(#[trigger] d[j], radix as nat) is Some,
        decreases s@.len() - i,
    {
        let c: u32 = s[i] as u32;
        assert(d[i - start] == s@[i as int]);
        let v: u64 = if 48 <= c && c <= 57 {
            (c - 48) as u64
        } else if 65 <= c && c <= 70 {
            (c - 55) as u64
        } else if 97 <= c && c <= 102 {
            (c - 87) as u64
        } else {
            radix
        };
        if v >= radix {
            assert(digit_value(d[i - start], radix as nat) is None);
            return None;
        }
        proof {
            let t = d.take(i - start + 1);
            assert(t.drop_last() =~= d.take(i - start));
            assert(t.last() == d[i - start]);
            assert(digits_number(t, radix as nat) == n * radix + v);
            lemma_digits_grow(d, radix as nat, i - start + 1);
        }
        match n.checked_mul(radix) {
            None => {
                return None;
            },
            Some(m) => match m.checked_add(v) {
                None => {
                    return None;
                },
                Some(k) => {
                    if k > max {
                        return None;
                    }
                    n = k;
                },
            },
        }
        i += 1;
    }
    assert(d.take(d.len() as int) =~= d);
    Some(n)
}

/// The parts of a text between the occurrences of a character.
pub open spec fn split(s: Seq<char>, c: char) -> Seq<Seq<char>>
    decreases s.len(),
{
    if s.len() == 0 {
        seq![Seq::empty()]
    } else {
        let rest = split(s.drop_last(), c);
        if s.last() == c {
            rest.push(Seq::empty())
        } else {
            rest.update(rest.len() - 1, rest.last().push(s.last()))
        }
    }
}

/// A list of texts by their characters.
pub open spec fn texts(v: Seq<Vec<char>>) -> Seq<Seq<char>> {
    v.map_values(|x: Vec<char>| x@)
}

/// Splits a text at every occurrence of a character.
pub fn split_at_each(s: &Vec<char>, c: char) -> (v: Vec<Vec<char>>)
    ensures
        texts(v@) == split(s@, c),
{
    let mut v: Vec<Vec<char>> = Vec::new();
    let mut word: Vec<char> = Vec::new();
    let mut i: usize = 0;
    assert(s@.take(0) =~= Seq::empty());
    assert(texts(v@).push(word@) =~= seq![Seq::<char>::empty()]);
    while i < s.len()
        invariant
            i <= s@.len(),
            texts(v@).push(word@) == split(s@.take(i as int), c),
        decreases s@.len() - i,
    {
        let ghost before = texts(v@).push(word@);
        let ghost w0 = word@;
        let ghost v0 = v@;
        assert(s@.take(i + 1).drop_last() =~= s@.take(i as int));
        assert(s@.take(i + 1).last() == s@[i as int]);
        if s[i] == c {
            v.push(word);
            word = Vec::new();
            assert(texts(v@) =~= texts(v0).push(w0));
            assert(texts(v@).push(word@) =~= before.push(Seq::empty()));
        } else {
            word.push(s[i]);
            assert(texts(v@).push(word@) =~= before.update(before.len() - 1, before.last().push(s@[i as int])));
        }
        i += 1;
    }
    assert(s@.take(s@.len() as int) =~= s@);
    let ghost v0 = v@;
    let ghost w0 = word@;
    v.push(word);
    assert(texts(v@) =~= texts(v0).push(w0));
    v
}

/// A number reads back from its decimal form.
pub proof fn lemma_dec_parses(n: nat)
    ensures
        all_digits(dec(n), 10),
        digits_number(dec(n), 10) == n,
        unsigned_digits(dec(n)) == dec(n),
        forall|i: int| 0 <= i < dec(n).len() ==> 48 <= (#[trigger] dec(n)[i]) as u32 <= 57,
    decreases n,
{
    let s = dec(n);
    if n < 10 {
        assert(s.drop_last() =~= Seq::empty());
        assert(digits_number(s.drop_last(), 10) == 0);
    } else {
        lemma_dec_parses(n / 10);
        let t = dec(n / 10);
        assert(s.drop_last() =~= t);
        assert forall|i: int| 0 <= i < s.len() implies 48 <= (#[trigger] s[i]) as u32 <= 57 by {
            if i < t.len() {
                assert(s[i] == t[i]);
            }
        }
        assert forall|i: int| 0 <= i < s.len() implies digit_value(#[trigger] s[i], 10) is Some by {
        }
    }
    assert(48 <= s[0] as u32 <= 57);
}

} // verus!
