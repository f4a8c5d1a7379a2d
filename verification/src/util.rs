//! Addresses and times as text.

use crate::text::{
    chars_of, dec, dec_min, lemma_dec_parses, parse_unsigned, parsed, push_dec, push_dec_min, split, split_at_each, texts,
};
use vstd::prelude::*;

verus! {

/// The four bytes of an address.
pub open spec fn octets(ip: u32) -> (nat, nat, nat, nat) {
    ((ip / 0x100_0000) as nat, (ip / 0x1_0000 % 0x100) as nat, (ip / 0x100 % 0x100) as nat, (ip % 0x100) as nat)
}

/// An address in dotted form.
pub open spec fn dotted(ip: u32) -> Seq<char> {
    let (a, b, c, d) = octets(ip);
    dec(a) + seq!['.'] + dec(b) + seq!['.'] + dec(c) + seq!['.'] + dec(d)
}

/// The address that a dotted form names.
pub open spec fn address(s: Seq<char>) -> Option<u32> {
    let parts = split(s, '.');
    if parts.len() != 4 {
        None
    } else {
        match (parsed(parts[0], 10, 255), parsed(parts[1], 10, 255), parsed(parts[2], 10, 255), parsed(parts[3], 10, 255)) {
            (Some(a), Some(b), Some(c), Some(d)) => Some((((a * 256 + b) * 256 + c) * 256 + d) as u32),
            _ => None,
        }
    }
}

/// Writes an address in dotted form.
pub fn ip4_to_string(ip: u32) -> (s: String)
    ensures
        s@ == dotted(ip),
{
    let mut s = String::new();
    push_dec(&mut s, (ip / 0x100_0000) as u64);
    proof {
        reveal_strlit(".");
    }
    s.append(".");
    push_dec(&mut s, (ip / 0x1_0000 % 0x100) as u64);
    s.append(".");
    push_dec(&mut s, (ip / 0x100 % 0x100) as u64);
    s.append(".");
    push_dec(&mut s, (ip % 0x100) as u64);
    assert(s@ =~= dotted(ip)) by {
        assert("."@ =~= seq!['.']);
    }
    s
}

/// Reads an address in dotted form.
pub fn ip4_from_string(s: &str) -> (r: Option<u32>)
    ensures
        r == address(s@),
{
    let parts = split_at_each(&chars_of(s), '.');
    let ghost want = split(s@, '.');
    assert(texts(parts@).len() == parts@.len());
    if parts.len() != 4 {
        return None;
    }
    assert(want[0] == parts@[0]@ && want[1] == parts@[1]@ && want[2] == parts@[2]@ && want[3] == parts@[3]@);
    let a = parse_unsigned(&parts[0], 10, 255);
    let b = parse_unsigned(&parts[1], 10, 255);
    let c = parse_unsigned(&parts[2], 10, 255);
    let d = parse_unsigned(&parts[3], 10, 255);
    match (a, b, c, d) {
        (Some(a), Some(b), Some(c), Some(d)) => {
            assert(a <= 255 && b <= 255 && c <= 255 && d <= 255);
            Some((((a * 256 + b) * 256 + c) * 256 + d) as u32)
        },
        _ => None,
    }
}

proof fn lemma_split_plain(s: Seq<char>, c: char)
    requires
        forall|i: int| 0 <= i < s.len() ==> #[trigger] s[i] != c,
    ensures
        split(s, c) == seq![s],
    decreases s.len(),
{
    if s.len() > 0 {
        let t = s.drop_last();
        assert forall|i: int| 0 <= i < t.len() implies #[trigger] t[i] != c by {
            assert(t[i] == s[i]);
        }
        lemma_split_plain(t, c);
        assert(s.last() == s[s.len() - 1]);
        assert(t.push(s.last()) =~= s);
        assert(seq![t].update(0, s) =~= seq![s]);
    } else {
        assert(s =~= Seq::empty());
    }
}

proof fn lemma_split_join(a: Seq<char>, b: Seq<char>, c: char)
    requires
        forall|i: int| 0 <= i < b.len() ==> #[trigger] b[i] != c,
    ensures
        split(a + seq![c] + b, c) == split(a, c).push(b),
    decreases b.len(),
{
    let s = a + seq![c] + b;
    if b.len() == 0 {
        assert(s.drop_last() =~= a);
        assert(s.last() == c);
        assert(b =~= Seq::empty());
    } else {
        let t = b.drop_last();
        assert forall|i: int| 0 <= i < t.len() implies #[trigger] t[i] != c by {
            assert(t[i] == b[i]);
        }
        lemma_split_join(a, t, c);
        assert(s.drop_last() =~= a + seq![c] + t);
        assert(s.last() == b[b.len() - 1]);
        let r = split(a, c).push(t);
        assert(r.update(r.len() - 1, r.last().push(s.last())) =~= split(a, c).push(b)) by {
            assert(t.push(s.last()) =~= b);
        }
    }
}

proof fn lemma_octets(ip: u32)
    ensures
        ({
            let (a, b, c, d) = octets(ip);
            ((a * 256 + b) * 256 + c) * 256 + d == ip && a <= 255 && b <= 255 && c <= 255 && d <= 255
        }),
{
}

/// An address reads back from its dotted form.
pub proof fn law_address_round_trip(ip: u32)
    ensures
        address(dotted(ip)) == Some(ip),
{
    let (a, b, c, d) = octets(ip);
    lemma_dec_parses(a);
    lemma_dec_parses(b);
    lemma_dec_parses(c);
    lemma_dec_parses(d);
    let (x, y, z, w) = (dec(a), dec(b), dec(c), dec(d));
    assert forall|i: int| 0 <= i < x.len() implies #[trigger] x[i] != '.' by {
        assert(48 <= x[i] as u32);
    }
    assert forall|i: int| 0 <= i < y.len() implies #[trigger] y[i] != '.' by {
        assert(48 <= y[i] as u32);
    }
    assert forall|i: int| 0 <= i < z.len() implies #[trigger] z[i] != '.' by {
        assert(48 <= z[i] as u32);
    }
    assert forall|i: int| 0 <= i < w.len() implies #[trigger] w[i] != '.' by {
        assert(48 <= w[i] as u32);
    }
    lemma_split_plain(x, '.');
    lemma_split_join(x, y, '.');
    lemma_split_join(x + seq!['.'] + y, z, '.');
    lemma_split_join(x + seq!['.'] + y + seq!['.'] + z, w, '.');
    assert(seq![x].push(y).push(z).push(w) =~= seq![x, y, z, w]);
    lemma_octets(ip);
}

/// Whether a year of the Gregorian calendar has a 29th of February.
pub open spec fn leap(y: int) -> bool {
    y % 4 == 0 && (y % 100 != 0 || y % 400 == 0)
}

/// Days before the first of a month within its year.
pub open spec fn days_before_month(y: int, m: int) -> int {
    let feb = if leap(y) {
        29int
    } else {
        28
    };
    if m == 1 {
        0
    } else if m == 2 {
        31
    } else if m == 3 {
        31 + feb
    } else if m == 4 {
        62 + feb
    } else if m == 5 {
        92 + feb
    } else if m == 6 {
        123 + feb
    } else if m == 7 {
        153 + feb
    } else if m == 8 {
        184 + feb
    } else if m == 9 {
        215 + feb
    } else if m == 10 {
        245 + feb
    } else if m == 11 {
        276 + feb
    } else if m == 12 {
        306 + feb
    } else {
        337 + feb
    }
}

/// Days from the first of January of the year 1 to the first of January of a year.
pub open spec fn days_before_year(y: int) -> int {
    365 * (y - 1) + (y - 1) / 4 - (y - 1) / 100 + (y - 1) / 400
}

/// A date is the one `days` after the first of January 1970.
pub open spec fn is_date(days: int, y: int, m: int, d: int) -> bool {
    &&& 1 <= m <= 12
    &&& 1 <= d <= days_before_month(y, m + 1) - days_before_month(y, m)
    &&& days == days_before_year(y) - days_before_year(1970) + days_before_month(y, m) + d - 1
}

/// Days before a year of a cycle, counted from March.
spec fn cycle_days(y: int) -> int {
    365 * y + y / 4 - y / 100
}

/// The year of a cycle that a day lies in.
proof fn lemma_cycle_year(doe: int)
    requires
        0 <= doe <= 146_096,
    ensures
        ({
            let y = (doe - doe / 1460 + doe / 36_524 - doe / 146_096) / 365;
            &&& 0 <= y <= 399
            &&& 0 <= doe - cycle_days(y) <= 365
            &&& doe - cycle_days(y) == 365 ==> (y + 1) % 4 == 0 && ((y + 1) % 100 != 0 || y == 399)
        }),
{
}

/// The date `z` days after the first of January 1970. Counting runs in cycles of 400 years that start on
/// the first of March, so that a leap day is the last of its year.
pub fn civil_from_days(z: u64) -> (r: (u64, u64, u64))
    requires
        z <= 0xffff_ffff,
    ensures
        is_date(z as int, r.0 as int, r.1 as int, r.2 as int),
{
    let n: u64 = z + 719_468;
    let era: u64 = n / 146_097;
    let doe: u64 = n % 146_097;
    proof {
        lemma_cycle_year(doe as int);
    }
    let yoe: u64 = (doe - doe / 1460 + doe / 36_524 - doe / 146_096) / 365;
    let doy: u64 = doe - (365 * yoe + yoe / 4 - yoe / 100);
    let mp: u64 = (5 * doy + 2) / 153;
    let d: u64 = doy - (153 * mp + 2) / 5 + 1;
    let m: u64 = if mp < 10 { mp + 3 } else { mp - 9 };
    let y0: u64 = yoe + era * 400;
    let y: u64 = if m <= 2 { y0 + 1 } else { y0 };
    proof {
        lemma_date(era as int, yoe as int, doy as int);
    }
    (y, m, d)
}

/// Days before a month of a year that starts in March.
spec fn march_days(mp: int) -> int {
    if mp == 0 {
        0
    } else if mp == 1 {
        31
    } else if mp == 2 {
        61
    } else if mp == 3 {
        92
    } else if mp == 4 {
        122
    } else if mp == 5 {
        153
    } else if mp == 6 {
        184
    } else if mp == 7 {
        214
    } else if mp == 8 {
        245
    } else if mp == 9 {
        275
    } else if mp == 10 {
        306
    } else if mp == 11 {
        337
    } else {
        366
    }
}

proof fn lemma_march_month(doy: int)
    requires
        0 <= doy <= 365,
    ensures
        ({
            let mp = (5 * doy + 2) / 153;
            &&& 0 <= mp <= 11
            &&& (153 * mp + 2) / 5 == march_days(mp)
            &&& march_days(mp) <= doy < march_days(mp + 1)
        }),
{
}

proof fn lemma_years(era: int, yoe: int)
    requires
        0 <= yoe <= 399,
    ensures
        ({
            let y0 = yoe + era * 400;
            &&& days_before_year(y0 + 1) == era * 146_097 + cycle_days(yoe)
            &&& days_before_year(y0 + 1) == days_before_year(y0) + 365 + (if leap(y0) {
                1int
            } else {
                0
            })
            &&& leap(y0 + 1) <==> (yoe + 1) % 4 == 0 && ((yoe + 1) % 100 != 0 || yoe == 399)
        }),
{
    let y0 = yoe + era * 400;
    assert(y0 / 4 == 100 * era + yoe / 4);
    assert(y0 / 100 == 4 * era + yoe / 100);
    assert(y0 / 400 == era);
    assert((y0 + 1) % 4 == (yoe + 1) % 4);
    assert((y0 + 1) % 100 == (yoe + 1) % 100);
    assert((y0 + 1) % 400 == 0 <==> yoe == 399);
    lemma_one_year(y0);
}

/// One step of a count of multiples.
#[verifier::rlimit(60)]
proof fn lemma_multiples(y: int, n: int)
    requires
        n > 0,
    ensures
        y / n - (y - 1) / n == if y % n == 0 {
            1int
        } else {
            0
        },
{
    let (q, r) = (y / n, y % n);
    vstd::arithmetic::div_mod::lemma_fundamental_div_mod(y, n);
    if r == 0 {
        assert(y - 1 == n * (q - 1) + (n - 1)) by (nonlinear_arith)
            requires
                y == n * q + r,
                r == 0,
        ;
        vstd::arithmetic::div_mod::lemma_fundamental_div_mod_converse(y - 1, n, q - 1, n - 1);
    } else {
        vstd::arithmetic::div_mod::lemma_fundamental_div_mod_converse(y - 1, n, q, r - 1);
    }
}

#[verifier::rlimit(60)]
pub(crate) proof fn lemma_one_year(y: int)
    ensures
        days_before_year(y + 1) == days_before_year(y) + 365 + (if leap(y) {
            1int
        } else {
            0
        }),
{
    lemma_multiples(y, 4);
    lemma_multiples(y, 100);
    lemma_multiples(y, 400);
    assert(y % 400 == 0 ==> y % 100 == 0);
    assert(y % 100 == 0 ==> y % 4 == 0);
}

proof fn lemma_date(era: int, yoe: int, doy: int)
    requires
        0 <= era,
        0 <= yoe <= 399,
        0 <= doy <= 365,
        doy == 365 ==> (yoe + 1) % 4 == 0 && ((yoe + 1) % 100 != 0 || yoe == 399),
    ensures
        ({
            let mp = (5 * doy + 2) / 153;
            let d = doy - (153 * mp + 2) / 5 + 1;
            let m = if mp < 10 {
                mp + 3
            } else {
                mp - 9
            };
            let y0 = yoe + era * 400;
            let y = if m <= 2 {
                y0 + 1
            } else {
                y0
            };
            is_date(era * 146_097 + cycle_days(yoe) + doy - 719_468, y, m, d)
        }),
{
    lemma_march_month(doy);
    lemma_years(era, yoe);
}

proof fn lemma_years_grow(a: int, b: int)
    requires
        a <= b,
    ensures
        days_before_year(a) <= days_before_year(b),
    decreases b - a,
{
    if a < b {
        lemma_years_grow(a, b - 1);
        lemma_one_year(b - 1);
    }
}

/// A day has one date.
pub proof fn law_date_is_unique(days: int, y: int, m: int, d: int, y2: int, m2: int, d2: int)
    requires
        is_date(days, y, m, d),
        is_date(days, y2, m2, d2),
    ensures
        y == y2 && m == m2 && d == d2,
{
    lemma_one_year(y);
    lemma_one_year(y2);
    if y < y2 {
        lemma_years_grow(y + 1, y2);
    } else if y2 < y {
        lemma_years_grow(y2 + 1, y);
    }
}

/// A point in time as text: date, time of day and nanoseconds, in universal time.
pub open spec fn stamp(y: nat, m: nat, d: nat, secs: nat, nanos: nat) -> Seq<char> {
    dec_min(y, 4) + seq!['-'] + dec_min(m, 2) + seq!['-'] + dec_min(d, 2) + seq!['T'] + dec_min(secs / 3600, 2) + seq![':'] + dec_min(
        secs % 3600 / 60,
        2,
    ) + seq![':'] + dec_min(secs % 60, 2) + seq!['.'] + dec_min(nanos, 9) + seq!['Z']
}

fn push_char(s: &mut String, c: &str, Ghost(x): Ghost<char>)
    requires
        c@ == seq![x],
    ensures
        final(s)@ == old(s)@.push(x),
{
    s.append(c);
    assert(s@ =~= old(s)@.push(x));
}

/// Writes a time in nanoseconds since 1970 as text.
pub fn ts_to_rfc3339(ts_ns: u64) -> (s: String)
    ensures
        exists|y: nat, m: nat, d: nat|
            is_date((ts_ns / 1_000_000_000 / 86_400) as int, y as int, m as int, d as int) && s@ == #[trigger] stamp(
                y,
                m,
                d,
                (ts_ns / 1_000_000_000 % 86_400) as nat,
                (ts_ns % 1_000_000_000) as nat,
            ),
{
    let secs: u64 = ts_ns / 1_000_000_000;
    let nanos: u64 = ts_ns % 1_000_000_000;
    let rem: u64 = secs % 86_400;
    let (y, m, d) = civil_from_days(secs / 86_400);
    proof {
        reveal_strlit("-");
        reveal_strlit("T");
        reveal_strlit(":");
        reveal_strlit(".");
        reveal_strlit("Z");
        assert("-"@ =~= seq!['-']);
        assert("T"@ =~= seq!['T']);
        assert(":"@ =~= seq![':']);
        assert("."@ =~= seq!['.']);
        assert("Z"@ =~= seq!['Z']);
    }
    let mut s = String::new();
    push_dec_min(&mut s, y, 4);
    push_char(&mut s, "-", Ghost('-'));
    push_dec_min(&mut s, m, 2);
    push_char(&mut s, "-", Ghost('-'));
    push_dec_min(&mut s, d, 2);
    push_char(&mut s, "T", Ghost('T'));
    push_dec_min(&mut s, rem / 3600, 2);
    push_char(&mut s, ":", Ghost(':'));
    push_dec_min(&mut s, rem % 3600 / 60, 2);
    push_char(&mut s, ":", Ghost(':'));
    push_dec_min(&mut s, rem % 60, 2);
    push_char(&mut s, ".", Ghost('.'));
    push_dec_min(&mut s, nanos, 9);
    push_char(&mut s, "Z", Ghost('Z'));
    assert(s@ =~= stamp(y as nat, m as nat, d as nat, rem as nat, nanos as nat));
    s
}

} // verus!
