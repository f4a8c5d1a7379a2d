//! What stored bytes and printed texts mean, told from the values that they stand for.

use crate::codec::{
    be, be_words, from_be, lemma_be_len, lemma_be_round_trip, lemma_be_words_len, lemma_pow256_values,
};
use crate::config::{joined, overridden, rooted, size_of, PathOverrides, StorageView};
use crate::connection::{
    conn_state_bytes, conn_state_head, conn_state_tail, conn_state_words, lemma_head_fields, lemma_head_len,
    ConnState,
};
use crate::db::{pair_bytes, pending_value, summary_bytes, ttl_value, QrPairView, RecordSummary};
use crate::decrypt::{chunk_text, opened};
use crate::ingest::offline::{is_segment, segments};
use crate::text::{all_digits, dec, dec_min, digits_number, lemma_dec_parses, parsed, space, trimmed};
use crate::util::{dotted, is_date, lemma_one_year, octets, stamp};
use crate::walscan::{after_read, is_bad, payload_total, scan_stats, total_of, ScanStats, ScanView};
use vstd::prelude::*;

verus! {

/// The number in bytes `i` to `j`.
pub open spec fn number(b: Seq<u8>, i: int, j: int) -> nat {
    from_be(b.subrange(i, j))
}

proof fn lemma_number(b: Seq<u8>, i: int, x: nat, n: nat)
    requires
        0 <= i,
        i + n <= b.len(),
        b.subrange(i, i + n) == be(x, n),
        x < crate::codec::pow256(n),
    ensures
        number(b, i, i + n) == x,
{
    lemma_be_round_trip(x, n);
}

/// A word within a row of words.
proof fn lemma_word_at(ws: Seq<u64>, i: int)
    requires
        0 <= i < ws.len(),
    ensures
        be_words(ws).len() == 8 * ws.len(),
        be_words(ws).subrange(8 * i, 8 * i + 8) == be(ws[i] as nat, 8),
    decreases ws.len(),
{
    lemma_be_words_len(ws);
    let head = ws.drop_last();
    lemma_be_words_len(head);
    lemma_be_len(ws.last() as nat, 8);
    if i == ws.len() - 1 {
        assert(be_words(ws).subrange(8 * i, 8 * i + 8) =~= be(ws[i] as nat, 8));
    } else {
        lemma_word_at(head, i);
        assert(head[i] == ws[i]);
        assert(be_words(ws).subrange(8 * i, 8 * i + 8) =~= be_words(head).subrange(8 * i, 8 * i + 8));
    }
}

/// A stored connection state holds every field at its place, most significant byte first.
#[verifier::rlimit(60)]
pub proof fn law_conn_state_layout(s: ConnState)
    ensures
        ({
            let b = conn_state_bytes(s);
            &&& b.len() == 190
            &&& number(b, 0, 1) == s.state
            &&& number(b, 8, 12) == s.client_ip
            &&& number(b, 12, 14) == s.client_port
            &&& number(b, 14, 18) == s.server_ip
            &&& number(b, 18, 20) == s.server_port
            &&& number(b, 20, 21) == s.proto
            &&& number(b, 22, 30) == s.first_ts
            &&& number(b, 30, 38) == s.last_ts
            &&& number(b, 38, 46) == s.syn_seen
            &&& number(b, 46, 54) == s.synack_seen
            &&& number(b, 54, 62) == s.fin_seen
            &&& number(b, 62, 70) == s.rst_seen
            &&& number(b, 70, 78) == s.req_cnt
            &&& number(b, 78, 86) == s.resp_cnt
            &&& number(b, 86, 94) == s.bytes_c
            &&& number(b, 94, 102) == s.bytes_s
            &&& number(b, 102, 110) == s.pkts_c
            &&& number(b, 110, 118) == s.pkts_s
            &&& number(b, 118, 126) == s.abs_seq_c
            &&& number(b, 126, 134) == s.abs_seq_s
            &&& number(b, 134, 142) == s.consumed_ack_c
            &&& number(b, 142, 150) == s.consumed_ack_s
            &&& number(b, 158, 159) == s.protocol_hint
            &&& number(b, 159, 163) == s.anomaly_flags
            &&& number(b, 163, 171) == s.qr_open
            &&& number(b, 171, 175) == s.last_raw_c
            &&& number(b, 175, 179) == s.last_raw_s
            &&& number(b, 179, 181) == s.incarnation
            &&& number(b, 181, 189) == s.syn_pkt_idx
            &&& number(b, 189, 190) == s.active
        }),
{
    let b = conn_state_bytes(s);
    let ws = conn_state_words(s);
    lemma_pow256_values();
    lemma_head_len(s);
    lemma_head_fields(s);
    lemma_be_words_len(ws);
    let (h, t) = (conn_state_head(s), conn_state_tail(s));
    assert(b.len() == 190);
    assert(b.subrange(0, 1) =~= h.subrange(0, 1));
    assert(b.subrange(8, 12) =~= h.subrange(8, 12));
    assert(b.subrange(12, 14) =~= h.subrange(12, 14));
    assert(b.subrange(14, 18) =~= h.subrange(14, 18));
    assert(b.subrange(18, 20) =~= h.subrange(18, 20));
    assert(b.subrange(20, 21) =~= h.subrange(20, 21));
    lemma_number(b, 0, s.state as nat, 1);
    lemma_number(b, 8, s.client_ip as nat, 4);
    lemma_number(b, 12, s.client_port as nat, 2);
    lemma_number(b, 14, s.server_ip as nat, 4);
    lemma_number(b, 18, s.server_port as nat, 2);
    lemma_number(b, 20, s.proto as nat, 1);
    assert forall|i: int| 0 <= i < 16 implies number(b, 22 + 8 * i, 22 + 8 * i + 8) == #[trigger] ws[i] by {
        lemma_word_at(ws, i);
        assert(b.subrange(22 + 8 * i, 22 + 8 * i + 8) =~= be_words(ws).subrange(8 * i, 8 * i + 8));
        lemma_number(b, 22 + 8 * i, ws[i] as nat, 8);
    }
    assert(ws[0] == s.first_ts && ws[1] == s.last_ts && ws[2] == s.syn_seen && ws[3] == s.synack_seen && ws[4] == s.fin_seen && ws[5]
        == s.rst_seen && ws[6] == s.req_cnt && ws[7] == s.resp_cnt);
    assert(ws[8] == s.bytes_c && ws[9] == s.bytes_s && ws[10] == s.pkts_c && ws[11] == s.pkts_s && ws[12] == s.abs_seq_c && ws[13] == s.abs_seq_s
        && ws[14] == s.consumed_ack_c && ws[15] == s.consumed_ack_s);
    assert(b.subrange(158, 159) =~= t.subrange(8, 9));
    assert(b.subrange(159, 163) =~= t.subrange(9, 13));
    assert(b.subrange(163, 171) =~= t.subrange(13, 21));
    assert(b.subrange(171, 175) =~= t.subrange(21, 25));
    assert(b.subrange(175, 179) =~= t.subrange(25, 29));
    assert(b.subrange(179, 181) =~= t.subrange(29, 31));
    assert(b.subrange(181, 189) =~= t.subrange(31, 39));
    assert(b.subrange(189, 190) =~= t.subrange(39, 40));
    lemma_number(b, 158, s.protocol_hint as nat, 1);
    lemma_number(b, 159, s.anomaly_flags as nat, 4);
    lemma_number(b, 163, s.qr_open as nat, 8);
    lemma_number(b, 171, s.last_raw_c as nat, 4);
    lemma_number(b, 175, s.last_raw_s as nat, 4);
    lemma_number(b, 179, s.incarnation as nat, 2);
    lemma_number(b, 181, s.syn_pkt_idx as nat, 8);
    lemma_number(b, 189, s.active as nat, 1);
}

/// A stored digest holds every field at its place.
#[verifier::rlimit(60)]
pub proof fn law_summary_layout(s: RecordSummary)
    ensures
        ({
            let b = summary_bytes(s);
            &&& b.len() == 18
            &&& number(b, 0, 1) == s.proto
            &&& number(b, 1, 2) == s.flags
            &&& number(b, 2, 6) == s.src_ip
            &&& number(b, 6, 10) == s.dst_ip
            &&& number(b, 10, 12) == s.sport
            &&& number(b, 12, 14) == s.dport
            &&& number(b, 14, 18) == s.len
        }),
{
    let b = summary_bytes(s);
    lemma_pow256_values();
    lemma_be_len(s.proto as nat, 1);
    lemma_be_len(s.flags as nat, 1);
    lemma_be_len(s.src_ip as nat, 4);
    lemma_be_len(s.dst_ip as nat, 4);
    lemma_be_len(s.sport as nat, 2);
    lemma_be_len(s.dport as nat, 2);
    lemma_be_len(s.len as nat, 4);
    assert(b.subrange(0, 1) =~= be(s.proto as nat, 1));
    assert(b.subrange(1, 2) =~= be(s.flags as nat, 1));
    assert(b.subrange(2, 6) =~= be(s.src_ip as nat, 4));
    assert(b.subrange(6, 10) =~= be(s.dst_ip as nat, 4));
    assert(b.subrange(10, 12) =~= be(s.sport as nat, 2));
    assert(b.subrange(12, 14) =~= be(s.dport as nat, 2));
    assert(b.subrange(14, 18) =~= be(s.len as nat, 4));
    lemma_number(b, 0, s.proto as nat, 1);
    lemma_number(b, 1, s.flags as nat, 1);
    lemma_number(b, 2, s.src_ip as nat, 4);
    lemma_number(b, 6, s.dst_ip as nat, 4);
    lemma_number(b, 10, s.sport as nat, 2);
    lemma_number(b, 12, s.dport as nat, 2);
    lemma_number(b, 14, s.len as nat, 4);
}

/// The values of the pending and timeout indexes hold the locator first, then the time or the end.
#[verifier::rlimit(60)]
pub proof fn law_index_value_layout(idx: u64, q_ts: u64, q_len: u32, end: u64)
    requires
        end < 0x1_0000_0000_0000,
    ensures
        ({
            let (p, t) = (pending_value(idx, q_ts, q_len), ttl_value(idx, end));
            &&& p.len() == 20
            &&& number(p, 0, 8) == idx
            &&& number(p, 8, 16) == q_ts
            &&& number(p, 16, 20) == q_len
            &&& t.len() == 14
            &&& number(t, 0, 8) == idx
            &&& number(t, 8, 14) == end
        }),
{
    let (p, t) = (pending_value(idx, q_ts, q_len), ttl_value(idx, end));
    lemma_pow256_values();
    lemma_be_len(idx as nat, 8);
    lemma_be_len(q_ts as nat, 8);
    lemma_be_len(q_len as nat, 4);
    lemma_be_len(end as nat, 6);
    assert(p.subrange(0, 8) =~= be(idx as nat, 8));
    assert(p.subrange(8, 16) =~= be(q_ts as nat, 8));
    assert(p.subrange(16, 20) =~= be(q_len as nat, 4));
    assert(t.subrange(0, 8) =~= be(idx as nat, 8));
    assert(t.subrange(8, 14) =~= be(end as nat, 6));
    lemma_number(p, 0, idx as nat, 8);
    lemma_number(p, 8, q_ts as nat, 8);
    lemma_number(p, 16, q_len as nat, 4);
    lemma_number(t, 0, idx as nat, 8);
    lemma_number(t, 8, end as nat, 6);
}

/// A stored pair holds its status, its connection, its two times, its latency, its two lengths, its place in
/// the stream and its mark at their places, and then the counts of its two lists.
#[verifier::rlimit(60)]
pub proof fn law_pair_layout(p: QrPairView)
    requires
        p.q_idx.len() < 0x1_0000,
        p.r_idx.len() < 0x1_0000,
    ensures
        ({
            let b = pair_bytes(p);
            &&& b.len() >= 62
            &&& number(b, 0, 1) == p.status
            &&& number(b, 1, 9) == p.conn_hash
            &&& number(b, 9, 17) == p.q_ts
            &&& number(b, 17, 25) == p.r_ts
            &&& number(b, 25, 33) == p.latency_ms
            &&& number(b, 33, 37) == p.q_len
            &&& number(b, 37, 41) == p.r_len
            &&& number(b, 41, 49) == p.abs_q_seq
            &&& number(b, 49, 57) == p.abs_q_end
            &&& number(b, 57, 58) == p.pseudo
            &&& number(b, 58, 60) == p.q_idx.len()
            &&& number(b, 60, 62) == p.r_idx.len()
        }),
{
    let b = pair_bytes(p);
    let four = seq![p.conn_hash, p.q_ts, p.r_ts, p.latency_ms];
    let two = seq![p.abs_q_seq, p.abs_q_end];
    lemma_pow256_values();
    lemma_be_len(p.status as nat, 1);
    lemma_be_len(p.q_len as nat, 4);
    lemma_be_len(p.r_len as nat, 4);
    lemma_be_len(p.pseudo as nat, 1);
    lemma_be_len(p.q_idx.len(), 2);
    lemma_be_len(p.r_idx.len(), 2);
    lemma_word_at(four, 0);
    lemma_word_at(four, 1);
    lemma_word_at(four, 2);
    lemma_word_at(four, 3);
    lemma_word_at(two, 0);
    lemma_word_at(two, 1);
    assert(b.subrange(0, 1) =~= be(p.status as nat, 1));
    assert(b.subrange(1, 9) =~= be_words(four).subrange(0, 8));
    assert(b.subrange(9, 17) =~= be_words(four).subrange(8, 16));
    assert(b.subrange(17, 25) =~= be_words(four).subrange(16, 24));
    assert(b.subrange(25, 33) =~= be_words(four).subrange(24, 32));
    assert(b.subrange(33, 37) =~= be(p.q_len as nat, 4));
    assert(b.subrange(37, 41) =~= be(p.r_len as nat, 4));
    assert(b.subrange(41, 49) =~= be_words(two).subrange(0, 8));
    assert(b.subrange(49, 57) =~= be_words(two).subrange(8, 16));
    assert(b.subrange(57, 58) =~= be(p.pseudo as nat, 1));
    assert(b.subrange(58, 60) =~= be(p.q_idx.len(), 2));
    assert(b.subrange(60, 62) =~= be(p.r_idx.len(), 2));
    lemma_number(b, 0, p.status as nat, 1);
    lemma_number(b, 1, p.conn_hash as nat, 8);
    lemma_number(b, 9, p.q_ts as nat, 8);
    lemma_number(b, 17, p.r_ts as nat, 8);
    lemma_number(b, 25, p.latency_ms as nat, 8);
    lemma_number(b, 33, p.q_len as nat, 4);
    lemma_number(b, 37, p.r_len as nat, 4);
    lemma_number(b, 41, p.abs_q_seq as nat, 8);
    lemma_number(b, 49, p.abs_q_end as nat, 8);
    lemma_number(b, 57, p.pseudo as nat, 1);
    lemma_number(b, 58, p.q_idx.len(), 2);
    lemma_number(b, 60, p.r_idx.len(), 2);
}

/// A chunk is twelve bytes of nonce, then what is sealed: as many bytes as the chunk announces, and a tag of
/// sixteen. The text is what opens under that nonce; a chunk of any other length is refused.
pub proof fn law_chunk_is_nonce_then_sealed(key: Seq<u8>, nonce: Seq<u8>, sealed: Seq<u8>, chunk_len: u32)
    requires
        nonce.len() == 12,
    ensures
        sealed.len() == chunk_len + 16 ==> (chunk_text(key, nonce + sealed, chunk_len) matches Ok(text) ==> opened(key, nonce, sealed)
            == Some(text)),
        sealed.len() == chunk_len + 16 ==> (chunk_text(key, nonce + sealed, chunk_len) is Ok <==> opened(key, nonce, sealed) is Some),
        sealed.len() != chunk_len + 16 ==> chunk_text(key, nonce + sealed, chunk_len) is Err,
{
    assert((nonce + sealed).take(12) =~= nonce);
    assert((nonce + sealed).skip(12) =~= sealed);
}

/// The dotted form of an address is its four bytes in decimal, the heaviest first.
#[verifier::rlimit(60)]
pub proof fn law_dotted_form(a: u8, b: u8, c: u8, d: u8)
    ensures
        dotted((a * 0x100_0000 + b * 0x1_0000 + c * 0x100 + d) as u32) == dec(a as nat) + seq!['.'] + dec(b as nat) + seq!['.'] + dec(c as nat)
            + seq!['.'] + dec(d as nat),
{
    lemma_four_bytes(a as int, b as int, c as int, d as int);
}

proof fn lemma_four_bytes(a: int, b: int, c: int, d: int)
    requires
        0 <= a < 256,
        0 <= b < 256,
        0 <= c < 256,
        0 <= d < 256,
    ensures
        octets((a * 0x100_0000 + b * 0x1_0000 + c * 0x100 + d) as u32) == (a as nat, b as nat, c as nat, d as nat),
{
    let v = a * 0x100_0000 + b * 0x1_0000 + c * 0x100 + d;
    assert(v / 0x100 == a * 0x1_0000 + b * 0x100 + c);
    assert(v % 0x100 == d);
    assert(v / 0x1_0000 == a * 0x100 + b);
    assert(v / 0x100_0000 == a);
    assert((a * 0x1_0000 + b * 0x100 + c) % 0x100 == c);
    assert((a * 0x100 + b) % 0x100 == b);
}

/// A number in decimal reads back as that number, is made of digits alone, and has no needless zero in front;
/// padded with zeros it has at least the width asked for and reads back as the same number.
#[verifier::rlimit(60)]
pub proof fn law_decimal_reads_back(n: nat, width: nat)
    ensures
        parsed(dec(n), 10, n) == Some(n),
        n > 0 ==> dec(n)[0] != '0',
        dec_min(n, width).len() >= width,
        dec_min(n, width).len() == dec(n).len() || dec_min(n, width).len() == width,
        all_digits(dec_min(n, width), 10),
        digits_number(dec_min(n, width), 10) == n,
{
    lemma_dec_parses(n);
    lemma_no_zero(n);
    let d = dec(n);
    if d.len() < width {
        let k = (width - d.len()) as nat;
        lemma_padded(k, d, n);
        assert(dec_min(n, width) =~= Seq::new(k, |i: int| '0') + d);
    }
}

proof fn lemma_no_zero(n: nat)
    ensures
        dec(n).len() > 0,
        n > 0 ==> dec(n)[0] != '0',
    decreases n,
{
    if n >= 10 {
        lemma_no_zero(n / 10);
        assert(dec(n)[0] == dec(n / 10)[0]);
    }
}

#[verifier::rlimit(60)]
proof fn lemma_padded(k: nat, d: Seq<char>, n: nat)
    requires
        all_digits(d, 10),
        digits_number(d, 10) == n,
    ensures
        all_digits(Seq::new(k, |i: int| '0') + d, 10),
        digits_number(Seq::new(k, |i: int| '0') + d, 10) == n,
    decreases d.len(),
{
    let z = Seq::new(k, |i: int| '0');
    let s = z + d;
    assert(s.drop_last() =~= z + d.drop_last());
    if d.len() == 1 {
        assert(d.drop_last() =~= Seq::empty());
        assert(z + d.drop_last() =~= z);
        lemma_zero_digits(k);
        assert(digits_number(d.drop_last(), 10) == 0);
    } else {
        assert forall|i: int| 0 <= i < d.drop_last().len() implies crate::text::digit_value(#[trigger] d.drop_last()[i], 10) is Some by {
            assert(d.drop_last()[i] == d[i]);
        }
        lemma_padded(k, d.drop_last(), digits_number(d.drop_last(), 10));
    }
    assert forall|i: int| 0 <= i < s.len() implies crate::text::digit_value(#[trigger] s[i], 10) is Some by {
        if i >= k {
            assert(s[i] == d[i - k]);
        }
    }
}

proof fn lemma_zero_digits(k: nat)
    ensures
        digits_number(Seq::new(k, |i: int| '0'), 10) == 0,
    decreases k,
{
    let z = Seq::new(k, |i: int| '0');
    if k > 0 {
        assert(z.drop_last() =~= Seq::new((k - 1) as nat, |i: int| '0'));
        lemma_zero_digits((k - 1) as nat);
    }
}

/// Days in a month of the Gregorian calendar.
pub open spec fn month_len(y: int, m: int) -> int {
    if m == 2 {
        if y % 4 == 0 && (y % 100 != 0 || y % 400 == 0) {
            29
        } else {
            28
        }
    } else if m == 4 || m == 6 || m == 9 || m == 11 {
        30
    } else {
        31
    }
}

/// The calendar starts on the first of January 1970 and goes on day by day: to the next day of the month, to
/// the first of the next month, to the first of January of the next year.
#[verifier::rlimit(60)]
pub proof fn law_calendar_goes_day_by_day(days: int, y: int, m: int, d: int)
    requires
        is_date(days, y, m, d),
    ensures
        is_date(0, 1970, 1, 1),
        1 <= d <= month_len(y, m),
        d < month_len(y, m) ==> is_date(days + 1, y, m, d + 1),
        d == month_len(y, m) && m < 12 ==> is_date(days + 1, y, m + 1, 1),
        d == month_len(y, m) && m == 12 ==> is_date(days + 1, y + 1, 1, 1),
{
    lemma_one_year(y);
}

/// A time of day is printed as hours, minutes and seconds, behind its date and before its nanoseconds.
#[verifier::rlimit(60)]
pub proof fn law_time_of_day(y: nat, mo: nat, d: nat, h: nat, mi: nat, s: nat, nanos: nat)
    requires
        mi < 60,
        s < 60,
    ensures
        stamp(y, mo, d, 3600 * h + 60 * mi + s, nanos) == dec_min(y, 4) + seq!['-'] + dec_min(mo, 2) + seq!['-'] + dec_min(d, 2) + seq!['T']
            + dec_min(h, 2) + seq![':'] + dec_min(mi, 2) + seq![':'] + dec_min(s, 2) + seq!['.'] + dec_min(nanos, 9) + seq!['Z'],
{
    lemma_clock(h as int, mi as int, s as int);
}

proof fn lemma_clock(h: int, mi: int, s: int)
    requires
        h >= 0,
        0 <= mi < 60,
        0 <= s < 60,
    ensures
        (3600 * h + 60 * mi + s) / 3600 == h,
        (3600 * h + 60 * mi + s) % 3600 / 60 == mi,
        (3600 * h + 60 * mi + s) % 60 == s,
{
    let t = 3600 * h + 60 * mi + s;
    vstd::arithmetic::div_mod::lemma_fundamental_div_mod_converse(t, 3600, h, 60 * mi + s);
    vstd::arithmetic::div_mod::lemma_fundamental_div_mod_converse(60 * mi + s, 60, mi, s);
    vstd::arithmetic::div_mod::lemma_fundamental_div_mod_converse(t, 60, 60 * h + mi, s);
}

proof fn lemma_trimmed_plain(s: Seq<char>)
    requires
        s.len() > 0,
        !space(s[0]),
        !space(s.last()),
    ensures
        trimmed(s) == s,
{
}

/// A size is its number times its unit, by powers of 1024; a number without a unit counts bytes. A size that
/// 64 bits cannot hold is refused.
#[verifier::rlimit(60)]
pub proof fn law_size_is_number_times_unit(n: nat)
    requires
        n <= u64::MAX,
    ensures
        size_of(dec(n)) == Ok::<u64, crate::config::SizeError>(n as u64),
        size_of(dec(n) + seq!['B']) == Ok::<u64, crate::config::SizeError>(n as u64),
        n * 1024 <= u64::MAX ==> size_of(dec(n) + seq!['K', 'B']) == Ok::<u64, crate::config::SizeError>((n * 1024) as u64),
        n * 1024 > u64::MAX ==> size_of(dec(n) + seq!['K', 'B']) is Err,
        n * 1024 * 1024 <= u64::MAX ==> size_of(dec(n) + seq!['M', 'B']) == Ok::<u64, crate::config::SizeError>((n * 1024 * 1024) as u64),
        n * 1024 * 1024 > u64::MAX ==> size_of(dec(n) + seq!['M', 'B']) is Err,
        n * 1024 * 1024 * 1024 <= u64::MAX ==> size_of(dec(n) + seq!['G', 'B']) == Ok::<u64, crate::config::SizeError>(
            (n * 1024 * 1024 * 1024) as u64,
        ),
        n * 1024 * 1024 * 1024 > u64::MAX ==> size_of(dec(n) + seq!['G', 'B']) is Err,
{
    let t = dec(n);
    lemma_dec_parses(n);
    assert(t.len() > 0);
    assert(48 <= t[0] as u32 <= 57);
    assert(48 <= t[t.len() - 1] as u32 <= 57);
    assert(t.last() == t[t.len() - 1]);
    lemma_trimmed_plain(t);
    assert(t.take(t.len() as int) =~= t);
    let (b, k, m, g) = (t + seq!['B'], t + seq!['K', 'B'], t + seq!['M', 'B'], t + seq!['G', 'B']);
    lemma_trimmed_plain(b);
    lemma_trimmed_plain(k);
    lemma_trimmed_plain(m);
    lemma_trimmed_plain(g);
    assert(b[b.len() - 2] == t.last());
    assert(b.take(b.len() - 1) =~= t);
    assert(k.take(k.len() - 2) =~= t);
    assert(m.take(m.len() - 2) =~= t);
    assert(g.take(g.len() - 2) =~= t);
    assert(n * 1024 * 1024 == n * 0x10_0000);
    assert(n * 1024 * 1024 * 1024 == n * 0x4000_0000);
    assert(crate::config::unit(m) == 0x10_0000);
    assert(crate::config::unit(k) == 0x400);
    assert(crate::config::unit(g) == 0x4000_0000);
}

/// Each override replaces its own setting and no other.
pub proof fn law_overrides_replace_their_own(base: StorageView, over: PathOverrides)
    ensures
        ({
            let s = overridden(base, over, true);
            &&& s.root == (match over.root {
                Some(v) => v@,
                None => base.root,
            })
            &&& s.hot_dir == (match over.hot_dir {
                Some(v) => v@,
                None => base.hot_dir,
            })
            &&& s.warm_dir == (match over.warm_dir {
                Some(v) => v@,
                None => base.warm_dir,
            })
            &&& s.ledger_db == (match over.ledger_db {
                Some(v) => v@,
                None => base.ledger_db,
            })
            &&& s.lmdb_dir == (match over.lmdb_dir {
                Some(v) => v@,
                None => base.lmdb_dir,
            })
            &&& s.lmdb_map_size == (match over.lmdb_map_size {
                Some(v) => v@,
                None => base.lmdb_map_size,
            })
        }),
{
}

/// A relative path lies under its base, with one slash between them; an absolute path stands for itself, and
/// so does an absolute root.
pub proof fn law_paths_lie_under_their_base(base: Seq<char>, path: Seq<char>, cwd: Option<Seq<char>>)
    ensures
        path.len() > 0 && path[0] == '/' ==> joined(base, path) == path && rooted(path, cwd) == path,
        !(path.len() > 0 && path[0] == '/') && base.len() > 0 && base.last() != '/' ==> joined(base, path) == base + seq!['/'] + path,
        !(path.len() > 0 && path[0] == '/') && base.len() > 0 && base.last() == '/' ==> joined(base, path) == base + path,
        !(path.len() > 0 && path[0] == '/') ==> (cwd matches Some(c) ==> rooted(path, cwd) == joined(c, path)),
        cwd is None ==> rooted(path, cwd) == path,
{
}

/// A file is a segment if and only if its name is something followed by `.wal`, and the segments among a list
/// of names are exactly those of its names that are.
#[verifier::rlimit(60)]
pub proof fn law_segments_are_the_wal_files(stem: Seq<char>, names: Seq<String>, name: String)
    ensures
        is_segment(stem + seq!['.', 'w', 'a', 'l']) <==> stem.len() > 0,
        segments(names).contains(name) <==> names.contains(name) && is_segment(name@),
    decreases names.len(),
{
    let full = stem + seq!['.', 'w', 'a', 'l'];
    assert(full.skip(full.len() - 4) =~= seq!['.', 'w', 'a', 'l']);
    if names.len() > 0 {
        let head = names.drop_last();
        law_segments_are_the_wal_files(stem, head, name);
        let (rest, out) = (segments(head), segments(names));
        assert(names.contains(name) <==> head.contains(name) || names.last() == name) by {
            if names.contains(name) {
                let i = choose|i: int| 0 <= i < names.len() && names[i] == name;
                if i < head.len() {
                    assert(head[i] == name);
                }
            }
            if head.contains(name) {
                let i = choose|i: int| 0 <= i < head.len() && head[i] == name;
                assert(names[i] == name);
            }
            assert(names[names.len() - 1] == names.last());
        }
        if is_segment(names.last()@) {
            assert(out == rest.push(names.last()));
            if out.contains(name) {
                let i = choose|i: int| 0 <= i < out.len() && out[i] == name;
                if i < rest.len() {
                    assert(rest[i] == name);
                }
            }
            if rest.contains(name) {
                let i = choose|i: int| 0 <= i < rest.len() && rest[i] == name;
                assert(out[i] == name);
            }
            assert(out[out.len() - 1] == names.last());
        }
    }
}

/// Pieces of a stream wait in order until they are decoded, and every byte read is counted, whether the
/// stream comes in one piece or in two.
pub proof fn law_pieces_read_as_one(s: ScanView, a: Seq<u8>, b: Seq<u8>)
    requires
        !is_bad(s.pending + a, s.format),
        s.total + a.len() + b.len() <= u64::MAX,
    ensures
        ({
            let one = after_read(s, a + b);
            let two = after_read(after_read(s, a), b);
            &&& two == one
            &&& two.total == s.total + a.len() + b.len()
            &&& !is_bad(s.pending + a + b, s.format) ==> two.pending == s.pending + a + b
            &&& two.records == s.records
        }),
{
    assert(s.pending + (a + b) =~= s.pending + a + b);
}

/// What several scans found is added up field by field.
pub proof fn law_scan_totals_add_up(a: Seq<ScanStats>, s: ScanStats)
    requires
        total_of(a).0 + s.records <= u64::MAX,
        total_of(a).1 + s.payload_bytes <= u64::MAX,
        total_of(a).2 + s.dirty_tail_bytes <= u64::MAX,
    ensures
        total_of(a.push(s)).0 == total_of(a).0 + s.records,
        total_of(a.push(s)).1 == total_of(a).1 + s.payload_bytes,
        total_of(a.push(s)).2 == total_of(a).2 + s.dirty_tail_bytes,
        total_of(Seq::empty()) == (0u64, 0u64, 0u64),
{
    assert(a.push(s).drop_last() =~= a);
}

/// A scan is summed up from its records: how many there are, the bytes of their payloads together, every byte
/// read, and as dirty what waits undecoded, or what was dropped at damage.
#[verifier::rlimit(60)]
pub proof fn law_scan_is_summed_up(s: ScanView, rec: crate::wal::WalRecord)
    requires
        s.records.len() < u64::MAX,
        payload_total(s.records) + rec.payload@.len() <= u64::MAX,
        s.pending.len() <= u64::MAX,
    ensures
        scan_stats(s).records == s.records.len(),
        scan_stats(s).total_bytes == s.total,
        scan_stats(s).payload_bytes == payload_total(s.records),
        payload_total(s.records.push(rec)) == payload_total(s.records) + rec.payload@.len(),
        payload_total(Seq::empty()) == 0,
        s.pending.len() > 0 ==> scan_stats(s).dirty_tail_bytes == s.pending.len(),
        s.pending.len() == 0 && s.stopped_at is None ==> scan_stats(s).dirty_tail_bytes == 0,
        scan_stats(s).stopped_early <==> s.stopped_at is Some || s.pending.len() >= 64 && (s.pending[0] * 256 + s.pending[1] != s.format.magic
            || s.pending[2] != s.format.version),
{
    assert(s.records.push(rec).drop_last() =~= s.records);
    if s.pending.len() >= 64 {
        let m = s.pending.take(2);
        assert(m.drop_last().drop_last() =~= Seq::empty());
        assert(m.drop_last().last() == s.pending[0]);
        assert(m.last() == s.pending[1]);
        reveal_with_fuel(from_be, 3);
    }
}

} // verus!
