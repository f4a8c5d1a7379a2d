//! Index plane: table layout, status codes, and the byte form of every key and value.
//!
//! The live plane holds what is still in flight (connection states, open pairs, the pending index
//! and its timeout index). The epoch plane holds history: finished pairs and the secondary indexes,
//! written once and never changed.

use crate::codec::{be, be_words, from_be, lemma_be_injective, lemma_be_len, lemma_be_words_injective, lemma_be_words_len, lemma_from_be_round_trip, lemma_pow256_values, push_be, push_words, read_be, read_words, to_array};
use crate::table::Table;
use crate::text::{
    all_digits, chars_of, copy_range, dec, dec_min, digit_value, digits_number, lemma_dec_parses, parse_unsigned, parsed, part,
    push_dec_min, push_range, str_eq, unsigned_digits,
};
use vstd::prelude::*;
use vstd::string::*;

verus! {

pub const NUM_LIVE_DBIS: usize = 4;

pub const NUM_EPOCH_DBIS: usize = 6;

pub const LIVE_CONN_STATE: usize = 0;

pub const LIVE_QR_PAIR: usize = 1;

pub const LIVE_QR_PENDING: usize = 2;

pub const LIVE_PENDING_TTL: usize = 3;

pub const EPOCH_QR_PAIR: usize = 0;

pub const EPOCH_CONN_QR: usize = 1;

pub const EPOCH_QR_KEY: usize = 2;

pub const EPOCH_QR_TIME: usize = 3;

pub const EPOCH_PACKET_QR: usize = 4;

pub const EPOCH_RECORD_TS: usize = 5;

/// Default size limit of one epoch: 128 MB.
pub const DEFAULT_EPOCH_MAX_BYTES: u64 = 134_217_728;

/// Largest value of a 48-bit field.
pub const U48_MAX: u64 = 0x0000_ffff_ffff_ffff;

/// Outcome of a request/response pair.
#[derive(Debug, Clone, Copy, PartialEq, Eq, Structural)]
pub enum QrStatus {
    Pending,
    Matched,
    Timeout,
    Unmatched,
    RstAbort,
    AbortedResource,
}

impl QrStatus {
    /// The stored code of a status.
    pub open spec fn code(self) -> u8 {
        match self {
            QrStatus::Pending => 0,
            QrStatus::Matched => 1,
            QrStatus::Timeout => 2,
            QrStatus::Unmatched => 3,
            QrStatus::RstAbort => 4,
            QrStatus::AbortedResource => 5,
        }
    }

    /// The printed name of a status.
    pub open spec fn label(self) -> Seq<char> {
        match self {
            QrStatus::Pending => "pending"@,
            QrStatus::Matched => "matched"@,
            QrStatus::Timeout => "timeout"@,
            QrStatus::Unmatched => "unmatched"@,
            QrStatus::RstAbort => "rst_abort"@,
            QrStatus::AbortedResource => "aborted_resource"@,
        }
    }

    /// The stored code of a status.
    pub fn as_u8(self) -> (v: u8)
        ensures
            v == self.code(),
    {
        match self {
            QrStatus::Pending => 0,
            QrStatus::Matched => 1,
            QrStatus::Timeout => 2,
            QrStatus::Unmatched => 3,
            QrStatus::RstAbort => 4,
            QrStatus::AbortedResource => 5,
        }
    }

    /// The status with a given code, if there is one.
    pub fn from_u8(v: u8) -> (r: Option<QrStatus>)
        ensures
            r is Some <==> v <= 5,
            r matches Some(s) ==> s.code() == v,
    {
        match v {
            0 => Some(QrStatus::Pending),
            1 => Some(QrStatus::Matched),
            2 => Some(QrStatus::Timeout),
            3 => Some(QrStatus::Unmatched),
            4 => Some(QrStatus::RstAbort),
            5 => Some(QrStatus::AbortedResource),
            _ => None,
        }
    }

    /// Stable printed name.
    pub fn name(self) -> (s: &'static str)
        ensures
            s@ == self.label(),
    {
        match self {
            QrStatus::Pending => "pending",
            QrStatus::Matched => "matched",
            QrStatus::Timeout => "timeout",
            QrStatus::Unmatched => "unmatched",
            QrStatus::RstAbort => "rst_abort",
            QrStatus::AbortedResource => "aborted_resource",
        }
    }

    /// Reads a status from its printed name, or from one of the short forms `rst` and `aborted`.
    pub fn parse(s: &str) -> (r: Option<QrStatus>)
        ensures
            r == status_named(s@),
    {
        if str_eq(s, "pending") {
            Some(QrStatus::Pending)
        } else if str_eq(s, "matched") {
            Some(QrStatus::Matched)
        } else if str_eq(s, "timeout") {
            Some(QrStatus::Timeout)
        } else if str_eq(s, "unmatched") {
            Some(QrStatus::Unmatched)
        } else if str_eq(s, "rst_abort") || str_eq(s, "rst") {
            Some(QrStatus::RstAbort)
        } else if str_eq(s, "aborted_resource") || str_eq(s, "aborted") {
            Some(QrStatus::AbortedResource)
        } else {
            None
        }
    }
}

/// The status that a name stands for.
pub open spec fn status_named(s: Seq<char>) -> Option<QrStatus> {
    if s == "pending"@ {
        Some(QrStatus::Pending)
    } else if s == "matched"@ {
        Some(QrStatus::Matched)
    } else if s == "timeout"@ {
        Some(QrStatus::Timeout)
    } else if s == "unmatched"@ {
        Some(QrStatus::Unmatched)
    } else if s == "rst_abort"@ || s == "rst"@ {
        Some(QrStatus::RstAbort)
    } else if s == "aborted_resource"@ || s == "aborted"@ {
        Some(QrStatus::AbortedResource)
    } else {
        None
    }
}


/// Appends one byte.
pub fn put_u8(v: &mut Vec<u8>, x: u8)
    ensures
        final(v)@ == old(v)@.push(x),
{
    v.push(x);
}

/// Appends a 16-bit number, big-endian.
pub fn put_u16(v: &mut Vec<u8>, x: u16)
    ensures
        final(v)@ == old(v)@ + be(x as nat, 2),
{
    push_be(v, x as u64, 2);
}

/// Appends a 32-bit number, big-endian.
pub fn put_u32(v: &mut Vec<u8>, x: u32)
    ensures
        final(v)@ == old(v)@ + be(x as nat, 4),
{
    push_be(v, x as u64, 4);
}

/// Appends the low 48 bits of a number, big-endian.
pub fn put_u48(v: &mut Vec<u8>, x: u64)
    ensures
        final(v)@ == old(v)@ + be(x as nat, 6),
{
    push_be(v, x, 6);
}

/// Appends a 64-bit number, big-endian.
pub fn put_u64(v: &mut Vec<u8>, x: u64)
    ensures
        final(v)@ == old(v)@ + be(x as nat, 8),
{
    push_be(v, x, 8);
}

/// What a reader of `n` bytes does at position `o`: it takes the number and moves on, or stays where it is.
pub open spec fn takes(b: Seq<u8>, o: usize, n: nat, r: Option<nat>, o2: usize) -> bool {
    if o + n <= b.len() {
        r == Some(from_be(b.subrange(o as int, o + n))) && o2 == o + n
    } else {
        r is None && o2 == o
    }
}

/// A result widened to a natural number.
pub open spec fn widen<T: Integer>(r: Option<T>) -> Option<nat> {
    match r {
        Some(x) => Some(x as nat),
        None => None,
    }
}

fn take_be(b: &[u8], o: &mut usize, n: usize) -> (r: Option<u64>)
    requires
        n <= 8,
    ensures
        takes(b@, *old(o), n as nat, widen(r), *final(o)),
        r matches Some(x) ==> be(x as nat, n as nat) == b@.subrange(*old(o) as int, *old(o) + n),
{
    let at: usize = *o;
    if at > b.len() || b.len() - at < n {
        return None;
    }
    let x: u64 = read_be(b, at, at + n);
    *o = at + n;
    proof {
        lemma_from_be_round_trip(b@.subrange(at as int, at + n));
    }
    Some(x)
}

/// Takes one byte.
pub fn take_u8(b: &[u8], o: &mut usize) -> (r: Option<u8>)
    ensures
        *old(o) < b@.len() ==> r == Some(b@[*old(o) as int]) && *final(o) == *old(o) + 1,
        *old(o) >= b@.len() ==> r is None && *final(o) == *old(o),
{
    let at: usize = *o;
    if at >= b.len() {
        return None;
    }
    *o = at + 1;
    Some(b[at])
}

/// Takes a 16-bit big-endian number.
pub fn take_u16(b: &[u8], o: &mut usize) -> (r: Option<u16>)
    ensures
        takes(b@, *old(o), 2, widen(r), *final(o)),
{
    proof {
        lemma_pow256_values();
        if *o + 2 <= b@.len() {
            lemma_from_be_round_trip(b@.subrange(*o as int, *o + 2));
        }
    }
    match take_be(b, o, 2) {
        Some(x) => Some(x as u16),
        None => None,
    }
}

/// Takes a 32-bit big-endian number.
pub fn take_u32(b: &[u8], o: &mut usize) -> (r: Option<u32>)
    ensures
        takes(b@, *old(o), 4, widen(r), *final(o)),
{
    proof {
        lemma_pow256_values();
        if *o + 4 <= b@.len() {
            lemma_from_be_round_trip(b@.subrange(*o as int, *o + 4));
        }
    }
    match take_be(b, o, 4) {
        Some(x) => Some(x as u32),
        None => None,
    }
}

/// Takes a 48-bit big-endian number.
pub fn take_u48(b: &[u8], o: &mut usize) -> (r: Option<u64>)
    ensures
        takes(b@, *old(o), 6, widen(r), *final(o)),
{
    take_be(b, o, 6)
}

/// Takes a 64-bit big-endian number.
pub fn take_u64(b: &[u8], o: &mut usize) -> (r: Option<u64>)
    ensures
        takes(b@, *old(o), 8, widen(r), *final(o)),
{
    take_be(b, o, 8)
}

/// Key of a connection state: `[conn_hash:8]`.
pub fn k_conn_state(conn_hash: u64) -> (k: [u8; 8])
    ensures
        k@ == be(conn_hash as nat, 8),
{
    word_key(conn_hash)
}

/// Key of a pair: `[q_first_idx:8]`.
pub fn k_qr_pair(q_first_idx: u64) -> (k: [u8; 8])
    ensures
        k@ == be(q_first_idx as nat, 8),
{
    word_key(q_first_idx)
}

fn word_key(x: u64) -> (k: [u8; 8])
    ensures
        k@ == be(x as nat, 8),
{
    let mut v: Vec<u8> = Vec::new();
    push_be(&mut v, x, 8);
    proof {
        lemma_be_len(x as nat, 8);
        assert(v@ =~= be(x as nat, 8));
    }
    to_array(&v)
}

/// Bytes of a pending key: connection, incarnation, end of the request in the stream.
pub open spec fn pending_key(conn_hash: u64, incarnation: u16, abs_q_end: u64) -> Seq<u8> {
    be(conn_hash as nat, 8) + be(incarnation as nat, 2) + be(abs_q_end as nat, 6)
}

/// Bytes that all pending keys of one incarnation start with.
pub open spec fn pending_prefix(conn_hash: u64, incarnation: u16) -> Seq<u8> {
    be(conn_hash as nat, 8) + be(incarnation as nat, 2)
}

/// Key of a pending request: `[conn_hash:8][incarnation:2][abs_q_end:6]`. The incarnation is part of
/// the prefix, so a scan of one incarnation cannot reach the requests of another.
pub fn k_qr_pending(conn_hash: u64, incarnation: u16, abs_q_end: u64) -> (k: [u8; 16])
    ensures
        k@ == pending_key(conn_hash, incarnation, abs_q_end),
{
    let mut v: Vec<u8> = Vec::new();
    push_be(&mut v, conn_hash, 8);
    push_be(&mut v, incarnation as u64, 2);
    push_be(&mut v, abs_q_end, 6);
    proof {
        lemma_be_len(conn_hash as nat, 8);
        lemma_be_len(incarnation as nat, 2);
        lemma_be_len(abs_q_end as nat, 6);
        assert(v@ =~= pending_key(conn_hash, incarnation, abs_q_end));
    }
    to_array(&v)
}

/// Start of the pending keys of one incarnation.
pub fn k_qr_pending_prefix(conn_hash: u64, incarnation: u16) -> (k: [u8; 10])
    ensures
        k@ == pending_prefix(conn_hash, incarnation),
{
    let mut v: Vec<u8> = Vec::new();
    push_be(&mut v, conn_hash, 8);
    push_be(&mut v, incarnation as u64, 2);
    proof {
        lemma_be_len(conn_hash as nat, 8);
        lemma_be_len(incarnation as nat, 2);
        assert(v@ =~= pending_prefix(conn_hash, incarnation));
    }
    to_array(&v)
}

/// Key of the per-connection index: `[conn_hash:8][q_ts:8][q_first_idx:8]`.
pub fn k_conn_qr(conn_hash: u64, q_ts: u64, q_first_idx: u64) -> (k: Vec<u8>)
    ensures
        k@ == be_words(seq![conn_hash, q_ts, q_first_idx]),
{
    let words: Vec<u64> = vec![conn_hash, q_ts, q_first_idx];
    let mut v: Vec<u8> = Vec::with_capacity(24);
    push_words(&mut v, &words);
    assert(words@ =~= seq![conn_hash, q_ts, q_first_idx]);
    assert(v@ =~= be_words(words@));
    v
}

/// Key of the request-key index: `[reqkey_hash:8][q_ts:8][q_first_idx:8]`.
pub fn k_qr_key(reqkey_hash: u64, q_ts: u64, q_first_idx: u64) -> (k: Vec<u8>)
    ensures
        k@ == be_words(seq![reqkey_hash, q_ts, q_first_idx]),
{
    k_conn_qr(reqkey_hash, q_ts, q_first_idx)
}

fn pair_key(a: u64, b: u64) -> (k: Vec<u8>)
    ensures
        k@ == be_words(seq![a, b]),
        k@.len() == 16,
{
    let words: Vec<u64> = vec![a, b];
    let mut v: Vec<u8> = Vec::with_capacity(16);
    push_words(&mut v, &words);
    assert(words@ =~= seq![a, b]);
    assert(v@ =~= be_words(words@));
    proof {
        lemma_be_words_len(words@);
    }
    v
}

/// Key of the time index: `[q_ts:8][q_first_idx:8]`.
pub fn k_qr_time(q_ts: u64, q_first_idx: u64) -> (k: Vec<u8>)
    ensures
        k@ == be_words(seq![q_ts, q_first_idx]),
{
    pair_key(q_ts, q_first_idx)
}

/// Key of the packet index: `[packet_idx:8]`.
pub fn k_packet_qr(packet_idx: u64) -> (k: [u8; 8])
    ensures
        k@ == be(packet_idx as nat, 8),
{
    word_key(packet_idx)
}

/// Key of the timeout index: `[q_ts:8][conn_hash:8]`.
pub fn k_pending_ttl(q_ts: u64, conn_hash: u64) -> (k: Vec<u8>)
    ensures
        k@ == be_words(seq![q_ts, conn_hash]),
{
    pair_key(q_ts, conn_hash)
}

/// Key of the record index: `[ts_ns:8][packet_idx:8]`.
pub fn k_record_ts(ts_ns: u64, packet_idx: u64) -> (k: [u8; 16])
    ensures
        k@ == be_words(seq![ts_ns, packet_idx]),
{
    let v = pair_key(ts_ns, packet_idx);
    to_array(&v)
}

/// Digest of one record, as kept in the record index.
#[derive(Debug, Clone, Copy, PartialEq, Eq)]
pub struct RecordSummary {
    pub proto: u8,
    pub flags: u8,
    pub src_ip: u32,
    pub dst_ip: u32,
    pub sport: u16,
    pub dport: u16,
    pub len: u32,
}

impl View for RecordSummary {
    type V = RecordSummary;

    open spec fn view(&self) -> RecordSummary {
        *self
    }
}

impl Default for RecordSummary {
    fn default() -> (s: RecordSummary)
        ensures
            s == (RecordSummary { proto: 0, flags: 0, src_ip: 0, dst_ip: 0, sport: 0, dport: 0, len: 0 }),
    {
        RecordSummary { proto: 0, flags: 0, src_ip: 0, dst_ip: 0, sport: 0, dport: 0, len: 0 }
    }
}

/// The 18 bytes of a record digest.
pub open spec fn summary_bytes(s: RecordSummary) -> Seq<u8> {
    be(s.proto as nat, 1) + be(s.flags as nat, 1) + be(s.src_ip as nat, 4) + be(s.dst_ip as nat, 4) + be(s.sport as nat, 2)
        + be(s.dport as nat, 2) + be(s.len as nat, 4)
}

proof fn lemma_summary_len(s: RecordSummary)
    ensures
        summary_bytes(s).len() == 18,
        summary_bytes(s).subrange(0, 1) == be(s.proto as nat, 1),
        summary_bytes(s).subrange(1, 2) == be(s.flags as nat, 1),
        summary_bytes(s).subrange(2, 6) == be(s.src_ip as nat, 4),
        summary_bytes(s).subrange(6, 10) == be(s.dst_ip as nat, 4),
        summary_bytes(s).subrange(10, 12) == be(s.sport as nat, 2),
        summary_bytes(s).subrange(12, 14) == be(s.dport as nat, 2),
        summary_bytes(s).subrange(14, 18) == be(s.len as nat, 4),
{
    lemma_be_len(s.proto as nat, 1);
    lemma_be_len(s.flags as nat, 1);
    lemma_be_len(s.src_ip as nat, 4);
    lemma_be_len(s.dst_ip as nat, 4);
    lemma_be_len(s.sport as nat, 2);
    lemma_be_len(s.dport as nat, 2);
    lemma_be_len(s.len as nat, 4);
}

/// Serializes a record digest.
pub fn v_record_summary_encode(s: &RecordSummary) -> (v: [u8; 18])
    ensures
        v@ == summary_bytes(*s),
{
    let mut v: Vec<u8> = Vec::new();
    push_be(&mut v, s.proto as u64, 1);
    push_be(&mut v, s.flags as u64, 1);
    push_be(&mut v, s.src_ip as u64, 4);
    push_be(&mut v, s.dst_ip as u64, 4);
    push_be(&mut v, s.sport as u64, 2);
    push_be(&mut v, s.dport as u64, 2);
    push_be(&mut v, s.len as u64, 4);
    proof {
        assert(v@ =~= summary_bytes(*s));
        lemma_summary_len(*s);
    }
    to_array(&v)
}

/// Reads a record digest back; any length but 18 is refused.
pub fn v_record_summary_decode(b: &[u8]) -> (r: Option<RecordSummary>)
    ensures
        r is Some <==> b@.len() == 18,
        r matches Some(s) ==> summary_bytes(s) == b@,
{
    if b.len() != 18 {
        return None;
    }
    let s = RecordSummary {
        proto: read_be(b, 0, 1) as u8,
        flags: read_be(b, 1, 2) as u8,
        src_ip: read_be(b, 2, 6) as u32,
        dst_ip: read_be(b, 6, 10) as u32,
        sport: read_be(b, 10, 12) as u16,
        dport: read_be(b, 12, 14) as u16,
        len: read_be(b, 14, 18) as u32,
    };
    proof {
        lemma_pow256_values();
        lemma_from_be_round_trip(b@.subrange(0, 1));
        lemma_from_be_round_trip(b@.subrange(1, 2));
        lemma_from_be_round_trip(b@.subrange(2, 6));
        lemma_from_be_round_trip(b@.subrange(6, 10));
        lemma_from_be_round_trip(b@.subrange(10, 12));
        lemma_from_be_round_trip(b@.subrange(12, 14));
        lemma_from_be_round_trip(b@.subrange(14, 18));
        assert(summary_bytes(s) =~= b@);
    }
    Some(s)
}

/// A record digest is determined by its bytes, so decoding gives back what was encoded.
pub proof fn law_summary_round_trip(a: RecordSummary, b: RecordSummary)
    requires
        summary_bytes(a) == summary_bytes(b),
    ensures
        a == b,
{
    lemma_summary_len(a);
    lemma_summary_len(b);
    lemma_pow256_values();
    lemma_be_injective(a.proto as nat, b.proto as nat, 1);
    lemma_be_injective(a.flags as nat, b.flags as nat, 1);
    lemma_be_injective(a.src_ip as nat, b.src_ip as nat, 4);
    lemma_be_injective(a.dst_ip as nat, b.dst_ip as nat, 4);
    lemma_be_injective(a.sport as nat, b.sport as nat, 2);
    lemma_be_injective(a.dport as nat, b.dport as nat, 2);
    lemma_be_injective(a.len as nat, b.len as nat, 4);
}

/// The 20 bytes of a pending value: locator, time and length of the request.
pub open spec fn pending_value(q_first_idx: u64, q_ts: u64, q_len: u32) -> Seq<u8> {
    be(q_first_idx as nat, 8) + be(q_ts as nat, 8) + be(q_len as nat, 4)
}

proof fn lemma_pending_value(a: u64, b: u64, c: u32)
    ensures
        pending_value(a, b, c).len() == 20,
        pending_value(a, b, c).subrange(0, 8) == be(a as nat, 8),
        pending_value(a, b, c).subrange(8, 16) == be(b as nat, 8),
        pending_value(a, b, c).subrange(16, 20) == be(c as nat, 4),
{
    lemma_be_len(a as nat, 8);
    lemma_be_len(b as nat, 8);
    lemma_be_len(c as nat, 4);
}

/// Serializes a pending value.
pub fn v_qr_pending_encode(q_first_idx: u64, q_ts: u64, q_len: u32) -> (v: [u8; 20])
    ensures
        v@ == pending_value(q_first_idx, q_ts, q_len),
{
    let mut v: Vec<u8> = Vec::new();
    push_be(&mut v, q_first_idx, 8);
    push_be(&mut v, q_ts, 8);
    push_be(&mut v, q_len as u64, 4);
    proof {
        assert(v@ =~= pending_value(q_first_idx, q_ts, q_len));
        lemma_pending_value(q_first_idx, q_ts, q_len);
    }
    to_array(&v)
}

/// Reads a pending value back; any length but 20 is refused.
pub fn v_qr_pending_decode(b: &[u8]) -> (r: Option<(u64, u64, u32)>)
    ensures
        r is Some <==> b@.len() == 20,
        r matches Some(t) ==> pending_value(t.0, t.1, t.2) == b@,
{
    if b.len() != 20 {
        return None;
    }
    let q_first_idx: u64 = read_be(b, 0, 8);
    let q_ts: u64 = read_be(b, 8, 16);
    let q_len: u32 = read_be(b, 16, 20) as u32;
    proof {
        lemma_pow256_values();
        lemma_from_be_round_trip(b@.subrange(0, 8));
        lemma_from_be_round_trip(b@.subrange(8, 16));
        lemma_from_be_round_trip(b@.subrange(16, 20));
        assert(pending_value(q_first_idx, q_ts, q_len) =~= b@);
    }
    Some((q_first_idx, q_ts, q_len))
}

/// Value of a secondary index row: the locator of its request, written once.
pub fn v_secondary_encode(q_first_idx: u64) -> (v: [u8; 8])
    ensures
        v@ == be(q_first_idx as nat, 8),
{
    word_key(q_first_idx)
}

/// Reads a secondary value back; any length but 8 is refused.
pub fn v_secondary_decode(b: &[u8]) -> (r: Option<u64>)
    ensures
        r is Some <==> b@.len() == 8,
        r matches Some(x) ==> be(x as nat, 8) == b@,
{
    crate::id::from_bytes(b)
}

/// Value of a packet index row: the locator of the owning request.
pub fn v_packet_qr_encode(q_first_idx: u64) -> (v: [u8; 8])
    ensures
        v@ == be(q_first_idx as nat, 8),
{
    word_key(q_first_idx)
}

/// Reads a packet value back; any length but 8 is refused.
pub fn v_packet_qr_decode(b: &[u8]) -> (r: Option<u64>)
    ensures
        r is Some <==> b@.len() == 8,
        r matches Some(x) ==> be(x as nat, 8) == b@,
{
    crate::id::from_bytes(b)
}

/// The 14 bytes of a timeout value: locator of the request and its end in the stream.
pub open spec fn ttl_value(q_first_idx: u64, abs_q_end: u64) -> Seq<u8> {
    be(q_first_idx as nat, 8) + be(abs_q_end as nat, 6)
}

proof fn lemma_ttl_value(a: u64, b: u64)
    ensures
        ttl_value(a, b).len() == 14,
        ttl_value(a, b).subrange(0, 8) == be(a as nat, 8),
        ttl_value(a, b).subrange(8, 14) == be(b as nat, 6),
{
    lemma_be_len(a as nat, 8);
    lemma_be_len(b as nat, 6);
}

/// Serializes a timeout value; the end keeps its low 48 bits.
pub fn v_pending_ttl_encode(q_first_idx: u64, abs_q_end: u64) -> (v: Vec<u8>)
    ensures
        v@ == ttl_value(q_first_idx, abs_q_end),
{
    let mut v: Vec<u8> = Vec::with_capacity(14);
    put_u64(&mut v, q_first_idx);
    put_u48(&mut v, abs_q_end);
    assert(v@ =~= ttl_value(q_first_idx, abs_q_end));
    v
}

/// Reads a timeout value back; any length but 14 is refused.
pub fn v_pending_ttl_decode(b: &[u8]) -> (r: Option<(u64, u64)>)
    ensures
        r is Some <==> b@.len() == 14,
        r matches Some(t) ==> ttl_value(t.0, t.1) == b@ && t.1 <= U48_MAX,
{
    if b.len() != 14 {
        return None;
    }
    let q_first_idx: u64 = read_be(b, 0, 8);
    let abs_q_end: u64 = read_be(b, 8, 14);
    proof {
        lemma_pow256_values();
        lemma_from_be_round_trip(b@.subrange(0, 8));
        lemma_from_be_round_trip(b@.subrange(8, 14));
        assert(ttl_value(q_first_idx, abs_q_end) =~= b@);
    }
    Some((q_first_idx, abs_q_end))
}

/// Pending and timeout values are determined by their bytes.
pub proof fn law_pending_value_round_trip(a: (u64, u64, u32), b: (u64, u64, u32))
    requires
        pending_value(a.0, a.1, a.2) == pending_value(b.0, b.1, b.2),
    ensures
        a == b,
{
    lemma_pending_value(a.0, a.1, a.2);
    lemma_pending_value(b.0, b.1, b.2);
    lemma_pow256_values();
    lemma_be_injective(a.0 as nat, b.0 as nat, 8);
    lemma_be_injective(a.1 as nat, b.1 as nat, 8);
    lemma_be_injective(a.2 as nat, b.2 as nat, 4);
}

/// A timeout value gives back the request that it was written for.
pub proof fn law_ttl_value_round_trip(a: (u64, u64), b: (u64, u64))
    requires
        ttl_value(a.0, a.1) == ttl_value(b.0, b.1),
        a.1 <= U48_MAX,
        b.1 <= U48_MAX,
    ensures
        a == b,
{
    lemma_ttl_value(a.0, a.1);
    lemma_ttl_value(b.0, b.1);
    lemma_pow256_values();
    lemma_be_injective(a.0 as nat, b.0 as nat, 8);
    lemma_be_injective(a.1 as nat, b.1 as nat, 6);
}

/// One request with its response: the row that every index points at.
#[derive(Debug, Clone, PartialEq, Eq)]
pub struct QrPairValue {
    pub status: u8,
    pub conn_hash: u64,
    pub q_ts: u64,
    pub r_ts: u64,
    pub latency_ms: u64,
    pub q_len: u32,
    pub r_len: u32,
    pub abs_q_seq: u64,
    pub abs_q_end: u64,
    pub pseudo: u8,
    pub q_idx: Vec<u64>,
    pub r_idx: Vec<u64>,
    pub req_key: Vec<u8>,
    pub resp_key: Vec<u8>,
}

/// What a pair holds.
#[verifier::ext_equal]
pub struct QrPairView {
    pub status: u8,
    pub conn_hash: u64,
    pub q_ts: u64,
    pub r_ts: u64,
    pub latency_ms: u64,
    pub q_len: u32,
    pub r_len: u32,
    pub abs_q_seq: u64,
    pub abs_q_end: u64,
    pub pseudo: u8,
    pub q_idx: Seq<u64>,
    pub r_idx: Seq<u64>,
    pub req_key: Seq<u8>,
    pub resp_key: Seq<u8>,
}

impl View for QrPairValue {
    type V = QrPairView;

    open spec fn view(&self) -> QrPairView {
        QrPairView {
            status: self.status,
            conn_hash: self.conn_hash,
            q_ts: self.q_ts,
            r_ts: self.r_ts,
            latency_ms: self.latency_ms,
            q_len: self.q_len,
            r_len: self.r_len,
            abs_q_seq: self.abs_q_seq,
            abs_q_end: self.abs_q_end,
            pseudo: self.pseudo,
            q_idx: self.q_idx@,
            r_idx: self.r_idx@,
            req_key: self.req_key@,
            resp_key: self.resp_key@,
        }
    }
}

impl Default for QrPairValue {
    fn default() -> (p: QrPairValue)
        ensures
            p@ == (QrPairView {
                status: 0,
                conn_hash: 0,
                q_ts: 0,
                r_ts: 0,
                latency_ms: 0,
                q_len: 0,
                r_len: 0,
                abs_q_seq: 0,
                abs_q_end: 0,
                pseudo: 0,
                q_idx: Seq::empty(),
                r_idx: Seq::empty(),
                req_key: Seq::empty(),
                resp_key: Seq::empty(),
            }),
    {
        QrPairValue {
            status: 0,
            conn_hash: 0,
            q_ts: 0,
            r_ts: 0,
            latency_ms: 0,
            q_len: 0,
            r_len: 0,
            abs_q_seq: 0,
            abs_q_end: 0,
            pseudo: 0,
            q_idx: Vec::new(),
            r_idx: Vec::new(),
            req_key: Vec::new(),
            resp_key: Vec::new(),
        }
    }
}

/// The 58 bytes before the counts.
pub open spec fn pair_head(p: QrPairView) -> Seq<u8> {
    be(p.status as nat, 1) + be_words(seq![p.conn_hash, p.q_ts, p.r_ts, p.latency_ms]) + be(p.q_len as nat, 4) + be(
        p.r_len as nat,
        4,
    ) + be_words(seq![p.abs_q_seq, p.abs_q_end]) + be(p.pseudo as nat, 1)
}

/// The serialized form of a pair: head, two 16-bit counts, the two locator lists, and the two keys
/// each behind its 32-bit length.
pub open spec fn pair_bytes(p: QrPairView) -> Seq<u8> {
    pair_head(p) + be(p.q_idx.len(), 2) + be(p.r_idx.len(), 2) + be_words(p.q_idx) + be_words(p.r_idx) + be(p.req_key.len(), 4) + p.req_key
        + be(p.resp_key.len(), 4) + p.resp_key
}

/// The lists and keys are short enough for their counts.
pub open spec fn pair_fits(p: QrPairView) -> bool {
    &&& p.q_idx.len() < 0x1_0000
    &&& p.r_idx.len() < 0x1_0000
    &&& p.req_key.len() < 0x1_0000_0000
    &&& p.resp_key.len() < 0x1_0000_0000
}

proof fn lemma_pair_head(p: QrPairView)
    ensures
        pair_head(p).len() == 58,
        pair_head(p).subrange(0, 1) == be(p.status as nat, 1),
        pair_head(p).subrange(1, 33) == be_words(seq![p.conn_hash, p.q_ts, p.r_ts, p.latency_ms]),
        pair_head(p).subrange(33, 37) == be(p.q_len as nat, 4),
        pair_head(p).subrange(37, 41) == be(p.r_len as nat, 4),
        pair_head(p).subrange(41, 57) == be_words(seq![p.abs_q_seq, p.abs_q_end]),
        pair_head(p).subrange(57, 58) == be(p.pseudo as nat, 1),
{
    lemma_be_len(p.status as nat, 1);
    lemma_be_words_len(seq![p.conn_hash, p.q_ts, p.r_ts, p.latency_ms]);
    lemma_be_len(p.q_len as nat, 4);
    lemma_be_len(p.r_len as nat, 4);
    lemma_be_words_len(seq![p.abs_q_seq, p.abs_q_end]);
    lemma_be_len(p.pseudo as nat, 1);
}

/// Where each part of a serialized pair lies.
proof fn lemma_pair_parts(p: QrPairView)
    ensures
        ({
            let b = pair_bytes(p);
            let qe: int = 62 + 8 * p.q_idx.len() as int;
            let re: int = qe + 8 * p.r_idx.len() as int;
            let ke: int = re + 4 + p.req_key.len() as int;
            &&& b.len() == ke + 4 + p.resp_key.len()
            &&& b.subrange(0, 58) == pair_head(p)
            &&& b.subrange(58, 60) == be(p.q_idx.len(), 2)
            &&& b.subrange(60, 62) == be(p.r_idx.len(), 2)
            &&& b.subrange(62, qe) == be_words(p.q_idx)
            &&& b.subrange(qe, re) == be_words(p.r_idx)
            &&& b.subrange(re, re + 4) == be(p.req_key.len(), 4)
            &&& b.subrange(re + 4, ke) == p.req_key
            &&& b.subrange(ke, ke + 4) == be(p.resp_key.len(), 4)
            &&& b.subrange(ke + 4, b.len() as int) == p.resp_key
        }),
{
    lemma_pair_head(p);
    lemma_be_len(p.q_idx.len(), 2);
    lemma_be_len(p.r_idx.len(), 2);
    lemma_be_words_len(p.q_idx);
    lemma_be_words_len(p.r_idx);
    lemma_be_len(p.req_key.len(), 4);
    lemma_be_len(p.resp_key.len(), 4);
    let b = pair_bytes(p);
    let qe: int = 62 + 8 * p.q_idx.len() as int;
    let re: int = qe + 8 * p.r_idx.len() as int;
    let ke: int = re + 4 + p.req_key.len() as int;
    assert(b.subrange(0, 58) =~= pair_head(p));
    assert(b.subrange(58, 60) =~= be(p.q_idx.len(), 2));
    assert(b.subrange(60, 62) =~= be(p.r_idx.len(), 2));
    assert(b.subrange(62, qe) =~= be_words(p.q_idx));
    assert(b.subrange(qe, re) =~= be_words(p.r_idx));
    assert(b.subrange(re, re + 4) =~= be(p.req_key.len(), 4));
    assert(b.subrange(re + 4, ke) =~= p.req_key);
    assert(b.subrange(ke, ke + 4) =~= be(p.resp_key.len(), 4));
    assert(b.subrange(ke + 4, b.len() as int) =~= p.resp_key);
}

/// Two pairs that fit their counts and share their bytes are the same pair, so decoding gives back
/// what was encoded.
pub proof fn law_pair_round_trip(p: QrPairView, q: QrPairView)
    requires
        pair_fits(p),
        pair_fits(q),
        pair_bytes(p) == pair_bytes(q),
    ensures
        p == q,
{
    lemma_pair_parts(p);
    lemma_pair_parts(q);
    lemma_pair_head(p);
    lemma_pair_head(q);
    lemma_pow256_values();
    lemma_be_injective(p.q_idx.len(), q.q_idx.len(), 2);
    lemma_be_injective(p.r_idx.len(), q.r_idx.len(), 2);
    lemma_be_words_injective(p.q_idx, q.q_idx);
    lemma_be_words_injective(p.r_idx, q.r_idx);
    lemma_be_injective(p.req_key.len(), q.req_key.len(), 4);
    lemma_be_injective(p.status as nat, q.status as nat, 1);
    lemma_be_injective(p.q_len as nat, q.q_len as nat, 4);
    lemma_be_injective(p.r_len as nat, q.r_len as nat, 4);
    lemma_be_injective(p.pseudo as nat, q.pseudo as nat, 1);
    let (a, b) = (seq![p.conn_hash, p.q_ts, p.r_ts, p.latency_ms], seq![q.conn_hash, q.q_ts, q.r_ts, q.latency_ms]);
    lemma_be_words_injective(a, b);
    assert(a[0] == b[0] && a[1] == b[1] && a[2] == b[2] && a[3] == b[3]);
    let (c, d) = (seq![p.abs_q_seq, p.abs_q_end], seq![q.abs_q_seq, q.abs_q_end]);
    lemma_be_words_injective(c, d);
    assert(c[0] == d[0] && c[1] == d[1]);
}

/// What any pair with given bytes must look like: its counts are those read at fixed places, and they
/// add up to the length.
proof fn lemma_pair_shape(p: QrPairView, b: Seq<u8>)
    requires
        pair_fits(p),
        pair_bytes(p) == b,
    ensures
        b.len() >= 70,
        p.q_idx.len() == from_be(b.subrange(58, 60)),
        p.r_idx.len() == from_be(b.subrange(60, 62)),
        ({
            let re: int = 62 + 8 * p.q_idx.len() as int + 8 * p.r_idx.len() as int;
            let ke: int = re + 4 + p.req_key.len() as int;
            &&& re + 4 <= b.len()
            &&& p.req_key.len() == from_be(b.subrange(re, re + 4))
            &&& ke + 4 <= b.len()
            &&& p.resp_key.len() == from_be(b.subrange(ke, ke + 4))
            &&& ke + 4 + p.resp_key.len() == b.len()
        }),
{
    lemma_pair_parts(p);
    lemma_pow256_values();
    crate::codec::lemma_be_round_trip(p.q_idx.len(), 2);
    crate::codec::lemma_be_round_trip(p.r_idx.len(), 2);
    crate::codec::lemma_be_round_trip(p.req_key.len(), 4);
    crate::codec::lemma_be_round_trip(p.resp_key.len(), 4);
}

/// Bytes that are no serialized pair.
pub open spec fn no_pair(b: Seq<u8>) -> bool {
    forall|p: QrPairView| pair_fits(p) ==> #[trigger] pair_bytes(p) != b
}

impl QrPairValue {
    /// Serializes the pair.
    pub fn encode(&self) -> (v: Vec<u8>)
        ensures
            v@ == pair_bytes(self@),
    {
        let mut v: Vec<u8> = Vec::new();
        let first: Vec<u64> = vec![self.conn_hash, self.q_ts, self.r_ts, self.latency_ms];
        let second: Vec<u64> = vec![self.abs_q_seq, self.abs_q_end];
        push_be(&mut v, self.status as u64, 1);
        push_words(&mut v, &first);
        put_u32(&mut v, self.q_len);
        put_u32(&mut v, self.r_len);
        push_words(&mut v, &second);
        push_be(&mut v, self.pseudo as u64, 1);
        proof {
            assert(first@ =~= seq![self.conn_hash, self.q_ts, self.r_ts, self.latency_ms]);
            assert(second@ =~= seq![self.abs_q_seq, self.abs_q_end]);
            assert(v@ =~= pair_head(self@));
        }
        push_be(&mut v, self.q_idx.len() as u64, 2);
        push_be(&mut v, self.r_idx.len() as u64, 2);
        push_words(&mut v, &self.q_idx);
        push_words(&mut v, &self.r_idx);
        push_be(&mut v, self.req_key.len() as u64, 4);
        push_range(&mut v, self.req_key.as_slice(), 0, self.req_key.len());
        push_be(&mut v, self.resp_key.len() as u64, 4);
        push_range(&mut v, self.resp_key.as_slice(), 0, self.resp_key.len());
        proof {
            assert(self.req_key@.subrange(0, self.req_key@.len() as int) =~= self.req_key@);
            assert(self.resp_key@.subrange(0, self.resp_key@.len() as int) =~= self.resp_key@);
        }
        v
    }

    /// Reads a pair back. Exactly the serialized pairs are accepted.
    pub fn decode(b: &[u8]) -> (r: Option<QrPairValue>)
        ensures
            r matches Some(p) ==> pair_fits(p@) && pair_bytes(p@) == b@,
            r is None <==> no_pair(b@),
    {
        let n: usize = b.len();
        if n < 62 {
            proof {
                assert forall|p: QrPairView| pair_fits(p) implies #[trigger] pair_bytes(p) != b@ by {
                    if pair_bytes(p) == b@ {
                        lemma_pair_shape(p, b@);
                    }
                }
            }
            return None;
        }
        let qc: usize = read_be(b, 58, 60) as usize;
        let rc: usize = read_be(b, 60, 62) as usize;
        proof {
            lemma_pow256_values();
            lemma_from_be_round_trip(b@.subrange(58, 60));
            lemma_from_be_round_trip(b@.subrange(60, 62));
        }
        let re: usize = 62 + 8 * qc + 8 * rc;
        if n < re || n - re < 4 {
            proof {
                assert forall|p: QrPairView| pair_fits(p) implies #[trigger] pair_bytes(p) != b@ by {
                    if pair_bytes(p) == b@ {
                        lemma_pair_shape(p, b@);
                    }
                }
            }
            return None;
        }
        let kl: u64 = read_be(b, re, re + 4);
        if ((n - re - 4) as u64) < kl || (n - re - 4) as u64 - kl < 4 {
            proof {
                assert forall|p: QrPairView| pair_fits(p) implies #[trigger] pair_bytes(p) != b@ by {
                    if pair_bytes(p) == b@ {
                        lemma_pair_shape(p, b@);
                    }
                }
            }
            return None;
        }
        let ke: usize = re + 4 + kl as usize;
        let rl: u64 = read_be(b, ke, ke + 4);
        if (n - ke - 4) as u64 != rl {
            proof {
                assert forall|p: QrPairView| pair_fits(p) implies #[trigger] pair_bytes(p) != b@ by {
                    if pair_bytes(p) == b@ {
                        lemma_pair_shape(p, b@);
                    }
                }
            }
            return None;
        }
        let first: Vec<u64> = read_words(b, 1, 4);
        let second: Vec<u64> = read_words(b, 41, 2);
        let q_idx: Vec<u64> = read_words(b, 62, qc);
        let r_idx: Vec<u64> = read_words(b, 62 + 8 * qc, rc);
        let p = QrPairValue {
            status: read_be(b, 0, 1) as u8,
            conn_hash: first[0],
            q_ts: first[1],
            r_ts: first[2],
            latency_ms: first[3],
            q_len: read_be(b, 33, 37) as u32,
            r_len: read_be(b, 37, 41) as u32,
            abs_q_seq: second[0],
            abs_q_end: second[1],
            pseudo: read_be(b, 57, 58) as u8,
            q_idx,
            r_idx,
            req_key: copy_range(b, re + 4, ke),
            resp_key: copy_range(b, ke + 4, n),
        };
        proof {
            lemma_from_be_round_trip(b@.subrange(0, 1));
            lemma_from_be_round_trip(b@.subrange(33, 37));
            lemma_from_be_round_trip(b@.subrange(37, 41));
            lemma_from_be_round_trip(b@.subrange(57, 58));
            lemma_from_be_round_trip(b@.subrange(re as int, re + 4));
            lemma_from_be_round_trip(b@.subrange(ke as int, ke + 4));
            assert(first@ =~= seq![p.conn_hash, p.q_ts, p.r_ts, p.latency_ms]);
            assert(second@ =~= seq![p.abs_q_seq, p.abs_q_end]);
            assert(pair_head(p@) =~= b@.subrange(0, 58));
            assert(pair_bytes(p@) =~= b@);
        }
        Some(p)
    }
}

/// Name of the directory of an epoch.
pub open spec fn epoch_label(num: u32) -> Seq<char> {
    "epoch_"@ + dec_min(num as nat, 4)
}

/// The number of the epoch that a directory holds, by its name.
pub open spec fn epoch_number(name: Seq<char>) -> Option<nat> {
    if name.len() >= 6 && name.take(6) == "epoch_"@ {
        parsed(name.skip(6), 10, u32::MAX as nat)
    } else {
        None
    }
}

/// Name of the directory of an epoch.
pub fn epoch_name(num: u32) -> (s: String)
    ensures
        s@ == epoch_label(num),
{
    let mut s = String::from_str("epoch_");
    push_dec_min(&mut s, num as u64, 4);
    s
}

/// The number of the epoch that a directory holds, by its name.
pub fn parse_epoch_name(name: &str) -> (r: Option<u32>)
    ensures
        (match r {
            Some(n) => Some(n as nat),
            None => None,
        }) == epoch_number(name@),
{
    let c = chars_of(name);
    if c.len() < 6 {
        return None;
    }
    let head = part(&c, 0, 6);
    proof {
        reveal_strlit("epoch_");
        assert(head@ =~= name@.take(6));
    }
    if head[0] == 'e' && head[1] == 'p' && head[2] == 'o' && head[3] == 'c' && head[4] == 'h' && head[5] == '_' {
        assert(head@ =~= "epoch_"@);
        let tail = part(&c, 6, c.len());
        assert(tail@ =~= name@.skip(6));
        match parse_unsigned(&tail, 10, 0xffff_ffff) {
            Some(n) => Some(n as u32),
            None => None,
        }
    } else {
        proof {
            let t = "epoch_"@;
            assert(t[0] == 'e' && t[1] == 'p' && t[2] == 'o' && t[3] == 'c' && t[4] == 'h' && t[5] == '_');
        }
        None
    }
}

/// The epochs among the names of a directory, in ascending order.
pub fn epoch_numbers(names: &Vec<String>) -> (r: Vec<u32>)
    ensures
        forall|i: int, j: int| 0 <= i < j < r@.len() ==> (#[trigger] r@[i]) < (#[trigger] r@[j]),
        forall|n: u32| #[trigger] r@.contains(n) <==> exists|i: int| 0 <= i < names@.len() && epoch_number((#[trigger] names@[i])@) == Some(n as nat),
{
    let mut found: Table<u32, bool> = Table::new();
    let mut i: usize = 0;
    while i < names.len()
        invariant
            i <= names@.len(),
            found.wf(),
            forall|n: u32| #[trigger]
                found@.dom().contains(n) <==> exists|j: int| 0 <= j < i && epoch_number((#[trigger] names@[j])@) == Some(n as nat),
        decreases names@.len() - i,
    {
        let ghost before = found@.dom();
        if let Some(n) = parse_epoch_name(names[i].as_str()) {
            found.put(n, true);
        }
        assert forall|n: u32| #[trigger] found@.dom().contains(n) <==> exists|j: int|
            0 <= j < i + 1 && epoch_number((#[trigger] names@[j])@) == Some(n as nat) by {
            if before.contains(n) {
                let j = choose|j: int| 0 <= j < i && epoch_number((#[trigger] names@[j])@) == Some(n as nat);
                assert(0 <= j < i + 1 && epoch_number(names@[j]@) == Some(n as nat));
            }
            if epoch_number(names@[i as int]@) == Some(n as nat) {
                assert(found@.dom().contains(n));
            }
            if exists|j: int| 0 <= j < i + 1 && epoch_number((#[trigger] names@[j])@) == Some(n as nat) {
                let j = choose|j: int| 0 <= j < i + 1 && epoch_number((#[trigger] names@[j])@) == Some(n as nat);
                if j < i {
                    assert(before.contains(n));
                }
            }
        }
        i += 1;
    }
    let r = found.range(&0, &0xffff_ffff);
    proof {
        assert forall|x: int, y: int| 0 <= x < y < r@.len() implies (#[trigger] r@[x]) < (#[trigger] r@[y]) by {
            assert(crate::table::IndexKey::rank(r@[x]) < crate::table::IndexKey::rank(r@[y]));
        }
        assert forall|n: u32| #[trigger] r@.contains(n) <==> found@.dom().contains(n) by {
            if r@.contains(n) {
                let x = choose|x: int| 0 <= x < r@.len() && r@[x] == n;
                assert(found@.dom().contains(r@[x]));
            }
            if found@.dom().contains(n) {
                assert(crate::table::IndexKey::rank(n) <= u32::MAX);
            }
        }
    }
    r
}

/// The epoch that is written to: the highest there is, or the first.
pub fn highest_epoch(names: &Vec<String>) -> (n: u32)
    ensures
        forall|i: int| 0 <= i < names@.len() ==> (epoch_number((#[trigger] names@[i])@) matches Some(k) ==> k <= n),
        n == 0 || exists|i: int| 0 <= i < names@.len() && epoch_number((#[trigger] names@[i])@) == Some(n as nat),
{
    let all = epoch_numbers(names);
    let n: u32 = if all.len() == 0 { 0 } else { all[all.len() - 1] };
    proof {
        assert forall|i: int| 0 <= i < names@.len() implies (epoch_number((#[trigger] names@[i])@) matches Some(k) ==> k <= n) by {
            if let Some(k) = epoch_number(names@[i]@) {
                assert(epoch_number(names@[i]@) == Some((k as u32) as nat));
                assert(all@.contains(k as u32));
                let x = choose|x: int| 0 <= x < all@.len() && all@[x] == k as u32;
                if x < all@.len() - 1 {
                    assert(all@[x] < all@[all@.len() - 1]);
                }
            }
        }
        if all@.len() > 0 {
            assert(all@.contains(n)) by {
                assert(all@[all@.len() - 1] == n);
            }
        }
    }
    n
}

/// Whether an epoch of this size is full.
pub fn epoch_should_rotate(disk_size: u64, epoch_max_bytes: u64) -> (r: bool)
    ensures
        r == (disk_size >= epoch_max_bytes),
{
    disk_size >= epoch_max_bytes
}

proof fn lemma_zeros_parse(k: nat, d: Seq<char>)
    requires
        all_digits(d, 10),
    ensures
        all_digits(Seq::new(k, |i: int| '0') + d, 10),
        digits_number(Seq::new(k, |i: int| '0') + d, 10) == digits_number(d, 10),
    decreases d.len(),
{
    let z = Seq::new(k, |i: int| '0');
    let s = z + d;
    assert forall|i: int| 0 <= i < s.len() implies digit_value(#[trigger] s[i], 10) is Some by {
        if i >= k {
            assert(s[i] == d[i - k]);
        }
    }
    assert(s.drop_last() =~= z + d.drop_last());
    assert(s.last() == d.last());
    if d.len() == 1 {
        assert(d.drop_last() =~= Seq::empty());
        assert(digits_number(d.drop_last(), 10) == 0);
        assert(z + d.drop_last() =~= z);
        lemma_zeros(k);
    } else {
        assert forall|i: int| 0 <= i < d.drop_last().len() implies digit_value(#[trigger] d.drop_last()[i], 10) is Some by {
            assert(d.drop_last()[i] == d[i]);
        }
        lemma_zeros_parse(k, d.drop_last());
    }
}

proof fn lemma_zeros(k: nat)
    ensures
        digits_number(Seq::new(k, |i: int| '0'), 10) == 0,
    decreases k,
{
    let z = Seq::new(k, |i: int| '0');
    if k > 0 {
        assert(z.drop_last() =~= Seq::new((k - 1) as nat, |i: int| '0'));
        lemma_zeros((k - 1) as nat);
    }
}

/// An epoch is found again by the name of its directory.
pub proof fn law_epoch_name_round_trip(num: u32)
    ensures
        epoch_number(epoch_label(num)) == Some(num as nat),
{
    reveal_strlit("epoch_");
    let t = dec_min(num as nat, 4);
    let d = dec(num as nat);
    lemma_dec_parses(num as nat);
    assert(epoch_label(num).take(6) =~= "epoch_"@);
    assert(epoch_label(num).skip(6) =~= t);
    if d.len() < 4 {
        lemma_zeros_parse((4 - d.len()) as nat, d);
    }
    assert(t[0] != '+') by {
        assert(48 <= d[0] as u32);
    }
    assert(unsigned_digits(t) == t);
}

} // verus!
