//! Protocol binding: recognising a protocol from the first bytes of a payload, and deriving the
//! request key that a pair is filed under.
//!
//! A payload that carries no readable key gets a pseudo key, a hash of its signature: the same
//! signature always gives the same key.

use crate::codec::{be, lemma_be_len, push_be};
use crate::config::MetaBind;
use crate::connection::{fnv, fnv1a64};
use crate::text::{bytes_eq, copy_range, push_range};
use vstd::prelude::*;
use vstd::string::*;

verus! {

/// Protocol of a connection.
#[derive(Debug, Clone, Copy, PartialEq, Eq, Structural)]
pub enum ProtocolKind {
    Unknown,
    Http,
    Tls,
    Dns,
    Json,
    Binary,
}

impl ProtocolKind {
    /// The stored code of a protocol.
    pub open spec fn code(self) -> u8 {
        match self {
            ProtocolKind::Unknown => 0,
            ProtocolKind::Http => 1,
            ProtocolKind::Tls => 2,
            ProtocolKind::Dns => 3,
            ProtocolKind::Json => 4,
            ProtocolKind::Binary => 5,
        }
    }

    /// The protocol with a given code; a code that is not in use stands for an unknown protocol.
    pub open spec fn of_code(v: u8) -> ProtocolKind {
        match v {
            1 => ProtocolKind::Http,
            2 => ProtocolKind::Tls,
            3 => ProtocolKind::Dns,
            4 => ProtocolKind::Json,
            5 => ProtocolKind::Binary,
            _ => ProtocolKind::Unknown,
        }
    }

    /// The stored code of a protocol.
    pub fn as_u8(self) -> (v: u8)
        ensures
            v == self.code(),
    {
        match self {
            ProtocolKind::Unknown => 0,
            ProtocolKind::Http => 1,
            ProtocolKind::Tls => 2,
            ProtocolKind::Dns => 3,
            ProtocolKind::Json => 4,
            ProtocolKind::Binary => 5,
        }
    }

    /// The protocol with a given code.
    pub fn from_u8(v: u8) -> (k: ProtocolKind)
        ensures
            k == ProtocolKind::of_code(v),
    {
        match v {
            1 => ProtocolKind::Http,
            2 => ProtocolKind::Tls,
            3 => ProtocolKind::Dns,
            4 => ProtocolKind::Json,
            5 => ProtocolKind::Binary,
            _ => ProtocolKind::Unknown,
        }
    }

    /// Stable printed name.
    pub fn name(self) -> (s: &'static str)
        ensures
            s@ == match self {
                ProtocolKind::Unknown => "unknown"@,
                ProtocolKind::Http => "http"@,
                ProtocolKind::Tls => "tls"@,
                ProtocolKind::Dns => "dns"@,
                ProtocolKind::Json => "json"@,
                ProtocolKind::Binary => "binary"@,
            },
    {
        match self {
            ProtocolKind::Unknown => "unknown",
            ProtocolKind::Http => "http",
            ProtocolKind::Tls => "tls",
            ProtocolKind::Dns => "dns",
            ProtocolKind::Json => "json",
            ProtocolKind::Binary => "binary",
        }
    }

    /// The protocol that a configured fingerprint names, in either letter case.
    pub fn from_fingerprint(s: &str) -> (r: Option<ProtocolKind>)
        ensures
            r == fingerprint_named(s.spec_bytes()),
    {
        let low = ascii_lower(s.as_bytes());
        if bytes_eq(low.as_slice(), "http".as_bytes()) {
            Some(ProtocolKind::Http)
        } else if bytes_eq(low.as_slice(), "tls".as_bytes()) {
            Some(ProtocolKind::Tls)
        } else if bytes_eq(low.as_slice(), "dns".as_bytes()) {
            Some(ProtocolKind::Dns)
        } else if bytes_eq(low.as_slice(), "json".as_bytes()) {
            Some(ProtocolKind::Json)
        } else if bytes_eq(low.as_slice(), "binary".as_bytes()) {
            Some(ProtocolKind::Binary)
        } else {
            None
        }
    }
}

/// A code survives the way through its protocol.
pub proof fn law_protocol_code_round_trip(k: ProtocolKind)
    ensures
        ProtocolKind::of_code(k.code()) == k,
{
}

/// A byte with an upper-case letter made lower-case.
pub open spec fn lower_byte(b: u8) -> u8 {
    if 65 <= b <= 90 {
        (b + 32) as u8
    } else {
        b
    }
}

/// The protocol named by a fingerprint string.
pub open spec fn fingerprint_named(s: Seq<u8>) -> Option<ProtocolKind> {
    let low = s.map_values(|b: u8| lower_byte(b));
    if low == "http".spec_bytes() {
        Some(ProtocolKind::Http)
    } else if low == "tls".spec_bytes() {
        Some(ProtocolKind::Tls)
    } else if low == "dns".spec_bytes() {
        Some(ProtocolKind::Dns)
    } else if low == "json".spec_bytes() {
        Some(ProtocolKind::Json)
    } else if low == "binary".spec_bytes() {
        Some(ProtocolKind::Binary)
    } else {
        None
    }
}

fn ascii_lower(s: &[u8]) -> (v: Vec<u8>)
    ensures
        v@ == s@.map_values(|b: u8| lower_byte(b)),
{
    let mut v: Vec<u8> = Vec::new();
    let mut i: usize = 0;
    while i < s.len()
        invariant
            i <= s@.len(),
            v@.len() == i,
            forall|j: int| 0 <= j < i ==> #[trigger] v@[j] == lower_byte(s@[j]),
        decreases s@.len() - i,
    {
        let b: u8 = s[i];
        if 65 <= b && b <= 90 {
            v.push(b + 32);
        } else {
            v.push(b);
        }
        i += 1;
    }
    assert(v@ =~= s@.map_values(|b: u8| lower_byte(b)));
    v
}

/// Bytes of a payload that the entropy and the pseudo key look at.
pub const ENTROPY_SAMPLE: usize = 64;

/// Longest signature prefix.
pub const MAGIC_MAX: usize = 4;

/// The first `n` bytes, or all of them if there are fewer.
pub open spec fn first(s: Seq<u8>, n: int) -> Seq<u8> {
    if s.len() <= n {
        s
    } else {
        s.take(n)
    }
}

/// The part of a payload's fingerprint that is exact: its signature prefix and whether a fixed-size
/// protocol header was recognised.
#[derive(Debug, Clone, PartialEq, Eq)]
pub struct Signature {
    pub magic_prefix: Vec<u8>,
    pub has_fixed_header: bool,
}

/// A request key, and whether it is a pseudo key.
#[derive(Debug, Clone)]
pub struct ExtractedKey {
    pub key: Vec<u8>,
    pub pseudo: bool,
}

/// How a connection was bound and what key its request has.
#[derive(Debug, Clone)]
pub struct BindResult {
    /// Identifier of the rule, or -1 where none applies.
    pub meta_bind_id: i64,
    pub protocol_hint: u8,
    pub key: Vec<u8>,
    pub pseudo: bool,
}

/// Fingerprint of a newly bound connection, for the ledger.
#[derive(Debug, Clone)]
pub struct ExtMetaEvent {
    pub conn_hash: u64,
    pub protocol_hint: u8,
    pub dst_port: u16,
    pub magic_prefix: Vec<u8>,
    pub has_fixed_header: bool,
    /// Locator of the packet whose payload was looked at.
    pub packet_idx: u64,
}

/// The fingerprint of a newly bound connection.
#[verifier::ext_equal]
pub struct PrintView {
    pub conn_hash: u64,
    pub protocol_hint: u8,
    pub dst_port: u16,
    pub magic_prefix: Seq<u8>,
    pub has_fixed_header: bool,
    pub packet_idx: u64,
}

impl View for ExtMetaEvent {
    type V = PrintView;

    open spec fn view(&self) -> PrintView {
        PrintView {
            conn_hash: self.conn_hash,
            protocol_hint: self.protocol_hint,
            dst_port: self.dst_port,
            magic_prefix: self.magic_prefix@,
            has_fixed_header: self.has_fixed_header,
            packet_idx: self.packet_idx,
        }
    }
}

/// A list of fingerprints by what they say.
pub open spec fn print_views(v: Seq<ExtMetaEvent>) -> Seq<PrintView> {
    v.map_values(|e: ExtMetaEvent| e@)
}

/// A binding rule with its ledger identifier.
#[derive(Debug, Clone)]
pub struct MetaBindRule {
    pub id: i64,
    pub name: String,
    pub proto: u8,
    pub dst_port: u16,
    pub fingerprint: Option<ProtocolKind>,
    pub extractor: Option<String>,
}

/// Signature prefix and fixed header of a payload.
pub fn signature(payload: &[u8]) -> (s: Signature)
    ensures
        s.magic_prefix@ == first(payload@, 4),
        s.has_fixed_header == (tls_record(payload@) || dns_header(payload@)),
{
    Signature { magic_prefix: prefix(payload, MAGIC_MAX), has_fixed_header: is_tls_record(payload) || is_dns_header(payload) }
}

fn prefix(b: &[u8], n: usize) -> (v: Vec<u8>)
    ensures
        v@ == first(b@, n as int),
{
    let m: usize = if b.len() <= n { b.len() } else { n };
    let v = copy_range(b, 0, m);
    assert(v@ =~= first(b@, n as int));
    v
}

/// A TLS record starts with the handshake type and a version 3 byte, in a header of five bytes.
pub open spec fn tls_record(b: Seq<u8>) -> bool {
    b.len() >= 5 && b[0] == 0x16 && b[1] == 0x03
}

/// Whether a payload starts with a TLS record.
pub fn is_tls_record(b: &[u8]) -> (r: bool)
    ensures
        r == tls_record(b@),
{
    b.len() >= 5 && b[0] == 0x16 && b[1] == 0x03
}

/// The 16-bit number at a position.
pub open spec fn u16_at(b: Seq<u8>, o: int) -> int {
    b[o] * 256 + b[o + 1]
}

/// A plain DNS query or response: opcode zero, one to sixteen questions, at most sixteen additional
/// records.
pub open spec fn dns_header(b: Seq<u8>) -> bool {
    &&& b.len() >= 12
    &&& (b[2] & 0x80 != 0 || b[2] & 0x01 != 0)
    &&& b[2] & 0x78 == 0
    &&& 1 <= u16_at(b, 4) <= 16
    &&& u16_at(b, 10) <= 16
}

/// Whether a payload starts with a DNS header.
pub fn is_dns_header(b: &[u8]) -> (r: bool)
    ensures
        r == dns_header(b@),
{
    if b.len() < 12 {
        return false;
    }
    let qd: u16 = b[4] as u16 * 256 + b[5] as u16;
    let ar: u16 = b[10] as u16 * 256 + b[11] as u16;
    let flags: u8 = b[2];
    (flags & 0x80 != 0 || flags & 0x01 != 0) && flags & 0x78 == 0 && 1 <= qd && qd <= 16 && ar <= 16
}

/// Whether `b` starts with `p`.
pub open spec fn starts(b: Seq<u8>, p: Seq<u8>) -> bool {
    b.len() >= p.len() && b.take(p.len() as int) == p
}

fn starts_with(b: &[u8], p: &str) -> (r: bool)
    ensures
        r == starts(b@, p.spec_bytes()),
{
    let q = p.as_bytes();
    if b.len() < q.len() {
        return false;
    }
    bytes_eq(vstd::slice::slice_subrange(b, 0, q.len()), q)
}

/// A request method or a response line of HTTP.
pub open spec fn http_magic(b: Seq<u8>) -> bool {
    ||| starts(b, "GET ".spec_bytes())
    ||| starts(b, "POST ".spec_bytes())
    ||| starts(b, "PUT ".spec_bytes())
    ||| starts(b, "DELETE ".spec_bytes())
    ||| starts(b, "HEAD ".spec_bytes())
    ||| starts(b, "OPTIONS ".spec_bytes())
    ||| starts(b, "PATCH ".spec_bytes())
    ||| starts(b, "TRACE ".spec_bytes())
    ||| starts(b, "HTTP/1.".spec_bytes())
}

/// Whether a payload starts like HTTP.
pub fn is_http_magic(b: &[u8]) -> (r: bool)
    ensures
        r == http_magic(b@),
{
    starts_with(b, "GET ") || starts_with(b, "POST ") || starts_with(b, "PUT ") || starts_with(b, "DELETE ") || starts_with(b, "HEAD ")
        || starts_with(b, "OPTIONS ") || starts_with(b, "PATCH ") || starts_with(b, "TRACE ") || starts_with(b, "HTTP/1.")
}

/// The protocol of a payload: its first bytes decide, then the port, then the entropy.
pub open spec fn detected(p: Seq<u8>, dst_port: u16, high_entropy: bool) -> ProtocolKind {
    if tls_record(p) {
        ProtocolKind::Tls
    } else if http_magic(p) {
        ProtocolKind::Http
    } else if dns_header(p) {
        ProtocolKind::Dns
    } else if p.len() > 0 && p[0] == 0x7b {
        ProtocolKind::Json
    } else if dst_port == 443 || dst_port == 8443 {
        ProtocolKind::Tls
    } else if dst_port == 53 {
        ProtocolKind::Dns
    } else if dst_port == 80 || dst_port == 8080 {
        ProtocolKind::Http
    } else if p.len() >= 16 && high_entropy {
        ProtocolKind::Binary
    } else {
        ProtocolKind::Unknown
    }
}

/// Detects the protocol of a payload. `high_entropy` says whether its Shannon entropy exceeds four
/// bits per byte.
pub fn detect_protocol(payload: &[u8], dst_port: u16, high_entropy: bool) -> (k: ProtocolKind)
    ensures
        k == detected(payload@, dst_port, high_entropy),
{
    if is_tls_record(payload) {
        return ProtocolKind::Tls;
    }
    if is_http_magic(payload) {
        return ProtocolKind::Http;
    }
    if is_dns_header(payload) {
        return ProtocolKind::Dns;
    }
    if payload.len() > 0 && payload[0] == 0x7b {
        return ProtocolKind::Json;
    }
    if dst_port == 443 || dst_port == 8443 {
        return ProtocolKind::Tls;
    }
    if dst_port == 53 {
        return ProtocolKind::Dns;
    }
    if dst_port == 80 || dst_port == 8080 {
        return ProtocolKind::Http;
    }
    if payload.len() >= 16 && high_entropy {
        return ProtocolKind::Binary;
    }
    ProtocolKind::Unknown
}

/// Position of the first `b` at or after `i`, or the length.
pub open spec fn first_at(s: Seq<u8>, b: u8, i: int) -> int
    decreases s.len() - i,
{
    if i < 0 || i >= s.len() {
        s.len() as int
    } else if s[i] == b {
        i
    } else {
        first_at(s, b, i + 1)
    }
}

/// The first line without its end.
pub open spec fn first_line(p: Seq<u8>) -> Seq<u8> {
    let line = p.take(first_at(p, 10, 0));
    if line.len() > 0 && line.last() == 13 {
        line.drop_last()
    } else {
        line
    }
}

/// The request line of HTTP, at most 256 bytes.
pub open spec fn http_line(p: Seq<u8>) -> Option<Seq<u8>> {
    let line = first(first_line(p), 256);
    if line.len() == 0 {
        None
    } else {
        Some(line)
    }
}

/// An optional byte vector by its contents.
pub open spec fn opt_bytes(r: Option<Vec<u8>>) -> Option<Seq<u8>> {
    match r {
        Some(v) => Some(v@),
        None => None,
    }
}

proof fn lemma_first_at(s: Seq<u8>, b: u8, i: int)
    requires
        0 <= i <= s.len(),
    ensures
        i <= first_at(s, b, i) <= s.len(),
    decreases s.len() - i,
{
    if i < s.len() && s[i] != b {
        lemma_first_at(s, b, i + 1);
    }
}

/// Extracts the HTTP request line.
pub fn http_request_line(payload: &[u8]) -> (r: Option<Vec<u8>>)
    ensures
        opt_bytes(r) == http_line(payload@),
{
    let mut i: usize = 0;
    while i < payload.len() && payload[i] != 10
        invariant
            i <= payload@.len(),
            first_at(payload@, 10, 0) == first_at(payload@, 10, i as int),
        decreases payload@.len() - i,
    {
        i += 1;
    }
    let ghost line = payload@.take(i as int);
    let mut end: usize = i;
    if end > 0 && payload[end - 1] == 13 {
        end = end - 1;
    }
    assert(first_line(payload@) =~= payload@.take(end as int));
    if end > 256 {
        end = 256;
    }
    if end == 0 {
        return None;
    }
    let v = copy_range(payload, 0, end);
    assert(v@ =~= first(first_line(payload@), 256));
    Some(v)
}

/// The server name in the extensions of a client hello, from position `e` up to `end`: the first
/// non-empty host name of a server-name extension, or nothing once the data falls short.
pub open spec fn sni_in(body: Seq<u8>, e: int, end: int) -> Option<Seq<u8>>
    decreases (if e < end { end - e } else { 0 }),
{
    if e < 0 || e + 4 > end || e + 4 > body.len() {
        None
    } else {
        let elen = u16_at(body, e + 2);
        let d = e + 4;
        if u16_at(body, e) != 0 {
            sni_in(body, d + elen, end)
        } else if d + elen > body.len() || elen < 5 {
            None
        } else if body[d + 2] != 0 {
            sni_in(body, d + elen, end)
        } else {
            let nlen = u16_at(body, d + 3);
            if 5 + nlen > elen {
                None
            } else if nlen > 0 {
                Some(body.subrange(d + 5, d + 5 + nlen))
            } else {
                sni_in(body, d + elen, end)
            }
        }
    }
}

/// The server name in a client hello body: version, random, session id, cipher suites and
/// compression methods are skipped, then the extensions are searched.
pub open spec fn sni_body(body: Seq<u8>) -> Option<Seq<u8>> {
    if body.len() < 35 || body[0] != 0x03 {
        None
    } else {
        let a = 35 + body[34];
        if a + 2 > body.len() {
            None
        } else {
            let b = a + 2 + u16_at(body, a);
            if b >= body.len() {
                None
            } else {
                let c = b + 1 + body[b];
                if c + 2 > body.len() {
                    None
                } else {
                    sni_in(body, c + 2, c + 2 + u16_at(body, c))
                }
            }
        }
    }
}

/// The server name of a TLS client hello: a record header of five bytes, a handshake header of four
/// with a 24-bit length, then the body.
pub open spec fn sni(p: Seq<u8>) -> Option<Seq<u8>> {
    if p.len() < 9 {
        None
    } else {
        let n = p[6] * 0x1_0000 + p[7] * 0x100 + p[8];
        if 9 + n > p.len() {
            None
        } else {
            sni_body(p.subrange(9, 9 + n))
        }
    }
}

fn word16(b: &[u8], o: usize) -> (x: usize)
    requires
        o + 2 <= b@.len(),
    ensures
        x == u16_at(b@, o as int),
        x < 0x1_0000,
{
    b[o] as usize * 256 + b[o + 1] as usize
}

/// Extracts the server name of a TLS client hello.
pub fn tls_sni(payload: &[u8]) -> (r: Option<Vec<u8>>)
    ensures
        opt_bytes(r) == sni(payload@),
{
    if payload.len() < 9 {
        return None;
    }
    let n: usize = payload[6] as usize * 0x1_0000 + payload[7] as usize * 0x100 + payload[8] as usize;
    if payload.len() - 9 < n {
        return None;
    }
    let body = vstd::slice::slice_subrange(payload, 9, 9 + n);
    if body.len() < 35 || body[0] != 0x03 {
        return None;
    }
    let a: usize = 35 + body[34] as usize;
    if a + 2 > body.len() {
        return None;
    }
    let b: usize = a + 2 + word16(body, a);
    if b >= body.len() {
        return None;
    }
    let c: usize = b + 1 + body[b] as usize;
    if c + 2 > body.len() {
        return None;
    }
    let end: usize = c + 2 + word16(body, c);
    let mut e: usize = c + 2;
    while e + 4 <= end && e + 4 <= body.len()
        invariant
            body@.len() < 0x100_0000,
            end <= body@.len() + 0x1_0000,
            e <= body@.len() + 0x1_0004,
            sni(payload@) == sni_in(body@, e as int, end as int),
        decreases (if e < end { end - e } else { 0 }),
    {
        let elen: usize = word16(body, e + 2);
        let d: usize = e + 4;
        if word16(body, e) == 0 {
            if d + elen > body.len() || elen < 5 {
                return None;
            }
            if body[d + 2] == 0 {
                let nlen: usize = word16(body, d + 3);
                if 5 + nlen > elen {
                    return None;
                }
                if nlen > 0 {
                    return Some(copy_range(body, d + 5, d + 5 + nlen));
                }
            }
        }
        e = d + elen;
    }
    None
}

/// The dotted name that starts with the label at `o`, appended to `out`: labels up to a zero byte,
/// none longer than 63 bytes, no more than 255 bytes in all.
pub open spec fn labels(p: Seq<u8>, o: int, out: Seq<u8>) -> Option<Seq<u8>>
    decreases p.len() - o,
{
    if o < 0 || o >= p.len() {
        None
    } else {
        let l = p[o] as int;
        if l == 0 {
            if out.len() == 0 {
                None
            } else {
                Some(out)
            }
        } else if l > 63 || o + 1 + l > p.len() {
            None
        } else {
            let dotted = if out.len() == 0 {
                out
            } else {
                out.push(46)
            };
            let next = dotted + p.subrange(o + 1, o + 1 + l);
            if next.len() > 255 {
                None
            } else {
                labels(p, o + 1 + l, next)
            }
        }
    }
}

/// The name asked for by a DNS query.
pub open spec fn qname(p: Seq<u8>) -> Option<Seq<u8>> {
    if dns_header(p) {
        labels(p, 12, Seq::empty())
    } else {
        None
    }
}

/// Extracts the name of a DNS query.
pub fn dns_qname(payload: &[u8]) -> (r: Option<Vec<u8>>)
    ensures
        opt_bytes(r) == qname(payload@),
{
    if !is_dns_header(payload) {
        return None;
    }
    let mut o: usize = 12;
    let mut out: Vec<u8> = Vec::new();
    assert(out@ =~= Seq::<u8>::empty());
    while o < payload.len()
        invariant
            qname(payload@) == labels(payload@, o as int, out@),
            o <= payload@.len(),
            out@.len() <= 255,
        decreases payload@.len() - o,
    {
        let l: usize = payload[o] as usize;
        if l == 0 {
            if out.len() == 0 {
                return None;
            }
            return Some(out);
        }
        if l > 63 || payload.len() - o - 1 < l {
            return None;
        }
        if out.len() > 0 {
            out.push(46);
        }
        push_range(&mut out, payload, o + 1, o + 1 + l);
        if out.len() > 255 {
            return None;
        }
        o = o + 1 + l;
    }
    None
}

/// The pseudo key of a payload: the hash of its signature prefix and its sample.
pub open spec fn pseudo(p: Seq<u8>) -> Seq<u8> {
    be(fnv(first(p, 4) + first(p, 64)) as nat, 8)
}

/// Derives the pseudo key of a payload.
pub fn pseudo_key(payload: &[u8]) -> (k: ExtractedKey)
    ensures
        k.key@ == pseudo(payload@),
        k.pseudo,
{
    let mut seed = prefix(payload, MAGIC_MAX);
    let n: usize = if payload.len() <= ENTROPY_SAMPLE { payload.len() } else { ENTROPY_SAMPLE };
    push_range(&mut seed, payload, 0, n);
    assert(payload@.subrange(0, n as int) =~= first(payload@, 64));
    let mut key: Vec<u8> = Vec::new();
    push_be(&mut key, fnv1a64(seed.as_slice()), 8);
    assert(key@ =~= pseudo(payload@));
    ExtractedKey { key, pseudo: true }
}

/// The readable key of a payload, where the protocol has one.
pub open spec fn readable_key(p: Seq<u8>, kind: ProtocolKind) -> Option<Seq<u8>> {
    match kind {
        ProtocolKind::Http => http_line(p),
        ProtocolKind::Tls => sni(p),
        ProtocolKind::Dns => qname(p),
        _ => None,
    }
}

/// The request key of a payload: its readable key, or else its pseudo key.
pub open spec fn request_key(p: Seq<u8>, kind: ProtocolKind) -> (Seq<u8>, bool) {
    match readable_key(p, kind) {
        Some(k) => (k, false),
        None => (pseudo(p), true),
    }
}

/// Extracts the request key of a payload.
pub fn extract_key(payload: &[u8], kind: ProtocolKind) -> (k: ExtractedKey)
    ensures
        (k.key@, k.pseudo) == request_key(payload@, kind),
{
    let found = match kind {
        ProtocolKind::Http => http_request_line(payload),
        ProtocolKind::Tls => tls_sni(payload),
        ProtocolKind::Dns => dns_qname(payload),
        _ => None,
    };
    match found {
        Some(key) => ExtractedKey { key, pseudo: false },
        None => pseudo_key(payload),
    }
}

/// Payloads with the same signature, that is the same first 64 bytes, have the same pseudo key.
pub proof fn law_pseudo_key_stable(p: Seq<u8>, q: Seq<u8>)
    requires
        first(p, 64) == first(q, 64),
    ensures
        pseudo(p) == pseudo(q),
        pseudo(p).len() == 8,
{
    lemma_be_len(fnv(first(p, 4) + first(p, 64)) as nat, 8);
    assert(first(p, 4) =~= first(first(p, 64), 4));
    assert(first(q, 4) =~= first(first(q, 64), 4));
}

/// What a rule says.
#[verifier::ext_equal]
pub struct RuleView {
    pub id: i64,
    pub name: Seq<char>,
    pub proto: u8,
    pub dst_port: u16,
    pub fingerprint: Option<ProtocolKind>,
    pub extractor: Option<Seq<char>>,
}

impl View for MetaBindRule {
    type V = RuleView;

    open spec fn view(&self) -> RuleView {
        RuleView {
            id: self.id,
            name: self.name@,
            proto: self.proto,
            dst_port: self.dst_port,
            fingerprint: self.fingerprint,
            extractor: match self.extractor {
                Some(e) => Some(e@),
                None => None,
            },
        }
    }
}

/// The binding rules, in order.
#[derive(Debug, Clone)]
pub struct MetaRegistry {
    rules: Vec<MetaBindRule>,
}

impl View for MetaRegistry {
    type V = Seq<RuleView>;

    closed spec fn view(&self) -> Seq<RuleView> {
        Seq::new(self.rules@.len(), |i: int| self.rules@[i]@)
    }
}

/// The first rule for a protocol number and port, by position.
pub open spec fn rule_for(rules: Seq<RuleView>, proto: u8, dst_port: u16, i: int) -> Option<RuleView>
    decreases rules.len() - i,
{
    if i < 0 || i >= rules.len() {
        None
    } else if rules[i].proto == proto && rules[i].dst_port == dst_port {
        Some(rules[i])
    } else {
        rule_for(rules, proto, dst_port, i + 1)
    }
}

/// What binding yields.
pub struct BindView {
    pub meta_bind_id: i64,
    pub protocol_hint: u8,
    pub key: Seq<u8>,
    pub pseudo: bool,
}

impl View for BindResult {
    type V = BindView;

    open spec fn view(&self) -> BindView {
        BindView { meta_bind_id: self.meta_bind_id, protocol_hint: self.protocol_hint, key: self.key@, pseudo: self.pseudo }
    }
}

/// The rule's protocol where a rule applies and names one; otherwise the detected protocol.
pub open spec fn bound_kind(rules: Seq<RuleView>, p: Seq<u8>, proto: u8, dst_port: u16, high_entropy: bool) -> ProtocolKind {
    match rule_for(rules, proto, dst_port, 0) {
        Some(rule) => match rule.fingerprint {
            Some(kind) => kind,
            None => detected(p, dst_port, high_entropy),
        },
        None => detected(p, dst_port, high_entropy),
    }
}

/// The binding of a payload.
pub open spec fn binding(rules: Seq<RuleView>, p: Seq<u8>, proto: u8, dst_port: u16, high_entropy: bool) -> BindView {
    let kind = bound_kind(rules, p, proto, dst_port, high_entropy);
    let k = request_key(p, kind);
    BindView {
        meta_bind_id: match rule_for(rules, proto, dst_port, 0) {
            Some(rule) => rule.id,
            None => -1i64,
        },
        protocol_hint: kind.code(),
        key: k.0,
        pseudo: k.1,
    }
}

/// The rule made of a configured binding; its identifier is its position, counted from one, and an empty
/// extractor is none.
pub open spec fn rule_of(b: MetaBind, i: int) -> RuleView {
    RuleView {
        id: (i + 1) as i64,
        name: b.name@,
        proto: b.proto,
        dst_port: b.dst_port,
        fingerprint: fingerprint_named(vstd::utf8::encode_utf8(b.fingerprint@)),
        extractor: if b.extractor@.len() == 0 {
            None
        } else {
            Some(b.extractor@)
        },
    }
}

impl MetaRegistry {
    /// Builds the rules from the configuration.
    pub fn from_binds(binds: &[MetaBind]) -> (r: MetaRegistry)
        requires
            binds@.len() < i64::MAX,
        ensures
            r@ == Seq::new(binds@.len(), |i: int| rule_of(binds@[i], i)),
    {
        let mut rules: Vec<MetaBindRule> = Vec::new();
        let mut i: usize = 0;
        while i < binds.len()
            invariant
                i <= binds@.len() < i64::MAX,
                rules@.len() == i,
                forall|j: int| 0 <= j < i ==> (#[trigger] rules@[j])@ == rule_of(binds@[j], j),
            decreases binds@.len() - i,
        {
            let b = &binds[i];
            let extractor = if b.extractor.as_str().unicode_len() == 0 {
                None
            } else {
                Some(b.extractor.clone())
            };
            rules.push(
                MetaBindRule {
                    id: i as i64 + 1,
                    name: b.name.clone(),
                    proto: b.proto,
                    dst_port: b.dst_port,
                    fingerprint: ProtocolKind::from_fingerprint(b.fingerprint.as_str()),
                    extractor,
                },
            );
            i += 1;
        }
        let r = MetaRegistry { rules };
        assert(r@ =~= Seq::new(binds@.len(), |i: int| rule_of(binds@[i], i)));
        r
    }

    /// Gives a rule the identifier that the ledger assigned; a position without a rule is ignored.
    pub fn set_rule_id(&mut self, idx: usize, id: i64)
        ensures
            final(self)@ == if idx < old(self)@.len() {
                old(self)@.update(idx as int, RuleView { id, ..old(self)@[idx as int] })
            } else {
                old(self)@
            },
    {
        if idx < self.rules.len() {
            self.rules[idx].id = id;
            assert(self@ =~= old(self)@.update(idx as int, RuleView { id, ..old(self)@[idx as int] }));
        }
    }

    /// The rule at a position.
    pub fn rule(&self, idx: usize) -> (r: Option<&MetaBindRule>)
        ensures
            r is Some <==> idx < self@.len(),
            r matches Some(x) ==> x@ == self@[idx as int],
    {
        if idx < self.rules.len() {
            Some(&self.rules[idx])
        } else {
            None
        }
    }

    /// All rules.
    pub fn rules(&self) -> (r: &[MetaBindRule])
        ensures
            r@.len() == self@.len(),
            forall|i: int| 0 <= i < r@.len() ==> (#[trigger] r@[i])@ == self@[i],
    {
        self.rules.as_slice()
    }

    /// Whether there are no rules.
    pub fn is_empty(&self) -> (r: bool)
        ensures
            r == (self@.len() == 0),
    {
        self.rules.len() == 0
    }

    /// The first rule for a protocol number and port.
    pub fn resolve(&self, proto: u8, dst_port: u16) -> (r: Option<&MetaBindRule>)
        ensures
            match r {
                Some(x) => rule_for(self@, proto, dst_port, 0) == Some(x@),
                None => rule_for(self@, proto, dst_port, 0) is None,
            },
    {
        let mut i: usize = 0;
        while i < self.rules.len()
            invariant
                i <= self.rules@.len(),
                self.rules@.len() == self@.len(),
                rule_for(self@, proto, dst_port, 0) == rule_for(self@, proto, dst_port, i as int),
            decreases self.rules@.len() - i,
        {
            let rule = &self.rules[i];
            assert(self@[i as int] == rule@);
            if rule.proto == proto && rule.dst_port == dst_port {
                return Some(rule);
            }
            i += 1;
        }
        None
    }

    /// Binds a connection by its first request and extracts the request key.
    pub fn bind_and_extract(&self, payload: &[u8], proto: u8, dst_port: u16, high_entropy: bool) -> (b: BindResult)
        ensures
            b@ == binding(self@, payload@, proto, dst_port, high_entropy),
    {
        let (id, kind): (i64, ProtocolKind) = match self.resolve(proto, dst_port) {
            Some(rule) => match rule.fingerprint {
                Some(kind) => (rule.id, kind),
                None => (rule.id, detect_protocol(payload, dst_port, high_entropy)),
            },
            None => (-1, detect_protocol(payload, dst_port, high_entropy)),
        };
        let k = extract_key(payload, kind);
        BindResult { meta_bind_id: id, protocol_hint: kind.as_u8(), key: k.key, pseudo: k.pseudo }
    }
}

} // verus!
