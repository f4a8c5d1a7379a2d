//! What is read from payloads, told from how such payloads are made.

use crate::meta::{
    binding, detected, first, first_at, first_line, http_line, labels, pseudo, qname, readable_key,
    request_key, rule_for, sni, sni_body, sni_in, u16_at, ProtocolKind, RuleView,
};
use vstd::prelude::*;
use vstd::string::*;

verus! {

/// A 16-bit number on the wire.
pub open spec fn word(n: nat) -> Seq<u8> {
    seq![(n / 256) as u8, (n % 256) as u8]
}

/// One TLS extension: its type, the length of its data, its data.
pub open spec fn extension(kind: u16, data: Seq<u8>) -> Seq<u8> {
    word(kind as nat) + word(data.len()) + data
}

/// A list of extensions, one after the other.
pub open spec fn extensions(es: Seq<(u16, Seq<u8>)>) -> Seq<u8>
    decreases es.len(),
{
    if es.len() == 0 {
        Seq::empty()
    } else {
        extension(es[0].0, es[0].1) + extensions(es.drop_first())
    }
}

/// The data of a server-name extension with one host name.
pub open spec fn server_name(name: Seq<u8>) -> Seq<u8> {
    word(name.len() + 3) + seq![0u8] + word(name.len()) + name
}

/// The body of a client hello.
pub open spec fn hello_body(head: Seq<u8>, session: Seq<u8>, ciphers: Seq<u8>, methods: Seq<u8>, es: Seq<(u16, Seq<u8>)>) -> Seq<u8> {
    head + seq![session.len() as u8] + session + word(ciphers.len()) + ciphers + seq![methods.len() as u8] + methods + word(
        extensions(es).len(),
    ) + extensions(es)
}

/// A payload with a client hello: six bytes of headers, the length of the body, the body, and what follows.
pub open spec fn hello(front: Seq<u8>, body: Seq<u8>, rest: Seq<u8>) -> Seq<u8> {
    front + seq![(body.len() / 0x1_0000) as u8] + word(body.len() % 0x1_0000) + body + rest
}

/// The parts of a client hello have the lengths that their fields can hold.
pub open spec fn hello_ok(
    front: Seq<u8>,
    head: Seq<u8>,
    session: Seq<u8>,
    ciphers: Seq<u8>,
    methods: Seq<u8>,
    es: Seq<(u16, Seq<u8>)>,
) -> bool {
    &&& front.len() == 6
    &&& head.len() == 34
    &&& head[0] == 3
    &&& session.len() < 256
    &&& ciphers.len() < 0x1_0000
    &&& methods.len() < 256
    &&& extensions(es).len() < 0x1_0000
}

proof fn lemma_word(s: Seq<u8>, o: int, n: nat)
    requires
        0 <= o,
        o + 2 <= s.len(),
        n < 0x1_0000,
        s.subrange(o, o + 2) == word(n),
    ensures
        u16_at(s, o) == n,
{
    assert(s.subrange(o, o + 2)[0] == s[o]);
    assert(s.subrange(o, o + 2)[1] == s[o + 1]);
}

/// Reading the extensions gives the first server name, wherever it stands.
#[verifier::rlimit(60)]
proof fn lemma_extensions(body: Seq<u8>, e: int, es: Seq<(u16, Seq<u8>)>, i: int, name: Seq<u8>)
    requires
        0 <= e,
        e + extensions(es).len() <= body.len(),
        extensions(es).len() < 0x1_0000,
        body.subrange(e, e + extensions(es).len()) == extensions(es),
        0 <= i <= es.len(),
        forall|j: int| 0 <= j < i ==> (#[trigger] es[j]).0 != 0,
        i < es.len() ==> es[i] == (0u16, server_name(name)) && name.len() > 0,
    ensures
        sni_in(body, e, e + extensions(es).len()) == if i < es.len() {
            Some(name)
        } else {
            None
        },
    decreases es.len(),
{
    let x = extensions(es);
    let end = e + x.len();
    if es.len() > 0 {
        let (kind, data) = es[0];
        let rest = es.drop_first();
        let own = extension(kind, data);
        assert(x == own + extensions(rest));
        assert(own.len() == 4 + data.len());
        assert(body.subrange(e, e + 2) =~= word(kind as nat)) by {
            assert forall|k: int| 0 <= k < 2 implies body.subrange(e, e + 2)[k] == word(kind as nat)[k] by {
                assert(body.subrange(e, end)[k] == x[k]);
            }
        }
        assert(body.subrange(e + 2, e + 4) =~= word(data.len())) by {
            assert forall|k: int| 0 <= k < 2 implies body.subrange(e + 2, e + 4)[k] == word(data.len())[k] by {
                assert(body.subrange(e, end)[k + 2] == x[k + 2]);
            }
        }
        lemma_word(body, e, kind as nat);
        lemma_word(body, e + 2, data.len());
        let d = e + 4;
        assert(body.subrange(d, d + data.len()) =~= data) by {
            assert forall|k: int| 0 <= k < data.len() implies body.subrange(d, d + data.len())[k] == data[k] by {
                assert(body.subrange(e, end)[k + 4] == x[k + 4]);
            }
        }
        if i == 0 {
            assert(data == server_name(name));
            assert(body[d + 2] == data[2]) by {
                assert(body.subrange(d, d + data.len())[2] == data[2]);
            }
            assert(body.subrange(d + 3, d + 5) =~= word(name.len())) by {
                assert forall|k: int| 0 <= k < 2 implies body.subrange(d + 3, d + 5)[k] == word(name.len())[k] by {
                    assert(body.subrange(d, d + data.len())[k + 3] == data[k + 3]);
                }
            }
            lemma_word(body, d + 3, name.len());
            assert(body.subrange(d + 5, d + 5 + name.len()) =~= name) by {
                assert forall|k: int| 0 <= k < name.len() implies body.subrange(d + 5, d + 5 + name.len())[k] == name[k] by {
                    assert(body.subrange(d, d + data.len())[k + 5] == data[k + 5]);
                }
            }
        } else {
            let e2 = d + data.len();
            assert(e2 + extensions(rest).len() == end);
            assert(body.subrange(e2, end) =~= extensions(rest)) by {
                assert forall|k: int| 0 <= k < extensions(rest).len() implies body.subrange(e2, end)[k] == extensions(rest)[k] by {
                    assert(body.subrange(e, end)[k + own.len()] == x[k + own.len()]);
                }
            }
            assert forall|j: int| 0 <= j < i - 1 implies (#[trigger] rest[j]).0 != 0 by {
                assert(rest[j] == es[j + 1]);
            }
            if i < es.len() {
                assert(rest[i - 1] == es[i]);
            }
            assert(es[0].0 != 0);
            lemma_extensions(body, e2, rest, i - 1, name);
        }
    }
}

/// The server name of a client hello is the name in its server-name extension, whatever other extensions
/// stand before it or after it, and whatever the rest of the hello holds. A hello without such an extension
/// has none.
#[verifier::rlimit(60)]
pub proof fn law_server_name_is_found(
    front: Seq<u8>,
    head: Seq<u8>,
    session: Seq<u8>,
    ciphers: Seq<u8>,
    methods: Seq<u8>,
    es: Seq<(u16, Seq<u8>)>,
    rest: Seq<u8>,
    i: int,
    name: Seq<u8>,
)
    requires
        hello_ok(front, head, session, ciphers, methods, es),
        0 <= i <= es.len(),
        forall|j: int| 0 <= j < i ==> (#[trigger] es[j]).0 != 0,
        i < es.len() ==> es[i] == (0u16, server_name(name)) && name.len() > 0,
    ensures
        ({
            let p = hello(front, hello_body(head, session, ciphers, methods, es), rest);
            &&& sni(p) == if i < es.len() {
                Some(name)
            } else {
                None
            }
            &&& i < es.len() ==> request_key(p, ProtocolKind::Tls) == (name, false)
        }),
{
    let body = hello_body(head, session, ciphers, methods, es);
    let p = hello(front, body, rest);
    let x = extensions(es);
    let n = body.len();
    lemma_hello_body(head, session, ciphers, methods, es);
    lemma_hello(front, body, rest);
    let a = 35 + session.len() as int;
    let b = a + 2 + ciphers.len();
    let c = b + 1 + methods.len();
    lemma_word(body, a, ciphers.len());
    lemma_word(body, c, x.len());
    lemma_extensions(body, c + 2, es, i, name);
}

/// Where the parts of a client hello stand in its body.
#[verifier::rlimit(40)]
proof fn lemma_hello_body(head: Seq<u8>, session: Seq<u8>, ciphers: Seq<u8>, methods: Seq<u8>, es: Seq<(u16, Seq<u8>)>)
    requires
        head.len() == 34,
        head[0] == 3,
        session.len() < 256,
        ciphers.len() < 0x1_0000,
        methods.len() < 256,
        extensions(es).len() < 0x1_0000,
    ensures
        ({
            let body = hello_body(head, session, ciphers, methods, es);
            let x = extensions(es);
            let a = 35 + session.len() as int;
            let b = a + 2 + ciphers.len();
            let c = b + 1 + methods.len();
            &&& body.len() == c + 2 + x.len()
            &&& body.len() < 0x100_0000
            &&& body[0] == 3
            &&& body[34] == session.len()
            &&& body.subrange(a, a + 2) == word(ciphers.len())
            &&& body[b] == methods.len()
            &&& body.subrange(c, c + 2) == word(x.len())
            &&& body.subrange(c + 2, c + 2 + x.len()) == x
        }),
{
    let x = extensions(es);
    let a = 35 + session.len() as int;
    let b = a + 2 + ciphers.len();
    let c = b + 1 + methods.len();
    let p1 = head + seq![session.len() as u8] + session;
    let p2 = p1 + word(ciphers.len()) + ciphers;
    let p3 = p2 + seq![methods.len() as u8] + methods;
    let body = p3 + word(x.len()) + x;
    assert(body == hello_body(head, session, ciphers, methods, es));
    assert(p1.len() == a && p2.len() == b && p3.len() == c);
    assert(p1[0] == 3 && p1[34] == session.len());
    assert(forall|k: int| 0 <= k < a ==> p2[k] == p1[k]);
    assert(forall|k: int| 0 <= k < b ==> p3[k] == p2[k]);
    assert(forall|k: int| 0 <= k < c ==> body[k] == p3[k]);
    assert(p2.subrange(a, a + 2) =~= word(ciphers.len()));
    assert(body.subrange(a, a + 2) =~= p2.subrange(a, a + 2));
    assert(p3[b] == methods.len());
    assert(body.subrange(c, c + 2) =~= word(x.len()));
    assert(body.subrange(c + 2, c + 2 + x.len()) =~= x);
}

/// The length of a client hello and its body, read back.
proof fn lemma_hello(front: Seq<u8>, body: Seq<u8>, rest: Seq<u8>)
    requires
        front.len() == 6,
        body.len() < 0x100_0000,
    ensures
        ({
            let p = hello(front, body, rest);
            let n = body.len();
            &&& p.len() >= 9 + n
            &&& p[6] * 0x1_0000 + p[7] * 0x100 + p[8] == n
            &&& p.subrange(9, 9 + n as int) == body
        }),
{
    let p = hello(front, body, rest);
    let n = body.len();
    let m = n % 0x1_0000;
    assert(p[6] == n / 0x1_0000);
    assert(p[7] == m / 256);
    assert(p[8] == m % 256);
    assert(p.subrange(9, 9 + n as int) =~= body);
}

/// The labels of a name as DNS writes them: each behind its length.
pub open spec fn dns_labels(ls: Seq<Seq<u8>>) -> Seq<u8>
    decreases ls.len(),
{
    if ls.len() == 0 {
        Seq::empty()
    } else {
        seq![ls[0].len() as u8] + ls[0] + dns_labels(ls.drop_first())
    }
}

/// The labels of a name with dots between them, behind what stands there already.
pub open spec fn dotted(out: Seq<u8>, ls: Seq<Seq<u8>>) -> Seq<u8>
    decreases ls.len(),
{
    if ls.len() == 0 {
        out
    } else {
        dotted(
            (if out.len() == 0 {
                out
            } else {
                out + seq!['.' as u8]
            }) + ls[0],
            ls.drop_first(),
        )
    }
}

proof fn lemma_dotted_grows(out: Seq<u8>, ls: Seq<Seq<u8>>)
    ensures
        dotted(out, ls).len() >= out.len(),
    decreases ls.len(),
{
    if ls.len() > 0 {
        let next = (if out.len() == 0 {
            out
        } else {
            out + seq!['.' as u8]
        }) + ls[0];
        lemma_dotted_grows(next, ls.drop_first());
    }
}

#[verifier::rlimit(60)]
proof fn lemma_labels(p: Seq<u8>, o: int, out: Seq<u8>, ls: Seq<Seq<u8>>)
    requires
        0 <= o,
        o + dns_labels(ls).len() < p.len(),
        p.subrange(o, o + dns_labels(ls).len()) == dns_labels(ls),
        p[o + dns_labels(ls).len()] == 0,
        forall|j: int| 0 <= j < ls.len() ==> 1 <= (#[trigger] ls[j]).len() <= 63,
        dotted(out, ls).len() <= 255,
        out.len() > 0 || ls.len() > 0,
    ensures
        labels(p, o, out) == Some(dotted(out, ls)),
    decreases ls.len(),
{
    let x = dns_labels(ls);
    if ls.len() > 0 {
        let (l, rest) = (ls[0], ls.drop_first());
        let own = seq![l.len() as u8] + l;
        assert(x == own + dns_labels(rest));
        let end = o + x.len();
        assert(p[o] == l.len()) by {
            assert(p.subrange(o, end)[0] == x[0]);
        }
        assert(p.subrange(o + 1, o + 1 + l.len()) =~= l) by {
            assert forall|k: int| 0 <= k < l.len() implies p.subrange(o + 1, o + 1 + l.len())[k] == l[k] by {
                assert(p.subrange(o, end)[k + 1] == x[k + 1]);
            }
        }
        let o2 = o + 1 + l.len();
        assert(p.subrange(o2, end) =~= dns_labels(rest)) by {
            assert forall|k: int| 0 <= k < dns_labels(rest).len() implies p.subrange(o2, end)[k] == dns_labels(rest)[k] by {
                assert(p.subrange(o, end)[k + own.len()] == x[k + own.len()]);
            }
        }
        assert forall|j: int| 0 <= j < rest.len() implies 1 <= (#[trigger] rest[j]).len() <= 63 by {
            assert(rest[j] == ls[j + 1]);
        }
        let next = (if out.len() == 0 {
            out
        } else {
            out + seq!['.' as u8]
        }) + l;
        assert(('.' as u8) == 46u8);
        assert((if out.len() == 0 {
            out
        } else {
            out.push(46)
        }) + p.subrange(o + 1, o + 1 + l.len()) =~= next);
        lemma_dotted_grows(next, rest);
        lemma_labels(p, o2, next, rest);
    }
}

/// The name that a DNS message asks for is its labels with dots between them, for every list of labels that
/// DNS allows, whatever follows the name.
pub proof fn law_dns_name_is_read_back(header: Seq<u8>, ls: Seq<Seq<u8>>, rest: Seq<u8>)
    requires
        header.len() == 12,
        128 <= header[2] || header[2] % 2 == 1,
        (header[2] % 128) / 8 == 0,
        1 <= header[4] * 256 + header[5] <= 16,
        header[10] * 256 + header[11] <= 16,
        ls.len() > 0,
        forall|j: int| 0 <= j < ls.len() ==> 1 <= (#[trigger] ls[j]).len() <= 63,
        dotted(Seq::empty(), ls).len() <= 255,
    ensures
        ({
            let p = header + dns_labels(ls) + seq![0u8] + rest;
            &&& qname(p) == Some(dotted(Seq::empty(), ls))
            &&& request_key(p, ProtocolKind::Dns) == (dotted(Seq::empty(), ls), false)
        }),
{
    let p = header + dns_labels(ls) + seq![0u8] + rest;
    lemma_dns_bits(header[2]);
    assert(p[2] == header[2] && p[4] == header[4] && p[5] == header[5] && p[10] == header[10] && p[11] == header[11]);
    assert(p.subrange(12, 12 + dns_labels(ls).len() as int) =~= dns_labels(ls));
    lemma_labels(p, 12, Seq::empty(), ls);
}

proof fn lemma_dns_bits(f: u8)
    ensures
        (f & 0x80 != 0) == (128 <= f),
        (f & 0x01 != 0) == (f % 2 == 1),
        (f & 0x78 == 0) == ((f % 128) / 8 == 0),
{
    assert((f & 0x80 != 0) == (128 <= f) && (f & 0x01 != 0) == (f % 2 == 1) && (f & 0x78 == 0) == ((f % 128) / 8 == 0)) by (bit_vector);
}

proof fn lemma_first_break(line: Seq<u8>, rest: Seq<u8>, i: int)
    requires
        0 <= i <= line.len(),
        forall|j: int| 0 <= j < line.len() ==> #[trigger] line[j] != 10,
    ensures
        first_at(line + seq![10u8] + rest, 10, i) == line.len(),
    decreases line.len() - i,
{
    let p = line + seq![10u8] + rest;
    if i < line.len() {
        assert(p[i] == line[i]);
        lemma_first_break(line, rest, i + 1);
    } else {
        assert(p[i] == 10);
    }
}

/// The request line of HTTP is everything up to the first line break, which may be a line feed with or
/// without a carriage return; only its first 256 bytes count.
pub proof fn law_request_line_ends_at_the_break(line: Seq<u8>, rest: Seq<u8>)
    requires
        line.len() > 0,
        forall|j: int| 0 <= j < line.len() ==> #[trigger] line[j] != 10,
    ensures
        ({
            let want = if line.len() <= 256 {
                line
            } else {
                line.take(256)
            };
            &&& http_line(line + seq![13u8, 10u8] + rest) == Some(want)
            &&& line.last() != 13 ==> http_line(line + seq![10u8] + rest) == Some(want)
            &&& request_key(line + seq![13u8, 10u8] + rest, ProtocolKind::Http) == (want, false)
        }),
{
    let long = line + seq![13u8];
    let p = line + seq![13u8, 10u8] + rest;
    assert(p =~= long + seq![10u8] + rest);
    assert forall|j: int| 0 <= j < long.len() implies #[trigger] long[j] != 10 by {
        if j < line.len() {
            assert(long[j] == line[j]);
        }
    }
    lemma_first_break(long, rest, 0);
    assert(p.take(long.len() as int) =~= long);
    assert(long.drop_last() =~= line);
    assert(first_line(p) == line);
    let q = line + seq![10u8] + rest;
    lemma_first_break(line, rest, 0);
    assert(q.take(line.len() as int) =~= line);
}

/// What a payload starts with decides its protocol, and only then the port, and only then its entropy:
/// a TLS handshake record, a line of HTTP, a DNS header or an opening brace wins over any port.
pub proof fn law_content_wins_over_port(p: Seq<u8>, port: u16, other: u16, high: bool)
    ensures
        p.len() >= 5 && p[0] == 0x16 && p[1] == 0x03 ==> detected(p, port, high) == ProtocolKind::Tls,
        detected(p, port, high) == ProtocolKind::Binary ==> high && p.len() >= 16,
        detected(p, port, high) == ProtocolKind::Json <==> detected(p, other, high) == ProtocolKind::Json,
        detected(p, port, high) == ProtocolKind::Json ==> p[0] == 0x7b,
        detected(p, 9, true) == ProtocolKind::Binary <==> p.len() >= 16 && detected(p, 9, false) == ProtocolKind::Unknown,
        ({
            // What a payload is without help from port and entropy.
            let own = detected(p, 9, false);
            if own != ProtocolKind::Unknown {
                detected(p, port, high) == own
            } else if port == 443 || port == 8443 {
                detected(p, port, high) == ProtocolKind::Tls
            } else if port == 53 {
                detected(p, port, high) == ProtocolKind::Dns
            } else if port == 80 || port == 8080 {
                detected(p, port, high) == ProtocolKind::Http
            } else {
                detected(p, port, high) == detected(p, 9, high)
            }
        }),
{
}

/// A payload whose protocol gives it no readable key has the hash of its start as its key: two payloads that
/// agree on their first 64 bytes share it, and its length is eight.
#[verifier::rlimit(60)]
pub proof fn law_every_request_has_a_key(p: Seq<u8>, kind: ProtocolKind)
    ensures
        ({
            let (key, made_up) = request_key(p, kind);
            &&& key.len() > 0
            &&& made_up ==> key.len() == 8 && key == pseudo(p)
            &&& kind == ProtocolKind::Json || kind == ProtocolKind::Binary || kind == ProtocolKind::Unknown ==> made_up
        }),
{
    crate::meta::law_pseudo_key_stable(p, p);
    if let Some(k) = readable_key(p, kind) {
        match kind {
            ProtocolKind::Tls => {
                if p.len() >= 9 {
                    let n = p[6] * 0x1_0000 + p[7] * 0x100 + p[8];
                    lemma_sni_named(p.subrange(9, 9 + n));
                }
            },
            ProtocolKind::Dns => {
                lemma_labels_named(p, 12, Seq::empty());
            },
            _ => {},
        }
    }
}

proof fn lemma_sni_in_named(body: Seq<u8>, e: int, end: int)
    ensures
        sni_in(body, e, end) matches Some(k) ==> k.len() > 0,
    decreases (if e < end { end - e } else { 0 }),
{
    if !(e < 0 || e + 4 > end || e + 4 > body.len()) {
        lemma_sni_in_named(body, e + 4 + u16_at(body, e + 2), end);
    }
}

proof fn lemma_sni_named(body: Seq<u8>)
    ensures
        sni_body(body) matches Some(k) ==> k.len() > 0,
{
    if body.len() >= 35 {
        let a = 35 + body[34];
        if a + 2 <= body.len() {
            let b = a + 2 + u16_at(body, a);
            if b < body.len() {
                let c = b + 1 + body[b];
                lemma_sni_in_named(body, c + 2, c + 2 + u16_at(body, c));
            }
        }
    }
}

proof fn lemma_labels_named(p: Seq<u8>, o: int, out: Seq<u8>)
    ensures
        labels(p, o, out) matches Some(k) ==> k.len() > 0,
    decreases p.len() - o,
{
    if 0 <= o < p.len() {
        let l = p[o] as int;
        if l != 0 && l <= 63 && o + 1 + l <= p.len() {
            let dot = if out.len() == 0 {
                out
            } else {
                out.push(46)
            };
            lemma_labels_named(p, o + 1 + l, dot + p.subrange(o + 1, o + 1 + l));
        }
    }
}

/// The rule for a protocol number and port is the first in the list that names both, and none if no rule
/// does. It gives the connection its identifier and, where it names a protocol, that protocol; otherwise the
/// payload decides.
pub proof fn law_first_fitting_rule_binds(rules: Seq<RuleView>, p: Seq<u8>, proto: u8, port: u16, high: bool, i: int)
    requires
        0 <= i <= rules.len(),
        forall|j: int| 0 <= j < i ==> !((#[trigger] rules[j]).proto == proto && rules[j].dst_port == port),
        i < rules.len() ==> rules[i].proto == proto && rules[i].dst_port == port,
    ensures
        ({
            let b = binding(rules, p, proto, port, high);
            let kind = if i < rules.len() && rules[i].fingerprint is Some {
                rules[i].fingerprint->0
            } else {
                detected(p, port, high)
            };
            &&& b.meta_bind_id == if i < rules.len() {
                rules[i].id
            } else {
                -1i64
            }
            &&& b.protocol_hint == kind.code()
            &&& (b.key, b.pseudo) == request_key(p, kind)
        }),
{
    lemma_rule_for(rules, proto, port, 0, i);
}

proof fn lemma_rule_for(rules: Seq<RuleView>, proto: u8, port: u16, from: int, i: int)
    requires
        0 <= from <= i <= rules.len(),
        forall|j: int| from <= j < i ==> !((#[trigger] rules[j]).proto == proto && rules[j].dst_port == port),
        i < rules.len() ==> rules[i].proto == proto && rules[i].dst_port == port,
    ensures
        rule_for(rules, proto, port, from) == if i < rules.len() {
            Some(rules[i])
        } else {
            None
        },
    decreases i - from,
{
    if from < i {
        lemma_rule_for(rules, proto, port, from + 1, i);
    }
}

/// How HTTP starts: the methods, and the line of a response.
pub open spec fn http_starts() -> Seq<Seq<u8>> {
    seq![
        "GET ".spec_bytes(),
        "POST ".spec_bytes(),
        "PUT ".spec_bytes(),
        "DELETE ".spec_bytes(),
        "HEAD ".spec_bytes(),
        "OPTIONS ".spec_bytes(),
        "PATCH ".spec_bytes(),
        "TRACE ".spec_bytes(),
        "HTTP/1.".spec_bytes(),
    ]
}

/// A payload that is no TLS record is HTTP by content if and only if it starts like HTTP, DNS if and only if
/// it has a DNS header besides, JSON if and only if it opens with a brace besides. TLS by content is a
/// handshake record of version three.
#[verifier::rlimit(60)]
pub proof fn law_content_is_recognised(p: Seq<u8>)
    ensures
        ({
            let own = detected(p, 9, false);
            let tls = p.len() >= 5 && p[0] == 0x16 && p[1] == 0x03;
            let http = exists|i: int| 0 <= i < 9 && #[trigger] http_starts()[i].is_prefix_of(p);
            let dns = p.len() >= 12 && (128 <= p[2] || p[2] % 2 == 1) && (p[2] % 128) / 8 == 0 && 1 <= p[4] * 256 + p[5] <= 16 && p[10] * 256 + p[11]
                <= 16;
            let brace = p.len() > 0 && p[0] == '{' as u8;
            &&& own == ProtocolKind::Tls <==> tls
            &&& own == ProtocolKind::Http <==> !tls && http
            &&& own == ProtocolKind::Dns <==> !tls && !http && dns
            &&& own == ProtocolKind::Json <==> !tls && !http && !dns && brace
            &&& own == ProtocolKind::Unknown <==> !tls && !http && !dns && !brace
        }),
{
    if p.len() >= 12 {
        lemma_dns_bits(p[2]);
    }
    let all = http_starts();
    assert forall|i: int| 0 <= i < 9 implies (#[trigger] all[i].is_prefix_of(p) <==> crate::meta::starts(p, all[i])) by {
        if all[i].len() <= p.len() {
            assert(p.take(all[i].len() as int) =~= p.subrange(0, all[i].len() as int));
        }
    }
    if crate::meta::http_magic(p) {
        assert(all[0].is_prefix_of(p) || all[1].is_prefix_of(p) || all[2].is_prefix_of(p) || all[3].is_prefix_of(p) || all[4].is_prefix_of(p)
            || all[5].is_prefix_of(p) || all[6].is_prefix_of(p) || all[7].is_prefix_of(p) || all[8].is_prefix_of(p));
    }
    assert(('{' as u8) == 0x7b);
}

/// The made-up key of a payload is the hash of its first four bytes followed by its first sixty-four, or of
/// what there is of them.
pub proof fn law_made_up_key_hashes_the_start(p: Seq<u8>)
    ensures
        pseudo(p).len() == 8,
        p.len() >= 64 ==> crate::codec::from_be(pseudo(p)) == crate::connection::fnv(p.take(4) + p.take(64)),
        4 <= p.len() <= 64 ==> crate::codec::from_be(pseudo(p)) == crate::connection::fnv(p.take(4) + p),
        p.len() <= 4 ==> crate::codec::from_be(pseudo(p)) == crate::connection::fnv(p + p),
{
    crate::codec::lemma_pow256_values();
    let h = crate::connection::fnv(first(p, 4) + first(p, 64));
    crate::codec::lemma_be_len(h as nat, 8);
    crate::codec::lemma_be_round_trip(h as nat, 8);
    if p.len() == 4 {
        assert(p.take(4) =~= p);
    }
    if p.len() == 64 {
        assert(p.take(64) =~= p);
    }
}

/// A message without a DNS header has no name, and neither has one whose name starts with a label longer than
/// sixty-three bytes, with no label at all, or with a label that the message cuts off.
pub proof fn law_bad_dns_names_are_refused(p: Seq<u8>)
    ensures
        p.len() < 13 ==> qname(p) is None,
        p.len() >= 13 && p[12] > 63 ==> qname(p) is None,
        p.len() >= 13 && p[12] == 0 ==> qname(p) is None,
        p.len() >= 13 && 13 + p[12] > p.len() ==> qname(p) is None,
        p.len() >= 12 && p[4] == 0 && p[5] == 0 ==> qname(p) is None,
{
    if p.len() == 12 {
        assert(labels(p, 12, Seq::empty()) is None);
    }
}

/// A hello whose announced length exceeds the payload, or whose body is not of version three, has no server
/// name.
pub proof fn law_bad_hellos_are_refused(p: Seq<u8>)
    ensures
        p.len() < 9 ==> sni(p) is None,
        p.len() >= 9 && 9 + p[6] * 0x1_0000 + p[7] * 0x100 + p[8] > p.len() ==> sni(p) is None,
        p.len() > 9 && p[9] != 3 ==> sni(p) is None,
{
    if p.len() > 9 && p[9] != 3 {
        let n = p[6] * 0x1_0000 + p[7] * 0x100 + p[8];
        if 9 + n <= p.len() && n >= 35 {
            assert(p.subrange(9, 9 + n)[0] == p[9]);
        }
    }
}

} // verus!
