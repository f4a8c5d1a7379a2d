use sov_vault::config::MetaBind;
use sov_vault::meta::{detect_protocol, extract_key, signature, MetaRegistry, ProtocolKind};

fn binds() -> Vec<MetaBind> {
    vec![
        MetaBind { name: "web".into(), proto: 6, dst_port: 80, fingerprint: "http".into(), extractor: "http_line".into() },
        MetaBind { name: "https".into(), proto: 6, dst_port: 443, fingerprint: "tls".into(), extractor: "sni".into() },
        MetaBind { name: "dns".into(), proto: 17, dst_port: 53, fingerprint: "dns".into(), extractor: "qname".into() },
    ]
}

fn entropy(bytes: &[u8]) -> f64 {
    if bytes.is_empty() {
        return 0.0;
    }
    let mut counts = [0u32; 256];
    for &b in bytes {
        counts[b as usize] += 1;
    }
    let n = bytes.len() as f64;
    let mut h = 0.0;
    for &c in &counts {
        if c != 0 {
            let p = c as f64 / n;
            h -= p * p.log2();
        }
    }
    h
}

fn detect(payload: &[u8], port: u16) -> ProtocolKind {
    detect_protocol(payload, port, entropy(payload) > 4.0)
}

fn tls_client_hello(sni: &str) -> Vec<u8> {
    let mut body = vec![0x03, 0x03];
    body.extend_from_slice(&(0..32u32).map(|i| (i.wrapping_mul(7)) as u8).collect::<Vec<_>>());
    body.push(0);
    body.extend_from_slice(&[0x00, 0x02, 0x13, 0x01]);
    body.push(1);
    body.push(0x00);
    let mut sn = vec![0x00, 0x00];
    sn.push(0);
    sn.extend_from_slice(&(sni.len() as u16).to_be_bytes());
    sn.extend_from_slice(sni.as_bytes());
    let sn_len = (sn.len() as u16).to_be_bytes();
    sn[0..2].copy_from_slice(&sn_len);
    body.extend_from_slice(&(2 + 2 + sn.len() as u16).to_be_bytes());
    body.extend_from_slice(&[0x00, 0x00]);
    body.extend_from_slice(&(sn.len() as u16).to_be_bytes());
    body.extend_from_slice(&sn);
    let body_len = body.len();
    let mut hs = vec![0x01];
    hs.extend_from_slice(&(body_len as u32).to_be_bytes()[1..4]);
    hs.extend_from_slice(&body);
    let hs_len = hs.len();
    let mut rec = vec![0x16, 0x03, 0x01];
    rec.extend_from_slice(&(hs_len as u16).to_be_bytes());
    rec.extend_from_slice(&hs);
    rec
}

fn dns_query() -> Vec<u8> {
    let mut q = vec![0x12, 0x34, 0x01, 0x00, 0x00, 0x01, 0, 0, 0, 0, 0, 0];
    q.extend_from_slice(&[7]);
    q.extend_from_slice(b"example");
    q.extend_from_slice(&[3]);
    q.extend_from_slice(b"com");
    q.push(0);
    q.extend_from_slice(&[0x00, 0x01, 0x00, 0x01]);
    q
}

#[test]
fn http_fingerprint_magic_low_entropy() {
    let b = b"GET /api HTTP/1.1\r\nHost: x\r\n";
    let p = signature(b);
    assert_eq!(p.magic_prefix, b"GET ");
    assert!(entropy(b) < 4.8);
    assert!(!p.has_fixed_header);
}

#[test]
fn tls_fingerprint_fixed_header() {
    let b = tls_client_hello("example.com");
    let p = signature(&b);
    assert_eq!(p.magic_prefix, [0x16, 0x03, 0x01, 0x00]);
    assert!(p.has_fixed_header);
    assert!(entropy(&b[..64]) > 4.0);
}

#[test]
fn dns_fingerprint() {
    let q = dns_query();
    let p = signature(&q);
    assert!(p.has_fixed_header);
    assert_eq!(extract_key(&q, ProtocolKind::Dns).key, b"example.com");
}

#[test]
fn json_low_entropy_vs_binary_high_entropy() {
    let j = b"{\"k\":\"v\",\"n\":1}";
    let p = signature(j);
    assert_eq!(p.magic_prefix, b"{\"k\"");
    assert!(entropy(j) < 5.0);
    let rand: Vec<u8> = (0..64u32).map(|i| (i.wrapping_mul(0x9E3779B9) >> 16) as u8).collect();
    let pb = signature(&rand);
    assert!(entropy(&rand) > 5.5);
    assert!(pb.magic_prefix.len() >= 4);
}

#[test]
fn detect_by_magic_and_port() {
    assert_eq!(detect(b"GET /x", 9999), ProtocolKind::Http);
    assert_eq!(detect(&tls_client_hello("a.com"), 9999), ProtocolKind::Tls);
    assert_eq!(detect(b"hello", 443), ProtocolKind::Tls);
    assert_eq!(detect(b"{\"a\":1}", 9999), ProtocolKind::Json);
    let rand: Vec<u8> = (0..64u32).map(|i| (i.wrapping_mul(0x9E3779B9) >> 16) as u8).collect();
    assert_eq!(detect(&rand, 9999), ProtocolKind::Binary);
    assert_eq!(detect(b"hello world", 9999), ProtocolKind::Unknown);
}

#[test]
fn http_extract_first_line() {
    let k = extract_key(b"GET /a/b?x=1 HTTP/1.1\r\nHost: h\r\n", ProtocolKind::Http);
    assert_eq!(k.key, b"GET /a/b?x=1 HTTP/1.1");
    assert!(!k.pseudo);
    let long = format!("GET /{} HTTP/1.1", "x".repeat(400));
    let k = extract_key(long.as_bytes(), ProtocolKind::Http);
    assert_eq!(k.key.len(), 256);
}

#[test]
fn tls_sni_extract() {
    let k = extract_key(&tls_client_hello("api.example.com"), ProtocolKind::Tls);
    assert_eq!(k.key, b"api.example.com");
    assert!(!k.pseudo);
}

#[test]
fn truncated_hello_falls_back() {
    let hello = tls_client_hello("api.example.com");
    for n in 0..hello.len() {
        let k = extract_key(&hello[..n], ProtocolKind::Tls);
        assert!(k.pseudo);
        assert_eq!(k.key.len(), 8);
    }
}

#[test]
fn dns_name_is_refused_when_malformed() {
    let mut q = dns_query();
    q[12] = 0xC0;
    assert!(extract_key(&q, ProtocolKind::Dns).pseudo);
    let mut q = dns_query();
    q.truncate(20);
    assert!(extract_key(&q, ProtocolKind::Dns).pseudo);
    let mut q = dns_query();
    q[12] = 0;
    assert!(extract_key(&q, ProtocolKind::Dns).pseudo);
}

#[test]
fn pseudo_key_stability_same_signature_same_key() {
    let rand: Vec<u8> = (0..128u32).map(|i| (i.wrapping_mul(0x9E3779B9) >> 16) as u8).collect();
    let k1 = extract_key(&rand, ProtocolKind::Binary);
    let k2 = extract_key(&rand, ProtocolKind::Binary);
    assert!(k1.pseudo);
    assert_eq!(k1.key, k2.key);

    let mut rand2 = rand.clone();
    rand2[0] ^= 0x01;
    let k3 = extract_key(&rand2, ProtocolKind::Binary);
    assert_ne!(k1.key, k3.key);

    let mut rand3 = rand.clone();
    rand3[64] ^= 0x01;
    assert_eq!(extract_key(&rand3, ProtocolKind::Binary).key, k1.key);
}

#[test]
fn registry_bind_by_port_and_extract() {
    let r = MetaRegistry::from_binds(&binds());
    assert_eq!(r.rules().len(), 3);
    assert_eq!(r.resolve(6, 443).unwrap().id, 2);
    assert!(r.resolve(6, 22).is_none());

    let b = r.bind_and_extract(b"GET /x", 6, 80, entropy(b"GET /x") > 4.0);
    assert_eq!(b.meta_bind_id, 1);
    assert_eq!(b.protocol_hint, ProtocolKind::Http.as_u8());
    assert_eq!(b.key, b"GET /x");
    assert!(!b.pseudo);

    let hello = tls_client_hello("srv.test");
    let b = r.bind_and_extract(&hello, 6, 443, entropy(&hello) > 4.0);
    assert_eq!(b.meta_bind_id, 2);
    assert_eq!(b.key, b"srv.test");
    assert!(!b.pseudo);

    let hello = tls_client_hello("h.zz");
    let b = r.bind_and_extract(&hello, 6, 22, entropy(&hello) > 4.0);
    assert_eq!(b.meta_bind_id, -1);
    assert_eq!(b.protocol_hint, ProtocolKind::Tls.as_u8());
    assert_eq!(b.key, b"h.zz");
}

#[test]
fn registry_ids_follow_the_ledger() {
    let mut r = MetaRegistry::from_binds(&binds());
    r.set_rule_id(1, 77);
    r.set_rule_id(9, 5);
    assert_eq!(r.rule(1).unwrap().id, 77);
    assert_eq!(r.rule(1).unwrap().fingerprint, Some(ProtocolKind::Tls));
    assert!(r.rule(3).is_none());
    assert!(!r.is_empty());
    let upper = vec![MetaBind { name: "x".into(), proto: 6, dst_port: 9, fingerprint: "JsOn".into(), extractor: "".into() }];
    let r = MetaRegistry::from_binds(&upper);
    assert_eq!(r.rule(0).unwrap().fingerprint, Some(ProtocolKind::Json));
    assert!(r.rule(0).unwrap().extractor.is_none());
}

#[test]
fn binary_payload_gets_pseudo_key_via_registry() {
    let r = MetaRegistry::from_binds(&binds());
    let rand: Vec<u8> = (0..96u32).map(|i| (i.wrapping_mul(0x9E3779B9) >> 16) as u8).collect();
    let b = r.bind_and_extract(&rand, 6, 9999, entropy(&rand) > 4.0);
    assert_eq!(b.meta_bind_id, -1);
    assert_eq!(b.protocol_hint, ProtocolKind::Binary.as_u8());
    assert!(b.pseudo);
    let b2 = r.bind_and_extract(&rand, 6, 9999, entropy(&rand) > 4.0);
    assert_eq!(b.key, b2.key);
}

#[test]
fn rules_keep_name_and_extractor() {
    let r = MetaRegistry::from_binds(&[
        MetaBind { name: "web".into(), proto: 6, dst_port: 80, fingerprint: "http".into(), extractor: "first_line".into() },
        MetaBind { name: "raw".into(), proto: 6, dst_port: 81, fingerprint: "".into(), extractor: "".into() },
    ]);
    assert_eq!(r.rule(0).unwrap().name, "web");
    assert_eq!(r.rule(0).unwrap().extractor.as_deref(), Some("first_line"));
    assert_eq!(r.rule(1).unwrap().name, "raw");
    assert_eq!(r.rule(1).unwrap().extractor, None);
}
