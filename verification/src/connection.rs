//! Connection hot state: the hash that names a connection and the fixed-size state record.

use crate::codec::{be, be_words, lemma_be_injective, lemma_be_len, lemma_be_words_injective, lemma_be_words_len, lemma_from_be_round_trip, lemma_pow256_values, push_be, push_words, read_be, read_words, to_array};
use vstd::prelude::*;

pub mod anomaly;

verus! {

/// FNV-1a 64-bit offset basis.
const FNV1A64_OFFSET: u64 = 0xcbf2_9ce4_8422_2325;

/// FNV-1a 64-bit prime.
const FNV1A64_PRIME: u64 = 0x0000_0100_0000_01b3;

/// One FNV-1a step: fold a byte into the running hash.
pub open spec fn fnv_step(h: u64, b: u8) -> u64 {
    (((h ^ (b as u64)) * 0x0000_0100_0000_01b3) % 0x1_0000_0000_0000_0000) as u64
}

/// FNV-1a 64 of a byte sequence.
pub open spec fn fnv(data: Seq<u8>) -> u64
    decreases data.len(),
{
    if data.len() == 0 {
        0xcbf2_9ce4_8422_2325
    } else {
        fnv_step(fnv(data.drop_last()), data.last())
    }
}

/// FNV-1a 64, the one hash used for every index key.
pub fn fnv1a64(data: &[u8]) -> (h: u64)
    ensures
        h == fnv(data@),
{
    let mut h: u64 = FNV1A64_OFFSET;
    let mut i: usize = 0;
    assert(data@.take(0) =~= Seq::<u8>::empty());
    while i < data.len()
        invariant
            i <= data@.len(),
            h == fnv(data@.take(i as int)),
        decreases data@.len() - i,
    {
        assert(data@.take(i + 1).drop_last() =~= data@.take(i as int));
        h = (h ^ (data[i] as u64)).wrapping_mul(FNV1A64_PRIME);
        i += 1;
    }
    assert(data@.take(i as int) =~= data@);
    h
}

/// The 17 key bytes of a connection: device, client ip and port, server ip and port, protocol.
pub open spec fn conn_key(dev_id: u32, client_ip: u32, client_port: u16, server_ip: u32, server_port: u16, proto: u8) -> Seq<u8> {
    be(dev_id as nat, 4) + be(client_ip as nat, 4) + be(client_port as nat, 2) + be(server_ip as nat, 4) + be(server_port as nat, 2)
        + be(proto as nat, 1)
}

/// The connection key in its fixed 17-byte layout.
pub fn conn_key_bytes(dev_id: u32, client_ip: u32, client_port: u16, server_ip: u32, server_port: u16, proto: u8) -> (b: [u8; 17])
    ensures
        b@ == conn_key(dev_id, client_ip, client_port, server_ip, server_port, proto),
{
    let mut v: Vec<u8> = Vec::new();
    push_be(&mut v, dev_id as u64, 4);
    push_be(&mut v, client_ip as u64, 4);
    push_be(&mut v, client_port as u64, 2);
    push_be(&mut v, server_ip as u64, 4);
    push_be(&mut v, server_port as u64, 2);
    push_be(&mut v, proto as u64, 1);
    proof {
        lemma_be_len(dev_id as nat, 4);
        lemma_be_len(client_ip as nat, 4);
        lemma_be_len(client_port as nat, 2);
        lemma_be_len(server_ip as nat, 4);
        lemma_be_len(server_port as nat, 2);
        lemma_be_len(proto as nat, 1);
        assert(v@ =~= conn_key(dev_id, client_ip, client_port, server_ip, server_port, proto));
    }
    to_array(&v)
}

/// The hash that names a connection in every index.
pub open spec fn conn_hash_of(dev_id: u32, client_ip: u32, client_port: u16, server_ip: u32, server_port: u16, proto: u8) -> u64 {
    fnv(conn_key(dev_id, client_ip, client_port, server_ip, server_port, proto))
}

/// Hash of the five-tuple together with the capturing device.
pub fn conn_hash(dev_id: u32, client_ip: u32, client_port: u16, server_ip: u32, server_port: u16, proto: u8) -> (h: u64)
    ensures
        h == conn_hash_of(dev_id, client_ip, client_port, server_ip, server_port, proto),
{
    let key = conn_key_bytes(dev_id, client_ip, client_port, server_ip, server_port, proto);
    fnv1a64(key.as_slice())
}

/// Life-cycle state of a connection.
#[derive(Debug, Clone, Copy, PartialEq, Eq, Structural)]
pub enum ConnStateKind {
    SynSent,
    SynRcvd,
    Established,
    Closed,
    Reset,
    Timeout,
    HalfOpen,
    Quarantined,
}

impl ConnStateKind {
    /// The stored code of a state.
    pub open spec fn code(self) -> u8 {
        match self {
            ConnStateKind::SynSent => 0,
            ConnStateKind::SynRcvd => 1,
            ConnStateKind::Established => 2,
            ConnStateKind::Closed => 3,
            ConnStateKind::Reset => 4,
            ConnStateKind::Timeout => 5,
            ConnStateKind::HalfOpen => 6,
            ConnStateKind::Quarantined => 7,
        }
    }

    /// The stored code of a state.
    pub fn as_u8(self) -> (v: u8)
        ensures
            v == self.code(),
    {
        match self {
            ConnStateKind::SynSent => 0,
            ConnStateKind::SynRcvd => 1,
            ConnStateKind::Established => 2,
            ConnStateKind::Closed => 3,
            ConnStateKind::Reset => 4,
            ConnStateKind::Timeout => 5,
            ConnStateKind::HalfOpen => 6,
            ConnStateKind::Quarantined => 7,
        }
    }
}

/// Hot state of one connection.
#[derive(Debug, Clone, Copy, PartialEq, Eq)]
pub struct ConnState {
    pub state: u8,
    pub reserved0: [u8; 7],
    pub client_ip: u32,
    pub client_port: u16,
    pub server_ip: u32,
    pub server_port: u16,
    pub proto: u8,
    pub reserved1: [u8; 1],
    pub first_ts: u64,
    pub last_ts: u64,
    pub syn_seen: u64,
    pub synack_seen: u64,
    pub fin_seen: u64,
    pub rst_seen: u64,
    pub req_cnt: u64,
    pub resp_cnt: u64,
    pub bytes_c: u64,
    pub bytes_s: u64,
    pub pkts_c: u64,
    pub pkts_s: u64,
    pub abs_seq_c: u64,
    pub abs_seq_s: u64,
    pub consumed_ack_c: u64,
    pub consumed_ack_s: u64,
    pub meta_bind_id: i64,
    pub protocol_hint: u8,
    pub anomaly_flags: u32,
    pub qr_open: u64,
    /// Raw sequence number at the head of the client stream.
    pub last_raw_c: u32,
    /// Raw sequence number at the head of the server stream.
    pub last_raw_s: u32,
    /// Generation of the connection; a new handshake on the same five-tuple starts the next one.
    pub incarnation: u16,
    /// Locator of the SYN that opened this incarnation.
    pub syn_pkt_idx: u64,
    /// Bit 0: the client stream has a baseline. Bit 1: the server stream has one. Bit 2: the client has sent
    /// a FIN. Bit 3: the server has sent one.
    pub active: u8,
}

impl View for ConnState {
    type V = ConnState;

    open spec fn view(&self) -> ConnState {
        *self
    }
}

/// Length of a serialized connection state.
pub const CONN_STATE_SIZE: usize = 190;

/// `n` zero bytes.
pub open spec fn zeros(n: nat) -> Seq<u8> {
    Seq::new(n, |i: int| 0u8)
}

/// The first 22 bytes: state, seven reserved, client address and port, server address and port,
/// protocol, one reserved.
pub open spec fn conn_state_head(s: ConnState) -> Seq<u8> {
    be(s.state as nat, 1) + zeros(7) + be(s.client_ip as nat, 4) + be(s.client_port as nat, 2) + be(s.server_ip as nat, 4)
        + be(s.server_port as nat, 2) + be(s.proto as nat, 1) + zeros(1)
}

/// The sixteen 8-byte words that follow the head.
pub open spec fn conn_state_words(s: ConnState) -> Seq<u64> {
    seq![
        s.first_ts, s.last_ts, s.syn_seen, s.synack_seen, s.fin_seen, s.rst_seen, s.req_cnt, s.resp_cnt,
        s.bytes_c, s.bytes_s, s.pkts_c, s.pkts_s, s.abs_seq_c, s.abs_seq_s, s.consumed_ack_c, s.consumed_ack_s,
    ]
}

/// The last 40 bytes: rule id, protocol hint, anomaly mask, open requests, and then the stream
/// positions, the incarnation with its SYN, and the active bits.
pub open spec fn conn_state_tail(s: ConnState) -> Seq<u8> {
    be((s.meta_bind_id as u64) as nat, 8) + be(s.protocol_hint as nat, 1) + be(s.anomaly_flags as nat, 4) + be(s.qr_open as nat, 8)
        + be(s.last_raw_c as nat, 4) + be(s.last_raw_s as nat, 4) + be(s.incarnation as nat, 2) + be(s.syn_pkt_idx as nat, 8)
        + be(s.active as nat, 1)
}

/// The serialized form of a connection state.
pub open spec fn conn_state_bytes(s: ConnState) -> Seq<u8> {
    conn_state_head(s) + be_words(conn_state_words(s)) + conn_state_tail(s)
}

/// A serialized state with its reserved bytes cleared.
pub open spec fn blank_reserved(b: Seq<u8>) -> Seq<u8> {
    Seq::new(b.len(), |i: int| if 1 <= i < 8 || i == 21 { 0u8 } else { b[i] })
}

/// The reserved fields hold zeros, as in every state that was built or read by this library.
pub open spec fn reserved_clear(s: ConnState) -> bool {
    s.reserved0@ == zeros(7) && s.reserved1@ == zeros(1)
}

pub(crate) proof fn lemma_head_len(s: ConnState)
    ensures
        conn_state_head(s).len() == 22,
        conn_state_tail(s).len() == 40,
        be_words(conn_state_words(s)).len() == 128,
        conn_state_bytes(s).len() == 190,
{
    lemma_be_len(s.state as nat, 1);
    lemma_be_len(s.client_ip as nat, 4);
    lemma_be_len(s.server_ip as nat, 4);
    lemma_be_len(s.client_port as nat, 2);
    lemma_be_len(s.server_port as nat, 2);
    lemma_be_len(s.proto as nat, 1);
    lemma_be_len((s.meta_bind_id as u64) as nat, 8);
    lemma_be_len(s.protocol_hint as nat, 1);
    lemma_be_len(s.anomaly_flags as nat, 4);
    lemma_be_len(s.qr_open as nat, 8);
    lemma_be_len(s.last_raw_c as nat, 4);
    lemma_be_len(s.last_raw_s as nat, 4);
    lemma_be_len(s.incarnation as nat, 2);
    lemma_be_len(s.syn_pkt_idx as nat, 8);
    lemma_be_len(s.active as nat, 1);
    lemma_be_words_len(conn_state_words(s));
}

impl ConnState {
    /// Whether the client stream has a baseline.
    pub open spec fn has_c(self) -> bool {
        self.active % 2 == 1
    }

    /// Whether the server stream has a baseline.
    pub open spec fn has_s(self) -> bool {
        (self.active / 2) % 2 == 1
    }

    /// Whether the client stream has a baseline.
    pub fn active_c(&self) -> (r: bool)
        ensures
            r == self.has_c(),
    {
        self.active % 2 == 1
    }

    /// Whether the server stream has a baseline.
    pub fn active_s(&self) -> (r: bool)
        ensures
            r == self.has_s(),
    {
        (self.active / 2) % 2 == 1
    }

    /// Records whether the client stream has a baseline.
    pub fn set_active_c(&mut self, on: bool)
        ensures
            *final(self) == (ConnState { active: final(self).active, ..*old(self) }),
            final(self).has_c() == on,
            final(self).active / 2 == old(self).active / 2,
            final(self).active == active_with_c(old(self).active, on),
    {
        self.active = self.active / 2 * 2 + if on { 1u8 } else { 0u8 };
    }

    /// Records whether the server stream has a baseline.
    pub fn set_active_s(&mut self, on: bool)
        ensures
            *final(self) == (ConnState { active: final(self).active, ..*old(self) }),
            final(self).has_s() == on,
            final(self).active % 2 == old(self).active % 2,
            final(self).active / 4 == old(self).active / 4,
            final(self).active == active_with_s(old(self).active, on),
    {
        self.active = self.active / 4 * 4 + self.active % 2 + if on { 2u8 } else { 0u8 };
    }

    /// Notes the FIN of one side.
    pub fn set_fin(&mut self, client: bool)
        ensures
            *final(self) == (ConnState { active: active_with_fin(old(self).active, client), ..*old(self) }),
    {
        if client {
            if self.active / 4 % 2 == 0 {
                self.active = self.active + 4;
            }
        } else if self.active / 8 % 2 == 0 {
            self.active = self.active + 8;
        }
    }

    /// Whether both sides have sent a FIN.
    pub fn fin_both(&self) -> (r: bool)
        ensures
            r == both_fins(self.active),
    {
        self.active / 4 % 2 == 1 && self.active / 8 % 2 == 1
    }

    /// Serializes the state, every field big-endian, reserved bytes zero.
    pub fn to_bytes(&self) -> (b: [u8; CONN_STATE_SIZE])
        ensures
            b@ == conn_state_bytes(*self),
    {
        let mut v: Vec<u8> = Vec::new();
        push_be(&mut v, self.state as u64, 1);
        push_zeros(&mut v, 7);
        push_be(&mut v, self.client_ip as u64, 4);
        push_be(&mut v, self.client_port as u64, 2);
        push_be(&mut v, self.server_ip as u64, 4);
        push_be(&mut v, self.server_port as u64, 2);
        push_be(&mut v, self.proto as u64, 1);
        push_zeros(&mut v, 1);
        assert(v@ =~= conn_state_head(*self));
        let words: Vec<u64> = vec![
            self.first_ts, self.last_ts, self.syn_seen, self.synack_seen, self.fin_seen, self.rst_seen,
            self.req_cnt, self.resp_cnt, self.bytes_c, self.bytes_s, self.pkts_c, self.pkts_s,
            self.abs_seq_c, self.abs_seq_s, self.consumed_ack_c, self.consumed_ack_s,
        ];
        assert(words@ =~= conn_state_words(*self));
        push_words(&mut v, &words);
        let ghost mid = v@;
        push_be(&mut v, self.meta_bind_id as u64, 8);
        push_be(&mut v, self.protocol_hint as u64, 1);
        push_be(&mut v, self.anomaly_flags as u64, 4);
        push_be(&mut v, self.qr_open, 8);
        push_be(&mut v, self.last_raw_c as u64, 4);
        push_be(&mut v, self.last_raw_s as u64, 4);
        push_be(&mut v, self.incarnation as u64, 2);
        push_be(&mut v, self.syn_pkt_idx, 8);
        push_be(&mut v, self.active as u64, 1);
        proof {
            assert(v@ =~= mid + conn_state_tail(*self));
            lemma_head_len(*self);
        }
        to_array(&v)
    }

    /// Reads a state back; any length but the fixed one is refused.
    pub fn from_bytes(b: &[u8]) -> (r: Option<ConnState>)
        ensures
            r is Some <==> b@.len() == CONN_STATE_SIZE,
            r matches Some(s) ==> conn_state_bytes(s) == blank_reserved(b@) && reserved_clear(s),
    {
        if b.len() != CONN_STATE_SIZE {
            return None;
        }
        let ws: Vec<u64> = read_words(b, 22, 16);
        let raw_bind: u64 = read_be(b, 150, 158);
        let s = ConnState {
            state: read_be(b, 0, 1) as u8,
            reserved0: [0u8, 0u8, 0u8, 0u8, 0u8, 0u8, 0u8],
            client_ip: read_be(b, 8, 12) as u32,
            client_port: read_be(b, 12, 14) as u16,
            server_ip: read_be(b, 14, 18) as u32,
            server_port: read_be(b, 18, 20) as u16,
            proto: read_be(b, 20, 21) as u8,
            reserved1: [0u8],
            first_ts: ws[0],
            last_ts: ws[1],
            syn_seen: ws[2],
            synack_seen: ws[3],
            fin_seen: ws[4],
            rst_seen: ws[5],
            req_cnt: ws[6],
            resp_cnt: ws[7],
            bytes_c: ws[8],
            bytes_s: ws[9],
            pkts_c: ws[10],
            pkts_s: ws[11],
            abs_seq_c: ws[12],
            abs_seq_s: ws[13],
            consumed_ack_c: ws[14],
            consumed_ack_s: ws[15],
            meta_bind_id: raw_bind as i64,
            protocol_hint: read_be(b, 158, 159) as u8,
            anomaly_flags: read_be(b, 159, 163) as u32,
            qr_open: read_be(b, 163, 171),
            last_raw_c: read_be(b, 171, 175) as u32,
            last_raw_s: read_be(b, 175, 179) as u32,
            incarnation: read_be(b, 179, 181) as u16,
            syn_pkt_idx: read_be(b, 181, 189),
            active: read_be(b, 189, 190) as u8,
        };
        proof {
            lemma_pow256_values();
            lemma_from_be_round_trip(b@.subrange(0, 1));
            lemma_from_be_round_trip(b@.subrange(8, 12));
            lemma_from_be_round_trip(b@.subrange(12, 14));
            lemma_from_be_round_trip(b@.subrange(14, 18));
            lemma_from_be_round_trip(b@.subrange(18, 20));
            lemma_from_be_round_trip(b@.subrange(20, 21));
            lemma_from_be_round_trip(b@.subrange(150, 158));
            lemma_from_be_round_trip(b@.subrange(158, 159));
            lemma_from_be_round_trip(b@.subrange(159, 163));
            lemma_from_be_round_trip(b@.subrange(163, 171));
            lemma_from_be_round_trip(b@.subrange(171, 175));
            lemma_from_be_round_trip(b@.subrange(175, 179));
            lemma_from_be_round_trip(b@.subrange(179, 181));
            lemma_from_be_round_trip(b@.subrange(181, 189));
            lemma_from_be_round_trip(b@.subrange(189, 190));
            assert((raw_bind as i64) as u64 == raw_bind) by (bit_vector);
            lemma_head_len(s);
            let z = blank_reserved(b@);
            assert(conn_state_head(s) =~= z.subrange(0, 22));
            assert(conn_state_words(s) =~= ws@);
            assert(be_words(ws@) =~= z.subrange(22, 150));
            assert(conn_state_tail(s) =~= z.subrange(150, 190));
            assert(conn_state_bytes(s) =~= z);
            assert(s.reserved0@ =~= zeros(7));
            assert(s.reserved1@ =~= zeros(1));
        }
        Some(s)
    }
}

/// The state with every field zero.
pub open spec fn zero_state() -> ConnState {
    ConnState {
        state: 0,
        reserved0: [0u8, 0u8, 0u8, 0u8, 0u8, 0u8, 0u8],
        client_ip: 0,
        client_port: 0,
        server_ip: 0,
        server_port: 0,
        proto: 0,
        reserved1: [0u8],
        first_ts: 0,
        last_ts: 0,
        syn_seen: 0,
        synack_seen: 0,
        fin_seen: 0,
        rst_seen: 0,
        req_cnt: 0,
        resp_cnt: 0,
        bytes_c: 0,
        bytes_s: 0,
        pkts_c: 0,
        pkts_s: 0,
        abs_seq_c: 0,
        abs_seq_s: 0,
        consumed_ack_c: 0,
        consumed_ack_s: 0,
        meta_bind_id: 0,
        protocol_hint: 0,
        anomaly_flags: 0,
        qr_open: 0,
        last_raw_c: 0,
        last_raw_s: 0,
        incarnation: 0,
        syn_pkt_idx: 0,
        active: 0,
    }
}

impl Default for ConnState {
    /// All fields zero.
    fn default() -> (s: ConnState)
        ensures
            reserved_clear(s),
            s.state == 0 && s.client_ip == 0 && s.client_port == 0 && s.server_ip == 0 && s.server_port == 0 && s.proto == 0,
            conn_state_words(s) == Seq::new(16, |i: int| 0u64),
            s.meta_bind_id == 0 && s.protocol_hint == 0 && s.anomaly_flags == 0 && s.qr_open == 0,
            s.last_raw_c == 0 && s.last_raw_s == 0 && s.incarnation == 0 && s.syn_pkt_idx == 0 && s.active == 0,
            s == zero_state(),
    {
        let s = ConnState {
            state: 0,
            reserved0: [0u8, 0u8, 0u8, 0u8, 0u8, 0u8, 0u8],
            client_ip: 0,
            client_port: 0,
            server_ip: 0,
            server_port: 0,
            proto: 0,
            reserved1: [0u8],
            first_ts: 0,
            last_ts: 0,
            syn_seen: 0,
            synack_seen: 0,
            fin_seen: 0,
            rst_seen: 0,
            req_cnt: 0,
            resp_cnt: 0,
            bytes_c: 0,
            bytes_s: 0,
            pkts_c: 0,
            pkts_s: 0,
            abs_seq_c: 0,
            abs_seq_s: 0,
            consumed_ack_c: 0,
            consumed_ack_s: 0,
            meta_bind_id: 0,
            protocol_hint: 0,
            anomaly_flags: 0,
            qr_open: 0,
            last_raw_c: 0,
            last_raw_s: 0,
            incarnation: 0,
            syn_pkt_idx: 0,
            active: 0,
        };
        assert(s.reserved0@ =~= zeros(7));
        assert(s.reserved1@ =~= zeros(1));
        assert(conn_state_words(s) =~= Seq::new(16, |i: int| 0u64));
        s
    }
}

/// The active bits with the client bit set to `on`.
pub open spec fn active_with_c(a: u8, on: bool) -> u8 {
    (a / 2 * 2 + if on { 1int } else { 0int }) as u8
}

/// The active bits with the server bit set to `on`.
pub open spec fn active_with_s(a: u8, on: bool) -> u8 {
    (a / 4 * 4 + a % 2 + if on { 2int } else { 0int }) as u8
}

/// Whether both sides have sent a FIN.
pub open spec fn both_fins(a: u8) -> bool {
    a / 4 % 2 == 1 && a / 8 % 2 == 1
}

/// The active bits with the FIN of one side noted.
pub open spec fn active_with_fin(a: u8, client: bool) -> u8 {
    if client {
        if a / 4 % 2 == 1 {
            a
        } else {
            (a + 4) as u8
        }
    } else if a / 8 % 2 == 1 {
        a
    } else {
        (a + 8) as u8
    }
}

/// Appends `n` zero bytes.
fn push_zeros(v: &mut Vec<u8>, n: usize)
    ensures
        final(v)@ == old(v)@ + zeros(n as nat),
{
    let ghost v0 = v@;
    let mut i: usize = 0;
    assert(v@ =~= v0 + zeros(0));
    while i < n
        invariant
            i <= n,
            v@ == v0 + zeros(i as nat),
        decreases n - i,
    {
        v.push(0);
        i += 1;
        assert(v@ =~= v0 + zeros(i as nat));
    }
}

/// Reading back a serialized state gives every field that was written: two states with the same
/// bytes agree on all but the reserved fields.
pub proof fn law_conn_state_injective(a: ConnState, b: ConnState)
    requires
        conn_state_bytes(a) == conn_state_bytes(b),
    ensures
        a.state == b.state,
        a.client_ip == b.client_ip && a.server_ip == b.server_ip,
        a.client_port == b.client_port && a.server_port == b.server_port,
        a.proto == b.proto,
        conn_state_words(a) == conn_state_words(b),
        a.meta_bind_id == b.meta_bind_id,
        a.protocol_hint == b.protocol_hint,
        a.anomaly_flags == b.anomaly_flags,
        a.qr_open == b.qr_open,
        a.last_raw_c == b.last_raw_c && a.last_raw_s == b.last_raw_s,
        a.incarnation == b.incarnation,
        a.syn_pkt_idx == b.syn_pkt_idx,
        a.active == b.active,
{
    lemma_head_len(a);
    lemma_head_len(b);
    lemma_pow256_values();
    let (x, y) = (conn_state_bytes(a), conn_state_bytes(b));
    assert(conn_state_head(a) =~= x.subrange(0, 22));
    assert(conn_state_head(b) =~= y.subrange(0, 22));
    assert(be_words(conn_state_words(a)) =~= x.subrange(22, 150));
    assert(be_words(conn_state_words(b)) =~= y.subrange(22, 150));
    assert(conn_state_tail(a) =~= x.subrange(150, 190));
    assert(conn_state_tail(b) =~= y.subrange(150, 190));
    lemma_be_words_injective(conn_state_words(a), conn_state_words(b));
    lemma_head_fields(a);
    lemma_head_fields(b);
    lemma_be_injective(a.state as nat, b.state as nat, 1);
    lemma_be_injective(a.client_ip as nat, b.client_ip as nat, 4);
    lemma_be_injective(a.server_ip as nat, b.server_ip as nat, 4);
    lemma_be_injective(a.client_port as nat, b.client_port as nat, 2);
    lemma_be_injective(a.server_port as nat, b.server_port as nat, 2);
    lemma_be_injective(a.proto as nat, b.proto as nat, 1);
    lemma_be_injective((a.meta_bind_id as u64) as nat, (b.meta_bind_id as u64) as nat, 8);
    lemma_be_injective(a.protocol_hint as nat, b.protocol_hint as nat, 1);
    lemma_be_injective(a.anomaly_flags as nat, b.anomaly_flags as nat, 4);
    lemma_be_injective(a.qr_open as nat, b.qr_open as nat, 8);
    lemma_be_injective(a.last_raw_c as nat, b.last_raw_c as nat, 4);
    lemma_be_injective(a.last_raw_s as nat, b.last_raw_s as nat, 4);
    lemma_be_injective(a.incarnation as nat, b.incarnation as nat, 2);
    lemma_be_injective(a.syn_pkt_idx as nat, b.syn_pkt_idx as nat, 8);
    lemma_be_injective(a.active as nat, b.active as nat, 1);
    let (p, q) = (a.meta_bind_id, b.meta_bind_id);
    assert(p as u64 == q as u64 ==> p == q) by (bit_vector);
}

pub(crate) proof fn lemma_head_fields(s: ConnState)
    ensures
        conn_state_head(s).subrange(0, 1) == be(s.state as nat, 1),
        conn_state_head(s).subrange(8, 12) == be(s.client_ip as nat, 4),
        conn_state_head(s).subrange(12, 14) == be(s.client_port as nat, 2),
        conn_state_head(s).subrange(14, 18) == be(s.server_ip as nat, 4),
        conn_state_head(s).subrange(18, 20) == be(s.server_port as nat, 2),
        conn_state_head(s).subrange(20, 21) == be(s.proto as nat, 1),
        conn_state_tail(s).subrange(0, 8) == be((s.meta_bind_id as u64) as nat, 8),
        conn_state_tail(s).subrange(8, 9) == be(s.protocol_hint as nat, 1),
        conn_state_tail(s).subrange(9, 13) == be(s.anomaly_flags as nat, 4),
        conn_state_tail(s).subrange(13, 21) == be(s.qr_open as nat, 8),
        conn_state_tail(s).subrange(21, 25) == be(s.last_raw_c as nat, 4),
        conn_state_tail(s).subrange(25, 29) == be(s.last_raw_s as nat, 4),
        conn_state_tail(s).subrange(29, 31) == be(s.incarnation as nat, 2),
        conn_state_tail(s).subrange(31, 39) == be(s.syn_pkt_idx as nat, 8),
        conn_state_tail(s).subrange(39, 40) == be(s.active as nat, 1),
{
    lemma_be_len(s.state as nat, 1);
    lemma_be_len(s.client_ip as nat, 4);
    lemma_be_len(s.server_ip as nat, 4);
    lemma_be_len(s.client_port as nat, 2);
    lemma_be_len(s.server_port as nat, 2);
    lemma_be_len(s.proto as nat, 1);
    lemma_be_len((s.meta_bind_id as u64) as nat, 8);
    lemma_be_len(s.protocol_hint as nat, 1);
    lemma_be_len(s.anomaly_flags as nat, 4);
    lemma_be_len(s.qr_open as nat, 8);
    lemma_be_len(s.last_raw_c as nat, 4);
    lemma_be_len(s.last_raw_s as nat, 4);
    lemma_be_len(s.incarnation as nat, 2);
    lemma_be_len(s.syn_pkt_idx as nat, 8);
    lemma_be_len(s.active as nat, 1);
}

} // verus!
