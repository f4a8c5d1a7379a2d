//! Export of records as packets: filtering, and the frames that stand for them on the wire.

use crate::codec::{be, from_be, lemma_from_be_round_trip, lemma_pow256_values, push_be, read_be};
use crate::db::RecordSummary;
use crate::matching::sat_add;
use crate::query::RecordRow;
use crate::text::{push_range, str_eq};
use crate::wal::{WalRecord, TCP_ACK, TCP_FIN, TCP_PSH, TCP_RST, TCP_SYN, TCP_URG};
use vstd::prelude::*;

verus! {

/// Bytes of an Ethernet header.
pub const L2_ETH: usize = 14;

/// Bytes of an IPv4 header.
pub const L3_IPV4: usize = 20;

/// Bytes of a TCP header without options.
pub const L4_TCP: usize = 20;

/// Bytes of a UDP header.
pub const L4_UDP: usize = 8;

/// What an export wrote and left out.
#[derive(Debug, Clone, Copy, PartialEq, Eq, Structural)]
pub struct PcapStats {
    /// Packets written.
    pub packets: u64,
    /// Records that the filter kept out.
    pub filtered: u64,
    /// Records whose stored form could not be read back.
    pub unresolved: u64,
    /// Bytes written.
    pub incl_bytes: u64,
    /// Bytes that the packets had on the wire.
    pub orig_bytes: u64,
}

impl Default for PcapStats {
    fn default() -> (s: PcapStats)
        ensures
            s == (PcapStats { packets: 0, filtered: 0, unresolved: 0, incl_bytes: 0, orig_bytes: 0 }),
    {
        PcapStats { packets: 0, filtered: 0, unresolved: 0, incl_bytes: 0, orig_bytes: 0 }
    }
}

/// Which packets to export. Addresses, ports and the protocol are tested on the digest of a record, TCP
/// flags on the record itself, since a digest mixes another flag into them.
#[derive(Debug, Clone, Copy, PartialEq, Eq)]
pub struct BpfFilter {
    pub proto: Option<u8>,
    pub src_ip: Option<u32>,
    pub dst_ip: Option<u32>,
    pub sport: Option<u16>,
    pub dport: Option<u16>,
    /// At least one of these flags is set.
    pub flags_any: Option<u8>,
    /// All of these flags are set.
    pub flags_all: Option<u8>,
}

impl Default for BpfFilter {
    fn default() -> (f: BpfFilter)
        ensures
            f.admits_all(),
    {
        BpfFilter { proto: None, src_ip: None, dst_ip: None, sport: None, dport: None, flags_any: None, flags_all: None }
    }
}

impl BpfFilter {
    /// The filter tests nothing.
    pub open spec fn admits_all(self) -> bool {
        self == (BpfFilter { proto: None, src_ip: None, dst_ip: None, sport: None, dport: None, flags_any: None, flags_all: None })
    }

    /// What a digest must have.
    pub open spec fn admits_summary(self, s: RecordSummary) -> bool {
        &&& self.proto is None || self.proto == Some(s.proto)
        &&& self.src_ip is None || self.src_ip == Some(s.src_ip)
        &&& self.dst_ip is None || self.dst_ip == Some(s.dst_ip)
        &&& self.sport is None || self.sport == Some(s.sport)
        &&& self.dport is None || self.dport == Some(s.dport)
    }

    /// What the TCP flags of a record must have.
    pub open spec fn admits_flags(self, flags: u8) -> bool {
        &&& self.flags_any matches Some(any) ==> flags & any != 0
        &&& self.flags_all matches Some(all) ==> flags & all == all
    }

    /// Tests the digest of a record.
    pub fn matches_summary(&self, s: &RecordSummary) -> (r: bool)
        ensures
            r == self.admits_summary(*s),
    {
        if let Some(p) = self.proto {
            if p != s.proto {
                return false;
            }
        }
        if let Some(ip) = self.src_ip {
            if ip != s.src_ip {
                return false;
            }
        }
        if let Some(ip) = self.dst_ip {
            if ip != s.dst_ip {
                return false;
            }
        }
        if let Some(port) = self.sport {
            if port != s.sport {
                return false;
            }
        }
        if let Some(port) = self.dport {
            if port != s.dport {
                return false;
            }
        }
        true
    }

    /// Tests the TCP flags of a record.
    pub fn matches_record(&self, rec: &WalRecord) -> (r: bool)
        ensures
            r == self.admits_flags(rec.tcp_flags),
    {
        if let Some(any) = self.flags_any {
            if rec.tcp_flags & any == 0 {
                return false;
            }
        }
        if let Some(all) = self.flags_all {
            if rec.tcp_flags & all != all {
                return false;
            }
        }
        true
    }

    /// Whether the filter tests nothing.
    pub fn is_empty(&self) -> (r: bool)
        ensures
            r == self.admits_all(),
    {
        self.proto.is_none() && self.src_ip.is_none() && self.dst_ip.is_none() && self.sport.is_none() && self.dport.is_none()
            && self.flags_any.is_none() && self.flags_all.is_none()
    }

    /// The flags with the given names; none if one of them is not known.
    pub fn parse_flags(names: &[&str]) -> (r: Option<u8>)
        ensures
            r == flags_named(names@),
    {
        let mut bits: u8 = 0;
        let mut i: usize = 0;
        assert(names@.take(0) =~= Seq::empty());
        while i < names.len()
            invariant
                i <= names@.len(),
                flags_named(names@.take(i as int)) == Some(bits),
            decreases names@.len() - i,
        {
            let n = names[i];
            assert(names@.take(i + 1).drop_last() =~= names@.take(i as int));
            assert(names@.take(i + 1).last() == n);
            let b: u8 = if str_eq(n, "fin") {
                TCP_FIN
            } else if str_eq(n, "syn") {
                TCP_SYN
            } else if str_eq(n, "rst") {
                TCP_RST
            } else if str_eq(n, "psh") {
                TCP_PSH
            } else if str_eq(n, "ack") {
                TCP_ACK
            } else if str_eq(n, "urg") {
                TCP_URG
            } else {
                proof {
                    lemma_unknown_flag(names@, i + 1);
                }
                return None;
            };
            bits = bits | b;
            i += 1;
        }
        assert(names@.take(names@.len() as int) =~= names@);
        Some(bits)
    }
}

/// The flag with a given name.
pub open spec fn flag_named(name: Seq<char>) -> Option<u8> {
    if name == "fin"@ {
        Some(TCP_FIN)
    } else if name == "syn"@ {
        Some(TCP_SYN)
    } else if name == "rst"@ {
        Some(TCP_RST)
    } else if name == "psh"@ {
        Some(TCP_PSH)
    } else if name == "ack"@ {
        Some(TCP_ACK)
    } else if name == "urg"@ {
        Some(TCP_URG)
    } else {
        None
    }
}

/// The flags with the given names together.
pub open spec fn flags_named(names: Seq<&str>) -> Option<u8>
    decreases names.len(),
{
    if names.len() == 0 {
        Some(0)
    } else {
        match (flags_named(names.drop_last()), flag_named(names.last()@)) {
            (Some(a), Some(b)) => Some(a | b),
            _ => None,
        }
    }
}

proof fn lemma_unknown_flag(names: Seq<&str>, i: int)
    requires
        0 <= i <= names.len(),
        flags_named(names.take(i)) is None,
    ensures
        flags_named(names) is None,
    decreases names.len() - i,
{
    if i == names.len() {
        assert(names.take(i) =~= names);
    } else {
        assert(names.take(i + 1).drop_last() =~= names.take(i));
        lemma_unknown_flag(names, i + 1);
    }
}

/// Bytes of the transport header of a record.
pub open spec fn l4_len(proto: u16) -> nat {
    if proto == 6 {
        20
    } else {
        8
    }
}

/// The transport header of a record, with checksums left out.
pub open spec fn l4_header(rec: WalRecord) -> Seq<u8> {
    let ports = be(rec.src_port as nat, 2) + be(rec.dst_port as nat, 2);
    if rec.proto == 6 {
        ports + be(rec.tcp_seq as nat, 4) + be(rec.tcp_ack as nat, 4) + seq![0x50u8, rec.tcp_flags] + be(rec.window_size as nat, 2)
            + seq![0u8, 0u8, 0u8, 0u8]
    } else {
        ports + be(8 + rec.payload@.len(), 2) + seq![0u8, 0u8]
    }
}

/// The network header of a record: its length field holds the low sixteen bits of the length.
pub open spec fn l3_header(rec: WalRecord) -> Seq<u8> {
    seq![0x45u8, 0u8] + be(20 + l4_len(rec.proto) + rec.payload@.len(), 2) + seq![0u8, 1u8, 0x40u8, 0u8, 0x40u8] + be(rec.proto as nat, 1)
        + seq![0u8, 0u8] + rec.src_ip@ + rec.dst_ip@
}

/// The link header, between two made-up stations.
pub open spec fn l2_header() -> Seq<u8> {
    seq![2u8, 0u8, 0u8, 0u8, 0u8, 2u8, 2u8, 0u8, 0u8, 0u8, 0u8, 1u8, 8u8, 0u8]
}

/// The frame that stands for a record.
pub open spec fn frame_of(rec: WalRecord) -> Seq<u8> {
    l2_header() + l3_header(rec) + l4_header(rec) + rec.payload@
}

/// Bytes that the packet of a record had on the wire, in 32 bits.
pub open spec fn wire_len(rec: WalRecord) -> u32 {
    ((34 + l4_len(rec.proto) + rec.orig_payload_len) % 0x1_0000_0000) as u32
}

fn push_bytes(v: &mut Vec<u8>, b: &[u8])
    ensures
        final(v)@ == old(v)@ + b@,
{
    push_range(v, b, 0, b.len());
    assert(b@.subrange(0, b@.len() as int) =~= b@);
}

/// Builds the frame that stands for a record: Ethernet, IPv4, TCP or UDP, and the stored payload.
pub fn synthesize(rec: &WalRecord) -> (out: Vec<u8>)
    requires
        rec.payload@.len() + 60 <= u64::MAX,
    ensures
        out@ == frame_of(*rec),
{
    let n: u64 = rec.payload.len() as u64;
    let tcp: bool = rec.proto == 6;
    let mut out: Vec<u8> = vec![2, 0, 0, 0, 0, 2, 2, 0, 0, 0, 0, 1, 8, 0];
    assert(out@ =~= l2_header());
    let ghost o0 = out@;
    out.push(0x45);
    out.push(0);
    push_be(&mut out, 20 + (if tcp { 20 } else { 8 }) + n, 2);
    out.push(0);
    out.push(1);
    out.push(0x40);
    out.push(0);
    out.push(0x40);
    push_be(&mut out, rec.proto as u64, 1);
    out.push(0);
    out.push(0);
    push_bytes(&mut out, rec.src_ip.as_slice());
    push_bytes(&mut out, rec.dst_ip.as_slice());
    assert(out@ =~= o0 + l3_header(*rec));
    let ghost o1 = out@;
    push_be(&mut out, rec.src_port as u64, 2);
    push_be(&mut out, rec.dst_port as u64, 2);
    if tcp {
        push_be(&mut out, rec.tcp_seq as u64, 4);
        push_be(&mut out, rec.tcp_ack as u64, 4);
        out.push(0x50);
        out.push(rec.tcp_flags);
        push_be(&mut out, rec.window_size as u64, 2);
        out.push(0);
        out.push(0);
        out.push(0);
        out.push(0);
    } else {
        push_be(&mut out, 8 + n, 2);
        out.push(0);
        out.push(0);
    }
    assert(out@ =~= o1 + l4_header(*rec));
    push_bytes(&mut out, &rec.payload);
    out
}

/// Length of the payload by the header of a stored record.
pub fn stored_payload_len(header: &[u8]) -> (n: u32)
    requires
        header@.len() == 64,
    ensures
        n == from_be(header@.subrange(56, 60)),
{
    proof {
        lemma_from_be_round_trip(header@.subrange(56, 60));
        lemma_pow256_values();
    }
    read_be(header, 56, 60) as u32
}

/// A packet to write.
#[derive(Debug, Clone, PartialEq, Eq)]
pub struct Packet {
    pub timestamp_ns: u64,
    /// Bytes on the wire; more than the frame holds where the capture was cut.
    pub orig_len: u32,
    pub frame: Vec<u8>,
}

/// An export under way.
pub struct PcapExport {
    filter: BpfFilter,
    stats: PcapStats,
}

impl PcapExport {
    /// The filter.
    pub closed spec fn rule(&self) -> BpfFilter {
        self.filter
    }

    /// The counts.
    pub closed spec fn counts(&self) -> PcapStats {
        self.stats
    }

    /// An export that has written nothing.
    pub fn new(filter: BpfFilter) -> (e: PcapExport)
        ensures
            e.rule() == filter,
            e.counts() == (PcapStats { packets: 0, filtered: 0, unresolved: 0, incl_bytes: 0, orig_bytes: 0 }),
    {
        PcapExport { filter, stats: PcapStats::default() }
    }

    pub fn stats(&self) -> (s: PcapStats)
        ensures
            s == self.counts(),
    {
        self.stats
    }

    /// Whether the record of a row is to be read back; one that the filter keeps out is counted.
    pub fn wants(&mut self, row: &RecordRow) -> (r: bool)
        ensures
            r == old(self).rule().admits_summary(row.summary),
            final(self).rule() == old(self).rule(),
            final(self).counts() == (if r {
                old(self).counts()
            } else {
                PcapStats { filtered: sat_add(old(self).counts().filtered, 1), ..old(self).counts() }
            }),
    {
        if self.filter.matches_summary(&row.summary) {
            true
        } else {
            self.stats.filtered = self.stats.filtered.saturating_add(1);
            false
        }
    }

    /// The packet of a record that was read back; none where it could not be, or where the filter keeps
    /// it out.
    pub fn record(&mut self, rec: Option<&WalRecord>) -> (p: Option<Packet>)
        requires
            rec matches Some(r) ==> r.payload@.len() + 60 <= u64::MAX,
        ensures
            final(self).rule() == old(self).rule(),
            match rec {
                None => p is None && final(self).counts() == (PcapStats {
                    unresolved: sat_add(old(self).counts().unresolved, 1),
                    ..old(self).counts()
                }),
                Some(r) => if !old(self).rule().admits_flags(r.tcp_flags) {
                    p is None && final(self).counts() == (PcapStats {
                        filtered: sat_add(old(self).counts().filtered, 1),
                        ..old(self).counts()
                    })
                } else {
                    &&& p is Some
                    &&& p->0.timestamp_ns == r.timestamp_ns
                    &&& p->0.orig_len == wire_len(*r)
                    &&& p->0.frame@ == frame_of(*r)
                    &&& final(self).counts() == (PcapStats {
                        packets: sat_add(old(self).counts().packets, 1),
                        incl_bytes: sat_add(old(self).counts().incl_bytes, frame_of(*r).len() as u64),
                        orig_bytes: sat_add(old(self).counts().orig_bytes, wire_len(*r) as u64),
                        ..old(self).counts()
                    })
                },
            },
    {
        let r = match rec {
            Some(r) => r,
            None => {
                self.stats.unresolved = self.stats.unresolved.saturating_add(1);
                return None;
            },
        };
        if !self.filter.matches_record(r) {
            self.stats.filtered = self.stats.filtered.saturating_add(1);
            return None;
        }
        let frame = synthesize(r);
        let l4: u64 = if r.proto == 6 { 20 } else { 8 };
        let orig_len: u32 = ((34 + l4 + r.orig_payload_len as u64) % 0x1_0000_0000) as u32;
        self.stats.packets = self.stats.packets.saturating_add(1);
        self.stats.incl_bytes = self.stats.incl_bytes.saturating_add(frame.len() as u64);
        self.stats.orig_bytes = self.stats.orig_bytes.saturating_add(orig_len as u64);
        Some(Packet { timestamp_ns: r.timestamp_ns, orig_len, frame })
    }
}

/// A frame has the length of its headers and its payload, and carries the payload at its end.
pub proof fn law_frame_layout(rec: WalRecord)
    ensures
        frame_of(rec).len() == 34 + l4_len(rec.proto) + rec.payload@.len(),
        frame_of(rec).skip(34 + l4_len(rec.proto) as int) == rec.payload@,
{
    crate::codec::lemma_be_len(rec.src_port as nat, 2);
    crate::codec::lemma_be_len(rec.dst_port as nat, 2);
    crate::codec::lemma_be_len(rec.tcp_seq as nat, 4);
    crate::codec::lemma_be_len(rec.tcp_ack as nat, 4);
    crate::codec::lemma_be_len(rec.window_size as nat, 2);
    crate::codec::lemma_be_len(8 + rec.payload@.len(), 2);
    crate::codec::lemma_be_len(20 + l4_len(rec.proto) + rec.payload@.len(), 2);
    crate::codec::lemma_be_len(rec.proto as nat, 1);
    assert(frame_of(rec).skip(34 + l4_len(rec.proto) as int) =~= rec.payload@);
}

/// A capture that was cut shows: the packet of a record whose stored payload is shorter than the one on
/// the wire is longer than its frame. The lengths are those that 32 bits hold.
pub proof fn law_cut_capture_shows(rec: WalRecord)
    requires
        rec.payload@.len() < rec.orig_payload_len,
        34 + l4_len(rec.proto) + rec.orig_payload_len <= u32::MAX,
    ensures
        frame_of(rec).len() < wire_len(rec),
{
    law_frame_layout(rec);
}

} // verus!
