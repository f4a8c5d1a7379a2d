//! Captured records and where they are stored.

use crate::codec::{from_be, lemma_from_be_round_trip, lemma_pow256_values, read_be};
use crate::db::RecordSummary;
use crate::id::{encode, locator};
use vstd::prelude::*;

verus! {

pub const TCP_FIN: u8 = 0x01;

pub const TCP_SYN: u8 = 0x02;

pub const TCP_RST: u8 = 0x04;

pub const TCP_PSH: u8 = 0x08;

pub const TCP_ACK: u8 = 0x10;

pub const TCP_URG: u8 = 0x20;

/// Record flag: the probe was degraded when it captured the packet.
pub const FLAG_DEGRADED: u16 = 0x0001;

/// Bytes of a stored record before its payload.
pub const WAL_HEADER_SIZE: usize = 64;

/// One captured packet.
#[derive(Debug, Clone, PartialEq, Eq)]
pub struct WalRecord {
    pub timestamp_ns: u64,
    pub flags: u16,
    pub tcp_flags: u8,
    pub tcp_seq: u32,
    pub tcp_ack: u32,
    pub window_size: u16,
    pub src_ip: [u8; 4],
    pub dst_ip: [u8; 4],
    pub src_port: u16,
    pub dst_port: u16,
    pub proto: u16,
    /// Length of the payload on the wire; the stored payload may be cut.
    pub orig_payload_len: u32,
    pub payload: Vec<u8>,
}

/// An address as a number.
pub open spec fn ip_number(a: [u8; 4]) -> u32 {
    from_be(a@) as u32
}

/// An address as a number.
pub fn ip_of(a: &[u8; 4]) -> (x: u32)
    ensures
        x == ip_number(*a),
        x as nat == from_be(a@),
{
    let s = a.as_slice();
    let x: u64 = read_be(s, 0, 4);
    proof {
        assert(s@.subrange(0, 4) =~= a@);
        lemma_from_be_round_trip(a@);
        lemma_pow256_values();
    }
    x as u32
}

/// A record with the place where it is stored.
#[derive(Debug, Clone)]
pub struct IndexedRecord {
    pub dev_id: u32,
    pub file_id: u32,
    pub offset: u32,
    pub rec: WalRecord,
}

impl IndexedRecord {
    /// The record's locator.
    pub open spec fn loc(self) -> u64 {
        locator(self.file_id, self.offset)
    }

    /// The record's locator.
    pub fn idx(&self) -> (i: u64)
        ensures
            i == self.loc(),
    {
        encode(self.file_id, self.offset)
    }

    /// Bytes that the record takes up in its file: the header and the stored payload.
    pub fn rec_len(&self) -> (n: u64)
        requires
            self.rec.payload@.len() <= u64::MAX - 64,
        ensures
            n == 64 + self.rec.payload@.len(),
    {
        64 + self.rec.payload.len() as u64
    }
}

/// The digest of a record. The degraded flag of the record is merged into its TCP flags, and the
/// length is that of the stored payload.
pub open spec fn summary_of(rec: WalRecord) -> RecordSummary {
    RecordSummary {
        proto: rec.proto as u8,
        flags: rec.tcp_flags | (rec.flags & FLAG_DEGRADED) as u8,
        src_ip: ip_number(rec.src_ip),
        dst_ip: ip_number(rec.dst_ip),
        sport: rec.src_port,
        dport: rec.dst_port,
        len: rec.payload@.len() as u32,
    }
}

/// Makes the digest of a record.
pub fn summarize(rec: &WalRecord) -> (s: RecordSummary)
    ensures
        s == summary_of(*rec),
{
    RecordSummary {
        proto: rec.proto as u8,
        flags: rec.tcp_flags | (rec.flags & FLAG_DEGRADED) as u8,
        src_ip: ip_of(&rec.src_ip),
        dst_ip: ip_of(&rec.dst_ip),
        sport: rec.src_port,
        dport: rec.dst_port,
        len: rec.payload.len() as u32,
    }
}

} // verus!
