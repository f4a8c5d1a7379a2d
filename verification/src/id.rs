//! Packet locator: `IDX = FILE_ID << 32 | OFFSET`, the anchor of every index row.
//!
//! A file never exceeds 4 GB, so an offset always fits in the low 32 bits.

use crate::codec::{be, from_be, lemma_be_len, lemma_be_round_trip, lemma_from_be_round_trip, lemma_pow256_values, push_be, read_be, to_array};
use vstd::prelude::*;

verus! {

/// Largest size of a single data file.
pub const MAX_FILE_SIZE: u64 = 0xffff_ffff;

/// The locator of the record at `offset` in file `file_id`.
pub open spec fn locator(file_id: u32, offset: u32) -> u64 {
    (file_id * 0x1_0000_0000 + offset) as u64
}

/// Packs a file number and an offset.
pub fn encode(file_id: u32, offset: u32) -> (idx: u64)
    ensures
        idx == locator(file_id, offset),
        idx == file_id * 0x1_0000_0000 + offset,
{
    (file_id as u64) * 0x1_0000_0000u64 + offset as u64
}

/// Unpacks a locator.
pub fn decode(idx: u64) -> (r: (u32, u32))
    ensures
        r.0 == idx / 0x1_0000_0000,
        r.1 == idx % 0x1_0000_0000,
        locator(r.0, r.1) == idx,
{
    ((idx / 0x1_0000_0000) as u32, (idx % 0x1_0000_0000) as u32)
}

/// The locator as a big-endian index key.
pub fn to_bytes(idx: u64) -> (b: [u8; 8])
    ensures
        b@ == be(idx as nat, 8),
{
    let mut v: Vec<u8> = Vec::new();
    push_be(&mut v, idx, 8);
    proof {
        lemma_be_len(idx as nat, 8);
    }
    to_array(&v)
}

/// Reads a locator back from its key; any other length is refused.
pub fn from_bytes(b: &[u8]) -> (r: Option<u64>)
    ensures
        b@.len() != 8 ==> r is None,
        b@.len() == 8 ==> r == Some(from_be(b@) as u64),
        r matches Some(idx) ==> be(idx as nat, 8) == b@,
{
    if b.len() != 8 {
        return None;
    }
    let x: u64 = read_be(b, 0, 8);
    proof {
        assert(b@.subrange(0, 8) =~= b@);
        lemma_from_be_round_trip(b@);
        lemma_pow256_values();
    }
    Some(x)
}

/// Unpacking a locator gives back the file number and the offset that it was made of.
pub proof fn law_locator_round_trip(file_id: u32, offset: u32)
    ensures
        locator(file_id, offset) / 0x1_0000_0000 == file_id,
        locator(file_id, offset) % 0x1_0000_0000 == offset,
{
}

/// Two records share a locator only if they share file and offset.
pub proof fn law_locator_injective(f1: u32, o1: u32, f2: u32, o2: u32)
    requires
        locator(f1, o1) == locator(f2, o2),
    ensures
        f1 == f2,
        o1 == o2,
{
    law_locator_round_trip(f1, o1);
    law_locator_round_trip(f2, o2);
}

/// A locator read back from its own key is the same locator.
pub proof fn law_locator_key_round_trip(idx: u64)
    ensures
        be(idx as nat, 8).len() == 8,
        from_be(be(idx as nat, 8)) == idx,
{
    lemma_be_len(idx as nat, 8);
    lemma_pow256_values();
    lemma_be_round_trip(idx as nat, 8);
}

} // verus!
