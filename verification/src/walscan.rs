//! Scanning of stored record streams.
//!
//! A stream is read piece by piece. What cannot be a record any more ends the scan: damage is never
//! skipped, so that nothing behind it is mistaken for a record.

use crate::codec::{from_be, read_be};
use crate::matching::sat_add;
use crate::wal::{WalRecord, WAL_HEADER_SIZE};
use vstd::prelude::*;

verus! {

/// What a scan found.
#[derive(Debug, Clone, Copy, PartialEq, Eq, Structural)]
pub struct ScanStats {
    pub records: u64,
    /// Bytes of payload, without headers.
    pub payload_bytes: u64,
    /// Bytes read.
    pub total_bytes: u64,
    /// Bytes at the end that are no record; at least one where the file was cut short or damaged.
    pub dirty_tail_bytes: u64,
    /// The scan ended at a header that cannot belong to a record.
    pub stopped_early: bool,
}

impl Default for ScanStats {
    fn default() -> (s: ScanStats)
        ensures
            s == (ScanStats { records: 0, payload_bytes: 0, total_bytes: 0, dirty_tail_bytes: 0, stopped_early: false }),
    {
        ScanStats { records: 0, payload_bytes: 0, total_bytes: 0, dirty_tail_bytes: 0, stopped_early: false }
    }
}

/// The records of a stream.
#[derive(Debug)]
pub struct ScanResult {
    pub records: Vec<WalRecord>,
    pub stats: ScanStats,
}

/// How a header starts: two bytes of magic number, then the version.
#[derive(Debug, Clone, Copy, PartialEq, Eq, Structural)]
pub struct WalFormat {
    pub magic: u16,
    pub version: u8,
}

/// Whether a buffer starts with a whole header that is not one of this format.
pub open spec fn is_bad(b: Seq<u8>, f: WalFormat) -> bool {
    b.len() >= 64 && (from_be(b.take(2)) != f.magic || b[2] != f.version)
}

/// Tests the header at the start of a buffer.
pub fn bad_header(buf: &[u8], f: WalFormat) -> (r: bool)
    ensures
        r == is_bad(buf@, f),
{
    if buf.len() < WAL_HEADER_SIZE {
        return false;
    }
    assert(buf@.subrange(0, 2) =~= buf@.take(2));
    read_be(buf, 0, 2) != f.magic as u64 || buf[2] != f.version
}

/// Bytes of payload in all.
pub open spec fn payload_total(rs: Seq<WalRecord>) -> nat
    decreases rs.len(),
{
    if rs.len() == 0 {
        0
    } else {
        payload_total(rs.drop_last()) + rs.last().payload@.len()
    }
}

/// A scan under way.
#[verifier::ext_equal]
pub struct ScanView {
    pub format: WalFormat,
    /// Bytes read that have not become records yet.
    pub pending: Seq<u8>,
    pub records: Seq<WalRecord>,
    pub total: u64,
    /// Bytes at which the scan stopped, if it did.
    pub stopped_at: Option<u64>,
}

/// Scans a stream. The decoding of records is done from outside: `read` takes a piece, `pending` is what
/// is to be decoded, and `decoded` takes what came of it.
pub struct WalScanner {
    format: WalFormat,
    pending: Vec<u8>,
    records: Vec<WalRecord>,
    total: u64,
    stopped_at: Option<u64>,
}

impl View for WalScanner {
    type V = ScanView;

    closed spec fn view(&self) -> ScanView {
        ScanView {
            format: self.format,
            pending: self.pending@,
            records: self.records@,
            total: self.total,
            stopped_at: self.stopped_at,
        }
    }
}

/// The scan after one more piece: it stops at a bad header.
pub open spec fn after_read(s: ScanView, data: Seq<u8>) -> ScanView {
    let p = s.pending + data;
    if is_bad(p, s.format) {
        ScanView { pending: Seq::empty(), total: sat_add(s.total, data.len() as u64), stopped_at: Some(p.len() as u64), ..s }
    } else {
        ScanView { pending: p, total: sat_add(s.total, data.len() as u64), ..s }
    }
}

/// What a scan comes to.
pub open spec fn scan_stats(s: ScanView) -> ScanStats {
    ScanStats {
        records: s.records.len() as u64,
        payload_bytes: payload_total(s.records) as u64,
        total_bytes: s.total,
        dirty_tail_bytes: if s.pending.len() > 0 {
            s.pending.len() as u64
        } else {
            match s.stopped_at {
                Some(n) => n,
                None => 0,
            }
        },
        stopped_early: s.stopped_at is Some || is_bad(s.pending, s.format),
    }
}

impl WalScanner {
    /// A scan of a stream of this format.
    pub fn new(format: WalFormat) -> (s: WalScanner)
        ensures
            s@ == (ScanView { format, pending: Seq::empty(), records: Seq::empty(), total: 0, stopped_at: None }),
    {
        WalScanner { format, pending: Vec::new(), records: Vec::new(), total: 0, stopped_at: None }
    }

    /// Takes the next piece of the stream; says whether the scan goes on.
    pub fn read(&mut self, data: &[u8]) -> (more: bool)
        requires
            old(self)@.pending.len() + data@.len() <= usize::MAX,
        ensures
            final(self)@ == after_read(old(self)@, data@),
            more == !is_bad(old(self)@.pending + data@, old(self)@.format),
    {
        crate::text::push_range(&mut self.pending, data, 0, data.len());
        assert(self.pending@ =~= old(self).pending@ + data@);
        self.total = self.total.saturating_add(data.len() as u64);
        if bad_header(&self.pending, self.format) {
            self.stopped_at = Some(self.pending.len() as u64);
            self.pending.clear();
            assert(self@ =~= after_read(old(self)@, data@));
            false
        } else {
            assert(self@ =~= after_read(old(self)@, data@));
            true
        }
    }

    /// The bytes to decode.
    pub fn pending(&self) -> (b: &Vec<u8>)
        ensures
            b@ == self@.pending,
    {
        &self.pending
    }

    /// Takes the records that were decoded and how many bytes at the end were left over.
    pub fn decoded(&mut self, records: Vec<WalRecord>, residual: usize)
        requires
            residual <= old(self)@.pending.len(),
        ensures
            final(self)@ == (ScanView {
                pending: old(self)@.pending.skip(old(self)@.pending.len() - residual),
                records: old(self)@.records + records@,
                ..old(self)@
            }),
    {
        let mut records = records;
        self.records.append(&mut records);
        let n: usize = self.pending.len();
        self.pending = crate::text::copy_range(&self.pending, n - residual, n);
        assert(self@.pending =~= old(self)@.pending.skip(n - residual));
    }

    /// The records found, with what is left at the end of the stream.
    pub fn finish(self) -> (r: ScanResult)
        requires
            payload_total(self@.records) <= u64::MAX,
        ensures
            r.records@ == self@.records,
            r.stats == scan_stats(self@),
    {
        let stopped_early: bool = self.stopped_at.is_some() || bad_header(&self.pending, self.format);
        let dirty_tail_bytes: u64 = if self.pending.len() > 0 {
            self.pending.len() as u64
        } else {
            match self.stopped_at {
                Some(n) => n,
                None => 0,
            }
        };
        let mut payload_bytes: u64 = 0;
        let mut i: usize = 0;
        assert(self.records@.take(0) =~= Seq::empty());
        while i < self.records.len()
            invariant
                i <= self.records@.len(),
                payload_total(self.records@) <= u64::MAX,
                payload_bytes == payload_total(self.records@.take(i as int)),
            decreases self.records@.len() - i,
        {
            proof {
                assert(self.records@.take(i + 1).drop_last() =~= self.records@.take(i as int));
                lemma_payload_grows(self.records@, i + 1);
            }
            payload_bytes = payload_bytes + self.records[i].payload.len() as u64;
            i += 1;
        }
        assert(self.records@.take(self.records@.len() as int) =~= self.records@);
        let stats = ScanStats {
            records: self.records.len() as u64,
            payload_bytes,
            total_bytes: self.total,
            dirty_tail_bytes,
            stopped_early,
        };
        ScanResult { records: self.records, stats }
    }
}

proof fn lemma_payload_grows(rs: Seq<WalRecord>, i: int)
    requires
        0 <= i <= rs.len(),
    ensures
        payload_total(rs.take(i)) <= payload_total(rs),
    decreases rs.len(),
{
    if i == rs.len() {
        assert(rs.take(i) =~= rs);
    } else {
        lemma_payload_grows(rs.drop_last(), i);
        assert(rs.drop_last().take(i) =~= rs.take(i));
    }
}

/// Several scans taken together: records, bytes of payload and dirty bytes, each counted up to 64 bits.
pub open spec fn total_of(scans: Seq<ScanStats>) -> (u64, u64, u64)
    decreases scans.len(),
{
    if scans.len() == 0 {
        (0, 0, 0)
    } else {
        let before = total_of(scans.drop_last());
        let s = scans.last();
        (sat_add(before.0, s.records), sat_add(before.1, s.payload_bytes), sat_add(before.2, s.dirty_tail_bytes))
    }
}

/// Adds up what several scans found.
pub fn totals(scans: &Vec<ScanStats>) -> (t: (u64, u64, u64))
    ensures
        t == total_of(scans@),
{
    let mut records: u64 = 0;
    let mut payload: u64 = 0;
    let mut dirty: u64 = 0;
    let mut i: usize = 0;
    while i < scans.len()
        invariant
            i <= scans@.len(),
            (records, payload, dirty) == total_of(scans@.take(i as int)),
        decreases scans@.len() - i,
    {
        let s = scans[i];
        proof {
            assert(scans@.take(i + 1).drop_last() =~= scans@.take(i as int));
        }
        records = records.saturating_add(s.records);
        payload = payload.saturating_add(s.payload_bytes);
        dirty = dirty.saturating_add(s.dirty_tail_bytes);
        i += 1;
    }
    assert(scans@.take(scans@.len() as int) =~= scans@);
    (records, payload, dirty)
}

/// Damage ends a scan: it counts as stopped, every byte not decoded yet is dirty, and the records
/// decoded before the damage are kept.
pub proof fn law_damage_ends_the_scan(s: ScanView, data: Seq<u8>)
    requires
        is_bad(s.pending + data, s.format),
    ensures
        ({
            let t = after_read(s, data);
            &&& t.records == s.records
            &&& t.pending.len() == 0
            &&& scan_stats(t).stopped_early
            &&& scan_stats(t).dirty_tail_bytes == (s.pending.len() + data.len()) as u64
        }),
{
}

} // verus!
