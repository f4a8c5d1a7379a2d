//! Batches: records are collected, matched and committed together, and a batch never spans two files.

use crate::ledger::{anomaly_views, AnomalyView, OpenFileRec};
use crate::laws::run;
use crate::matching::step;
use crate::meta::{print_views, MetaRegistry, PrintView, RuleView};
use crate::plane::{Planes, PlanesView};
use crate::qr::{archives, rules_of, seen_after, BatchOutcome, QrMatcher, QrParams};
use crate::table::{scan, Table};
use crate::text::{dec_min, push_dec_min};
use crate::wal::{IndexedRecord, WalRecord};
use vstd::prelude::*;

verus! {

/// Audit events of a batch.
pub open spec fn run_events(pl: PlanesView, recs: Seq<(IndexedRecord, bool)>, par: QrParams, rules: Option<Seq<RuleView>>) -> Seq<AnomalyView>
    decreases recs.len(),
{
    if recs.len() == 0 {
        Seq::empty()
    } else {
        let before = recs.drop_last();
        run_events(pl, before, par, rules) + step(run(pl, before, par, rules), recs.last().0, par, rules, recs.last().1).events
    }
}

/// Fingerprints of a batch.
pub open spec fn run_prints(pl: PlanesView, recs: Seq<(IndexedRecord, bool)>, par: QrParams, rules: Option<Seq<RuleView>>) -> Seq<PrintView>
    decreases recs.len(),
{
    if recs.len() == 0 {
        Seq::empty()
    } else {
        let before = recs.drop_last();
        run_prints(pl, before, par, rules) + step(run(pl, before, par, rules), recs.last().0, par, rules, recs.last().1).prints
    }
}

/// Connections that the records of a batch belong to.
pub open spec fn run_seen(pl: PlanesView, recs: Seq<(IndexedRecord, bool)>, par: QrParams, rules: Option<Seq<RuleView>>) -> Set<u64>
    decreases recs.len(),
{
    if recs.len() == 0 {
        Set::empty()
    } else {
        let before = recs.drop_last();
        seen_after(run_seen(pl, before, par, rules), run(pl, before, par, rules), recs.last().0)
    }
}

/// Records with their entropy verdicts.
pub open spec fn measured(records: Seq<IndexedRecord>, high: Seq<bool>) -> Seq<(IndexedRecord, bool)> {
    Seq::new(records.len(), |i: int| (records[i], high[i]))
}

/// What a batch comes to.
pub open spec fn outcome_of(
    out: BatchOutcome,
    pl: PlanesView,
    recs: Seq<(IndexedRecord, bool)>,
    par: QrParams,
    rules: Option<Seq<RuleView>>,
) -> bool {
    &&& out.planes@ == run(pl, recs, par, rules)
    &&& anomaly_views(out.anomalies@) == run_events(pl, recs, par, rules)
    &&& print_views(out.ext_meta@) == run_prints(pl, recs, par, rules)
    &&& out.conn_archives@ == archives(run(pl, recs, par, rules).live.conns, scan(run_seen(pl, recs, par, rules), 0u64, u64::MAX))
}

/// Matches a batch without binding rules.
pub fn stage_lmdb(planes: Planes, records: &Vec<IndexedRecord>, params: &QrParams) -> (out: BatchOutcome)
    requires
        planes.wf(),
    ensures
        out.planes.wf(),
        outcome_of(
            out,
            planes@,
            measured(records@, Seq::new(records@.len(), |i: int| false)),
            *params,
            None,
        ),
{
    let mut high: Vec<bool> = Vec::new();
    while high.len() < records.len()
        invariant
            high@.len() <= records@.len(),
            high@ == Seq::new(high@.len(), |i: int| false),
        decreases records@.len() - high@.len(),
    {
        high.push(false);
        assert(high@ =~= Seq::new(high@.len(), |i: int| false));
    }
    stage_lmdb_with_meta(planes, records, &high, params, None)
}

/// Matches a batch: the records in order, each with the verdict whether its payload is of high entropy.
pub fn stage_lmdb_with_meta(
    planes: Planes,
    records: &Vec<IndexedRecord>,
    high: &Vec<bool>,
    params: &QrParams,
    meta: Option<&MetaRegistry>,
) -> (out: BatchOutcome)
    requires
        planes.wf(),
        high@.len() == records@.len(),
    ensures
        out.planes.wf(),
        outcome_of(out, planes@, measured(records@, high@), *params, rules_of(meta)),
{
    let ghost pl = planes@;
    let ghost all = measured(records@, high@);
    let ghost par = *params;
    let ghost rules = rules_of(meta);
    let mut m = QrMatcher::begin_with_meta(planes, params, meta);
    let mut i: usize = 0;
    assert(all.take(0) =~= Seq::empty());
    while i < records.len()
        invariant
            i <= records@.len(),
            high@.len() == records@.len(),
            all == measured(records@, high@),
            m.wf(),
            m.params() == par,
            m.rules() == rules,
            m.pl() == run(pl, all.take(i as int), par, rules),
            m.events() == run_events(pl, all.take(i as int), par, rules),
            m.fingerprints() == run_prints(pl, all.take(i as int), par, rules),
            m.seen() == run_seen(pl, all.take(i as int), par, rules),
        decreases records@.len() - i,
    {
        assert(all.take(i + 1).drop_last() =~= all.take(i as int));
        assert(all.take(i + 1).last() == (records@[i as int], high@[i as int]));
        m.ingest_measured(&records[i], high[i]);
        i += 1;
    }
    assert(all.take(records@.len() as int) =~= all);
    m.commit()
}

/// Where a record ends in its file.
pub open spec fn rec_end(r: IndexedRecord) -> int {
    r.offset + 64 + r.rec.payload@.len()
}

/// Some record of a file ends at `end`.
pub open spec fn ends_at(records: Seq<IndexedRecord>, file_id: u32, end: int) -> bool {
    exists|k: int| 0 <= k < records.len() && (#[trigger] records[k]).file_id == file_id && rec_end(records[k]) == end
}

/// The watermark of a record's file lies at or behind the end of the record.
pub open spec fn covers(w: Seq<(u32, u64)>, r: IndexedRecord) -> bool {
    exists|i: int| 0 <= i < w.len() && (#[trigger] w[i]).0 == r.file_id && rec_end(r) <= w[i].1
}

/// `w` gives each file that the records are stored in, once and in order, the end of the last of them.
pub open spec fn are_watermarks(w: Seq<(u32, u64)>, records: Seq<IndexedRecord>) -> bool {
    &&& forall|i: int, j: int| 0 <= i < j < w.len() ==> (#[trigger] w[i]).0 < (#[trigger] w[j]).0
    &&& forall|i: int| 0 <= i < w.len() ==> ends_at(records, (#[trigger] w[i]).0, w[i].1 as int)
    &&& forall|k: int| 0 <= k < records.len() ==> covers(w, #[trigger] records[k])
}

/// How far each file has been analysed once the records are committed.
pub fn stage_sqlite(records: &Vec<IndexedRecord>) -> (w: Vec<(u32, u64)>)
    requires
        forall|k: int| 0 <= k < records@.len() ==> rec_end(#[trigger] records@[k]) <= u64::MAX,
    ensures
        are_watermarks(w@, records@),
{
    let mut ends: Table<u32, u64> = Table::new();
    let mut i: usize = 0;
    while i < records.len()
        invariant
            i <= records@.len(),
            ends.wf(),
            forall|k: int| 0 <= k < records@.len() ==> rec_end(#[trigger] records@[k]) <= u64::MAX,
            forall|k: int| 0 <= k < i ==> ends@.contains_key((#[trigger] records@[k]).file_id) && rec_end(records@[k]) <= ends@[records@[k].file_id],
            forall|f: u32| #[trigger] ends@.contains_key(f) ==> ends_at(records@, f, ends@[f] as int),
        decreases records@.len() - i,
    {
        let r = &records[i];
        let end: u64 = r.offset as u64 + r.rec_len();
        let known: u64 = match ends.get(&r.file_id) {
            Some(e) => *e,
            None => 0,
        };
        let ghost before = ends@;
        let ghost f0 = r.file_id;
        if end > known {
            ends.put(r.file_id, end);
        }
        proof {
            assert(end >= 64);
            assert(before.contains_key(f0) ==> before[f0] == known);
            assert forall|f: u32| #[trigger] ends@.contains_key(f) implies ends_at(records@, f, ends@[f] as int) by {
                if f == f0 && end > known {
                    assert(records@[i as int].file_id == f);
                } else {
                    assert(before.contains_key(f));
                }
            }
        }
        i += 1;
    }
    let files = ends.range(&0, &0xffff_ffff);
    let mut w: Vec<(u32, u64)> = Vec::new();
    let mut j: usize = 0;
    while j < files.len()
        invariant
            j <= files@.len(),
            ends.wf(),
            crate::table::is_scan(files@, ends@.dom(), 0u32, u32::MAX),
            w@.len() == j,
            forall|x: int| 0 <= x < j ==> (#[trigger] w@[x]).0 == files@[x] && w@[x].1 == ends@[files@[x]],
        decreases files@.len() - j,
    {
        assert(ends@.dom().contains(files@[j as int]));
        let end: u64 = match ends.get(&files[j]) {
            Some(e) => *e,
            None => {
                assert(false);
                0
            },
        };
        w.push((files[j], end));
        j += 1;
    }
    proof {
        assert forall|x: int, y: int| 0 <= x < y < w@.len() implies (#[trigger] w@[x]).0 < (#[trigger] w@[y]).0 by {
            assert(crate::table::IndexKey::rank(files@[x]) < crate::table::IndexKey::rank(files@[y]));
        }
        assert forall|x: int| 0 <= x < w@.len() implies ends_at(records@, (#[trigger] w@[x]).0, w@[x].1 as int) by {
            assert(ends@.dom().contains(files@[x]));
            assert(ends@.contains_key(files@[x]));
        }
        assert forall|k: int| 0 <= k < records@.len() implies covers(w@, #[trigger] records@[k]) by {
            let f = records@[k].file_id;
            assert(ends@.dom().contains(f));
            assert(files@.contains(f));
            let x = choose|x: int| 0 <= x < files@.len() && files@[x] == f;
            assert(w@[x].0 == f);
        }
    }
    w
}

/// Where the next record goes: the current file of a device and the position in it.
pub struct HotFileWriter {
    pub dev_id: i64,
    pub segment_seq: u32,
    pub segment_size: u64,
    pub file_id: u32,
    pub offset: u64,
}

/// How a writer starts after a restart.
pub enum Opening {
    /// On the file that was left open, cut back to its watermark.
    Reuse(HotFileWriter),
    /// On a new file.
    Create,
}

/// Name of a segment file.
pub open spec fn segment_name(seq: u32) -> Seq<char> {
    "segment_"@ + dec_min(seq as nat, 4) + ".wal"@
}

impl HotFileWriter {
    /// The record that goes next starts within 32 bits.
    pub open spec fn wf(&self) -> bool {
        self.segment_size <= u32::MAX
    }

    /// Whether a record of this length would pass the end of the file.
    pub open spec fn overruns(&self, rec_len: u64) -> bool {
        self.offset + rec_len > self.segment_size
    }

    /// A writer at the start of a new file.
    pub fn open(dev_id: i64, segment_seq: u32, segment_size: u64, file_id: u32) -> (w: HotFileWriter)
        requires
            segment_size <= u32::MAX,
        ensures
            w.wf(),
            w == (HotFileWriter { dev_id, segment_seq, segment_size, file_id, offset: 0 }),
    {
        HotFileWriter { dev_id, segment_seq, segment_size, file_id, offset: 0 }
    }

    /// A writer after a restart: it goes on at the watermark of the file that was left open, if there is
    /// one.
    pub fn open_or_recover(found: Option<&OpenFileRec>, dev_id: i64, segment_seq: u32, segment_size: u64) -> (o: Opening)
        requires
            segment_size <= u32::MAX,
        ensures
            o == (match found {
                Some(f) => Opening::Reuse(
                    HotFileWriter {
                        dev_id,
                        segment_seq: match f.segment_seq {
                            Some(s) => s as u32,
                            None => segment_seq,
                        },
                        segment_size,
                        file_id: f.file_id as u32,
                        offset: f.watermark,
                    },
                ),
                None => Opening::Create,
            }),
    {
        match found {
            Some(f) => Opening::Reuse(
                HotFileWriter {
                    dev_id,
                    segment_seq: match f.segment_seq {
                        Some(s) => s as u32,
                        None => segment_seq,
                    },
                    segment_size,
                    file_id: f.file_id as u32,
                    offset: f.watermark,
                },
            ),
            None => Opening::Create,
        }
    }

    pub fn file_id(&self) -> (id: u32)
        ensures
            id == self.file_id,
    {
        self.file_id
    }

    pub fn offset(&self) -> (o: u64)
        ensures
            o == self.offset,
    {
        self.offset
    }

    /// Name of the current segment file.
    pub fn segment_file(&self) -> (s: String)
        ensures
            s@ == segment_name(self.segment_seq),
    {
        let mut s = String::from_str("segment_");
        push_dec_min(&mut s, self.segment_seq as u64, 4);
        s.append(".wal");
        assert(s@ =~= segment_name(self.segment_seq));
        s
    }

    /// Whether a record of this length needs the next file.
    pub fn needs_rotation(&self, rec_len: u64) -> (r: bool)
        ensures
            r == self.overruns(rec_len),
    {
        rec_len > self.segment_size || self.offset > self.segment_size - rec_len
    }

    /// Takes the place of a record: the file and the position where it starts. A record longer than a
    /// file has one to itself.
    pub fn append(&mut self, rec_len: u64) -> (r: (u32, u32))
        requires
            old(self).wf(),
            !old(self).overruns(rec_len) || old(self).offset == 0,
        ensures
            final(self).wf(),
            r.0 == old(self).file_id,
            r.1 == old(self).offset,
            *final(self) == (HotFileWriter { offset: (old(self).offset + rec_len) as u64, ..*old(self) }),
            old(self).offset + rec_len <= u64::MAX,
    {
        let at: u32 = self.offset as u32;
        self.offset = self.offset + rec_len;
        (self.file_id, at)
    }

    /// Goes on to the next segment, in a new file.
    pub fn rotate(&mut self, next_file_id: u32)
        requires
            old(self).wf(),
            old(self).segment_seq < u32::MAX,
        ensures
            final(self).wf(),
            *final(self) == (HotFileWriter {
                segment_seq: (old(self).segment_seq + 1) as u32,
                file_id: next_file_id,
                offset: 0,
                ..*old(self)
            }),
    {
        self.segment_seq = self.segment_seq + 1;
        self.file_id = next_file_id;
        self.offset = 0;
    }

    /// Goes back to the watermark of the current file; a writer without a file stays where it is.
    pub fn recover(&mut self, watermark: u64)
        requires
            old(self).wf(),
        ensures
            final(self).wf(),
            *final(self) == (if old(self).file_id != 0 {
                HotFileWriter { offset: watermark, ..*old(self) }
            } else {
                *old(self)
            }),
    {
        if self.file_id != 0 {
            self.offset = watermark;
        }
    }
}

/// Collects records into batches.
pub struct BatchPipeline {
    hot: HotFileWriter,
    pending: Vec<IndexedRecord>,
    batch_size: u32,
}

impl BatchPipeline {
    /// The writer.
    pub closed spec fn writer(&self) -> HotFileWriter {
        self.hot
    }

    /// The records collected.
    pub closed spec fn collected(&self) -> Seq<IndexedRecord> {
        self.pending@
    }

    /// How many records make a batch.
    pub closed spec fn size(&self) -> u32 {
        self.batch_size
    }

    /// All records collected are stored in the current file, before the writer's position.
    pub closed spec fn wf(&self) -> bool {
        &&& self.hot.wf()
        &&& self.pending@.len() > 0 ==> self.hot.offset > 0
        &&& one_file(self.pending@, self.hot.file_id)
    }

    /// An empty batch on a writer.
    pub fn new(hot: HotFileWriter, batch_size: u32) -> (p: BatchPipeline)
        requires
            hot.wf(),
        ensures
            p.wf(),
            p.writer() == hot,
            p.collected() == Seq::<IndexedRecord>::empty(),
            p.size() == batch_size,
    {
        BatchPipeline { hot, pending: Vec::new(), batch_size }
    }

    pub fn hot_file_id(&self) -> (id: u32)
        ensures
            id == self.writer().file_id,
    {
        self.hot.file_id
    }

    pub fn pending_len(&self) -> (n: usize)
        ensures
            n == self.collected().len(),
    {
        self.pending.len()
    }

    /// The writer.
    pub fn hot(&self) -> (w: &HotFileWriter)
        ensures
            *w == self.writer(),
    {
        &self.hot
    }

    /// Whether the batch must be committed and the file closed before a record of this length.
    pub fn barrier(&self, rec_len: u64) -> (r: bool)
        ensures
            r == (self.writer().overruns(rec_len) && self.writer().offset > 0),
    {
        self.hot.needs_rotation(rec_len) && self.hot.offset > 0
    }

    /// Stores a record at the writer's position and adds it to the batch; says whether the batch is full.
    pub fn push_record(&mut self, rec: WalRecord) -> (full: bool)
        requires
            old(self).wf(),
            64 + rec.payload@.len() <= u64::MAX,
            !old(self).writer().overruns((64 + rec.payload@.len()) as u64) || old(self).writer().offset == 0,
        ensures
            final(self).wf(),
            final(self).collected() == old(self).collected().push(
                IndexedRecord {
                    dev_id: old(self).writer().dev_id as u32,
                    file_id: old(self).writer().file_id,
                    offset: old(self).writer().offset as u32,
                    rec,
                },
            ),
            final(self).writer() == (HotFileWriter {
                offset: (old(self).writer().offset + 64 + rec.payload@.len()) as u64,
                ..old(self).writer()
            }),
            final(self).size() == old(self).size(),
            full == (final(self).collected().len() >= old(self).size()),
    {
        let n: u64 = 64 + rec.payload.len() as u64;
        let (file_id, offset) = self.hot.append(n);
        self.pending.push(IndexedRecord { dev_id: self.hot.dev_id as u32, file_id, offset, rec });
        self.pending.len() >= self.batch_size as usize
    }

    /// Hands the batch out to be committed. It stays collected until the commit is known to have succeeded,
    /// so that a batch whose commit failed can be handed out again.
    pub fn flush(&self) -> (batch: &Vec<IndexedRecord>)
        requires
            self.wf(),
        ensures
            batch@ == self.collected(),
            one_file(batch@, self.writer().file_id),
    {
        &self.pending
    }

    /// The batch that was handed out has been committed: the next one starts empty.
    pub fn committed(&mut self)
        requires
            old(self).wf(),
        ensures
            final(self).wf(),
            final(self).collected() == Seq::<IndexedRecord>::empty(),
            final(self).writer() == old(self).writer(),
            final(self).size() == old(self).size(),
    {
        self.pending = Vec::new();
        assert(self.pending@ =~= Seq::empty());
    }

    /// Goes on to the next file. The batch has been committed before.
    pub fn rotate(&mut self, next_file_id: u32)
        requires
            old(self).wf(),
            old(self).collected().len() == 0,
            old(self).writer().segment_seq < u32::MAX,
        ensures
            final(self).wf(),
            final(self).collected() == old(self).collected(),
            final(self).writer() == (HotFileWriter {
                segment_seq: (old(self).writer().segment_seq + 1) as u32,
                file_id: next_file_id,
                offset: 0,
                ..old(self).writer()
            }),
            final(self).size() == old(self).size(),
    {
        self.hot.rotate(next_file_id);
    }

    /// Goes back to the watermark of the current file. The batch has been committed before.
    pub fn recover_hot(&mut self, watermark: u64)
        requires
            old(self).wf(),
            old(self).collected().len() == 0,
        ensures
            final(self).wf(),
            final(self).collected() == old(self).collected(),
            final(self).writer() == (if old(self).writer().file_id != 0 {
                HotFileWriter { offset: watermark, ..old(self).writer() }
            } else {
                old(self).writer()
            }),
            final(self).size() == old(self).size(),
    {
        self.hot.recover(watermark);
    }
}

/// All records are stored in one file.
pub open spec fn one_file(records: Seq<IndexedRecord>, file_id: u32) -> bool {
    forall|i: int| 0 <= i < records.len() ==> (#[trigger] records[i]).file_id == file_id
}

/// A batch never spans two files, so it moves the watermark of one file only.
pub proof fn law_batch_moves_one_watermark(w: Seq<(u32, u64)>, records: Seq<IndexedRecord>, file_id: u32)
    requires
        one_file(records, file_id),
        are_watermarks(w, records),
        records.len() > 0,
    ensures
        w.len() == 1,
        w[0].0 == file_id,
{
    assert(covers(w, records[0]));
    assert forall|j: int| 0 <= j < w.len() implies (#[trigger] w[j]).0 == file_id by {
        assert(ends_at(records, w[j].0, w[j].1 as int));
    }
    if w.len() > 1 {
        assert(w[0].0 < w[1].0);
    }
}

} // verus!
