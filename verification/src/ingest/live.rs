//! Live intake: what is done with each frame, event and tick.
//!
//! Frames are taken apart from outside and handed in as plain values. What they set free comes back as
//! events; each event in turn moves the state and names the work that is left to do outside.

use crate::anomaly::{ANOM_CONN_RST, ANOM_QR_TIMEOUT, ANOM_QR_UNMATCHED};
use crate::decrypt::{chunk_text, Decryptor};
use crate::ledger::{AnomalyEvent, AnomalyView};
use crate::matching::{sat_add, sat_add32};
use crate::reassembly::laws::law_segment_budget_holds;
use crate::reassembly::{
    steady, charged, event_views, inv, last_sealed, placed, sealed, seg_key, skipped, Event, EventView, Model, Out, Reassembler,
};
use crate::table::{scan, Key2, Table};
use crate::text::{copy_range, push_range};
use vstd::prelude::*;
use vstd::string::*;

verus! {

/// Queries for missing data that are sent before a segment is given up.
pub const GAP_MAX_ROUNDS: u32 = 20;

/// Bytes that may wait to become a record.
pub const WAL_RESIDUAL_CAP: usize = 1_048_576;

/// One chunk of a batch frame.
pub struct ChunkEntry {
    pub start_offset: u64,
    pub chunk_len: u32,
    pub payload: Vec<u8>,
}

/// A batch frame: chunks of one segment.
pub struct ChunkBatch {
    pub dev_id: u32,
    pub segment_seq: u32,
    pub entries: Vec<ChunkEntry>,
}

/// A frame with one chunk.
pub struct ChunkFrame {
    pub dev_id: u32,
    pub segment_seq: u32,
    /// The frame refers to data sent before and carries none.
    pub ref_only: bool,
    pub entry: ChunkEntry,
}

/// A seal frame.
#[derive(Debug, Clone, Copy, PartialEq, Eq, Structural)]
pub struct SealFrame {
    pub dev_id: u32,
    pub segment_seq: u32,
    pub sealed_size: u64,
}

/// A query for data that is missing from `start_offset` on.
#[derive(Debug, Clone, Copy, PartialEq, Eq, Structural)]
pub struct GapQuery {
    pub dev_id: u32,
    pub segment_seq: u32,
    pub start_offset: u64,
}

/// A sealed segment that still has a gap.
#[derive(Debug, Clone, Copy, PartialEq, Eq, Structural)]
pub struct RefillState {
    pub sealed_size: u64,
    pub last_expected: u64,
    pub rounds: u32,
}

impl View for RefillState {
    type V = RefillState;

    open spec fn view(&self) -> RefillState {
        *self
    }
}

/// Counts since the start.
#[derive(Debug, Clone, Copy, PartialEq, Eq, Structural)]
pub struct Stats {
    pub batches: u64,
    pub chunks: u64,
    pub seals: u64,
    pub unframed_dropped: u64,
    pub decrypt_failed: u64,
    pub dups: u64,
    pub gaps: u64,
    pub seq_skips: u64,
    pub seg_errors: u64,
    pub evict_bytes: u64,
    pub quarantines: u64,
    pub q_drop_bytes: u64,
    pub dirty_tail_bytes: u64,
    pub resolved_gaps: u64,
}

/// No counts.
pub open spec fn no_stats() -> Stats {
    Stats {
        batches: 0,
        chunks: 0,
        seals: 0,
        unframed_dropped: 0,
        decrypt_failed: 0,
        dups: 0,
        gaps: 0,
        seq_skips: 0,
        seg_errors: 0,
        evict_bytes: 0,
        quarantines: 0,
        q_drop_bytes: 0,
        dirty_tail_bytes: 0,
        resolved_gaps: 0,
    }
}

impl Default for Stats {
    fn default() -> (s: Stats)
        ensures
            s == no_stats(),
    {
        Stats {
            batches: 0,
            chunks: 0,
            seals: 0,
            unframed_dropped: 0,
            decrypt_failed: 0,
            dups: 0,
            gaps: 0,
            seq_skips: 0,
            seg_errors: 0,
            evict_bytes: 0,
            quarantines: 0,
            q_drop_bytes: 0,
            dirty_tail_bytes: 0,
            resolved_gaps: 0,
        }
    }
}

/// Work that an event leaves to do outside.
pub enum Action {
    Nothing,
    /// Decode what waits for this segment, store the records, and report back.
    Decode { dev_id: u32, segment_seq: u32 },
    /// The segment is complete: commit what is collected for the device and close its file.
    Close { dev_id: u32 },
    /// Write an audit row.
    Audit(AnomalyEvent),
    /// A segment was passed over: mark the connections that the device has under way, and write an audit
    /// row.
    MarkIncomplete { dev_id: u32, row: AnomalyEvent },
    /// The device was quarantined: put the connections that it has under way in quarantine, and write an
    /// audit row.
    Isolate { dev_id: u32, row: AnomalyEvent },
}

/// What an action asks for.
pub enum ActionView {
    Nothing,
    Decode { dev_id: u32, segment_seq: u32 },
    Close { dev_id: u32 },
    Audit(AnomalyView),
    MarkIncomplete { dev_id: u32, row: AnomalyView },
    Isolate { dev_id: u32, row: AnomalyView },
}

impl View for Action {
    type V = ActionView;

    open spec fn view(&self) -> ActionView {
        match *self {
            Action::Nothing => ActionView::Nothing,
            Action::Decode { dev_id, segment_seq } => ActionView::Decode { dev_id, segment_seq },
            Action::Close { dev_id } => ActionView::Close { dev_id },
            Action::Audit(e) => ActionView::Audit(e@),
            Action::MarkIncomplete { dev_id, row } => ActionView::MarkIncomplete { dev_id, row: row@ },
            Action::Isolate { dev_id, row } => ActionView::Isolate { dev_id, row: row@ },
        }
    }
}

/// What a tick asks for.
pub struct Tick {
    /// It is time to look for requests without an answer.
    pub ttl_scan: bool,
    /// Queries to send.
    pub queries: Vec<GapQuery>,
    /// Events to deal with.
    pub events: Vec<Event>,
}

/// Bytes of a segment that wait to become records.
pub struct WalStreamDecoder {
    residual: Vec<u8>,
}

impl View for WalStreamDecoder {
    type V = Seq<u8>;

    closed spec fn view(&self) -> Seq<u8> {
        self.residual@
    }
}

/// What waits after more data arrived. A wait that grows beyond all records is no stream of records, and
/// is dropped.
pub open spec fn fed(residual: Seq<u8>, data: Seq<u8>) -> Seq<u8> {
    if residual.len() + data.len() > WAL_RESIDUAL_CAP {
        Seq::empty()
    } else {
        residual + data
    }
}

impl WalStreamDecoder {
    /// Nothing waits.
    pub fn new() -> (d: WalStreamDecoder)
        ensures
            d@ == Seq::<u8>::empty(),
    {
        WalStreamDecoder { residual: Vec::new() }
    }

    /// Adds data that continues the segment.
    pub fn feed(&mut self, data: &[u8])
        ensures
            final(self)@ == fed(old(self)@, data@),
    {
        if self.residual.len() > WAL_RESIDUAL_CAP || data.len() > WAL_RESIDUAL_CAP - self.residual.len() {
            self.residual.clear();
        } else {
            push_range(&mut self.residual, data, 0, data.len());
        }
        assert(self@ =~= fed(old(self)@, data@));
    }

    /// The bytes to decode.
    pub fn bytes(&self) -> (b: &Vec<u8>)
        ensures
            b@ == self@,
    {
        &self.residual
    }

    /// Keeps the bytes that decoding left over.
    pub fn keep(&mut self, residual: usize)
        requires
            residual <= old(self)@.len(),
        ensures
            final(self)@ == old(self)@.skip(old(self)@.len() - residual),
    {
        let n: usize = self.residual.len();
        self.residual = copy_range(&self.residual, n - residual, n);
        assert(self@ =~= old(self)@.skip(n - residual));
    }

    pub fn residual_len(&self) -> (n: usize)
        ensures
            n == self@.len(),
    {
        self.residual.len()
    }
}

/// The state of the intake.
#[verifier::ext_equal]
pub struct IngestView {
    pub v: Model,
    pub decoders: Map<Key2, Seq<u8>>,
    pub refills: Map<Key2, RefillState>,
    pub stats: Stats,
    pub total_records: u64,
    pub ttl_secs: u64,
    pub ttl_ticks: u64,
}

/// Chunks with their plain text, where decryption gave one.
pub open spec fn place_all(v: Model, dev: u32, seq: u32, items: Seq<(u64, Option<Seq<u8>>)>) -> Out
    decreases items.len(),
{
    if items.len() == 0 {
        Out { v, events: Seq::empty() }
    } else {
        let before = place_all(v, dev, seq, items.drop_last());
        match items.last().1 {
            Some(text) => {
                let out = placed(before.v, dev, seq, items.last().0, text);
                Out { v: out.v, events: before.events + out.events }
            },
            None => before,
        }
    }
}

/// Chunks that could not be decrypted.
pub open spec fn failures(items: Seq<(u64, Option<Seq<u8>>)>) -> nat
    decreases items.len(),
{
    if items.len() == 0 {
        0
    } else {
        failures(items.drop_last()) + (if items.last().1 is None {
            1nat
        } else {
            0
        })
    }
}

/// Bytes of plain text in all.
pub open spec fn text_total(items: Seq<(u64, Option<Seq<u8>>)>) -> nat
    decreases items.len(),
{
    if items.len() == 0 {
        0
    } else {
        text_total(items.drop_last()) + (match items.last().1 {
            Some(text) => text.len(),
            None => 0,
        })
    }
}

/// Every chunk ends within 64 bits.
pub open spec fn items_ok(items: Seq<(u64, Option<Seq<u8>>)>) -> bool {
    forall|i: int| 0 <= i < items.len() ==> ((#[trigger] items[i]).1 matches Some(text) ==> items[i].0 + text.len() <= u64::MAX)
}

/// A count after `n` more.
pub open spec fn plus(x: u64, n: nat) -> u64 {
    if x + n > u64::MAX {
        u64::MAX
    } else {
        (x + n) as u64
    }
}

/// Chunks as they come out of decryption.
pub open spec fn item_views(items: Seq<(u64, Option<Vec<u8>>)>) -> Seq<(u64, Option<Seq<u8>>)> {
    items.map_values(
        |x: (u64, Option<Vec<u8>>)|
            (
                x.0,
                match x.1 {
                    Some(t) => Some(t@),
                    None => None,
                },
            ),
    )
}

/// A chunk as it should come out of decryption.
pub open spec fn plain_item(key: Seq<u8>, e: ChunkEntry) -> (u64, Option<Seq<u8>>) {
    (
        e.start_offset,
        match chunk_text(key, e.payload@, e.chunk_len) {
            Ok(text) => Some(text),
            Err(_) => None,
        },
    )
}

/// The chunks of a frame as they should come out of decryption.
pub open spec fn plain_items(key: Seq<u8>, entries: Seq<ChunkEntry>) -> Seq<(u64, Option<Seq<u8>>)> {
    entries.map_values(|e: ChunkEntry| plain_item(key, e))
}

/// The state after chunks were placed.
pub open spec fn chunks_placed(s: IngestView, dev: u32, seq: u32, items: Seq<(u64, Option<Seq<u8>>)>) -> IngestView {
    IngestView {
        v: place_all(s.v, dev, seq, items).v,
        stats: Stats {
            chunks: plus(s.stats.chunks, items.len()),
            decrypt_failed: plus(s.stats.decrypt_failed, failures(items)),
            ..s.stats
        },
        ..s
    }
}

/// An audit row of the intake.
pub open spec fn audit_view(now: i64, kind: i64, dev: u32, seq: u32, detail: Seq<char>) -> AnomalyView {
    AnomalyView {
        ts: now,
        kind,
        dev_id: Some(dev as i64),
        segment_seq: Some(seq as i64),
        conn_hash: None,
        qr_id: None,
        detail: Some(detail),
    }
}

/// The state after an event, and what is left to do.
pub open spec fn after_event(s: IngestView, e: EventView, now: i64) -> (IngestView, ActionView) {
    let t = s.stats;
    match e {
        EventView::Append { dev_id, segment_seq, offset, data } => {
            let key = seg_key(dev_id, segment_seq);
            let waiting = if s.decoders.contains_key(key) {
                s.decoders[key]
            } else {
                Seq::empty()
            };
            (
                IngestView { decoders: s.decoders.insert(key, fed(waiting, data)), ..s },
                ActionView::Decode { dev_id, segment_seq },
            )
        },
        EventView::Sealed { dev_id, segment_seq, size } => {
            let key = seg_key(dev_id, segment_seq);
            let dirty = if s.decoders.contains_key(key) {
                s.decoders[key].len()
            } else {
                0
            };
            (
                IngestView {
                    decoders: s.decoders.remove(key),
                    stats: Stats { dirty_tail_bytes: plus(t.dirty_tail_bytes, dirty), ..t },
                    ..s
                },
                ActionView::Close { dev_id },
            )
        },
        EventView::Dup { dev_id, segment_seq } => (IngestView { stats: Stats { dups: sat_add(t.dups, 1), ..t }, ..s }, ActionView::Nothing),
        EventView::Gap { dev_id, segment_seq, start_offset } => (
            IngestView { stats: Stats { gaps: sat_add(t.gaps, 1), ..t }, ..s },
            ActionView::Nothing,
        ),
        EventView::SeqSkipped { dev_id, segment_seq } => (
            IngestView { stats: Stats { seq_skips: sat_add(t.seq_skips, 1), ..t }, ..s },
            ActionView::MarkIncomplete {
                dev_id,
                row: audit_view(now, ANOM_CONN_RST, dev_id, segment_seq, "segment skipped (Unlink-Oldest)"@),
            },
        ),
        EventView::SegmentError { dev_id, segment_seq, reason } => (
            IngestView { stats: Stats { seg_errors: sat_add(t.seg_errors, 1), ..t }, ..s },
            ActionView::Audit(audit_view(now, ANOM_QR_UNMATCHED, dev_id, segment_seq, "segment error: "@ + reason)),
        ),
        EventView::Evict { dev_id, segment_seq, offset, bytes } => (
            IngestView { stats: Stats { evict_bytes: sat_add(t.evict_bytes, bytes), ..t }, ..s },
            ActionView::Nothing,
        ),
        EventView::Quarantine { dev_id } => (
            IngestView { stats: Stats { quarantines: sat_add(t.quarantines, 1), ..t }, ..s },
            ActionView::Isolate { dev_id, row: audit_view(now, ANOM_QR_TIMEOUT, dev_id, 0, "connection quarantined (OOO flood)"@) },
        ),
        EventView::QuarantinedDrop { dev_id, bytes } => (
            IngestView { stats: Stats { q_drop_bytes: sat_add(t.q_drop_bytes, bytes), ..t }, ..s },
            ActionView::Nothing,
        ),
        EventView::SealGap { dev_id, segment_seq, next_expected, sealed_size } => (
            IngestView {
                refills: s.refills.insert(
                    seg_key(dev_id, segment_seq),
                    RefillState { sealed_size, last_expected: next_expected, rounds: 0 },
                ),
                stats: Stats { gaps: sat_add(t.gaps, 1), ..t },
                ..s
            },
            ActionView::Nothing,
        ),
    }
}

/// Retrying of sealed segments, under way.
#[verifier::ext_equal]
pub struct RetryView {
    pub v: Model,
    pub refills: Map<Key2, RefillState>,
    pub resolved: u64,
    pub queries: Seq<GapQuery>,
    pub events: Seq<EventView>,
}

/// One sealed segment with a gap is tried again: it is complete now, or the missing data is asked for
/// once more, or the segment is given up after the last round.
pub open spec fn retried(s: RetryView, key: Key2) -> RetryView {
    let (dev, seq) = (key.a as u32, key.b as u32);
    let st = s.refills[key];
    let out = sealed(s.v, dev, seq, st.sealed_size);
    let known = s.v.segs.contains_key(key);
    let next = s.v.segs[key].next_expected;
    if known && next == st.sealed_size {
        RetryView {
            v: out.v,
            refills: s.refills.remove(key),
            resolved: sat_add(s.resolved, 1),
            events: s.events + out.events,
            ..s
        }
    } else {
        let from = if known {
            next
        } else {
            st.last_expected
        };
        let rounds = sat_add32(st.rounds, 1);
        // A gap that is still open is known already; only the numbers passed over are news.
        let news = if known {
            out.events.drop_last()
        } else {
            out.events
        };
        if rounds >= GAP_MAX_ROUNDS {
            RetryView { v: out.v, refills: s.refills.remove(key), events: s.events + news, ..s }
        } else {
            RetryView {
                v: out.v,
                refills: s.refills.insert(key, RefillState { last_expected: from, rounds, ..st }),
                queries: s.queries.push(GapQuery { dev_id: dev, segment_seq: seq, start_offset: from }),
                events: s.events + news,
                ..s
            }
        }
    }
}

/// The first `n` of the sealed segments with a gap are tried again.
pub open spec fn all_retried(s: RetryView, keys: Seq<Key2>, n: nat) -> RetryView
    decreases n,
{
    if n == 0 {
        s
    } else {
        retried(all_retried(s, keys, (n - 1) as nat), keys[n - 1])
    }
}

/// Whether a tick is one on which requests without an answer are looked for.
pub open spec fn scan_due(s: IngestView) -> bool {
    sat_add(s.ttl_ticks, 1) >= (if s.ttl_secs == 0 {
        1
    } else {
        s.ttl_secs
    })
}

/// Where a tick starts its retries.
pub open spec fn retry_start(s: IngestView) -> RetryView {
    RetryView { v: s.v, refills: s.refills, resolved: s.stats.resolved_gaps, queries: Seq::empty(), events: Seq::empty() }
}

/// Where a tick ends its retries.
pub open spec fn retry_end(s: IngestView) -> RetryView {
    let keys = scan(s.refills.dom(), Key2 { a: 0, b: 0 }, Key2 { a: u64::MAX, b: u64::MAX });
    all_retried(retry_start(s), keys, keys.len())
}

/// The state after a tick.
pub open spec fn after_tick(s: IngestView) -> IngestView {
    let r = retry_end(s);
    IngestView {
        v: r.v,
        refills: r.refills,
        stats: Stats { resolved_gaps: r.resolved, ..s.stats },
        ttl_ticks: if scan_due(s) {
            0
        } else {
            sat_add(s.ttl_ticks, 1)
        },
        ..s
    }
}

/// The intake.
pub struct LiveIngest {
    decryptor: Decryptor,
    reassembler: Reassembler,
    decoders: Table<Key2, WalStreamDecoder>,
    refills: Table<Key2, RefillState>,
    stats: Stats,
    total_records: u64,
    ttl_secs: u64,
    ttl_ticks: u64,
}

impl View for LiveIngest {
    type V = IngestView;

    closed spec fn view(&self) -> IngestView {
        IngestView {
            v: self.reassembler@,
            decoders: self.decoders@,
            refills: self.refills@,
            stats: self.stats,
            total_records: self.total_records,
            ttl_secs: self.ttl_secs,
            ttl_ticks: self.ttl_ticks,
        }
    }
}

proof fn lemma_place_all(v: Model, dev: u32, seq: u32, items: Seq<(u64, Option<Seq<u8>>)>)
    requires
        inv(v),
        steady(v),
        items_ok(items),
        charged(v) + text_total(items) <= u64::MAX,
    ensures
        inv(place_all(v, dev, seq, items).v),
        steady(place_all(v, dev, seq, items).v),
        charged(place_all(v, dev, seq, items).v) <= charged(v) + text_total(items),
    decreases items.len(),
{
    if items.len() > 0 {
        let head = items.drop_last();
        assert forall|i: int| 0 <= i < head.len() implies ((#[trigger] head[i]).1 matches Some(text) ==> head[i].0 + text.len() <= u64::MAX) by {
            assert(head[i] == items[i]);
        }
        lemma_place_all(v, dev, seq, head);
        assert(items[items.len() - 1] == items.last());
        if let Some(text) = items.last().1 {
            law_segment_budget_holds(place_all(v, dev, seq, head).v, dev, seq, items.last().0, text);
        }
    }
}

proof fn lemma_text_grows(items: Seq<(u64, Option<Seq<u8>>)>, i: int)
    requires
        0 <= i <= items.len(),
    ensures
        text_total(items.take(i)) <= text_total(items),
    decreases items.len(),
{
    if i == items.len() {
        assert(items.take(i) =~= items);
    } else {
        lemma_text_grows(items.drop_last(), i);
        assert(items.drop_last().take(i) =~= items.take(i));
    }
}

/// Bytes that the chunks of a frame announce.
pub open spec fn chunk_total(entries: Seq<ChunkEntry>) -> nat
    decreases entries.len(),
{
    if entries.len() == 0 {
        0
    } else {
        chunk_total(entries.drop_last()) + entries.last().chunk_len as nat
    }
}

proof fn lemma_chunks_grow(entries: Seq<ChunkEntry>, i: int)
    requires
        0 <= i <= entries.len(),
    ensures
        chunk_total(entries.take(i)) <= chunk_total(entries),
    decreases entries.len(),
{
    if i == entries.len() {
        assert(entries.take(i) =~= entries);
    } else {
        lemma_chunks_grow(entries.drop_last(), i);
        assert(entries.drop_last().take(i) =~= entries.take(i));
    }
}

/// Whether the chunks of a frame can be counted within 64 bits: each ends there, and so do all of them
/// together with what is staged.
pub open spec fn fits(v: Model, entries: Seq<ChunkEntry>) -> bool {
    &&& charged(v) + chunk_total(entries) <= u64::MAX
    &&& forall|i: int| 0 <= i < entries.len() ==> (#[trigger] entries[i]).start_offset + entries[i].chunk_len <= u64::MAX
}

/// What a batch frame leads to.
pub open spec fn after_batch(s: IngestView, key: Seq<u8>, batch: Option<ChunkBatch>) -> IngestView {
    match batch {
        None => IngestView { stats: Stats { unframed_dropped: sat_add(s.stats.unframed_dropped, 1), ..s.stats }, ..s },
        Some(b) => chunks_placed(
            IngestView { stats: Stats { batches: sat_add(s.stats.batches, 1), ..s.stats }, ..s },
            b.dev_id,
            b.segment_seq,
            plain_items(key, b.entries@),
        ),
    }
}

/// What a frame with one chunk leads to.
pub open spec fn after_chunk(s: IngestView, key: Seq<u8>, frame: Option<ChunkFrame>) -> IngestView {
    match frame {
        None => IngestView { stats: Stats { unframed_dropped: sat_add(s.stats.unframed_dropped, 1), ..s.stats }, ..s },
        Some(f) => if f.ref_only {
            IngestView { stats: Stats { chunks: sat_add(s.stats.chunks, 1), ..s.stats }, ..s }
        } else {
            chunks_placed(s, f.dev_id, f.segment_seq, seq![plain_item(key, f.entry)])
        },
    }
}

/// What a seal frame leads to.
pub open spec fn after_seal(s: IngestView, frame: Option<SealFrame>) -> IngestView {
    match frame {
        None => IngestView { stats: Stats { unframed_dropped: sat_add(s.stats.unframed_dropped, 1), ..s.stats }, ..s },
        Some(f) => IngestView {
            v: sealed(s.v, f.dev_id, f.segment_seq, f.sealed_size).v,
            stats: Stats { seals: sat_add(s.stats.seals, 1), ..s.stats },
            ..s
        },
    }
}

fn audit(now: i64, kind: i64, dev_id: u32, segment_seq: u32, detail: String) -> (e: AnomalyEvent)
    ensures
        e@ == audit_view(now, kind, dev_id, segment_seq, detail@),
{
    let e = AnomalyEvent {
        ts: now,
        kind,
        dev_id: Some(dev_id as i64),
        segment_seq: Some(segment_seq as i64),
        conn_hash: None,
        qr_id: None,
        detail: Some(detail),
    };
    assert(e@ =~= audit_view(now, kind, dev_id, segment_seq, detail@));
    e
}

impl LiveIngest {
    /// The tables are in order, and gaps belong to segments.
    pub closed spec fn wf(&self) -> bool {
        &&& self.reassembler.wf()
        &&& self.decoders.wf()
        &&& self.refills.wf()
        &&& forall|k: Key2| #[trigger] self.refills@.contains_key(k) ==> k.a <= u32::MAX && k.b <= u32::MAX
    }

    /// The transport key.
    pub closed spec fn key(&self) -> Seq<u8> {
        self.decryptor@
    }

    /// An intake at rest.
    pub fn new(decryptor: Decryptor, reassembler: Reassembler, ttl_secs: u64) -> (s: LiveIngest)
        requires
            reassembler.wf(),
        ensures
            s.wf(),
            s.key() == decryptor@,
            s@ == (IngestView {
                v: reassembler@,
                decoders: Map::empty(),
                refills: Map::empty(),
                stats: no_stats(),
                total_records: 0,
                ttl_secs,
                ttl_ticks: 0,
            }),
    {
        LiveIngest {
            decryptor,
            reassembler,
            decoders: Table::new(),
            refills: Table::new(),
            stats: Stats::default(),
            total_records: 0,
            ttl_secs,
            ttl_ticks: 0,
        }
    }

    /// Counts since the start.
    pub fn stats(&self) -> (s: Stats)
        ensures
            s == self@.stats,
    {
        self.stats
    }

    /// Records decoded since the start.
    pub fn total_records(&self) -> (n: u64)
        ensures
            n == self@.total_records,
    {
        self.total_records
    }

    /// Sealed segments that still have a gap.
    pub fn refills_in_flight(&self) -> (n: usize)
        requires
            self.wf(),
        ensures
            n == self@.refills.dom().len(),
    {
        self.refills.len()
    }

    /// Sets the clock of reassembly, in seconds.
    pub fn set_now(&mut self, now: u64)
        requires
            old(self).wf(),
        ensures
            final(self).wf(),
            final(self).key() == old(self).key(),
            final(self)@ == (IngestView { v: Model { now, ..old(self)@.v }, ..old(self)@ }),
    {
        self.reassembler.set_now(now);
    }

    /// Whether the chunks of a frame can be taken in.
    pub fn admits(&self, entries: &Vec<ChunkEntry>) -> (r: bool)
        requires
            self.wf(),
        ensures
            r == fits(self@.v, entries@),
    {
        let mut sum: u64 = self.reassembler.global_pending();
        let mut i: usize = 0;
        assert(entries@.take(0) =~= Seq::empty());
        while i < entries.len()
            invariant
                i <= entries@.len(),
                sum == charged(self@.v) + chunk_total(entries@.take(i as int)),
                forall|j: int| 0 <= j < i ==> (#[trigger] entries@[j]).start_offset + entries@[j].chunk_len <= u64::MAX,
            decreases entries@.len() - i,
        {
            proof {
                assert(entries@.take(i + 1).drop_last() =~= entries@.take(i as int));
                lemma_chunks_grow(entries@, i + 1);
            }
            let n: u64 = entries[i].chunk_len as u64;
            if entries[i].start_offset.checked_add(n).is_none() {
                assert(!fits(self@.v, entries@)) by {
                    assert(entries@[i as int].start_offset + entries@[i as int].chunk_len > u64::MAX);
                }
                return false;
            }
            match sum.checked_add(n) {
                Some(x) => {
                    sum = x;
                },
                None => {
                    return false;
                },
            }
            i += 1;
        }
        assert(entries@.take(entries@.len() as int) =~= entries@);
        true
    }

    /// Places chunks in order and returns what follows. A chunk without plain text could not be decrypted
    /// and is only counted.
    pub fn place_chunks(&mut self, dev_id: u32, segment_seq: u32, items: &Vec<(u64, Option<Vec<u8>>)>) -> (events: Vec<Event>)
        requires
            old(self).wf(),
            items_ok(item_views(items@)),
            charged(old(self)@.v) + text_total(item_views(items@)) <= u64::MAX,
        ensures
            final(self).wf(),
            final(self).key() == old(self).key(),
            final(self)@ == chunks_placed(old(self)@, dev_id, segment_seq, item_views(items@)),
            event_views(events@) == place_all(old(self)@.v, dev_id, segment_seq, item_views(items@)).events,
    {
        let ghost all = item_views(items@);
        let ghost s0 = self@;
        let mut events: Vec<Event> = Vec::new();
        let mut i: usize = 0;
        proof {
            self.reassembler.lemma_wf();
            assert(all.take(0) =~= Seq::empty());
            assert(event_views(events@) =~= Seq::empty());
            assert(self@ =~= chunks_placed(s0, dev_id, segment_seq, all.take(0)));
        }
        while i < items.len()
            invariant
                i <= items@.len(),
                all == item_views(items@),
                s0 == old(self)@,
                inv(s0.v),
                steady(s0.v),
                items_ok(all),
                charged(s0.v) + text_total(all) <= u64::MAX,
                self.wf(),
                self.key() == old(self).key(),
                self@ == chunks_placed(s0, dev_id, segment_seq, all.take(i as int)),
                event_views(events@) == place_all(s0.v, dev_id, segment_seq, all.take(i as int)).events,
            decreases items@.len() - i,
        {
            let ghost before = self@;
            let ghost t = all.take(i + 1);
            proof {
                assert(t.drop_last() =~= all.take(i as int));
                assert(t.last() == all[i as int]);
                lemma_text_grows(all, i + 1);
                assert forall|j: int| 0 <= j < all.take(i as int).len() implies ((#[trigger] all.take(i as int)[j]).1 matches Some(text)
                    ==> all.take(i as int)[j].0 + text.len() <= u64::MAX) by {
                    assert(all[j] == all.take(i as int)[j]);
                }
                lemma_place_all(s0.v, dev_id, segment_seq, all.take(i as int));
            }
            self.stats.chunks = self.stats.chunks.saturating_add(1);
            match &items[i].1 {
                Some(text) => {
                    assert(all[i as int].1 == Some(text@));
                    let mut more = self.reassembler.place_chunk(dev_id, segment_seq, items[i].0, text);
                    let ghost e0 = events@;
                    let ghost m0 = more@;
                    events.append(&mut more);
                    assert(event_views(events@) =~= event_views(e0) + event_views(m0));
                },
                None => {
                    self.stats.decrypt_failed = self.stats.decrypt_failed.saturating_add(1);
                },
            }
            assert(self@ =~= chunks_placed(s0, dev_id, segment_seq, t));
            i += 1;
        }
        assert(all.take(items@.len() as int) =~= all);
        events
    }

    /// Decrypts the chunks of a frame.
    fn decrypt_all(&self, entries: &Vec<ChunkEntry>) -> (items: Vec<(u64, Option<Vec<u8>>)>)
        requires
            forall|i: int| 0 <= i < entries@.len() ==> (#[trigger] entries@[i]).start_offset + entries@[i].chunk_len <= u64::MAX,
        ensures
            item_views(items@) == plain_items(self.key(), entries@),
            items_ok(item_views(items@)),
            text_total(item_views(items@)) <= chunk_total(entries@),
    {
        let mut items: Vec<(u64, Option<Vec<u8>>)> = Vec::new();
        let mut i: usize = 0;
        let ghost want = plain_items(self.key(), entries@);
        assert(item_views(items@) =~= want.take(0));
        assert(entries@.take(0) =~= Seq::empty());
        while i < entries.len()
            invariant
                i <= entries@.len(),
                want == plain_items(self.key(), entries@),
                forall|j: int| 0 <= j < entries@.len() ==> (#[trigger] entries@[j]).start_offset + entries@[j].chunk_len <= u64::MAX,
                item_views(items@) == want.take(i as int),
                items_ok(item_views(items@)),
                text_total(item_views(items@)) <= chunk_total(entries@.take(i as int)),
            decreases entries@.len() - i,
        {
            let e = &entries[i];
            let text: Option<Vec<u8>> = match self.decryptor.decrypt_chunk_payload(&e.payload, e.chunk_len) {
                Ok(t) => Some(t),
                Err(_) => None,
            };
            let ghost before = item_views(items@);
            items.push((e.start_offset, text));
            proof {
                let now = item_views(items@);
                assert(now =~= before.push(want[i as int]));
                assert(now =~= want.take(i + 1));
                assert(now.drop_last() =~= before);
                assert(entries@.take(i + 1).drop_last() =~= entries@.take(i as int));
                assert(entries@[i as int].start_offset + entries@[i as int].chunk_len <= u64::MAX);
                assert forall|j: int| 0 <= j < now.len() implies ((#[trigger] now[j]).1 matches Some(x) ==> now[j].0 + x.len() <= u64::MAX) by {
                    if j < before.len() {
                        assert(now[j] == before[j]);
                    }
                }
            }
            i += 1;
        }
        assert(want.take(entries@.len() as int) =~= want);
        assert(entries@.take(entries@.len() as int) =~= entries@);
        items
    }

    /// Takes in a batch frame; none if the frame could not be read.
    pub fn on_batch(&mut self, batch: Option<&ChunkBatch>) -> (events: Vec<Event>)
        requires
            old(self).wf(),
            batch matches Some(b) ==> fits(old(self)@.v, b.entries@),
        ensures
            final(self).wf(),
            final(self).key() == old(self).key(),
            batch is None ==> final(self)@ == after_batch(old(self)@, old(self).key(), None) && events@.len() == 0,
            batch matches Some(b) ==> {
                &&& final(self)@ == after_batch(old(self)@, old(self).key(), Some(*b))
                &&& event_views(events@) == place_all(
                    old(self)@.v,
                    b.dev_id,
                    b.segment_seq,
                    plain_items(old(self).key(), b.entries@),
                ).events
            },
    {
        match batch {
            None => {
                self.stats.unframed_dropped = self.stats.unframed_dropped.saturating_add(1);
                Vec::new()
            },
            Some(b) => {
                self.stats.batches = self.stats.batches.saturating_add(1);
                let items = self.decrypt_all(&b.entries);
                self.place_chunks(b.dev_id, b.segment_seq, &items)
            },
        }
    }

    /// Takes in a frame with one chunk; none if the frame could not be read.
    pub fn on_chunk(&mut self, frame: Option<&ChunkFrame>) -> (events: Vec<Event>)
        requires
            old(self).wf(),
            frame matches Some(f) ==> fits(old(self)@.v, seq![f.entry]),
        ensures
            final(self).wf(),
            final(self).key() == old(self).key(),
            frame is None ==> final(self)@ == after_chunk(old(self)@, old(self).key(), None) && events@.len() == 0,
            frame matches Some(f) ==> {
                &&& final(self)@ == after_chunk(old(self)@, old(self).key(), Some(*f))
                &&& event_views(events@) == (if f.ref_only {
                    Seq::empty()
                } else {
                    place_all(old(self)@.v, f.dev_id, f.segment_seq, seq![plain_item(old(self).key(), f.entry)]).events
                })
            },
    {
        match frame {
            None => {
                self.stats.unframed_dropped = self.stats.unframed_dropped.saturating_add(1);
                Vec::new()
            },
            Some(f) => {
                if f.ref_only {
                    self.stats.chunks = self.stats.chunks.saturating_add(1);
                    let events: Vec<Event> = Vec::new();
                    assert(event_views(events@) =~= Seq::empty());
                    return events;
                }
                let text: Option<Vec<u8>> = match self.decryptor.decrypt_chunk_payload(&f.entry.payload, f.entry.chunk_len) {
                    Ok(t) => Some(t),
                    Err(_) => None,
                };
                let ghost text0 = text;
                let items: Vec<(u64, Option<Vec<u8>>)> = vec![(f.entry.start_offset, text)];
                proof {
                    let one = seq![f.entry];
                    assert(one[0].start_offset + one[0].chunk_len <= u64::MAX);
                    assert(one.drop_last() =~= Seq::empty());
                    assert(chunk_total(one.drop_last()) == 0);
                    let views = item_views(items@);
                    assert(views =~= seq![plain_item(self.key(), f.entry)]);
                    assert(views.drop_last() =~= Seq::empty());
                    assert(text_total(views.drop_last()) == 0);
                }
                self.place_chunks(f.dev_id, f.segment_seq, &items)
            },
        }
    }

    /// Takes in a seal frame; none if the frame could not be read.
    pub fn on_seal(&mut self, frame: Option<SealFrame>) -> (events: Vec<Event>)
        requires
            old(self).wf(),
        ensures
            final(self).wf(),
            final(self).key() == old(self).key(),
            final(self)@ == after_seal(old(self)@, frame),
            event_views(events@) == (match frame {
                Some(f) => sealed(old(self)@.v, f.dev_id, f.segment_seq, f.sealed_size).events,
                None => Seq::empty(),
            }),
    {
        match frame {
            None => {
                self.stats.unframed_dropped = self.stats.unframed_dropped.saturating_add(1);
                let events: Vec<Event> = Vec::new();
                assert(event_views(events@) =~= Seq::empty());
                events
            },
            Some(f) => {
                self.stats.seals = self.stats.seals.saturating_add(1);
                self.reassembler.seal(f.dev_id, f.segment_seq, f.sealed_size)
            },
        }
    }

    /// Deals with one event: counts it, keeps what it brings, and says what is left to do. `now` is the
    /// time of an audit row, in seconds.
    pub fn on_event(&mut self, e: Event, now: i64) -> (a: Action)
        requires
            old(self).wf(),
        ensures
            final(self).wf(),
            final(self).key() == old(self).key(),
            (final(self)@, a@) == after_event(old(self)@, e@, now),
    {
        let ghost want = after_event(self@, e@, now);
        match e {
            Event::Append { dev_id, segment_seq, offset: _, data } => {
                let key = Key2 { a: dev_id as u64, b: segment_seq as u64 };
                let mut d = match self.decoders.delete(&key) {
                    Some(d) => d,
                    None => WalStreamDecoder::new(),
                };
                d.feed(&data);
                self.decoders.put(key, d);
                assert(self@ =~= want.0);
                Action::Decode { dev_id, segment_seq }
            },
            Event::Sealed { dev_id, segment_seq, size: _ } => {
                let key = Key2 { a: dev_id as u64, b: segment_seq as u64 };
                if let Some(d) = self.decoders.delete(&key) {
                    self.stats.dirty_tail_bytes = self.stats.dirty_tail_bytes.saturating_add(d.residual_len() as u64);
                }
                assert(self@ =~= want.0);
                Action::Close { dev_id }
            },
            Event::Dup { dev_id: _, segment_seq: _ } => {
                self.stats.dups = self.stats.dups.saturating_add(1);
                Action::Nothing
            },
            Event::Gap { dev_id: _, segment_seq: _, start_offset: _ } => {
                self.stats.gaps = self.stats.gaps.saturating_add(1);
                Action::Nothing
            },
            Event::SeqSkipped { dev_id, segment_seq } => {
                self.stats.seq_skips = self.stats.seq_skips.saturating_add(1);
                Action::MarkIncomplete {
                    dev_id,
                    row: audit(now, ANOM_CONN_RST, dev_id, segment_seq, String::from_str("segment skipped (Unlink-Oldest)")),
                }
            },
            Event::SegmentError { dev_id, segment_seq, reason } => {
                self.stats.seg_errors = self.stats.seg_errors.saturating_add(1);
                let mut detail = String::from_str("segment error: ");
                detail.append(reason);
                Action::Audit(audit(now, ANOM_QR_UNMATCHED, dev_id, segment_seq, detail))
            },
            Event::Evict { dev_id: _, segment_seq: _, offset: _, bytes } => {
                self.stats.evict_bytes = self.stats.evict_bytes.saturating_add(bytes);
                Action::Nothing
            },
            Event::Quarantine { dev_id } => {
                self.stats.quarantines = self.stats.quarantines.saturating_add(1);
                Action::Isolate {
                    dev_id,
                    row: audit(now, ANOM_QR_TIMEOUT, dev_id, 0, String::from_str("connection quarantined (OOO flood)")),
                }
            },
            Event::QuarantinedDrop { dev_id: _, bytes } => {
                self.stats.q_drop_bytes = self.stats.q_drop_bytes.saturating_add(bytes);
                Action::Nothing
            },
            Event::SealGap { dev_id, segment_seq, next_expected, sealed_size } => {
                self.stats.gaps = self.stats.gaps.saturating_add(1);
                self.refills.put(
                    Key2 { a: dev_id as u64, b: segment_seq as u64 },
                    RefillState { sealed_size, last_expected: next_expected, rounds: 0 },
                );
                assert(self@ =~= want.0);
                Action::Nothing
            },
        }
    }

    /// The bytes of a segment that wait to become records.
    pub fn waiting(&self, dev_id: u32, segment_seq: u32) -> (b: Option<&Vec<u8>>)
        requires
            self.wf(),
        ensures
            (match b {
                Some(b) => Some(b@),
                None => None,
            }) == (if self@.decoders.contains_key(seg_key(dev_id, segment_seq)) {
                Some(self@.decoders[seg_key(dev_id, segment_seq)])
            } else {
                None
            }),
    {
        match self.decoders.get(&Key2 { a: dev_id as u64, b: segment_seq as u64 }) {
            Some(d) => Some(d.bytes()),
            None => None,
        }
    }

    /// Takes note of what decoding came to: the records counted, and the bytes left over.
    pub fn decoded(&mut self, dev_id: u32, segment_seq: u32, records: u64, residual: usize)
        requires
            old(self).wf(),
            old(self)@.decoders.contains_key(seg_key(dev_id, segment_seq)),
            residual <= old(self)@.decoders[seg_key(dev_id, segment_seq)].len(),
        ensures
            final(self).wf(),
            final(self).key() == old(self).key(),
            final(self)@ == ({
                let key = seg_key(dev_id, segment_seq);
                let b = old(self)@.decoders[key];
                IngestView {
                    decoders: old(self)@.decoders.insert(key, b.skip(b.len() - residual)),
                    total_records: sat_add(old(self)@.total_records, records),
                    ..old(self)@
                }
            }),
    {
        let key = Key2 { a: dev_id as u64, b: segment_seq as u64 };
        self.total_records = self.total_records.saturating_add(records);
        if let Some(mut d) = self.decoders.delete(&key) {
            d.keep(residual);
            self.decoders.put(key, d);
        }
        assert(self@.decoders =~= old(self)@.decoders.insert(
            key,
            old(self)@.decoders[key].skip(old(self)@.decoders[key].len() - residual),
        ));
    }
}

impl LiveIngest {
    /// Tries one sealed segment with a gap again.
    fn retry(&mut self, key: Key2, queries: &mut Vec<GapQuery>, events: &mut Vec<Event>)
        requires
            old(self).wf(),
            old(self)@.refills.contains_key(key),
            key.a <= u32::MAX,
            key.b <= u32::MAX,
        ensures
            final(self).wf(),
            final(self).key() == old(self).key(),
            ({
                let r = retried(
                    RetryView {
                        v: old(self)@.v,
                        refills: old(self)@.refills,
                        resolved: old(self)@.stats.resolved_gaps,
                        queries: old(queries)@,
                        events: event_views(old(events)@),
                    },
                    key,
                );
                &&& final(self)@ == (IngestView {
                    v: r.v,
                    refills: r.refills,
                    stats: Stats { resolved_gaps: r.resolved, ..old(self)@.stats },
                    ..old(self)@
                })
                &&& final(queries)@ == r.queries
                &&& event_views(final(events)@) == r.events
            }),
    {
        let ghost r = retried(
            RetryView {
                v: self@.v,
                refills: self@.refills,
                resolved: self@.stats.resolved_gaps,
                queries: queries@,
                events: event_views(events@),
            },
            key,
        );
        let (dev_id, segment_seq) = (key.a as u32, key.b as u32);
        let mut st = match self.refills.get(&key) {
            Some(st) => *st,
            None => {
                assert(false);
                RefillState { sealed_size: 0, last_expected: 0, rounds: 0 }
            },
        };
        let ghost v0 = self@.v;
        let ghost e0 = events@;
        let mut news = self.reassembler.seal(dev_id, segment_seq, st.sealed_size);
        let ghost out = sealed(v0, dev_id, segment_seq, st.sealed_size);
        let ghost n0 = news@;
        assert(event_views(n0).len() == n0.len());
        let mut released: bool = false;
        match news.pop() {
            Some(last) => {
                proof {
                    assert(event_views(n0)[n0.len() - 1] == last@);
                    lemma_last_news(v0, dev_id, segment_seq, st.sealed_size);
                }
                match last {
                    Event::SealGap { dev_id: _, segment_seq: _, next_expected, sealed_size: _ } => {
                        st.last_expected = next_expected;
                        assert(event_views(news@) =~= out.events.drop_last());
                    },
                    Event::Sealed { dev_id: d, segment_seq: q, size } => {
                        released = true;
                        news.push(Event::Sealed { dev_id: d, segment_seq: q, size });
                        assert(event_views(news@) =~= out.events);
                    },
                    other => {
                        news.push(other);
                        assert(event_views(news@) =~= out.events);
                    },
                }
            },
            None => {
                assert(event_views(news@) =~= out.events);
            },
        }
        if released {
            self.stats.resolved_gaps = self.stats.resolved_gaps.saturating_add(1);
            self.refills.delete(&key);
        } else {
            st.rounds = st.rounds.saturating_add(1);
            if st.rounds >= GAP_MAX_ROUNDS {
                self.refills.delete(&key);
            } else {
                queries.push(GapQuery { dev_id, segment_seq, start_offset: st.last_expected });
                self.refills.put(key, st);
            }
        }
        let ghost n1 = news@;
        events.append(&mut news);
        assert(event_views(events@) =~= event_views(e0) + event_views(n1));
        assert(self@.refills =~= r.refills);
    }

    /// One tick, once a second: says whether to look for requests without an answer, and tries every sealed
    /// segment with a gap again.
    pub fn on_tick(&mut self) -> (t: Tick)
        requires
            old(self).wf(),
        ensures
            final(self).wf(),
            final(self).key() == old(self).key(),
            final(self)@ == after_tick(old(self)@),
            t.ttl_scan == (scan_due(old(self)@) && old(self)@.ttl_secs > 0),
            t.queries@ == retry_end(old(self)@).queries,
            event_views(t.events@) == retry_end(old(self)@).events,
    {
        let ghost s0 = self@;
        let ghost key0 = self.key();
        let every: u64 = if self.ttl_secs == 0 { 1 } else { self.ttl_secs };
        let ticks: u64 = self.ttl_ticks.saturating_add(1);
        let due: bool = ticks >= every;
        self.ttl_ticks = if due { 0 } else { ticks };
        let keys = self.refills.range(
            &Key2 { a: 0, b: 0 },
            &Key2 { a: 0xffff_ffff_ffff_ffff, b: 0xffff_ffff_ffff_ffff },
        );
        let mut queries: Vec<GapQuery> = Vec::new();
        let mut events: Vec<Event> = Vec::new();
        let mut i: usize = 0;
        assert(event_views(events@) =~= Seq::empty());
        assert forall|j: int| 0 <= j < keys@.len() implies self@.refills.contains_key(#[trigger] keys@[j]) by {
            assert(self.refills@.dom().contains(keys@[j]));
        }
        while i < keys.len()
            invariant
                i <= keys@.len(),
                self.wf(),
                self.key() == key0,
                crate::table::is_scan(keys@, s0.refills.dom(), Key2 { a: 0, b: 0 }, Key2 { a: u64::MAX, b: u64::MAX }),
                forall|j: int| i <= j < keys@.len() ==> self@.refills.contains_key(#[trigger] keys@[j]),
                ({
                    let r = all_retried(retry_start(s0), keys@, i as nat);
                    &&& self@ == (IngestView {
                        v: r.v,
                        refills: r.refills,
                        stats: Stats { resolved_gaps: r.resolved, ..s0.stats },
                        ttl_ticks: self@.ttl_ticks,
                        ..s0
                    })
                    &&& queries@ == r.queries
                    &&& event_views(events@) == r.events
                }),
                self@.ttl_ticks == after_tick(s0).ttl_ticks,
            decreases keys@.len() - i,
        {
            let key = keys[i];
            let ghost before = self@.refills;
            assert(self@.refills.contains_key(keys@[i as int]));
            self.retry(key, &mut queries, &mut events);
            proof {
                assert forall|j: int| i + 1 <= j < keys@.len() implies self@.refills.contains_key(#[trigger] keys@[j]) by {
                    assert(before.contains_key(keys@[j]));
                    assert(crate::table::IndexKey::rank(keys@[i as int]) < crate::table::IndexKey::rank(keys@[j]));
                }
            }
            i += 1;
        }
        Tick { ttl_scan: due && self.ttl_secs > 0, queries, events }
    }
}

/// The last event of a seal tells whether the segment is complete, has a gap, or is not known.
proof fn lemma_last_news(v: Model, dev: u32, seq: u32, size: u64)
    requires
        sealed(v, dev, seq, size).events.len() > 0,
    ensures
        ({
            let last = sealed(v, dev, seq, size).events.last();
            let key = seg_key(dev, seq);
            let known = v.segs.contains_key(key);
            &&& last is Sealed <==> known && v.segs[key].next_expected == size
            &&& last is SealGap <==> known && v.segs[key].next_expected != size
            &&& last matches EventView::SealGap { dev_id, segment_seq, next_expected, sealed_size } ==> next_expected
                == v.segs[key].next_expected
        }),
{
    let gone = skipped(dev, last_sealed(v, dev), seq);
    if gone.len() > 0 {
        assert(gone[gone.len() - 1] is SeqSkipped);
    }
}

/// A gap is asked for at most twenty times: every tick either settles it or counts one more round.
pub proof fn law_refill_is_bounded(s: RetryView, key: Key2)
    requires
        s.refills.contains_key(key),
    ensures
        ({
            let t = retried(s, key);
            !t.refills.contains_key(key) || (t.refills[key].rounds == s.refills[key].rounds + 1 && t.refills[key].rounds < GAP_MAX_ROUNDS)
        }),
{
}

/// A gap that has been filled is settled by the next tick: the segment is reported complete and asked for
/// no more.
pub proof fn law_filled_gap_is_settled(s: RetryView, key: Key2)
    requires
        s.refills.contains_key(key),
        key.a <= u32::MAX,
        key.b <= u32::MAX,
        s.v.segs.contains_key(key),
        s.v.segs[key].next_expected == s.refills[key].sealed_size,
    ensures
        ({
            let t = retried(s, key);
            &&& !t.refills.contains_key(key)
            &&& t.queries == s.queries
            &&& t.events.contains(
                EventView::Sealed { dev_id: key.a as u32, segment_seq: key.b as u32, size: s.refills[key].sealed_size },
            )
        }),
{
    let t = retried(s, key);
    let out = sealed(s.v, key.a as u32, key.b as u32, s.refills[key].sealed_size);
    assert(seg_key(key.a as u32, key.b as u32) == key);
    assert(t.events[t.events.len() - 1] == out.events.last());
}

} // verus!
