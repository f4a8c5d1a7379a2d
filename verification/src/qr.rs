//! Matching of requests and responses.
//!
//! Raw sequence numbers are translated to absolute stream positions, so a request is known by where it
//! ends in the client stream and an acknowledgement consumes every request that ends within it. The
//! incarnation of a connection is part of the pending key: late packets of an earlier incarnation
//! cannot reach the requests of the current one.

use crate::anomaly::ANOM_QR_UNMATCHED;
use crate::codec::{be, push_be};
use crate::connection::anomaly;
use crate::connection::{conn_hash, fnv1a64, ConnState, ConnStateKind};
pub use crate::db::U48_MAX;
use crate::db::{QrPairValue, QrStatus};
use crate::ledger::{anomaly_views, AnomalyEvent, AnomalyView};
use crate::matching::{
    close_all, close_one, concluded, condition_marked, conn_event, consumed, counted, exchanged, finish_pair,
    finished, flagged, fresh_state, gap_marked, handshake, ids_of, is_rebirth, keyed, located, merged, moved,
    new_pair, opened, pending_upto, reborn, recorded, requested, reset, responded, step, stepped, still_open,
    waits, with_request, Dir, Outcome, Stage,
};
use crate::meta::{extract_key, first, print_views, signature, ExtMetaEvent, MetaRegistry, PrintView, ProtocolKind, RuleView};
use crate::plane::{LiveView, PendingVal, Planes, PlanesView, TtlVal};
use crate::table::{scan, Key2, Key3, PendingKey, Table};
use crate::text::{copy_range, push_dec};
use crate::wal::{ip_of, summarize, IndexedRecord, WalRecord, FLAG_DEGRADED, TCP_ACK, TCP_FIN, TCP_RST, TCP_SYN};
use vstd::prelude::*;
use vstd::string::*;

verus! {

/// A non-SYN jump beyond this distance is marked as a sequence gap.
pub const EPOCH_JUMP_THRESHOLD: u32 = 0x4000_0000;

/// An acknowledgement may lead the client stream by at most 64 MB.
pub const ACK_LEAD_CAP: u64 = 0x400_0000;

/// Audit kind: a new incarnation began.
pub const ANOM_EPOCH_REBIRTH: i64 = 10;

/// Audit kind: a connection was reset.
pub const ANOM_CONN_RST: i64 = 11;

/// Parameters of the matcher.
#[derive(Debug, Clone, Copy, PartialEq, Eq, Structural)]
pub struct QrParams {
    /// Slack allowed at the end of an acknowledged range.
    pub ack_tolerance: u32,
    /// Open requests at which a connection is quarantined.
    pub pending_budget: u64,
}

impl Default for QrParams {
    fn default() -> (p: QrParams)
        ensures
            p == (QrParams { ack_tolerance: 4, pending_budget: 4096 }),
    {
        QrParams { ack_tolerance: 4, pending_budget: 4096 }
    }
}

/// The distance from `last` to `raw` on the circle of sequence numbers: forward positive, backward
/// negative.
pub open spec fn seq_diff(raw: u32, last: u32) -> int {
    if raw - last >= 0x8000_0000 {
        raw - last - 0x1_0000_0000
    } else if raw - last < -0x8000_0000 {
        raw - last + 0x1_0000_0000
    } else {
        raw - last
    }
}

/// `a + n` in 64 bits.
pub open spec fn wrap_add(a: u64, n: int) -> u64 {
    if a + n < 0x1_0000_0000_0000_0000 {
        (a + n) as u64
    } else {
        (a + n - 0x1_0000_0000_0000_0000) as u64
    }
}

/// `raw + n` on the circle of sequence numbers.
pub open spec fn seq_add(raw: u32, n: int) -> u32 {
    if raw + n < 0x1_0000_0000 {
        (raw + n) as u32
    } else {
        (raw + n - 0x1_0000_0000) as u32
    }
}

/// Translator from raw sequence numbers to absolute stream positions.
#[derive(Debug, Clone, Copy, PartialEq, Eq, Structural)]
pub struct SeqStream {
    pub last_raw: u32,
    pub last_abs: u64,
    /// A first packet has set the baseline.
    pub active: bool,
}

impl SeqStream {
    /// The stream of one side, as kept in the connection state.
    pub open spec fn of(st: ConnState, client: bool) -> SeqStream {
        if client {
            SeqStream { last_raw: st.last_raw_c, last_abs: st.abs_seq_c, active: st.has_c() }
        } else {
            SeqStream { last_raw: st.last_raw_s, last_abs: st.abs_seq_s, active: st.has_s() }
        }
    }

    /// A stream that starts at `isn`.
    pub open spec fn at(isn: u32) -> SeqStream {
        SeqStream { last_raw: isn, last_abs: isn as u64, active: true }
    }

    /// The absolute position of `raw`; never behind the head of the stream.
    pub open spec fn abs(self, raw: u32) -> u64 {
        if !self.active {
            raw as u64
        } else if seq_diff(raw, self.last_raw) > 0 {
            wrap_add(self.last_abs, seq_diff(raw, self.last_raw))
        } else {
            self.last_abs
        }
    }

    /// The stream after a packet, the absolute start of its new data, and how much of it is new. The
    /// first packet sets the baseline, and the head stands behind its data. Later data ahead of the head is
    /// new as a whole; of data at or behind the head only what reaches past it is new.
    pub open spec fn fed(self, seq: u32, wire_len: u32) -> (SeqStream, u64, u32) {
        if !self.active {
            (
                SeqStream { last_raw: seq_add(seq, wire_len as int), last_abs: (seq + wire_len) as u64, active: true },
                seq as u64,
                wire_len,
            )
        } else {
            let d = seq_diff(seq, self.last_raw);
            let end = seq_add(seq, wire_len as int);
            if d > 0 {
                let start = wrap_add(self.last_abs, d);
                (SeqStream { last_raw: end, last_abs: wrap_add(start, wire_len as int), active: true }, start, wire_len)
            } else {
                let n = seq_diff(end, self.last_raw);
                if n <= 0 {
                    (self, self.last_abs, 0)
                } else {
                    (SeqStream { last_raw: end, last_abs: wrap_add(self.last_abs, n), active: true }, self.last_abs, n as u32)
                }
            }
        }
    }

    /// Restores a translator from the connection state.
    pub fn from_state(st: &ConnState, client: bool) -> (s: SeqStream)
        ensures
            s == SeqStream::of(*st, client),
    {
        if client {
            SeqStream { last_raw: st.last_raw_c, last_abs: st.abs_seq_c, active: st.active_c() }
        } else {
            SeqStream { last_raw: st.last_raw_s, last_abs: st.abs_seq_s, active: st.active_s() }
        }
    }

    /// Starts over at a new initial sequence number.
    pub fn reset_baseline(&mut self, isn: u32)
        ensures
            *final(self) == SeqStream::at(isn),
    {
        self.last_raw = isn;
        self.last_abs = isn as u64;
        self.active = true;
    }

    /// Signed distance of `raw` from the head of the stream.
    pub fn diff(&self, raw: u32) -> (d: i32)
        ensures
            d == seq_diff(raw, self.last_raw),
    {
        to_signed(raw.wrapping_sub(self.last_raw))
    }

    /// Translates without moving the stream.
    pub fn abs_of(&self, raw: u32) -> (a: u64)
        ensures
            a == self.abs(raw),
    {
        if !self.active {
            return raw as u64;
        }
        let d: i32 = self.diff(raw);
        if d > 0 {
            self.last_abs.wrapping_add(d as u64)
        } else {
            self.last_abs
        }
    }

    /// Moves the stream by one packet; returns the absolute start of its new data and its length.
    pub fn feed_packet(&mut self, seq: u32, wire_len: u32) -> (r: (u64, u32))
        ensures
            (*final(self), r.0, r.1) == old(self).fed(seq, wire_len),
    {
        if !self.active {
            self.reset_baseline(seq);
            let start: u64 = self.last_abs;
            self.last_abs = start + wire_len as u64;
            self.last_raw = seq.wrapping_add(wire_len);
            return (start, wire_len);
        }
        let d: i32 = self.diff(seq);
        let end: u32 = seq.wrapping_add(wire_len);
        if d > 0 {
            let start: u64 = self.last_abs.wrapping_add(d as u64);
            self.last_abs = start.wrapping_add(wire_len as u64);
            self.last_raw = end;
            (start, wire_len)
        } else {
            let n: i32 = self.diff(end);
            if n <= 0 {
                (self.last_abs, 0)
            } else {
                let start: u64 = self.last_abs;
                self.last_abs = start.wrapping_add(n as u64);
                self.last_raw = end;
                (start, n as u32)
            }
        }
    }
}

fn to_signed(x: u32) -> (d: i32)
    ensures
        d == if x < 0x8000_0000 {
            x as int
        } else {
            x - 0x1_0000_0000
        },
{
    assert(x < 0x8000_0000 ==> x as i32 == x) by (bit_vector);
    assert(x >= 0x8000_0000 ==> x as i32 == x - 0x1_0000_0000) by (bit_vector);
    x as i32
}

/// The raw head of an active stream is its absolute head on the circle of sequence numbers.
pub open spec fn aligned(s: SeqStream) -> bool {
    s.active ==> s.last_abs % 0x1_0000_0000 == s.last_raw
}

proof fn lemma_advance_aligned(a: u64, raw: u32, n: int)
    requires
        a % 0x1_0000_0000 == raw,
        0 <= n < 0x1_0000_0000,
    ensures
        wrap_add(a, n) % 0x1_0000_0000 == seq_add(raw, n),
{
    let q = a / 0x1_0000_0000;
    assert(a == q * 0x1_0000_0000 + raw);
    if raw + n < 0x1_0000_0000 {
        assert((q * 0x1_0000_0000 + raw + n) % 0x1_0000_0000 == raw + n);
    } else {
        assert(((q + 1) * 0x1_0000_0000 + (raw + n - 0x1_0000_0000)) % 0x1_0000_0000 == raw + n - 0x1_0000_0000);
        assert(((q + 1 - 0x1_0000_0000) * 0x1_0000_0000 + (raw + n - 0x1_0000_0000)) % 0x1_0000_0000 == raw + n - 0x1_0000_0000);
    }
}

/// Every packet keeps raw and absolute position in step, however often the raw number wraps.
pub proof fn law_stream_stays_aligned(s: SeqStream, seq: u32, wire_len: u32)
    requires
        aligned(s),
    ensures
        aligned(s.fed(seq, wire_len).0),
{
    if s.active {
        let d = seq_diff(seq, s.last_raw);
        let end = seq_add(seq, wire_len as int);
        if d > 0 {
            let start = wrap_add(s.last_abs, d);
            lemma_advance_aligned(s.last_abs, s.last_raw, d);
            assert(seq_add(s.last_raw, d) == seq);
            lemma_advance_aligned(start, seq, wire_len as int);
        } else {
            let n = seq_diff(end, s.last_raw);
            if n > 0 {
                lemma_advance_aligned(s.last_abs, s.last_raw, n);
                assert(seq_add(s.last_raw, n) == end);
            }
        }
    } else {
        lemma_advance_aligned(seq as u64, seq, wire_len as int);
    }
}

/// A stream never moves back, and a packet without new data leaves it as it is.
pub proof fn law_stream_never_rewinds(s: SeqStream, seq: u32, wire_len: u32)
    requires
        s.active,
        s.last_abs <= u64::MAX - 0x2_0000_0000,
    ensures
        ({
            let (next, start, fresh) = s.fed(seq, wire_len);
            &&& next.last_abs >= s.last_abs
            &&& start >= s.last_abs
            &&& next.last_abs == start + fresh
            &&& fresh == 0 && seq_diff(seq, s.last_raw) <= 0 ==> next == s
            &&& fresh <= wire_len
        }),
{
}

/// Data that continues the stream `k` bytes past its head, less than half the circle away, is placed
/// exactly there, whether or not the raw number wrapped in between.
pub proof fn law_stream_wrap_proof(s: SeqStream, k: u32, wire_len: u32)
    requires
        s.active,
        aligned(s),
        0 < k < 0x8000_0000,
        s.last_abs <= u64::MAX - 0x2_0000_0000,
    ensures
        ({
            let seq = seq_add(s.last_raw, k as int);
            let (next, start, fresh) = s.fed(seq, wire_len);
            &&& start == s.last_abs + k
            &&& fresh == wire_len
            &&& next.last_abs == s.last_abs + k + wire_len
            &&& s.abs(seq) == s.last_abs + k
        }),
{
}

/// Sending a packet again right after it was fed, the first of a stream or a later one, brings no new data
/// and changes nothing, as long as it is shorter than half the circle.
pub proof fn law_retransmission_is_inert(s: SeqStream, seq: u32, wire_len: u32)
    requires
        wire_len < 0x8000_0000,
    ensures
        ({
            let once = s.fed(seq, wire_len).0;
            once.fed(seq, wire_len).0 == once && once.fed(seq, wire_len).2 == 0
        }),
{
}

/// How the requests that are closed together end.
pub(crate) enum How<'r> {
    Matched { r: &'r IndexedRecord, ids: Vec<u64> },
    Closed { status: QrStatus },
}

impl<'r> How<'r> {
    pub open(crate) spec fn outcome(self) -> Outcome {
        match self {
            How::Matched { r, ids } => Outcome::Matched { r: *r, ids: ids@ },
            How::Closed { status } => Outcome::Closed { status },
        }
    }
}

/// Whether a list holds a number.
fn holds(xs: &Vec<u64>, x: u64) -> (r: bool)
    ensures
        r == xs@.contains(x),
{
    let mut i: usize = 0;
    while i < xs.len()
        invariant
            i <= xs@.len(),
            forall|j: int| 0 <= j < i ==> xs@[j] != x,
        decreases xs@.len() - i,
    {
        if xs[i] == x {
            return true;
        }
        i += 1;
    }
    false
}

/// Appends those of `more[1..]` that are not in the list yet.
fn merge_rest(xs: &mut Vec<u64>, more: &Vec<u64>)
    requires
        more@.len() > 0,
    ensures
        final(xs)@ == merged(old(xs)@, more@.skip(1)),
{
    let ghost rest = more@.skip(1);
    let ghost x0 = xs@;
    let mut i: usize = 1;
    assert(rest.take(0) =~= Seq::<u64>::empty());
    while i < more.len()
        invariant
            1 <= i <= more@.len(),
            rest == more@.skip(1),
            xs@ == merged(x0, rest.take(i - 1)),
        decreases more@.len() - i,
    {
        proof {
            assert(rest.take(i as int).drop_last() =~= rest.take(i - 1));
            assert(rest.take(i as int).last() == more@[i as int]);
        }
        if !holds(xs, more[i]) {
            xs.push(more[i]);
        }
        i += 1;
    }
    assert(rest.take(i - 1) =~= rest);
}

/// The first 32 bytes of a payload.
fn payload_key(rec: &WalRecord) -> (k: Vec<u8>)
    ensures
        k@ == first(rec.payload@, 32),
{
    let n: usize = if rec.payload.len() <= 32 { rec.payload.len() } else { 32 };
    let k = copy_range(rec.payload.as_slice(), 0, n);
    assert(k@ =~= first(rec.payload@, 32));
    k
}

/// The finished form of a pair.
fn finish(p: QrPairValue, how: &How, i: usize) -> (q: QrPairValue)
    requires
        how matches How::Matched { r, ids } ==> ids@.len() > 0,
    ensures
        q@ == finished(p@, how.outcome(), i as int),
{
    let mut p = p;
    match how {
        How::Matched { r, ids } => {
            p.status = QrStatus::Matched.as_u8();
            p.r_ts = r.rec.timestamp_ns;
            p.latency_ms = p.r_ts.saturating_sub(p.q_ts) / 1_000_000;
            p.r_len = p.r_len.saturating_add(r.rec.orig_payload_len);
            p.r_idx.push(r.idx());
            if i == 0 {
                p.resp_key = payload_key(&r.rec);
                merge_rest(&mut p.q_idx, ids);
            }
        },
        How::Closed { status } => {
            p.status = status.as_u8();
        },
    }
    p
}

impl Planes {
    /// Moves an open pair to history.
    pub(crate) fn finish_pair(&mut self, k: u64, how: &How, i: usize)
        requires
            old(self).wf(),
            how matches How::Matched { r, ids } ==> ids@.len() > 0,
        ensures
            final(self).wf(),
            final(self)@ == finish_pair(old(self)@, k, how.outcome(), i as int),
    {
        let open = match self.live.pairs.get(&k) {
            Some(p) => p.status == QrStatus::Pending.as_u8(),
            None => false,
        };
        if open {
            let taken = self.live.pairs.delete(&k);
            if let Some(p) = taken {
                let done = finish(p, how, i);
                self.epoch.pairs.put_new(k, done);
            }
        }
    }

    /// Finishes one pending request.
    fn close_one(&mut self, key: PendingKey, how: &How, i: usize)
        requires
            old(self).wf(),
            old(self)@.live.pending.contains_key(key),
            how matches How::Matched { r, ids } ==> ids@.len() > 0,
        ensures
            final(self).wf(),
            final(self)@ == close_one(old(self)@, key, how.outcome(), i as int),
    {
        let taken = self.live.pending.delete(&key);
        if let Some(v) = taken {
            self.finish_pair(v.q_first_idx, how, i);
            self.live.ttl.delete(&Key2 { a: v.q_ts, b: key.conn });
        }
        assert(self@ =~= close_one(old(self)@, key, how.outcome(), i as int));
    }

    /// Finishes the pending requests `keys`, in order.
    pub(crate) fn close_all(&mut self, keys: &Vec<PendingKey>, how: &How)
        requires
            old(self).wf(),
            forall|i: int| 0 <= i < keys@.len() ==> old(self)@.live.pending.contains_key(#[trigger] keys@[i]),
            forall|i: int, j: int| 0 <= i < j < keys@.len() ==> keys@[i] != keys@[j],
            keys@.len() > 0 ==> (how matches How::Matched { r, ids } ==> ids@.len() > 0),
        ensures
            final(self).wf(),
            final(self)@ == close_all(old(self)@, keys@, how.outcome(), keys@.len()),
    {
        let mut i: usize = 0;
        while i < keys.len()
            invariant
                i <= keys@.len(),
                self.wf(),
                self@ == close_all(old(self)@, keys@, how.outcome(), i as nat),
                forall|j: int| i <= j < keys@.len() ==> self@.live.pending.contains_key(#[trigger] keys@[j]),
                forall|j: int, k: int| 0 <= j < k < keys@.len() ==> keys@[j] != keys@[k],
                keys@.len() > 0 ==> (how matches How::Matched { r, ids } ==> ids@.len() > 0),
            decreases keys@.len() - i,
        {
            self.close_one(keys[i], how, i);
            i += 1;
        }
    }

    /// The pending requests of one incarnation that end at or before `limit`, in stream order.
    pub(crate) fn scan_pending_upto(&self, h: u64, inc: u16, limit: u64) -> (keys: Vec<PendingKey>)
        requires
            self.wf(),
        ensures
            keys@ == pending_upto(self@.live.pending, h, inc, limit),
            forall|i: int| 0 <= i < keys@.len() ==> self@.live.pending.contains_key(#[trigger] keys@[i]),
            forall|i: int, j: int| 0 <= i < j < keys@.len() ==> keys@[i] != keys@[j],
    {
        let top: u64 = if limit < U48_MAX { limit } else { U48_MAX };
        self.live.pending.range(&PendingKey { conn: h, inc, end: 0 }, &PendingKey { conn: h, inc, end: top })
    }

    /// The requests behind pending rows.
    fn ids_of(&self, keys: &Vec<PendingKey>) -> (ids: Vec<u64>)
        requires
            self.wf(),
            forall|i: int| 0 <= i < keys@.len() ==> self@.live.pending.contains_key(#[trigger] keys@[i]),
        ensures
            ids@ == ids_of(self@.live.pending, keys@),
    {
        let mut ids: Vec<u64> = Vec::new();
        let mut i: usize = 0;
        while i < keys.len()
            invariant
                i <= keys@.len(),
                self.wf(),
                forall|j: int| 0 <= j < keys@.len() ==> self@.live.pending.contains_key(#[trigger] keys@[j]),
                ids@.len() == i,
                forall|j: int| 0 <= j < i ==> #[trigger] ids@[j] == self@.live.pending[keys@[j]].q_first_idx,
            decreases keys@.len() - i,
        {
            match self.live.pending.get(&keys[i]) {
                Some(v) => {
                    ids.push(v.q_first_idx);
                },
                None => {
                    assert(false);
                },
            }
            i += 1;
        }
        assert(ids@ =~= ids_of(self@.live.pending, keys@));
        ids
    }

    /// Those of the pending rows `rows` whose request is still open.
    fn still_open(&self, rows: &Vec<PendingKey>) -> (keys: Vec<PendingKey>)
        requires
            self.wf(),
            forall|i: int| 0 <= i < rows@.len() ==> self@.live.pending.contains_key(#[trigger] rows@[i]),
            forall|i: int, j: int| 0 <= i < j < rows@.len() ==> rows@[i] != rows@[j],
        ensures
            keys@ == still_open(self@.live, rows@),
            forall|i: int| 0 <= i < keys@.len() ==> self@.live.pending.contains_key(#[trigger] keys@[i]),
            forall|i: int, j: int| 0 <= i < j < keys@.len() ==> keys@[i] != keys@[j],
    {
        let mut keys: Vec<PendingKey> = Vec::new();
        let mut i: usize = 0;
        assert(rows@.take(0) =~= Seq::<PendingKey>::empty());
        while i < rows.len()
            invariant
                i <= rows@.len(),
                self.wf(),
                forall|j: int| 0 <= j < rows@.len() ==> self@.live.pending.contains_key(#[trigger] rows@[j]),
                keys@ == still_open(self@.live, rows@.take(i as int)),
            decreases rows@.len() - i,
        {
            proof {
                assert(rows@.take(i + 1).drop_last() =~= rows@.take(i as int));
                assert(rows@.take(i + 1).last() == rows@[i as int]);
            }
            if let Some(v) = self.live.pending.get(&rows[i]) {
                let open = match self.live.pairs.get(&v.q_first_idx) {
                    Some(p) => p.status == QrStatus::Pending.as_u8(),
                    None => false,
                };
                if open {
                    keys.push(rows[i]);
                }
            }
            i += 1;
        }
        assert(rows@.take(i as int) =~= rows@);
        proof {
            lemma_still_open(self@.live, rows@);
            assert forall|j: int| 0 <= j < keys@.len() implies self@.live.pending.contains_key(#[trigger] keys@[j]) by {
                assert(keys@.contains(keys@[j]));
                assert(rows@.contains(keys@[j]));
            }
        }
        keys
    }

    /// Adds a new request to both planes.
    fn add_request(&mut self, h: u64, inc: u16, p: QrPairValue, idx: u64)
        requires
            old(self).wf(),
        ensures
            final(self).wf(),
            final(self)@ == with_request(old(self)@, h, inc, p@, idx),
    {
        let q_ts: u64 = p.q_ts;
        let q_len: u32 = p.q_len;
        let end: u64 = p.abs_q_end % 0x1_0000_0000_0000;
        let kh: u64 = fnv1a64(p.req_key.as_slice());
        self.live.pairs.put_new(idx, p);
        self.live.pending.put_new(PendingKey { conn: h, inc, end }, PendingVal { q_first_idx: idx, q_ts, q_len });
        self.live.ttl.put_new(Key2 { a: q_ts, b: h }, TtlVal { q_first_idx: idx, abs_q_end: end });
        self.epoch.packet_qr.put_new(idx, idx);
        self.epoch.conn_qr.put_new(Key3 { a: h, b: q_ts, c: idx }, idx);
        self.epoch.qr_key.put_new(Key3 { a: kh, b: q_ts, c: idx }, idx);
        self.epoch.qr_time.put_new(Key2 { a: q_ts, b: idx }, idx);
        assert(self@ =~= with_request(old(self)@, h, inc, p@, idx));
    }
}

/// Rows that are still open are among the rows given, each once, and are those whose request is open.
pub proof fn lemma_still_open(live: LiveView, keys: Seq<PendingKey>)
    requires
        forall|i: int, j: int| 0 <= i < j < keys.len() ==> keys[i] != keys[j],
    ensures
        forall|k: PendingKey| #[trigger]
            still_open(live, keys).contains(k) <==> keys.contains(k) && waits(live, live.pending[k].q_first_idx),
        forall|i: int, j: int| 0 <= i < j < still_open(live, keys).len() ==> still_open(live, keys)[i] != still_open(live, keys)[j],
    decreases keys.len(),
{
    if keys.len() > 0 {
        let before = keys.drop_last();
        let last = keys.last();
        lemma_still_open(live, before);
        let a = still_open(live, before);
        let b = still_open(live, keys);
        assert forall|k: PendingKey| #[trigger]
            b.contains(k) <==> keys.contains(k) && waits(live, live.pending[k].q_first_idx) by {
            assert(keys.contains(k) <==> before.contains(k) || k == last) by {
                if keys.contains(k) {
                    let i = choose|i: int| 0 <= i < keys.len() && keys[i] == k;
                    if i < keys.len() - 1 {
                        assert(before[i] == k);
                    }
                }
                if before.contains(k) {
                    let i = choose|i: int| 0 <= i < before.len() && before[i] == k;
                    assert(keys[i] == k);
                }
                assert(keys[keys.len() - 1] == last);
            }
            assert(a.contains(k) <==> before.contains(k) && waits(live, live.pending[k].q_first_idx));
            if waits(live, live.pending[last].q_first_idx) {
                assert(b == a.push(last));
                if a.contains(k) {
                    let i = choose|i: int| 0 <= i < a.len() && a[i] == k;
                    assert(b[i] == k);
                }
                assert(b[a.len() as int] == last);
                if b.contains(k) {
                    let i = choose|i: int| 0 <= i < b.len() && b[i] == k;
                    if i < a.len() {
                        assert(a[i] == k);
                    }
                }
            }
        }
        if waits(live, live.pending[last].q_first_idx) {
            assert(!a.contains(last)) by {
                if a.contains(last) {
                    assert(before.contains(last));
                    let i = choose|i: int| 0 <= i < before.len() && before[i] == last;
                    assert(keys[i] != keys[keys.len() - 1]);
                }
            }
            assert forall|i: int, j: int| 0 <= i < j < b.len() implies b[i] != b[j] by {
                if j == a.len() {
                    assert(a.contains(a[i]));
                }
            }
        }
    }
}

/// The rules of an optional registry.
pub open spec fn rules_of(meta: Option<&MetaRegistry>) -> Option<Seq<RuleView>> {
    match meta {
        Some(m) => Some(m@),
        None => None,
    }
}

/// An audit event of a connection.
pub(crate) fn make_event(ts: u64, kind: i64, h: u64, text: &str, n: u64) -> (e: AnomalyEvent)
    ensures
        e@ == conn_event(ts, kind, h, text@, n as nat),
{
    let mut hash: Vec<u8> = Vec::new();
    push_be(&mut hash, h, 8);
    let mut detail = String::from_str(text);
    push_dec(&mut detail, n);
    assert(hash@ =~= be(h as nat, 8));
    AnomalyEvent {
        ts: ts as i64,
        kind,
        dev_id: None,
        segment_seq: None,
        conn_hash: Some(hash),
        qr_id: None,
        detail: Some(detail),
    }
}

pub(crate) fn push_event(events: &mut Vec<AnomalyEvent>, e: AnomalyEvent)
    ensures
        anomaly_views(final(events)@) == anomaly_views(old(events)@) + seq![e@],
{
    events.push(e);
    assert(anomaly_views(events@) =~= anomaly_views(old(events)@) + seq![e@]);
}

fn push_print(prints: &mut Vec<ExtMetaEvent>, e: ExtMetaEvent)
    ensures
        print_views(final(prints)@) == print_views(old(prints)@) + seq![e@],
{
    prints.push(e);
    assert(print_views(prints@) =~= print_views(old(prints)@) + seq![e@]);
}

fn is_flagged(rec: &WalRecord, flag: u8) -> (b: bool)
    ensures
        b == flagged(*rec, flag),
{
    rec.tcp_flags & flag != 0
}

/// The state of a connection first seen with this record.
fn make_fresh(rec: &WalRecord) -> (st: ConnState)
    ensures
        st == fresh_state(*rec),
{
    let mut st = ConnState::default();
    st.state = ConnStateKind::HalfOpen.as_u8();
    st.client_ip = ip_of(&rec.src_ip);
    st.client_port = rec.src_port;
    st.server_ip = ip_of(&rec.dst_ip);
    st.server_port = rec.dst_port;
    st.proto = rec.proto as u8;
    st.first_ts = rec.timestamp_ns;
    st.last_ts = rec.timestamp_ns;
    st.anomaly_flags = if is_flagged(rec, TCP_SYN) { 0 } else { anomaly::HALF_OPEN };
    st.meta_bind_id = -1;
    st
}

/// Finds the connection of a record.
fn locate(conns: &Table<u64, ConnState>, r: &IndexedRecord) -> (f: (u64, Dir, ConnState))
    requires
        conns.wf(),
    ensures
        f == located(conns@, *r),
{
    let src: u32 = ip_of(&r.rec.src_ip);
    let dst: u32 = ip_of(&r.rec.dst_ip);
    let proto: u8 = r.rec.proto as u8;
    let hf: u64 = conn_hash(r.dev_id, src, r.rec.src_port, dst, r.rec.dst_port, proto);
    let hb: u64 = conn_hash(r.dev_id, dst, r.rec.dst_port, src, r.rec.src_port, proto);
    if let Some(st) = conns.get(&hf) {
        return (hf, Dir::C2S, *st);
    }
    if let Some(st) = conns.get(&hb) {
        return (hb, Dir::S2C, *st);
    }
    (hf, Dir::C2S, make_fresh(&r.rec))
}

/// Whether a record opens a new incarnation.
fn rebirth(st: &ConnState, r: &IndexedRecord, dir: Dir) -> (b: bool)
    ensures
        b == is_rebirth(*st, *r, dir),
{
    let cur = SeqStream::from_state(st, dir == Dir::C2S);
    let d: i32 = cur.diff(r.rec.tcp_seq);
    cur.active && is_flagged(&r.rec, TCP_SYN) && st.state != ConnStateKind::SynSent.as_u8() && st.state != ConnStateKind::SynRcvd.as_u8()
        && (d != 0 || (3 <= st.state && st.state <= 5)) && r.idx() != st.syn_pkt_idx
}

/// Marks a jump that no window explains.
fn mark_gap(st: ConnState, rec: &WalRecord, dir: Dir) -> (s: ConnState)
    ensures
        s == gap_marked(st, *rec, dir),
{
    let cur = SeqStream::from_state(&st, dir == Dir::C2S);
    let d: i32 = cur.diff(rec.tcp_seq);
    let mut s = st;
    if cur.active && !is_flagged(rec, TCP_SYN) && (d > 0x4000_0000 || d < -0x4000_0000) {
        s.anomaly_flags = s.anomaly_flags | anomaly::SEQ_GAP;
    }
    s
}

/// Marks a closed window, and a record of a degraded probe.
fn mark_condition(st: ConnState, rec: &WalRecord) -> (s: ConnState)
    ensures
        s == condition_marked(st, *rec),
{
    let mut s = st;
    if rec.window_size == 0 {
        s.anomaly_flags = s.anomaly_flags | anomaly::ZERO_WIN;
    }
    if rec.flags & FLAG_DEGRADED != 0 {
        s.anomaly_flags = s.anomaly_flags | anomaly::DEGRADED;
    }
    s
}

/// Opens the next incarnation of a connection.
fn flip_epoch(pl: &mut Planes, h: u64, st: ConnState, r: &IndexedRecord, dir: Dir, events: &mut Vec<AnomalyEvent>) -> (s: ConnState)
    requires
        old(pl).wf(),
    ensures
        final(pl).wf(),
        ({
            let g = reborn(old(pl)@, h, st, *r, dir);
            final(pl)@ == g.pl && s == g.st && anomaly_views(final(events)@) == anomaly_views(old(events)@) + g.events
        }),
{
    let keys = pl.scan_pending_upto(h, st.incarnation, U48_MAX);
    pl.close_all(&keys, &How::Closed { status: QrStatus::Unmatched });
    let mut s = st;
    s.qr_open = s.qr_open.saturating_sub(keys.len() as u64);
    s.incarnation = s.incarnation.wrapping_add(1);
    s.syn_pkt_idx = r.idx();
    if dir == Dir::C2S {
        s.last_raw_c = r.rec.tcp_seq;
        s.abs_seq_c = r.rec.tcp_seq as u64;
        s.last_raw_s = 0;
        s.abs_seq_s = 0;
        s.active = 1;
    } else {
        s.last_raw_s = r.rec.tcp_seq;
        s.abs_seq_s = r.rec.tcp_seq as u64;
        s.last_raw_c = 0;
        s.abs_seq_c = 0;
        s.active = 2;
    }
    s.state = ConnStateKind::HalfOpen.as_u8();
    s.consumed_ack_c = 0;
    s.consumed_ack_s = 0;
    push_event(events, make_event(r.rec.timestamp_ns, ANOM_EPOCH_REBIRTH, h, "EPOCH_REBIRTH_SYN pending=", keys.len() as u64));
    s
}

/// Aborts every pending request of the current incarnation.
fn rst_cascade(pl: &mut Planes, h: u64, st: ConnState, r: &IndexedRecord, events: &mut Vec<AnomalyEvent>) -> (s: ConnState)
    requires
        old(pl).wf(),
    ensures
        final(pl).wf(),
        ({
            let g = reset(old(pl)@, h, st, *r);
            final(pl)@ == g.pl && s == g.st && anomaly_views(final(events)@) == anomaly_views(old(events)@) + g.events
        }),
{
    let keys = pl.scan_pending_upto(h, st.incarnation, U48_MAX);
    pl.close_all(&keys, &How::Closed { status: QrStatus::RstAbort });
    let mut s = st;
    s.qr_open = s.qr_open.saturating_sub(keys.len() as u64);
    s.state = ConnStateKind::Reset.as_u8();
    s.rst_seen = r.rec.timestamp_ns;
    s.anomaly_flags = s.anomaly_flags | anomaly::RESET;
    push_event(events, make_event(r.rec.timestamp_ns, ANOM_CONN_RST, h, "RST cascade pending=", keys.len() as u64));
    s
}

/// Advances the handshake and notes a FIN.
fn shake(st: ConnState, r: &IndexedRecord, dir: Dir) -> (s: ConnState)
    ensures
        s == handshake(st, *r, dir),
{
    let ts: u64 = r.rec.timestamp_ns;
    let mut s = st;
    if is_flagged(&r.rec, TCP_SYN) && dir == Dir::C2S {
        s.state = ConnStateKind::SynSent.as_u8();
        s.syn_seen = ts;
        s.anomaly_flags = s.anomaly_flags | anomaly::SYN_SEEN;
        s.syn_pkt_idx = r.idx();
    } else if is_flagged(&r.rec, TCP_SYN) {
        if s.state == ConnStateKind::SynSent.as_u8() {
            s.state = ConnStateKind::SynRcvd.as_u8();
        }
        s.synack_seen = ts;
    } else if is_flagged(&r.rec, TCP_ACK) && dir == Dir::C2S && s.state == ConnStateKind::SynRcvd.as_u8() {
        s.state = ConnStateKind::Established.as_u8();
    }
    if is_flagged(&r.rec, TCP_FIN) {
        s.fin_seen = ts;
        s.anomaly_flags = s.anomaly_flags | anomaly::FIN_SEEN;
        s.set_fin(dir == Dir::C2S);
    }
    s
}

/// Counts a packet.
fn count(st: ConnState, rec: &WalRecord, dir: Dir) -> (s: ConnState)
    ensures
        s == counted(st, *rec, dir),
{
    let mut s = st;
    s.last_ts = rec.timestamp_ns;
    if dir == Dir::C2S {
        s.pkts_c = s.pkts_c.saturating_add(1);
        s.bytes_c = s.bytes_c.saturating_add(rec.orig_payload_len as u64);
    } else {
        s.pkts_s = s.pkts_s.saturating_add(1);
        s.bytes_s = s.bytes_s.saturating_add(rec.orig_payload_len as u64);
    }
    s
}

/// Determines the key of a request, binding its connection where that is due.
fn key_request(st: ConnState, h: u64, r: &IndexedRecord, meta: Option<&MetaRegistry>, high_entropy: bool, prints: &mut Vec<ExtMetaEvent>) -> (
    k: (Vec<u8>, bool, ConnState))
    ensures
        ({
            let (key, pseudo, st2, more) = keyed(st, h, *r, rules_of(meta), high_entropy);
            k.0@ == key && k.1 == pseudo && k.2 == st2 && print_views(final(prints)@) == print_views(old(prints)@) + more
        }),
{
    assert(print_views(prints@) =~= print_views(prints@) + Seq::<PrintView>::empty());
    let p = r.rec.payload.as_slice();
    match meta {
        None => (payload_key(&r.rec), false, st),
        Some(m) => {
            if st.meta_bind_id == -1 && st.protocol_hint == 0 {
                let b = m.bind_and_extract(p, r.rec.proto as u8, r.rec.dst_port, high_entropy);
                let sig = signature(p);
                let mut s = st;
                s.meta_bind_id = b.meta_bind_id;
                s.protocol_hint = b.protocol_hint;
                push_print(
                    prints,
                    ExtMetaEvent {
                        conn_hash: h,
                        protocol_hint: b.protocol_hint,
                        dst_port: r.rec.dst_port,
                        magic_prefix: sig.magic_prefix,
                        has_fixed_header: sig.has_fixed_header,
                        packet_idx: r.idx(),
                    },
                );
                (b.key, b.pseudo, s)
            } else {
                let k = extract_key(p, ProtocolKind::from_u8(st.protocol_hint));
                (k.key, k.pseudo, st)
            }
        },
    }
}

/// Opens a request.
fn open_q(
    pl: &mut Planes,
    h: u64,
    st: ConnState,
    r: &IndexedRecord,
    start: u64,
    end: u64,
    meta: Option<&MetaRegistry>,
    high_entropy: bool,
    prints: &mut Vec<ExtMetaEvent>,
) -> (s: ConnState)
    requires
        old(pl).wf(),
    ensures
        final(pl).wf(),
        ({
            let g = opened(old(pl)@, h, st, *r, start, end, rules_of(meta), high_entropy);
            final(pl)@ == g.pl && s == g.st && print_views(final(prints)@) == print_views(old(prints)@) + g.prints
        }),
{
    let (key, pseudo, st2) = key_request(st, h, r, meta, high_entropy, prints);
    let idx: u64 = r.idx();
    let pair = QrPairValue {
        status: QrStatus::Pending.as_u8(),
        conn_hash: h,
        q_ts: r.rec.timestamp_ns,
        r_ts: 0,
        latency_ms: 0,
        q_len: r.rec.orig_payload_len,
        r_len: 0,
        abs_q_seq: start,
        abs_q_end: end,
        pseudo: if pseudo { 1 } else { 0 },
        q_idx: vec![idx],
        r_idx: Vec::new(),
        req_key: key,
        resp_key: Vec::new(),
    };
    assert(pair@ =~= new_pair(h, *r, start, end, key@, pseudo));
    pl.add_request(h, st2.incarnation, pair, idx);
    let mut s = st2;
    s.req_cnt = s.req_cnt.saturating_add(1);
    s.qr_open = s.qr_open.saturating_add(1);
    s
}

/// Handles the data of a client packet.
fn request(
    pl: &mut Planes,
    h: u64,
    st: ConnState,
    r: &IndexedRecord,
    start: u64,
    fresh: u32,
    meta: Option<&MetaRegistry>,
    high_entropy: bool,
    prints: &mut Vec<ExtMetaEvent>,
) -> (s: ConnState)
    requires
        old(pl).wf(),
    ensures
        final(pl).wf(),
        ({
            let g = requested(old(pl)@, h, st, *r, start, fresh, rules_of(meta), high_entropy);
            final(pl)@ == g.pl && s == g.st && print_views(final(prints)@) == print_views(old(prints)@) + g.prints
        }),
{
    assert(print_views(prints@) =~= print_views(prints@) + Seq::<PrintView>::empty());
    let mut s = st;
    if r.rec.orig_payload_len > 0 {
        let end: u64 = start.saturating_add(fresh as u64);
        if fresh > 0 && end > s.consumed_ack_s {
            return open_q(pl, h, s, r, start, end, meta, high_entropy, prints);
        }
        s.anomaly_flags = s.anomaly_flags | anomaly::RETRANS;
    }
    s
}

/// Consumes an acknowledgement.
fn consume_r(pl: &mut Planes, h: u64, st: ConnState, r: &IndexedRecord, abs_ack: u64, par: QrParams) -> (s: ConnState)
    requires
        old(pl).wf(),
    ensures
        final(pl).wf(),
        ({
            let g = consumed(old(pl)@, h, st, *r, abs_ack, par);
            final(pl)@ == g.pl && s == g.st
        }),
{
    let rows = pl.scan_pending_upto(h, st.incarnation, abs_ack.saturating_add(par.ack_tolerance as u64));
    let keys = pl.still_open(&rows);
    let ids = pl.ids_of(&keys);
    let before: usize = pl.live.pairs.len();
    pl.close_all(&keys, &How::Matched { r, ids });
    let after: usize = pl.live.pairs.len();
    let gone: usize = if before >= after { before - after } else { 0 };
    let mut s = st;
    s.qr_open = s.qr_open.saturating_sub(gone as u64);
    if abs_ack > s.consumed_ack_s {
        s.consumed_ack_s = abs_ack;
    }
    s
}

/// Handles the acknowledgement of a server packet.
fn respond(pl: &mut Planes, h: u64, st: ConnState, r: &IndexedRecord, client: &SeqStream, fresh: u32, par: QrParams) -> (s: ConnState)
    requires
        old(pl).wf(),
    ensures
        final(pl).wf(),
        ({
            let g = responded(old(pl)@, h, st, *r, *client, fresh, par);
            final(pl)@ == g.pl && s == g.st
        }),
{
    let abs_ack: u64 = client.abs_of(r.rec.tcp_ack);
    let mut s = st;
    if fresh > 0 {
        s.resp_cnt = s.resp_cnt.saturating_add(1);
    }
    if abs_ack > s.consumed_ack_s && abs_ack <= client.last_abs.saturating_add(ACK_LEAD_CAP) {
        return consume_r(pl, h, s, r, abs_ack, par);
    }
    s
}

/// Handles a packet that is no reset.
fn exchange(
    pl: &mut Planes,
    h: u64,
    st: ConnState,
    r: &IndexedRecord,
    dir: Dir,
    par: QrParams,
    meta: Option<&MetaRegistry>,
    high_entropy: bool,
    prints: &mut Vec<ExtMetaEvent>,
) -> (s: ConnState)
    requires
        old(pl).wf(),
    ensures
        final(pl).wf(),
        ({
            let g = exchanged(old(pl)@, h, st, *r, dir, par, rules_of(meta), high_entropy);
            final(pl)@ == g.pl && s == g.st && print_views(final(prints)@) == print_views(old(prints)@) + g.prints && g.events
                == Seq::<AnomalyView>::empty()
        }),
{
    assert(print_views(prints@) =~= print_views(prints@) + Seq::<PrintView>::empty());
    let mut c = SeqStream::from_state(&st, true);
    let mut s = SeqStream::from_state(&st, false);
    let shaken = shake(st, r, dir);
    let st2 = count(shaken, &r.rec, dir);
    let mut out = if dir == Dir::C2S {
        let (start, fresh) = c.feed_packet(r.rec.tcp_seq, r.rec.orig_payload_len);
        request(pl, h, st2, r, start, fresh, meta, high_entropy, prints)
    } else {
        let (start, fresh) = s.feed_packet(r.rec.tcp_seq, r.rec.orig_payload_len);
        respond(pl, h, st2, r, &c, fresh, par)
    };
    out.last_raw_c = c.last_raw;
    out.abs_seq_c = c.last_abs;
    out.set_active_c(c.active);
    out.last_raw_s = s.last_raw;
    out.abs_seq_s = s.last_abs;
    out.set_active_s(s.active);
    out
}

/// Closes or quarantines the connection after a packet where that is due.
fn conclude(
    pl: &mut Planes,
    h: u64,
    st: ConnState,
    before: ConnState,
    r: &IndexedRecord,
    par: QrParams,
    events: &mut Vec<AnomalyEvent>,
) -> (s: ConnState)
    requires
        old(pl).wf(),
    ensures
        final(pl).wf(),
        ({
            let g = Stage { pl: old(pl)@, st, events: Seq::empty(), prints: Seq::empty() };
            let c = concluded(g, h, before, *r, par);
            final(pl)@ == c.pl && s == c.st && anomaly_views(final(events)@) == anomaly_views(old(events)@) + c.events
        }),
{
    assert(anomaly_views(events@) =~= anomaly_views(events@) + Seq::<AnomalyView>::empty());
    assert(forall|x: Seq<AnomalyView>| Seq::<AnomalyView>::empty() + x =~= x);
    let mut s = st;
    if is_flagged(&r.rec, TCP_FIN) && s.fin_both() && s.state != ConnStateKind::Reset.as_u8() {
        let keys = pl.scan_pending_upto(h, s.incarnation, U48_MAX);
        pl.close_all(&keys, &How::Closed { status: QrStatus::Unmatched });
        s.qr_open = s.qr_open.saturating_sub(keys.len() as u64);
        s.state = ConnStateKind::Closed.as_u8();
        if keys.len() > 0 {
            s.anomaly_flags = s.anomaly_flags | anomaly::QR_UNMATCHED;
            push_event(events, make_event(r.rec.timestamp_ns, ANOM_QR_UNMATCHED, h, "CONN_CLOSED pending=", keys.len() as u64));
        }
    } else if s.qr_open > before.qr_open && s.qr_open >= par.pending_budget {
        let keys = pl.scan_pending_upto(h, s.incarnation, U48_MAX);
        pl.close_all(&keys, &How::Closed { status: QrStatus::AbortedResource });
        s.qr_open = s.qr_open.saturating_sub(keys.len() as u64);
        s.state = ConnStateKind::Quarantined.as_u8();
        s.anomaly_flags = s.anomaly_flags | anomaly::CONN_QR_FLOOD;
        push_event(events, make_event(r.rec.timestamp_ns, ANOM_QR_UNMATCHED, h, "CONN_QR_FLOOD pending=", keys.len() as u64));
    }
    s
}

/// Handles a packet within an incarnation.
fn move_on(
    pl: &mut Planes,
    h: u64,
    st: ConnState,
    r: &IndexedRecord,
    dir: Dir,
    par: QrParams,
    meta: Option<&MetaRegistry>,
    high_entropy: bool,
    events: &mut Vec<AnomalyEvent>,
    prints: &mut Vec<ExtMetaEvent>,
) -> (s: ConnState)
    requires
        old(pl).wf(),
    ensures
        final(pl).wf(),
        ({
            let g = moved(old(pl)@, h, st, *r, dir, par, rules_of(meta), high_entropy);
            &&& final(pl)@ == g.pl
            &&& s == g.st
            &&& anomaly_views(final(events)@) == anomaly_views(old(events)@) + g.events
            &&& print_views(final(prints)@) == print_views(old(prints)@) + g.prints
        }),
{
    assert(print_views(prints@) =~= print_views(prints@) + Seq::<PrintView>::empty());
    if is_flagged(&r.rec, TCP_RST) {
        return rst_cascade(pl, h, st, r, events);
    }
    let ghost g = exchanged(pl@, h, st, *r, dir, par, rules_of(meta), high_entropy);
    let out = exchange(pl, h, st, r, dir, par, meta, high_entropy, prints);
    let s = conclude(pl, h, out, st, r, par, events);
    proof {
        let bare = Stage { pl: g.pl, st: g.st, events: Seq::empty(), prints: Seq::empty() };
        lemma_conclusion(g, bare, h, st, *r, par);
    }
    s
}

/// What a packet comes to depends on the planes and the state it left, not on what it reported.
proof fn lemma_conclusion(a: Stage, b: Stage, h: u64, before: ConnState, r: IndexedRecord, par: QrParams)
    requires
        a.pl == b.pl,
        a.st == b.st,
        a.events == b.events,
    ensures
        concluded(a, h, before, r, par).pl == concluded(b, h, before, r, par).pl,
        concluded(a, h, before, r, par).st == concluded(b, h, before, r, par).st,
        concluded(a, h, before, r, par).events == concluded(b, h, before, r, par).events,
        concluded(a, h, before, r, par).prints == a.prints,
{
}

/// Moves a connection by one packet.
fn advance(
    pl: &mut Planes,
    h: u64,
    st: ConnState,
    r: &IndexedRecord,
    dir: Dir,
    par: QrParams,
    meta: Option<&MetaRegistry>,
    high_entropy: bool,
    events: &mut Vec<AnomalyEvent>,
    prints: &mut Vec<ExtMetaEvent>,
) -> (s: ConnState)
    requires
        old(pl).wf(),
    ensures
        final(pl).wf(),
        ({
            let g = stepped(old(pl)@, h, st, *r, dir, par, rules_of(meta), high_entropy);
            &&& final(pl)@ == g.pl
            &&& s == g.st
            &&& anomaly_views(final(events)@) == anomaly_views(old(events)@) + g.events
            &&& print_views(final(prints)@) == print_views(old(prints)@) + g.prints
        }),
{
    let ghost e0 = anomaly_views(events@);
    assert(e0 + Seq::<AnomalyView>::empty() =~= e0);
    let st1 = if rebirth(&st, r, dir) {
        flip_epoch(pl, h, st, r, dir, events)
    } else {
        mark_gap(st, &r.rec, dir)
    };
    let st2 = mark_condition(st1, &r.rec);
    let ghost b = moved(pl@, h, st2, *r, dir, par, rules_of(meta), high_entropy);
    let s = move_on(pl, h, st2, r, dir, par, meta, high_entropy, events, prints);
    proof {
        let g = stepped(old(pl)@, h, st, *r, dir, par, rules_of(meta), high_entropy);
        assert(anomaly_views(events@) =~= e0 + g.events);
    }
    s
}

/// A finished connection, for the ledger.
#[derive(Debug, Clone, Copy, PartialEq, Eq, Structural)]
pub struct ConnArchiveEvent {
    pub conn_hash: u64,
    pub first_ts: u64,
    pub last_ts: u64,
    pub state: u8,
}

/// Whether a connection has come to its end: closed, reset or timed out.
pub open spec fn ended(st: ConnState) -> bool {
    3 <= st.state <= 5
}

/// The archive rows of those of the connections `hs` that have ended, in order.
pub open spec fn archives(conns: Map<u64, ConnState>, hs: Seq<u64>) -> Seq<ConnArchiveEvent>
    decreases hs.len(),
{
    if hs.len() == 0 {
        Seq::empty()
    } else {
        let rest = archives(conns, hs.drop_last());
        let h = hs.last();
        let st = conns[h];
        if conns.contains_key(h) && ended(st) {
            rest.push(ConnArchiveEvent { conn_hash: h, first_ts: st.first_ts, last_ts: st.last_ts, state: st.state })
        } else {
            rest
        }
    }
}

/// What a batch hands over when it is committed.
pub struct BatchOutcome {
    pub planes: Planes,
    pub anomalies: Vec<AnomalyEvent>,
    pub ext_meta: Vec<ExtMetaEvent>,
    pub conn_archives: Vec<ConnArchiveEvent>,
}

/// The matching engine over one batch: it takes the planes, moves them record by record, and hands
/// them back at commit.
pub struct QrMatcher<'m> {
    planes: Planes,
    params: QrParams,
    meta: Option<&'m MetaRegistry>,
    anomalies: Vec<AnomalyEvent>,
    prints: Vec<ExtMetaEvent>,
    touched: Table<u64, u64>,
}

impl<'m> QrMatcher<'m> {
    /// The tables are in order.
    pub closed spec fn wf(&self) -> bool {
        self.planes.wf() && self.touched.wf()
    }

    /// Contents of the planes.
    pub closed spec fn pl(&self) -> PlanesView {
        self.planes@
    }

    /// Audit events so far.
    pub closed spec fn events(&self) -> Seq<AnomalyView> {
        anomaly_views(self.anomalies@)
    }

    /// Fingerprints so far.
    pub closed spec fn fingerprints(&self) -> Seq<PrintView> {
        print_views(self.prints@)
    }

    /// Connections that records of this batch belong to.
    pub closed spec fn seen(&self) -> Set<u64> {
        self.touched@.dom()
    }

    /// The parameters.
    pub closed spec fn params(&self) -> QrParams {
        self.params
    }

    /// The binding rules, if any.
    pub closed spec fn rules(&self) -> Option<Seq<RuleView>> {
        rules_of(self.meta)
    }

    /// Starts a batch without binding rules.
    pub fn begin(planes: Planes, params: &QrParams) -> (m: QrMatcher<'static>)
        requires
            planes.wf(),
        ensures
            m.wf(),
            m.pl() == planes@,
            m.params() == *params,
            m.rules() is None,
            m.events() == Seq::<AnomalyView>::empty(),
            m.fingerprints() == Seq::<PrintView>::empty(),
            m.seen() == Set::<u64>::empty(),
    {
        QrMatcher::begin_with_meta(planes, params, None)
    }

    /// Starts a batch.
    pub fn begin_with_meta(planes: Planes, params: &QrParams, meta: Option<&'m MetaRegistry>) -> (m: QrMatcher<'m>)
        requires
            planes.wf(),
        ensures
            m.wf(),
            m.pl() == planes@,
            m.params() == *params,
            m.rules() == rules_of(meta),
            m.events() == Seq::<AnomalyView>::empty(),
            m.fingerprints() == Seq::<PrintView>::empty(),
            m.seen() == Set::<u64>::empty(),
    {
        let m = QrMatcher {
            planes,
            params: *params,
            meta,
            anomalies: Vec::new(),
            prints: Vec::new(),
            touched: Table::new(),
        };
        assert(m.events() =~= Seq::<AnomalyView>::empty());
        assert(m.fingerprints() =~= Seq::<PrintView>::empty());
        assert(m.seen() =~= Set::<u64>::empty());
        m
    }

    /// Processes one record without binding rules, where the payload does not matter for detection.
    pub fn ingest(&mut self, r: &IndexedRecord)
        requires
            old(self).wf(),
            old(self).rules() is None,
        ensures
            final(self).wf(),
            final(self).pl() == step(old(self).pl(), *r, old(self).params(), None, false).pl,
            final(self).events() == old(self).events() + step(old(self).pl(), *r, old(self).params(), None, false).events,
            final(self).fingerprints() == old(self).fingerprints(),
            final(self).seen() == seen_after(old(self).seen(), old(self).pl(), *r),
            final(self).params() == old(self).params(),
            final(self).rules() is None,
    {
        self.ingest_measured(r, false);
        assert(self.fingerprints() =~= old(self).fingerprints());
    }

    /// Processes one record. `high_entropy` says whether the Shannon entropy of its payload exceeds
    /// four bits per byte.
    pub fn ingest_measured(&mut self, r: &IndexedRecord, high_entropy: bool)
        requires
            old(self).wf(),
        ensures
            final(self).wf(),
            final(self).pl() == step(old(self).pl(), *r, old(self).params(), old(self).rules(), high_entropy).pl,
            final(self).events() == old(self).events() + step(
                old(self).pl(),
                *r,
                old(self).params(),
                old(self).rules(),
                high_entropy,
            ).events,
            final(self).fingerprints() == old(self).fingerprints() + step(
                old(self).pl(),
                *r,
                old(self).params(),
                old(self).rules(),
                high_entropy,
            ).prints,
            final(self).seen() == seen_after(old(self).seen(), old(self).pl(), *r),
            final(self).params() == old(self).params(),
            final(self).rules() == old(self).rules(),
    {
        let ghost p0 = recorded(self.planes@, *r);
        self.planes.epoch.record_ts.put_new(Key2 { a: r.rec.timestamp_ns, b: r.idx() }, summarize(&r.rec));
        assert(self.planes@ =~= p0);
        assert(self.events() =~= self.events() + Seq::<AnomalyView>::empty());
        assert(self.fingerprints() =~= self.fingerprints() + Seq::<PrintView>::empty());
        if r.rec.proto != 6 {
            return;
        }
        let (h, dir, st) = locate(&self.planes.live.conns, r);
        let st2 = advance(
            &mut self.planes,
            h,
            st,
            r,
            dir,
            self.params,
            self.meta,
            high_entropy,
            &mut self.anomalies,
            &mut self.prints,
        );
        self.planes.live.conns.put(h, st2);
        self.touched.put_new(h, 0);
        assert(self.seen() =~= seen_after(old(self).seen(), old(self).pl(), *r));
    }

    /// Fingerprints collected so far.
    pub fn ext_meta_events(&self) -> (v: &Vec<ExtMetaEvent>)
        ensures
            print_views(v@) == self.fingerprints(),
    {
        &self.prints
    }

    /// Ends the batch: the planes, the audit events, the fingerprints, and an archive row for each
    /// connection of the batch that has ended.
    pub fn commit(self) -> (out: BatchOutcome)
        requires
            self.wf(),
        ensures
            out.planes.wf(),
            out.planes@ == self.pl(),
            anomaly_views(out.anomalies@) == self.events(),
            print_views(out.ext_meta@) == self.fingerprints(),
            out.conn_archives@ == archives(self.pl().live.conns, scan(self.seen(), 0u64, u64::MAX)),
    {
        let hs = self.touched.range(&0, &0xffff_ffff_ffff_ffff);
        let mut rows: Vec<ConnArchiveEvent> = Vec::new();
        let mut i: usize = 0;
        assert(hs@.take(0) =~= Seq::<u64>::empty());
        while i < hs.len()
            invariant
                i <= hs@.len(),
                self.wf(),
                rows@ == archives(self.planes.live.conns@, hs@.take(i as int)),
            decreases hs@.len() - i,
        {
            proof {
                assert(hs@.take(i + 1).drop_last() =~= hs@.take(i as int));
            }
            if let Some(st) = self.planes.live.conns.get(&hs[i]) {
                if 3 <= st.state && st.state <= 5 {
                    rows.push(ConnArchiveEvent { conn_hash: hs[i], first_ts: st.first_ts, last_ts: st.last_ts, state: st.state });
                }
            }
            i += 1;
        }
        assert(hs@.take(i as int) =~= hs@);
        BatchOutcome { planes: self.planes, anomalies: self.anomalies, ext_meta: self.prints, conn_archives: rows }
    }
}

/// The connections seen after one more record.
pub open spec fn seen_after(seen: Set<u64>, pl: PlanesView, r: IndexedRecord) -> Set<u64> {
    if r.rec.proto == 6 {
        seen.insert(located(pl.live.conns, r).0)
    } else {
        seen
    }
}

} // verus!
