//! Rows of the management ledger.

use vstd::prelude::*;
use vstd::string::*;

verus! {

/// Format of a registered file.
#[derive(Debug, Clone, Copy, PartialEq, Eq, Structural)]
pub enum FileKind {
    Wal,
    Pcap,
}

/// State of a registered file.
#[derive(Debug, Clone, Copy, PartialEq, Eq, Structural)]
pub enum FileState {
    Open,
    Sealed,
    Archived,
}

/// A data file that was still open when the process stopped.
#[derive(Debug, Clone)]
pub struct OpenFileRec {
    pub file_id: i64,
    pub path: String,
    pub watermark: u64,
    pub segment_seq: Option<i64>,
}

/// State of an epoch.
#[derive(Debug, Clone, Copy, PartialEq, Eq, Structural)]
pub enum EpochState {
    Open,
    Frozen,
}

/// Time span of an epoch, written when it is frozen.
#[derive(Debug, Clone)]
pub struct EpochBoundary {
    pub epoch_id: i64,
    pub dir: String,
    pub min_ts: Option<i64>,
    pub max_ts: Option<i64>,
    pub record_count: i64,
    pub state: EpochState,
}

/// Time span of a finished connection.
#[derive(Debug, Clone, Copy, PartialEq, Eq, Structural)]
pub struct ConnArchive {
    pub first_ts: Option<i64>,
    pub last_ts: Option<i64>,
}

/// A stored binding rule.
#[derive(Debug, Clone)]
pub struct MetaBindRow {
    pub id: i64,
    pub name: String,
    pub proto: Option<i64>,
    pub dst_port: Option<i64>,
    pub fingerprint: Option<String>,
    pub extractor: Option<String>,
    pub enabled: i64,
}

/// An audited anomaly.
#[derive(Debug, Clone)]
pub struct AnomalyEvent {
    pub ts: i64,
    pub kind: i64,
    pub dev_id: Option<i64>,
    pub segment_seq: Option<i64>,
    pub conn_hash: Option<Vec<u8>>,
    pub qr_id: Option<i64>,
    pub detail: Option<String>,
}

/// What an audited anomaly says.
#[verifier::ext_equal]
pub struct AnomalyView {
    pub ts: i64,
    pub kind: i64,
    pub dev_id: Option<i64>,
    pub segment_seq: Option<i64>,
    pub conn_hash: Option<Seq<u8>>,
    pub qr_id: Option<i64>,
    pub detail: Option<Seq<char>>,
}

impl View for AnomalyEvent {
    type V = AnomalyView;

    open spec fn view(&self) -> AnomalyView {
        AnomalyView {
            ts: self.ts,
            kind: self.kind,
            dev_id: self.dev_id,
            segment_seq: self.segment_seq,
            conn_hash: match self.conn_hash {
                Some(v) => Some(v@),
                None => None,
            },
            qr_id: self.qr_id,
            detail: match self.detail {
                Some(s) => Some(s@),
                None => None,
            },
        }
    }
}

impl Default for AnomalyEvent {
    fn default() -> (e: AnomalyEvent)
        ensures
            e@ == (AnomalyView {
                ts: 0,
                kind: 0,
                dev_id: None,
                segment_seq: None,
                conn_hash: None,
                qr_id: None,
                detail: None,
            }),
    {
        AnomalyEvent { ts: 0, kind: 0, dev_id: None, segment_seq: None, conn_hash: None, qr_id: None, detail: None }
    }
}

/// A list of anomalies by what they say.
pub open spec fn anomaly_views(v: Seq<AnomalyEvent>) -> Seq<AnomalyView> {
    v.map_values(|e: AnomalyEvent| e@)
}

impl FileKind {
    /// The stored code of a file format.
    pub fn as_i64(self) -> (v: i64)
        ensures
            v == match self {
                FileKind::Wal => 0i64,
                FileKind::Pcap => 1i64,
            },
    {
        match self {
            FileKind::Wal => 0,
            FileKind::Pcap => 1,
        }
    }
}

impl FileState {
    /// The stored code of a file state.
    pub fn as_i64(self) -> (v: i64)
        ensures
            v == match self {
                FileState::Open => 0i64,
                FileState::Sealed => 1i64,
                FileState::Archived => 2i64,
            },
    {
        match self {
            FileState::Open => 0,
            FileState::Sealed => 1,
            FileState::Archived => 2,
        }
    }
}

/// A watermark may only move forward.
#[derive(Debug, Clone, Copy, PartialEq, Eq, Structural)]
pub struct WatermarkBack {
    pub current: u64,
    pub asked: u64,
}

/// The watermark of a file after it was moved; refused where it would go back.
pub fn advance_watermark(current: u64, new_offset: u64) -> (r: Result<u64, WatermarkBack>)
    ensures
        r == (if new_offset >= current {
            Ok(new_offset)
        } else {
            Err(WatermarkBack { current, asked: new_offset })
        }),
{
    if new_offset >= current {
        Ok(new_offset)
    } else {
        Err(WatermarkBack { current, asked: new_offset })
    }
}

/// A condition of an audit query, where its value is given.
pub open spec fn condition(text: Seq<char>, value: Option<i64>) -> Seq<Seq<char>> {
    if value is Some {
        seq![text]
    } else {
        Seq::empty()
    }
}

/// The value of a condition, where it is given.
pub open spec fn value_of(value: Option<i64>) -> Seq<i64> {
    match value {
        Some(v) => seq![v],
        None => Seq::empty(),
    }
}

/// Conditions joined by `AND` behind a `WHERE`; nothing where there are none.
pub open spec fn where_text(conds: Seq<Seq<char>>) -> Seq<char>
    decreases conds.len(),
{
    if conds.len() == 0 {
        Seq::empty()
    } else if conds.len() == 1 {
        " WHERE "@ + conds[0]
    } else {
        where_text(conds.drop_last()) + " AND "@ + conds.last()
    }
}

/// A query with the values of its parameters, in order.
pub struct Query {
    pub sql: String,
    pub params: Vec<i64>,
}

fn push_condition(q: &mut Query, text: &str, value: Option<i64>, Ghost(conds): Ghost<Seq<Seq<char>>>, Ghost(head): Ghost<Seq<char>>)
    requires
        old(q).sql@ == head + where_text(conds),
        conds.len() == old(q).params@.len(),
    ensures
        final(q).sql@ == head + where_text(conds + condition(text@, value)),
        final(q).params@ == old(q).params@ + value_of(value),
        (conds + condition(text@, value)).len() == final(q).params@.len(),
{
    if let Some(v) = value {
        let first: bool = q.params.len() == 0;
        if first {
            q.sql.append(" WHERE ");
        } else {
            q.sql.append(" AND ");
        }
        q.sql.append(text);
        q.params.push(v);
        proof {
            let all = conds + condition(text@, value);
            assert(all.drop_last() =~= conds);
            assert(all.last() == text@);
            assert(q.sql@ =~= head + where_text(all));
            assert(q.params@ =~= old(q).params@ + value_of(value));
        }
    } else {
        assert(conds + condition(text@, value) =~= conds);
        assert(q.params@ =~= old(q).params@ + value_of(value));
    }
}

/// The query that counts audited anomalies by kind within a window.
pub fn anomaly_summary(start: Option<i64>, end: Option<i64>) -> (q: Query)
    ensures
        q.sql@ == "SELECT kind, COUNT(*) c FROM anomalies"@ + where_text(condition("ts >= ?"@, start) + condition("ts <= ?"@, end))
            + " GROUP BY kind ORDER BY kind"@,
        q.params@ == value_of(start) + value_of(end),
{
    let mut q = Query { sql: String::from_str("SELECT kind, COUNT(*) c FROM anomalies"), params: Vec::new() };
    let ghost head = q.sql@;
    assert(head + where_text(Seq::empty()) =~= head);
    assert(Seq::<Seq<char>>::empty() + condition("ts >= ?"@, start) =~= condition("ts >= ?"@, start));
    push_condition(&mut q, "ts >= ?", start, Ghost(Seq::empty()), Ghost(head));
    push_condition(&mut q, "ts <= ?", end, Ghost(condition("ts >= ?"@, start)), Ghost(head));
    q.sql.append(" GROUP BY kind ORDER BY kind");
    assert(q.params@ =~= value_of(start) + value_of(end));
    q
}

/// The query for the latest audited anomalies of a kind within a window.
pub fn query_anomalies(kind: Option<i64>, start: Option<i64>, end: Option<i64>, limit: i64) -> (q: Query)
    ensures
        q.sql@ == "SELECT ts, kind, dev_id, segment_seq, conn_hash, qr_id, detail FROM anomalies"@ + where_text(
            condition("kind = ?"@, kind) + condition("ts >= ?"@, start) + condition("ts <= ?"@, end),
        ) + " ORDER BY id DESC LIMIT ?"@,
        q.params@ == value_of(kind) + value_of(start) + value_of(end) + seq![limit],
{
    let mut q = Query {
        sql: String::from_str("SELECT ts, kind, dev_id, segment_seq, conn_hash, qr_id, detail FROM anomalies"),
        params: Vec::new(),
    };
    let ghost head = q.sql@;
    assert(head + where_text(Seq::empty()) =~= head);
    assert(Seq::<Seq<char>>::empty() + condition("kind = ?"@, kind) =~= condition("kind = ?"@, kind));
    push_condition(&mut q, "kind = ?", kind, Ghost(Seq::empty()), Ghost(head));
    push_condition(&mut q, "ts >= ?", start, Ghost(condition("kind = ?"@, kind)), Ghost(head));
    push_condition(&mut q, "ts <= ?", end, Ghost(condition("kind = ?"@, kind) + condition("ts >= ?"@, start)), Ghost(head));
    q.sql.append(" ORDER BY id DESC LIMIT ?");
    q.params.push(limit);
    assert(q.params@ =~= value_of(kind) + value_of(start) + value_of(end) + seq![limit]);
    q
}

} // verus!
