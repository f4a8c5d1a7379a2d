//! The index plane in memory: the live tables and the tables of the current epoch.

use crate::connection::ConnState;
use crate::db::{QrPairValue, QrPairView, RecordSummary};
use crate::table::{IndexKey, Key2, Key3, PendingKey, Table};
use vstd::prelude::*;

verus! {

/// Value of a pending row.
#[derive(Debug, Clone, Copy, PartialEq, Eq, Structural)]
pub struct PendingVal {
    pub q_first_idx: u64,
    pub q_ts: u64,
    pub q_len: u32,
}

impl View for PendingVal {
    type V = PendingVal;

    open spec fn view(&self) -> PendingVal {
        *self
    }
}

/// Value of a timeout row.
#[derive(Debug, Clone, Copy, PartialEq, Eq, Structural)]
pub struct TtlVal {
    pub q_first_idx: u64,
    pub abs_q_end: u64,
}

impl View for TtlVal {
    type V = TtlVal;

    open spec fn view(&self) -> TtlVal {
        *self
    }
}

/// What is still in flight: connection states, open pairs, the pending index and its timeout index.
pub struct LivePlane {
    pub conns: Table<u64, ConnState>,
    pub pairs: Table<u64, QrPairValue>,
    pub pending: Table<PendingKey, PendingVal>,
    pub ttl: Table<Key2, TtlVal>,
}

/// History: finished pairs and the secondary indexes, each row written once.
pub struct EpochPlane {
    pub pairs: Table<u64, QrPairValue>,
    pub conn_qr: Table<Key3, u64>,
    pub qr_key: Table<Key3, u64>,
    pub qr_time: Table<Key2, u64>,
    pub packet_qr: Table<u64, u64>,
    pub record_ts: Table<Key2, RecordSummary>,
}

/// Both planes.
pub struct Planes {
    pub live: LivePlane,
    pub epoch: EpochPlane,
}

impl View for Planes {
    type V = PlanesView;

    open spec fn view(&self) -> PlanesView {
        PlanesView { live: self.live@, epoch: self.epoch@ }
    }
}

impl Planes {
    /// All tables are in order.
    pub open spec fn wf(&self) -> bool {
        self.live.wf() && self.epoch.wf()
    }

    /// Empty planes.
    pub fn new() -> (p: Planes)
        ensures
            p.wf(),
            p@ == empty_planes(),
    {
        Planes { live: LivePlane::new(), epoch: EpochPlane::new() }
    }
}

/// Planes without rows.
pub open spec fn empty_planes() -> PlanesView {
    PlanesView {
        live: LiveView { conns: Map::empty(), pairs: Map::empty(), pending: Map::empty(), ttl: Map::empty() },
        epoch: EpochView {
            pairs: Map::empty(),
            conn_qr: Map::empty(),
            qr_key: Map::empty(),
            qr_time: Map::empty(),
            packet_qr: Map::empty(),
            record_ts: Map::empty(),
        },
    }
}

/// Contents of the live tables.
#[verifier::ext_equal]
pub struct LiveView {
    pub conns: Map<u64, ConnState>,
    pub pairs: Map<u64, QrPairView>,
    pub pending: Map<PendingKey, PendingVal>,
    pub ttl: Map<Key2, TtlVal>,
}

/// Contents of the epoch tables.
#[verifier::ext_equal]
pub struct EpochView {
    pub pairs: Map<u64, QrPairView>,
    pub conn_qr: Map<Key3, u64>,
    pub qr_key: Map<Key3, u64>,
    pub qr_time: Map<Key2, u64>,
    pub packet_qr: Map<u64, u64>,
    pub record_ts: Map<Key2, RecordSummary>,
}

/// Contents of both planes.
#[verifier::ext_equal]
pub struct PlanesView {
    pub live: LiveView,
    pub epoch: EpochView,
}

impl LivePlane {
    /// All tables are in order.
    pub open spec fn wf(&self) -> bool {
        &&& self.conns.wf()
        &&& self.pairs.wf()
        &&& self.pending.wf()
        &&& self.ttl.wf()
    }

    /// Empty tables.
    pub fn new() -> (p: LivePlane)
        ensures
            p.wf(),
            p@ == (LiveView { conns: Map::empty(), pairs: Map::empty(), pending: Map::empty(), ttl: Map::empty() }),
    {
        LivePlane { conns: Table::new(), pairs: Table::new(), pending: Table::new(), ttl: Table::new() }
    }
}

impl View for LivePlane {
    type V = LiveView;

    open spec fn view(&self) -> LiveView {
        LiveView { conns: self.conns@, pairs: self.pairs@, pending: self.pending@, ttl: self.ttl@ }
    }
}

impl EpochPlane {
    /// All tables are in order.
    pub open spec fn wf(&self) -> bool {
        &&& self.pairs.wf()
        &&& self.conn_qr.wf()
        &&& self.qr_key.wf()
        &&& self.qr_time.wf()
        &&& self.packet_qr.wf()
        &&& self.record_ts.wf()
    }

    /// Empty tables.
    pub fn new() -> (p: EpochPlane)
        ensures
            p.wf(),
            p@ == (EpochView {
                pairs: Map::empty(),
                conn_qr: Map::empty(),
                qr_key: Map::empty(),
                qr_time: Map::empty(),
                packet_qr: Map::empty(),
                record_ts: Map::empty(),
            }),
    {
        EpochPlane {
            pairs: Table::new(),
            conn_qr: Table::new(),
            qr_key: Table::new(),
            qr_time: Table::new(),
            packet_qr: Table::new(),
            record_ts: Table::new(),
        }
    }
}

impl EpochPlane {
    /// The first and the last time of the records, and how many there are: the time span of the epoch.
    pub fn bounds(&self) -> (r: (Option<u64>, Option<u64>, u64))
        requires
            self.wf(),
        ensures
            r.2 == self@.record_ts.dom().len(),
            r.0 is Some <==> r.2 > 0,
            r.1 is Some <==> r.2 > 0,
            forall|k: Key2| #[trigger] self@.record_ts.contains_key(k) ==> r.0 is Some && r.0->0 <= k.a <= r.1->0,
            r.0 matches Some(t) ==> exists|k: Key2| #[trigger] self@.record_ts.contains_key(k) && k.a == t,
            r.1 matches Some(t) ==> exists|k: Key2| #[trigger] self@.record_ts.contains_key(k) && k.a == t,
    {
        let n: u64 = self.record_ts.len() as u64;
        let ks = self.record_ts.range(
            &Key2 { a: 0, b: 0 },
            &Key2 { a: 0xffff_ffff_ffff_ffff, b: 0xffff_ffff_ffff_ffff },
        );
        let ghost d = self.record_ts@.dom();
        if ks.len() == 0 {
            proof {
                assert forall|k: Key2| !d.contains(k) by {
                    if d.contains(k) {
                        assert(ks@.contains(k));
                    }
                }
                assert(d =~= Set::empty());
            }
            return (None, None, n);
        }
        let first: u64 = ks[0].a;
        let last: u64 = ks[ks.len() - 1].a;
        proof {
            assert(d.contains(ks@[0]));
            assert(d.contains(ks@[ks@.len() - 1]));
            assert(self@.record_ts.contains_key(ks@[0]));
            assert(self@.record_ts.contains_key(ks@[ks@.len() - 1]));
            if d.len() == 0 {
                assert(d =~= Set::empty());
            }
            assert forall|k: Key2| #[trigger] self@.record_ts.contains_key(k) implies first <= k.a <= last by {
                assert(d.contains(k));
                assert(ks@.contains(k));
                let i = choose|i: int| 0 <= i < ks@.len() && ks@[i] == k;
                if i > 0 {
                    assert(ks@[0].rank() < ks@[i].rank());
                }
                if i < ks@.len() - 1 {
                    assert(ks@[i].rank() < ks@[ks@.len() - 1].rank());
                }
            }
        }
        (Some(first), Some(last), n)
    }
}

impl Planes {
    /// The main row of a pair: open, or finished in the current epoch.
    pub fn qr_pair_at(&self, q_first_idx: u64) -> (r: Option<&QrPairValue>)
        requires
            self.wf(),
        ensures
            (match r {
                Some(p) => Some(p@),
                None => None,
            }) == (if self@.live.pairs.contains_key(q_first_idx) {
                Some(self@.live.pairs[q_first_idx])
            } else if self@.epoch.pairs.contains_key(q_first_idx) {
                Some(self@.epoch.pairs[q_first_idx])
            } else {
                None
            }),
    {
        match self.live.pairs.get(&q_first_idx) {
            Some(p) => Some(p),
            None => self.epoch.pairs.get(&q_first_idx),
        }
    }

    /// Open pairs and pairs finished in the current epoch.
    pub fn qr_pair_count(&self) -> (n: u64)
        requires
            self.wf(),
            self@.live.pairs.dom().len() + self@.epoch.pairs.dom().len() <= u64::MAX,
        ensures
            n == self@.live.pairs.dom().len() + self@.epoch.pairs.dom().len(),
    {
        self.live.pairs.len() as u64 + self.epoch.pairs.len() as u64
    }
}

impl View for EpochPlane {
    type V = EpochView;

    open spec fn view(&self) -> EpochView {
        EpochView {
            pairs: self.pairs@,
            conn_qr: self.conn_qr@,
            qr_key: self.qr_key@,
            qr_time: self.qr_time@,
            packet_qr: self.packet_qr@,
            record_ts: self.record_ts@,
        }
    }
}

} // verus!
