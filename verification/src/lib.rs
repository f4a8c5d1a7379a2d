//! Forensic packet vault: TCP request/response matching over an ordered index plane.

use vstd::prelude::*;

pub mod anomaly;
pub mod batch;
pub mod codec;
pub mod config;
pub mod connection;
pub mod db;
pub mod decrypt;
pub mod device;
pub mod export;
pub mod id;
pub mod ingest;
pub mod laws;
pub mod ledger;
pub mod matching;
pub mod meta;
pub mod paging;
pub mod plane;
pub mod qr;
pub mod query;
pub mod reassembly;
pub mod table;
pub mod text;
pub mod total;
pub mod util;
pub mod wal;
pub mod walscan;

verus! {

}
