//! Bits of the anomaly mask that a connection accumulates.

use vstd::prelude::*;

verus! {

pub const INCOMPLETE: u32 = 0x001;

pub const RESET: u32 = 0x002;

pub const HALF_OPEN: u32 = 0x004;

pub const QR_UNMATCHED: u32 = 0x008;

pub const SYN_SEEN: u32 = 0x010;

pub const FIN_SEEN: u32 = 0x020;

pub const ZERO_WIN: u32 = 0x040;

pub const RETRANS: u32 = 0x080;

pub const SEQ_GAP: u32 = 0x100;

pub const DEGRADED: u32 = 0x200;

/// More open requests than the per-connection budget allows.
pub const CONN_QR_FLOOD: u32 = 0x400;

/// Out-of-order bytes of one connection stay above the budget.
pub const CONN_OOO_FLOOD: u32 = 0x800;

} // verus!
