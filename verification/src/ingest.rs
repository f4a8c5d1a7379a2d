//! Intake of traffic: live, from the transport, and offline, from stored files.

use vstd::prelude::*;

pub mod live;
pub mod offline;

verus! {

}
