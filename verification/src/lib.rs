//! Verified core of a crypto market-data toolkit: naming of market-data
//! channels, record files, subscription bookkeeping for replay sessions and
//! QUIC publishing, and configuration handling.
use vstd::prelude::*;

pub mod assoc;
pub mod config;
pub mod integration;
pub mod json;
pub mod market;
pub mod msg_type;
pub mod naming;
pub mod quic;
pub mod record;
pub mod replay;
pub mod socket;
pub mod text;

verus! {

} // verus!
