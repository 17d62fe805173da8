//! A directed trust relation between accounts, with direct and two-hop
//! membership queries.
use vstd::prelude::*;

pub mod laws;
pub mod pallet;
pub mod rpc;
pub mod store;
pub mod trust_list;

verus! {

/// Identifies an account. Nothing is assumed of it beyond equality.
pub type AccountId = u64;

} // verus!
