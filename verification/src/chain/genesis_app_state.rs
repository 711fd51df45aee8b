//! The records nested in the genesis state.
use crate::crypto::Address;
use vstd::prelude::*;

verus! {

/// An amount of an asset that an address holds from the start.
#[derive(Clone, Debug, PartialEq)]
pub struct Allocation {
    pub amount: u64,
    pub denom: String,
    pub address: Option<Address>,
}

} // verus!
