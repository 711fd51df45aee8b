//! The records that describe validators.
use crate::crypto::{GovernanceKey, IdentityKey};
use vstd::prelude::*;

verus! {

/// A share of a validator's reward and the address that receives it.
#[derive(Clone, Debug, PartialEq)]
pub struct FundingStream {
    pub address: String,
    pub rate_bps: u32,
}

/// A validator, as the genesis state and the chain describe it.
#[derive(Clone, Debug, PartialEq)]
pub struct Validator {
    pub identity_key: Option<IdentityKey>,
    pub consensus_key: Vec<u8>,
    pub name: String,
    pub website: String,
    pub description: String,
    pub enabled: bool,
    pub funding_streams: Vec<FundingStream>,
    pub sequence_number: u32,
    pub governance_key: Option<GovernanceKey>,
}

} // verus!
