//! The records nested in what a block quarantines.
use crate::chain::AnnotatedNotePayload;
use crate::crypto::{IdentityKey, Nullifier};
use vstd::prelude::*;

verus! {

/// What unbonds from one validator: new notes and spent ones.
#[derive(Clone, Debug, PartialEq)]
pub struct Unbonding {
    pub note_payloads: Vec<AnnotatedNotePayload>,
    pub nullifiers: Vec<Nullifier>,
}

/// What unbonds from one validator, under the validator's key.
#[derive(Clone, Debug, PartialEq)]
pub struct ValidatorEntry {
    pub identity_key: Option<IdentityKey>,
    pub unbonding: Option<Unbonding>,
}

/// What is scheduled to unbond, validator by validator.
#[derive(Clone, Debug, PartialEq)]
pub struct Scheduled {
    pub per_validator: Vec<ValidatorEntry>,
}

/// What is scheduled to unbond in one epoch.
#[derive(Clone, Debug, PartialEq)]
pub struct EpochEntry {
    pub unbonding_epoch: u64,
    pub scheduled: Option<Scheduled>,
}

} // verus!
