//! The messages of the chain that the tree's clients read: chain
//! parameters, compact blocks, the genesis state.
use crate::chain::genesis_app_state::Allocation;
use crate::chain::quarantined::EpochEntry;
use crate::crypto::{
    array_of, lemma_array_of, Amount, Asset, AssetId, Denom, IdentityKey, MerkleRoot,
    NotePayload, Nullifier,
};
use crate::error::Error;
use crate::hash::Commitment;
use crate::stake::Validator;
use vstd::prelude::*;

pub mod genesis_app_state;
pub mod quarantined;

verus! {

/// Global chain configuration data, such as chain ID, epoch duration, etc.
#[derive(Clone, Debug, PartialEq)]
pub struct ChainParameters {
    /// The identifier of the chain.
    pub chain_id: String,
    /// The duration of each epoch, in number of blocks.
    pub epoch_duration: u64,
    /// The number of epochs an unbonding note for before being released.
    pub unbonding_epochs: u64,
    /// The maximum number of validators in the consensus set.
    pub active_validator_limit: u64,
    /// The base reward rate, expressed in basis points of basis points
    pub base_reward_rate: u64,
    /// The penalty for slashing due to misbehavior, expressed in basis points.
    pub slashing_penalty_misbehavior_bps: u64,
    /// The penalty for slashing due to downtime, expressed in basis points.
    pub slashing_penalty_downtime_bps: u64,
    /// The number of blocks in the window to check for downtime.
    pub signed_blocks_window_len: u64,
    /// The maximum number of blocks in the window each validator can miss signing without slashing.
    pub missed_blocks_maximum: u64,
    /// Whether IBC (forming connections, processing IBC packets) is enabled.
    pub ibc_enabled: bool,
    /// Whether inbound ICS-20 transfers are enabled
    pub inbound_ics20_transfers_enabled: bool,
    /// Whether outbound ICS-20 transfers are enabled
    pub outbound_ics20_transfers_enabled: bool,
    /// The number of blocks during which a proposal is voted on.
    pub proposal_voting_blocks: u64,
    /// The deposit required to create a proposal.
    pub proposal_deposit_amount: Option<Amount>,
    /// The quorum required for a proposal to be considered valid, as a fraction of the total stake
    /// weight of the network.
    pub proposal_valid_quorum: Option<Ratio>,
    /// The threshold for a proposal to pass voting, as a ratio of "yes" votes over "no" votes.
    pub proposal_pass_threshold: Option<Ratio>,
    /// The threshold for a proposal to be vetoed, regardless of whether the "yes" and "no" votes would
    /// have passed it, as a ratio of "no with veto" votes over all total votes.
    pub proposal_veto_threshold: Option<Ratio>,
}

/// The ratio between two numbers, used in governance to describe vote thresholds and quorums.
#[derive(Clone, Debug, PartialEq)]
pub struct Ratio {
    /// The numerator.
    pub numerator: u64,
    /// The denominator.
    pub denominator: u64,
}

/// Parameters for Fuzzy Message Detection
#[derive(Clone, Debug, PartialEq)]
pub struct FmdParameters {
    pub precision_bits: u32,
    pub as_of_block_height: u64,
}

/// Information about a given asset at a given time (as specified by block
/// height). Currently this only contains the total supply.
#[derive(Clone, Debug, PartialEq)]
pub struct AssetInfo {
    pub asset_id: Option<AssetId>,
    pub denom: Option<Denom>,
    pub as_of_block_height: u64,
    pub total_supply: u64,
}

/// Contains the minimum data needed to update client state.
#[derive(Clone, Debug, PartialEq)]
pub struct CompactBlock {
    pub height: u64,
    /// NotePayloads describing new notes.
    pub note_payloads: Vec<AnnotatedNotePayload>,
    /// Nullifiers identifying spent notes.
    pub nullifiers: Vec<Nullifier>,
    /// The block root of this block.
    pub block_root: Option<MerkleRoot>,
    /// The epoch root of this epoch (only present when the block is the last in an epoch).
    pub epoch_root: Option<MerkleRoot>,
    /// Newly quarantined things in this block.
    pub quarantined: Option<Quarantined>,
    /// Validators slashed in this block.
    pub slashed: Vec<IdentityKey>,
    /// If a proposal started voting in this block, this is set to `true`.
    pub proposal_started: bool,
    /// Latest Fuzzy Message Detection parameters.
    pub fmd_parameters: Option<FmdParameters>,
}

/// A note payload, annotated with the note source.
#[derive(Clone, Debug, PartialEq)]
pub struct AnnotatedNotePayload {
    pub payload: Option<NotePayload>,
    pub source: Option<NoteSource>,
}

/// The assets that are known.
#[derive(Clone, Debug, PartialEq)]
pub struct KnownAssets {
    pub assets: Vec<Asset>,
}

/// A spicy transaction ID
#[derive(Clone, Debug, PartialEq)]
pub struct NoteSource {
    pub inner: Vec<u8>,
}

/// A spicier transaction ID: one which can be missing
#[derive(Clone, Debug, PartialEq)]
pub struct DelibleNoteSource {
    pub source: Option<NoteSource>,
}

/// The state that the chain starts from.
#[derive(Clone, Debug, PartialEq)]
pub struct GenesisAppState {
    pub chain_params: Option<ChainParameters>,
    pub validators: Vec<Validator>,
    pub allocations: Vec<Allocation>,
}

/// What a block quarantines, epoch by epoch.
#[derive(Clone, Debug, PartialEq)]
pub struct Quarantined {
    pub per_epoch: Vec<EpochEntry>,
}

/// The validators that were slashed.
#[derive(Clone, Debug, PartialEq)]
pub struct Slashed {
    pub validators: Vec<IdentityKey>,
}

impl AnnotatedNotePayload {
    /// The commitment of the note, or nothing where the message lacks the
    /// payload or the commitment, or carries one of another length.
    pub open spec fn commitment(&self) -> Option<Seq<u8>> {
        match self.payload {
            Some(payload) => match payload.note_commitment {
                Some(carried) => carried.commitment(),
                None => None,
            },
            None => None,
        }
    }

    /// The commitment of the note, or nothing where the message lacks the
    /// payload or the commitment, or carries one of another length.
    pub fn note_commitment(&self) -> (c: Option<Commitment>)
        ensures
            c is Some <==> self.commitment() is Some,
            c matches Some(found) ==> Some(found@) == self.commitment(),
    {
        match &self.payload {
            Some(payload) => match &payload.note_commitment {
                Some(carried) => carried.to_commitment(),
                None => None,
            },
            None => None,
        }
    }
}

impl CompactBlock {
    /// Whether every note of the block carries a commitment.
    pub open spec fn readable(&self) -> bool {
        forall|i: int|
            0 <= i < self.note_payloads@.len() ==> (#[trigger] self.note_payloads@[i]).commitment()
                is Some
    }

    /// Whether every nullifier of the block has the length of a nullifier.
    pub open spec fn spent_readable(&self) -> bool {
        forall|i: int|
            0 <= i < self.nullifiers@.len() ==> (#[trigger] self.nullifiers@[i]).bytes() is Some
    }

    /// The nullifiers of the block, in order.
    pub open spec fn spec_spent(&self) -> Seq<[u8; 32]> {
        Seq::new(self.nullifiers@.len(), |i: int| array_of(self.nullifiers@[i].bytes()->0))
    }

    /// The nullifiers of the block, in order: the markers of the notes that
    /// the block spends, which do not enter the tree. `Malformed` where one
    /// of them has not the length of a nullifier.
    pub fn spent(&self) -> (result: Result<Vec<[u8; 32]>, Error>)
        ensures
            match result {
                Ok(found) => self.spent_readable() && found@ == self.spec_spent(),
                Err(error) => error == Error::Malformed && !self.spent_readable(),
            },
    {
        let mut found: Vec<[u8; 32]> = Vec::new();
        let mut i: usize = 0;
        while i < self.nullifiers.len()
            invariant
                i <= self.nullifiers@.len(),
                found@.len() == i,
                forall|j: int| 0 <= j < i ==> (#[trigger] self.nullifiers@[j]).bytes() is Some,
                forall|j: int| 0 <= j < i ==> #[trigger] found@[j] == self.spec_spent()[j],
            decreases self.nullifiers@.len() - i,
        {
            match self.nullifiers[i].to_bytes() {
                Some(bytes) => {
                    proof {
                        lemma_array_of(bytes);
                    }
                    found.push(bytes);
                },
                None => {
                    return Err(Error::Malformed);
                },
            }
            i += 1;
        }
        assert(found@ =~= self.spec_spent());
        Ok(found)
    }

    /// The commitments of the notes of the block, in order.
    pub open spec fn spec_commitments(&self) -> Seq<Commitment> {
        Seq::new(
            self.note_payloads@.len(),
            |i: int| Commitment::of(self.note_payloads@[i].commitment()->0),
        )
    }

    /// The commitments of the notes of the block, in order; `Malformed`
    /// where a note lacks its commitment or carries one of another length.
    pub fn commitments(&self) -> (result: Result<Vec<Commitment>, Error>)
        ensures
            match result {
                Ok(found) => self.readable() && found@ == self.spec_commitments(),
                Err(error) => error == Error::Malformed && !self.readable(),
            },
    {
        let mut found: Vec<Commitment> = Vec::new();
        let mut i: usize = 0;
        while i < self.note_payloads.len()
            invariant
                i <= self.note_payloads@.len(),
                found@.len() == i,
                forall|j: int|
                    0 <= j < i ==> (#[trigger] self.note_payloads@[j]).commitment() is Some,
                forall|j: int| 0 <= j < i ==> #[trigger] found@[j] == self.spec_commitments()[j],
            decreases self.note_payloads@.len() - i,
        {
            match self.note_payloads[i].note_commitment() {
                Some(commitment) => {
                    proof {
                        commitment.lemma_of();
                    }
                    found.push(commitment);
                },
                None => {
                    return Err(Error::Malformed);
                },
            }
            i += 1;
        }
        assert(found@ =~= self.spec_commitments());
        Ok(found)
    }
}

} // verus!
