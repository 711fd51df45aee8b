//! The records of keys, amounts and notes that the chain's messages carry.
use crate::error::Error;
use crate::hash;
use crate::hash::Commitment;
use vstd::prelude::*;

verus! {

/// An amount of an asset, as the two halves of a number of 128 bits.
#[derive(Clone, Debug, PartialEq)]
pub struct Amount {
    pub lo: u64,
    pub hi: u64,
}

/// The identifier of an asset.
#[derive(Clone, Debug, PartialEq)]
pub struct AssetId {
    pub inner: Vec<u8>,
}

/// The name of an asset.
#[derive(Clone, Debug, PartialEq)]
pub struct Denom {
    pub denom: String,
}

/// An asset: its identifier and its name.
#[derive(Clone, Debug, PartialEq)]
pub struct Asset {
    pub id: Option<AssetId>,
    pub denom: Option<Denom>,
}

/// An address that notes are sent to.
#[derive(Clone, Debug, PartialEq)]
pub struct Address {
    pub inner: Vec<u8>,
}

/// The key that names a validator.
#[derive(Clone, Debug, PartialEq)]
pub struct IdentityKey {
    pub ik: Vec<u8>,
}

/// The key with which a validator votes.
#[derive(Clone, Debug, PartialEq)]
pub struct GovernanceKey {
    pub gk: Vec<u8>,
}

/// The marker of a note that was spent.
#[derive(Clone, Debug, PartialEq)]
pub struct Nullifier {
    pub inner: Vec<u8>,
}

/// A root hash of the commitment tree, of one of its epochs, or of one of
/// its blocks, as a message carries it.
#[derive(Clone, Debug, PartialEq)]
pub struct MerkleRoot {
    pub inner: Vec<u8>,
}

/// A note commitment, as a message carries it.
#[derive(Clone, Debug, PartialEq)]
pub struct NoteCommitment {
    pub inner: Vec<u8>,
}

/// A note as it is published: its commitment, and what only its receiver
/// can read.
#[derive(Clone, Debug, PartialEq)]
pub struct NotePayload {
    pub note_commitment: Option<NoteCommitment>,
    pub ephemeral_key: Vec<u8>,
    pub encrypted_note: Vec<u8>,
}

/// The thirty-two bytes that a message carries, or nothing where it carries
/// another number of bytes.
pub open spec fn exact(bytes: Seq<u8>) -> Option<Seq<u8>> {
    if bytes.len() == 32 {
        Some(bytes)
    } else {
        None
    }
}

/// Reads thirty-two bytes; nothing where there is another number of them.
pub fn read_bytes(bytes: &Vec<u8>) -> (out: Option<[u8; 32]>)
    ensures
        out is Some <==> bytes@.len() == 32,
        out matches Some(found) ==> found@ == bytes@,
{
    if bytes.len() != 32 {
        return None;
    }
    let out = [
        bytes[0], bytes[1], bytes[2], bytes[3], bytes[4], bytes[5], bytes[6], bytes[7],
        bytes[8], bytes[9], bytes[10], bytes[11], bytes[12], bytes[13], bytes[14], bytes[15],
        bytes[16], bytes[17], bytes[18], bytes[19], bytes[20], bytes[21], bytes[22], bytes[23],
        bytes[24], bytes[25], bytes[26], bytes[27], bytes[28], bytes[29], bytes[30], bytes[31],
    ];
    assert(out@ =~= bytes@);
    Some(out)
}

/// Writes thirty-two bytes out.
pub fn write_bytes(bytes: &[u8; 32]) -> (out: Vec<u8>)
    ensures
        out@ == bytes@,
{
    let mut out: Vec<u8> = Vec::new();
    let mut i: usize = 0;
    while i < 32
        invariant
            i <= 32,
            out@ == bytes@.subrange(0, i as int),
        decreases 32 - i,
    {
        out.push(bytes[i]);
        assert(out@ =~= bytes@.subrange(0, i + 1));
        i += 1;
    }
    assert(out@ =~= bytes@);
    out
}

/// The thirty-two bytes that hold the given bytes.
pub open spec fn array_of(bytes: Seq<u8>) -> [u8; 32] {
    choose|array: [u8; 32]| array@ == bytes
}

/// Thirty-two bytes are known by what they hold.
pub proof fn lemma_array_of(array: [u8; 32])
    ensures
        array_of(array@) == array,
{
    let other = array_of(array@);
    assert(other@ == array@);
    assert(other =~= array);
}

impl Nullifier {
    /// The nullifier that the message carries, or nothing where it has not
    /// the length of a nullifier.
    pub open spec fn bytes(&self) -> Option<Seq<u8>> {
        exact(self.inner@)
    }

    /// The nullifier that the message carries, or nothing where it has not
    /// the length of a nullifier.
    pub fn to_bytes(&self) -> (bytes: Option<[u8; 32]>)
        ensures
            bytes is Some <==> self.bytes() is Some,
            bytes matches Some(found) ==> Some(found@) == self.bytes(),
    {
        read_bytes(&self.inner)
    }
}

impl Asset {
    /// The identifier of the asset, or nothing where the record lacks the
    /// identifier or the name, or carries an identifier of another length.
    pub open spec fn identifier(&self) -> Option<Seq<u8>> {
        match (self.id, self.denom) {
            (Some(id), Some(_)) => exact(id.inner@),
            _ => None,
        }
    }

    /// The identifier of an asset that is fit to be recorded; `Malformed`
    /// where the record lacks the identifier or the name, or carries an
    /// identifier of another length.
    pub fn asset_id(&self) -> (result: Result<[u8; 32], Error>)
        ensures
            match result {
                Ok(id) => self.identifier() == Some(id@),
                Err(error) => error == Error::Malformed && self.identifier() is None,
            },
    {
        match (&self.id, &self.denom) {
            (Some(id), Some(_)) => match read_bytes(&id.inner) {
                Some(bytes) => Ok(bytes),
                None => Err(Error::Malformed),
            },
            _ => Err(Error::Malformed),
        }
    }
}

impl MerkleRoot {
    /// The hash that the message carries, or nothing where it has not the
    /// length of a hash.
    pub open spec fn digest(&self) -> Option<Seq<u8>> {
        exact(self.inner@)
    }

    /// The hash that the message carries, or nothing where it has not the
    /// length of a hash.
    pub fn to_hash(&self) -> (h: Option<hash::Hash>)
        ensures
            h is Some <==> self.digest() is Some,
            h matches Some(found) ==> Some(found@) == self.digest(),
    {
        match read_bytes(&self.inner) {
            Some(bytes) => Some(hash::Hash { bytes }),
            None => None,
        }
    }

    /// The message that carries a hash.
    pub fn from_hash(h: &hash::Hash) -> (root: MerkleRoot)
        ensures
            root.digest() == Some(h@),
    {
        MerkleRoot { inner: write_bytes(&h.bytes) }
    }
}

impl NoteCommitment {
    /// The commitment that the message carries, or nothing where it has not
    /// the length of a commitment.
    pub open spec fn commitment(&self) -> Option<Seq<u8>> {
        exact(self.inner@)
    }

    /// The commitment that the message carries, or nothing where it has not
    /// the length of a commitment.
    pub fn to_commitment(&self) -> (c: Option<Commitment>)
        ensures
            c is Some <==> self.commitment() is Some,
            c matches Some(found) ==> Some(found@) == self.commitment(),
    {
        match read_bytes(&self.inner) {
            Some(bytes) => Some(Commitment { bytes }),
            None => None,
        }
    }

    /// The message that carries a commitment.
    pub fn from_commitment(c: &Commitment) -> (carried: NoteCommitment)
        ensures
            carried.commitment() == Some(c@),
    {
        NoteCommitment { inner: write_bytes(&c.bytes) }
    }
}

} // verus!
