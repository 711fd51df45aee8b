//! The failures that the tree reports to its caller.
use vstd::prelude::*;

verus! {

/// Why an operation on the tree did not take place.
#[derive(Clone, Copy, Debug, PartialEq, Eq, Structural)]
pub enum Error {
    /// The tier, or the tree as a whole, has no room for another child.
    Full,
    /// The current block holds as many commitments as a block can.
    BlockFull,
    /// The current epoch has no room for another block.
    EpochFull,
    /// The tier was sealed and takes no further items.
    AlreadySealed,
    /// Nothing was ever inserted at the position.
    UnknownPosition,
    /// The root computed here is not the root that was asserted from outside.
    RootMismatch,
    /// A message lacks a part that it must have, or carries one of a length
    /// that cannot be read.
    Malformed,
    /// No block was ever applied, so that there is no height to tell.
    NothingSynced,
}

impl Error {
    /// Whether the failure halts whoever feeds the tree: to try again would
    /// meet the same tree and the same answer. That is so of every failure
    /// but two: that a position is unknown, and that nothing was synced yet.
    pub open spec fn spec_halts(&self) -> bool {
        *self != Error::UnknownPosition && *self != Error::NothingSynced
    }

    /// Whether the failure halts whoever feeds the tree.
    #[verifier::when_used_as_spec(spec_halts)]
    pub fn halts(&self) -> (halts: bool)
        ensures
            halts == self.spec_halts(),
    {
        match self {
            Error::UnknownPosition => false,
            Error::NothingSynced => false,
            _ => true,
        }
    }

    /// Whether the caller can go on after sealing the tier that is full and
    /// turning to the next one.
    pub fn is_full(&self) -> (full: bool)
        ensures
            full == (*self == Error::Full || *self == Error::BlockFull || *self
                == Error::EpochFull),
    {
        match self {
            Error::Full => true,
            Error::BlockFull => true,
            Error::EpochFull => true,
            _ => false,
        }
    }
}

} // verus!
