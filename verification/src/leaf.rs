//! The lowest level of a tier: one item, or the hash that is left of it.
use crate::hash;
use crate::hash::{GetHash, Padding};
use vstd::prelude::*;

verus! {

/// A leaf holds an item together with its hash, or, once the item was
/// forgotten, the hash alone.
#[derive(Clone, Debug, PartialEq, Eq)]
pub enum Leaf<Item> {
    Complete(Item, hash::Hash),
    Forgotten(hash::Hash),
}

impl<Item: GetHash> Leaf<Item> {
    /// A leaf is well formed when the hash it keeps is that of its item.
    pub open spec fn wf(self) -> bool {
        match self {
            Leaf::Complete(item, hash) => item.wf() && hash@ == item.digest(),
            Leaf::Forgotten(_) => true,
        }
    }

    /// The hash that the leaf keeps.
    pub open spec fn digest(self) -> Seq<u8> {
        match self {
            Leaf::Complete(_, hash) => hash@,
            Leaf::Forgotten(hash) => hash@,
        }
    }

    /// The leaf as it is after its item was forgotten.
    pub open spec fn forgotten(self) -> Leaf<Item> {
        match self {
            Leaf::Complete(_, hash) => Leaf::Forgotten(hash),
            Leaf::Forgotten(hash) => Leaf::Forgotten(hash),
        }
    }

    /// The leaf that holds `item` and its hash.
    pub open spec fn of(item: Item) -> Leaf<Item> {
        Leaf::Complete(item, hash::Hash::of(item.digest()))
    }

    /// A leaf that holds `item` and its hash.
    pub fn new(item: Item) -> (leaf: Leaf<Item>)
        requires
            item.wf(),
        ensures
            leaf.wf(),
            leaf == Leaf::of(item),
    {
        let hash = item.hash();
        proof {
            hash.lemma_of();
        }
        Leaf::Complete(item, hash)
    }

    /// Finds out whether the leaf is well formed: whether the hash it keeps
    /// is that of its item, and the item is well formed itself.
    pub fn check(&self, padding: &Padding) -> (ok: bool)
        requires
            padding.wf(),
        ensures
            ok == self.wf(),
    {
        match self {
            Leaf::Complete(item, hash) => item.check(padding) && item.hash() == *hash,
            Leaf::Forgotten(_) => true,
        }
    }

    /// Drops the item and keeps its hash. Returns whether there was an item
    /// to drop.
    pub fn forget(&mut self) -> (forgot: bool)
        ensures
            forgot == (*old(self) is Complete),
            *final(self) == old(self).forgotten(),
    {
        let hash = self.hash();
        let forgot = self.is_kept();
        *self = Leaf::Forgotten(hash);
        forgot
    }

    /// The hash of the leaf, whether or not it still holds its item.
    pub fn hash(&self) -> (h: hash::Hash)
        ensures
            h@ == self.digest(),
            Leaf::<Item>::Forgotten(h) == self.forgotten(),
    {
        match self {
            Leaf::Complete(_, hash) => *hash,
            Leaf::Forgotten(hash) => *hash,
        }
    }

    /// Whether the leaf still holds its item.
    pub fn is_kept(&self) -> (kept: bool)
        ensures
            kept == (*self is Complete),
    {
        match self {
            Leaf::Complete(_, _) => true,
            Leaf::Forgotten(_) => false,
        }
    }

    /// The item, if the leaf still holds it.
    pub fn item(&self) -> (item: Option<&Item>)
        ensures
            match *self {
                Leaf::Complete(held, _) => item == Some(&held),
                Leaf::Forgotten(_) => item is None,
            },
    {
        match self {
            Leaf::Complete(held, _) => Some(held),
            Leaf::Forgotten(_) => None,
        }
    }
}

} // verus!
