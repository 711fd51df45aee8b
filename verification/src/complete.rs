//! A tier that was sealed: it takes no further items, keeps its root hash,
//! and stands as one item of the tier above it.
use crate::error::Error;
use crate::hash;
use crate::hash::{GetHash, Padding};
use crate::leaf::Leaf;
use crate::merkle::{path_of, path_view};
use crate::node::digests_of;
use crate::tier::{Tier, TIER_CAPACITY, TIER_HEIGHT};
use vstd::prelude::*;

verus! {

/// An eight-deep complete tree with an item at each leaf that was filled.
#[derive(Debug)]
pub struct Complete<Item> {
    inner: Tier<Item>,
}

impl<Item: GetHash> View for Complete<Item> {
    type V = Seq<Leaf<Item>>;

    /// The leaves of the tier, in the order in which they were inserted.
    closed spec fn view(&self) -> Seq<Leaf<Item>> {
        self.inner@
    }
}

impl<Item: GetHash> Complete<Item> {
    /// The tier that was sealed.
    pub closed spec fn tier(&self) -> Tier<Item> {
        self.inner
    }

    /// The height at which the items of the tier stand in the whole tree.
    pub open spec fn spec_base(&self) -> u8 {
        self.tier().spec_base()
    }

    /// The tier is the tier that the value wraps, leaf for leaf.
    pub proof fn lemma_tier(&self)
        ensures
            self@ == self.tier()@,
    {
    }

    /// Seals a tier, if it was not sealed before, and wraps it.
    pub fn seal(tier: Tier<Item>, padding: &Padding) -> (complete: Complete<Item>)
        requires
            tier.wf(),
            padding.wf(),
        ensures
            complete.wf(),
            complete@ == tier@,
            complete.spec_base() == tier.spec_base(),
    {
        let mut tier = tier;
        tier.seal(padding);
        Complete { inner: tier }
    }

    /// Wraps a tier if it was sealed; nothing where it was not.
    pub fn from_tier(tier: Tier<Item>) -> (complete: Option<Complete<Item>>)
        requires
            tier.wf(),
        ensures
            complete is Some <==> tier.spec_is_sealed(),
            complete matches Some(made) ==> made.wf() && made.tier() == tier && made@ == tier@,
    {
        if tier.is_sealed() {
            Some(Complete { inner: tier })
        } else {
            None
        }
    }

    /// Wraps a tier that was sealed.
    pub(crate) fn wrap(tier: Tier<Item>) -> (complete: Complete<Item>)
        requires
            tier.wf(),
            tier.spec_is_sealed(),
        ensures
            complete.wf(),
            complete.tier() == tier,
            complete@ == tier@,
    {
        Complete { inner: tier }
    }

    /// The sealed tier, to read.
    pub fn as_tier(&self) -> (tier: &Tier<Item>)
        ensures
            *tier == self.tier(),
            tier@ == self@,
    {
        &self.inner
    }

    /// Hands out the sealed tier.
    pub fn into_tier(self) -> (tier: Tier<Item>)
        ensures
            tier == self.tier(),
            tier@ == self@,
    {
        self.inner
    }

    /// The height at which the items of the tier stand in the whole tree.
    #[verifier::when_used_as_spec(spec_base)]
    pub fn base(&self) -> (base: u8)
        ensures
            base == self.spec_base(),
    {
        self.inner.base()
    }

    /// The number of items in the tier.
    pub fn len(&self) -> (len: u64)
        requires
            self.wf(),
        ensures
            len == self@.len(),
            len <= TIER_CAPACITY,
    {
        self.inner.len()
    }

    /// The leaf at `index`, or nothing where the tier has no such leaf.
    pub fn get(&self, index: u64) -> (leaf: Option<&Leaf<Item>>)
        requires
            self.wf(),
        ensures
            leaf is Some <==> index < self@.len(),
            leaf matches Some(found) ==> *found == self@[index as int],
    {
        self.inner.get(index)
    }

    /// Forgets the item at `index`: its leaf keeps the hash and nothing
    /// else, so the root hash stays. Returns whether there was an item to
    /// forget, and `UnknownPosition` where the tier has no such leaf.
    pub fn forget(&mut self, index: u64) -> (result: Result<bool, Error>)
        requires
            old(self).wf(),
        ensures
            final(self).wf(),
            final(self).spec_base() == old(self).spec_base(),
            final(self).digest() == old(self).digest(),
            match result {
                Ok(forgot) => {
                    &&& index < old(self)@.len()
                    &&& forgot == (old(self)@[index as int] is Complete)
                    &&& final(self)@ == old(self)@.update(
                        index as int,
                        old(self)@[index as int].forgotten(),
                    )
                },
                Err(error) => {
                    &&& index >= old(self)@.len()
                    &&& error == Error::UnknownPosition
                    &&& *final(self) == *old(self)
                },
            },
    {
        self.inner.forget(index)
    }

    /// The path that proves the leaf at `index`: for each of the eight
    /// levels, from the lowest, the hashes of the three siblings met there.
    /// Nothing where the tier has no such leaf.
    pub fn path(&self, index: u64, padding: &Padding) -> (path: Option<Vec<[hash::Hash; 3]>>)
        requires
            self.wf(),
            padding.wf(),
        ensures
            path is Some <==> index < self@.len(),
            path matches Some(found) ==> path_view(found@) == path_of(
                self.spec_base() as nat,
                TIER_HEIGHT as nat,
                digests_of(self@),
                index as nat,
            ),
    {
        self.inner.path(index, padding)
    }
}

impl<Item: GetHash> GetHash for Complete<Item> {
    /// A sealed tier is well formed when the tier is, and was sealed.
    open spec fn wf(&self) -> bool {
        self.tier().wf() && self.tier().spec_is_sealed()
    }

    /// The hash of a sealed tier is its root hash.
    open spec fn digest(&self) -> Seq<u8> {
        self.tier().digest()
    }

    /// The root hash, which the sealed tier keeps.
    fn hash(&self) -> (h: hash::Hash) {
        match self.inner.cached() {
            Some(kept) => kept,
            None => vstd::pervasive::unreached(),
        }
    }

    fn check(&self, padding: &Padding) -> (ok: bool) {
        self.inner.check(padding) && self.inner.is_sealed()
    }
}

} // verus!
