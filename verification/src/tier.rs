//! A tier: a tree of eight levels over its items, filled from the left, which
//! can be sealed at any time and then stands as one item of the tier above.
use crate::error::Error;
use crate::hash;
use crate::hash::{GetHash, Padding, MAX_HEIGHT};
use crate::leaf::Leaf;
use crate::merkle::{
    digits, lemma_digits, lemma_pow4_step, lemma_pow4_values, path_of, path_view, pow4, root_of,
    width,
};
use crate::node::{digests_of, Node};
use vstd::prelude::*;

verus! {

/// The number of levels of a tier above its items.
pub const TIER_HEIGHT: u8 = 8;

/// The number of items that a tier holds when it is full.
pub const TIER_CAPACITY: u64 = 65536;

/// A tier that is being filled. It holds its items in the order in which
/// they came, knows how many there are, and whether it was sealed.
#[derive(Debug)]
pub struct Tier<Item> {
    base: u8,
    len: u64,
    sealed: bool,
    root: Node<Item>,
}

impl<Item: GetHash> View for Tier<Item> {
    type V = Seq<Leaf<Item>>;

    /// The leaves of the tier, in the order in which they were inserted.
    closed spec fn view(&self) -> Seq<Leaf<Item>> {
        self.root.leaves(TIER_HEIGHT as nat)
    }
}

impl<Item: GetHash> Tier<Item> {
    /// The height at which the items of the tier stand in the whole tree.
    pub closed spec fn spec_base(&self) -> u8 {
        self.base
    }

    /// Whether the tier was sealed.
    pub closed spec fn spec_is_sealed(&self) -> bool {
        self.sealed
    }

    /// The tree of nodes that holds the items.
    pub closed spec fn tree(&self) -> Node<Item> {
        self.root
    }

    /// The invariant of a tier: its tree is well formed and holds as many
    /// leaves as the tier counts; a sealed tier is complete throughout; one
    /// that was not sealed has no sealed part, and is complete only when
    /// full.
    pub closed spec fn wf(&self) -> bool {
        &&& self.base + TIER_HEIGHT <= MAX_HEIGHT
        &&& self.root.wf(self.base as nat, TIER_HEIGHT as nat)
        &&& self.len == self.root.leaves(TIER_HEIGHT as nat).len()
        &&& self.sealed ==> self.root.is_complete()
        &&& !self.sealed ==> !self.root.sealed(TIER_HEIGHT as nat) && (self.root is Active
            <==> self.len < TIER_CAPACITY)
    }

    /// Whether a tier can be made of the parts: the invariant of a tier,
    /// said of its parts.
    pub open spec fn valid_parts(base: u8, sealed: bool, root: Node<Item>) -> bool {
        &&& base + TIER_HEIGHT <= MAX_HEIGHT
        &&& root.wf(base as nat, TIER_HEIGHT as nat)
        &&& sealed ==> root.is_complete()
        &&& !sealed ==> !root.sealed(TIER_HEIGHT as nat) && (root is Active <==> root.leaves(
            TIER_HEIGHT as nat,
        ).len() < TIER_CAPACITY)
    }

    /// The invariant of a tier is that its parts are valid.
    pub proof fn lemma_parts(&self)
        ensures
            self.wf() <==> Self::valid_parts(self.spec_base(), self.spec_is_sealed(), self.tree())
                && self.spec_len() == self@.len(),
            self@ == self.tree().leaves(TIER_HEIGHT as nat),
    {
    }

    /// A tier is known by its parts: the tier that is made of the parts of a
    /// well-formed tier is that tier again, so that nothing is lost when a
    /// tier is taken apart, stored, and made anew.
    pub proof fn lemma_round_trip(&self, other: &Tier<Item>)
        requires
            self.wf(),
            other.wf(),
            other.spec_base() == self.spec_base(),
            other.spec_is_sealed() == self.spec_is_sealed(),
            other.tree() == self.tree(),
        ensures
            *other == *self,
    {
    }

    /// The number of items that the tier counts.
    pub closed spec fn spec_len(&self) -> u64 {
        self.len
    }

    /// The parts of the tier, to read: the height of its items, whether it
    /// was sealed, and its tree of nodes.
    pub fn parts(&self) -> (parts: (u8, bool, &Node<Item>))
        ensures
            parts.0 == self.spec_base(),
            parts.1 == self.spec_is_sealed(),
            *parts.2 == self.tree(),
    {
        (self.base, self.sealed, &self.root)
    }

    /// Takes a tier apart: the height of its items, whether it was sealed,
    /// and its tree of nodes.
    pub fn into_parts(self) -> (parts: (u8, bool, Node<Item>))
        ensures
            parts == (self.spec_base(), self.spec_is_sealed(), self.tree()),
    {
        (self.base, self.sealed, self.root)
    }

    /// Makes a tier of its parts, as they come from outside, after checking
    /// all of them; `Malformed` where they are not valid.
    pub fn from_parts(base: u8, sealed: bool, root: Node<Item>, padding: &Padding) -> (result:
        Result<Tier<Item>, Error>)
        requires
            padding.wf(),
        ensures
            match result {
                Ok(tier) => {
                    &&& Self::valid_parts(base, sealed, root)
                    &&& tier.wf()
                    &&& tier.spec_base() == base
                    &&& tier.spec_is_sealed() == sealed
                    &&& tier.tree() == root
                },
                Err(error) => error == Error::Malformed && !Self::valid_parts(base, sealed, root),
            },
    {
        if base > MAX_HEIGHT - TIER_HEIGHT {
            return Err(Error::Malformed);
        }
        if !root.check(base, TIER_HEIGHT, padding) {
            return Err(Error::Malformed);
        }
        proof {
            lemma_pow4_values();
        }
        let len = root.len(base, TIER_HEIGHT);
        let complete = root.frozen();
        if sealed {
            if !complete {
                return Err(Error::Malformed);
            }
        } else {
            if root.is_sealed(base, TIER_HEIGHT) || complete != (len == TIER_CAPACITY) {
                return Err(Error::Malformed);
            }
        }
        Ok(Tier { base, len, sealed, root })
    }

    /// Makes a tier of parts that are known to be valid, without checking
    /// them.
    pub fn from_parts_unchecked(base: u8, sealed: bool, root: Node<Item>) -> (tier: Tier<Item>)
        requires
            Self::valid_parts(base, sealed, root),
        ensures
            tier.wf(),
            tier.spec_base() == base,
            tier.spec_is_sealed() == sealed,
            tier.tree() == root,
    {
        let len = root.len(base, TIER_HEIGHT);
        Tier { base, len, sealed, root }
    }

    /// Finds out whether the tier is well formed, for a tier that comes from
    /// outside.
    pub fn check(&self, padding: &Padding) -> (ok: bool)
        requires
            padding.wf(),
        ensures
            ok == self.wf(),
    {
        if self.base > MAX_HEIGHT - TIER_HEIGHT {
            return false;
        }
        if !self.root.check(self.base, TIER_HEIGHT, padding) {
            return false;
        }
        proof {
            lemma_pow4_values();
        }
        let len = self.root.len(self.base, TIER_HEIGHT);
        let complete = self.root.frozen();
        if len != self.len {
            return false;
        }
        if self.sealed {
            complete
        } else {
            !self.root.is_sealed(self.base, TIER_HEIGHT) && complete == (len == TIER_CAPACITY)
        }
    }

    /// The root hash of the tier: the root of the hashes of its leaves, with
    /// empty places to the right of them.
    pub open spec fn digest(&self) -> Seq<u8> {
        root_of(self.spec_base() as nat, TIER_HEIGHT as nat, digests_of(self@))
    }

    /// What the invariant gives of the leaves: there are no more than a tier
    /// holds, and each is well formed.
    pub proof fn lemma_view(&self)
        requires
            self.wf(),
        ensures
            self@.len() <= TIER_CAPACITY,
            self.spec_base() + TIER_HEIGHT <= MAX_HEIGHT,
            forall|i: int| 0 <= i < self@.len() ==> (#[trigger] self@[i]).wf(),
    {
        self.root.lemma_leaves(self.base as nat, TIER_HEIGHT as nat);
        lemma_pow4_values();
    }

    /// An empty tier whose items stand at height `base` of the whole tree.
    /// Nothing where a tier above that height would not fit under
    /// `MAX_HEIGHT`.
    pub fn new(base: u8) -> (tier: Option<Tier<Item>>)
        ensures
            tier is Some <==> base + TIER_HEIGHT <= MAX_HEIGHT,
            tier matches Some(made) ==> {
                &&& made.wf()
                &&& made@ == Seq::<Leaf<Item>>::empty()
                &&& made.spec_base() == base
                &&& !made.spec_is_sealed()
            },
    {
        if base > MAX_HEIGHT - TIER_HEIGHT {
            return None;
        }
        let root = Node::new();
        proof {
            lemma_pow4_values();
            assert(root.leaves(TIER_HEIGHT as nat) =~= Seq::<Leaf<Item>>::empty());
        }
        Some(Tier { base, len: 0, sealed: false, root })
    }

    /// The place in a tier of the item that comes after `count` others: for
    /// each level from the root down, which of the four children to take.
    /// Nothing where the tier has no room for such an item.
    pub fn position_of(count: u64) -> (position: Option<Vec<u8>>)
        ensures
            position is Some <==> count < TIER_CAPACITY,
            position matches Some(steps) ==> {
                &&& steps@ == digits(count as nat, TIER_HEIGHT as nat)
                &&& steps@.len() == TIER_HEIGHT
                &&& forall|i: int| 0 <= i < TIER_HEIGHT ==> #[trigger] steps@[i] < 4
            },
    {
        if count >= TIER_CAPACITY {
            return None;
        }
        let mut steps: Vec<u8> = Vec::new();
        let mut rest = count;
        let mut level = TIER_HEIGHT;
        proof {
            lemma_pow4_values();
        }
        while level > 0
            invariant
                level <= TIER_HEIGHT,
                rest < pow4(level as nat),
                digits(count as nat, TIER_HEIGHT as nat) == steps@ + digits(rest as nat, level as nat),
            decreases level,
        {
            let w = width(level - 1);
            let ghost before = steps@;
            proof {
                lemma_pow4_step(level as nat);
                assert(rest / w < 4 && rest % w < w) by (nonlinear_arith)
                    requires
                        w > 0,
                        0 <= rest < 4 * w,
                ;
            }
            steps.push((rest / w) as u8);
            proof {
                assert(steps@ + digits((rest % w) as nat, (level - 1) as nat) =~= before + digits(
                    rest as nat,
                    level as nat,
                ));
            }
            rest = rest % w;
            level = level - 1;
        }
        proof {
            assert(steps@ + digits(rest as nat, 0) =~= steps@);
            lemma_digits(count as nat, TIER_HEIGHT as nat);
        }
        Some(steps)
    }

    /// Positions are places: the way that `position_of` gives for an index
    /// leads from the root of the tier to its leaf at that index.
    pub proof fn lemma_position(&self, index: nat)
        requires
            self.wf(),
            index < self@.len(),
        ensures
            self.tree().follow(digits(index, TIER_HEIGHT as nat)) == Node::Leaf(
                self@[index as int],
            ),
    {
        self.root.lemma_follow(self.base as nat, TIER_HEIGHT as nat, index);
    }

    /// The height at which the items of the tier stand in the whole tree.
    #[verifier::when_used_as_spec(spec_base)]
    pub fn base(&self) -> (base: u8)
        ensures
            base == self.spec_base(),
    {
        self.base
    }

    /// The number of items in the tier.
    pub fn len(&self) -> (len: u64)
        requires
            self.wf(),
        ensures
            len == self@.len(),
            len <= TIER_CAPACITY,
    {
        proof {
            self.lemma_view();
        }
        self.len
    }

    /// Whether the tier holds as many items as it can.
    pub fn is_full(&self) -> (full: bool)
        requires
            self.wf(),
        ensures
            full == (self@.len() == TIER_CAPACITY),
    {
        self.len == TIER_CAPACITY
    }

    /// Whether the tier was sealed.
    #[verifier::when_used_as_spec(spec_is_sealed)]
    pub fn is_sealed(&self) -> (sealed: bool)
        ensures
            sealed == self.spec_is_sealed(),
    {
        self.sealed
    }

    /// Adds a leaf at the end of the tier and returns its position. A
    /// sealed tier refuses with `AlreadySealed`, a full one with `Full`; a
    /// refusal leaves the tier as it was.
    pub fn insert_leaf(&mut self, leaf: Leaf<Item>, padding: &Padding) -> (result: Result<
        u64,
        Error,
    >)
        requires
            old(self).wf(),
            leaf.wf(),
            padding.wf(),
        ensures
            final(self).wf(),
            final(self).spec_base() == old(self).spec_base(),
            final(self).spec_is_sealed() == old(self).spec_is_sealed(),
            match result {
                Ok(position) => {
                    &&& !old(self).spec_is_sealed()
                    &&& position == old(self)@.len()
                    &&& position < TIER_CAPACITY
                    &&& final(self)@ == old(self)@.push(leaf)
                },
                Err(error) => {
                    &&& *final(self) == *old(self)
                    &&& error == if old(self).spec_is_sealed() {
                        Error::AlreadySealed
                    } else {
                        Error::Full
                    }
                    &&& old(self).spec_is_sealed() || old(self)@.len() == TIER_CAPACITY
                },
            },
    {
        if self.sealed {
            return Err(Error::AlreadySealed);
        }
        if self.len == TIER_CAPACITY {
            return Err(Error::Full);
        }
        proof {
            lemma_pow4_values();
            self.lemma_view();
        }
        match self.root.insert(self.base, TIER_HEIGHT, leaf, padding) {
            Ok(position) => {
                self.len = self.len + 1;
                if self.len == TIER_CAPACITY {
                    self.root.seal(self.base, TIER_HEIGHT, padding);
                }
                Ok(position)
            },
            Err(error) => {
                proof {
                    assert(false);
                }
                Err(error)
            },
        }
    }

    /// Adds an item at the end of the tier, in a leaf that holds it with its
    /// hash, and returns its position. A sealed tier refuses with
    /// `AlreadySealed`, a full one with `Full`; a refusal leaves the tier as
    /// it was.
    pub fn insert(&mut self, item: Item, padding: &Padding) -> (result: Result<u64, Error>)
        requires
            old(self).wf(),
            item.wf(),
            padding.wf(),
        ensures
            final(self).wf(),
            final(self).spec_base() == old(self).spec_base(),
            final(self).spec_is_sealed() == old(self).spec_is_sealed(),
            match result {
                Ok(position) => {
                    &&& !old(self).spec_is_sealed()
                    &&& position == old(self)@.len()
                    &&& position < TIER_CAPACITY
                    &&& final(self)@ == old(self)@.push(Leaf::of(item))
                },
                Err(error) => {
                    &&& *final(self) == *old(self)
                    &&& error == if old(self).spec_is_sealed() {
                        Error::AlreadySealed
                    } else {
                        Error::Full
                    }
                    &&& old(self).spec_is_sealed() || old(self)@.len() == TIER_CAPACITY
                },
            },
    {
        if self.sealed {
            return Err(Error::AlreadySealed);
        }
        if self.len == TIER_CAPACITY {
            return Err(Error::Full);
        }
        self.insert_leaf(Leaf::new(item), padding)
    }

    /// Seals the tier: whatever of it is still active becomes complete, the
    /// places that were never filled count as empty, and the tier takes no
    /// further items. A tier that was sealed before stays as it is.
    pub fn seal(&mut self, padding: &Padding)
        requires
            old(self).wf(),
            padding.wf(),
        ensures
            final(self).wf(),
            final(self).spec_is_sealed(),
            final(self)@ == old(self)@,
            final(self).spec_base() == old(self).spec_base(),
    {
        if !self.sealed {
            self.root.seal(self.base, TIER_HEIGHT, padding);
            self.sealed = true;
        }
    }

    /// The root hash of the tier as it stands, sealed or not.
    pub fn hash(&self, padding: &Padding) -> (h: hash::Hash)
        requires
            self.wf(),
            padding.wf(),
        ensures
            h@ == self.digest(),
    {
        self.root.hash(self.base, TIER_HEIGHT, padding)
    }

    /// The root hash that a sealed tier keeps, without any computing;
    /// nothing while the tier is neither sealed nor full.
    pub fn cached(&self) -> (h: Option<hash::Hash>)
        requires
            self.wf(),
        ensures
            h is Some <==> self.spec_is_sealed() || self@.len() == TIER_CAPACITY,
            h matches Some(kept) ==> kept@ == self.digest(),
    {
        proof {
            self.root.lemma_digest(self.base as nat, TIER_HEIGHT as nat);
            self.root.lemma_leaves(self.base as nat, TIER_HEIGHT as nat);
            lemma_pow4_values();
        }
        match &self.root {
            Node::Complete { hash, .. } => Some(*hash),
            _ => None,
        }
    }

    /// The root hash that the tier would have with one more item at its end,
    /// an item that hashes to `next`. Nothing where the tier takes no item.
    pub fn hash_with(&self, padding: &Padding, next: hash::Hash) -> (h: Option<hash::Hash>)
        requires
            self.wf(),
            padding.wf(),
        ensures
            h is Some <==> !self.spec_is_sealed() && self@.len() < TIER_CAPACITY,
            h matches Some(found) ==> found@ == root_of(
                self.spec_base() as nat,
                TIER_HEIGHT as nat,
                digests_of(self@).push(next@),
            ),
    {
        proof {
            self.lemma_view();
        }
        if self.sealed || self.len == TIER_CAPACITY {
            None
        } else {
            proof {
                lemma_pow4_values();
            }
            Some(self.root.hash_with(self.base, TIER_HEIGHT, padding, next))
        }
    }

    /// The leaf at `index`, or nothing where the tier has no such leaf.
    pub fn get(&self, index: u64) -> (leaf: Option<&Leaf<Item>>)
        requires
            self.wf(),
        ensures
            leaf is Some <==> index < self@.len(),
            leaf matches Some(found) ==> *found == self@[index as int],
    {
        self.root.get(self.base, TIER_HEIGHT, index)
    }

    /// Forgets the item at `index`: its leaf keeps the hash and nothing
    /// else, so the root hash stays. Returns whether there was an item to
    /// forget, and `UnknownPosition` where the tier has no such leaf.
    pub fn forget(&mut self, index: u64) -> (result: Result<bool, Error>)
        requires
            old(self).wf(),
        ensures
            final(self).wf(),
            final(self).spec_base() == old(self).spec_base(),
            final(self).spec_is_sealed() == old(self).spec_is_sealed(),
            final(self).digest() == old(self).digest(),
            match result {
                Ok(forgot) => {
                    &&& index < old(self)@.len()
                    &&& forgot == (old(self)@[index as int] is Complete)
                    &&& final(self)@ == old(self)@.update(
                        index as int,
                        old(self)@[index as int].forgotten(),
                    )
                },
                Err(error) => {
                    &&& index >= old(self)@.len()
                    &&& error == Error::UnknownPosition
                    &&& *final(self) == *old(self)
                },
            },
    {
        let result = self.root.forget(self.base, TIER_HEIGHT, index);
        proof {
            old(self).root.lemma_digest(self.base as nat, TIER_HEIGHT as nat);
            self.root.lemma_digest(self.base as nat, TIER_HEIGHT as nat);
        }
        result
    }

    /// Puts `leaf` in the place of the leaf at `index`, which has the same
    /// hash, and returns the leaf that stood there.
    pub(crate) fn swap(&mut self, index: u64, leaf: Leaf<Item>) -> (held: Leaf<Item>)
        requires
            old(self).wf(),
            index < old(self)@.len(),
            leaf.wf(),
            leaf.digest() == old(self)@[index as int].digest(),
        ensures
            final(self).wf(),
            final(self).spec_base() == old(self).spec_base(),
            final(self).spec_is_sealed() == old(self).spec_is_sealed(),
            final(self).digest() == old(self).digest(),
            final(self)@ == old(self)@.update(index as int, leaf),
            held == old(self)@[index as int],
    {
        let held = self.root.swap(self.base, TIER_HEIGHT, index, leaf);
        proof {
            old(self).root.lemma_digest(self.base as nat, TIER_HEIGHT as nat);
            self.root.lemma_digest(self.base as nat, TIER_HEIGHT as nat);
        }
        held
    }

    /// The path that proves the leaf at `index`: for each of the eight
    /// levels, from the lowest, the hashes of the three siblings met there.
    /// Nothing where the tier has no such leaf.
    pub fn path(&self, index: u64, padding: &Padding) -> (path: Option<Vec<[hash::Hash; 3]>>)
        requires
            self.wf(),
            padding.wf(),
        ensures
            path is Some <==> index < self@.len(),
            path matches Some(found) ==> path_view(found@) == path_of(
                self.spec_base() as nat,
                TIER_HEIGHT as nat,
                digests_of(self@),
                index as nat,
            ),
    {
        self.root.path(self.base, TIER_HEIGHT, index, padding)
    }

    /// The path that the leaf at `index` would have if the tier had one more
    /// item at its end, an item that hashes to `next`; `index` may be the
    /// place of that item. Nothing where the tier takes no item, or where
    /// `index` lies beyond that place.
    pub fn path_with(&self, index: u64, padding: &Padding, next: hash::Hash) -> (path: Option<
        Vec<[hash::Hash; 3]>,
    >)
        requires
            self.wf(),
            padding.wf(),
        ensures
            path is Some <==> !self.spec_is_sealed() && self@.len() < TIER_CAPACITY && index
                <= self@.len(),
            path matches Some(found) ==> path_view(found@) == path_of(
                self.spec_base() as nat,
                TIER_HEIGHT as nat,
                digests_of(self@).push(next@),
                index as nat,
            ),
    {
        proof {
            self.lemma_view();
        }
        if self.sealed || self.len == TIER_CAPACITY {
            None
        } else {
            proof {
                lemma_pow4_values();
            }
            self.root.path_with(self.base, TIER_HEIGHT, index, padding, next)
        }
    }
}

} // verus!
