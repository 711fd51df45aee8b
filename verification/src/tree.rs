//! The tree as a whole: epochs of blocks of commitments, addressed by
//! position, with insertion, the ending of blocks and epochs, forgetting, the
//! root hash and proofs of membership.
use crate::complete::Complete;
use crate::error::Error;
use crate::hash;
use crate::hash::{empty_digest, item_digest, Commitment, GetHash, Padding, MAX_HEIGHT};
use crate::leaf::Leaf;
use crate::merkle::{
    climb, joined, lemma_joined_index, lemma_joined_len, lemma_path_leads_to_root,
    lemma_pow4_step, lemma_pow4_values, lemma_root_of_empty, lemma_root_of_joined,
    lemma_root_of_padded, lemma_root_of_push_empty, padded, path_of, path_view, pow4, root_of,
    roots_of, uniform, width,
};
use crate::node::digests_of;
use crate::tier::{Tier, TIER_CAPACITY, TIER_HEIGHT};
use vstd::prelude::*;

verus! {

/// The height at which commitments stand.
pub const BLOCK_BASE: u8 = 0;

/// The height at which the roots of blocks stand.
pub const EPOCH_BASE: u8 = 8;

/// The height at which the roots of epochs stand.
pub const ETERNITY_BASE: u8 = 16;

/// A block that was ended.
pub type Block = Complete<Commitment>;

/// An epoch that was ended.
pub type Epoch = Complete<Complete<Commitment>>;

/// The leaves of one block, in the order in which they were inserted.
pub type BlockView = Seq<Leaf<Commitment>>;

/// The blocks of one epoch, in order.
pub type EpochView = Seq<Seq<Leaf<Commitment>>>;

/// The epochs of the tree, in order. The last epoch is the current one, and
/// its last block is the current block.
pub type TreeView = Seq<Seq<Seq<Leaf<Commitment>>>>;

/// The root hash of a block.
pub open spec fn block_root(block: BlockView) -> Seq<u8> {
    root_of(BLOCK_BASE as nat, TIER_HEIGHT as nat, digests_of(block))
}

/// The root hashes of the blocks of an epoch.
pub open spec fn block_roots(epoch: EpochView) -> Seq<Seq<u8>> {
    Seq::new(epoch.len(), |i: int| block_root(epoch[i]))
}

/// The root hash of an epoch.
pub open spec fn epoch_root(epoch: EpochView) -> Seq<u8> {
    root_of(EPOCH_BASE as nat, TIER_HEIGHT as nat, block_roots(epoch))
}

/// The root hashes of the epochs of a tree.
pub open spec fn epoch_roots(tree: TreeView) -> Seq<Seq<u8>> {
    Seq::new(tree.len(), |i: int| epoch_root(tree[i]))
}

/// The root hash of a tree: the root of the roots of its epochs, each the
/// root of the roots of its blocks, each the root of the hashes of its
/// commitments, with empty places to the right at every level.
pub open spec fn tree_root(tree: TreeView) -> Seq<u8> {
    root_of(ETERNITY_BASE as nat, TIER_HEIGHT as nat, epoch_roots(tree))
}

/// The tree with one more leaf at the end of its current block.
pub open spec fn inserted(tree: TreeView, leaf: Leaf<Commitment>) -> TreeView {
    let epoch = tree.last();
    tree.update(
        tree.len() - 1,
        epoch.update(epoch.len() - 1, epoch.last().push(leaf)),
    )
}

/// The tree after its current block was ended: the current epoch has one
/// more block, which is empty.
pub open spec fn block_ended(tree: TreeView) -> TreeView {
    tree.update(tree.len() - 1, tree.last().push(Seq::empty()))
}

/// The tree after its current epoch was ended: it has one more epoch, of one
/// empty block.
pub open spec fn epoch_ended(tree: TreeView) -> TreeView {
    tree.push(seq![Seq::empty()])
}

/// The leaves of a block that stands in an epoch.
pub open spec fn block_of(leaf: Leaf<Block>) -> BlockView {
    match leaf {
        Leaf::Complete(block, _) => block@,
        Leaf::Forgotten(_) => Seq::empty(),
    }
}

/// The blocks that stand in an epoch.
pub open spec fn blocks_of(leaves: Seq<Leaf<Block>>) -> EpochView {
    Seq::new(leaves.len(), |i: int| block_of(leaves[i]))
}

/// The blocks of an epoch that stands in the tree.
pub open spec fn epoch_of(leaf: Leaf<Epoch>) -> EpochView {
    match leaf {
        Leaf::Complete(epoch, _) => blocks_of(epoch@),
        Leaf::Forgotten(_) => Seq::empty(),
    }
}

/// The epochs that stand in the tree.
pub open spec fn epochs_of(leaves: Seq<Leaf<Epoch>>) -> TreeView {
    Seq::new(leaves.len(), |i: int| epoch_of(leaves[i]))
}

/// Whether each leaf of an epoch holds a well-formed block over commitments.
pub open spec fn blocks_ok(leaves: Seq<Leaf<Block>>) -> bool {
    forall|i: int|
        0 <= i < leaves.len() ==> {
            &&& (#[trigger] leaves[i]).wf()
            &&& leaves[i] matches Leaf::Complete(block, _) && block.spec_base() == BLOCK_BASE
        }
}

/// Whether each leaf of the tree holds a well-formed epoch over such blocks.
pub open spec fn epochs_ok(leaves: Seq<Leaf<Epoch>>) -> bool {
    forall|i: int|
        0 <= i < leaves.len() ==> {
            &&& (#[trigger] leaves[i]).wf()
            &&& leaves[i] matches Leaf::Complete(epoch, _) && epoch.spec_base() == EPOCH_BASE
                && blocks_ok(epoch@)
        }
}

/// The hashes of the leaves of an epoch are the roots of its blocks.
pub proof fn lemma_block_digests(leaves: Seq<Leaf<Block>>)
    requires
        blocks_ok(leaves),
    ensures
        digests_of(leaves) == block_roots(blocks_of(leaves)),
{
    assert forall|i: int| 0 <= i < leaves.len() implies #[trigger] digests_of(leaves)[i]
        == block_roots(blocks_of(leaves))[i] by {
        assert(leaves[i].wf());
        let block = leaves[i]->Complete_0;
        block.lemma_tier();
    }
    assert(digests_of(leaves) =~= block_roots(blocks_of(leaves)));
}

/// The hashes of the leaves of the tree are the roots of its epochs.
pub proof fn lemma_epoch_digests(leaves: Seq<Leaf<Epoch>>)
    requires
        epochs_ok(leaves),
    ensures
        digests_of(leaves) == epoch_roots(epochs_of(leaves)),
{
    assert forall|i: int| 0 <= i < leaves.len() implies #[trigger] digests_of(leaves)[i]
        == epoch_roots(epochs_of(leaves))[i] by {
        assert(leaves[i].wf());
        let epoch = leaves[i]->Complete_0;
        epoch.lemma_tier();
        lemma_block_digests(epoch@);
    }
    assert(digests_of(leaves) =~= epoch_roots(epochs_of(leaves)));
}

/// Ending a block leaves the root as it is: an empty block at the end of an
/// epoch that has room for it hashes as no block at all.
pub proof fn lemma_end_block_keeps_root(tree: TreeView)
    requires
        tree.len() > 0,
        tree.last().len() < TIER_CAPACITY,
    ensures
        tree_root(block_ended(tree)) == tree_root(tree),
{
    let epoch = tree.last();
    let none = Seq::<Leaf<Commitment>>::empty();
    lemma_pow4_values();
    lemma_root_of_empty(BLOCK_BASE as nat, TIER_HEIGHT as nat);
    assert(digests_of(none) =~= Seq::<Seq<u8>>::empty());
    assert(block_roots(epoch.push(none)) =~= block_roots(epoch).push(
        empty_digest(EPOCH_BASE as nat),
    ));
    lemma_root_of_push_empty(EPOCH_BASE as nat, TIER_HEIGHT as nat, block_roots(epoch));
    assert(epoch_roots(block_ended(tree)) =~= epoch_roots(tree));
}

/// Ending an epoch leaves the root as it is: an epoch of one empty block at
/// the end of a tree that has room for it hashes as no epoch at all.
pub proof fn lemma_end_epoch_keeps_root(tree: TreeView)
    requires
        tree.len() < TIER_CAPACITY,
    ensures
        tree_root(epoch_ended(tree)) == tree_root(tree),
{
    let none = Seq::<Leaf<Commitment>>::empty();
    let fresh: EpochView = seq![none];
    let no_roots = Seq::<Seq<u8>>::empty();
    lemma_pow4_values();
    lemma_root_of_empty(BLOCK_BASE as nat, TIER_HEIGHT as nat);
    lemma_root_of_empty(EPOCH_BASE as nat, TIER_HEIGHT as nat);
    assert(digests_of(none) =~= Seq::<Seq<u8>>::empty());
    assert(block_roots(fresh) =~= no_roots.push(empty_digest(EPOCH_BASE as nat)));
    lemma_root_of_push_empty(EPOCH_BASE as nat, TIER_HEIGHT as nat, no_roots);
    assert(epoch_root(fresh) == empty_digest(ETERNITY_BASE as nat));
    assert(epoch_roots(epoch_ended(tree)) =~= epoch_roots(tree).push(
        empty_digest(ETERNITY_BASE as nat),
    ));
    lemma_root_of_push_empty(ETERNITY_BASE as nat, TIER_HEIGHT as nat, epoch_roots(tree));
}

/// The place of a commitment in the tree: its epoch, its block within the
/// epoch, and its own place within the block.
#[derive(Clone, Copy, Debug, PartialEq, Eq, Structural)]
pub struct Position {
    pub epoch: u16,
    pub block: u16,
    pub commitment: u16,
}

impl Position {
    /// The position as one number: positions in the order of their numbers
    /// are in the order of the tree.
    pub open spec fn spec_index(self) -> nat {
        (self.epoch as nat) * 0x1_0000_0000 + (self.block as nat) * 0x1_0000
            + self.commitment as nat
    }

    /// The position as one number.
    pub fn index(self) -> (index: u64)
        ensures
            index == self.spec_index(),
            index < 0x1_0000_0000_0000,
    {
        (self.epoch as u64) * 0x1_0000_0000 + (self.block as u64) * 0x1_0000
            + self.commitment as u64
    }

    /// The position with the given number, or nothing where the number is
    /// beyond the last position of the tree.
    pub fn from_index(index: u64) -> (position: Option<Position>)
        ensures
            position is Some <==> index < 0x1_0000_0000_0000,
            position matches Some(found) ==> found.spec_index() == index,
    {
        if index < 0x1_0000_0000_0000 {
            Some(
                Position {
                    epoch: (index / 0x1_0000_0000) as u16,
                    block: ((index / 0x1_0000) % 0x1_0000) as u16,
                    commitment: (index % 0x1_0000) as u16,
                },
            )
        } else {
            None
        }
    }

    /// Whether the position comes before `other` in the tree.
    pub open spec fn before(self, other: Position) -> bool {
        ||| self.epoch < other.epoch
        ||| self.epoch == other.epoch && self.block < other.block
        ||| self.epoch == other.epoch && self.block == other.block && self.commitment
            < other.commitment
    }

    /// The number of a position grows with the position, and names it.
    pub proof fn lemma_index_order(self, other: Position)
        ensures
            self.before(other) <==> self.spec_index() < other.spec_index(),
            self.spec_index() == other.spec_index() <==> self == other,
    {
    }
}

/// Whether the tree has a leaf at the position.
pub open spec fn contains(tree: TreeView, position: Position) -> bool {
    &&& position.epoch < tree.len()
    &&& position.block < tree[position.epoch as int].len()
    &&& position.commitment < tree[position.epoch as int][position.block as int].len()
}

/// The leaf at a position.
pub open spec fn leaf_at(tree: TreeView, position: Position) -> Leaf<Commitment> {
    tree[position.epoch as int][position.block as int][position.commitment as int]
}

/// The tree with `leaf` at the position.
pub open spec fn with_leaf(tree: TreeView, position: Position, leaf: Leaf<Commitment>) -> TreeView {
    let epoch = tree[position.epoch as int];
    let block = epoch[position.block as int];
    tree.update(
        position.epoch as int,
        epoch.update(position.block as int, block.update(position.commitment as int, leaf)),
    )
}

/// The tree after the commitment at the position was forgotten.
pub open spec fn forgotten(tree: TreeView, position: Position) -> TreeView {
    with_leaf(tree, position, leaf_at(tree, position).forgotten())
}

/// The path that proves the leaf at a position: the path within its block,
/// then that of the block within its epoch, then that of the epoch within
/// the tree; twenty-four levels, lowest first.
pub open spec fn tree_path(tree: TreeView, position: Position) -> Seq<Seq<Seq<u8>>> {
    let epoch = tree[position.epoch as int];
    let block = epoch[position.block as int];
    path_of(
        BLOCK_BASE as nat,
        TIER_HEIGHT as nat,
        digests_of(block),
        position.commitment as nat,
    ) + path_of(
        EPOCH_BASE as nat,
        TIER_HEIGHT as nat,
        block_roots(epoch),
        position.block as nat,
    ) + path_of(
        ETERNITY_BASE as nat,
        TIER_HEIGHT as nat,
        epoch_roots(tree),
        position.epoch as nat,
    )
}

/// The root that a path of twenty-four levels leads to, from the hash of a
/// leaf at a position: up through the block, the epoch and the tree.
pub open spec fn ascend(leaf: Seq<u8>, position: Position, path: Seq<Seq<Seq<u8>>>) -> Seq<u8> {
    let block = climb(
        BLOCK_BASE as nat,
        TIER_HEIGHT as nat,
        leaf,
        position.commitment as nat,
        path.subrange(0, 8),
    );
    let epoch = climb(
        EPOCH_BASE as nat,
        TIER_HEIGHT as nat,
        block,
        position.block as nat,
        path.subrange(8, 16),
    );
    climb(
        ETERNITY_BASE as nat,
        TIER_HEIGHT as nat,
        epoch,
        position.epoch as nat,
        path.subrange(16, 24),
    )
}

/// Whether no tier of the tree holds more than a tier can.
pub open spec fn fits(tree: TreeView) -> bool {
    &&& tree.len() <= TIER_CAPACITY
    &&& forall|e: int| 0 <= e < tree.len() ==> (#[trigger] tree[e]).len() <= TIER_CAPACITY
    &&& forall|e: int, b: int|
        0 <= e < tree.len() && 0 <= b < tree[e].len() ==> (#[trigger] tree[e][b]).len()
            <= TIER_CAPACITY
}

/// Forgetting leaves the root as it is: the leaf keeps its hash.
pub proof fn lemma_forget_keeps_root(tree: TreeView, position: Position)
    requires
        contains(tree, position),
    ensures
        tree_root(forgotten(tree, position)) == tree_root(tree),
{
    let after = forgotten(tree, position);
    let e = position.epoch as int;
    let b = position.block as int;
    assert(digests_of(after[e][b]) =~= digests_of(tree[e][b]));
    assert(block_roots(after[e]) =~= block_roots(tree[e]));
    assert(epoch_roots(after) =~= epoch_roots(tree));
}

/// Whether two trees hold the same hashes at the same positions, whatever
/// each of them has kept and forgotten.
pub open spec fn same_hashes(one: TreeView, other: TreeView) -> bool {
    &&& one.len() == other.len()
    &&& forall|e: int| 0 <= e < one.len() ==> (#[trigger] one[e]).len() == other[e].len()
    &&& forall|e: int, b: int|
        0 <= e < one.len() && 0 <= b < one[e].len() ==> digests_of(#[trigger] one[e][b])
            == digests_of(other[e][b])
}

/// The root depends on the hashes alone: two trees that hold the same hashes
/// at the same positions have the same root, whatever each has forgotten.
pub proof fn lemma_same_hashes_same_root(one: TreeView, other: TreeView)
    requires
        same_hashes(one, other),
    ensures
        tree_root(one) == tree_root(other),
{
    assert forall|e: int| 0 <= e < one.len() implies epoch_root(#[trigger] one[e]) == epoch_root(
        other[e],
    ) by {
        assert forall|b: int| 0 <= b < one[e].len() implies block_root(#[trigger] one[e][b])
            == block_root(other[e][b]) by {}
        assert(block_roots(one[e]) =~= block_roots(other[e]));
    }
    assert(epoch_roots(one) =~= epoch_roots(other));
}

/// A tree holds the same hashes after forgetting as before.
pub proof fn lemma_forget_same_hashes(tree: TreeView, position: Position)
    requires
        contains(tree, position),
    ensures
        same_hashes(forgotten(tree, position), tree),
{
    let after = forgotten(tree, position);
    assert forall|e: int, b: int| 0 <= e < after.len() && 0 <= b < after[e].len() implies digests_of(
        #[trigger] after[e][b],
    ) == digests_of(tree[e][b]) by {
        assert(digests_of(after[e][b]) =~= digests_of(tree[e][b]));
    }
}

/// Forgetting leaves every path as it is: a proof that was had for one
/// position stays good when another is forgotten.
pub proof fn lemma_forget_keeps_paths(tree: TreeView, position: Position, other: Position)
    requires
        contains(tree, position),
        contains(tree, other),
    ensures
        tree_path(forgotten(tree, position), other) == tree_path(tree, other),
{
    let after = forgotten(tree, position);
    let e = position.epoch as int;
    let b = position.block as int;
    assert(digests_of(after[e][b]) =~= digests_of(tree[e][b]));
    assert(block_roots(after[e]) =~= block_roots(tree[e]));
    assert(epoch_roots(after) =~= epoch_roots(tree));
    let f = other.epoch as int;
    let g = other.block as int;
    assert(digests_of(after[f][g]) =~= digests_of(tree[f][g]));
    assert(block_roots(after[f]) =~= block_roots(tree[f]));
}

/// Forgetting is idempotent: to forget what was forgotten changes nothing.
pub proof fn lemma_forget_twice(tree: TreeView, position: Position)
    requires
        contains(tree, position),
    ensures
        contains(forgotten(tree, position), position),
        leaf_at(forgotten(tree, position), position) is Forgotten,
        forgotten(forgotten(tree, position), position) == forgotten(tree, position),
{
    let once = forgotten(tree, position);
    assert(forgotten(once, position) =~~= once);
}

/// Forgetting one position leaves every other leaf as it is, and nothing
/// comes or goes.
pub proof fn lemma_forget_elsewhere(tree: TreeView, position: Position, other: Position)
    requires
        contains(tree, position),
    ensures
        contains(forgotten(tree, position), other) == contains(tree, other),
        contains(tree, other) && other != position ==> leaf_at(forgotten(tree, position), other)
            == leaf_at(tree, other),
{
}

/// A path recombines to the root: from the hash of the leaf at a position,
/// the path that proves the leaf leads to the root of the tree.
pub proof fn lemma_path_to_root(tree: TreeView, position: Position)
    requires
        fits(tree),
        contains(tree, position),
    ensures
        tree_path(tree, position).len() == 24,
        ascend(leaf_at(tree, position).digest(), position, tree_path(tree, position)) == tree_root(
            tree,
        ),
{
    let e = position.epoch as int;
    let b = position.block as int;
    let c = position.commitment as int;
    let leaves = digests_of(tree[e][b]);
    let blocks = block_roots(tree[e]);
    let epochs = epoch_roots(tree);
    let low = path_of(BLOCK_BASE as nat, TIER_HEIGHT as nat, leaves, c as nat);
    let mid = path_of(EPOCH_BASE as nat, TIER_HEIGHT as nat, blocks, b as nat);
    let top = path_of(ETERNITY_BASE as nat, TIER_HEIGHT as nat, epochs, e as nat);
    let path = tree_path(tree, position);
    lemma_pow4_values();
    lemma_path_leads_to_root(BLOCK_BASE as nat, TIER_HEIGHT as nat, leaves, c as nat);
    lemma_path_leads_to_root(EPOCH_BASE as nat, TIER_HEIGHT as nat, blocks, b as nat);
    lemma_path_leads_to_root(ETERNITY_BASE as nat, TIER_HEIGHT as nat, epochs, e as nat);
    assert(path.subrange(0, 8) =~= low);
    assert(path.subrange(8, 16) =~= mid);
    assert(path.subrange(16, 24) =~= top);
}

/// The leaves of a block as the leaves of a whole tier: the hashes of the
/// commitments, and empty leaves after them.
pub open spec fn flat_block(block: BlockView) -> Seq<Seq<u8>> {
    padded(BLOCK_BASE as nat, digests_of(block), pow4(TIER_HEIGHT as nat))
}

/// The blocks of an epoch, each as the leaves of a whole tier.
pub open spec fn flat_blocks(epoch: EpochView) -> Seq<Seq<Seq<u8>>> {
    Seq::new(epoch.len(), |i: int| flat_block(epoch[i]))
}

/// The leaves of an epoch as the leaves of two tiers, one above the other:
/// block after block, and empty leaves after them.
pub open spec fn flat_epoch(epoch: EpochView) -> Seq<Seq<u8>> {
    padded(BLOCK_BASE as nat, joined(flat_blocks(epoch)), pow4(2 * TIER_HEIGHT as nat))
}

/// The epochs of a tree, each as the leaves of two tiers.
pub open spec fn flat_epochs(tree: TreeView) -> Seq<Seq<Seq<u8>>> {
    Seq::new(tree.len(), |i: int| flat_epoch(tree[i]))
}

/// All the leaves of a tree in one row, epoch after epoch: the hash of each
/// commitment stands at the index of its position, and empty leaves stand
/// where no commitment is.
pub open spec fn flat_tree(tree: TreeView) -> Seq<Seq<u8>> {
    joined(flat_epochs(tree))
}

proof fn lemma_flat_epoch(epoch: EpochView)
    requires
        epoch.len() <= TIER_CAPACITY,
        forall|b: int| 0 <= b < epoch.len() ==> (#[trigger] epoch[b]).len() <= TIER_CAPACITY,
    ensures
        uniform(flat_blocks(epoch), pow4(TIER_HEIGHT as nat)),
        joined(flat_blocks(epoch)).len() == epoch.len() * pow4(TIER_HEIGHT as nat),
        flat_epoch(epoch).len() == pow4(2 * TIER_HEIGHT as nat),
        root_of(BLOCK_BASE as nat, 2 * TIER_HEIGHT as nat, flat_epoch(epoch)) == epoch_root(epoch),
{
    let blocks = flat_blocks(epoch);
    let all = joined(blocks);
    lemma_pow4_values();
    assert forall|b: int| 0 <= b < blocks.len() implies (#[trigger] blocks[b]).len() == pow4(
        TIER_HEIGHT as nat,
    ) && root_of(BLOCK_BASE as nat, TIER_HEIGHT as nat, blocks[b]) == block_root(epoch[b]) by {
        assert(epoch[b].len() <= TIER_CAPACITY);
        lemma_root_of_padded(
            BLOCK_BASE as nat,
            TIER_HEIGHT as nat,
            digests_of(epoch[b]),
            pow4(TIER_HEIGHT as nat),
        );
    }
    lemma_joined_len(blocks, pow4(TIER_HEIGHT as nat));
    assert(all.len() <= pow4(2 * TIER_HEIGHT as nat)) by (nonlinear_arith)
        requires
            all.len() == epoch.len() * 65536,
            epoch.len() <= 65536,
            pow4(2 * TIER_HEIGHT as nat) == 0x1_0000_0000,
    ;
    lemma_root_of_joined(BLOCK_BASE as nat, TIER_HEIGHT as nat, TIER_HEIGHT as nat, blocks);
    assert(roots_of(BLOCK_BASE as nat, TIER_HEIGHT as nat, blocks) =~= block_roots(epoch));
    lemma_root_of_padded(
        BLOCK_BASE as nat,
        2 * TIER_HEIGHT as nat,
        all,
        pow4(2 * TIER_HEIGHT as nat),
    );
}

/// The tiers are one tree: the root of a tree is the root of a single tree
/// of twenty-four levels over all its leaves in one row, the hash of each
/// commitment at the index of its position and empty leaves everywhere
/// else. So the root depends on nothing but which commitment stands at
/// which position.
pub proof fn lemma_one_tree(tree: TreeView)
    requires
        fits(tree),
    ensures
        tree_root(tree) == root_of(BLOCK_BASE as nat, 3 * TIER_HEIGHT as nat, flat_tree(tree)),
{
    let epochs = flat_epochs(tree);
    lemma_pow4_values();
    assert forall|e: int| 0 <= e < epochs.len() implies (#[trigger] epochs[e]).len() == pow4(
        2 * TIER_HEIGHT as nat,
    ) && root_of(BLOCK_BASE as nat, 2 * TIER_HEIGHT as nat, epochs[e]) == epoch_root(tree[e]) by {
        assert(tree[e].len() <= TIER_CAPACITY);
        assert forall|b: int| 0 <= b < tree[e].len() implies (#[trigger] tree[e][b]).len()
            <= TIER_CAPACITY by {}
        lemma_flat_epoch(tree[e]);
    }
    lemma_root_of_joined(BLOCK_BASE as nat, TIER_HEIGHT as nat, 2 * TIER_HEIGHT as nat, epochs);
    assert(roots_of(BLOCK_BASE as nat, 2 * TIER_HEIGHT as nat, epochs) =~= epoch_roots(tree));
}

/// In the one row of all leaves, the hash of the leaf at a position stands
/// at the index of the position.
pub proof fn lemma_flat_position(tree: TreeView, position: Position)
    requires
        fits(tree),
        contains(tree, position),
    ensures
        position.spec_index() < flat_tree(tree).len(),
        flat_tree(tree)[position.spec_index() as int] == leaf_at(tree, position).digest(),
{
    let e = position.epoch as int;
    let b = position.block as int;
    let c = position.commitment as int;
    let epochs = flat_epochs(tree);
    let blocks = flat_blocks(tree[e]);
    lemma_pow4_values();
    assert forall|i: int| 0 <= i < epochs.len() implies (#[trigger] epochs[i]).len() == pow4(
        2 * TIER_HEIGHT as nat,
    ) by {
        assert(tree[i].len() <= TIER_CAPACITY);
        assert forall|j: int| 0 <= j < tree[i].len() implies (#[trigger] tree[i][j]).len()
            <= TIER_CAPACITY by {}
        lemma_flat_epoch(tree[i]);
    }
    assert(tree[e].len() <= TIER_CAPACITY);
    assert forall|j: int| 0 <= j < tree[e].len() implies (#[trigger] tree[e][j]).len()
        <= TIER_CAPACITY by {}
    lemma_flat_epoch(tree[e]);
    assert(tree[e][b].len() <= TIER_CAPACITY);
    let within = b * 65536 + c;
    assert(0 <= within < tree[e].len() * 65536 && within < 0x1_0000_0000) by (nonlinear_arith)
        requires
            0 <= b < tree[e].len() <= 65536,
            0 <= c < 65536,
            within == b * 65536 + c,
    ;
    lemma_joined_index(epochs, pow4(2 * TIER_HEIGHT as nat), e, within);
    lemma_joined_index(blocks, pow4(TIER_HEIGHT as nat), b, c);
    assert(position.spec_index() == e * 0x1_0000_0000 + within);
    assert(epochs[e][within] == joined(blocks)[within]);
    assert(blocks[b][c] == digests_of(tree[e][b])[c]);
}

/// A proof that a commitment stands at a position of the tree: the
/// commitment, the position, and the sibling hashes on the way from the leaf
/// to the root, three for each of the twenty-four levels, lowest first.
#[derive(Clone, Debug, PartialEq, Eq)]
pub struct Proof {
    pub position: Position,
    pub commitment: Commitment,
    pub path: Vec<[hash::Hash; 3]>,
}

/// The number of levels that a proof passes.
pub const PROOF_LEN: usize = 24;

fn climb_up(
    base: u8,
    height: u8,
    leaf: hash::Hash,
    index: u64,
    path: &Vec<[hash::Hash; 3]>,
    offset: usize,
) -> (h: hash::Hash)
    requires
        base + height <= MAX_HEIGHT,
        height <= TIER_HEIGHT,
        offset + TIER_HEIGHT <= path.len(),
        index < pow4(height as nat),
    ensures
        h@ == climb(
            base as nat,
            height as nat,
            leaf@,
            index as nat,
            path_view(path@).subrange(offset as int, offset + TIER_HEIGHT),
        ),
    decreases height,
{
    if height == 0 {
        return leaf;
    }
    let w = width(height - 1);
    let child = index / w;
    let rest = index % w;
    proof {
        lemma_pow4_step(height as nat);
        assert(index == child * w + rest && 0 <= rest < w && 0 <= child < 4) by (nonlinear_arith)
            requires
                child == index / w,
                rest == index % w,
                w > 0,
                0 <= index < 4 * w,
        ;
    }
    let up = climb_up(base, height - 1, leaf, rest, path, offset);
    let beside = path[offset + (height - 1) as usize];
    let all = if child == 0 {
        [up, beside[0], beside[1], beside[2]]
    } else if child == 1 {
        [beside[0], up, beside[1], beside[2]]
    } else if child == 2 {
        [beside[0], beside[1], up, beside[2]]
    } else {
        [beside[0], beside[1], beside[2], up]
    };
    proof {
        let levels = path_view(path@).subrange(offset as int, offset + TIER_HEIGHT);
        let found = levels[height - 1].insert(child as int, up@);
        assert(levels[height - 1] == crate::merkle::triple_view(beside));
        assert(found[0] == all[0]@ && found[1] == all[1]@ && found[2] == all[2]@ && found[3]
            == all[3]@);
    }
    hash::hash(base + height, &all)
}

impl Proof {
    /// The root hash that the proof leads to.
    pub open spec fn root_digest(&self) -> Seq<u8> {
        ascend(item_digest(self.commitment@), self.position, path_view(self.path@))
    }

    /// The root hash that the proof leads to: the hash of the commitment,
    /// combined level by level with the siblings of the path. Nothing where
    /// the path has not twenty-four levels.
    pub fn root(&self) -> (root: Option<hash::Hash>)
        ensures
            root is Some <==> self.path.len() == PROOF_LEN,
            root matches Some(found) ==> found@ == self.root_digest(),
    {
        if self.path.len() != PROOF_LEN {
            return None;
        }
        proof {
            lemma_pow4_values();
        }
        let leaf = self.commitment.hash();
        let block = climb_up(
            BLOCK_BASE,
            TIER_HEIGHT,
            leaf,
            self.position.commitment as u64,
            &self.path,
            0,
        );
        let epoch = climb_up(
            EPOCH_BASE,
            TIER_HEIGHT,
            block,
            self.position.block as u64,
            &self.path,
            8,
        );
        let root = climb_up(
            ETERNITY_BASE,
            TIER_HEIGHT,
            epoch,
            self.position.epoch as u64,
            &self.path,
            16,
        );
        Some(root)
    }

    /// Checks the proof against a root hash: `RootMismatch` where the proof
    /// does not lead to it.
    pub fn verify(&self, root: &hash::Hash) -> (result: Result<(), Error>)
        ensures
            result is Ok <==> self.path.len() == PROOF_LEN && self.root_digest() == root@,
            result matches Err(error) ==> error == Error::RootMismatch,
    {
        match self.root() {
            Some(found) => if found == *root {
                Ok(())
            } else {
                Err(Error::RootMismatch)
            },
            None => Err(Error::RootMismatch),
        }
    }
}

/// The tiered commitment tree.
#[derive(Debug)]
pub struct Tree {
    padding: Padding,
    eternity: Tier<Epoch>,
    epoch: Tier<Block>,
    block: Tier<Commitment>,
}

impl View for Tree {
    type V = TreeView;

    /// The epochs of the tree: those that were ended, and then the current
    /// one, which holds the blocks that were ended in it and then the
    /// current block.
    closed spec fn view(&self) -> TreeView {
        epochs_of(self.eternity@).push(blocks_of(self.epoch@).push(self.block@))
    }
}

impl Tree {
    /// The invariant of the tree: each of its three tiers is well formed,
    /// stands at its height, and was not sealed; the tree and the current
    /// epoch have room for the epoch and the block that are current; and
    /// what was ended is held whole.
    pub closed spec fn wf(&self) -> bool {
        &&& self.padding.wf()
        &&& self.eternity.wf()
        &&& self.eternity.spec_base() == ETERNITY_BASE
        &&& !self.eternity.spec_is_sealed()
        &&& self.eternity@.len() < TIER_CAPACITY
        &&& epochs_ok(self.eternity@)
        &&& self.epoch.wf()
        &&& self.epoch.spec_base() == EPOCH_BASE
        &&& !self.epoch.spec_is_sealed()
        &&& self.epoch@.len() < TIER_CAPACITY
        &&& blocks_ok(self.epoch@)
        &&& self.block.wf()
        &&& self.block.spec_base() == BLOCK_BASE
        &&& !self.block.spec_is_sealed()
    }

    /// The epochs that were ended.
    pub closed spec fn eternity(&self) -> Tier<Epoch> {
        self.eternity
    }

    /// The blocks that were ended in the current epoch.
    pub closed spec fn epoch(&self) -> Tier<Block> {
        self.epoch
    }

    /// The current block.
    pub closed spec fn block(&self) -> Tier<Commitment> {
        self.block
    }

    /// Whether a tree can be made of three tiers: the invariant of the tree,
    /// said of its parts.
    pub open spec fn valid_parts(
        eternity: Tier<Epoch>,
        epoch: Tier<Block>,
        block: Tier<Commitment>,
    ) -> bool {
        &&& eternity.wf()
        &&& eternity.spec_base() == ETERNITY_BASE
        &&& !eternity.spec_is_sealed()
        &&& eternity@.len() < TIER_CAPACITY
        &&& epochs_ok(eternity@)
        &&& epoch.wf()
        &&& epoch.spec_base() == EPOCH_BASE
        &&& !epoch.spec_is_sealed()
        &&& epoch@.len() < TIER_CAPACITY
        &&& blocks_ok(epoch@)
        &&& block.wf()
        &&& block.spec_base() == BLOCK_BASE
        &&& !block.spec_is_sealed()
    }

    /// What the tree holds is what its parts hold.
    pub proof fn lemma_parts(&self)
        requires
            self.wf(),
        ensures
            Self::valid_parts(self.eternity(), self.epoch(), self.block()),
            self@ == epochs_of(self.eternity()@).push(
                blocks_of(self.epoch()@).push(self.block()@),
            ),
    {
    }

    /// A tree is known by its parts: two well-formed trees of the same parts
    /// hold the same, so that nothing is lost when a tree is taken apart,
    /// stored, and made anew.
    pub proof fn lemma_round_trip(&self, other: &Tree)
        requires
            self.wf(),
            other.wf(),
            other.eternity() == self.eternity(),
            other.epoch() == self.epoch(),
            other.block() == self.block(),
        ensures
            other@ == self@,
            tree_root(other@) == tree_root(self@),
    {
    }

    /// Whether each leaf of an epoch holds a block over commitments.
    fn check_blocks(epoch: &Tier<Block>) -> (ok: bool)
        requires
            epoch.wf(),
        ensures
            ok == blocks_ok(epoch@),
    {
        let len = epoch.len();
        let mut i: u64 = 0;
        proof {
            epoch.lemma_view();
        }
        while i < len
            invariant
                i <= len == epoch@.len(),
                epoch.wf(),
                forall|j: int| 0 <= j < epoch@.len() ==> (#[trigger] epoch@[j]).wf(),
                forall|j: int|
                    0 <= j < i ==> ((#[trigger] epoch@[j]) matches Leaf::Complete(block, _)
                        && block.spec_base() == BLOCK_BASE),
            decreases len - i,
        {
            match epoch.get(i) {
                Some(Leaf::Complete(block, _)) => {
                    if block.base() != BLOCK_BASE {
                        return false;
                    }
                },
                _ => {
                    return false;
                },
            }
            i += 1;
        }
        true
    }

    /// Whether each leaf of the tree holds an epoch over such blocks.
    fn check_epochs(eternity: &Tier<Epoch>) -> (ok: bool)
        requires
            eternity.wf(),
        ensures
            ok == epochs_ok(eternity@),
    {
        let len = eternity.len();
        let mut i: u64 = 0;
        proof {
            eternity.lemma_view();
        }
        while i < len
            invariant
                i <= len == eternity@.len(),
                eternity.wf(),
                forall|j: int| 0 <= j < eternity@.len() ==> (#[trigger] eternity@[j]).wf(),
                forall|j: int|
                    0 <= j < i ==> ((#[trigger] eternity@[j]) matches Leaf::Complete(epoch, _)
                        && epoch.spec_base() == EPOCH_BASE && blocks_ok(epoch@)),
            decreases len - i,
        {
            match eternity.get(i) {
                Some(Leaf::Complete(epoch, _)) => {
                    proof {
                        assert(eternity@[i as int].wf());
                        epoch.lemma_tier();
                    }
                    if epoch.base() != EPOCH_BASE || !Self::check_blocks(epoch.as_tier()) {
                        return false;
                    }
                },
                _ => {
                    return false;
                },
            }
            i += 1;
        }
        true
    }

    /// Finds out whether the tree is well formed, for a tree that comes from
    /// outside: walks all of it, and computes every hash that it keeps anew.
    pub fn check(&self) -> (ok: bool)
        ensures
            ok == self.wf(),
    {
        if !self.padding.check() {
            return false;
        }
        if !self.eternity.check(&self.padding) || !self.epoch.check(&self.padding)
            || !self.block.check(&self.padding) {
            return false;
        }
        if self.eternity.base() != ETERNITY_BASE || self.eternity.is_sealed()
            || self.eternity.len() >= TIER_CAPACITY {
            return false;
        }
        if self.epoch.base() != EPOCH_BASE || self.epoch.is_sealed() || self.epoch.len()
            >= TIER_CAPACITY {
            return false;
        }
        if self.block.base() != BLOCK_BASE || self.block.is_sealed() {
            return false;
        }
        Self::check_epochs(&self.eternity) && Self::check_blocks(&self.epoch)
    }

    /// The parts of the tree, to read: the tier of the epochs that were
    /// ended, that of the blocks that were ended in the current epoch, and
    /// the current block.
    pub fn parts(&self) -> (parts: (&Tier<Epoch>, &Tier<Block>, &Tier<Commitment>))
        ensures
            *parts.0 == self.eternity(),
            *parts.1 == self.epoch(),
            *parts.2 == self.block(),
    {
        (&self.eternity, &self.epoch, &self.block)
    }

    /// Takes the tree apart: the tier of the epochs that were ended, that of
    /// the blocks that were ended in the current epoch, and the current
    /// block.
    pub fn into_parts(self) -> (parts: (Tier<Epoch>, Tier<Block>, Tier<Commitment>))
        ensures
            parts == (self.eternity(), self.epoch(), self.block()),
    {
        (self.eternity, self.epoch, self.block)
    }

    /// Makes a tree of its three tiers, as they come from outside, after
    /// checking that they fit together; `Malformed` where they do not.
    pub fn from_parts(eternity: Tier<Epoch>, epoch: Tier<Block>, block: Tier<Commitment>) -> (result:
        Result<Tree, Error>)
        requires
            eternity.wf(),
            epoch.wf(),
            block.wf(),
        ensures
            match result {
                Ok(tree) => {
                    &&& Self::valid_parts(eternity, epoch, block)
                    &&& tree.wf()
                    &&& tree.eternity() == eternity
                    &&& tree.epoch() == epoch
                    &&& tree.block() == block
                },
                Err(error) => error == Error::Malformed && !Self::valid_parts(
                    eternity,
                    epoch,
                    block,
                ),
            },
    {
        if eternity.base() != ETERNITY_BASE || eternity.is_sealed() || eternity.len()
            >= TIER_CAPACITY {
            return Err(Error::Malformed);
        }
        if epoch.base() != EPOCH_BASE || epoch.is_sealed() || epoch.len() >= TIER_CAPACITY {
            return Err(Error::Malformed);
        }
        if block.base() != BLOCK_BASE || block.is_sealed() {
            return Err(Error::Malformed);
        }
        if !Self::check_epochs(&eternity) || !Self::check_blocks(&epoch) {
            return Err(Error::Malformed);
        }
        Ok(Tree { padding: Padding::new(), eternity, epoch, block })
    }

    /// The shape of a well-formed tree: it has a current epoch and a current
    /// block, no tier holds more than it can, and every leaf is well formed.
    pub proof fn lemma_shape(&self)
        requires
            self.wf(),
        ensures
            1 <= self@.len() <= TIER_CAPACITY,
            1 <= self@.last().len() <= TIER_CAPACITY,
            fits(self@),
            forall|position: Position|
                contains(self@, position) ==> (#[trigger] leaf_at(self@, position)).wf(),
    {
        self.block.lemma_view();
        assert forall|e: int| 0 <= e < self@.len() implies (#[trigger] self@[e]).len()
            <= TIER_CAPACITY && (forall|b: int|
            0 <= b < self@[e].len() ==> (#[trigger] self@[e][b]).len() <= TIER_CAPACITY && (
            forall|c: int| 0 <= c < self@[e][b].len() ==> (#[trigger] self@[e][b][c]).wf())) by {
            if e < self.eternity@.len() {
                assert(self.eternity@[e].wf());
                let epoch = self.eternity@[e]->Complete_0;
                epoch.lemma_tier();
                epoch.tier().lemma_view();
                Self::lemma_blocks_shape(epoch@);
            } else {
                Self::lemma_blocks_shape(self.epoch@);
            }
        }
    }

    proof fn lemma_blocks_shape(leaves: Seq<Leaf<Block>>)
        requires
            blocks_ok(leaves),
        ensures
            forall|b: int|
                0 <= b < leaves.len() ==> (#[trigger] blocks_of(leaves)[b]).len() <= TIER_CAPACITY
                    && (forall|c: int|
                    0 <= c < blocks_of(leaves)[b].len() ==> (#[trigger] blocks_of(
                        leaves,
                    )[b][c]).wf()),
    {
        assert forall|b: int| 0 <= b < leaves.len() implies (#[trigger] blocks_of(leaves)[b]).len()
            <= TIER_CAPACITY && (forall|c: int|
            0 <= c < blocks_of(leaves)[b].len() ==> (#[trigger] blocks_of(leaves)[b][c]).wf()) by {
            assert(leaves[b].wf());
            let block = leaves[b]->Complete_0;
            block.lemma_tier();
            block.tier().lemma_view();
        }
    }

    fn fresh<Item: GetHash>(base: u8) -> (tier: Tier<Item>)
        requires
            base <= ETERNITY_BASE,
        ensures
            tier.wf(),
            tier@ == Seq::<Leaf<Item>>::empty(),
            tier.spec_base() == base,
            !tier.spec_is_sealed(),
    {
        match Tier::new(base) {
            Some(tier) => tier,
            None => vstd::pervasive::unreached(),
        }
    }

    /// An empty tree: one epoch of one block, which holds nothing.
    pub fn new() -> (tree: Tree)
        ensures
            tree.wf(),
            tree@ == seq![seq![Seq::<Leaf<Commitment>>::empty()]],
    {
        let tree = Tree {
            padding: Padding::new(),
            eternity: Self::fresh(ETERNITY_BASE),
            epoch: Self::fresh(EPOCH_BASE),
            block: Self::fresh(BLOCK_BASE),
        };
        assert(tree@ =~~= seq![seq![Seq::<Leaf<Commitment>>::empty()]]);
        tree
    }

    /// The root hash of the current block.
    pub fn block_root(&self) -> (h: hash::Hash)
        requires
            self.wf(),
        ensures
            h@ == block_root(self@.last().last()),
    {
        self.block.hash(&self.padding)
    }

    /// The root hash of the current epoch, the current block included.
    pub fn epoch_root(&self) -> (h: hash::Hash)
        requires
            self.wf(),
        ensures
            h@ == epoch_root(self@.last()),
    {
        let block = self.block.hash(&self.padding);
        proof {
            lemma_block_digests(self.epoch@);
            assert(block_roots(self@.last()) =~= digests_of(self.epoch@).push(block@));
        }
        match self.epoch.hash_with(&self.padding, block) {
            Some(h) => h,
            None => vstd::pervasive::unreached(),
        }
    }

    /// The current block, to read.
    pub fn current_block(&self) -> (block: &Tier<Commitment>)
        requires
            self.wf(),
        ensures
            block.wf(),
            block.spec_base() == BLOCK_BASE,
            !block.spec_is_sealed(),
            block@ == self@.last().last(),
    {
        &self.block
    }

    /// The hashes of empty subtrees that the tree computes with.
    pub fn padding(&self) -> (padding: &Padding)
        requires
            self.wf(),
        ensures
            padding.wf(),
    {
        &self.padding
    }

    /// The root hash that the current epoch would have if the current block
    /// hashed to `block`.
    pub fn epoch_root_with(&self, block: hash::Hash) -> (h: hash::Hash)
        requires
            self.wf(),
        ensures
            h@ == root_of(
                EPOCH_BASE as nat,
                TIER_HEIGHT as nat,
                block_roots(self@.last().drop_last()).push(block@),
            ),
    {
        proof {
            lemma_block_digests(self.epoch@);
            assert(self@.last().drop_last() =~= blocks_of(self.epoch@));
        }
        match self.epoch.hash_with(&self.padding, block) {
            Some(h) => h,
            None => vstd::pervasive::unreached(),
        }
    }

    /// Puts `block` in the place of the current block.
    pub(crate) fn set_block(&mut self, block: Tier<Commitment>)
        requires
            old(self).wf(),
            block.wf(),
            block.spec_base() == BLOCK_BASE,
            !block.spec_is_sealed(),
        ensures
            final(self).wf(),
            final(self)@ == old(self)@.update(
                old(self)@.len() - 1,
                old(self)@.last().update(old(self)@.last().len() - 1, block@),
            ),
    {
        self.block = block;
        proof {
            assert(self@ =~~= old(self)@.update(
                old(self)@.len() - 1,
                old(self)@.last().update(old(self)@.last().len() - 1, block@),
            ));
        }
    }

    /// The root hash of the tree as it stands, with whatever the current
    /// block and the current epoch hold.
    pub fn root(&self) -> (h: hash::Hash)
        requires
            self.wf(),
        ensures
            h@ == tree_root(self@),
            h@ == root_of(BLOCK_BASE as nat, 3 * TIER_HEIGHT as nat, flat_tree(self@)),
    {
        let epoch = self.epoch_root();
        proof {
            self.lemma_shape();
            lemma_one_tree(self@);
            lemma_epoch_digests(self.eternity@);
            assert(epoch_roots(self@) =~= digests_of(self.eternity@).push(epoch@));
        }
        match self.eternity.hash_with(&self.padding, epoch) {
            Some(h) => h,
            None => vstd::pervasive::unreached(),
        }
    }

    /// The current epoch, the current block within it, and the number of
    /// commitments in that block.
    pub fn place(&self) -> (place: (u16, u16, u64))
        requires
            self.wf(),
        ensures
            place.0 == self@.len() - 1,
            place.1 == self@.last().len() - 1,
            place.2 == self@.last().last().len(),
            place.2 <= TIER_CAPACITY,
    {
        (self.eternity.len() as u16, self.epoch.len() as u16, self.block.len())
    }

    /// The position that the next commitment will get, or nothing where the
    /// current block is full.
    pub fn position(&self) -> (next: Option<Position>)
        requires
            self.wf(),
        ensures
            next is Some <==> self@.last().last().len() < TIER_CAPACITY,
            next matches Some(position) ==> {
                &&& position.epoch == self@.len() - 1
                &&& position.block == self@.last().len() - 1
                &&& position.commitment == self@.last().last().len()
            },
    {
        let commitment = self.block.len();
        if commitment < TIER_CAPACITY {
            Some(
                Position {
                    epoch: self.eternity.len() as u16,
                    block: self.epoch.len() as u16,
                    commitment: commitment as u16,
                },
            )
        } else {
            None
        }
    }

    /// Adds a commitment at the end of the current block and returns its
    /// position. Where the block is full the tree refuses with `BlockFull`
    /// and stays as it was: the caller ends the block first.
    pub fn insert(&mut self, commitment: Commitment) -> (result: Result<Position, Error>)
        requires
            old(self).wf(),
        ensures
            final(self).wf(),
            match result {
                Ok(position) => {
                    &&& old(self)@.last().last().len() < TIER_CAPACITY
                    &&& position.epoch == old(self)@.len() - 1
                    &&& position.block == old(self)@.last().len() - 1
                    &&& position.commitment == old(self)@.last().last().len()
                    &&& final(self)@ == inserted(old(self)@, Leaf::of(commitment))
                },
                Err(error) => {
                    &&& old(self)@.last().last().len() == TIER_CAPACITY
                    &&& error == Error::BlockFull
                    &&& *final(self) == *old(self)
                },
            },
    {
        let epoch = self.eternity.len() as u16;
        let block = self.epoch.len() as u16;
        match self.block.insert(commitment, &self.padding) {
            Ok(index) => {
                proof {
                    assert(self@ =~~= inserted(old(self)@, Leaf::of(commitment)));
                }
                Ok(Position { epoch, block, commitment: index as u16 })
            },
            Err(_) => Err(Error::BlockFull),
        }
    }

    /// Ends the current block: seals it, sets it as the next complete block
    /// of the current epoch, and opens an empty block after it. Returns the
    /// root hash of the block that was ended. The root hash of the tree
    /// stays. Where the epoch has no room for another block the tree refuses
    /// with `EpochFull` and stays as it was: the caller ends the epoch.
    pub fn end_block(&mut self) -> (result: Result<hash::Hash, Error>)
        requires
            old(self).wf(),
        ensures
            final(self).wf(),
            match result {
                Ok(root) => {
                    &&& old(self)@.last().len() < TIER_CAPACITY
                    &&& root@ == block_root(old(self)@.last().last())
                    &&& final(self)@ == block_ended(old(self)@)
                    &&& tree_root(final(self)@) == tree_root(old(self)@)
                },
                Err(error) => {
                    &&& old(self)@.last().len() == TIER_CAPACITY
                    &&& error == Error::EpochFull
                    &&& *final(self) == *old(self)
                },
            },
    {
        if self.epoch.len() == TIER_CAPACITY - 1 {
            return Err(Error::EpochFull);
        }
        let mut block = Self::fresh(BLOCK_BASE);
        core::mem::swap(&mut self.block, &mut block);
        let block = Complete::seal(block, &self.padding);
        let root = block.hash();
        proof {
            block.lemma_tier();
        }
        match self.epoch.insert(block, &self.padding) {
            Ok(_) => {},
            Err(_) => {
                proof {
                    assert(false);
                }
            },
        }
        proof {
            assert(self.epoch@.last() == Leaf::of(block));
            self.epoch.lemma_view();
            assert(blocks_ok(self.epoch@)) by {
                assert forall|i: int| 0 <= i < self.epoch@.len() implies {
                    &&& (#[trigger] self.epoch@[i]).wf()
                    &&& self.epoch@[i] matches Leaf::Complete(held, _) && held.spec_base()
                        == BLOCK_BASE
                } by {
                    if i < old(self).epoch@.len() {
                        assert(self.epoch@[i] == old(self).epoch@[i]);
                    }
                }
            }
            assert(self@ =~~= block_ended(old(self)@));
            lemma_end_block_keeps_root(old(self)@);
        }
        Ok(root)
    }

    /// Ends the current epoch: ends the current block within it, seals the
    /// epoch, sets it as the next complete epoch of the tree, and opens an
    /// epoch of one empty block after it. Returns the root hash of the epoch
    /// that was ended. The root hash of the tree stays. Where the tree has no
    /// room for another epoch it refuses with `Full` and stays as it was.
    pub fn end_epoch(&mut self) -> (result: Result<hash::Hash, Error>)
        requires
            old(self).wf(),
        ensures
            final(self).wf(),
            match result {
                Ok(root) => {
                    &&& old(self)@.len() < TIER_CAPACITY
                    &&& root@ == epoch_root(old(self)@.last())
                    &&& final(self)@ == epoch_ended(old(self)@)
                    &&& tree_root(final(self)@) == tree_root(old(self)@)
                },
                Err(error) => {
                    &&& old(self)@.len() == TIER_CAPACITY
                    &&& error == Error::Full
                    &&& *final(self) == *old(self)
                },
            },
    {
        if self.eternity.len() == TIER_CAPACITY - 1 {
            return Err(Error::Full);
        }
        let mut block = Self::fresh(BLOCK_BASE);
        core::mem::swap(&mut self.block, &mut block);
        let block = Complete::seal(block, &self.padding);
        let mut epoch = Self::fresh(EPOCH_BASE);
        core::mem::swap(&mut self.epoch, &mut epoch);
        proof {
            block.lemma_tier();
        }
        match epoch.insert(block, &self.padding) {
            Ok(_) => {},
            Err(_) => {
                proof {
                    assert(false);
                }
            },
        }
        proof {
            assert(epoch@.last() == Leaf::of(block));
            epoch.lemma_view();
            assert(blocks_ok(epoch@)) by {
                assert forall|i: int| 0 <= i < epoch@.len() implies {
                    &&& (#[trigger] epoch@[i]).wf()
                    &&& epoch@[i] matches Leaf::Complete(held, _) && held.spec_base() == BLOCK_BASE
                } by {
                    if i < old(self).epoch@.len() {
                        assert(epoch@[i] == old(self).epoch@[i]);
                    }
                }
            }
            assert(blocks_of(epoch@) =~~= old(self)@.last());
        }
        let epoch = Complete::seal(epoch, &self.padding);
        let root = epoch.hash();
        proof {
            epoch.lemma_tier();
            lemma_block_digests(epoch@);
        }
        match self.eternity.insert(epoch, &self.padding) {
            Ok(_) => {},
            Err(_) => {
                proof {
                    assert(false);
                }
            },
        }
        proof {
            assert(self.eternity@.last() == Leaf::of(epoch));
            self.eternity.lemma_view();
            assert(epochs_ok(self.eternity@)) by {
                assert forall|i: int| 0 <= i < self.eternity@.len() implies {
                    &&& (#[trigger] self.eternity@[i]).wf()
                    &&& self.eternity@[i] matches Leaf::Complete(held, _) && held.spec_base()
                        == EPOCH_BASE && blocks_ok(held@)
                } by {
                    if i < old(self).eternity@.len() {
                        assert(self.eternity@[i] == old(self).eternity@[i]);
                    }
                }
            }
            assert(self@ =~~= epoch_ended(old(self)@));
            lemma_end_epoch_keeps_root(old(self)@);
        }
        Ok(root)
    }

    /// Forgets a commitment of a block that stands in an epoch.
    fn forget_in_epoch(epoch: &mut Tier<Block>, block: u64, commitment: u64) -> (result: Result<
        bool,
        Error,
    >)
        requires
            old(epoch).wf(),
            blocks_ok(old(epoch)@),
        ensures
            final(epoch).wf(),
            final(epoch).spec_base() == old(epoch).spec_base(),
            final(epoch).spec_is_sealed() == old(epoch).spec_is_sealed(),
            final(epoch).digest() == old(epoch).digest(),
            final(epoch)@.len() == old(epoch)@.len(),
            blocks_ok(final(epoch)@),
            match result {
                Ok(forgot) => {
                    let blocks = blocks_of(old(epoch)@);
                    &&& block < blocks.len()
                    &&& commitment < blocks[block as int].len()
                    &&& forgot == (blocks[block as int][commitment as int] is Complete)
                    &&& blocks_of(final(epoch)@) == blocks.update(
                        block as int,
                        blocks[block as int].update(
                            commitment as int,
                            blocks[block as int][commitment as int].forgotten(),
                        ),
                    )
                },
                Err(error) => {
                    let blocks = blocks_of(old(epoch)@);
                    &&& error == Error::UnknownPosition
                    &&& !(block < blocks.len() && commitment < blocks[block as int].len())
                    &&& *final(epoch) == *old(epoch)
                },
            },
    {
        let hash = match epoch.get(block) {
            Some(Leaf::Complete(held, hash)) => {
                proof {
                    assert(epoch@[block as int].wf());
                }
                if commitment >= held.len() {
                    return Err(Error::UnknownPosition);
                }
                *hash
            },
            _ => {
                return Err(Error::UnknownPosition);
            },
        };
        let before = epoch.swap(block, Leaf::Forgotten(hash));
        match before {
            Leaf::Complete(held, kept) => {
                proof {
                    assert(old(epoch)@[block as int].wf());
                    held.lemma_tier();
                }
                let mut tier = held.into_tier();
                let result = tier.forget(commitment);
                let held = Complete::wrap(tier);
                let _ = epoch.swap(block, Leaf::Complete(held, kept));
                proof {
                    assert(epoch@ =~= old(epoch)@.update(block as int, Leaf::Complete(held, kept)));
                    assert forall|i: int| 0 <= i < epoch@.len() implies {
                        &&& (#[trigger] epoch@[i]).wf()
                        &&& epoch@[i] matches Leaf::Complete(found, _) && found.spec_base()
                            == BLOCK_BASE
                    } by {
                        if i != block {
                            assert(old(epoch)@[i].wf());
                        }
                    }
                    let blocks = blocks_of(old(epoch)@);
                    assert(blocks_of(epoch@) =~= blocks.update(
                        block as int,
                        blocks[block as int].update(
                            commitment as int,
                            blocks[block as int][commitment as int].forgotten(),
                        ),
                    ));
                }
                result
            },
            Leaf::Forgotten(_) => {
                proof {
                    assert(false);
                }
                Err(Error::UnknownPosition)
            },
        }
    }

    /// Forgets a commitment of a block of an epoch that stands in the tree.
    fn forget_in_eternity(
        eternity: &mut Tier<Epoch>,
        epoch: u64,
        block: u64,
        commitment: u64,
    ) -> (result: Result<bool, Error>)
        requires
            old(eternity).wf(),
            epochs_ok(old(eternity)@),
        ensures
            final(eternity).wf(),
            final(eternity).spec_base() == old(eternity).spec_base(),
            final(eternity).spec_is_sealed() == old(eternity).spec_is_sealed(),
            final(eternity).digest() == old(eternity).digest(),
            final(eternity)@.len() == old(eternity)@.len(),
            epochs_ok(final(eternity)@),
            match result {
                Ok(forgot) => {
                    let epochs = epochs_of(old(eternity)@);
                    let blocks = epochs[epoch as int];
                    &&& epoch < epochs.len()
                    &&& block < blocks.len()
                    &&& commitment < blocks[block as int].len()
                    &&& forgot == (blocks[block as int][commitment as int] is Complete)
                    &&& epochs_of(final(eternity)@) == epochs.update(
                        epoch as int,
                        blocks.update(
                            block as int,
                            blocks[block as int].update(
                                commitment as int,
                                blocks[block as int][commitment as int].forgotten(),
                            ),
                        ),
                    )
                },
                Err(error) => {
                    let epochs = epochs_of(old(eternity)@);
                    &&& error == Error::UnknownPosition
                    &&& !(epoch < epochs.len() && block < epochs[epoch as int].len() && commitment
                        < epochs[epoch as int][block as int].len())
                    &&& *final(eternity) == *old(eternity)
                },
            },
    {
        let hash = match eternity.get(epoch) {
            Some(Leaf::Complete(held, hash)) => {
                proof {
                    assert(eternity@[epoch as int].wf());
                }
                match held.get(block) {
                    Some(Leaf::Complete(inner, _)) => {
                        proof {
                            assert(held@[block as int].wf());
                        }
                        if commitment >= inner.len() {
                            return Err(Error::UnknownPosition);
                        }
                    },
                    _ => {
                        return Err(Error::UnknownPosition);
                    },
                }
                *hash
            },
            _ => {
                return Err(Error::UnknownPosition);
            },
        };
        let before = eternity.swap(epoch, Leaf::Forgotten(hash));
        match before {
            Leaf::Complete(held, kept) => {
                proof {
                    assert(old(eternity)@[epoch as int].wf());
                    held.lemma_tier();
                }
                let mut tier = held.into_tier();
                let result = Self::forget_in_epoch(&mut tier, block, commitment);
                let held = Complete::wrap(tier);
                let _ = eternity.swap(epoch, Leaf::Complete(held, kept));
                proof {
                    assert(eternity@ =~= old(eternity)@.update(
                        epoch as int,
                        Leaf::Complete(held, kept),
                    ));
                    assert forall|i: int| 0 <= i < eternity@.len() implies {
                        &&& (#[trigger] eternity@[i]).wf()
                        &&& eternity@[i] matches Leaf::Complete(found, _) && found.spec_base()
                            == EPOCH_BASE && blocks_ok(found@)
                    } by {
                        if i != epoch {
                            assert(old(eternity)@[i].wf());
                        }
                    }
                    let epochs = epochs_of(old(eternity)@);
                    let blocks = epochs[epoch as int];
                    assert(epochs_of(eternity@) =~= epochs.update(
                        epoch as int,
                        blocks.update(
                            block as int,
                            blocks[block as int].update(
                                commitment as int,
                                blocks[block as int][commitment as int].forgotten(),
                            ),
                        ),
                    ));
                }
                result
            },
            Leaf::Forgotten(_) => {
                proof {
                    assert(false);
                }
                Err(Error::UnknownPosition)
            },
        }
    }

    /// Forgets the commitment at a position: its leaf keeps the hash and
    /// nothing else, so the root hash of the tree stays, and no proof can be
    /// had for the position any more. Returns whether there was a commitment
    /// to forget: not so where it was forgotten before. Where nothing was
    /// ever inserted at the position the tree reports `UnknownPosition` and
    /// stays as it was.
    pub fn forget(&mut self, position: Position) -> (result: Result<bool, Error>)
        requires
            old(self).wf(),
        ensures
            final(self).wf(),
            tree_root(final(self)@) == tree_root(old(self)@),
            match result {
                Ok(forgot) => {
                    &&& contains(old(self)@, position)
                    &&& forgot == (leaf_at(old(self)@, position) is Complete)
                    &&& final(self)@ == forgotten(old(self)@, position)
                },
                Err(error) => {
                    &&& error == Error::UnknownPosition
                    &&& !contains(old(self)@, position)
                    &&& *final(self) == *old(self)
                },
            },
    {
        let epoch = position.epoch as u64;
        let block = position.block as u64;
        let commitment = position.commitment as u64;
        let epochs = self.eternity.len();
        let blocks = self.epoch.len();
        let result = if epoch < epochs {
            Self::forget_in_eternity(&mut self.eternity, epoch, block, commitment)
        } else if epoch == epochs && block < blocks {
            Self::forget_in_epoch(&mut self.epoch, block, commitment)
        } else if epoch == epochs && block == blocks {
            self.block.forget(commitment)
        } else {
            Err(Error::UnknownPosition)
        };
        proof {
            if result is Ok {
                assert(self@ =~~= forgotten(old(self)@, position));
                lemma_forget_keeps_root(old(self)@, position);
            }
        }
        result
    }

    /// The block at a place of the tree, and the epoch it stands in where
    /// that epoch was ended; nothing where the tree has no such block.
    fn locate(&self, epoch: u64, block: u64) -> (found: Option<
        (&Tier<Commitment>, Option<&Tier<Block>>),
    >)
        requires
            self.wf(),
        ensures
            found is Some <==> epoch < self@.len() && block < self@[epoch as int].len(),
            found matches Some((tier, around)) ==> {
                &&& tier.wf()
                &&& tier.spec_base() == BLOCK_BASE
                &&& tier@ == self@[epoch as int][block as int]
                &&& around is Some <==> epoch < self@.len() - 1
                &&& around matches Some(ended) ==> {
                    &&& ended.wf()
                    &&& ended.spec_base() == EPOCH_BASE
                    &&& blocks_ok(ended@)
                    &&& blocks_of(ended@) == self@[epoch as int]
                }
            },
    {
        let epochs = self.eternity.len();
        if epoch < epochs {
            match self.eternity.get(epoch) {
                Some(Leaf::Complete(held, _)) => {
                    proof {
                        assert(self.eternity@[epoch as int].wf());
                        held.lemma_tier();
                    }
                    let ended = held.as_tier();
                    match ended.get(block) {
                        Some(Leaf::Complete(inner, _)) => {
                            proof {
                                assert(ended@[block as int].wf());
                                inner.lemma_tier();
                            }
                            Some((inner.as_tier(), Some(ended)))
                        },
                        _ => None,
                    }
                },
                _ => None,
            }
        } else if epoch == epochs {
            let blocks = self.epoch.len();
            if block < blocks {
                match self.epoch.get(block) {
                    Some(Leaf::Complete(inner, _)) => {
                        proof {
                            assert(self.epoch@[block as int].wf());
                            inner.lemma_tier();
                        }
                        Some((inner.as_tier(), None))
                    },
                    _ => None,
                }
            } else if block == blocks {
                Some((&self.block, None))
            } else {
                None
            }
        } else {
            None
        }
    }

    /// The leaf at a position, or `UnknownPosition` where nothing was ever
    /// inserted there.
    pub fn get(&self, position: Position) -> (result: Result<&Leaf<Commitment>, Error>)
        requires
            self.wf(),
        ensures
            match result {
                Ok(leaf) => contains(self@, position) && *leaf == leaf_at(self@, position),
                Err(error) => error == Error::UnknownPosition && !contains(self@, position),
            },
    {
        match self.locate(position.epoch as u64, position.block as u64) {
            Some((tier, _)) => match tier.get(position.commitment as u64) {
                Some(leaf) => Ok(leaf),
                None => Err(Error::UnknownPosition),
            },
            None => Err(Error::UnknownPosition),
        }
    }

    /// The proof that the commitment at a position stands in the tree: the
    /// sibling hashes on the way from its leaf to the root, which recombine
    /// to the root hash of the tree as it stands. No proof where the
    /// commitment was forgotten, and `UnknownPosition` where nothing was ever
    /// inserted at the position.
    pub fn witness(&self, position: Position) -> (result: Result<Option<Proof>, Error>)
        requires
            self.wf(),
        ensures
            match result {
                Ok(Some(proof)) => {
                    &&& contains(self@, position)
                    &&& leaf_at(self@, position) matches Leaf::Complete(held, _) && held
                        == proof.commitment
                    &&& proof.position == position
                    &&& path_view(proof.path@) == tree_path(self@, position)
                    &&& proof.path.len() == PROOF_LEN
                    &&& proof.root_digest() == tree_root(self@)
                },
                Ok(None) => contains(self@, position) && leaf_at(self@, position) is Forgotten,
                Err(error) => error == Error::UnknownPosition && !contains(self@, position),
            },
    {
        let epoch = position.epoch as u64;
        let block = position.block as u64;
        let index = position.commitment as u64;
        let (tier, around) = match self.locate(epoch, block) {
            Some(found) => found,
            None => {
                return Err(Error::UnknownPosition);
            },
        };
        let commitment = match tier.get(index) {
            Some(Leaf::Complete(held, _)) => *held,
            Some(Leaf::Forgotten(_)) => {
                return Ok(None);
            },
            None => {
                return Err(Error::UnknownPosition);
            },
        };
        proof {
            self.lemma_shape();
            lemma_block_digests(self.epoch@);
            lemma_epoch_digests(self.eternity@);
            assert(block_roots(self@.last()) =~= digests_of(self.epoch@).push(
                block_root(self@.last().last()),
            ));
            assert(epoch_roots(self@) =~= digests_of(self.eternity@).push(
                epoch_root(self@.last()),
            ));
        }
        let mut path = match tier.path(index, &self.padding) {
            Some(found) => found,
            None => vstd::pervasive::unreached(),
        };
        let middle = match around {
            Some(ended) => {
                proof {
                    lemma_block_digests(ended@);
                }
                ended.path(block, &self.padding)
            },
            None => self.epoch.path_with(block, &self.padding, self.block_root()),
        };
        let mut middle = match middle {
            Some(found) => found,
            None => vstd::pervasive::unreached(),
        };
        let mut top = match self.eternity.path_with(epoch, &self.padding, self.epoch_root()) {
            Some(found) => found,
            None => vstd::pervasive::unreached(),
        };
        let ghost low = path@;
        let ghost mid = middle@;
        let ghost high = top@;
        path.append(&mut middle);
        path.append(&mut top);
        let proof = Proof { position, commitment, path };
        proof {
            assert(path_view(proof.path@) =~= path_view(low) + path_view(mid) + path_view(high));
            lemma_path_to_root(self@, position);
            assert(leaf_at(self@, position).wf());
        }
        Ok(Some(proof))
    }
}

} // verus!
