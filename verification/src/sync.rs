//! Bringing the tree up to date with the chain, one compact block at a time:
//! each block is applied whole, or refused and the tree left as it was.
use crate::chain::CompactBlock;
use crate::crypto::MerkleRoot;
use crate::error::Error;
use crate::hash;
use crate::hash::{Commitment, Padding};
use crate::leaf::Leaf;
use crate::tier::{Tier, TIER_CAPACITY};
use crate::node::digests_of;
use crate::tree::{
    block_ended, block_root, block_roots, epoch_ended, epoch_root, lemma_same_hashes_same_root,
    same_hashes, tree_root, Position, Tree, TreeView, BLOCK_BASE,
};
use vstd::prelude::*;

verus! {

/// What applying one block gave: the height of the block, the positions of
/// the commitments that were kept, the nullifiers that came with the block,
/// which are handed on as they came, the root hashes of the block and of
/// its epoch as they stood with the block, and whether the block ended its
/// epoch.
#[derive(Clone, Debug, PartialEq, Eq)]
pub struct Applied {
    pub height: u64,
    pub kept: Vec<Position>,
    pub nullifiers: Vec<[u8; 32]>,
    pub block_root: hash::Hash,
    pub epoch_root: hash::Hash,
    pub ended_epoch: bool,
}

/// The time that the worker rests between two passes, in milliseconds.
pub const REST_MILLIS: u64 = 1729;

/// How often the rest after a failure doubles before it grows no more.
pub const MAX_DOUBLINGS: u32 = 6;

/// What the worker does at one step of its round.
#[derive(Clone, Copy, Debug, PartialEq, Eq, Structural)]
pub enum Step {
    /// Bring the tree up to the latest block.
    Sync,
    /// Fetch the assets that are known and record them.
    FetchAssets,
    /// Look whether anyone still holds the other end of the shutdown
    /// channel.
    CheckShutdown,
    /// Rest for this many milliseconds.
    Rest(u64),
    /// Stop: the work is done, or cannot go on.
    Stop,
}

/// What came of a step.
#[derive(Clone, Copy, Debug, PartialEq, Eq, Structural)]
pub enum Outcome {
    /// The step was done.
    Done,
    /// The step failed outside the tree: the network or the storage did not
    /// answer as it should. Another try may do better.
    Failed,
    /// The step failed with an error of the tree.
    Refused(Error),
    /// The shutdown channel was found closed.
    Disconnected,
}

/// Whether what came of a step halts the worker: an error of the tree that
/// another try would only meet again.
pub open spec fn halted(outcome: Outcome) -> bool {
    outcome matches Outcome::Refused(error) && error.spec_halts()
}

/// Whether what came of a step is a failure to be tried again after a rest.
pub open spec fn retried(outcome: Outcome) -> bool {
    outcome is Failed || (outcome matches Outcome::Refused(error) && !error.spec_halts())
}

/// The rest before another try, in milliseconds, after so many failures in
/// a row: the usual rest after the first, twice as long after each further
/// one, until it has doubled `MAX_DOUBLINGS` times.
pub open spec fn backoff(failures: nat) -> nat
    decreases failures,
{
    if failures <= 1 {
        REST_MILLIS as nat
    } else if failures > MAX_DOUBLINGS + 1 {
        backoff((MAX_DOUBLINGS + 1) as nat)
    } else {
        2 * backoff((failures - 1) as nat)
    }
}

/// One more failure in a row; the count stays where it cannot grow.
pub open spec fn one_more(failures: u32) -> u32 {
    if failures < u32::MAX {
        (failures + 1) as u32
    } else {
        failures
    }
}

/// The step that follows a step, and the number of failures in a row after
/// it, by what came of the step. A round is: sync, fetch the assets, check
/// for shutdown, rest, and again. An error of the tree that halts stops the
/// worker: it does not go on with a tree that has diverged or is full. Any
/// other failure is tried again from the start of the round, after a rest
/// that grows with the failures in a row; a pass that came through sets
/// their number back to zero. The worker also stops when it finds the
/// shutdown channel closed. Once stopped it stays so.
pub open spec fn following(step: Step, failures: u32, outcome: Outcome) -> (Step, u32) {
    if step is Stop {
        (Step::Stop, failures)
    } else if halted(outcome) {
        (Step::Stop, failures)
    } else if retried(outcome) {
        (Step::Rest(backoff(one_more(failures) as nat) as u64), one_more(failures))
    } else {
        match step {
            Step::Sync => (Step::FetchAssets, failures),
            Step::FetchAssets => (Step::CheckShutdown, 0),
            Step::CheckShutdown => if outcome is Disconnected {
                (Step::Stop, failures)
            } else {
                (Step::Rest(REST_MILLIS), failures)
            },
            _ => (Step::Sync, failures),
        }
    }
}

/// The rest before another try is never shorter than the usual rest, never
/// longer than that doubled `MAX_DOUBLINGS` times, and never shorter after
/// more failures.
pub proof fn lemma_backoff(failures: nat)
    ensures
        REST_MILLIS <= backoff(failures) <= 64 * REST_MILLIS,
        backoff(failures) <= backoff(failures + 1),
        failures > MAX_DOUBLINGS ==> backoff(failures) == 64 * REST_MILLIS,
{
    reveal_with_fuel(backoff, 9);
    if failures > MAX_DOUBLINGS + 1 {
        assert(backoff(failures) == backoff(7));
        assert(backoff(failures + 1) == backoff(7));
    }
}

/// The rest before another try after so many failures in a row.
pub fn rest_after(failures: u32) -> (millis: u64)
    ensures
        millis == backoff(failures as nat),
{
    let doublings = if failures <= 1 {
        0
    } else if failures > MAX_DOUBLINGS + 1 {
        MAX_DOUBLINGS
    } else {
        failures - 1
    };
    let mut millis = REST_MILLIS;
    let mut done: u32 = 0;
    proof {
        reveal_with_fuel(backoff, 2);
    }
    while done < doublings
        invariant
            done <= doublings <= MAX_DOUBLINGS,
            millis == backoff((done + 1) as nat),
        decreases doublings - done,
    {
        proof {
            lemma_backoff((done + 1) as nat);
            lemma_backoff((done + 2) as nat);
        }
        millis = millis * 2;
        done += 1;
    }
    proof {
        reveal_with_fuel(backoff, 2);
    }
    millis
}

/// The step with which the worker starts, no failure behind it.
pub fn first_step() -> (first: (Step, u32))
    ensures
        first == (Step::Sync, 0u32),
{
    (Step::Sync, 0)
}

/// The step that follows a step, and the number of failures in a row after
/// it, by what came of the step.
pub fn next_step(step: Step, failures: u32, outcome: Outcome) -> (next: (Step, u32))
    ensures
        next == following(step, failures, outcome),
{
    if let Step::Stop = step {
        return (Step::Stop, failures);
    }
    let halts = match outcome {
        Outcome::Refused(error) => Some(error.halts()),
        Outcome::Failed => Some(false),
        _ => None,
    };
    match halts {
        Some(true) => (Step::Stop, failures),
        Some(false) => {
            let more = if failures < u32::MAX {
                failures + 1
            } else {
                failures
            };
            (Step::Rest(rest_after(more)), more)
        },
        None => match step {
            Step::Sync => (Step::FetchAssets, failures),
            Step::FetchAssets => (Step::CheckShutdown, 0),
            Step::CheckShutdown => match outcome {
                Outcome::Disconnected => (Step::Stop, failures),
                _ => (Step::Rest(REST_MILLIS), failures),
            },
            _ => (Step::Sync, failures),
        },
    }
}

/// When the worker stops, and when it tries again. It stops when it was
/// stopped before, when the tree refused with an error that halts, and when
/// the check for shutdown found the channel closed; and then only. After
/// an error of the tree that halts it never syncs again: no step leads out
/// of `Stop`. After any other failure it rests before it does anything
/// else, at least the usual time, and then starts the round anew.
pub proof fn lemma_stops_and_retries(step: Step, failures: u32, outcome: Outcome)
    ensures
        following(step, failures, outcome).0 == Step::Stop <==> step == Step::Stop || halted(outcome)
            || (step == Step::CheckShutdown && outcome == Outcome::Disconnected),
        step != Step::Stop && retried(outcome) ==> (following(step, failures, outcome).0
            matches Step::Rest(millis) && REST_MILLIS <= millis <= 64 * REST_MILLIS),
        following(step, failures, outcome).0 == Step::Sync ==> step is Rest && !halted(outcome)
            && !retried(outcome),
        following(Step::Stop, failures, outcome).0 == Step::Stop,
{
    lemma_backoff(one_more(failures) as nat);
}

/// The height that a pass has reached: the last that was applied, or
/// `NothingSynced` where none was, now or before.
pub fn end_height(last: Option<u64>) -> (result: Result<u64, Error>)
    ensures
        result == match last {
            Some(height) => Ok::<u64, Error>(height),
            None => Err::<u64, Error>(Error::NothingSynced),
        },
{
    match last {
        Some(height) => Ok(height),
        None => Err(Error::NothingSynced),
    }
}

/// The height at which to go on: the one after the last that was applied,
/// or zero where none was.
pub fn start_height(last: Option<u64>) -> (next: u64)
    requires
        last != Some(u64::MAX),
    ensures
        next == match last {
            Some(height) => height + 1,
            None => 0,
        },
{
    match last {
        Some(height) => height + 1,
        None => 0,
    }
}

/// Whether the block at `height` is the last of its epoch, in a chain whose
/// epochs last `epoch_duration` blocks; never where that is zero.
pub open spec fn ends_epoch(height: u64, epoch_duration: u64) -> bool {
    epoch_duration > 0 && height % epoch_duration == epoch_duration - 1
}

/// Whether the block at `height` is the last of its epoch.
pub fn is_epoch_end(height: u64, epoch_duration: u64) -> (last: bool)
    ensures
        last == ends_epoch(height, epoch_duration),
{
    epoch_duration > 0 && height % epoch_duration == epoch_duration - 1
}

/// The leaf that a scanned commitment gets: one that holds it where it is
/// to be kept, one that holds only its hash where it is not.
pub open spec fn scanned_leaf(commitment: Commitment, keep: bool) -> Leaf<Commitment> {
    if keep {
        Leaf::of(commitment)
    } else {
        Leaf::of(commitment).forgotten()
    }
}

/// The leaves that the commitments of a block get, in order.
pub open spec fn scanned(commitments: Seq<Commitment>, keep: Seq<bool>) -> Seq<Leaf<Commitment>> {
    Seq::new(commitments.len(), |i: int| scanned_leaf(commitments[i], keep[i]))
}

/// The tree with more leaves at the end of its current block.
pub open spec fn with_block(tree: TreeView, leaves: Seq<Leaf<Commitment>>) -> TreeView {
    let epoch = tree.last();
    tree.update(tree.len() - 1, epoch.update(epoch.len() - 1, epoch.last() + leaves))
}

/// The positions of the commitments that are kept, in order, where the
/// first of the commitments stands at `start` of the given block.
pub open spec fn kept_positions(epoch: u16, block: u16, start: nat, keep: Seq<bool>) -> Seq<
    Position,
>
    decreases keep.len(),
{
    if keep.len() == 0 {
        Seq::empty()
    } else {
        let before = kept_positions(epoch, block, start, keep.drop_last());
        if keep.last() {
            before.push(
                Position { epoch, block, commitment: (start + keep.len() - 1) as u16 },
            )
        } else {
            before
        }
    }
}

/// Why a block is refused, if it is. In this order: the flags do not match
/// the commitments; the current block has no room for the commitments; the
/// tree has none for the epoch, or the epoch for the block, that would come
/// next; the block root that was asserted is not the one computed; nor the
/// epoch root.
pub open spec fn refusal(
    tree: TreeView,
    commitments: Seq<Commitment>,
    keep: Seq<bool>,
    ends_epoch: bool,
    block_asserted: Option<hash::Hash>,
    epoch_asserted: Option<hash::Hash>,
) -> Option<Error> {
    let filled = with_block(tree, scanned(commitments, keep));
    if keep.len() != commitments.len() {
        Some(Error::Malformed)
    } else if tree.last().last().len() + commitments.len() > TIER_CAPACITY {
        Some(Error::BlockFull)
    } else if ends_epoch && tree.len() == TIER_CAPACITY {
        Some(Error::Full)
    } else if !ends_epoch && tree.last().len() == TIER_CAPACITY {
        Some(Error::EpochFull)
    } else if block_asserted matches Some(root) && root@ != block_root(filled.last().last()) {
        Some(Error::RootMismatch)
    } else if epoch_asserted matches Some(root) && root@ != epoch_root(filled.last()) {
        Some(Error::RootMismatch)
    } else {
        None
    }
}

/// What applying a block does: a block that is refused gives the reason;
/// one that is applied leaves the tree with the scanned leaves at the end of
/// what was its current block, and that block ended, or its epoch where the
/// block ends it. The nullifiers do not enter the tree: they are handed on
/// with the result.
pub open spec fn applies(
    before: TreeView,
    after: TreeView,
    result: Result<Applied, Error>,
    commitments: Seq<Commitment>,
    keep: Seq<bool>,
    nullifiers: Seq<[u8; 32]>,
    ends_epoch: bool,
    block_asserted: Option<hash::Hash>,
    epoch_asserted: Option<hash::Hash>,
) -> bool {
    let filled = with_block(before, scanned(commitments, keep));
    let refused = refusal(before, commitments, keep, ends_epoch, block_asserted, epoch_asserted);
    match result {
        Ok(applied) => {
            &&& refused is None
            &&& after == if ends_epoch {
                epoch_ended(filled)
            } else {
                block_ended(filled)
            }
            &&& tree_root(after) == tree_root(filled)
            &&& applied.block_root@ == block_root(filled.last().last())
            &&& applied.epoch_root@ == epoch_root(filled.last())
            &&& applied.ended_epoch == ends_epoch
            &&& applied.nullifiers@ == nullifiers
            &&& applied.kept@ == kept_positions(
                (before.len() - 1) as u16,
                (before.last().len() - 1) as u16,
                before.last().last().len(),
                keep,
            )
        },
        Err(error) => refused == Some(error) && after == before,
    }
}

/// The tree after a block was applied to it: the scanned leaves at the end
/// of what was the current block, and that block ended, or its epoch.
pub open spec fn after_block(
    tree: TreeView,
    commitments: Seq<Commitment>,
    keep: Seq<bool>,
    ends_epoch: bool,
) -> TreeView {
    let filled = with_block(tree, scanned(commitments, keep));
    if ends_epoch {
        epoch_ended(filled)
    } else {
        block_ended(filled)
    }
}

/// What is kept does not matter to the root. Two passes that start from
/// trees with the same hashes at the same positions and are given the same
/// block, each with flags of its own, are refused alike or applied alike;
/// and where they are applied, the two trees hold the same hashes at the
/// same positions again, and so have the same root. To keep every
/// commitment of a block and to forget every one are two such passes.
pub proof fn lemma_passes_agree(
    one: TreeView,
    other: TreeView,
    commitments: Seq<Commitment>,
    keep_one: Seq<bool>,
    keep_other: Seq<bool>,
    ends_epoch: bool,
    block_asserted: Option<hash::Hash>,
    epoch_asserted: Option<hash::Hash>,
)
    requires
        same_hashes(one, other),
        one.len() > 0,
        one.last().len() > 0,
        keep_one.len() == commitments.len(),
        keep_other.len() == commitments.len(),
    ensures
        refusal(one, commitments, keep_one, ends_epoch, block_asserted, epoch_asserted) == refusal(
            other,
            commitments,
            keep_other,
            ends_epoch,
            block_asserted,
            epoch_asserted,
        ),
        same_hashes(
            after_block(one, commitments, keep_one, ends_epoch),
            after_block(other, commitments, keep_other, ends_epoch),
        ),
        tree_root(after_block(one, commitments, keep_one, ends_epoch)) == tree_root(
            after_block(other, commitments, keep_other, ends_epoch),
        ),
{
    let filled_one = with_block(one, scanned(commitments, keep_one));
    let filled_other = with_block(other, scanned(commitments, keep_other));
    let last = one.len() - 1;
    let current = one.last().len() - 1;
    assert(one[last].len() == other[last].len());
    assert(digests_of(one[last][current]) == digests_of(other[last][current]));
    assert(one[last][current].len() == digests_of(one[last][current]).len());
    assert(other[last][current].len() == digests_of(other[last][current]).len());
    assert(digests_of(filled_one[last][current]) =~= digests_of(filled_other[last][current])) by {
        let left = one[last][current] + scanned(commitments, keep_one);
        let right = other[last][current] + scanned(commitments, keep_other);
        assert(filled_one[last][current] == left);
        assert(filled_other[last][current] == right);
        assert forall|i: int| 0 <= i < left.len() implies left[i].digest() == right[i].digest() by {
            if i < one[last][current].len() {
                assert(digests_of(one[last][current])[i] == digests_of(other[last][current])[i]);
            }
        }
    }
    assert(same_hashes(filled_one, filled_other)) by {
        assert forall|e: int| 0 <= e < filled_one.len() implies (#[trigger] filled_one[e]).len()
            == filled_other[e].len() by {
            assert(one[e].len() == other[e].len());
        }
        assert forall|e: int, b: int|
            0 <= e < filled_one.len() && 0 <= b < filled_one[e].len() implies digests_of(
            #[trigger] filled_one[e][b],
        ) == digests_of(filled_other[e][b]) by {
            if e != last || b != current {
                assert(one[e].len() == other[e].len());
                assert(digests_of(one[e][b]) == digests_of(other[e][b]));
            }
        }
    }
    assert(block_roots(filled_one.last()) =~= block_roots(filled_other.last())) by {
        assert forall|b: int| 0 <= b < filled_one[last].len() implies block_root(
            #[trigger] filled_one[last][b],
        ) == block_root(filled_other[last][b]) by {}
    }
    let after_one = after_block(one, commitments, keep_one, ends_epoch);
    let after_other = after_block(other, commitments, keep_other, ends_epoch);
    assert(same_hashes(after_one, after_other)) by {
        assert forall|e: int| 0 <= e < after_one.len() implies (#[trigger] after_one[e]).len()
            == after_other[e].len() by {
            if e < filled_one.len() {
                assert(filled_one[e].len() == filled_other[e].len());
            }
        }
        assert forall|e: int, b: int|
            0 <= e < after_one.len() && 0 <= b < after_one[e].len() implies digests_of(
            #[trigger] after_one[e][b],
        ) == digests_of(after_other[e][b]) by {
            if e < filled_one.len() && b < filled_one[e].len() {
                assert(filled_one[e].len() == filled_other[e].len());
                assert(digests_of(filled_one[e][b]) == digests_of(filled_other[e][b]));
            }
        }
    }
    lemma_same_hashes_same_root(after_one, after_other);
}

/// A copy of a block that is being filled.
fn copy_block(block: &Tier<Commitment>, padding: &Padding) -> (copy: Tier<Commitment>)
    requires
        block.wf(),
        block.spec_base() == BLOCK_BASE,
        padding.wf(),
    ensures
        copy.wf(),
        copy.spec_base() == BLOCK_BASE,
        !copy.spec_is_sealed(),
        copy@ == block@,
{
    let mut copy = match Tier::new(BLOCK_BASE) {
        Some(tier) => tier,
        None => vstd::pervasive::unreached(),
    };
    let len = block.len();
    let mut i: u64 = 0;
    proof {
        block.lemma_view();
    }
    while i < len
        invariant
            i <= len == block@.len() <= TIER_CAPACITY,
            block.wf(),
            padding.wf(),
            copy.wf(),
            copy.spec_base() == BLOCK_BASE,
            !copy.spec_is_sealed(),
            copy@ == block@.subrange(0, i as int),
            forall|j: int| 0 <= j < block@.len() ==> (#[trigger] block@[j]).wf(),
        decreases len - i,
    {
        let leaf = match block.get(i) {
            Some(Leaf::Complete(commitment, hash)) => Leaf::Complete(*commitment, *hash),
            Some(Leaf::Forgotten(hash)) => Leaf::Forgotten(*hash),
            None => vstd::pervasive::unreached(),
        };
        assert(leaf == block@[i as int]);
        match copy.insert_leaf(leaf, padding) {
            Ok(_) => {},
            Err(_) => {
                proof {
                    assert(false);
                }
            },
        }
        assert(copy@ =~= block@.subrange(0, i + 1));
        i += 1;
    }
    assert(copy@ =~= block@);
    copy
}

/// Adds the commitments of a block to a copy of the current block, each
/// kept or forgotten as its flag says.
fn stage(
    block: Tier<Commitment>,
    epoch: u16,
    index: u16,
    commitments: &Vec<Commitment>,
    keep: &Vec<bool>,
    padding: &Padding,
) -> (staged: (Tier<Commitment>, Vec<Position>))
    requires
        block.wf(),
        block.spec_base() == BLOCK_BASE,
        !block.spec_is_sealed(),
        padding.wf(),
        keep@.len() == commitments@.len(),
        block@.len() + commitments@.len() <= TIER_CAPACITY,
    ensures
        staged.0.wf(),
        staged.0.spec_base() == BLOCK_BASE,
        !staged.0.spec_is_sealed(),
        staged.0@ == block@ + scanned(commitments@, keep@),
        staged.1@ == kept_positions(epoch, index, block@.len(), keep@),
{
    let mut block = block;
    let mut kept: Vec<Position> = Vec::new();
    let ghost start = block@;
    let mut i: usize = 0;
    while i < commitments.len()
        invariant
            i <= commitments@.len() == keep@.len(),
            start.len() + commitments@.len() <= TIER_CAPACITY,
            padding.wf(),
            block.wf(),
            block.spec_base() == BLOCK_BASE,
            !block.spec_is_sealed(),
            block@ == start + scanned(commitments@, keep@).subrange(0, i as int),
            kept@ == kept_positions(epoch, index, start.len(), keep@.subrange(0, i as int)),
        decreases commitments@.len() - i,
    {
        let ghost before = block@;
        let position = match block.insert(commitments[i], padding) {
            Ok(position) => position,
            Err(_) => {
                proof {
                    assert(false);
                }
                0
            },
        };
        if keep[i] {
            kept.push(Position { epoch, block: index, commitment: position as u16 });
        } else {
            let _ = block.forget(position);
        }
        proof {
            let leaves = scanned(commitments@, keep@);
            assert(block@ =~= before.push(leaves[i as int]));
            assert(block@ =~= start + leaves.subrange(0, i + 1));
            assert(keep@.subrange(0, i + 1).drop_last() =~= keep@.subrange(0, i as int));
        }
        i += 1;
    }
    proof {
        assert(scanned(commitments@, keep@).subrange(0, i as int) =~= scanned(
            commitments@,
            keep@,
        ));
        assert(keep@.subrange(0, i as int) =~= keep@);
    }
    (block, kept)
}

/// Applies one block to the tree: adds its commitments to the current
/// block, each kept or forgotten as its flag says, checks the roots that
/// were asserted against the ones computed, and ends the block, or the epoch
/// where the block is the last of it. The nullifiers of the block are handed
/// on with the result, for whoever stores them beside the tree. A block that
/// is refused, for whatever reason, leaves the tree as it was.
pub fn apply(
    tree: &mut Tree,
    height: u64,
    commitments: &Vec<Commitment>,
    keep: &Vec<bool>,
    nullifiers: Vec<[u8; 32]>,
    ends_epoch: bool,
    block_asserted: Option<hash::Hash>,
    epoch_asserted: Option<hash::Hash>,
) -> (result: Result<Applied, Error>)
    requires
        old(tree).wf(),
    ensures
        final(tree).wf(),
        result matches Err(_) ==> *final(tree) == *old(tree),
        result matches Ok(applied) ==> applied.height == height,
        applies(
            old(tree)@,
            final(tree)@,
            result,
            commitments@,
            keep@,
            nullifiers@,
            ends_epoch,
            block_asserted,
            epoch_asserted,
        ),
{
    proof {
        tree.lemma_shape();
    }
    let ghost before = tree@;
    let ghost filled = with_block(before, scanned(commitments@, keep@));
    if keep.len() != commitments.len() {
        return Err(Error::Malformed);
    }
    let (epoch, block, held) = tree.place();
    if commitments.len() as u64 > TIER_CAPACITY - held {
        return Err(Error::BlockFull);
    }
    if ends_epoch && epoch as u64 == TIER_CAPACITY - 1 {
        return Err(Error::Full);
    }
    if !ends_epoch && block as u64 == TIER_CAPACITY - 1 {
        return Err(Error::EpochFull);
    }
    let copy = copy_block(tree.current_block(), tree.padding());
    let (staged, kept) = stage(copy, epoch, block, commitments, keep, tree.padding());
    let block_root = staged.hash(tree.padding());
    let epoch_root = tree.epoch_root_with(block_root);
    proof {
        assert(filled.last().last() =~= staged@);
        assert(filled.last().drop_last() =~= before.last().drop_last());
        assert(crate::tree::block_roots(filled.last()) =~= crate::tree::block_roots(
            before.last().drop_last(),
        ).push(block_root@));
    }
    match block_asserted {
        Some(root) => {
            if root != block_root {
                return Err(Error::RootMismatch);
            }
        },
        None => {},
    }
    match epoch_asserted {
        Some(root) => {
            if root != epoch_root {
                return Err(Error::RootMismatch);
            }
        },
        None => {},
    }
    tree.set_block(staged);
    proof {
        assert(tree@ =~~= filled);
    }
    let ended = if ends_epoch {
        tree.end_epoch()
    } else {
        tree.end_block()
    };
    match ended {
        Ok(_) => Ok(
            Applied { height, kept, nullifiers, block_root, epoch_root, ended_epoch: ends_epoch },
        ),
        Err(error) => {
            proof {
                assert(false);
            }
            Err(error)
        },
    }
}

/// The hash that a message asserts: none where it asserts none, and no
/// answer where what it carries has not the length of a hash.
pub open spec fn asserted(root: Option<MerkleRoot>) -> Option<Option<hash::Hash>> {
    match root {
        None => Some(None),
        Some(carried) => match carried.digest() {
            Some(digest) => Some(Some(hash::Hash::of(digest))),
            None => None,
        },
    }
}

fn read_root(root: &Option<MerkleRoot>) -> (read: Option<Option<hash::Hash>>)
    ensures
        read == asserted(*root),
{
    match root {
        None => Some(None),
        Some(carried) => match carried.to_hash() {
            Some(found) => {
                proof {
                    found.lemma_of();
                }
                Some(Some(found))
            },
            None => None,
        },
    }
}

/// Whether a compact block can be read: each of its notes carries a
/// commitment, each of its nullifiers has the length of one, and the roots
/// it asserts have the length of a hash.
pub open spec fn legible(block: CompactBlock) -> bool {
    &&& block.readable()
    &&& block.spent_readable()
    &&& asserted(block.block_root) is Some
    &&& asserted(block.epoch_root) is Some
}

/// Applies one compact block to the tree. `keep` says of each note of the
/// block, in order, whether its commitment is to be kept for later proofs.
/// The block ends its epoch where its height is the last of an epoch of
/// `epoch_duration` blocks. A block that cannot be read is refused as
/// `Malformed`; one that can is applied or refused as `apply` does. A block
/// that is refused leaves the tree as it was.
pub fn scan_block(tree: &mut Tree, block: &CompactBlock, keep: &Vec<bool>, epoch_duration: u64) -> (result:
    Result<Applied, Error>)
    requires
        old(tree).wf(),
    ensures
        final(tree).wf(),
        result matches Err(_) ==> *final(tree) == *old(tree),
        result matches Ok(applied) ==> applied.height == block.height,
        !legible(*block) ==> result == Err::<Applied, Error>(Error::Malformed),
        legible(*block) ==> applies(
            old(tree)@,
            final(tree)@,
            result,
            block.spec_commitments(),
            keep@,
            block.spec_spent(),
            ends_epoch(block.height, epoch_duration),
            asserted(block.block_root)->0,
            asserted(block.epoch_root)->0,
        ),
{
    let commitments = match block.commitments() {
        Ok(found) => found,
        Err(error) => {
            return Err(error);
        },
    };
    let nullifiers = match block.spent() {
        Ok(found) => found,
        Err(error) => {
            return Err(error);
        },
    };
    let block_asserted = match read_root(&block.block_root) {
        Some(read) => read,
        None => {
            return Err(Error::Malformed);
        },
    };
    let epoch_asserted = match read_root(&block.epoch_root) {
        Some(read) => read,
        None => {
            return Err(Error::Malformed);
        },
    };
    apply(
        tree,
        block.height,
        &commitments,
        keep,
        nullifiers,
        is_epoch_end(block.height, epoch_duration),
        block_asserted,
        epoch_asserted,
    )
}

} // verus!
