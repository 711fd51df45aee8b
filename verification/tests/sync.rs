use tct::chain::{AnnotatedNotePayload, CompactBlock};
use tct::crypto::{MerkleRoot, NoteCommitment, NotePayload, Nullifier};
use tct::error::Error;
use tct::hash::{empty_hash, hash, Commitment, GetHash};
use tct::leaf::Leaf;
use tct::node::Node;
use tct::sync::{apply, end_height, is_epoch_end, scan_block, start_height, Applied};
use tct::tier::Tier;
use tct::tree::{Position, Tree};

fn commitment(n: u32) -> Commitment {
    let mut bytes = [0u8; 32];
    bytes[0] = n as u8;
    bytes[1] = (n >> 8) as u8;
    bytes[8] = 8;
    Commitment { bytes }
}

fn at(epoch: u16, block: u16, commitment: u16) -> Position {
    Position { epoch, block, commitment }
}

fn note(commitment: Option<Vec<u8>>) -> AnnotatedNotePayload {
    AnnotatedNotePayload {
        payload: Some(NotePayload {
            note_commitment: commitment.map(|inner| NoteCommitment { inner }),
            ephemeral_key: Vec::new(),
            encrypted_note: Vec::new(),
        }),
        source: None,
    }
}

fn block(height: u64, commitments: &[Commitment]) -> CompactBlock {
    CompactBlock {
        height,
        note_payloads: commitments.iter().map(|c| note(Some(c.bytes.to_vec()))).collect(),
        nullifiers: Vec::new(),
        block_root: None,
        epoch_root: None,
        quarantined: None,
        slashed: Vec::new(),
        proposal_started: false,
        fmd_parameters: None,
    }
}

#[test]
fn syncing_starts_after_the_last_height() {
    assert_eq!(start_height(None), 0);
    assert_eq!(start_height(Some(0)), 1);
    assert_eq!(start_height(Some(41)), 42);
    assert_eq!(start_height(Some(u64::MAX - 1)), u64::MAX);
}

#[test]
fn an_epoch_ends_at_its_last_height() {
    assert!(is_epoch_end(9, 10));
    assert!(!is_epoch_end(10, 10));
    assert!(!is_epoch_end(0, 10));
    assert!(is_epoch_end(19, 10));
    assert!(is_epoch_end(0, 1));
    assert!(is_epoch_end(7, 1));
    assert!(!is_epoch_end(7, 0));
    assert!(is_epoch_end(u64::MAX, u64::MAX / 2 + 1));
}

#[test]
fn applying_a_block_is_inserting_forgetting_and_ending_it() {
    let commitments: Vec<_> = (0..5).map(commitment).collect();
    let keep = vec![true, false, false, true, true];
    let mut tree = Tree::new();
    let applied = apply(&mut tree, 12, &commitments, &keep, Vec::new(), false, None, None).unwrap();

    let mut by_hand = Tree::new();
    for (n, kept) in keep.iter().enumerate() {
        let position = by_hand.insert(commitments[n]).unwrap();
        if !kept {
            by_hand.forget(position).unwrap();
        }
    }
    let block_root = by_hand.block_root();
    let epoch_root = by_hand.epoch_root();
    by_hand.end_block().unwrap();

    assert_eq!(
        applied,
        Applied {
            height: 12,
            kept: vec![at(0, 0, 0), at(0, 0, 3), at(0, 0, 4)],
            nullifiers: Vec::new(),
            block_root,
            epoch_root,
            ended_epoch: false,
        }
    );
    assert_eq!(tree.root(), by_hand.root());
    assert_eq!(tree.place(), (0, 1, 0));
    for (n, kept) in keep.iter().enumerate() {
        let position = at(0, 0, n as u16);
        if *kept {
            assert_eq!(tree.get(position), Ok(&Leaf::new(commitments[n])));
            assert_eq!(tree.witness(position).unwrap().unwrap().verify(&tree.root()), Ok(()));
        } else {
            assert_eq!(tree.get(position), Ok(&Leaf::Forgotten(commitments[n].hash())));
            assert_eq!(tree.witness(position), Ok(None));
        }
    }
}

#[test]
fn applying_a_block_adds_to_what_the_current_block_holds() {
    let mut tree = Tree::new();
    tree.insert(commitment(0)).unwrap();
    tree.insert(commitment(1)).unwrap();
    tree.forget(at(0, 0, 0)).unwrap();
    let commitments = vec![commitment(2), commitment(3)];
    let applied =
        apply(&mut tree, 0, &commitments, &vec![false, true], Vec::new(), true, None, None).unwrap();
    assert_eq!(applied.kept, vec![at(0, 0, 3)]);
    assert!(applied.ended_epoch);
    assert_eq!(tree.place(), (1, 0, 0));
    assert_eq!(tree.get(at(0, 0, 0)), Ok(&Leaf::Forgotten(commitment(0).hash())));
    assert_eq!(tree.get(at(0, 0, 1)), Ok(&Leaf::new(commitment(1))));
    assert_eq!(tree.get(at(0, 0, 2)), Ok(&Leaf::Forgotten(commitment(2).hash())));
    assert_eq!(tree.get(at(0, 0, 3)), Ok(&Leaf::new(commitment(3))));
    assert_eq!(tree.get(at(0, 0, 4)), Err(Error::UnknownPosition));
}

#[test]
fn a_block_without_commitments_ends_the_block() {
    let mut tree = Tree::new();
    let applied = apply(&mut tree, 5, &Vec::new(), &Vec::new(), Vec::new(), false, None, None).unwrap();
    assert_eq!(applied.kept, Vec::new());
    assert_eq!(applied.block_root, empty_hash(8));
    assert_eq!(applied.epoch_root, empty_hash(16));
    assert_eq!(tree.place(), (0, 1, 0));
    assert_eq!(tree.root(), empty_hash(24));
}

#[test]
fn a_block_with_the_roots_it_asserts_is_applied() {
    let commitments: Vec<_> = (0..3).map(commitment).collect();
    let keep = vec![true; 3];
    let mut first = Tree::new();
    first.insert(commitment(9)).unwrap();
    first.end_block().unwrap();
    let mut second = Tree::new();
    second.insert(commitment(9)).unwrap();
    second.end_block().unwrap();
    let applied = apply(&mut first, 1, &commitments, &keep, Vec::new(), false, None, None).unwrap();
    let again = apply(
        &mut second,
        1,
        &commitments,
        &keep,
        Vec::new(),
        false,
        Some(applied.block_root),
        Some(applied.epoch_root),
    );
    assert_eq!(again, Ok(applied));
    assert_eq!(first.root(), second.root());
}

#[test]
fn a_block_with_another_root_is_refused_and_leaves_the_tree() {
    let commitments: Vec<_> = (0..3).map(commitment).collect();
    let keep = vec![true, false, true];
    let mut tree = Tree::new();
    tree.insert(commitment(7)).unwrap();
    let root = tree.root();
    let good = apply(&mut Tree::new(), 0, &commitments, &keep, Vec::new(), false, None, None).unwrap();
    // The roots of the same commitments in an empty tree are not the roots
    // that they have after the commitment that this tree holds.
    for (block_root, epoch_root) in [
        (Some(good.block_root), None),
        (None, Some(good.epoch_root)),
        (Some(empty_hash(8)), Some(empty_hash(16))),
    ] {
        assert_eq!(
            apply(&mut tree, 0, &commitments, &keep, Vec::new(), false, block_root, epoch_root),
            Err(Error::RootMismatch)
        );
        assert_eq!(tree.root(), root);
        assert_eq!(tree.place(), (0, 0, 1));
        assert_eq!(tree.get(at(0, 0, 1)), Err(Error::UnknownPosition));
    }
    assert!(apply(&mut tree, 0, &commitments, &keep, Vec::new(), false, None, None).is_ok());
    assert_eq!(tree.place(), (0, 1, 0));
}

#[test]
fn flags_that_do_not_match_the_commitments_are_malformed() {
    let commitments: Vec<_> = (0..3).map(commitment).collect();
    let mut tree = Tree::new();
    for keep in [vec![true, true], vec![true; 4], Vec::new()] {
        assert_eq!(
            apply(&mut tree, 0, &commitments, &keep, Vec::new(), false, None, None),
            Err(Error::Malformed)
        );
        assert_eq!(tree.place(), (0, 0, 0));
    }
}

/// A complete node of the given height over leaves that all keep `leaf`.
fn full(height: u8, leaf: tct::hash::Hash, hashes: &[tct::hash::Hash]) -> Node<Commitment> {
    if height == 0 {
        return Node::Leaf(Leaf::Forgotten(leaf));
    }
    let children = (0..4).map(|_| full(height - 1, leaf, hashes)).collect();
    Node::Complete { children, hash: hashes[height as usize] }
}

#[test]
fn a_block_with_more_commitments_than_fit_is_refused_and_leaves_the_tree() {
    let leaf = commitment(1).hash();
    let mut hashes = vec![leaf];
    for height in 1..=8u8 {
        let below = hashes[height as usize - 1];
        hashes.push(hash(height, &[below, below, below, below]));
    }
    let mut node = Node::Active { children: (0..3).map(|_| full(0, leaf, &hashes)).collect() };
    for height in 2..=8u8 {
        let mut children: Vec<Node<Commitment>> =
            (0..3).map(|_| full(height - 1, leaf, &hashes)).collect();
        children.push(node);
        node = Node::Active { children };
    }
    let held = Tier::from_parts_unchecked(0, false, node);
    let mut tree = Tree::from_parts(Tier::new(16).unwrap(), Tier::new(8).unwrap(), held).unwrap();
    assert_eq!(tree.place(), (0, 0, 65535));
    let root = tree.root();
    let two = vec![commitment(2), commitment(3)];
    assert_eq!(
        apply(&mut tree, 0, &two, &vec![true, true], Vec::new(), false, None, None),
        Err(Error::BlockFull)
    );
    assert_eq!(tree.root(), root);
    assert_eq!(tree.place(), (0, 0, 65535));
    let one = vec![commitment(2)];
    let applied = apply(&mut tree, 0, &one, &vec![true], Vec::new(), false, None, None).unwrap();
    assert_eq!(applied.kept, vec![at(0, 0, 65535)]);
    assert_eq!(tree.place(), (0, 1, 0));
    assert_eq!(tree.witness(at(0, 0, 65535)).unwrap().unwrap().verify(&tree.root()), Ok(()));
}

#[test]
fn scanning_a_compact_block_applies_its_notes() {
    let commitments: Vec<_> = (0..4).map(commitment).collect();
    let keep = vec![false, true, false, true];
    let mut tree = Tree::new();
    let scanned = scan_block(&mut tree, &block(3, &commitments), &keep, 10).unwrap();
    let mut other = Tree::new();
    let applied = apply(&mut other, 3, &commitments, &keep, Vec::new(), false, None, None).unwrap();
    assert_eq!(scanned, applied);
    assert_eq!(scanned.kept, vec![at(0, 0, 1), at(0, 0, 3)]);
    assert_eq!(scanned.height, 3);
    assert_eq!(tree.root(), other.root());
    assert_eq!(tree.place(), (0, 1, 0));
}

#[test]
fn scanning_the_last_block_of_an_epoch_ends_the_epoch() {
    let mut tree = Tree::new();
    for height in 0..7u64 {
        let commitments = vec![commitment(height as u32)];
        let scanned = scan_block(&mut tree, &block(height, &commitments), &vec![true], 3).unwrap();
        assert_eq!(scanned.ended_epoch, height % 3 == 2);
        assert_eq!(
            scanned.kept,
            vec![at((height / 3) as u16, (height % 3) as u16, 0)]
        );
    }
    assert_eq!(tree.place(), (2, 1, 0));
}

#[test]
fn scanning_checks_the_roots_that_the_block_asserts() {
    let commitments: Vec<_> = (0..4).map(commitment).collect();
    let keep = vec![true; 4];
    let good = scan_block(&mut Tree::new(), &block(0, &commitments), &keep, 10).unwrap();

    let mut asserted = block(0, &commitments);
    asserted.block_root = Some(MerkleRoot::from_hash(&good.block_root));
    asserted.epoch_root = Some(MerkleRoot::from_hash(&good.epoch_root));
    let mut tree = Tree::new();
    assert_eq!(scan_block(&mut tree, &asserted, &keep, 10), Ok(good.clone()));

    let mut wrong = block(0, &commitments);
    wrong.block_root = Some(MerkleRoot::from_hash(&good.epoch_root));
    let mut tree = Tree::new();
    assert_eq!(scan_block(&mut tree, &wrong, &keep, 10), Err(Error::RootMismatch));
    assert_eq!(tree.place(), (0, 0, 0));
    assert_eq!(tree.root(), empty_hash(24));

    let mut wrong = block(0, &commitments);
    wrong.epoch_root = Some(MerkleRoot::from_hash(&good.block_root));
    assert_eq!(scan_block(&mut tree, &wrong, &keep, 10), Err(Error::RootMismatch));
    assert_eq!(tree.place(), (0, 0, 0));
}

#[test]
fn scanning_a_block_that_cannot_be_read_is_malformed() {
    let commitments: Vec<_> = (0..2).map(commitment).collect();
    let keep = vec![true; 2];
    let mut tree = Tree::new();

    let mut short = block(0, &commitments);
    short.note_payloads[1] = note(Some(vec![1; 31]));
    assert_eq!(scan_block(&mut tree, &short, &keep, 10), Err(Error::Malformed));

    let mut bare = block(0, &commitments);
    bare.note_payloads[0] = note(None);
    assert_eq!(scan_block(&mut tree, &bare, &keep, 10), Err(Error::Malformed));

    let mut root = block(0, &commitments);
    root.block_root = Some(MerkleRoot { inner: vec![0; 5] });
    assert_eq!(scan_block(&mut tree, &root, &keep, 10), Err(Error::Malformed));

    let mut root = block(0, &commitments);
    root.epoch_root = Some(MerkleRoot { inner: Vec::new() });
    assert_eq!(scan_block(&mut tree, &root, &keep, 10), Err(Error::Malformed));

    assert_eq!(scan_block(&mut tree, &block(0, &commitments), &vec![true], 10), Err(Error::Malformed));
    assert_eq!(tree.place(), (0, 0, 0));
    assert_eq!(tree.root(), empty_hash(24));
}

#[test]
fn a_pass_ends_at_the_last_height_that_was_applied() {
    assert_eq!(end_height(Some(0)), Ok(0));
    assert_eq!(end_height(Some(41)), Ok(41));
    assert_eq!(end_height(Some(u64::MAX)), Ok(u64::MAX));
    assert_eq!(end_height(None), Err(Error::NothingSynced));
}

#[test]
fn the_nullifiers_of_a_block_are_handed_on() {
    let commitments: Vec<_> = (0..2).map(commitment).collect();
    let spent = vec![[7u8; 32], [9u8; 32], [7u8; 32]];
    let mut tree = Tree::new();
    let applied =
        apply(&mut tree, 4, &commitments, &vec![true, false], spent.clone(), false, None, None)
            .unwrap();
    assert_eq!(applied.nullifiers, spent);
    assert_eq!(applied.kept, vec![at(0, 0, 0)]);
    // The nullifiers do not enter the tree.
    let mut other = Tree::new();
    apply(&mut other, 4, &commitments, &vec![true, false], Vec::new(), false, None, None).unwrap();
    assert_eq!(tree.root(), other.root());
    assert_eq!(tree.place(), other.place());

    let mut carried = block(4, &commitments);
    carried.nullifiers =
        spent.iter().map(|bytes| Nullifier { inner: bytes.to_vec() }).collect();
    let scanned = scan_block(&mut Tree::new(), &carried, &vec![true, false], 10).unwrap();
    assert_eq!(scanned, applied);
}

#[test]
fn scanning_a_block_with_a_nullifier_that_cannot_be_read_is_malformed() {
    let commitments: Vec<_> = (0..2).map(commitment).collect();
    let mut tree = Tree::new();
    let mut carried = block(0, &commitments);
    carried.nullifiers = vec![Nullifier { inner: vec![1; 32] }, Nullifier { inner: vec![1; 31] }];
    assert_eq!(carried.spent(), Err(Error::Malformed));
    assert_eq!(scan_block(&mut tree, &carried, &vec![true; 2], 10), Err(Error::Malformed));
    assert_eq!(tree.place(), (0, 0, 0));
    assert_eq!(tree.root(), empty_hash(24));
    carried.nullifiers.pop();
    assert_eq!(carried.spent(), Ok(vec![[1u8; 32]]));
    assert!(scan_block(&mut tree, &carried, &vec![true; 2], 10).is_ok());
}

#[test]
fn what_is_kept_does_not_matter_to_the_root() {
    // Two passes over the same blocks: one keeps every commitment, the other
    // none, a third some.
    let flags: [&dyn Fn(usize) -> bool; 3] = [&|_| true, &|_| false, &|n| n % 3 == 1];
    let mut roots = Vec::new();
    for keep in flags {
        let mut tree = Tree::new();
        let mut n = 0;
        let mut seen = Vec::new();
        for height in 0..5u64 {
            let commitments: Vec<_> = (0..(height as u32 + 2)).map(|i| commitment(n + i)).collect();
            n += commitments.len() as u32;
            let keep: Vec<bool> = (0..commitments.len()).map(|i| keep(i)).collect();
            let applied = scan_block(&mut tree, &block(height, &commitments), &keep, 2).unwrap();
            seen.push((applied.block_root, applied.epoch_root, tree.root()));
        }
        roots.push(seen);
    }
    assert_eq!(roots[0], roots[1]);
    assert_eq!(roots[0], roots[2]);
}
