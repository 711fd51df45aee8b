use tct::complete::Complete;
use tct::error::Error;
use tct::hash::{empty_hash, hash, Commitment, GetHash, Padding};
use tct::leaf::Leaf;
use tct::node::Node;
use tct::tier::Tier;
use tct::tree::{Position, Proof, Tree};

fn commitment(n: u32) -> Commitment {
    let mut bytes = [0u8; 32];
    bytes[0] = n as u8;
    bytes[1] = (n >> 8) as u8;
    bytes[6] = 5;
    Commitment { bytes }
}

fn at(epoch: u16, block: u16, commitment: u16) -> Position {
    Position { epoch, block, commitment }
}

/// The root of a sequence of hashes, computed from the sequence alone.
fn reference_root(base: u8, height: u8, leaves: &[tct::hash::Hash]) -> tct::hash::Hash {
    if leaves.is_empty() {
        return empty_hash(base + height);
    }
    if height == 0 {
        return leaves[0];
    }
    let width = 4usize.pow(height as u32 - 1);
    let part = |i: usize| {
        let lo = (i * width).min(leaves.len());
        let hi = ((i + 1) * width).min(leaves.len());
        reference_root(base, height - 1, &leaves[lo..hi])
    };
    hash(base + height, &[part(0), part(1), part(2), part(3)])
}

/// The root of a tree given as epochs of blocks of commitments.
fn reference_tree_root(epochs: &[Vec<Vec<Commitment>>]) -> tct::hash::Hash {
    let epoch_roots: Vec<_> = epochs
        .iter()
        .map(|epoch| {
            let block_roots: Vec<_> = epoch
                .iter()
                .map(|block| {
                    let leaves: Vec<_> = block.iter().map(|c| c.hash()).collect();
                    reference_root(0, 8, &leaves)
                })
                .collect();
            reference_root(8, 8, &block_roots)
        })
        .collect();
    reference_root(16, 8, &epoch_roots)
}

/// A tree of three epochs: positions in an epoch that was ended, in a block
/// that was ended in the current epoch, and in the current block.
fn sample() -> (Tree, Vec<(Position, Commitment)>) {
    let mut tree = Tree::new();
    let mut held = Vec::new();
    let mut n = 0;
    for epoch in 0..3 {
        for block in 0..3 {
            for _ in 0..(epoch + 2 * block + 1) {
                held.push((tree.insert(commitment(n)).unwrap(), commitment(n)));
                n += 1;
            }
            if block < 2 {
                tree.end_block().unwrap();
            }
        }
        if epoch < 2 {
            tree.end_epoch().unwrap();
        }
    }
    (tree, held)
}

/// A complete node of the given height over leaves that are all `leaf`.
fn full<Item: Clone>(height: u8, leaf: &Leaf<Item>, hashes: &[tct::hash::Hash]) -> Node<Item> {
    if height == 0 {
        return Node::Leaf(leaf.clone());
    }
    let children = (0..4).map(|_| full(height - 1, leaf, hashes)).collect();
    Node::Complete { children, hash: hashes[height as usize] }
}

/// A tier that lacks one item to be full, each item being `leaf`.
fn nearly_full<Item: Clone + GetHash>(base: u8, leaf: &Leaf<Item>) -> Tier<Item> {
    let mut hashes = vec![leaf.hash()];
    for height in 1..=8u8 {
        let below = hashes[height as usize - 1];
        hashes.push(hash(base + height, &[below, below, below, below]));
    }
    let mut node = Node::Active { children: (0..3).map(|_| full(0, leaf, &hashes)).collect() };
    for height in 2..=8u8 {
        let mut children: Vec<Node<Item>> =
            (0..3).map(|_| full(height - 1, leaf, &hashes)).collect();
        children.push(node);
        node = Node::Active { children };
    }
    Tier::from_parts_unchecked(base, false, node)
}

/// A block that was ended with nothing in it; `hash` is the empty hash of
/// its height.
fn empty_block(hash: tct::hash::Hash) -> Complete<Commitment> {
    let node = Node::Complete { children: Vec::new(), hash };
    Complete::from_tier(Tier::from_parts_unchecked(0, true, node)).unwrap()
}

/// An epoch that was ended with nothing in it; `hash` is the empty hash of
/// its height.
fn empty_epoch(hash: tct::hash::Hash) -> Complete<Complete<Commitment>> {
    let node = Node::Complete { children: Vec::new(), hash };
    Complete::from_tier(Tier::from_parts_unchecked(8, true, node)).unwrap()
}

#[test]
fn the_root_of_an_empty_tree_is_the_empty_hash() {
    let tree = Tree::new();
    assert_eq!(tree.root(), empty_hash(24));
    assert_eq!(tree.block_root(), empty_hash(8));
    assert_eq!(tree.epoch_root(), empty_hash(16));
    assert_eq!(tree.position(), Some(at(0, 0, 0)));
    assert_eq!(tree.place(), (0, 0, 0));
}

#[test]
fn insert_gives_positions_in_order() {
    let mut tree = Tree::new();
    assert_eq!(tree.insert(commitment(0)), Ok(at(0, 0, 0)));
    assert_eq!(tree.insert(commitment(1)), Ok(at(0, 0, 1)));
    assert_eq!(tree.position(), Some(at(0, 0, 2)));
    tree.end_block().unwrap();
    assert_eq!(tree.insert(commitment(2)), Ok(at(0, 1, 0)));
    tree.end_epoch().unwrap();
    assert_eq!(tree.position(), Some(at(1, 0, 0)));
    assert_eq!(tree.insert(commitment(3)), Ok(at(1, 0, 0)));
    assert_eq!(tree.place(), (1, 0, 1));
    assert_eq!(tree.get(at(0, 0, 1)), Ok(&Leaf::new(commitment(1))));
    assert_eq!(tree.get(at(0, 1, 0)), Ok(&Leaf::new(commitment(2))));
    assert_eq!(tree.get(at(1, 0, 0)), Ok(&Leaf::new(commitment(3))));
    assert_eq!(tree.get(at(1, 0, 1)), Err(Error::UnknownPosition));
    assert_eq!(tree.get(at(0, 2, 0)), Err(Error::UnknownPosition));
    assert_eq!(tree.get(at(2, 0, 0)), Err(Error::UnknownPosition));
}

#[test]
fn the_root_is_the_root_of_the_commitments_by_position() {
    let mut tree = Tree::new();
    let mut epochs = vec![vec![Vec::new()]];
    let mut n = 0;
    for step in 0..14 {
        assert_eq!(tree.root(), reference_tree_root(&epochs));
        if step % 5 == 4 {
            tree.end_epoch().unwrap();
            epochs.push(vec![Vec::new()]);
        } else if step % 3 == 2 {
            tree.end_block().unwrap();
            epochs.last_mut().unwrap().push(Vec::new());
        } else {
            for _ in 0..(step + 1) {
                tree.insert(commitment(n)).unwrap();
                epochs.last_mut().unwrap().last_mut().unwrap().push(commitment(n));
                n += 1;
            }
        }
    }
    assert_eq!(tree.root(), reference_tree_root(&epochs));
}

/// The root of the tree of `height` levels whose leaves, counted from
/// `first`, are those of `leaves` that fall under it, and empty elsewhere.
fn sparse_root(height: u8, first: u64, leaves: &[(u64, tct::hash::Hash)]) -> tct::hash::Hash {
    let width = 1u64 << (2 * height);
    let under: Vec<_> =
        leaves.iter().filter(|(index, _)| first <= *index && *index - first < width).collect();
    if under.is_empty() {
        return empty_hash(height);
    }
    if height == 0 {
        return under[0].1;
    }
    let part = |i: u64| sparse_root(height - 1, first + i * (width / 4), leaves);
    hash(height, &[part(0), part(1), part(2), part(3)])
}

#[test]
fn the_root_is_the_root_of_one_tree_over_all_positions() {
    let (mut tree, held) = sample();
    let leaves: Vec<_> =
        held.iter().map(|(position, commitment)| (position.index(), commitment.hash())).collect();
    assert_eq!(tree.root(), sparse_root(24, 0, &leaves));
    tree.forget(held[2].0).unwrap();
    tree.end_block().unwrap();
    tree.end_epoch().unwrap();
    assert_eq!(tree.root(), sparse_root(24, 0, &leaves));
}

#[test]
fn a_tree_as_the_library_builds_it_is_well_formed() {
    let (mut tree, held) = sample();
    assert!(tree.check());
    tree.forget(held[4].0).unwrap();
    tree.end_epoch().unwrap();
    assert!(tree.check());
    assert!(tree.padding().check());
    assert!(Tree::new().check());
}

#[test]
fn ending_a_block_or_an_epoch_keeps_the_root() {
    let mut tree = Tree::new();
    for n in 0..4 {
        tree.insert(commitment(n)).unwrap();
    }
    let root = tree.root();
    let block = tree.block_root();
    let epoch = tree.epoch_root();
    assert_eq!(tree.end_block(), Ok(block));
    assert_eq!(tree.root(), root);
    assert_eq!(tree.epoch_root(), epoch);
    assert_eq!(tree.block_root(), empty_hash(8));
    assert_eq!(tree.end_block(), Ok(empty_hash(8)));
    assert_eq!(tree.root(), root);
    assert_eq!(tree.end_epoch(), Ok(epoch));
    assert_eq!(tree.root(), root);
    assert_eq!(tree.end_epoch(), Ok(empty_hash(16)));
    assert_eq!(tree.root(), root);
    assert_eq!(tree.position(), Some(at(2, 0, 0)));
}

#[test]
fn block_boundaries_change_the_root() {
    let mut split = Tree::new();
    for n in 0..4 {
        split.insert(commitment(n)).unwrap();
    }
    split.end_block().unwrap();
    assert_eq!(split.insert(commitment(4)), Ok(at(0, 1, 0)));

    let mut joined = Tree::new();
    for n in 0..5 {
        joined.insert(commitment(n)).unwrap();
    }
    assert_ne!(split.root(), joined.root());

    let first: Vec<_> = (0..4).map(commitment).collect();
    let all: Vec<_> = (0..5).map(commitment).collect();
    assert_eq!(split.root(), reference_tree_root(&[vec![first, vec![commitment(4)]]]));
    assert_eq!(joined.root(), reference_tree_root(&[vec![all]]));
}

#[test]
fn forgetting_keeps_the_root() {
    let (mut tree, held) = sample();
    let root = tree.root();
    for (position, _) in &held {
        assert_eq!(tree.forget(*position), Ok(true));
        assert_eq!(tree.root(), root);
    }
    assert_eq!(tree.insert(commitment(200)), Ok(at(2, 2, 7)));
}

#[test]
fn forgetting_twice_is_forgetting_once() {
    let (mut tree, held) = sample();
    let (mut other, _) = sample();
    for (position, _) in &held {
        assert_eq!(tree.forget(*position), Ok(true));
        assert_eq!(tree.forget(*position), Ok(false));
        assert_eq!(other.forget(*position), Ok(true));
    }
    assert_eq!(tree.root(), other.root());
    for (position, held) in &held {
        assert_eq!(tree.get(*position), Ok(&Leaf::Forgotten(held.hash())));
        assert_eq!(tree.get(*position).ok(), other.get(*position).ok());
        assert_eq!(tree.witness(*position), Ok(None));
    }
}

#[test]
fn forgetting_leaves_the_other_commitments() {
    let (mut tree, held) = sample();
    let (gone, _) = held[7];
    assert_eq!(tree.forget(gone), Ok(true));
    for (position, commitment) in &held {
        if *position == gone {
            assert_eq!(tree.get(*position), Ok(&Leaf::Forgotten(commitment.hash())));
        } else {
            assert_eq!(tree.get(*position), Ok(&Leaf::new(*commitment)));
        }
    }
}

#[test]
fn forgetting_what_was_never_inserted_is_reported() {
    let (mut tree, _) = sample();
    let root = tree.root();
    for position in [at(0, 0, 1), at(0, 3, 0), at(1, 1, 4), at(2, 2, 7), at(2, 3, 0), at(3, 0, 0)]
    {
        assert_eq!(tree.forget(position), Err(Error::UnknownPosition));
        assert_eq!(tree.witness(position).err(), Some(Error::UnknownPosition));
    }
    assert_eq!(tree.root(), root);
}

#[test]
fn a_witness_leads_to_the_root() {
    let (tree, held) = sample();
    let root = tree.root();
    for (position, commitment) in &held {
        let proof = tree.witness(*position).unwrap().unwrap();
        assert_eq!(proof.position, *position);
        assert_eq!(proof.commitment, *commitment);
        assert_eq!(proof.path.len(), 24);
        assert_eq!(proof.root(), Some(root));
        assert_eq!(proof.verify(&root), Ok(()));
    }
}

#[test]
fn a_witness_leads_to_the_root_computed_by_hand() {
    let (tree, held) = sample();
    let root = tree.root();
    for (position, commitment) in &held {
        let proof = tree.witness(*position).unwrap().unwrap();
        let index = ((position.epoch as u64) << 32)
            | ((position.block as u64) << 16)
            | position.commitment as u64;
        let mut found = commitment.hash();
        for level in 1..=24u8 {
            let child = ((index >> (2 * (level - 1))) & 3) as usize;
            let mut all = proof.path[level as usize - 1].to_vec();
            all.insert(child, found);
            found = hash(level, &[all[0], all[1], all[2], all[3]]);
        }
        assert_eq!(found, root);
    }
}

#[test]
fn a_witness_stays_good_while_others_are_forgotten() {
    let (mut tree, held) = sample();
    let (position, _) = held[10];
    let before = tree.witness(position).unwrap().unwrap();
    for (other, _) in &held {
        if *other != position {
            tree.forget(*other).unwrap();
        }
    }
    let after = tree.witness(position).unwrap().unwrap();
    assert_eq!(before, after);
    assert_eq!(after.verify(&tree.root()), Ok(()));
}

#[test]
fn there_is_no_witness_for_what_was_forgotten() {
    let (mut tree, held) = sample();
    for (position, _) in [held[0], held[12], held[held.len() - 1]] {
        assert!(tree.witness(position).unwrap().is_some());
        assert_eq!(tree.forget(position), Ok(true));
        assert_eq!(tree.witness(position), Ok(None));
    }
}

#[test]
fn a_proof_for_another_root_is_refused() {
    let (mut tree, held) = sample();
    let (position, other) = (held[3].0, held[4].1);
    let proof = tree.witness(position).unwrap().unwrap();
    let root = tree.root();
    tree.insert(commitment(300)).unwrap();
    assert_ne!(tree.root(), root);
    assert_eq!(proof.verify(&tree.root()), Err(Error::RootMismatch));
    assert_eq!(proof.verify(&root), Ok(()));

    let forged = Proof { commitment: other, ..proof.clone() };
    assert_eq!(forged.verify(&root), Err(Error::RootMismatch));
    let moved = Proof { position: at(0, 0, 1), ..proof.clone() };
    assert_eq!(moved.verify(&root), Err(Error::RootMismatch));
    let mut bent = proof.clone();
    bent.path[17][1] = empty_hash(3);
    assert_eq!(bent.verify(&root), Err(Error::RootMismatch));
    let mut short = proof.clone();
    short.path.pop();
    assert_eq!(short.root(), None);
    assert_eq!(short.verify(&root), Err(Error::RootMismatch));
}

#[test]
fn a_full_block_refuses_with_block_full() {
    let leaf = Leaf::Forgotten(commitment(1).hash());
    let mut block: Tier<Commitment> = nearly_full(0, &leaf);
    let padding = Padding::new();
    assert_eq!(block.insert(commitment(2), &padding), Ok(65535));
    let mut tree =
        Tree::from_parts(Tier::new(16).unwrap(), Tier::new(8).unwrap(), block).unwrap();
    assert_eq!(tree.place(), (0, 0, 65536));
    assert_eq!(tree.position(), None);
    let root = tree.root();
    assert_eq!(tree.insert(commitment(3)), Err(Error::BlockFull));
    assert_eq!(tree.root(), root);
    assert_eq!(tree.place(), (0, 0, 65536));
    assert_eq!(tree.get(at(0, 0, 65535)), Ok(&Leaf::new(commitment(2))));
    assert!(tree.end_block().is_ok());
    assert_eq!(tree.root(), root);
    assert_eq!(tree.insert(commitment(3)), Ok(at(0, 1, 0)));
    assert_eq!(tree.witness(at(0, 0, 65535)).unwrap().unwrap().verify(&tree.root()), Ok(()));
}

/// A complete node of the given height over leaves that `leaf` makes.
fn full_of<Item>(
    height: u8,
    leaf: &dyn Fn() -> Leaf<Item>,
    hashes: &[tct::hash::Hash],
) -> Node<Item> {
    if height == 0 {
        return Node::Leaf(leaf());
    }
    let children = (0..4).map(|_| full_of(height - 1, leaf, hashes)).collect();
    Node::Complete { children, hash: hashes[height as usize] }
}

/// A tier that lacks one item to be full, each item being an empty tier.
fn nearly_full_of<Item: GetHash>(base: u8, leaf: &dyn Fn() -> Leaf<Item>) -> Tier<Item> {
    let hashes: Vec<_> = (0..=8u8).map(|height| empty_hash(base + height)).collect();
    let mut node = Node::Active { children: (0..3).map(|_| full_of(0, leaf, &hashes)).collect() };
    for height in 2..=8u8 {
        let mut children: Vec<Node<Item>> =
            (0..3).map(|_| full_of(height - 1, leaf, &hashes)).collect();
        children.push(node);
        node = Node::Active { children };
    }
    Tier::from_parts_unchecked(base, false, node)
}

#[test]
fn a_full_epoch_refuses_with_epoch_full() {
    let empty = empty_hash(8);
    let epoch = nearly_full_of(8, &|| Leaf::Complete(empty_block(empty), empty));
    let mut tree =
        Tree::from_parts(Tier::new(16).unwrap(), epoch, Tier::new(0).unwrap()).unwrap();
    assert_eq!(tree.place(), (0, 65535, 0));
    assert_eq!(tree.root(), empty_hash(24));
    assert_eq!(tree.end_block(), Err(Error::EpochFull));
    assert_eq!(tree.place(), (0, 65535, 0));
    assert_eq!(tree.insert(commitment(1)), Ok(at(0, 65535, 0)));
    let root = tree.root();
    assert_eq!(tree.end_block(), Err(Error::EpochFull));
    assert_eq!(tree.root(), root);
    assert!(tree.end_epoch().is_ok());
    assert_eq!(tree.root(), root);
    assert_eq!(tree.insert(commitment(2)), Ok(at(1, 0, 0)));
    assert_eq!(tree.witness(at(0, 65535, 0)).unwrap().unwrap().verify(&tree.root()), Ok(()));
}

#[test]
fn a_full_tree_refuses_with_full() {
    let empty = empty_hash(16);
    let eternity = nearly_full_of(16, &|| Leaf::Complete(empty_epoch(empty), empty));
    let mut tree =
        Tree::from_parts(eternity, Tier::new(8).unwrap(), Tier::new(0).unwrap()).unwrap();
    assert_eq!(tree.place(), (65535, 0, 0));
    assert_eq!(tree.end_epoch(), Err(Error::Full));
    assert_eq!(tree.insert(commitment(1)), Ok(at(65535, 0, 0)));
    assert!(tree.end_block().is_ok());
    let root = tree.root();
    assert_eq!(tree.end_epoch(), Err(Error::Full));
    assert_eq!(tree.root(), root);
    assert_eq!(tree.place(), (65535, 1, 0));
    assert_eq!(tree.witness(at(65535, 0, 0)).unwrap().unwrap().verify(&root), Ok(()));
}

#[test]
fn a_tree_made_of_its_own_parts_is_the_same() {
    let (mut tree, held) = sample();
    tree.forget(held[5].0).unwrap();
    let root = tree.root();
    let padding = Padding::new();
    let (eternity, epoch, block) = tree.into_parts();
    let (base, sealed, node) = eternity.into_parts();
    let eternity = Tier::from_parts(base, sealed, node, &padding).unwrap();
    let (base, sealed, node) = epoch.into_parts();
    let epoch = Tier::from_parts(base, sealed, node, &padding).unwrap();
    let (base, sealed, node) = block.into_parts();
    let block = Tier::from_parts(base, sealed, node, &padding).unwrap();
    let mut again = Tree::from_parts(eternity, epoch, block).unwrap();
    assert_eq!(again.root(), root);
    for (position, commitment) in &held {
        if *position == held[5].0 {
            assert_eq!(again.get(*position), Ok(&Leaf::Forgotten(commitment.hash())));
            assert_eq!(again.witness(*position), Ok(None));
        } else {
            assert_eq!(again.get(*position), Ok(&Leaf::new(*commitment)));
            assert_eq!(again.witness(*position).unwrap().unwrap().verify(&root), Ok(()));
        }
    }
    assert_eq!(again.insert(commitment(400)), Ok(at(2, 2, 7)));
}

#[test]
fn a_tree_of_tiers_that_do_not_fit_is_malformed() {
    let padding = Padding::new();
    let eternity = || Tier::<Complete<Complete<Commitment>>>::new(16).unwrap();
    let epoch = || Tier::<Complete<Commitment>>::new(8).unwrap();
    let block = || Tier::<Commitment>::new(0).unwrap();
    assert!(Tree::from_parts(eternity(), epoch(), block()).is_ok());
    // Tiers at the wrong height.
    let wrong = Tier::<Commitment>::new(8).unwrap();
    assert_eq!(Tree::from_parts(eternity(), epoch(), wrong).err(), Some(Error::Malformed));
    let wrong = Tier::<Complete<Commitment>>::new(0).unwrap();
    assert_eq!(Tree::from_parts(eternity(), wrong, block()).err(), Some(Error::Malformed));
    let wrong = Tier::<Complete<Complete<Commitment>>>::new(8).unwrap();
    assert_eq!(Tree::from_parts(wrong, epoch(), block()).err(), Some(Error::Malformed));
    // A current block that was sealed.
    let mut sealed = block();
    sealed.seal(&padding);
    assert_eq!(Tree::from_parts(eternity(), epoch(), sealed).err(), Some(Error::Malformed));
    // A block within the epoch that stands at the wrong height.
    let mut holds = epoch();
    let inner = Complete::seal(Tier::<Commitment>::new(8).unwrap(), &padding);
    holds.insert(inner, &padding).unwrap();
    assert_eq!(Tree::from_parts(eternity(), holds, block()).err(), Some(Error::Malformed));
    // A block within the epoch of which only the hash is left.
    let mut holds = epoch();
    holds.insert_leaf(Leaf::Forgotten(empty_hash(8)), &padding).unwrap();
    assert_eq!(Tree::from_parts(eternity(), holds, block()).err(), Some(Error::Malformed));
}
