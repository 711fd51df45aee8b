use tct::complete::Complete;
use tct::error::Error;
use tct::hash::{empty_hash, hash, Commitment, GetHash, Padding};
use tct::leaf::Leaf;
use tct::node::Node;
use tct::tier::{Tier, TIER_CAPACITY, TIER_HEIGHT};

fn commitment(n: u32) -> Commitment {
    let mut bytes = [0u8; 32];
    bytes[0] = n as u8;
    bytes[1] = (n >> 8) as u8;
    bytes[4] = 3;
    Commitment { bytes }
}

fn filled(count: u32, padding: &Padding) -> Tier<Commitment> {
    let mut tier = Tier::new(0).unwrap();
    for n in 0..count {
        assert_eq!(tier.insert(commitment(n), padding), Ok(n as u64));
    }
    tier
}

/// The root of a sequence of hashes, computed from the sequence alone.
fn reference_root(base: u8, height: u8, leaves: &[tct::hash::Hash]) -> tct::hash::Hash {
    if leaves.is_empty() {
        return empty_hash(base + height);
    }
    if height == 0 {
        return leaves[0];
    }
    let width = 4usize.pow(height as u32 - 1);
    let part = |i: usize| {
        let lo = (i * width).min(leaves.len());
        let hi = ((i + 1) * width).min(leaves.len());
        reference_root(base, height - 1, &leaves[lo..hi])
    };
    hash(base + height, &[part(0), part(1), part(2), part(3)])
}

fn recombine(
    base: u8,
    index: u64,
    leaf: tct::hash::Hash,
    path: &[[tct::hash::Hash; 3]],
) -> tct::hash::Hash {
    let mut found = leaf;
    for level in 1..=TIER_HEIGHT {
        let child = ((index >> (2 * (level - 1))) & 3) as usize;
        let mut all = path[(level - 1) as usize].to_vec();
        all.insert(child, found);
        found = hash(base + level, &[all[0], all[1], all[2], all[3]]);
    }
    found
}

/// A complete node of the given height over leaves that all hold `leaf`,
/// with the hashes of such nodes, by height, in `hashes`.
fn full(height: u8, leaf: tct::hash::Hash, hashes: &[tct::hash::Hash]) -> Node<Commitment> {
    if height == 0 {
        return Node::Leaf(Leaf::Forgotten(leaf));
    }
    let children = (0..4).map(|_| full(height - 1, leaf, hashes)).collect();
    Node::Complete { children, hash: hashes[height as usize] }
}

fn full_hashes(leaf: tct::hash::Hash) -> Vec<tct::hash::Hash> {
    let mut hashes = vec![leaf];
    for height in 1..=TIER_HEIGHT {
        let below = hashes[height as usize - 1];
        hashes.push(hash(height, &[below, below, below, below]));
    }
    hashes
}

#[test]
fn a_tier_stands_at_most_sixteen_levels_up() {
    assert!(Tier::<Commitment>::new(0).is_some());
    assert!(Tier::<Commitment>::new(16).is_some());
    assert!(Tier::<Commitment>::new(17).is_none());
    assert_eq!(Tier::<Commitment>::new(8).unwrap().base(), 8);
}

#[test]
fn a_new_tier_is_empty() {
    let padding = Padding::new();
    let tier: Tier<Commitment> = Tier::new(0).unwrap();
    assert_eq!(tier.len(), 0);
    assert!(!tier.is_full());
    assert!(!tier.is_sealed());
    assert_eq!(tier.hash(&padding), empty_hash(8));
    assert_eq!(tier.cached(), None);
    assert_eq!(tier.get(0), None);
}

#[test]
fn the_root_of_a_tier_is_the_root_of_its_items() {
    let padding = Padding::new();
    let mut tier: Tier<Commitment> = Tier::new(0).unwrap();
    let mut leaves = Vec::new();
    for n in 0..21 {
        assert_eq!(tier.hash(&padding), reference_root(0, 8, &leaves));
        tier.insert(commitment(n), &padding).unwrap();
        leaves.push(commitment(n).hash());
    }
    assert_eq!(tier.hash(&padding), reference_root(0, 8, &leaves));
    tier.seal(&padding);
    assert_eq!(tier.hash(&padding), reference_root(0, 8, &leaves));
    assert_eq!(tier.cached(), Some(reference_root(0, 8, &leaves)));
}

#[test]
fn the_root_of_a_tier_counts_the_height_of_its_items() {
    let padding = Padding::new();
    let mut low: Tier<Commitment> = Tier::new(0).unwrap();
    let mut high: Tier<Commitment> = Tier::new(8).unwrap();
    low.insert(commitment(1), &padding).unwrap();
    high.insert(commitment(1), &padding).unwrap();
    assert_eq!(low.hash(&padding), reference_root(0, 8, &[commitment(1).hash()]));
    assert_eq!(high.hash(&padding), reference_root(8, 8, &[commitment(1).hash()]));
    assert_ne!(low.hash(&padding), high.hash(&padding));
}

#[test]
fn a_sealed_tier_refuses_with_already_sealed() {
    let padding = Padding::new();
    let mut tier = filled(3, &padding);
    let root = tier.hash(&padding);
    tier.seal(&padding);
    assert!(tier.is_sealed());
    assert_eq!(tier.hash(&padding), root);
    assert_eq!(tier.insert(commitment(3), &padding), Err(Error::AlreadySealed));
    assert_eq!(tier.hash_with(&padding, commitment(3).hash()), None);
    assert_eq!(tier.path_with(0, &padding, commitment(3).hash()), None);
    assert_eq!(tier.len(), 3);
    tier.seal(&padding);
    assert_eq!(tier.hash(&padding), root);
    assert_eq!(tier.len(), 3);
}

#[test]
fn a_full_tier_refuses_with_full() {
    let padding = Padding::new();
    let leaf = commitment(1).hash();
    let hashes = full_hashes(leaf);
    let root = full(TIER_HEIGHT, leaf, &hashes);
    let mut tier: Tier<Commitment> = Tier::from_parts_unchecked(0, false, root);
    assert_eq!(tier.len(), TIER_CAPACITY);
    assert_eq!(tier.len(), 65536);
    assert!(tier.is_full());
    assert!(!tier.is_sealed());
    assert_eq!(tier.hash(&padding), hashes[8]);
    assert_eq!(tier.insert(commitment(2), &padding), Err(Error::Full));
    assert_eq!(tier.insert_leaf(Leaf::Forgotten(leaf), &padding), Err(Error::Full));
    assert_eq!(tier.hash_with(&padding, leaf), None);
    assert_eq!(tier.len(), 65536);
    assert_eq!(tier.hash(&padding), hashes[8]);
    assert_eq!(tier.get(65535), Some(&Leaf::Forgotten(leaf)));
    assert_eq!(tier.get(65536), None);
}

#[test]
fn the_last_item_fills_the_tier() {
    let padding = Padding::new();
    let leaf = commitment(1).hash();
    let hashes = full_hashes(leaf);
    // All but the last leaf: at each height three full children and then the
    // node that is still being filled.
    let mut node = Node::Active {
        children: (0..3).map(|_| full(0, leaf, &hashes)).collect(),
    };
    for height in 2..=TIER_HEIGHT {
        let mut children: Vec<Node<Commitment>> =
            (0..3).map(|_| full(height - 1, leaf, &hashes)).collect();
        children.push(node);
        node = Node::Active { children };
    }
    let mut tier: Tier<Commitment> = Tier::from_parts_unchecked(0, false, node);
    assert_eq!(tier.len(), 65535);
    assert!(!tier.is_full());
    assert_eq!(Tier::<Commitment>::position_of(65535), Some(vec![3u8; 8]));
    assert_eq!(tier.hash_with(&padding, leaf), Some(hashes[8]));
    assert_eq!(tier.insert_leaf(Leaf::Forgotten(leaf), &padding), Ok(65535));
    assert!(tier.is_full());
    assert_eq!(tier.cached(), Some(hashes[8]));
    assert_eq!(tier.insert_leaf(Leaf::Forgotten(leaf), &padding), Err(Error::Full));
}

#[test]
fn the_position_of_an_ordinal_is_its_digits_in_base_four() {
    assert_eq!(Tier::<Commitment>::position_of(0), Some(vec![0, 0, 0, 0, 0, 0, 0, 0]));
    assert_eq!(Tier::<Commitment>::position_of(1), Some(vec![0, 0, 0, 0, 0, 0, 0, 1]));
    assert_eq!(Tier::<Commitment>::position_of(6), Some(vec![0, 0, 0, 0, 0, 0, 1, 2]));
    assert_eq!(Tier::<Commitment>::position_of(16384), Some(vec![1, 0, 0, 0, 0, 0, 0, 0]));
    assert_eq!(Tier::<Commitment>::position_of(27), Some(vec![0, 0, 0, 0, 0, 1, 2, 3]));
    assert_eq!(Tier::<Commitment>::position_of(65535), Some(vec![3, 3, 3, 3, 3, 3, 3, 3]));
    assert_eq!(Tier::<Commitment>::position_of(65536), None);
}

#[test]
fn the_position_of_an_item_leads_to_its_leaf() {
    let padding = Padding::new();
    let tier = filled(23, &padding);
    let (_, _, root) = tier.into_parts();
    for n in 0..23u32 {
        let steps = Tier::<Commitment>::position_of(n as u64).unwrap();
        let mut node = &root;
        for step in steps {
            node = match node {
                Node::Active { children } => &children[step as usize],
                Node::Complete { children, .. } => &children[step as usize],
                Node::Leaf(_) => panic!("a leaf has no children"),
            };
        }
        match node {
            Node::Leaf(leaf) => assert_eq!(leaf, &Leaf::new(commitment(n))),
            _ => panic!("the way ends at a leaf"),
        }
    }
}

#[test]
fn forgetting_in_a_tier_keeps_its_root() {
    let padding = Padding::new();
    let mut tier = filled(9, &padding);
    let root = tier.hash(&padding);
    assert_eq!(tier.forget(4), Ok(true));
    assert_eq!(tier.hash(&padding), root);
    assert_eq!(tier.get(4), Some(&Leaf::Forgotten(commitment(4).hash())));
    assert_eq!(tier.forget(4), Ok(false));
    assert_eq!(tier.forget(9), Err(Error::UnknownPosition));
    assert_eq!(tier.hash(&padding), root);
    assert_eq!(tier.len(), 9);
    assert_eq!(tier.insert(commitment(9), &padding), Ok(9));
}

#[test]
fn a_path_in_a_tier_recombines_to_its_root() {
    let padding = Padding::new();
    let tier = filled(18, &padding);
    let root = tier.hash(&padding);
    for n in 0..18u32 {
        let path = tier.path(n as u64, &padding).unwrap();
        assert_eq!(path.len(), 8);
        assert_eq!(recombine(0, n as u64, commitment(n).hash(), &path), root);
    }
    assert_eq!(tier.path(18, &padding), None);
}

#[test]
fn a_path_with_one_more_item_leads_to_the_root_with_it() {
    let padding = Padding::new();
    let tier = filled(5, &padding);
    let next = commitment(5).hash();
    let root = tier.hash_with(&padding, next).unwrap();
    for n in 0..5u32 {
        let path = tier.path_with(n as u64, &padding, next).unwrap();
        assert_eq!(recombine(0, n as u64, commitment(n).hash(), &path), root);
    }
    let path = tier.path_with(5, &padding, next).unwrap();
    assert_eq!(recombine(0, 5, next, &path), root);
    assert_eq!(tier.path_with(6, &padding, next), None);
}

#[test]
fn a_tier_made_of_its_own_parts_is_the_same() {
    let padding = Padding::new();
    let mut tier = filled(7, &padding);
    tier.forget(2).unwrap();
    let root = tier.hash(&padding);
    let (base, sealed, node) = tier.into_parts();
    assert_eq!((base, sealed), (0, false));
    let mut again = Tier::from_parts(base, sealed, node, &padding).unwrap();
    assert!(again.check(&padding));
    assert_eq!(again.len(), 7);
    assert_eq!(again.hash(&padding), root);
    assert_eq!(again.get(2), Some(&Leaf::Forgotten(commitment(2).hash())));
    assert_eq!(again.get(3), Some(&Leaf::new(commitment(3))));
    assert_eq!(again.insert(commitment(7), &padding), Ok(7));
}

#[test]
fn a_tier_of_parts_that_do_not_fit_is_malformed() {
    let padding = Padding::new();
    let parts = || filled(5, &padding).into_parts().2;
    assert!(Tier::from_parts(0, false, parts(), &padding).is_ok());
    // Sealed, but its tree is still active.
    assert_eq!(Tier::from_parts(0, true, parts(), &padding).err(), Some(Error::Malformed));
    // Too high for a tier.
    assert_eq!(Tier::from_parts(17, false, parts(), &padding).err(), Some(Error::Malformed));
    // Not sealed, but its tree is complete and not full.
    let mut sealed = filled(5, &padding);
    sealed.seal(&padding);
    let (_, _, node) = sealed.into_parts();
    assert_eq!(Tier::from_parts(0, false, node, &padding).err(), Some(Error::Malformed));
    // A hash that is not the hash of the children.
    let mut sealed = filled(5, &padding);
    sealed.seal(&padding);
    let node = match sealed.into_parts().2 {
        Node::Complete { children, .. } => Node::Complete { children, hash: empty_hash(8) },
        _ => panic!("a sealed tier is complete"),
    };
    assert_eq!(Tier::from_parts(0, true, node, &padding).err(), Some(Error::Malformed));
    // Hashes computed for another height.
    let mut sealed = filled(5, &padding);
    sealed.seal(&padding);
    let (_, _, node) = sealed.into_parts();
    assert_eq!(Tier::from_parts(8, true, node, &padding).err(), Some(Error::Malformed));
}

#[test]
fn a_complete_tier_keeps_its_root() {
    let padding = Padding::new();
    let tier = filled(6, &padding);
    let root = tier.hash(&padding);
    assert!(Complete::from_tier(filled(6, &padding)).is_none());
    let mut complete = Complete::seal(tier, &padding);
    assert!(complete.check(&padding));
    assert_eq!(complete.hash(), root);
    assert_eq!(complete.len(), 6);
    assert_eq!(complete.base(), 0);
    assert_eq!(complete.get(5), Some(&Leaf::new(commitment(5))));
    assert_eq!(complete.get(6), None);
    assert_eq!(complete.forget(5), Ok(true));
    assert_eq!(complete.forget(5), Ok(false));
    assert_eq!(complete.forget(6), Err(Error::UnknownPosition));
    assert_eq!(complete.hash(), root);
    let path = complete.path(1, &padding).unwrap();
    assert_eq!(recombine(0, 1, commitment(1).hash(), &path), root);
    assert_eq!(complete.as_tier().len(), 6);
    let tier = complete.into_tier();
    assert!(tier.is_sealed());
    assert!(Complete::from_tier(tier).is_some());
}

#[test]
fn a_tier_of_tiers_hashes_the_roots_of_its_items() {
    let padding = Padding::new();
    let mut epoch: Tier<Complete<Commitment>> = Tier::new(8).unwrap();
    let mut roots = Vec::new();
    for count in [2u32, 0, 5] {
        let block = Complete::seal(filled(count, &padding), &padding);
        roots.push(block.hash());
        epoch.insert(block, &padding).unwrap();
    }
    assert_eq!(roots[1], empty_hash(8));
    assert_eq!(epoch.hash(&padding), reference_root(8, 8, &roots));
    assert!(epoch.check(&padding));
}
