use decaf377::Fq;
use tct::hash::{empty_hash, hash, Commitment, GetHash, Padding, MAX_HEIGHT};

fn filled(byte: u8) -> [u8; 32] {
    let mut bytes = [0u8; 32];
    bytes[0] = byte;
    bytes[5] = 9;
    bytes
}

fn domain(height: u8) -> [u8; 32] {
    let mut bytes = [0u8; 32];
    bytes[0] = height;
    bytes[1] = b't';
    bytes[2] = b'c';
    bytes[3] = b't';
    bytes
}

#[test]
fn node_hash_is_poseidon_of_the_children() {
    let children = [
        tct::hash::Hash { bytes: filled(1) },
        tct::hash::Hash { bytes: filled(2) },
        tct::hash::Hash { bytes: filled(3) },
        tct::hash::Hash { bytes: filled(4) },
    ];
    let expected = poseidon377::hash_4(
        &Fq::from_le_bytes_mod_order(&domain(3)),
        (
            Fq::from_le_bytes_mod_order(&filled(1)),
            Fq::from_le_bytes_mod_order(&filled(2)),
            Fq::from_le_bytes_mod_order(&filled(3)),
            Fq::from_le_bytes_mod_order(&filled(4)),
        ),
    )
    .to_bytes();
    let found = hash(3, &children);
    assert_eq!(found.bytes, expected);
    assert_ne!(found, children[0]);
    assert_ne!(found.bytes, domain(3));
}

#[test]
fn node_hash_depends_on_height_and_order() {
    let a = tct::hash::Hash { bytes: filled(1) };
    let b = tct::hash::Hash { bytes: filled(2) };
    assert_eq!(hash(1, &[a, b, a, b]), hash(1, &[a, b, a, b]));
    assert_ne!(hash(1, &[a, b, a, b]), hash(2, &[a, b, a, b]));
    assert_ne!(hash(1, &[a, b, a, b]), hash(1, &[b, a, a, b]));
}

#[test]
fn commitment_hash_is_poseidon_of_the_commitment() {
    let commitment = Commitment { bytes: filled(7) };
    let expected = poseidon377::hash_1(
        &Fq::from_le_bytes_mod_order(&domain(0)),
        Fq::from_le_bytes_mod_order(&filled(7)),
    )
    .to_bytes();
    assert_eq!(commitment.hash().bytes, expected);
    assert_ne!(commitment.hash().bytes, commitment.bytes);
    assert_ne!(commitment.hash(), Commitment { bytes: filled(8) }.hash());
}

#[test]
fn empty_hash_of_a_leaf_is_zero() {
    assert_eq!(empty_hash(0).bytes, [0u8; 32]);
}

#[test]
fn empty_hash_is_the_hash_of_four_empty_children() {
    for height in 1..5u8 {
        let below = empty_hash(height - 1);
        assert_eq!(empty_hash(height), hash(height, &[below, below, below, below]));
    }
}

#[test]
fn padding_holds_every_empty_hash() {
    let padding = Padding::new();
    let mut expected = empty_hash(0);
    assert_eq!(padding.get(0), expected);
    for height in 1..=(MAX_HEIGHT + 1) {
        expected = hash(height, &[expected, expected, expected, expected]);
        assert_eq!(padding.get(height), expected);
    }
}

#[test]
fn hashes_are_equal_when_their_bytes_are() {
    let a = tct::hash::Hash { bytes: filled(1) };
    let b = tct::hash::Hash { bytes: filled(1) };
    let mut other = filled(1);
    other[31] = 1;
    assert!(a == b);
    assert!(a != tct::hash::Hash { bytes: other });
    assert!(Commitment { bytes: filled(1) } == Commitment { bytes: filled(1) });
    assert!(Commitment { bytes: filled(1) } != Commitment { bytes: other });
}

#[test]
fn a_commitment_is_always_well_formed() {
    let padding = Padding::new();
    assert!(Commitment { bytes: filled(3) }.check(&padding));
}
