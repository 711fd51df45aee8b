use tct::tree::Position;

fn at(epoch: u16, block: u16, commitment: u16) -> Position {
    Position { epoch, block, commitment }
}

#[test]
fn the_index_of_a_position_puts_its_parts_side_by_side() {
    assert_eq!(at(0, 0, 0).index(), 0);
    assert_eq!(at(0, 0, 7).index(), 7);
    assert_eq!(at(0, 1, 0).index(), 65536);
    assert_eq!(at(1, 0, 0).index(), 4294967296);
    assert_eq!(at(1, 2, 3).index(), 4295098371);
    assert_eq!(at(65535, 65535, 65535).index(), 281474976710655);
}

#[test]
fn the_position_of_an_index_is_the_position_with_that_index() {
    assert_eq!(Position::from_index(0), Some(at(0, 0, 0)));
    assert_eq!(Position::from_index(65535), Some(at(0, 0, 65535)));
    assert_eq!(Position::from_index(65536), Some(at(0, 1, 0)));
    assert_eq!(Position::from_index(4295098371), Some(at(1, 2, 3)));
    assert_eq!(Position::from_index(281474976710655), Some(at(65535, 65535, 65535)));
    assert_eq!(Position::from_index(281474976710656), None);
    assert_eq!(Position::from_index(u64::MAX), None);
    for position in [at(3, 9, 27), at(0, 65535, 0), at(65535, 0, 1)] {
        assert_eq!(Position::from_index(position.index()), Some(position));
    }
}

#[test]
fn the_index_grows_with_the_position() {
    let ordered = [at(0, 0, 0), at(0, 0, 9), at(0, 1, 0), at(0, 7, 65535), at(1, 0, 0), at(2, 1, 1)];
    for pair in ordered.windows(2) {
        assert!(pair[0].index() < pair[1].index());
    }
}
