use tct::error::Error;

#[test]
fn only_the_full_errors_are_cured_by_sealing() {
    assert!(Error::Full.is_full());
    assert!(Error::BlockFull.is_full());
    assert!(Error::EpochFull.is_full());
    assert!(!Error::AlreadySealed.is_full());
    assert!(!Error::UnknownPosition.is_full());
    assert!(!Error::RootMismatch.is_full());
    assert!(!Error::Malformed.is_full());
    assert!(!Error::NothingSynced.is_full());
}
