use reed_solomon::{Error, BLOCK_ALIGNMENT};

#[test]
fn invalid_block_size_message() {
    assert_eq!(
        Error::InvalidBlockSize(17).message(),
        format!("block size 17 is not a positive multiple of {}", BLOCK_ALIGNMENT)
    );
    assert_eq!(Error::InvalidBlockSize(0).message(), format!("block size 0 is not a positive multiple of {}", BLOCK_ALIGNMENT));
}

#[test]
fn block_size_mismatch_message() {
    assert_eq!(
        Error::BlockSizeMismatch { expected: 64, got: 1024 }.message(),
        "block size mismatch: expected 64 bytes, got 1024 bytes"
    );
}

#[test]
fn duplicate_index_message() {
    assert_eq!(Error::DuplicateIndex(4).message(), "duplicate block index 4");
}

#[test]
fn index_out_of_range_message() {
    assert_eq!(Error::IndexOutOfRange(9).message(), "block index 9 is out of range (must be less than 9)");
    assert_eq!(
        Error::IndexOutOfRange(usize::MAX).message(),
        format!("block index {} is out of range (must be less than 9)", usize::MAX)
    );
}

#[test]
fn errors_compare_by_value() {
    assert_eq!(Error::DuplicateIndex(3), Error::DuplicateIndex(3).clone());
    assert_ne!(Error::DuplicateIndex(3), Error::IndexOutOfRange(3));
}
