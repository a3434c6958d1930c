use kvrs::codec::{validate_prefix, write_header};
use kvrs::{DataFormatError, IoErrorKind, Storage, StorageError};

#[test]
fn test_check_prefix() {
    // Just random bytes
    let tail_data: Vec<u8> = vec![73, 42, 255, 0, 0, 123, 64, 90, 17, 48, 33];

    let mut correct: Vec<u8> = vec![0xc4, 0xb7, 0xd1, 0xb5, 0xc5, 0x97, 0xc5, 0xa1, 1];
    assert_eq!(Storage::check_prefix(&correct), Ok(1));
    correct.append(&mut tail_data.clone());
    assert_eq!(Storage::check_prefix(&correct), Ok(1));

    let mut wrong_version: Vec<u8> = vec![0xc4, 0xb7, 0xd1, 0xb5, 0xc5, 0x97, 0xc5, 0xa1, 123];
    assert_eq!(
        Storage::check_prefix(&wrong_version),
        Err(StorageError::DataFormat(DataFormatError::IncorrectVersion(
            123
        )))
    );
    wrong_version.append(&mut tail_data.clone());
    assert_eq!(
        Storage::check_prefix(&wrong_version),
        Err(StorageError::DataFormat(DataFormatError::IncorrectVersion(
            123
        )))
    );

    let mut wrong_ident: Vec<u8> = vec![0x10, 0x20, 0x30, 0x40, 0x50, 0x60, 0x70, 0x80, 1];
    assert_eq!(
        Storage::check_prefix(&wrong_ident),
        Err(StorageError::DataFormat(DataFormatError::MissedIdentifier))
    );
    wrong_ident.append(&mut tail_data.clone());
    assert_eq!(
        Storage::check_prefix(&wrong_ident),
        Err(StorageError::DataFormat(DataFormatError::MissedIdentifier))
    );

    let mut wrong_ident_and_version: Vec<u8> =
        vec![0x10, 0x20, 0x30, 0x40, 0x50, 0x60, 0x70, 0x80, 1];
    assert_eq!(
        Storage::check_prefix(&wrong_ident_and_version),
        Err(StorageError::DataFormat(DataFormatError::MissedIdentifier))
    );
    wrong_ident_and_version.append(&mut tail_data.clone());
    assert_eq!(
        Storage::check_prefix(&wrong_ident_and_version),
        Err(StorageError::DataFormat(DataFormatError::MissedIdentifier))
    );
}

#[test]
fn validate_prefix_short_input() {
    // Too short for the identifier, then too short for the version byte.
    let short: Vec<u8> = vec![0xc4, 0xb7, 0xd1];
    assert_eq!(
        validate_prefix(&short),
        Err(StorageError::IO(IoErrorKind::UnexpectedEof))
    );
    let ident_only: Vec<u8> = vec![0xc4, 0xb7, 0xd1, 0xb5, 0xc5, 0x97, 0xc5, 0xa1];
    assert_eq!(
        validate_prefix(&ident_only),
        Err(StorageError::IO(IoErrorKind::UnexpectedEof))
    );
}

#[test]
fn write_header_layout() {
    let h = write_header(1, 25, 34);
    assert_eq!(
        h.as_slice(),
        &[
            196, 183, 209, 181, 197, 151, 197, 161, 1, 0, 0, 0, 0, 0, 0, 0, 25, 0, 0, 0, 0, 0, 0,
            0, 34
        ]
    );
}
