use vstd::prelude::*;

use crate::error::{DataFormatError, IoErrorKind, StorageError};

verus! {

/// The first 8 bytes of the store indicating working with the correct format.
/// This number represents the following set of bytes: `c4 b7 d1 b5 c5 97 c5 a1`.
pub const IDENTIFIER: u64 = 14175028930806269345;

/// The oldest version of the data file format.
pub const OLDEST_VERSION: u8 = 1;

/// Number of bytes of the fixed header: identifier, version and the two
/// footer offsets.
pub const HEADER_LEN: u64 = 25;

/// The big-endian encoding of a 64-bit integer as 8 bytes.
pub open spec fn be_bytes(x: u64) -> Seq<u8> {
    seq![
        ((x >> 56) & 0xff) as u8,
        ((x >> 48) & 0xff) as u8,
        ((x >> 40) & 0xff) as u8,
        ((x >> 32) & 0xff) as u8,
        ((x >> 24) & 0xff) as u8,
        ((x >> 16) & 0xff) as u8,
        ((x >> 8) & 0xff) as u8,
        (x & 0xff) as u8,
    ]
}

/// The 64-bit value that 8 bytes hold in big-endian order.
pub open spec fn be_val(s: Seq<u8>) -> u64
    recommends
        s.len() == 8,
{
    ((s[0] as u64) << 56 | (s[1] as u64) << 48 | (s[2] as u64) << 40 | (s[3] as u64) << 32 | (
    s[4] as u64) << 24 | (s[5] as u64) << 16 | (s[6] as u64) << 8 | (s[7] as u64))
}

/// Reading back the 8 bytes written for a value yields the value.
pub proof fn lemma_be_roundtrip(x: u64)
    ensures
        be_bytes(x).len() == 8,
        be_val(be_bytes(x)) == x,
{
    assert((((((x >> 56) & 0xff) as u8) as u64) << 56 | ((((x >> 48) & 0xff) as u8) as u64) << 48
        | ((((x >> 40) & 0xff) as u8) as u64) << 40 | ((((x >> 32) & 0xff) as u8) as u64) << 32 | (
    (((x >> 24) & 0xff) as u8) as u64) << 24 | ((((x >> 16) & 0xff) as u8) as u64) << 16 | ((((x
        >> 8) & 0xff) as u8) as u64) << 8 | (((x & 0xff) as u8) as u64)) == x) by (bit_vector);
}

/// Serializes a 64-bit value into 8 big-endian bytes.
pub fn u64_to_be(x: u64) -> (r: Vec<u8>)
    ensures
        r@ == be_bytes(x),
        r@.len() == 8,
{
    let mut v: Vec<u8> = Vec::new();
    v.push(((x >> 56) & 0xff) as u8);
    v.push(((x >> 48) & 0xff) as u8);
    v.push(((x >> 40) & 0xff) as u8);
    v.push(((x >> 32) & 0xff) as u8);
    v.push(((x >> 24) & 0xff) as u8);
    v.push(((x >> 16) & 0xff) as u8);
    v.push(((x >> 8) & 0xff) as u8);
    v.push((x & 0xff) as u8);
    proof {
        assert(v@ =~= be_bytes(x));
    }
    v
}

/// Reads the 64-bit big-endian value held by `v` at offset `at`.
pub fn u64_from_be_at(v: &[u8], at: usize) -> (r: u64)
    requires
        at + 8 <= v@.len(),
    ensures
        r == be_val(v@.subrange(at as int, at as int + 8)),
{
    let r = ((v[at] as u64) << 56) | ((v[at + 1] as u64) << 48) | ((v[at + 2] as u64) << 40) | ((
    v[at + 3] as u64) << 32) | ((v[at + 4] as u64) << 24) | ((v[at + 5] as u64) << 16) | ((v[at
        + 6] as u64) << 8) | (v[at + 7] as u64);
    proof {
        let s = v@.subrange(at as int, at as int + 8);
        assert(s[0] == v@[at as int]);
        assert(s[1] == v@[at as int + 1]);
        assert(s[2] == v@[at as int + 2]);
        assert(s[3] == v@[at as int + 3]);
        assert(s[4] == v@[at as int + 4]);
        assert(s[5] == v@[at as int + 5]);
        assert(s[6] == v@[at as int + 6]);
        assert(s[7] == v@[at as int + 7]);
    }
    r
}

/// The 25 bytes of the fixed header for the given version and footer offsets.
pub open spec fn header_bytes(version: u8, index_off: u64, vacant_off: u64) -> Seq<u8> {
    be_bytes(IDENTIFIER) + seq![version] + be_bytes(index_off) + be_bytes(vacant_off)
}

/// Serializes the fixed 25-byte header: identifier, version, index footer
/// offset and vacant-list footer offset, all multi-byte fields big-endian.
pub fn write_header(version: u8, index_off: u64, vacant_off: u64) -> (r: Vec<u8>)
    ensures
        r@ == header_bytes(version, index_off, vacant_off),
        r@.len() == 25,
{
    let mut v = u64_to_be(IDENTIFIER);
    v.push(version);
    let mut io = u64_to_be(index_off);
    v.append(&mut io);
    let mut vo = u64_to_be(vacant_off);
    v.append(&mut vo);
    proof {
        assert(v@ =~= header_bytes(version, index_off, vacant_off));
    }
    v
}

/// What validating a prefix returns: the version on success, and the exact
/// error otherwise.  The identifier is checked first; a buffer shorter than
/// the field being read fails as the backend does, with an end-of-input error.
pub open spec fn prefix_spec(b: Seq<u8>) -> Result<u8, StorageError> {
    if b.len() < 8 {
        Err(StorageError::IO(IoErrorKind::UnexpectedEof))
    } else if be_val(b.subrange(0, 8)) != IDENTIFIER {
        Err(StorageError::DataFormat(DataFormatError::MissedIdentifier))
    } else if b.len() < 9 {
        Err(StorageError::IO(IoErrorKind::UnexpectedEof))
    } else if b[8] > OLDEST_VERSION {
        Err(StorageError::DataFormat(DataFormatError::IncorrectVersion(b[8])))
    } else {
        Ok(b[8])
    }
}

/// Reads the 8-byte identifier and the version byte of a raw store prefix.
/// Succeeds with the version exactly when the identifier matches and the
/// version is not newer than `OLDEST_VERSION`, whatever bytes follow.
pub fn validate_prefix(data: &[u8]) -> (r: Result<u8, StorageError>)
    ensures
        r == prefix_spec(data@),
{
    if data.len() < 8 {
        return Err(StorageError::IO(IoErrorKind::UnexpectedEof));
    }
    let ind = u64_from_be_at(data, 0);
    if ind != IDENTIFIER {
        return Err(StorageError::DataFormat(DataFormatError::MissedIdentifier));
    }
    if data.len() < 9 {
        return Err(StorageError::IO(IoErrorKind::UnexpectedEof));
    }
    let version = data[8];
    if version > OLDEST_VERSION {
        return Err(StorageError::DataFormat(DataFormatError::IncorrectVersion(version)));
    }
    Ok(version)
}

} // verus!
