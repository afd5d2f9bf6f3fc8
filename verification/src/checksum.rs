//! Checksum messages: a tagged digest covering a byte region, serialized as
//! `algorithm tag (1 byte) ‖ digest (8 bytes, big-endian)`.

use vstd::prelude::*;
use crate::error::Error;
use crate::format::{
    get_u64_be, put_u64_be, spec_u64_from_be_bytes, spec_u64_to_be_bytes, lemma_u64_be_bytes,
};

verus! {

/// The checksum algorithms a table may declare.
#[derive(Clone, Copy, PartialEq, Eq, Structural, Debug)]
pub enum ChecksumAlgorithm {
    Crc32c,
}

/// A checksum message: the algorithm that produced the digest, and the digest.
#[derive(Clone, Copy, PartialEq, Eq, Structural, Debug)]
pub struct Checksum {
    pub algo: ChecksumAlgorithm,
    pub sum: u64,
}

/// The CRC-32-Castagnoli digest of a byte sequence.
pub uninterp spec fn crc32c_of(data: Seq<u8>) -> u32;

/// Relies on crc32c::crc32c: the CRC-32-Castagnoli digest of a byte slice,
/// a function of the bytes alone.
#[verifier::external_body]
pub(crate) fn crc32c_digest(data: &[u8]) -> (r: u32)
    ensures
        r == crc32c_of(data@),
{
    crc32c::crc32c(data)
}

/// Computes the checksum message for `data`.
pub fn calculate_checksum(data: &[u8]) -> (r: Checksum)
    ensures
        r.algo == ChecksumAlgorithm::Crc32c,
        r.sum == crc32c_of(data@) as u64,
{
    let sum = crc32c_digest(data);
    Checksum { algo: ChecksumAlgorithm::Crc32c, sum: sum as u64 }
}

/// Recomputes the declared algorithm over `data` and compares with the
/// stored digest.
pub fn verify_checksum(data: &[u8], expected: &Checksum) -> (r: Result<(), Error>)
    ensures
        r is Ok <==> expected.sum == crc32c_of(data@) as u64,
        r is Err ==> r->Err_0 is ChecksumMismatch,
{
    let actual = match expected.algo {
        ChecksumAlgorithm::Crc32c => crc32c_digest(data) as u64,
    };
    if actual == expected.sum {
        Ok(())
    } else {
        Err(Error::ChecksumMismatch)
    }
}

/// The byte tag that encodes a checksum algorithm.
pub open spec fn spec_algo_tag(algo: ChecksumAlgorithm) -> u8 {
    match algo {
        ChecksumAlgorithm::Crc32c => 0u8,
    }
}

/// The serialized form of a checksum message.
pub open spec fn spec_checksum_encode(c: Checksum) -> Seq<u8> {
    seq![spec_algo_tag(c.algo)] + spec_u64_to_be_bytes(c.sum)
}

/// The length of every serialized checksum message.
pub const CHECKSUM_ENCODED_LEN: usize = 9;

/// Serializes a checksum message.
pub fn encode_checksum(c: &Checksum) -> (r: Vec<u8>)
    ensures
        r@ == spec_checksum_encode(*c),
        r@.len() == CHECKSUM_ENCODED_LEN,
{
    let mut r: Vec<u8> = Vec::new();
    let tag: u8 = match c.algo {
        ChecksumAlgorithm::Crc32c => 0u8,
    };
    r.push(tag);
    put_u64_be(&mut r, c.sum);
    proof {
        lemma_u64_be_bytes();
        assert(r@ =~= spec_checksum_encode(*c));
    }
    r
}

/// Whether a byte sequence is a well-formed serialized checksum message.
pub open spec fn spec_checksum_decodes(s: Seq<u8>) -> bool {
    s.len() == CHECKSUM_ENCODED_LEN && s[0] == 0u8
}

/// The checksum message stored in a well-formed serialization.
pub open spec fn spec_checksum_decode(s: Seq<u8>) -> Checksum
    recommends
        spec_checksum_decodes(s),
{
    Checksum { algo: ChecksumAlgorithm::Crc32c, sum: spec_u64_from_be_bytes(s.skip(1)) }
}

/// Deserializes a checksum message.
pub fn decode_checksum(s: &[u8]) -> (r: Result<Checksum, Error>)
    ensures
        r is Ok <==> spec_checksum_decodes(s@),
        r is Ok ==> r->Ok_0 == spec_checksum_decode(s@),
        r is Err ==> r->Err_0 is DecodeError,
{
    if s.len() != CHECKSUM_ENCODED_LEN {
        return Err(Error::DecodeError);
    }
    if s[0] != 0u8 {
        return Err(Error::DecodeError);
    }
    let sum = get_u64_be(s, 1);
    proof {
        assert(s@.subrange(1, 9) =~= s@.skip(1));
    }
    Ok(Checksum { algo: ChecksumAlgorithm::Crc32c, sum })
}

/// A serialized checksum message reads back as the message it encodes.
pub proof fn lemma_checksum_round_trip(c: Checksum)
    ensures
        spec_checksum_decodes(spec_checksum_encode(c)),
        spec_checksum_decode(spec_checksum_encode(c)) == c,
{
    lemma_u64_be_bytes();
    let s = spec_checksum_encode(c);
    assert(s.skip(1) =~= spec_u64_to_be_bytes(c.sum));
}

} // verus!
