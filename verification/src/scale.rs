//! The node's compact binary codec, for the two typed values that the
//! protocol reads itself: block numbers and block hashes.
//!
//! A number is eight bytes, least significant first; a hash is its 32 bytes.
//! Decoding reads from the front and leaves what follows unread.

use vstd::prelude::*;
use vstd::bytes::{
    lemma_auto_spec_u64_to_from_le_bytes, spec_u64_from_le_bytes, spec_u64_to_le_bytes,
};
use crate::types::{BlockHash, Number, HASH_LEN};

verus! {

/// Number of bytes in an encoded block number.
pub const NUMBER_LEN: usize = 8;

/// Why a value could not be decoded.
#[derive(Clone, Copy, Debug, PartialEq, Eq, Structural)]
pub enum CodecError {
    /// The input ends before the value does.
    NotEnoughData {
        /// Bytes that the value takes.
        needed: usize,
        /// Bytes that the input holds.
        found: usize,
    },
}

/// The encoding of a block number.
pub open spec fn number_encoding(number: Number) -> Seq<u8> {
    spec_u64_to_le_bytes(number)
}

/// The block number at the front of `bytes`.
pub open spec fn number_decoding(bytes: Seq<u8>) -> Option<Number> {
    if bytes.len() >= 8 {
        Some(spec_u64_from_le_bytes(bytes.take(8)))
    } else {
        None
    }
}

/// The encoding of a block hash.
pub open spec fn hash_encoding(hash: BlockHash) -> Seq<u8> {
    hash.bytes@
}

/// The bytes of the block hash at the front of `bytes`.
pub open spec fn hash_decoding(bytes: Seq<u8>) -> Option<Seq<u8>> {
    if bytes.len() >= 32 {
        Some(bytes.take(32))
    } else {
        None
    }
}

/// The error type of parity-scale-codec.
#[verifier::external_type_specification]
#[verifier::external_body]
pub struct ExScaleError(parity_scale_codec::Error);

/// `Encode::encode` of parity-scale-codec for `u64`: the eight bytes of the
/// number, least significant first.
#[verifier::external_body]
fn scale_encode_u64(number: u64) -> (r: Vec<u8>)
    ensures
        r@ == spec_u64_to_le_bytes(number),
{
    parity_scale_codec::Encode::encode(&number)
}

/// `Decode::decode` of parity-scale-codec for `u64` on a byte slice: it fails
/// where fewer than eight bytes are left, and else reads the first eight as a
/// number, least significant first.
#[verifier::external_body]
fn scale_decode_u64(bytes: &[u8]) -> (r: Result<u64, parity_scale_codec::Error>)
    ensures
        r is Ok <==> bytes@.len() >= 8,
        r is Ok ==> r.unwrap() == spec_u64_from_le_bytes(bytes@.take(8)),
{
    let mut input = bytes;
    <u64 as parity_scale_codec::Decode>::decode(&mut input)
}

/// `Encode::encode` of parity-scale-codec for `[u8; 32]`: the 32 bytes as
/// they are, with no length in front.
#[verifier::external_body]
fn scale_encode_bytes32(bytes: &[u8; 32]) -> (r: Vec<u8>)
    ensures
        r@ == bytes@,
{
    parity_scale_codec::Encode::encode(bytes)
}

/// `Decode::decode` of parity-scale-codec for `[u8; 32]` on a byte slice: it
/// fails where fewer than 32 bytes are left, and else hands out the first 32.
#[verifier::external_body]
fn scale_decode_bytes32(bytes: &[u8]) -> (r: Result<[u8; 32], parity_scale_codec::Error>)
    ensures
        r is Ok <==> bytes@.len() >= 32,
        r is Ok ==> r.unwrap()@ == bytes@.take(32),
{
    let mut input = bytes;
    <[u8; 32] as parity_scale_codec::Decode>::decode(&mut input)
}

/// Encodes a block number.
pub fn encode_number(number: Number) -> (r: Vec<u8>)
    ensures
        r@ == number_encoding(number),
        r@.len() == 8,
{
    proof {
        lemma_auto_spec_u64_to_from_le_bytes();
    }
    scale_encode_u64(number)
}

/// Decodes the block number at the front of `bytes`.
pub fn decode_number(bytes: &[u8]) -> (r: Result<Number, CodecError>)
    ensures
        r == match number_decoding(bytes@) {
            Some(number) => Ok::<Number, CodecError>(number),
            None => Err(CodecError::NotEnoughData { needed: 8, found: bytes@.len() as usize }),
        },
{
    match scale_decode_u64(bytes) {
        Ok(number) => Ok(number),
        Err(_) => Err(CodecError::NotEnoughData { needed: NUMBER_LEN, found: bytes.len() }),
    }
}

/// Encodes a block hash.
pub fn encode_hash(hash: &BlockHash) -> (r: Vec<u8>)
    ensures
        r@ == hash_encoding(*hash),
        r@.len() == 32,
{
    scale_encode_bytes32(&hash.bytes)
}

/// Decodes the block hash at the front of `bytes`.
pub fn decode_hash(bytes: &[u8]) -> (r: Result<BlockHash, CodecError>)
    ensures
        match r {
            Ok(hash) => hash_decoding(bytes@) == Some(hash.bytes@),
            Err(error) => hash_decoding(bytes@) is None && error == (CodecError::NotEnoughData {
                needed: 32,
                found: bytes@.len() as usize,
            }),
        },
{
    match scale_decode_bytes32(bytes) {
        Ok(array) => Ok(BlockHash { bytes: array }),
        Err(_) => Err(CodecError::NotEnoughData { needed: HASH_LEN, found: bytes.len() }),
    }
}

/// An encoded number decodes to itself, whatever follows it.
pub proof fn lemma_number_round_trip(number: Number, rest: Seq<u8>)
    ensures
        number_encoding(number).len() == 8,
        number_decoding(number_encoding(number) + rest) == Some(number),
{
    lemma_auto_spec_u64_to_from_le_bytes();
    assert((number_encoding(number) + rest).take(8) =~= number_encoding(number));
}

/// An encoded hash decodes to itself, whatever follows it.
pub proof fn lemma_hash_round_trip(hash: BlockHash, rest: Seq<u8>)
    ensures
        hash_encoding(hash).len() == 32,
        hash_decoding(hash_encoding(hash) + rest) == Some(hash.bytes@),
{
    assert((hash_encoding(hash) + rest).take(32) =~= hash_encoding(hash));
}

/// Exactly eight bytes are the encoding of the number they decode to.
pub proof fn lemma_number_encoding_unique(bytes: Seq<u8>)
    requires
        bytes.len() == 8,
    ensures
        number_decoding(bytes) is Some,
        number_encoding(number_decoding(bytes).unwrap()) == bytes,
{
    lemma_auto_spec_u64_to_from_le_bytes();
    assert(bytes.take(8) =~= bytes);
}

} // verus!
