//! The protobuf wire format: field keys, varint fields and length-delimited
//! fields.
//!
//! A message is a run of fields. Each field starts with a key, a varint that
//! holds the field's tag and, in its three low bits, the wire type that says
//! how the field's payload is laid out.

use vstd::prelude::*;
use vstd::slice::slice_subrange;
use crate::octets::append_bytes;
use crate::varint;

verus! {

/// Wire type of a field whose payload is one varint.
pub const WIRE_VARINT: u8 = 0;

/// Wire type of a field whose payload is eight bytes.
pub const WIRE_FIXED64: u8 = 1;

/// Wire type of a field whose payload is a varint length and that many bytes.
pub const WIRE_LEN: u8 = 2;

/// Wire type that opens a group.
pub const WIRE_START_GROUP: u8 = 3;

/// Wire type that closes a group.
pub const WIRE_END_GROUP: u8 = 4;

/// Wire type of a field whose payload is four bytes.
pub const WIRE_FIXED32: u8 = 5;

/// The largest tag that a field can have.
pub const MAX_TAG: u32 = 0x1fff_ffff;

/// Why bytes could not be decoded as a message.
#[derive(Clone, Copy, Debug, PartialEq, Eq, Structural)]
pub enum WireError {
    /// A varint ends after the input does, or does not fit in 64 bits.
    InvalidVarint,
    /// A key does not fit in 32 bits.
    InvalidKey,
    /// A key names a wire type that does not exist.
    InvalidWireType,
    /// A key holds the tag zero.
    InvalidTag,
    /// A known field comes with another wire type than its own.
    UnexpectedWireType,
    /// A length runs past the end of the input.
    BufferUnderflow,
    /// A field that the message does not know could not be skipped.
    UnknownField,
}

/// A buffer too small for an encoding. Encoding into a vector never meets it.
#[derive(Clone, Copy, Debug, PartialEq, Eq, Structural)]
pub struct EncodeError {
    /// Bytes that the encoding takes.
    pub required: usize,
    /// Bytes that the buffer had left.
    pub remaining: usize,
}

/// The key of a field: its tag and its wire type.
#[derive(Clone, Copy, Debug, PartialEq, Eq, Structural)]
pub struct Key {
    pub tag: u32,
    pub wire_type: u8,
}

/// The bytes of the key for `tag` and `wire_type`.
pub open spec fn key_encoding(tag: u32, wire_type: u8) -> Seq<u8> {
    varint::encoded((tag * 8 + wire_type) as u64)
}

/// The bytes of a varint field.
pub open spec fn varint_field(tag: u32, value: u64) -> Seq<u8> {
    key_encoding(tag, WIRE_VARINT) + varint::encoded(value)
}

/// The bytes of a length-delimited field.
pub open spec fn bytes_field(tag: u32, data: Seq<u8>) -> Seq<u8> {
    key_encoding(tag, WIRE_LEN) + varint::encoded(data.len() as u64) + data
}

/// The key at the start of `s` and the number of bytes it takes.
pub open spec fn key_decoding(s: Seq<u8>) -> Result<(Key, nat), WireError> {
    match varint::decoded(s) {
        None => Err(WireError::InvalidVarint),
        Some((key, len)) => if key > u32::MAX {
            Err(WireError::InvalidKey)
        } else if key % 8 > 5 {
            Err(WireError::InvalidWireType)
        } else if key / 8 == 0 {
            Err(WireError::InvalidTag)
        } else {
            Ok((Key { tag: (key / 8) as u32, wire_type: (key % 8) as u8 }, len))
        },
    }
}

/// The varint payload at the start of `s` and the number of bytes it takes.
pub open spec fn varint_decoding(s: Seq<u8>) -> Result<(u64, nat), WireError> {
    match varint::decoded(s) {
        None => Err(WireError::InvalidVarint),
        Some((value, len)) => Ok((value, len)),
    }
}

/// The length-delimited payload at the start of `s` and the number of bytes
/// that it takes together with its length.
pub open spec fn bytes_decoding(s: Seq<u8>) -> Result<(Seq<u8>, nat), WireError> {
    match varint::decoded(s) {
        None => Err(WireError::InvalidVarint),
        Some((len, used)) => if len > s.len() - used {
            Err(WireError::BufferUnderflow)
        } else {
            Ok((s.subrange(used as int, used + len), (used + len) as nat))
        },
    }
}

/// The low 32 bits of a varint, as an unsigned number.
pub open spec fn low_u32(value: u64) -> u32 {
    (value % 0x1_0000_0000) as u32
}

/// The low 32 bits of a varint, as a signed number in two's complement.
pub open spec fn low_i32(value: u64) -> i32 {
    if value % 0x1_0000_0000 < 0x8000_0000 {
        (value % 0x1_0000_0000) as i32
    } else {
        (value % 0x1_0000_0000 - 0x1_0000_0000) as i32
    }
}

/// A signed 32-bit number widened to 64 bits in two's complement.
pub open spec fn widened(value: i32) -> u64 {
    if value >= 0 {
        value as u64
    } else {
        (0x1_0000_0000_0000_0000 + value) as u64
    }
}

/// The number of bytes of the payload of an unknown field with the given wire
/// type and tag at the start of `buf`, groups included; `None` where the
/// payload is malformed or runs past the end of `buf`.
pub uninterp spec fn skipped(wire_type: u8, tag: u32, buf: Seq<u8>) -> Option<nat>;

/// The error type that prost's decoding functions return.
#[verifier::external_type_specification]
#[verifier::external_body]
pub struct ExProstDecodeError(prost::DecodeError);

/// `prost::encoding::skip_field` with a fresh decoding context: it steps over
/// the payload of one field and leaves the bytes after it, or fails where the
/// payload is malformed or longer than `buf`. What it steps over is a run of
/// bytes at the front of `buf`.
#[verifier::external_body]
fn prost_skip_field(wire_type: u8, tag: u32, buf: &[u8]) -> (r: Result<&[u8], prost::DecodeError>)
    requires
        wire_type <= 5,
    ensures
        match r {
            Ok(rest) => skipped(wire_type, tag, buf@) is Some && skipped(
                wire_type,
                tag,
                buf@,
            ).unwrap() <= buf@.len() && rest@ == buf@.skip(
                skipped(wire_type, tag, buf@).unwrap() as int,
            ),
            Err(_) => skipped(wire_type, tag, buf@) is None,
        },
{
    let mut rest = buf;
    let kind = prost::encoding::WireType::try_from(u64::from(wire_type))?;
    prost::encoding::skip_field(kind, tag, &mut rest, prost::encoding::DecodeContext::default())?;
    Ok(rest)
}

/// The payload of an unknown field at the start of `s`: the number of bytes
/// to step over.
pub open spec fn unknown_decoding(key: Key, s: Seq<u8>) -> Result<nat, WireError> {
    if key.wire_type > 5 {
        Err(WireError::UnknownField)
    } else {
        match skipped(key.wire_type, key.tag, s) {
            Some(len) => if len <= s.len() {
                Ok(len)
            } else {
                Err(WireError::UnknownField)
            },
            None => Err(WireError::UnknownField),
        }
    }
}

/// Appends the key for `tag` and `wire_type`.
pub fn put_key(tag: u32, wire_type: u8, buf: &mut Vec<u8>)
    ensures
        final(buf)@ == old(buf)@ + key_encoding(tag, wire_type),
{
    let key: u64 = tag as u64 * 8 + wire_type as u64;
    varint::encode(key, buf);
}

/// Appends a varint field.
pub fn put_varint_field(tag: u32, value: u64, buf: &mut Vec<u8>)
    ensures
        final(buf)@ == old(buf)@ + varint_field(tag, value),
{
    put_key(tag, WIRE_VARINT, buf);
    varint::encode(value, buf);
    assert(final(buf)@ =~= old(buf)@ + varint_field(tag, value));
}

/// Appends a length-delimited field.
pub fn put_bytes_field(tag: u32, data: &[u8], buf: &mut Vec<u8>)
    ensures
        final(buf)@ == old(buf)@ + bytes_field(tag, data@),
{
    put_key(tag, WIRE_LEN, buf);
    varint::encode(data.len() as u64, buf);
    append_bytes(buf, data);
    assert(final(buf)@ =~= old(buf)@ + bytes_field(tag, data@));
}

/// Reads the key at the start of `buf`.
pub fn take_key(buf: &[u8]) -> (r: Result<(Key, usize), WireError>)
    ensures
        match r {
            Ok((key, len)) => key_decoding(buf@) == Ok::<(Key, nat), WireError>(
                (key, len as nat),
            ) && 1 <= len <= buf@.len() && key.wire_type <= 5 && key.tag >= 1,
            Err(error) => key_decoding(buf@) == Err::<(Key, nat), WireError>(error),
        },
{
    match varint::decode(buf) {
        None => Err(WireError::InvalidVarint),
        Some((key, len)) => {
            proof {
                varint::lemma_decoded_bounds(buf@);
            }
            if key > 0xffff_ffff {
                Err(WireError::InvalidKey)
            } else if key % 8 > 5 {
                Err(WireError::InvalidWireType)
            } else if key / 8 == 0 {
                Err(WireError::InvalidTag)
            } else {
                Ok((Key { tag: (key / 8) as u32, wire_type: (key % 8) as u8 }, len))
            }
        },
    }
}

/// Reads the varint payload at the start of `buf`.
pub fn take_varint(buf: &[u8]) -> (r: Result<(u64, usize), WireError>)
    ensures
        match r {
            Ok((value, len)) => varint_decoding(buf@) == Ok::<(u64, nat), WireError>(
                (value, len as nat),
            ) && 1 <= len <= buf@.len(),
            Err(error) => varint_decoding(buf@) == Err::<(u64, nat), WireError>(error),
        },
{
    match varint::decode(buf) {
        None => Err(WireError::InvalidVarint),
        Some((value, len)) => {
            proof {
                varint::lemma_decoded_bounds(buf@);
            }
            Ok((value, len))
        },
    }
}

/// Reads the length-delimited payload at the start of `buf`.
pub fn take_bytes(buf: &[u8]) -> (r: Result<(&[u8], usize), WireError>)
    ensures
        match r {
            Ok((data, len)) => bytes_decoding(buf@) == Ok::<(Seq<u8>, nat), WireError>(
                (data@, len as nat),
            ) && 1 <= len <= buf@.len(),
            Err(error) => bytes_decoding(buf@) == Err::<(Seq<u8>, nat), WireError>(error),
        },
{
    match varint::decode(buf) {
        None => Err(WireError::InvalidVarint),
        Some((len, used)) => {
            proof {
                varint::lemma_decoded_bounds(buf@);
            }
            let left: usize = buf.len() - used;
            if len > left as u64 {
                Err(WireError::BufferUnderflow)
            } else {
                let end: usize = used + len as usize;
                Ok((slice_subrange(buf, used, end), end))
            }
        },
    }
}

/// Steps over the payload of a field that the message does not know.
pub fn skip_unknown(key: Key, buf: &[u8]) -> (r: Result<usize, WireError>)
    ensures
        match r {
            Ok(len) => unknown_decoding(key, buf@) == Ok::<nat, WireError>(len as nat) && len
                <= buf@.len(),
            Err(error) => unknown_decoding(key, buf@) == Err::<nat, WireError>(error),
        },
{
    if key.wire_type > 5 {
        return Err(WireError::UnknownField);
    }
    match prost_skip_field(key.wire_type, key.tag, buf) {
        Ok(rest) => Ok(buf.len() - rest.len()),
        Err(_) => Err(WireError::UnknownField),
    }
}

/// The key at the front of a field is read back as it was written.
pub proof fn lemma_key_round_trip(tag: u32, wire_type: u8, rest: Seq<u8>)
    requires
        1 <= tag <= MAX_TAG,
        wire_type <= 5,
    ensures
        key_decoding(key_encoding(tag, wire_type) + rest) == Ok::<(Key, nat), WireError>(
            (Key { tag, wire_type }, key_encoding(tag, wire_type).len()),
        ),
        key_encoding(tag, wire_type).len() >= 1,
{
    let key: u64 = (tag * 8 + wire_type) as u64;
    varint::lemma_decode_encoded(key, rest);
    varint::lemma_encoded_len(key);
}

/// The payload of a varint field is read back as it was written.
pub proof fn lemma_varint_round_trip(value: u64, rest: Seq<u8>)
    ensures
        varint_decoding(varint::encoded(value) + rest) == Ok::<(u64, nat), WireError>(
            (value, varint::encoded(value).len()),
        ),
{
    varint::lemma_decode_encoded(value, rest);
}

/// The payload of a length-delimited field is read back as it was written.
pub proof fn lemma_bytes_round_trip(data: Seq<u8>, rest: Seq<u8>)
    requires
        data.len() <= u64::MAX,
    ensures
        bytes_decoding(varint::encoded(data.len() as u64) + data + rest) == Ok::<
            (Seq<u8>, nat),
            WireError,
        >((data, (varint::encoded(data.len() as u64) + data).len())),
{
    let prefix = varint::encoded(data.len() as u64);
    let s = prefix + data + rest;
    assert(s =~= prefix + (data + rest));
    varint::lemma_decode_encoded(data.len() as u64, data + rest);
    assert(s.subrange(prefix.len() as int, (prefix.len() + data.len()) as int) =~= data);
}

} // verus!
