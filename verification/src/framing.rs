//! One message per direction on a substream: a varint length followed by
//! exactly that many bytes of payload.

use vstd::prelude::*;
use vstd::slice::slice_subrange;
use crate::octets::append_bytes;
use crate::varint;

verus! {

/// Why no message could be read.
#[derive(Clone, Copy, Debug, PartialEq, Eq, Structural)]
pub enum ReadOneError {
    /// The bytes so far end before the message does.
    Incomplete,
    /// The length in front of the message is no well-formed varint.
    InvalidLength,
    /// The message is longer than the reader allows.
    TooLarge {
        /// The length that the message declares.
        requested: u64,
        /// The largest length that the reader accepts.
        max: usize,
    },
}

/// The bytes that carry `payload` as one message.
pub open spec fn frame(payload: Seq<u8>) -> Seq<u8> {
    varint::encoded(payload.len() as u64) + payload
}

/// Whether `s` may be the beginning of a varint that has not ended yet.
pub open spec fn unfinished_length(s: Seq<u8>) -> bool {
    s.len() < 10 && forall|i: int| 0 <= i < s.len() ==> s[i] >= 128
}

/// The message at the start of `s` for a reader that accepts up to `max`
/// bytes of payload: the payload, and the number of bytes that the message
/// takes with its length.
pub open spec fn frame_decoding(s: Seq<u8>, max: usize) -> Result<(Seq<u8>, nat), ReadOneError> {
    match varint::decoded(s) {
        None => if unfinished_length(s) {
            Err(ReadOneError::Incomplete)
        } else {
            Err(ReadOneError::InvalidLength)
        },
        Some((len, used)) => if len > max {
            Err(ReadOneError::TooLarge { requested: len, max })
        } else if len > s.len() - used {
            Err(ReadOneError::Incomplete)
        } else {
            Ok((s.subrange(used as int, used + len), (used + len) as nat))
        },
    }
}

/// Frames `payload` as one message.
pub fn write_one(payload: &[u8]) -> (r: Vec<u8>)
    ensures
        r@ == frame(payload@),
{
    let mut out: Vec<u8> = Vec::new();
    varint::encode(payload.len() as u64, &mut out);
    append_bytes(&mut out, payload);
    assert(out@ =~= frame(payload@));
    out
}

/// Whether all of `buf` may be the beginning of a varint.
fn length_unfinished(buf: &[u8]) -> (r: bool)
    ensures
        r == unfinished_length(buf@),
{
    if buf.len() >= 10 {
        return false;
    }
    let mut i: usize = 0;
    while i < buf.len()
        invariant
            i <= buf@.len(),
            buf@.len() < 10,
            forall|j: int| 0 <= j < i ==> buf@[j] >= 128,
        decreases buf@.len() - i,
    {
        if buf[i] < 128 {
            return false;
        }
        i += 1;
    }
    true
}

/// Reads the message at the start of `input`, accepting up to `max` bytes of
/// payload: the payload, and the number of bytes that the message takes with
/// its length.
pub fn read_one(input: &[u8], max: usize) -> (r: Result<(&[u8], usize), ReadOneError>)
    ensures
        match r {
            Ok((payload, used)) => frame_decoding(input@, max) == Ok::<
                (Seq<u8>, nat),
                ReadOneError,
            >((payload@, used as nat)) && used <= input@.len() && payload@.len() <= max,
            Err(error) => frame_decoding(input@, max) == Err::<(Seq<u8>, nat), ReadOneError>(
                error,
            ),
        },
{
    match varint::decode(input) {
        None => {
            if length_unfinished(input) {
                Err(ReadOneError::Incomplete)
            } else {
                Err(ReadOneError::InvalidLength)
            }
        },
        Some((len, used)) => {
            proof {
                varint::lemma_decoded_bounds(input@);
            }
            if len > max as u64 {
                Err(ReadOneError::TooLarge { requested: len, max })
            } else if len > (input.len() - used) as u64 {
                Err(ReadOneError::Incomplete)
            } else {
                let end: usize = used + len as usize;
                Ok((slice_subrange(input, used, end), end))
            }
        },
    }
}

/// A framed payload that the reader accepts is read back as it was written,
/// whatever follows it.
pub proof fn lemma_frame_round_trip(payload: Seq<u8>, rest: Seq<u8>, max: usize)
    requires
        payload.len() <= max,
    ensures
        frame_decoding(frame(payload) + rest, max) == Ok::<(Seq<u8>, nat), ReadOneError>(
            (payload, frame(payload).len()),
        ),
{
    let prefix = varint::encoded(payload.len() as u64);
    let s = frame(payload) + rest;
    assert(s =~= prefix + (payload + rest));
    varint::lemma_decode_encoded(payload.len() as u64, payload + rest);
    assert(s.subrange(prefix.len() as int, (prefix.len() + payload.len()) as int) =~= payload);
}

/// A payload longer than the reader accepts is refused, however much of it
/// has arrived.
pub proof fn lemma_frame_too_large(payload: Seq<u8>, rest: Seq<u8>, max: usize)
    requires
        max < payload.len() <= u64::MAX,
    ensures
        frame_decoding(frame(payload) + rest, max) == Err::<(Seq<u8>, nat), ReadOneError>(
            ReadOneError::TooLarge { requested: payload.len() as u64, max },
        ),
{
    let prefix = varint::encoded(payload.len() as u64);
    let s = frame(payload) + rest;
    assert(s =~= prefix + (payload + rest));
    varint::lemma_decode_encoded(payload.len() as u64, payload + rest);
}

} // verus!
