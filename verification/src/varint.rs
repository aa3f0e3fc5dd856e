//! Variable-length unsigned integers (base-128, least significant group first).
//!
//! Each byte carries seven bits of the value; its high bit says that another
//! byte follows. A 64-bit value takes between one and ten bytes.

use vstd::prelude::*;

verus! {

/// The bytes that encode `v`.
pub open spec fn encoded(v: u64) -> Seq<u8>
    decreases v,
{
    if v < 128 {
        seq![v as u8]
    } else {
        seq![(v % 128 + 128) as u8] + encoded(v / 128)
    }
}

/// One more than the largest value that may still start at byte `i` of a
/// varint without leaving the 64-bit range.
pub open spec fn room(i: nat) -> int
    decreases 9 - i,
{
    if i >= 9 {
        2
    } else {
        128 * room(i + 1)
    }
}

/// Reads the rest of a varint whose byte `i` is at `s[i]`: the value of these
/// bytes taken as a varint of their own, and the index after the last byte.
/// `None` where the bytes end before the varint does, where it would need an
/// eleventh byte, or where its tenth byte would carry the value past 64 bits.
pub open spec fn decoded_at(s: Seq<u8>, i: nat) -> Option<(int, nat)>
    decreases 10 - i,
{
    if i >= 10 || i >= s.len() {
        None
    } else if s[i as int] < 128 {
        if i == 9 && s[i as int] >= 2 {
            None
        } else {
            Some((s[i as int] as int, i + 1))
        }
    } else {
        match decoded_at(s, i + 1) {
            Some((rest, end)) => Some((s[i as int] - 128 + 128 * rest, end)),
            None => None,
        }
    }
}

/// The value of the varint at the start of `s` and the number of bytes it takes.
pub open spec fn decoded(s: Seq<u8>) -> Option<(u64, nat)> {
    match decoded_at(s, 0) {
        Some((value, end)) => Some((value as u64, end)),
        None => None,
    }
}

/// `room(0)` is two to the power of 64.
pub proof fn lemma_room_zero()
    ensures
        room(0) == 0x1_0000_0000_0000_0000,
{
    reveal_with_fuel(room, 11);
}

/// Every position leaves room for the values 0 and 1 at least.
pub proof fn lemma_room_positive(i: nat)
    ensures
        room(i) >= 2,
    decreases 9 - i,
{
    if i < 9 {
        lemma_room_positive(i + 1);
    }
}

/// What `decoded_at` reads at byte `i` is below `room(i)` and ends within `s`
/// and within ten bytes.
pub proof fn lemma_decoded_at_bounds(s: Seq<u8>, i: nat)
    requires
        decoded_at(s, i) is Some,
    ensures
        0 <= decoded_at(s, i).unwrap().0 < room(i),
        i < decoded_at(s, i).unwrap().1 <= s.len(),
        decoded_at(s, i).unwrap().1 <= 10,
    decreases 10 - i,
{
    lemma_room_positive(i + 1);
    if s[i as int] >= 128 {
        lemma_decoded_at_bounds(s, i + 1);
    }
}

/// A decoded varint takes between one and ten bytes, all of them in `s`.
pub proof fn lemma_decoded_bounds(s: Seq<u8>)
    requires
        decoded(s) is Some,
    ensures
        1 <= decoded(s).unwrap().1 <= 10,
        decoded(s).unwrap().1 <= s.len(),
        decoded(s).unwrap().0 == decoded_at(s, 0).unwrap().0,
{
    lemma_decoded_at_bounds(s, 0);
    lemma_room_zero();
}

/// An encoding takes between one and ten bytes.
pub proof fn lemma_encoded_len(v: u64)
    ensures
        1 <= encoded(v).len() <= 10,
{
    lemma_room_zero();
    lemma_encoded_len_from(v, 0);
}

proof fn lemma_encoded_len_from(v: u64, i: nat)
    requires
        v < room(i),
        i <= 9,
    ensures
        1 <= encoded(v).len() <= 10 - i,
    decreases v,
{
    if v >= 128 {
        lemma_encoded_len_from(v / 128, i + 1);
    }
}

/// Reading at byte `i` of bytes that hold `encoded(v)` from `i` on gives `v`
/// and the index after the encoding, whatever follows it.
proof fn lemma_decode_encoded_at(s: Seq<u8>, i: nat, v: u64)
    requires
        v < room(i),
        i <= 9,
        i + encoded(v).len() <= s.len(),
        s.subrange(i as int, (i + encoded(v).len()) as int) == encoded(v),
    ensures
        decoded_at(s, i) == Some((v as int, i + encoded(v).len())),
    decreases v,
{
    let e = encoded(v);
    assert(s[i as int] == s.subrange(i as int, (i + e.len()) as int)[0]);
    if v >= 128 {
        let tail = encoded(v / 128);
        assert(e =~= seq![(v % 128 + 128) as u8] + tail);
        assert(e[0] == (v % 128 + 128) as u8);
        assert(s.subrange(i as int + 1, (i + 1 + tail.len()) as int) =~= tail) by {
            assert forall|k: int| 0 <= k < tail.len() implies s.subrange(
                i as int + 1,
                (i + 1 + tail.len()) as int,
            )[k] == tail[k] by {
                assert(s.subrange(i as int, (i + e.len()) as int)[k + 1] == e[k + 1]);
            }
        }
        lemma_decode_encoded_at(s, i + 1, v / 128);
    }
}

/// Decoding what `encoded` produced gives the value back, and takes exactly
/// the bytes of the encoding, whatever follows them.
pub proof fn lemma_decode_encoded(v: u64, rest: Seq<u8>)
    ensures
        decoded(encoded(v) + rest) == Some((v, encoded(v).len())),
{
    lemma_room_zero();
    let s = encoded(v) + rest;
    assert(s.subrange(0, encoded(v).len() as int) =~= encoded(v));
    lemma_decode_encoded_at(s, 0, v);
}

/// Appends the encoding of `v` to `buf`.
pub fn encode(v: u64, buf: &mut Vec<u8>)
    ensures
        final(buf)@ == old(buf)@ + encoded(v),
{
    let mut rest: u64 = v;
    while rest >= 128
        invariant
            buf@ + encoded(rest) == old(buf)@ + encoded(v),
        decreases rest,
    {
        let byte: u8 = (rest % 128 + 128) as u8;
        assert(buf@.push(byte) + encoded(rest / 128) =~= buf@ + encoded(rest));
        buf.push(byte);
        rest = rest / 128;
    }
    assert(buf@.push(rest as u8) =~= buf@ + encoded(rest));
    buf.push(rest as u8);
}

/// The number of bytes that the encoding of `v` takes.
pub fn encoded_len(v: u64) -> (r: usize)
    ensures
        r == encoded(v).len(),
        1 <= r <= 10,
{
    proof {
        lemma_encoded_len(v);
    }
    let mut rest: u64 = v;
    let mut len: usize = 1;
    while rest >= 128
        invariant
            1 <= len,
            len - 1 + encoded(rest).len() == encoded(v).len(),
            encoded(v).len() <= 10,
        decreases rest,
    {
        rest = rest / 128;
        len += 1;
    }
    len
}

/// Reads the varint at the start of `buf`: its value and the number of bytes
/// it takes.
pub fn decode(buf: &[u8]) -> (r: Option<(u64, usize)>)
    ensures
        match r {
            Some((value, len)) => decoded(buf@) == Some((value, len as nat)),
            None => decoded(buf@) is None,
        },
{
    let mut value: u64 = 0;
    let mut scale: u64 = 1;
    let mut i: usize = 0;
    proof {
        lemma_room_zero();
    }
    while i < buf.len() && i < 10
        invariant
            i <= 9,
            i <= buf@.len(),
            scale * room(i as nat) == 0x1_0000_0000_0000_0000,
            value < scale,
            1 <= scale <= 0x8000_0000_0000_0000,
            decoded_at(buf@, 0) == match decoded_at(buf@, i as nat) {
                Some((rest, end)) => Some((value + scale * rest, end)),
                None => None,
            },
        decreases 10 - i,
    {
        let byte: u8 = buf[i];
        if byte < 128 {
            if i == 9 && byte >= 2 {
                return None;
            }
            proof {
                lemma_room_positive((i + 1) as nat);
                assert(byte < room(i as nat));
                assert(scale * byte <= scale * (room(i as nat) - 1)) by (nonlinear_arith)
                    requires
                        0 <= byte <= room(i as nat) - 1,
                        scale >= 0,
                ;
                assert(scale * (room(i as nat) - 1) == scale * room(i as nat) - scale)
                    by (nonlinear_arith);
            }
            let term: u64 = scale * (byte as u64);
            return Some((value + term, i + 1));
        }
        if i == 9 {
            return None;
        }
        proof {
            let low: int = byte - 128;
            assert(scale * low <= scale * 127) by (nonlinear_arith)
                requires
                    0 <= low <= 127,
                    scale >= 0,
            ;
            assert(room(i as nat) == 128 * room((i + 1) as nat));
            assert(scale * (128 * room((i + 1) as nat)) == (scale * 128) * room((i + 1) as nat))
                by (nonlinear_arith);
            lemma_room_positive((i + 1) as nat);
            assert(scale * 128 <= 0x8000_0000_0000_0000) by (nonlinear_arith)
                requires
                    (scale * 128) * room((i + 1) as nat) == 0x1_0000_0000_0000_0000,
                    room((i + 1) as nat) >= 2,
                    scale >= 1,
            ;
            match decoded_at(buf@, (i + 1) as nat) {
                Some((rest, end)) => {
                    assert(value + scale * (low + 128 * rest) == value + scale * low + (scale
                        * 128) * rest) by (nonlinear_arith);
                },
                None => {},
            }
        }
        value = value + scale * ((byte - 128) as u64);
        scale = scale * 128;
        i += 1;
    }
    None
}

} // verus!
