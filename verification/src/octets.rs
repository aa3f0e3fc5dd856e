//! Helpers for byte strings and their mathematical views.

use vstd::prelude::*;

verus! {

/// The byte sequences held by a vector of byte vectors.
pub open spec fn seqs_of(items: Seq<Vec<u8>>) -> Seq<Seq<u8>> {
    Seq::new(items.len(), |i: int| items[i]@)
}

/// The byte sequence held by an optional byte vector.
pub open spec fn opt_seq(item: Option<Vec<u8>>) -> Option<Seq<u8>> {
    match item {
        Some(bytes) => Some(bytes@),
        None => None,
    }
}

/// The byte sequences held by an optional vector of byte vectors.
pub open spec fn opt_seqs(items: Option<Vec<Vec<u8>>>) -> Option<Seq<Seq<u8>>> {
    match items {
        Some(list) => Some(seqs_of(list@)),
        None => None,
    }
}

/// Whether two byte strings hold the same bytes.
pub fn bytes_equal(a: &[u8], b: &[u8]) -> (r: bool)
    ensures
        r == (a@ == b@),
{
    if a.len() != b.len() {
        return false;
    }
    let mut i: usize = 0;
    while i < a.len()
        invariant
            i <= a@.len(),
            a@.len() == b@.len(),
            forall|j: int| 0 <= j < i ==> a@[j] == b@[j],
        decreases a@.len() - i,
    {
        if a[i] != b[i] {
            return false;
        }
        i += 1;
    }
    assert(a@ =~= b@);
    true
}

/// A fresh vector holding the bytes of `a`.
pub fn copy_bytes(a: &[u8]) -> (r: Vec<u8>)
    ensures
        r@ == a@,
{
    let mut out: Vec<u8> = Vec::new();
    let mut i: usize = 0;
    while i < a.len()
        invariant
            i <= a@.len(),
            out@ == a@.take(i as int),
        decreases a@.len() - i,
    {
        out.push(a[i]);
        assert(a@.take(i as int).push(a@[i as int]) =~= a@.take(i as int + 1));
        i += 1;
    }
    assert(a@.take(a@.len() as int) =~= a@);
    out
}

/// Appends the bytes of `tail` to `buf`.
pub fn append_bytes(buf: &mut Vec<u8>, tail: &[u8])
    ensures
        final(buf)@ == old(buf)@ + tail@,
{
    let mut i: usize = 0;
    while i < tail.len()
        invariant
            i <= tail@.len(),
            buf@ == old(buf)@ + tail@.take(i as int),
        decreases tail@.len() - i,
    {
        buf.push(tail[i]);
        assert((old(buf)@ + tail@.take(i as int)).push(tail@[i as int]) =~= old(buf)@ + tail@.take(
            i as int + 1,
        ));
        i += 1;
    }
    assert(tail@.take(tail@.len() as int) =~= tail@);
}

/// A fresh copy of a list of byte strings.
pub fn copy_byte_lists(items: &Vec<Vec<u8>>) -> (r: Vec<Vec<u8>>)
    ensures
        seqs_of(r@) == seqs_of(items@),
{
    let mut out: Vec<Vec<u8>> = Vec::new();
    let mut i: usize = 0;
    while i < items.len()
        invariant
            i <= items@.len(),
            out@.len() == i,
            forall|j: int| 0 <= j < i ==> out@[j]@ == items@[j]@,
        decreases items@.len() - i,
    {
        out.push(copy_bytes(items[i].as_slice()));
        i += 1;
    }
    assert(seqs_of(out@) =~= seqs_of(items@));
    out
}

} // verus!
