//! Plain values that stand for peers, connections, block hashes and time.

use vstd::prelude::*;
use crate::octets::{bytes_equal, copy_bytes};

verus! {

/// Number of bytes in a block hash.
pub const HASH_LEN: usize = 32;

/// A block hash: 32 opaque bytes.
#[derive(Clone, Copy, Debug, PartialEq, Eq, Hash)]
pub struct BlockHash {
    pub bytes: [u8; 32],
}

impl BlockHash {
    /// The hash made of the given bytes.
    pub fn new(bytes: [u8; 32]) -> (r: BlockHash)
        ensures
            r.bytes == bytes,
    {
        BlockHash { bytes }
    }

    /// Whether both hashes hold the same bytes.
    pub fn same(&self, other: &BlockHash) -> (r: bool)
        ensures
            r == (*self == *other),
    {
        let mut i: usize = 0;
        while i < 32
            invariant
                i <= 32,
                forall|j: int| 0 <= j < i ==> self.bytes[j] == other.bytes[j],
            decreases 32 - i,
        {
            if self.bytes[i] != other.bytes[i] {
                return false;
            }
            i += 1;
        }
        assert(self.bytes =~= other.bytes);
        true
    }
}

/// Whether two optional hashes are equal.
pub fn same_opt_hash(a: &Option<BlockHash>, b: &Option<BlockHash>) -> (r: bool)
    ensures
        r == (*a == *b),
{
    match (a, b) {
        (Some(x), Some(y)) => x.same(y),
        (None, None) => true,
        _ => false,
    }
}

/// The height of a block in its chain.
pub type Number = u64;

/// The identity of a remote peer, as the bytes of its multihash.
#[derive(Debug, PartialEq, Eq, Hash)]
pub struct PeerId {
    pub bytes: Vec<u8>,
}

impl View for PeerId {
    type V = Seq<u8>;

    open spec fn view(&self) -> Seq<u8> {
        self.bytes@
    }
}

impl Clone for PeerId {
    fn clone(&self) -> (r: Self)
        ensures
            r@ == self@,
    {
        PeerId { bytes: copy_bytes(self.bytes.as_slice()) }
    }
}

impl PeerId {
    /// The peer identified by `bytes`.
    pub fn from_bytes(bytes: Vec<u8>) -> (r: PeerId)
        ensures
            r@ == bytes@,
    {
        PeerId { bytes }
    }

    /// Whether both values name the same peer.
    pub fn same(&self, other: &PeerId) -> (r: bool)
        ensures
            r == (self@ == other@),
    {
        bytes_equal(self.bytes.as_slice(), other.bytes.as_slice())
    }
}

/// The identity of one connection to a peer.
#[derive(Clone, Copy, Debug, PartialEq, Eq, Hash, Structural)]
pub struct ConnectionId(pub usize);

/// A length of time, in milliseconds.
#[derive(Clone, Copy, Debug, PartialEq, Eq, PartialOrd, Ord, Hash, Structural)]
pub struct Duration {
    pub millis: u64,
}

impl Duration {
    /// The duration of `secs` seconds; durations beyond the representable
    /// range are clamped to the longest one.
    pub fn from_secs(secs: u64) -> (r: Duration)
        ensures
            r.millis == if secs * 1000 <= u64::MAX { secs * 1000 } else { u64::MAX as int },
    {
        if secs <= u64::MAX / 1000 {
            Duration { millis: secs * 1000 }
        } else {
            Duration { millis: u64::MAX }
        }
    }

    /// The duration of `millis` milliseconds.
    pub fn from_millis(millis: u64) -> (r: Duration)
        ensures
            r.millis == millis,
    {
        Duration { millis }
    }
}

/// A reading of a monotonic clock, in milliseconds since an arbitrary origin.
#[derive(Clone, Copy, Debug, PartialEq, Eq, PartialOrd, Ord, Hash, Structural)]
pub struct Instant {
    pub millis: u64,
}

/// The time from `earlier` to `later`; zero where `later` is not after `earlier`.
pub open spec fn elapsed_between(earlier: Instant, later: Instant) -> Duration {
    Duration {
        millis: if later.millis >= earlier.millis {
            (later.millis - earlier.millis) as u64
        } else {
            0
        },
    }
}

/// The instant `after` past `start`, clamped to the last representable instant.
pub open spec fn instant_after(start: Instant, after: Duration) -> Instant {
    Instant {
        millis: if start.millis + after.millis <= u64::MAX {
            (start.millis + after.millis) as u64
        } else {
            u64::MAX
        },
    }
}

impl Instant {
    /// The instant `millis` milliseconds after the clock's origin.
    pub fn from_millis(millis: u64) -> (r: Instant)
        ensures
            r.millis == millis,
    {
        Instant { millis }
    }

    /// The time elapsed from `self` to `now`.
    pub fn elapsed(&self, now: Instant) -> (r: Duration)
        ensures
            r == elapsed_between(*self, now),
    {
        Duration { millis: now.millis.saturating_sub(self.millis) }
    }

    /// The instant `after` past `self`.
    pub fn plus(&self, after: Duration) -> (r: Instant)
        ensures
            r == instant_after(*self, after),
    {
        Instant { millis: self.millis.saturating_add(after.millis) }
    }

    /// Whether `self` has been reached at `now`.
    pub fn reached(&self, now: Instant) -> (r: bool)
        ensures
            r == (now.millis >= self.millis),
    {
        now.millis >= self.millis
    }
}

} // verus!
