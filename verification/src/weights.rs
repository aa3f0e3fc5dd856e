//! Weights of the dispatchables of the gilt pallet, measured on the
//! recommended hardware.
//!
//! A weight is an amount of computation time. Every weight here is a base
//! time, a time for each item that the call touches, and the time of the
//! storage reads and writes that the call makes; the sum stops at the largest
//! weight there is.

use vstd::prelude::*;

verus! {

/// An amount of computation time, in picoseconds.
#[derive(Clone, Copy, Debug, PartialEq, Eq, PartialOrd, Ord, Structural)]
pub struct Weight {
    pub ref_time: u64,
}

/// The weight of one storage read and of one storage write.
#[derive(Clone, Copy, Debug, PartialEq, Eq, Structural)]
pub struct RuntimeDbWeight {
    pub read: u64,
    pub write: u64,
}

/// The largest weight there is, where `total` is beyond it, and else `total`.
pub open spec fn capped(total: int) -> u64 {
    if total > u64::MAX {
        u64::MAX
    } else if total < 0 {
        0
    } else {
        total as u64
    }
}

/// The weight of a call: `base`, `per_item` for each of `items`, and `reads`
/// storage reads and `writes` storage writes at the prices of `db`.
pub open spec fn weight_of(
    base: int,
    per_item: int,
    items: int,
    reads: int,
    writes: int,
    db: RuntimeDbWeight,
) -> Weight {
    Weight { ref_time: capped(base + per_item * items + reads * db.read + writes * db.write) }
}

impl Weight {
    /// The weight of `ref_time` picoseconds.
    pub fn from_ref_time(ref_time: u64) -> (r: Weight)
        ensures
            r.ref_time == ref_time,
    {
        Weight { ref_time }
    }

    /// The sum of two weights, stopping at the largest weight.
    pub fn saturating_add(self, other: Weight) -> (r: Weight)
        ensures
            r.ref_time == capped(self.ref_time + other.ref_time),
    {
        Weight { ref_time: self.ref_time.saturating_add(other.ref_time) }
    }

    /// The weight taken `factor` times, stopping at the largest weight.
    pub fn scalar_saturating_mul(self, factor: u64) -> (r: Weight)
        ensures
            r.ref_time == capped(self.ref_time * factor),
    {
        assert(self.ref_time * factor >= 0) by (nonlinear_arith)
            requires
                self.ref_time >= 0,
                factor >= 0,
        ;
        match self.ref_time.checked_mul(factor) {
            Some(product) => Weight { ref_time: product },
            None => Weight { ref_time: u64::MAX },
        }
    }
}

impl RuntimeDbWeight {
    /// The weight of `count` storage reads.
    pub fn reads(self, count: u64) -> (r: Weight)
        ensures
            r.ref_time == capped(self.read * count),
    {
        Weight::from_ref_time(self.read).scalar_saturating_mul(count)
    }

    /// The weight of `count` storage writes.
    pub fn writes(self, count: u64) -> (r: Weight)
        ensures
            r.ref_time == capped(self.write * count),
    {
        Weight::from_ref_time(self.write).scalar_saturating_mul(count)
    }
}

/// The weights of the calls of the gilt pallet.
pub trait WeightInfo {
    /// Placing a bid in a queue of `l` bids.
    fn place_bid(&self, l: u32) -> Weight;

    /// Placing a bid in a queue that is full.
    fn place_bid_max(&self) -> Weight;

    /// Retracting a bid from a queue of `l` bids.
    fn retract_bid(&self, l: u32) -> Weight;

    /// Setting the target.
    fn set_target(&self) -> Weight;

    /// Thawing a gilt.
    fn thaw(&self) -> Weight;

    /// Pursuing the target when there is nothing to do.
    fn pursue_target_noop(&self) -> Weight;

    /// Pursuing the target by turning `b` bids into gilts.
    fn pursue_target_per_item(&self, b: u32) -> Weight;

    /// Pursuing the target through `q` queues.
    fn pursue_target_per_queue(&self, q: u32) -> Weight;
}

/// Weights for the gilt pallet on the recommended hardware, with the storage
/// prices of the runtime.
#[derive(Clone, Copy, Debug, PartialEq, Eq, Structural)]
pub struct SubstrateWeight {
    pub db_weight: RuntimeDbWeight,
}

/// The weight of a call, summed term by term.
fn sum_weight(
    base: u64,
    per_item: u64,
    items: u32,
    reads: u64,
    writes: u64,
    db: RuntimeDbWeight,
) -> (r: Weight)
    ensures
        r == weight_of(base as int, per_item as int, items as int, reads as int, writes as int, db),
{
    assert(per_item * items >= 0 && reads * db.read >= 0 && writes * db.write >= 0
        && db.read * reads == reads * db.read && db.write * writes == writes * db.write)
        by (nonlinear_arith)
        requires
            per_item >= 0,
            items >= 0,
            reads >= 0,
            writes >= 0,
            db.read >= 0,
            db.write >= 0,
    ;
    Weight::from_ref_time(base).saturating_add(
        Weight::from_ref_time(per_item).scalar_saturating_mul(items as u64),
    ).saturating_add(db.reads(reads)).saturating_add(db.writes(writes))
}

impl WeightInfo for SubstrateWeight {
    fn place_bid(&self, l: u32) -> (r: Weight)
        ensures
            r == weight_of(41_605_000, 62_000, l as int, 2, 2, self.db_weight),
    {
        sum_weight(41_605_000, 62_000, l, 2, 2, self.db_weight)
    }

    fn place_bid_max(&self) -> (r: Weight)
        ensures
            r == weight_of(97_715_000, 0, 0, 2, 2, self.db_weight),
    {
        sum_weight(97_715_000, 0, 0, 2, 2, self.db_weight)
    }

    fn retract_bid(&self, l: u32) -> (r: Weight)
        ensures
            r == weight_of(42_061_000, 52_000, l as int, 2, 2, self.db_weight),
    {
        sum_weight(42_061_000, 52_000, l, 2, 2, self.db_weight)
    }

    fn set_target(&self) -> (r: Weight)
        ensures
            r == weight_of(5_026_000, 0, 0, 1, 1, self.db_weight),
    {
        sum_weight(5_026_000, 0, 0, 1, 1, self.db_weight)
    }

    fn thaw(&self) -> (r: Weight)
        ensures
            r == weight_of(47_753_000, 0, 0, 2, 2, self.db_weight),
    {
        sum_weight(47_753_000, 0, 0, 2, 2, self.db_weight)
    }

    fn pursue_target_noop(&self) -> (r: Weight)
        ensures
            r == weight_of(1_663_000, 0, 0, 1, 0, self.db_weight),
    {
        sum_weight(1_663_000, 0, 0, 1, 0, self.db_weight)
    }

    fn pursue_target_per_item(&self, b: u32) -> (r: Weight)
        ensures
            r == weight_of(40_797_000, 4_122_000, b as int, 3, 3 + b, self.db_weight),
    {
        sum_weight(40_797_000, 4_122_000, b, 3, 3 + b as u64, self.db_weight)
    }

    fn pursue_target_per_queue(&self, q: u32) -> (r: Weight)
        ensures
            r == weight_of(14_944_000, 8_135_000, q as int, 2 + q, 2 + 2 * q, self.db_weight),
    {
        sum_weight(14_944_000, 8_135_000, q, 2 + q as u64, 2 + 2 * (q as u64), self.db_weight)
    }
}

} // verus!
