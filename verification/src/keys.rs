//! Coordinate keys, split axes, and the distance functions of the index.

use vstd::prelude::*;

verus! {

/// Largest magnitude a key or query component may have.
///
/// Squared distances are computed in `i128`; with every component in
/// `[-KEY_BOUND, KEY_BOUND]` a per-axis difference is at most `2^62`, its
/// square at most `2^124`, and the three-axis sum at most `3 * 2^124`, which
/// fits comfortably in an `i128`.
pub const KEY_BOUND: i64 = 0x2000_0000_0000_0000;

/// Whether every component of `k` is small enough for squared distances to
/// `k` to be computed without overflow.
pub open spec fn in_range(k: [i64; 3]) -> bool {
    &&& -KEY_BOUND <= k@[0] <= KEY_BOUND
    &&& -KEY_BOUND <= k@[1] <= KEY_BOUND
    &&& -KEY_BOUND <= k@[2] <= KEY_BOUND
}

/// Squared Euclidean distance between the coordinates `a` and `b`.
pub open spec fn sq_dist(a: [i64; 3], b: [i64; 3]) -> int {
    (a@[0] - b@[0]) * (a@[0] - b@[0]) + (a@[1] - b@[1]) * (a@[1] - b@[1]) + (a@[2] - b@[2])
        * (a@[2] - b@[2])
}

/// Which of the three coordinate components a tree level partitions on.
/// Axes cycle `First -> Second -> Third -> First` with tree depth.
#[derive(Debug, Copy, Clone)]
pub(crate) enum Dimension {
    First,
    Second,
    Third,
}

impl Dimension {
    /// The component position this axis selects.
    pub(crate) open spec fn index_spec(self) -> int {
        match self {
            Dimension::First => 0,
            Dimension::Second => 1,
            Dimension::Third => 2,
        }
    }

    /// The axis that follows `self` in the rotation.
    pub(crate) open spec fn next_spec(self) -> Self {
        match self {
            Dimension::First => Dimension::Second,
            Dimension::Second => Dimension::Third,
            Dimension::Third => Dimension::First,
        }
    }

    pub(crate) fn next(self) -> (r: Self)
        ensures
            r == self.next_spec(),
    {
        match self {
            Dimension::First => Dimension::Second,
            Dimension::Second => Dimension::Third,
            Dimension::Third => Dimension::First,
        }
    }

    pub(crate) fn index(self) -> (r: usize)
        ensures
            r == self.index_spec(),
    {
        match self {
            Dimension::First => 0,
            Dimension::Second => 1,
            Dimension::Third => 2,
        }
    }
}

/// The component of `k` along the axis `d`, as a mathematical integer.
pub(crate) open spec fn comp(k: [i64; 3], d: Dimension) -> int {
    k@[d.index_spec()] as int
}

/// The absolute difference between `k1` and `k2` along the axis `d` alone:
/// the linear gap the search compares against a squared best distance.
pub(crate) open spec fn axis_gap(d: Dimension, k1: [i64; 3], k2: [i64; 3]) -> int {
    if comp(k1, d) > comp(k2, d) {
        comp(k1, d) - comp(k2, d)
    } else {
        comp(k2, d) - comp(k1, d)
    }
}

} // verus!
