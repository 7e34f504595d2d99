//! Half-open ranges on the integer line.

use vstd::prelude::*;

use crate::IntType;

verus! {

/// The half-open range `[begin, end)`.
#[derive(Clone, Copy, Debug, PartialEq, Eq, Structural)]
pub struct Interval {
    pub begin: IntType,
    pub end: IntType,
}

impl Interval {
    /// The test that `intersects` computes: the range that begins first
    /// reaches past the beginning of the other one.
    pub open spec fn spec_intersects(self, other: Interval) -> bool {
        if self.begin < other.begin {
            other.begin < self.end
        } else {
            self.begin < other.end
        }
    }

    /// The signed length `end - begin`.
    pub open spec fn spec_width(self) -> int {
        self.end - self.begin
    }

    /// Whether the integer `x` lies in the range.
    pub open spec fn contains(self, x: int) -> bool {
        self.begin <= x < self.end
    }

    /// Whether some integer lies in both ranges.
    pub open spec fn shares_point(self, other: Interval) -> bool {
        exists|x: int| #[trigger] self.contains(x) && other.contains(x)
    }

    /// Whether the range that begins first reaches past the beginning of the
    /// other one.
    pub fn intersects(&self, other: &Interval) -> (r: bool)
        ensures
            r == self.spec_intersects(*other),
    {
        if self.begin < other.begin {
            other.begin < self.end
        } else {
            self.begin < other.end
        }
    }

    /// The length of the range; negative where it ends before it begins.
    pub fn width(&self) -> (w: IntType)
        requires
            IntType::MIN <= self.end - self.begin <= IntType::MAX,
        ensures
            w == self.spec_width(),
    {
        self.end - self.begin
    }

    /// Whether the range holds nothing.
    pub fn is_degenerate(&self) -> (r: bool)
        ensures
            r == (self.begin >= self.end),
    {
        self.begin >= self.end
    }

    /// Whether the range begins and ends at 0.
    pub fn is_zero(&self) -> (r: bool)
        ensures
            r == (self.begin == 0 && self.end == 0),
    {
        self.begin == 0 && self.end == 0
    }

    /// For two non-empty ranges, `intersects` holds exactly when they have a
    /// point in common.
    pub proof fn lemma_intersects_iff_shares_point(self, other: Interval)
        requires
            self.begin < self.end,
            other.begin < other.end,
        ensures
            self.spec_intersects(other) == self.shares_point(other),
    {
        if self.spec_intersects(other) {
            let x: int = if self.begin < other.begin { other.begin as int } else { self.begin as int };
            assert(self.contains(x) && other.contains(x));
        }
    }

    /// `intersects` does not depend on the order of its arguments when
    /// neither range is empty.
    pub proof fn lemma_intersects_symmetric(self, other: Interval)
        requires
            self.begin < self.end,
            other.begin < other.end,
        ensures
            self.spec_intersects(other) == other.spec_intersects(self),
    {
    }
}

} // verus!
