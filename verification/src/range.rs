//! The span of data along one axis.

use vstd::prelude::*;

verus! {

/// The largest magnitude a grid coordinate may have: fifteen decimal digits.
///
/// Coordinates are whole numbers of a unit that the caller chooses. The bound
/// leaves room to refine the grid far enough to place `usize::MAX` ticks
/// between two neighbouring coordinates without leaving 128-bit arithmetic.
pub const GRID_LIMIT: i64 = 1_000_000_000_000_000;

/// Whether `v` is a coordinate the grid can hold.
pub open spec fn on_grid(v: int) -> bool {
    -(GRID_LIMIT as int) <= v <= GRID_LIMIT as int
}

/// The mathematical content of a [`Range`]: its two ends.
pub ghost struct Interval {
    pub min: int,
    pub max: int,
}

/// A closed interval `[min, max]` of grid coordinates.
///
/// A well-formed range has both ends on the grid and `min <= max`.
#[derive(Copy, Clone, Debug, PartialEq, Eq, Structural)]
pub struct Range {
    min: i64,
    max: i64,
}

impl View for Range {
    type V = Interval;

    closed spec fn view(&self) -> Interval {
        Interval { min: self.min as int, max: self.max as int }
    }
}

impl Range {
    /// Both ends lie on the grid and are in order.
    pub open spec fn wf(self) -> bool {
        &&& on_grid(self@.min)
        &&& on_grid(self@.max)
        &&& self@.min <= self@.max
    }

    /// The length of the interval.
    pub open spec fn size_spec(self) -> int {
        self@.max - self@.min
    }

    /// The range `[min, max]`.
    pub fn new(min: i64, max: i64) -> (range: Range)
        requires
            on_grid(min as int),
            on_grid(max as int),
            min <= max,
        ensures
            range.wf(),
            range@ == (Interval { min: min as int, max: max as int }),
    {
        Range { min, max }
    }

    /// Both ends, lower first.
    pub fn as_tuple(self) -> (ends: (i64, i64))
        ensures
            ends.0 == self@.min,
            ends.1 == self@.max,
    {
        (self.min, self.max)
    }

    /// The lower end.
    pub fn min(&self) -> (min: i64)
        ensures
            min == self@.min,
    {
        self.min
    }

    /// The upper end.
    pub fn max(&self) -> (max: i64)
        ensures
            max == self@.max,
    {
        self.max
    }

    /// Moves the lower end to `min` and leaves the upper end alone.
    pub fn set_min(&mut self, min: i64) -> (this: &mut Self)
        requires
            old(self).wf(),
            on_grid(min as int),
            min <= old(self)@.max,
        ensures
            this.wf(),
            this@ == (Interval { min: min as int, max: old(self)@.max }),
            *final(self) == *final(this),
    {
        self.min = min;
        self
    }

    /// Moves the upper end to `max` and leaves the lower end alone.
    pub fn set_max(&mut self, max: i64) -> (this: &mut Self)
        requires
            old(self).wf(),
            on_grid(max as int),
            max >= old(self)@.min,
        ensures
            this.wf(),
            this@ == (Interval { min: old(self)@.min, max: max as int }),
            *final(self) == *final(this),
    {
        self.max = max;
        self
    }

    /// The length of the interval, `max - min`.
    pub fn size(&self) -> (size: i64)
        requires
            self.wf(),
        ensures
            size == self.size_spec(),
            0 <= size <= 2 * GRID_LIMIT,
    {
        self.max - self.min
    }

    /// Grows the range by as little as it takes to contain `val`, and says
    /// whether it had to grow.
    pub fn extend_to(&mut self, val: i64) -> (changed: bool)
        requires
            old(self).wf(),
            on_grid(val as int),
        ensures
            final(self).wf(),
            final(self)@.min == if val < old(self)@.min {
                val as int
            } else {
                old(self)@.min
            },
            final(self)@.max == if val > old(self)@.max {
                val as int
            } else {
                old(self)@.max
            },
            changed <==> !(old(self)@.min <= val <= old(self)@.max),
            changed <==> *final(self) != *old(self),
    {
        if val < self.min {
            self.min = val;
            true
        } else if val > self.max {
            self.max = val;
            true
        } else {
            false
        }
    }

    /// The smallest range that contains every value, or `None` where there
    /// is no value to contain.
    pub fn from_iter(values: &Vec<i64>) -> (found: Option<Range>)
        requires
            forall|i: int| 0 <= i < values.len() ==> on_grid(#[trigger] values[i] as int),
        ensures
            found is None <==> values.len() == 0,
            found matches Some(range) ==> encloses_tightly(range, values@),
    {
        if values.len() == 0 {
            return None;
        }
        let mut min: i64 = values[0];
        let mut max: i64 = values[0];
        let mut i: usize = 1;
        while i < values.len()
            invariant
                1 <= i <= values.len(),
                forall|j: int| 0 <= j < values.len() ==> on_grid(#[trigger] values[j] as int),
                forall|j: int| 0 <= j < i ==> min <= #[trigger] values[j] <= max,
                exists|j: int| 0 <= j < i && #[trigger] values[j] == min,
                exists|j: int| 0 <= j < i && #[trigger] values[j] == max,
            decreases values.len() - i,
        {
            let v: i64 = values[i];
            if v < min {
                min = v;
            }
            if v > max {
                max = v;
            }
            i += 1;
        }
        Some(Range { min, max })
    }
}

impl From<Range> for (i64, i64) {
    /// Both ends, lower first.
    fn from(range: Range) -> (ends: (i64, i64)) {
        (range.min(), range.max())
    }
}

impl vstd::std_specs::convert::FromSpecImpl<Range> for (i64, i64) {
    open spec fn obeys_from_spec() -> bool {
        true
    }

    open spec fn from_spec(range: Range) -> (i64, i64) {
        (range@.min as i64, range@.max as i64)
    }
}

/// `range` is well formed, contains every element of `values`, and each of
/// its ends is one of them.
pub open spec fn encloses_tightly(range: Range, values: Seq<i64>) -> bool {
    &&& range.wf()
    &&& forall|i: int| 0 <= i < values.len() ==> range@.min <= #[trigger] values[i] <= range@.max
    &&& exists|i: int| 0 <= i < values.len() && #[trigger] values[i] == range@.min
    &&& exists|i: int| 0 <= i < values.len() && #[trigger] values[i] == range@.max
}

} // verus!
