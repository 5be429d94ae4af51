//! Ranges of offsets into a buffer.

use std::ops::{Bound, Range, RangeFrom, RangeFull, RangeInclusive, RangeTo, RangeToInclusive};

use vstd::prelude::*;

use crate::text::Length;

verus! {

/// Makes the variants of `std::ops::Bound` known.
#[verifier::external_type_specification]
#[verifier::reject_recursive_types(T)]
pub struct ExBound<T>(Bound<T>);

/// Makes the fields of `std::ops::RangeFrom` known.
#[verifier::external_type_specification]
#[verifier::reject_recursive_types(Idx)]
pub struct ExRangeFrom<Idx>(RangeFrom<Idx>);

/// Makes the fields of `std::ops::RangeTo` known.
#[verifier::external_type_specification]
#[verifier::reject_recursive_types(Idx)]
pub struct ExRangeTo<Idx>(RangeTo<Idx>);

/// Makes the fields of `std::ops::RangeToInclusive` known.
#[verifier::external_type_specification]
#[verifier::reject_recursive_types(Idx)]
pub struct ExRangeToInclusive<Idx>(RangeToInclusive<Idx>);

/// Makes `std::ops::RangeFull` known.
#[verifier::external_type_specification]
pub struct ExRangeFull(RangeFull);

/// `RangeInclusive::start` returns the lower bound of a range that has not been iterated to its
/// end. What it returns of one that has been is left open.
pub assume_specification<Idx>[ RangeInclusive::<Idx>::start ](
    range: &RangeInclusive<Idx>,
) -> (start: &Idx)
    ensures
        !range@.exhausted ==> *start == range@.start,
;

/// `RangeInclusive::end` returns the upper bound of a range that has not been iterated to its end.
/// What it returns of one that has been is left open.
pub assume_specification<Idx>[ RangeInclusive::<Idx>::end ](
    range: &RangeInclusive<Idx>,
) -> (end: &Idx)
    ensures
        !range@.exhausted ==> *end == range@.end,
;

/// A range of offsets into a buffer.
pub trait OffsetRange {
    /// Whether the range still says what it is from.
    spec fn has_bounds(&self) -> bool;

    spec fn spec_start_bound(&self) -> Bound<Length>;

    spec fn spec_end_bound(&self) -> Bound<Length>;

    /// Where the range starts.
    fn start_bound(&self) -> (bound: Bound<Length>)
        requires
            self.has_bounds(),
        ensures
            bound == self.spec_start_bound(),
    ;

    /// Where the range ends.
    fn end_bound(&self) -> (bound: Bound<Length>)
        requires
            self.has_bounds(),
        ensures
            bound == self.spec_end_bound(),
    ;
}

impl OffsetRange for Range<usize> {
    open spec fn has_bounds(&self) -> bool {
        true
    }

    open spec fn spec_start_bound(&self) -> Bound<Length> {
        Bound::Included(self.start)
    }

    open spec fn spec_end_bound(&self) -> Bound<Length> {
        Bound::Excluded(self.end)
    }

    fn start_bound(&self) -> (bound: Bound<Length>) {
        Bound::Included(self.start)
    }

    fn end_bound(&self) -> (bound: Bound<Length>) {
        Bound::Excluded(self.end)
    }
}

impl OffsetRange for RangeFrom<usize> {
    open spec fn has_bounds(&self) -> bool {
        true
    }

    open spec fn spec_start_bound(&self) -> Bound<Length> {
        Bound::Included(self.start)
    }

    open spec fn spec_end_bound(&self) -> Bound<Length> {
        Bound::Unbounded
    }

    fn start_bound(&self) -> (bound: Bound<Length>) {
        Bound::Included(self.start)
    }

    fn end_bound(&self) -> (bound: Bound<Length>) {
        Bound::Unbounded
    }
}

impl OffsetRange for RangeTo<usize> {
    open spec fn has_bounds(&self) -> bool {
        true
    }

    open spec fn spec_start_bound(&self) -> Bound<Length> {
        Bound::Unbounded
    }

    open spec fn spec_end_bound(&self) -> Bound<Length> {
        Bound::Excluded(self.end)
    }

    fn start_bound(&self) -> (bound: Bound<Length>) {
        Bound::Unbounded
    }

    fn end_bound(&self) -> (bound: Bound<Length>) {
        Bound::Excluded(self.end)
    }
}

impl OffsetRange for RangeToInclusive<usize> {
    open spec fn has_bounds(&self) -> bool {
        true
    }

    open spec fn spec_start_bound(&self) -> Bound<Length> {
        Bound::Unbounded
    }

    open spec fn spec_end_bound(&self) -> Bound<Length> {
        Bound::Included(self.end)
    }

    fn start_bound(&self) -> (bound: Bound<Length>) {
        Bound::Unbounded
    }

    fn end_bound(&self) -> (bound: Bound<Length>) {
        Bound::Included(self.end)
    }
}

impl OffsetRange for RangeFull {
    open spec fn has_bounds(&self) -> bool {
        true
    }

    open spec fn spec_start_bound(&self) -> Bound<Length> {
        Bound::Unbounded
    }

    open spec fn spec_end_bound(&self) -> Bound<Length> {
        Bound::Unbounded
    }

    fn start_bound(&self) -> (bound: Bound<Length>) {
        Bound::Unbounded
    }

    fn end_bound(&self) -> (bound: Bound<Length>) {
        Bound::Unbounded
    }
}

impl OffsetRange for RangeInclusive<usize> {
    open spec fn has_bounds(&self) -> bool {
        !self@.exhausted
    }

    open spec fn spec_start_bound(&self) -> Bound<Length> {
        Bound::Included(self@.start)
    }

    open spec fn spec_end_bound(&self) -> Bound<Length> {
        Bound::Included(self@.end)
    }

    fn start_bound(&self) -> (bound: Bound<Length>) {
        Bound::Included(*self.start())
    }

    fn end_bound(&self) -> (bound: Bound<Length>) {
        Bound::Included(*self.end())
    }
}

impl OffsetRange for (Bound<usize>, Bound<usize>) {
    open spec fn has_bounds(&self) -> bool {
        true
    }

    open spec fn spec_start_bound(&self) -> Bound<Length> {
        self.0
    }

    open spec fn spec_end_bound(&self) -> Bound<Length> {
        self.1
    }

    fn start_bound(&self) -> (bound: Bound<Length>) {
        self.0
    }

    fn end_bound(&self) -> (bound: Bound<Length>) {
        self.1
    }
}

/// The first offset of a range that is bounded below.
pub open spec fn first_offset(bound: Bound<Length>, lo: int) -> int {
    match bound {
        Bound::Included(n) => n as int,
        Bound::Excluded(n) => n + 1,
        Bound::Unbounded => lo,
    }
}

/// The offset at which a range that is bounded above ends.
pub open spec fn end_offset(bound: Bound<Length>, hi: int) -> int {
    match bound {
        Bound::Included(n) => n + 1,
        Bound::Excluded(n) => n as int,
        Bound::Unbounded => hi,
    }
}

/// Whether two ranges are of the same offsets into a buffer of the given length.
pub open spec fn same_offsets<R: OffsetRange, S: OffsetRange>(
    range: R,
    other: S,
    len: int,
) -> bool {
    &&& first_offset(range.spec_start_bound(), 0) == first_offset(other.spec_start_bound(), 0)
    &&& end_offset(range.spec_end_bound(), len) == end_offset(other.spec_end_bound(), len)
}

/// The numbers in a range are its offsets, however large they are: `a..b` starts at `a` and ends at
/// `b`, `a..=b` ends after `b`, and where a range names no bound it starts at the least offset or
/// ends at the largest.
pub proof fn law_ranges_are_of_the_offsets_that_they_name(
    inclusive: RangeInclusive<usize>,
    a: usize,
    b: usize,
    lo: int,
    hi: int,
)
    requires
        !inclusive@.exhausted,
        inclusive@.start == a,
        inclusive@.end == b,
    ensures
        ({
            let range = Range { start: a, end: b };
            &&& range.has_bounds()
            &&& first_offset(range.spec_start_bound(), lo) == a
            &&& end_offset(range.spec_end_bound(), hi) == b
        }),
        inclusive.has_bounds(),
        first_offset(inclusive.spec_start_bound(), lo) == a,
        end_offset(inclusive.spec_end_bound(), hi) == b + 1,
        ({
            let range = RangeFrom { start: a };
            &&& range.has_bounds()
            &&& first_offset(range.spec_start_bound(), lo) == a
            &&& end_offset(range.spec_end_bound(), hi) == hi
        }),
        ({
            let range = RangeTo { end: b };
            &&& range.has_bounds()
            &&& first_offset(range.spec_start_bound(), lo) == lo
            &&& end_offset(range.spec_end_bound(), hi) == b
        }),
        ({
            let range = RangeToInclusive { end: b };
            &&& range.has_bounds()
            &&& first_offset(range.spec_start_bound(), lo) == lo
            &&& end_offset(range.spec_end_bound(), hi) == b + 1
        }),
        RangeFull.has_bounds(),
        first_offset(RangeFull.spec_start_bound(), lo) == lo,
        end_offset(RangeFull.spec_end_bound(), hi) == hi,
        ({
            let range = (Bound::Included(a), Bound::Included(b));
            &&& range.has_bounds()
            &&& first_offset(range.spec_start_bound(), lo) == a
            &&& end_offset(range.spec_end_bound(), hi) == b + 1
        }),
        ({
            let range = (Bound::Excluded(a), Bound::Excluded(b));
            &&& range.has_bounds()
            &&& first_offset(range.spec_start_bound(), lo) == a + 1
            &&& end_offset(range.spec_end_bound(), hi) == b
        }),
        ({
            let range = (Bound::<usize>::Unbounded, Bound::<usize>::Unbounded);
            &&& range.has_bounds()
            &&& first_offset(range.spec_start_bound(), lo) == lo
            &&& end_offset(range.spec_end_bound(), hi) == hi
        }),
{
}

/// Each form of a range is of the same offsets as one that names its start and its end: `a..=b`
/// as `a..b + 1`, `..b` as `0..b`, `..=b` as `0..b + 1`, `a..` as `a..len`, and `..` as `0..len`.
pub proof fn law_forms_of_ranges(inclusive: RangeInclusive<usize>, a: usize, b: usize, len: usize)
    requires
        inclusive.has_bounds(),
        inclusive@.start == a,
        inclusive@.end == b,
        b < usize::MAX,
    ensures
        same_offsets(inclusive, Range { start: a, end: (b + 1) as usize }, len as int),
        same_offsets(RangeTo { end: b }, Range { start: 0usize, end: b }, len as int),
        same_offsets(
            RangeToInclusive { end: b },
            Range { start: 0usize, end: (b + 1) as usize },
            len as int,
        ),
        same_offsets(RangeFrom { start: a }, Range { start: a, end: len }, len as int),
        same_offsets(RangeFull, Range { start: 0usize, end: len }, len as int),
{
}

/// The offsets at which a range starts and ends within `lo` and `hi`.
pub fn range_bounds_to_start_end<R: OffsetRange>(range: R, lo: Length, hi: Length) -> (res: (
    Length,
    Length,
))
    requires
        range.has_bounds(),
        first_offset(range.spec_start_bound(), lo as int) <= usize::MAX,
        end_offset(range.spec_end_bound(), hi as int) <= usize::MAX,
    ensures
        res.0 == first_offset(range.spec_start_bound(), lo as int),
        res.1 == end_offset(range.spec_end_bound(), hi as int),
{
    let start: usize = match range.start_bound() {
        Bound::Included(n) => n,
        Bound::Excluded(n) => n + 1,
        Bound::Unbounded => lo,
    };
    let end: usize = match range.end_bound() {
        Bound::Included(n) => n + 1,
        Bound::Excluded(n) => n,
        Bound::Unbounded => hi,
    };
    (start, end)
}

} // verus!
