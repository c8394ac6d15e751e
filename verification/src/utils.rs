//! Small helpers shared by the puzzle modules.

use vstd::prelude::*;
use vstd::std_specs::cmp::PartialOrdIs;
use vstd::std_specs::cmp::PartialOrdSpec;

verus! {

/// What `is_in_bounds` answers for a type whose comparisons follow their
/// specification: both coordinates lie between the corners, inclusive.
pub open spec fn within<T: PartialOrd>(x: T, y: T, min: (T, T), max: (T, T)) -> bool {
    x.is_ge(&min.0) && x.is_le(&max.0) && y.is_ge(&min.1) && y.is_le(&max.1)
}

/// Checks whether the point `(x, y)` lies in the box spanned by `min` and
/// `max`, both corners included.
pub fn is_in_bounds<T: PartialOrd>(x: T, y: T, min: (T, T), max: (T, T)) -> (r: bool)
    ensures
        T::obeys_partial_cmp_spec() ==> r == within(x, y, min, max),
{
    x >= min.0 && x <= max.0 && y >= min.1 && y <= max.1
}

} // verus!
