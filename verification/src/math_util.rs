//! Ranges over ordered values.
use vstd::prelude::*;
use core::cmp::Ordering;
use core::ops::Sub;
use vstd::std_specs::cmp::PartialOrdSpec;
use vstd::std_specs::ops::SubSpec;

verus! {

/// Whether `x` lies below `y`, by the type's own order.
pub open spec fn is_below<T: PartialOrd>(x: T, y: T) -> bool {
    x.partial_cmp_spec(&y) == Some(Ordering::Less)
}

/// Whether `x` lies above `y`, by the type's own order.
pub open spec fn is_above<T: PartialOrd>(x: T, y: T) -> bool {
    x.partial_cmp_spec(&y) == Some(Ordering::Greater)
}

/// How far `x` lies outside the range from `start_inclusive` to
/// `end_inclusive`: `x` less the start where `x` is below the range, `x`
/// less the end where it is above, and the type's default value inside.
pub fn dist_to_range<T: PartialOrd + Sub<Output = T> + Default>(
    x: T,
    start_inclusive: T,
    end_inclusive: T,
) -> (r: T)
    requires
        T::obeys_partial_cmp_spec(),
        is_below(x, start_inclusive) ==> x.sub_req(start_inclusive),
        !is_below(x, start_inclusive) && is_above(x, end_inclusive) ==> x.sub_req(end_inclusive),
    ensures
        is_below(x, start_inclusive) && T::obeys_sub_spec() ==> r == x.sub_spec(start_inclusive),
        !is_below(x, start_inclusive) && is_above(x, end_inclusive) && T::obeys_sub_spec() ==> r
            == x.sub_spec(end_inclusive),
        !is_below(x, start_inclusive) && !is_above(x, end_inclusive) ==> call_ensures(
            T::default,
            (),
            r,
        ),
{
    if x < start_inclusive {
        x - start_inclusive
    } else if x > end_inclusive {
        x - end_inclusive
    } else {
        T::default()
    }
}

/// `x` if it lies within the range from `start_inclusive` to
/// `end_inclusive`, else nothing.
pub fn get_in_range<T: PartialOrd + Sub<Output = T> + Default>(
    x: T,
    start_inclusive: T,
    end_inclusive: T,
) -> (r: Option<T>)
    requires
        T::obeys_partial_cmp_spec(),
    ensures
        r == (if is_below(x, start_inclusive) || is_above(x, end_inclusive) {
            None
        } else {
            Some(x)
        }),
{
    if x < start_inclusive || x > end_inclusive {
        None
    } else {
        Some(x)
    }
}

} // verus!
