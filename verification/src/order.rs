use vstd::prelude::*;
use vstd::std_specs::cmp::{PartialOrdIs, PartialOrdSpec};

verus! {

/// Whether the comparisons of `T` return what their specification says.
pub open spec fn lawful<T: PartialOrd>() -> bool {
    T::obeys_partial_cmp_spec()
}

/// Whether `a` is greater than `b`.
pub open spec fn above<T: PartialOrd>(a: T, b: T) -> bool {
    a.is_gt(&b)
}

/// Whether `a` is less than `b`.
pub open spec fn under<T: PartialOrd>(a: T, b: T) -> bool {
    a.is_lt(&b)
}

/// Whether the values of `T` stand in one line: of two different values one
/// is greater and the other less, and greater than greater is greater.
pub open spec fn in_line<T: PartialOrd>() -> bool {
    &&& lawful::<T>()
    &&& forall|a: T, b: T|
        #![trigger above(a, b)]
        #![trigger under(b, a)]
        above(a, b) <==> under(b, a)
    &&& forall|a: T, b: T| a == b || #[trigger] above(a, b) || above(b, a)
    &&& forall|a: T, b: T| !(#[trigger] above(a, b) && above(b, a))
    &&& forall|a: T, b: T, c: T| #[trigger] above(a, b) && #[trigger] above(b, c) ==> above(a, c)
}

/// Whether `a` is greater than `b`.
pub fn is_above<T: PartialOrd + Copy>(a: T, b: T) -> (yes: bool)
    ensures
        lawful::<T>() ==> yes == above(a, b),
{
    a > b
}

/// Whether `a` is less than `b`.
pub fn is_under<T: PartialOrd + Copy>(a: T, b: T) -> (yes: bool)
    ensures
        lawful::<T>() ==> yes == under(a, b),
{
    a < b
}

/// The 32-bit integers stand in one line.
pub proof fn lemma_i32_in_line()
    ensures
        in_line::<i32>(),
        forall|a: i32, b: i32| #[trigger] above(a, b) <==> a > b,
        forall|a: i32, b: i32| #[trigger] under(a, b) <==> a < b,
{
}

} // verus!
