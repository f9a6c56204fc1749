//! What `==` means on the inputs that come with this crate.

use vstd::prelude::*;
use vstd::std_specs::cmp::PartialEqSpec;

verus! {

/// `==` on `str`: two texts are equal when they hold the same characters.
pub assume_specification[ <str as PartialEq<str>>::eq ](a: &str, b: &str) -> (same: bool)
    ensures
        same == (a@ == b@),
;

/// `==` on slices: two slices are equal when they are as long as each
/// other and `==` on the elements holds at every index. Stated for element
/// types whose `==` is known to be their `eq_spec`.
pub assume_specification<A, B>[ <[A] as PartialEq<[B]>>::eq ](a: &[A], b: &[B]) -> (same: bool) where
    A: PartialEq<B>,

    ensures
        A::obeys_eq_spec() ==> same == (a@.len() == b@.len() && forall|i: int|
            0 <= i < a@.len() ==> (#[trigger] a@[i]).eq_spec(&b@[i])),
;

} // verus!
