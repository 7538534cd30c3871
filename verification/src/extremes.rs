//! Keeping the least or the greatest of the values seen.

use std::cmp::Ordering;
use vstd::prelude::*;
use vstd::std_specs::cmp::PartialOrdSpec;

verus! {

/// A value that can be lowered or raised to another.
pub trait SetMinMax: PartialOrd + Sized {
    /// Takes `v` where it is less, and says whether it was.
    fn setmin(&mut self, v: Self) -> (r: bool)
        ensures
            Self::obeys_partial_cmp_spec() ==> (r <==> (*old(self)).partial_cmp_spec(&v) == Some(
                Ordering::Greater,
            )),
            r ==> *final(self) == v,
            !r ==> *final(self) == *old(self),
    ;

    /// Takes `v` where it is greater, and says whether it was.
    fn setmax(&mut self, v: Self) -> (r: bool)
        ensures
            Self::obeys_partial_cmp_spec() ==> (r <==> (*old(self)).partial_cmp_spec(&v) == Some(
                Ordering::Less,
            )),
            r ==> *final(self) == v,
            !r ==> *final(self) == *old(self),
    ;
}

impl<T: PartialOrd> SetMinMax for T {
    fn setmin(&mut self, v: T) -> (r: bool) {
        if *self > v {
            *self = v;
            true
        } else {
            false
        }
    }

    fn setmax(&mut self, v: T) -> (r: bool) {
        if *self < v {
            *self = v;
            true
        } else {
            false
        }
    }
}

} // verus!
