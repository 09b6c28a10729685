//! Values and what they stand for.

use vstd::prelude::*;

verus! {

/// What each item of `s` stands for, in the same order.
pub open spec fn views<T: View>(s: Seq<T>) -> Seq<T::V> {
    s.map_values(|item: T| item@)
}

} // verus!
