//! Small generic helpers.

use vstd::prelude::*;
use vstd::std_specs::cmp::PartialOrdIs;
use vstd::laws_cmp::obeys_partial_cmp_spec_properties;
use vstd::std_specs::cmp::PartialOrdSpec;

verus! {

/// What `clamp` returns for a type whose ordering follows its specification.
pub open spec fn clamp_spec<T: PartialOrd>(v: T, lo: T, hi: T) -> T {
    if v.is_lt(&lo) {
        lo
    } else if v.is_gt(&hi) {
        hi
    } else {
        v
    }
}

/// Restricts `v` to the interval `[lo, hi]`: `lo` when `v` is below it, `hi` when
/// `v` is above it, and `v` itself otherwise.
pub fn clamp<T: PartialOrd>(v: T, lo: T, hi: T) -> (r: T)
    ensures
        r == v || r == lo || r == hi,
        T::obeys_partial_cmp_spec() ==> r == clamp_spec(v, lo, hi),
{
    if v < lo {
        lo
    } else if v > hi {
        hi
    } else {
        v
    }
}

/// For integers, a clamp into a non-empty interval lands inside it and leaves a
/// value that is already inside unchanged.
pub proof fn lemma_clamp_i64(v: i64, lo: i64, hi: i64)
    requires
        lo <= hi,
    ensures
        lo <= clamp_spec(v, lo, hi) <= hi,
        lo <= v <= hi ==> clamp_spec(v, lo, hi) == v,
        clamp_spec(v, lo, hi) == (if v < lo { lo } else if v > hi { hi } else { v }),
{
}

/// For any type whose ordering follows vstd's laws of a partial order, clamping
/// into an interval with `lo <= hi` twice gives the same as clamping once.
pub proof fn lemma_clamp_idempotent<T: PartialOrd>(v: T, lo: T, hi: T)
    requires
        obeys_partial_cmp_spec_properties::<T>(),
        lo.is_le(&hi),
    ensures
        clamp_spec(clamp_spec(v, lo, hi), lo, hi) == clamp_spec(v, lo, hi),
{
    reveal(obeys_partial_cmp_spec_properties);
    // Nothing is strictly below or above itself, and `lo <= hi` rules out the
    // reverse order.
    assert(!lo.is_lt(&lo));
    assert(!lo.is_gt(&hi));
    assert(!hi.is_lt(&lo));
    assert(!hi.is_gt(&hi));
}

} // verus!
