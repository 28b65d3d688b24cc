//! An in-place, stable, comparison-based sort.
//!
//! The entry points reorder a sequence into non-descending order under a
//! strict weak order, with verified contracts: the result is sorted, it is a
//! permutation of the input, and an already-sorted input comes back
//! untouched.

pub mod buffer;
pub mod dust;
pub mod merge;
pub mod scan;
pub mod util;

use vstd::prelude::*;

use crate::util::{sorted_between, KeyExtract, KeyLess, Less, NaturalOrder};

verus! {

/// Sort `v` by the natural order of its elements.
pub fn sort<T>(v: &mut Vec<T>) where NaturalOrder: Less<T>
    ensures
        final(v)@.len() == old(v)@.len(),
        final(v)@.to_multiset() == old(v)@.to_multiset(),
        sorted_between::<T, NaturalOrder>(final(v)@, 0, final(v)@.len() as int),
        sorted_between::<T, NaturalOrder>(old(v)@, 0, old(v)@.len() as int) ==> final(v)@ == old(
            v,
        )@,
{
    let mut cmp = NaturalOrder;
    sort_common(v, &mut cmp);
}

/// Sort `v` with the comparison context `cmp`.
pub fn sort_by<T, C: Less<T>>(v: &mut Vec<T>, cmp: &mut C)
    ensures
        final(v)@.len() == old(v)@.len(),
        final(v)@.to_multiset() == old(v)@.to_multiset(),
        sorted_between::<T, C>(final(v)@, 0, final(v)@.len() as int),
        sorted_between::<T, C>(old(v)@, 0, old(v)@.len() as int) ==> final(v)@ == old(v)@,
{
    sort_common(v, cmp);
}

/// Sort `v` by the keys that `f` extracts, under the natural order of the
/// key type.
pub fn sort_by_key<T, K, F: KeyExtract<T, K>>(v: &mut Vec<T>, f: F) where NaturalOrder: Less<K>
    ensures
        final(v)@.len() == old(v)@.len(),
        final(v)@.to_multiset() == old(v)@.to_multiset(),
        sorted_between::<T, KeyLess<F, T, K>>(final(v)@, 0, final(v)@.len() as int),
        sorted_between::<T, KeyLess<F, T, K>>(old(v)@, 0, old(v)@.len() as int) ==> final(v)@
            == old(v)@,
{
    let mut cmp = KeyLess { f, marker: core::marker::PhantomData };
    sort_common(v, &mut cmp);
}

/// The shared entry into the sort driver.
fn sort_common<T, C: Less<T>>(v: &mut Vec<T>, cmp: &mut C)
    ensures
        final(v)@.len() == old(v)@.len(),
        final(v)@.to_multiset() == old(v)@.to_multiset(),
        sorted_between::<T, C>(final(v)@, 0, final(v)@.len() as int),
        sorted_between::<T, C>(old(v)@, 0, old(v)@.len() as int) ==> final(v)@ == old(v)@,
{
    dust::sort(v, cmp);
}

} // verus!
