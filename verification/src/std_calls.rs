//! Calls into the standard library that vstd gives no specification for.
use vstd::prelude::*;

verus! {

/// `std::hint::black_box`, documented as an identity function that the
/// optimiser must treat as opaque. Claimed: it returns its argument unchanged.
#[verifier::external_body]
pub(crate) fn black_box<T>(x: T) -> (r: T)
    ensures
        r == x,
{
    std::hint::black_box(x)
}


/// `<[i32]>::sort_unstable`, documented to sort the slice in ascending order
/// (equal elements in any order). Claimed: the entries afterwards are the same
/// multiset, in ascending order.
#[verifier::external_body]
pub(crate) fn sort_unstable_i32(v: &mut Vec<i32>)
    ensures
        final(v)@.len() == old(v)@.len(),
        final(v)@.to_multiset() == old(v)@.to_multiset(),
        forall|i: int, j: int| 0 <= i <= j < final(v)@.len() ==> final(v)@[i] <= final(v)@[j],
{
    v.sort_unstable();
}


/// `<[u64]>::sort_unstable`, documented to sort the slice in ascending order
/// (equal elements in any order). Claimed: the entries afterwards are the same
/// multiset, in ascending order.
#[verifier::external_body]
pub(crate) fn sort_unstable_u64(v: &mut Vec<u64>)
    ensures
        final(v)@.len() == old(v)@.len(),
        final(v)@.to_multiset() == old(v)@.to_multiset(),
        forall|i: int, j: int| 0 <= i <= j < final(v)@.len() ==> final(v)@[i] <= final(v)@[j],
{
    v.sort_unstable();
}

/// `<[T]>::reverse`, documented to reverse the order of the elements in
/// place. Claimed exactly that.
#[verifier::external_body]
pub(crate) fn reverse<T>(v: &mut Vec<T>)
    ensures
        final(v)@ == old(v)@.reverse(),
{
    v.reverse();
}

} // verus!
