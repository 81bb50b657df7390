//! A check that a list is in order.

use vstd::prelude::*;
use vstd::std_specs::cmp::{PartialEqIs, PartialEqSpec, PartialOrdIs, PartialOrdSpec};
use vstd::std_specs::convert::FromSpec;

use crate::ivec;
use crate::ivec::IVec;
use crate::order;

verus! {

/// `<=` may answer `r` to the question whether `x` is not above `y`.
pub open spec fn answers<T: PartialOrd>(x: T, y: T, r: bool) -> bool {
    call_ensures(T::le, (&x, &y), r)
}

/// No element of the list is above the one behind it, as `<=` of the type has it.
pub fn is_sorted<T: PartialOrd>(xs: &[T]) -> (r: bool)
    ensures
        r ==> forall|i: int, j: int|
            0 <= i && j < xs@.len() && j == i + 1 ==> answers(
                #[trigger] xs@[i],
                #[trigger] xs@[j],
                true,
            ),
        !r ==> exists|i: int, j: int|
            0 <= i && j < xs@.len() && j == i + 1 && answers(
                #[trigger] xs@[i],
                #[trigger] xs@[j],
                false,
            ),
        T::obeys_partial_cmp_spec() ==> (r <==> forall|i: int, j: int|
            0 <= i && j < xs@.len() && j == i + 1 ==> (#[trigger] xs@[i]).is_le(
                #[trigger] &xs@[j],
            )),
{
    if xs.len() == 0 {
        return true;
    }
    let mut n: usize = 0;
    while n < xs.len() - 1
        invariant
            n < xs.len(),
            forall|i: int, j: int|
                0 <= i && j <= n && j == i + 1 ==> answers(
                    #[trigger] xs@[i],
                    #[trigger] xs@[j],
                    true,
                ),
            T::obeys_partial_cmp_spec() ==> forall|i: int, j: int|
                0 <= i && j <= n && j == i + 1 ==> (#[trigger] xs@[i]).is_le(#[trigger] &xs@[j]),
        decreases xs.len() - n,
    {
        let r: bool = xs[n] <= xs[n + 1];
        assert(answers(xs@[n + 0], xs@[n + 1], r));
        if !r {
            return false;
        }
        n += 1;
    }
    true
}

/// Byte strings compare as their bytes do, and a string made of bytes has them.
pub proof fn byte_strings_compare_by_their_bytes(a: IVec, b: IVec, bytes: Vec<u8>)
    ensures
        a.is_eq(&b) <==> a.0@ == b.0@,
        a.is_lt(&b) <==> order::lt(a.0@, b.0@),
        a.is_le(&b) <==> a.0@ == b.0@ || order::lt(a.0@, b.0@),
        a.is_gt(&b) <==> order::lt(b.0@, a.0@),
        a.is_ge(&b) <==> a.0@ == b.0@ || order::lt(b.0@, a.0@),
        IVec::obeys_eq_spec() && IVec::obeys_partial_cmp_spec(),
        IVec::from_spec(bytes).0@ == bytes@,
{
    order::lemma_trichotomy(a@, b@);
    order::lemma_trichotomy(b@, a@);
}

/// An answer is one that `<=` of the type may give.
pub proof fn answers_are_those_of_the_type<T: PartialOrd>(x: T, y: T, r: bool)
    ensures
        answers(x, y, r) <==> call_ensures(T::le, (&x, &y), r),
{
}

/// Keys that ascend are sorted.
pub proof fn ascending_keys_are_sorted(keys: Seq<IVec>)
    requires
        order::ascending(ivec::contents(keys)),
    ensures
        forall|i: int, j: int|
            0 <= i && j < keys.len() && j == i + 1 ==> (#[trigger] keys[i]).is_le(
                #[trigger] &keys[j],
            ),
{
    let all = ivec::contents(keys);
    assert forall|i: int, j: int| 0 <= i && j < keys.len() && j == i + 1 implies (
    #[trigger] keys[i]).is_le(#[trigger] &keys[j]) by {
        assert(order::lt(all[i], all[j]));
    }
}

} // verus!
