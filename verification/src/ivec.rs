//! The byte string that keys, values and bounds are made of.

use std::cmp::Ordering;
use vstd::prelude::*;
use vstd::slice::{slice_subrange, slice_to_vec};

use crate::order;
use crate::order::Relation;

verus! {

/// An owned byte string.
#[derive(Debug)]
pub struct IVec(pub Vec<u8>);

impl View for IVec {
    type V = Seq<u8>;

    open spec fn view(&self) -> Seq<u8> {
        self.0@
    }
}

/// The contents of a list of byte strings.
pub open spec fn contents(list: Seq<IVec>) -> Seq<Seq<u8>> {
    list.map_values(|b: IVec| b@)
}

impl IVec {
    /// The empty string.
    pub fn new() -> (r: IVec)
        ensures
            r@ == Seq::<u8>::empty(),
    {
        IVec(Vec::new())
    }

    /// A string with the bytes of `bytes`.
    pub fn copy_of(bytes: &[u8]) -> (r: IVec)
        ensures
            r@ == bytes@,
    {
        IVec(slice_to_vec(bytes))
    }

    pub fn len(&self) -> (n: usize)
        ensures
            n == self@.len(),
    {
        self.0.len()
    }

    pub fn is_empty(&self) -> (r: bool)
        ensures
            r <==> self@.len() == 0,
    {
        self.0.len() == 0
    }

    /// All bytes.
    pub fn as_slice(&self) -> (r: &[u8])
        ensures
            r@ == self@,
    {
        self.0.as_slice()
    }

    /// The first `n` bytes.
    pub fn first(&self, n: usize) -> (r: &[u8])
        requires
            n <= self@.len(),
        ensures
            r@ == self@.take(n as int),
    {
        slice_subrange(self.0.as_slice(), 0, n)
    }

    /// The bytes behind the first `n`.
    pub fn behind(&self, n: usize) -> (r: &[u8])
        requires
            n <= self@.len(),
        ensures
            r@ == self@.skip(n as int),
    {
        slice_subrange(self.0.as_slice(), n, self.0.len())
    }
}

impl Clone for IVec {
    fn clone(&self) -> (r: IVec)
        ensures
            r@ == self@,
    {
        IVec::copy_of(self.as_slice())
    }
}

impl Default for IVec {
    fn default() -> (r: IVec)
        ensures
            r@ == Seq::<u8>::empty(),
    {
        IVec::new()
    }
}

impl From<Vec<u8>> for IVec {
    fn from(bytes: Vec<u8>) -> (r: IVec) {
        IVec(bytes)
    }
}

impl vstd::std_specs::convert::FromSpecImpl<Vec<u8>> for IVec {
    open spec fn obeys_from_spec() -> bool {
        true
    }

    open spec fn from_spec(bytes: Vec<u8>) -> IVec {
        IVec(bytes)
    }
}

impl PartialEq for IVec {
    fn eq(&self, other: &IVec) -> (r: bool) {
        match order::compare(self.as_slice(), other.as_slice()) {
            Relation::Same => true,
            _ => false,
        }
    }
}

impl vstd::std_specs::cmp::PartialEqSpecImpl for IVec {
    open spec fn obeys_eq_spec() -> bool {
        true
    }

    open spec fn eq_spec(&self, other: &IVec) -> bool {
        self@ == other@
    }
}

impl PartialOrd for IVec {
    fn partial_cmp(&self, other: &IVec) -> (r: Option<Ordering>) {
        match order::compare(self.as_slice(), other.as_slice()) {
            Relation::Before => Some(Ordering::Less),
            Relation::Same => Some(Ordering::Equal),
            Relation::After => Some(Ordering::Greater),
        }
    }
}

impl vstd::std_specs::cmp::PartialOrdSpecImpl for IVec {
    open spec fn obeys_partial_cmp_spec() -> bool {
        true
    }

    open spec fn partial_cmp_spec(&self, other: &IVec) -> Option<Ordering> {
        if order::lt(self@, other@) {
            Some(Ordering::Less)
        } else if self@ == other@ {
            Some(Ordering::Equal)
        } else {
            Some(Ordering::Greater)
        }
    }
}

/// Copies a list of byte strings.
pub fn copy_list(list: &Vec<IVec>) -> (r: Vec<IVec>)
    ensures
        contents(r@) == contents(list@),
{
    let mut r: Vec<IVec> = Vec::new();
    let mut i: usize = 0;
    while i < list.len()
        invariant
            i <= list.len(),
            r.len() == i,
            forall|j: int| 0 <= j < i ==> (#[trigger] r@[j])@ == list@[j]@,
        decreases list.len() - i,
    {
        r.push(list[i].clone());
        i += 1;
    }
    assert(contents(r@) =~= contents(list@));
    r
}

} // verus!
