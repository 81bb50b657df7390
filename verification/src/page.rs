//! Page identifiers.

use vstd::prelude::*;

verus! {

/// Names a page of the tree.
pub type PageId = u64;

/// The identifier of a page other than page zero.
#[derive(Clone, Copy, Debug, PartialEq, Eq)]
pub struct NonZeroPid {
    pid: PageId,
}

impl View for NonZeroPid {
    type V = PageId;

    closed spec fn view(&self) -> PageId {
        self.pid
    }
}

impl NonZeroPid {
    #[verifier::type_invariant]
    spec fn inv(self) -> bool {
        self.pid != 0
    }

    /// Wraps a page identifier that is not zero.
    pub fn new(pid: PageId) -> (r: Option<NonZeroPid>)
        ensures
            match r {
                Some(p) => p@ == pid && pid != 0,
                None => pid == 0,
            },
    {
        if pid == 0 {
            None
        } else {
            Some(NonZeroPid { pid })
        }
    }

    /// The identifier.
    pub fn get(self) -> (pid: PageId)
        ensures
            pid == self@,
            pid != 0,
    {
        proof {
            use_type_invariant(self);
        }
        self.pid
    }
}

/// The page that an optional identifier names.
pub open spec fn named(pid: Option<NonZeroPid>) -> Option<PageId> {
    match pid {
        Some(p) => Some(p@),
        None => None,
    }
}

} // verus!
