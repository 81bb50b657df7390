//! The changes that are applied to a node.

use vstd::prelude::*;

use crate::ivec::IVec;
use crate::page::PageId;

verus! {

/// One change to a node. Keys are encoded for the node that takes the change.
#[derive(Debug, PartialEq)]
pub enum Link {
    /// A leaf gets a value for a key.
    Put(IVec, IVec),
    /// A leaf loses a key.
    Del(IVec),
    /// An index is about to lose a child to the child's left sibling.
    ParentMergeIntention(PageId),
    /// The child of the last intention has been merged away.
    ParentMergeConfirm,
    /// The node is being merged into its left sibling and takes no more changes.
    ChildMergeCap,
}

} // verus!
