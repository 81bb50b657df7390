//! The life of a node: the changes it takes, and when it is split or merged.

use vstd::prelude::*;

use crate::laws::index;
use crate::laws::leaf;
use crate::laws::split;
use crate::link::Link;
use crate::model::NodeView;
use crate::page::PageId;

verus! {

/// A change keeps a node well formed, if a key that it sets is one that the node
/// covers.
pub proof fn changes_keep_the_node_well_formed(node: NodeView, link: Link)
    requires
        node.wf(),
        node.takes(link),
        link matches Link::Put(k, _) ==> node.covers(node.prefix() + k@),
    ensures
        node.apply(link).wf(),
{
    match link {
        Link::Put(k, v) => leaf::covered_keys_can_be_set(node, k@, v@),
        Link::Del(k) => leaf::deleting_keeps_the_leaf(node, k@),
        Link::ParentMergeConfirm => {
            index::removing_a_child_keeps_the_index(node, node.merging_child->0);
            let new = NodeView { data: node.apply(link).data, ..node };
            assert(forall|i: int| #[trigger] node.apply(link).full_key(i) == new.full_key(i));
        },
        _ => {
            let new = node.apply(link);
            assert(forall|i: int| #[trigger] new.full_key(i) == node.full_key(i));
        },
    }
}

/// No change moves a node's bounds, its prefix or its sibling, nor turns a leaf
/// into an index or an index into a leaf.
pub proof fn changes_keep_the_place(node: NodeView, link: Link)
    ensures
        node.apply(link).lo == node.lo,
        node.apply(link).hi == node.hi,
        node.apply(link).prefix_len == node.prefix_len,
        node.apply(link).next == node.next,
        node.apply(link).data.is_index() == node.data.is_index(),
{
}

/// A node that is being merged away takes no more changes, and is neither split
/// nor merged again, nor is a child of it.
pub proof fn a_capped_node_is_left_alone(node: NodeView, link: Link)
    ensures
        ({
            let capped = node.apply(Link::ChildMergeCap);
            &&& !capped.takes(link)
            &&& !capped.should_split()
            &&& !capped.should_merge()
            &&& !capped.at_rest()
        }),
{
}

/// From the intention to merge a child until its confirmation the parent takes no
/// other intention and is neither split nor merged. The confirmation is taken,
/// and leaves the parent without the child and at rest.
pub proof fn a_child_merge_runs_its_course(node: NodeView, pid: PageId, other: PageId)
    requires
        node.takes(Link::ParentMergeIntention(pid)),
        node.data.has_child(pid),
    ensures
        ({
            let waiting = node.apply(Link::ParentMergeIntention(pid));
            &&& !waiting.takes(Link::ParentMergeIntention(other))
            &&& !waiting.should_split()
            &&& !waiting.should_merge()
            &&& !waiting.at_rest()
            &&& waiting.takes(Link::ParentMergeConfirm)
            &&& waiting.apply(Link::ParentMergeConfirm) == (NodeView {
                data: node.data.remove_child(pid),
                ..node
            })
            &&& waiting.apply(Link::ParentMergeConfirm).at_rest()
        }),
{
}

/// Without an intention there is nothing to confirm.
pub proof fn nothing_is_confirmed_unasked(node: NodeView)
    requires
        node.merging_child is None,
    ensures
        !node.takes(Link::ParentMergeConfirm),
{
}

/// No node should both be split and be merged.
pub proof fn split_and_merge_exclude_each_other(node: NodeView)
    ensures
        !(node.should_split() && node.should_merge()),
        !(node.should_split_eagerly() && node.should_merge_eagerly()),
        node.should_split() ==> node.should_split_eagerly(),
        node.should_merge_eagerly() ==> node.should_merge(),
{
}

/// A well-formed node that should be split can be, and neither of its halves
/// should be merged right away.
pub proof fn splits_are_not_undone(node: NodeView)
    requires
        node.wf(),
    ensures
        node.should_split_eagerly() ==> {
            &&& node.splittable()
            &&& !node.split_left().should_merge_eagerly()
            &&& !node.split_right().should_merge_eagerly()
        },
        node.should_split() ==> {
            &&& node.splittable()
            &&& !node.split_left().should_merge()
            &&& !node.split_right().should_merge()
        },
{
    if node.data.keys.len() >= 3 {
        split::large_nodes_can_be_split(node);
        split::splitting_keeps_the_entries(node);
    }
}

} // verus!
