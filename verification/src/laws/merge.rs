//! Merging a node with its right sibling.

use vstd::prelude::*;

use crate::laws::keys;
use crate::laws::leaf;
use crate::laws::split;
use crate::model::NodeView;
use crate::order;

verus! {

/// Adjoining nodes can be merged.
pub proof fn adjoining_nodes_can_be_merged(left: NodeView, right: NodeView)
    requires
        left.adjoins(right),
    ensures
        left.mergeable(right),
{
    order::lemma_shared(left.hi, left.lo);
    order::lemma_shared(right.hi, right.lo);
}

proof fn lemma_merged(left: NodeView, right: NodeView)
    requires
        left.adjoins(right),
    ensures
        left.receive_merge(right).data.keys.len() == left.data.keys.len() + right.data.keys.len(),
        left.receive_merge(right).data.items.len() == left.data.keys.len()
            + right.data.keys.len(),
        forall|i: int|
            0 <= i < left.data.keys.len() ==> #[trigger] left.receive_merge(right).full_key(i)
                == left.full_key(i),
        forall|i: int|
            left.data.keys.len() <= i < left.data.keys.len() + right.data.keys.len()
                ==> #[trigger] left.receive_merge(right).full_key(i) == right.full_key(
                i - left.data.keys.len(),
            ),
        forall|i: int|
            0 <= i < left.data.keys.len() + right.data.keys.len() ==> left.receive_merge(
                right,
            ).covers(#[trigger] left.receive_merge(right).full_key(i)),
        order::below(left.lo, right.hi),
{
    let merged = left.receive_merge(right);
    let n = left.data.keys.len() as int;
    let first = left.data.recoded(left.prefix(), merged.prefix_len);
    let second = right.data.recoded(right.prefix(), merged.prefix_len);
    order::lemma_shared(merged.hi, merged.lo);
    order::lemma_trichotomy(left.lo, right.lo);
    if right.hi.len() > 0 {
        order::lemma_lt_transitive(left.lo, left.hi, right.hi);
    }
    assert forall|i: int| 0 <= i < left.data.keys.len() implies merged.prefix().is_prefix_of(
        left.prefix() + #[trigger] left.data.keys[i],
    ) && merged.covers(left.prefix() + left.data.keys[i]) by {
        let key = left.full_key(i);
        assert(left.covers(key));
        if right.hi.len() > 0 {
            order::lemma_lt_transitive(key, left.hi, right.hi);
        }
        keys::covered_keys_have_the_prefix(merged, key);
    }
    keys::recoding_keeps_the_entries(left.data, left.prefix(), merged.prefix());
    assert forall|i: int| 0 <= i < right.data.keys.len() implies merged.prefix().is_prefix_of(
        right.prefix() + #[trigger] right.data.keys[i],
    ) && merged.covers(right.prefix() + right.data.keys[i]) by {
        let key = right.full_key(i);
        assert(right.covers(key));
        order::lemma_le_transitive(left.lo, right.lo, key);
        keys::covered_keys_have_the_prefix(merged, key);
    }
    keys::recoding_keeps_the_entries(right.data, right.prefix(), merged.prefix());
    assert forall|i: int| 0 <= i < n implies #[trigger] merged.full_key(i) == left.full_key(i)
        && merged.covers(left.full_key(i)) by {
        assert(merged.data.keys[i] == first.keys[i]);
        assert(merged.prefix() + first.keys[i] == left.prefix() + left.data.keys[i]);
    }
    assert forall|i: int| n <= i < n + right.data.keys.len() implies #[trigger] merged.full_key(i)
        == right.full_key(i - n) && merged.covers(right.full_key(i - n)) by {
        assert(merged.data.keys[i] == second.keys[i - n]);
        assert(merged.prefix() + second.keys[i - n] == right.prefix() + right.data.keys[i - n]);
    }
}

/// A merge loses no entry, adds none and changes none: the entries are those of
/// the two nodes, one after the other.
pub proof fn merging_keeps_the_entries(left: NodeView, right: NodeView)
    requires
        left.adjoins(right),
    ensures
        left.receive_merge(right).full_keys() == left.full_keys() + right.full_keys(),
        left.receive_merge(right).data.items == left.data.items.concat(right.data.items),
        left.receive_merge(right).data.keys.len() == left.data.keys.len() + right.data.keys.len(),
{
    lemma_merged(left, right);
    assert(left.receive_merge(right).full_keys() =~= left.full_keys() + right.full_keys());
}

/// The merged node is well formed, with a prefix as long as its bounds allow.
pub proof fn the_merged_node_is_well_formed(left: NodeView, right: NodeView)
    requires
        left.adjoins(right),
    ensures
        left.receive_merge(right).wf(),
        left.receive_merge(right).tight(),
{
    let merged = left.receive_merge(right);
    let n = left.data.keys.len() as int;
    lemma_merged(left, right);
    assert forall|i: int, j: int| 0 <= i < j < merged.data.keys.len() implies order::lt(
        #[trigger] merged.data.keys[i],
        #[trigger] merged.data.keys[j],
    ) by {
        let a = merged.full_key(i);
        let b = merged.full_key(j);
        if j < n {
            assert(order::lt(left.data.keys[i], left.data.keys[j]));
            keys::encoding_keeps_the_order(left, i, j);
        } else if i >= n {
            assert(order::lt(right.data.keys[i - n], right.data.keys[j - n]));
            keys::encoding_keeps_the_order(right, i - n, j - n);
        } else {
            assert(left.covers(left.full_key(i)));
            assert(right.covers(right.full_key(j - n)));
            order::lemma_lt_le(a, left.hi, b);
        }
        keys::encoding_keeps_the_order(merged, i, j);
    }
}

/// The merged node covers what either node covered, and nothing else.
pub proof fn merging_joins_the_ranges(left: NodeView, right: NodeView, key: Seq<u8>)
    requires
        left.adjoins(right),
    ensures
        left.receive_merge(right).lo == left.lo,
        left.receive_merge(right).hi == right.hi,
        left.receive_merge(right).next == right.next,
        left.receive_merge(right).covers(key) <==> left.covers(key) || right.covers(key),
        !(left.covers(key) && right.covers(key)),
{
    order::lemma_trichotomy(left.lo, left.hi);
    order::lemma_trichotomy(key, left.hi);
    if order::lt(key, left.hi) && right.hi.len() > 0 {
        order::lemma_lt_transitive(key, left.hi, right.hi);
    }
    if order::le(left.hi, key) {
        order::lemma_le_transitive(left.lo, left.hi, key);
    }
}

/// A merge never lengthens a prefix, where the prefixes of both nodes are as long
/// as their bounds allow.
pub proof fn merging_never_lengthens_the_prefix(left: NodeView, right: NodeView)
    requires
        left.adjoins(right),
        left.tight(),
        right.tight(),
    ensures
        left.receive_merge(right).prefix_len <= left.prefix_len,
        left.receive_merge(right).prefix_len <= right.prefix_len,
{
    order::lemma_shared_symmetric(left.lo, left.hi);
    order::lemma_shared_symmetric(left.lo, right.hi);
    order::lemma_shared_symmetric(right.lo, right.hi);
    if right.hi.len() > 0 {
        order::lemma_trichotomy(left.lo, left.hi);
        order::lemma_between(left.lo, left.hi, right.hi);
    } else {
        order::lemma_shared(right.hi, left.lo);
    }
}

/// Every key reads in the merged leaf as it read in the leaf that covered it.
pub proof fn reads_survive_a_merge(left: NodeView, right: NodeView, key: Seq<u8>)
    requires
        left.adjoins(right),
        !left.data.is_index(),
        left.covers(key) || right.covers(key),
    ensures
        left.receive_merge(right).lookup(key) == if left.covers(key) {
            left.lookup(key)
        } else {
            right.lookup(key)
        },
{
    let merged = left.receive_merge(right);
    let n = left.data.keys.len() as int;
    let side = if left.covers(key) { left } else { right };
    the_merged_node_is_well_formed(left, right);
    merging_joins_the_ranges(left, right, key);
    lemma_merged(left, right);
    leaf::map_holds_the_entries(merged);
    leaf::lookup_reads_the_map(merged, key);
    leaf::map_holds_the_entries(side);
    leaf::lookup_reads_the_map(side, key);
    if merged.as_map().contains_key(key) {
        let i = choose|i: int|
            0 <= i < merged.data.keys.len() && #[trigger] merged.full_key(i) == key;
        if i < n {
            assert(left.full_key(i) == key);
            assert(left.covers(left.full_key(i)));
        } else {
            assert(right.full_key(i - n) == key);
            assert(right.covers(right.full_key(i - n)));
        }
    }
    if side.as_map().contains_key(key) {
        let i = choose|i: int| 0 <= i < side.data.keys.len() && #[trigger] side.full_key(i) == key;
        if left.covers(key) {
            assert(merged.full_key(i) == key);
        } else {
            assert(merged.full_key(i + n) == key);
        }
    }
}

/// A merged index begins with the lowest key of its range if the left one did.
pub proof fn merging_keeps_indexes_anchored(left: NodeView, right: NodeView)
    requires
        left.adjoins(right),
        left.anchored(),
    ensures
        left.receive_merge(right).anchored(),
{
    lemma_merged(left, right);
    assert(left.receive_merge(right).full_key(0) == left.full_key(0));
}

/// Of three nodes in a row it does not matter which two are merged first.
pub proof fn merging_is_associative(first: NodeView, second: NodeView, third: NodeView)
    requires
        first.adjoins(second),
        second.adjoins(third),
    ensures
        first.receive_merge(second).adjoins(third),
        first.adjoins(second.receive_merge(third)),
        first.receive_merge(second).receive_merge(third) == first.receive_merge(
            second.receive_merge(third),
        ),
{
    let low = first.receive_merge(second);
    let high = second.receive_merge(third);
    let a = low.receive_merge(third);
    let b = first.receive_merge(high);
    the_merged_node_is_well_formed(first, second);
    the_merged_node_is_well_formed(second, third);
    merging_keeps_the_entries(first, second);
    merging_keeps_the_entries(second, third);
    merging_keeps_the_entries(low, third);
    merging_keeps_the_entries(first, high);
    assert(a.full_keys() =~= b.full_keys());
    assert(a.data.items =~= b.data.items);
    let p = a.prefix();
    assert(b.prefix() == p);
    assert forall|i: int| 0 <= i < a.data.keys.len() implies #[trigger] a.data.keys[i]
        == b.data.keys[i] by {
        assert(a.full_keys()[i] == b.full_keys()[i]);
        assert(a.full_key(i).skip(p.len() as int) =~= a.data.keys[i]);
        assert(b.full_key(i).skip(p.len() as int) =~= b.data.keys[i]);
    }
    assert(a.data.keys =~= b.data.keys);
    assert(a =~= b);
}

/// Merging the halves of a split node gives the node back, with its prefix as
/// long as its bounds allow.
pub proof fn merging_undoes_splitting(node: NodeView)
    requires
        split::is_large(node),
    ensures
        node.split_left().adjoins(node.split_right()),
        ({
            let merged = node.split_left().receive_merge(node.split_right());
            &&& merged.full_keys() == node.full_keys()
            &&& merged.data.items == node.data.items
            &&& merged.lo == node.lo
            &&& merged.hi == node.hi
            &&& merged.next == node.next
            &&& merged.merging_child == node.merging_child
            &&& merged.merging == node.merging
            &&& merged.tight()
            &&& node.tight() ==> merged == node
        }),
{
    let left = node.split_left();
    let right = node.split_right();
    let merged = left.receive_merge(right);
    split::the_halves_are_well_formed(node);
    split::the_halves_share_the_range(node, node.lo);
    split::the_separator_divides_the_keys(node);
    split::splitting_keeps_the_entries(node);
    order::lemma_shared(node.lo, node.separator());
    merging_keeps_the_entries(left, right);
    if node.tight() {
        let p = node.prefix();
        assert(merged.prefix() == p);
        assert forall|i: int| 0 <= i < node.data.keys.len() implies #[trigger] merged.data.keys[i]
            == node.data.keys[i] by {
            assert(merged.full_keys()[i] == node.full_keys()[i]);
            assert(merged.full_key(i).skip(p.len() as int) =~= merged.data.keys[i]);
            assert(node.full_key(i).skip(p.len() as int) =~= node.data.keys[i]);
        }
        assert(merged.data.keys =~= node.data.keys);
    }
}

} // verus!
