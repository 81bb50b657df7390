//! Splitting a node.

use vstd::prelude::*;

use crate::laws::keys;
use crate::laws::leaf;
use crate::model;
use crate::model::NodeView;
use crate::order;

verus! {

/// A node with enough entries to be split.
pub open spec fn is_large(node: NodeView) -> bool {
    node.wf() && node.data.keys.len() >= 3
}

/// The separator of a split is above every key that stays left and not above
/// any that goes right, and it lies within the range of the node.
pub proof fn the_separator_divides_the_keys(node: NodeView)
    requires
        is_large(node),
    ensures
        forall|i: int|
            0 <= i < node.split_point() ==> order::lt(
                #[trigger] node.full_key(i),
                node.separator(),
            ),
        forall|i: int|
            node.split_point() <= i < node.data.keys.len() ==> order::le(
                node.separator(),
                #[trigger] node.full_key(i),
            ),
        order::lt(node.lo, node.separator()),
        order::below(node.separator(), node.hi),
        node.covers(node.separator()),
{
    let ks = node.data.keys;
    let m = node.split_point();
    let s = model::separator(ks, !node.data.is_index());
    let p = node.prefix();
    assert(order::lt(ks[m - 1], ks[m]));
    order::lemma_separator(ks[m - 1], ks[m]);
    order::lemma_trichotomy(ks[m], ks[m]);
    assert forall|i: int| 0 <= i < m implies order::lt(
        #[trigger] node.full_key(i),
        node.separator(),
    ) by {
        if i < m - 1 {
            assert(order::lt(ks[i], ks[m - 1]));
            order::lemma_lt_transitive(ks[i], ks[m - 1], s);
        }
        order::lemma_prepend(p, ks[i], s);
    }
    assert forall|i: int| m <= i < ks.len() implies order::le(
        node.separator(),
        #[trigger] node.full_key(i),
    ) by {
        if m < i {
            assert(order::lt(ks[m], ks[i]));
            order::lemma_trichotomy(ks[m], ks[i]);
            order::lemma_le_transitive(s, ks[m], ks[i]);
        }
        order::lemma_prepend(p, s, ks[i]);
    }
    assert(node.covers(node.full_key(m - 1)));
    assert(node.covers(node.full_key(m)));
    order::lemma_le_lt(node.lo, node.full_key(m - 1), node.separator());
    order::lemma_trichotomy(node.lo, node.separator());
    if node.hi.len() > 0 {
        order::lemma_le_lt(node.separator(), node.full_key(m), node.hi);
    }
}

/// No shorter string than the separator divides the keys of a leaf.
pub proof fn the_separator_of_a_leaf_is_the_shortest(node: NodeView, other: Seq<u8>)
    requires
        node.data.wf(),
        node.data.keys.len() >= 3,
        !node.data.is_index(),
        order::lt(node.full_key(node.split_point() - 1), other),
        order::le(other, node.full_key(node.split_point())),
    ensures
        node.separator().len() <= other.len(),
{
    let m = node.split_point();
    let left_max = node.data.keys[m - 1];
    let right_min = node.data.keys[m];
    assert(order::lt(left_max, right_min));
    order::lemma_separator(left_max, right_min);
    order::lemma_prepend(node.prefix(), left_max, right_min);
    order::lemma_separator(node.full_key(m - 1), node.full_key(m));
}

/// Every well-formed node with three entries or more can be split.
pub proof fn large_nodes_can_be_split(node: NodeView)
    requires
        is_large(node),
    ensures
        node.splittable(),
{
    the_separator_divides_the_keys(node);
    keys::bounds_of_encoded_keys(node, Seq::empty());
    order::lemma_shared_take(node.hi, node.lo, node.prefix_len as int);
}

/// A split loses no entry, adds none and changes none: the entries of the halves,
/// one after the other, are those of the node.
pub proof fn splitting_keeps_the_entries(node: NodeView)
    requires
        is_large(node),
    ensures
        node.split_left().full_keys() + node.split_right().full_keys() == node.full_keys(),
        node.split_left().data.items.concat(node.split_right().data.items) == node.data.items,
        node.split_left().data.keys.len() == node.split_point(),
        node.split_left().data.items.len() == node.split_point(),
        node.split_left().data.keys.len() + node.split_right().data.keys.len()
            == node.data.keys.len(),
        forall|i: int|
            0 <= i < node.split_point() ==> #[trigger] node.split_left().full_key(i)
                == node.full_key(i),
        forall|i: int|
            0 <= i < node.data.keys.len() - node.split_point()
                ==> #[trigger] node.split_right().full_key(i) == node.full_key(
                i + node.split_point(),
            ),
{
    let left = node.split_left();
    let right = node.split_right();
    lemma_halves(node);
    assert(left.full_keys() + right.full_keys() =~= node.full_keys());
    assert(left.data.items.concat(right.data.items) =~= node.data.items);
}

proof fn lemma_halves(node: NodeView)
    requires
        is_large(node),
    ensures
        node.split_left().data.wf(),
        node.split_right().data.wf(),
        node.split_left().data.keys.len() == node.split_point(),
        node.split_right().data.keys.len() == node.data.keys.len() - node.split_point(),
        forall|i: int|
            0 <= i < node.split_point() ==> #[trigger] node.split_left().full_key(i)
                == node.full_key(i) && node.split_left().covers(node.full_key(i)),
        forall|i: int|
            0 <= i < node.data.keys.len() - node.split_point()
                ==> #[trigger] node.split_right().full_key(i) == node.full_key(
                i + node.split_point(),
            ) && node.split_right().covers(node.full_key(i + node.split_point())),
{
    let left = node.split_left();
    let right = node.split_right();
    let m = node.split_point();
    let len = node.data.keys.len() as int;
    let p = node.prefix();
    let low = node.data.slice(0, m);
    let high = node.data.slice(m, len);
    the_separator_divides_the_keys(node);
    assert(order::ascending(low.keys));
    assert(order::ascending(high.keys));
    order::lemma_shared(left.hi, left.lo);
    order::lemma_shared(right.hi, right.lo);
    assert forall|i: int| 0 <= i < low.keys.len() implies left.prefix().is_prefix_of(
        p + #[trigger] low.keys[i],
    ) && left.covers(p + low.keys[i]) by {
        assert(node.full_key(i) == p + low.keys[i]);
        assert(node.covers(node.full_key(i)));
        keys::covered_keys_have_the_prefix(left, node.full_key(i));
    }
    keys::recoding_keeps_the_entries(low, p, left.prefix());
    assert forall|i: int| 0 <= i < high.keys.len() implies right.prefix().is_prefix_of(
        p + #[trigger] high.keys[i],
    ) && right.covers(p + high.keys[i]) by {
        assert(node.full_key(i + m) == p + high.keys[i]);
        assert(node.covers(node.full_key(i + m)));
        keys::covered_keys_have_the_prefix(right, node.full_key(i + m));
    }
    keys::recoding_keeps_the_entries(high, p, right.prefix());
    assert forall|i: int| 0 <= i < m implies #[trigger] left.full_key(i) == node.full_key(i)
        && left.covers(node.full_key(i)) by {
        assert(left.prefix() + left.data.keys[i] == p + low.keys[i]);
    }
    assert forall|i: int| 0 <= i < len - m implies #[trigger] right.full_key(i) == node.full_key(
        i + m,
    ) && right.covers(node.full_key(i + m)) by {
        assert(right.prefix() + right.data.keys[i] == p + high.keys[i]);
    }
}

/// Both halves are well formed, with prefixes as long as their bounds allow.
pub proof fn the_halves_are_well_formed(node: NodeView)
    requires
        is_large(node),
    ensures
        node.split_left().wf(),
        node.split_right().wf(),
        node.split_left().tight(),
        node.split_right().tight(),
{
    lemma_halves(node);
    the_separator_divides_the_keys(node);
}

/// The halves share the node's range between them: they adjoin, and every key
/// that the node covers is covered by just one of them.
pub proof fn the_halves_share_the_range(node: NodeView, key: Seq<u8>)
    requires
        is_large(node),
    ensures
        node.split_left().lo == node.lo,
        node.split_left().hi == node.split_right().lo,
        node.split_right().hi == node.hi,
        node.split_right().next == node.next,
        node.covers(key) <==> node.split_left().covers(key) || node.split_right().covers(key),
        !(node.split_left().covers(key) && node.split_right().covers(key)),
        node.split_left().covers(key) <==> node.covers(key) && order::lt(key, node.separator()),
{
    the_separator_divides_the_keys(node);
    let s = node.separator();
    order::lemma_empty_first(node.lo);
    assert(s.len() > 0) by {
        order::lemma_shared(node.lo, s);
    }
    order::lemma_trichotomy(key, s);
    order::lemma_trichotomy(node.lo, s);
    if order::lt(key, s) && node.hi.len() > 0 {
        order::lemma_lt_transitive(key, s, node.hi);
    }
    if order::le(s, key) {
        order::lemma_le_transitive(node.lo, s, key);
    }
}

/// The bounds of both halves are long enough for their prefixes, and neither
/// half has an empty range or is unbounded on both sides.
pub proof fn the_halves_have_sound_bounds(node: NodeView)
    requires
        node.splittable(),
    ensures
        node.separator().len() > 0,
        node.split_left().prefix_len <= node.split_left().lo.len(),
        node.split_left().prefix_len <= node.split_left().hi.len(),
        order::lt(node.split_left().lo, node.split_left().hi),
        node.split_right().prefix_len <= node.split_right().lo.len(),
        node.split_right().prefix_len <= node.split_right().hi.len(),
        order::below(node.split_right().lo, node.split_right().hi),
{
    order::lemma_shared(node.lo, node.separator());
    order::lemma_shared(node.separator(), node.lo);
    order::lemma_shared(node.hi, node.separator());
}

/// A split never shortens a prefix.
pub proof fn splitting_never_shortens_the_prefix(node: NodeView)
    requires
        node.splittable(),
    ensures
        node.prefix_len <= node.split_left().prefix_len,
        node.prefix_len <= node.split_right().prefix_len,
{
    let n = node.prefix_len as int;
    assert(node.separator().take(n) =~= node.prefix());
    order::lemma_shared_at_least(node.separator(), node.lo, n);
    order::lemma_shared_at_least(node.hi, node.separator(), n);
}

/// Neither half of a split is empty, and their sizes differ by two at most.
pub proof fn the_halves_are_balanced(node: NodeView)
    requires
        is_large(node),
    ensures
        node.split_right().data.keys.len() >= 1,
        node.split_right().data.keys.len() < node.split_left().data.keys.len(),
        node.split_left().data.keys.len() <= node.split_right().data.keys.len() + 2,
{
    lemma_halves(node);
}

/// Every key reads in the half that covers it as it read in the whole leaf.
pub proof fn reads_survive_a_split(node: NodeView, key: Seq<u8>)
    requires
        is_large(node),
        !node.data.is_index(),
        node.covers(key),
    ensures
        node.lookup(key) == if order::lt(key, node.separator()) {
            node.split_left().lookup(key)
        } else {
            node.split_right().lookup(key)
        },
{
    let left = node.split_left();
    let right = node.split_right();
    let m = node.split_point();
    the_halves_are_well_formed(node);
    the_halves_share_the_range(node, key);
    the_separator_divides_the_keys(node);
    splitting_keeps_the_entries(node);
    leaf::map_holds_the_entries(node);
    leaf::lookup_reads_the_map(node, key);
    if order::lt(key, node.separator()) {
        leaf::map_holds_the_entries(left);
        leaf::lookup_reads_the_map(left, key);
        if node.as_map().contains_key(key) {
            let i = choose|i: int|
                0 <= i < node.data.keys.len() && #[trigger] node.full_key(i) == key;
            order::lemma_trichotomy(key, node.separator());
            assert(i < m);
            assert(left.full_key(i) == key);
        }
        if left.as_map().contains_key(key) {
            let i = choose|i: int|
                0 <= i < left.data.keys.len() && #[trigger] left.full_key(i) == key;
            assert(node.full_key(i) == key);
        }
    } else {
        leaf::map_holds_the_entries(right);
        leaf::lookup_reads_the_map(right, key);
        if node.as_map().contains_key(key) {
            let i = choose|i: int|
                0 <= i < node.data.keys.len() && #[trigger] node.full_key(i) == key;
            assert(m <= i);
            assert(right.full_key(i - m) == key);
        }
        if right.as_map().contains_key(key) {
            let i = choose|i: int|
                0 <= i < right.data.keys.len() && #[trigger] right.full_key(i) == key;
            assert(node.full_key(i + m) == key);
        }
    }
}

/// The first key of an index stays the lowest key of its range: in both halves
/// of a split index no key of the range comes before the first child.
pub proof fn splitting_keeps_indexes_anchored(node: NodeView)
    requires
        is_large(node),
        node.anchored(),
    ensures
        node.split_left().anchored(),
        node.split_right().anchored(),
{
    splitting_keeps_the_entries(node);
    assert(node.split_left().full_key(0) == node.full_key(0));
    assert(node.split_right().full_key(0) == node.full_key(0 + node.split_point()));
}

} // verus!
