//! An index sends every key to one child.

use vstd::prelude::*;

use crate::data;
use crate::laws::keys;
use crate::laws::merge;
use crate::laws::split;
use crate::model;
use crate::model::{DataView, NodeView};
use crate::order;
use crate::page::PageId;
use crate::search;

verus! {

/// `i` is the child that the whole key `key` belongs to: the last that begins at
/// or before it.
pub open spec fn leads_to(node: NodeView, key: Seq<u8>, i: int) -> bool {
    &&& 0 <= i < node.data.keys.len()
    &&& order::le(node.full_key(i), key)
    &&& i + 1 < node.data.keys.len() ==> order::lt(key, node.full_key(i + 1))
}

/// The number of the child that `key` belongs to.
pub open spec fn route(node: NodeView, key: Seq<u8>) -> int {
    choose|i: int| leads_to(node, key, i)
}

/// The page that `key` belongs to.
pub open spec fn owner(node: NodeView, key: Seq<u8>) -> PageId {
    node.child(route(node, key))
}

/// Searching the encoded keys finds the child that the whole key belongs to.
pub proof fn routing_goes_by_whole_keys(node: NodeView, key: Seq<u8>, i: int)
    requires
        node.wf(),
        node.covers(key),
    ensures
        node.routes(key.skip(node.prefix_len as int), i) <==> leads_to(node, key, i),
        node.routes(key.skip(node.prefix_len as int), i) ==> node.child(i) == owner(node, key),
{
    let suffix = key.skip(node.prefix_len as int);
    keys::covered_keys_have_the_prefix(node, key);
    order::lemma_prepend(node.prefix(), node.data.keys[i], suffix);
    order::lemma_prepend(node.prefix(), suffix, node.data.keys[i + 1]);
    if leads_to(node, key, i) {
        one_child_at_most(node, key, i, route(node, key));
    }
}

/// A key belongs to one child at most.
pub proof fn one_child_at_most(node: NodeView, key: Seq<u8>, i: int, j: int)
    requires
        node.data.wf(),
        leads_to(node, key, i),
        leads_to(node, key, j),
    ensures
        i == j,
{
    if i < j {
        lemma_no_later_child(node, key, i, j);
    } else if j < i {
        lemma_no_later_child(node, key, j, i);
    }
}

proof fn lemma_no_later_child(node: NodeView, key: Seq<u8>, i: int, j: int)
    requires
        node.data.wf(),
        leads_to(node, key, i),
        i < j < node.data.keys.len(),
    ensures
        order::lt(key, node.full_key(j)),
{
    if i + 1 < j {
        assert(order::lt(node.data.keys[i + 1], node.data.keys[j]));
        keys::encoding_keeps_the_order(node, i + 1, j);
        order::lemma_lt_transitive(key, node.full_key(i + 1), node.full_key(j));
    }
}

/// Every key that an index covers belongs to a child, so that the search for it
/// never fails.
pub proof fn every_key_has_a_child(node: NodeView, key: Seq<u8>)
    requires
        node.is_index(),
        node.covers(key),
    ensures
        node.prefix_len <= key.len(),
        order::le(node.data.keys[0], key.skip(node.prefix_len as int)),
        leads_to(node, key, route(node, key)),
{
    let suffix = key.skip(node.prefix_len as int);
    let ks = node.data.keys;
    keys::covered_keys_have_the_prefix(node, key);
    order::lemma_prepend(node.prefix(), ks[0], suffix);
    search::lemma_rank(ks, suffix);
    let r = search::rank(ks, suffix) as int;
    order::lemma_trichotomy(suffix, suffix);
    if search::found(ks, suffix) {
        if r + 1 < ks.len() {
            assert(order::lt(ks[r], ks[r + 1]));
        }
        assert(node.routes(suffix, r));
        routing_goes_by_whole_keys(node, key, r);
    } else {
        assert(r > 0) by {
            order::lemma_trichotomy(ks[0], suffix);
        }
        order::lemma_trichotomy(ks[r - 1], suffix);
        assert(node.routes(suffix, r - 1));
        routing_goes_by_whole_keys(node, key, r - 1);
    }
}

/// What is needed of a new child's place: no child begins there yet, and the
/// index covers it.
pub open spec fn is_free(node: NodeView, at: Seq<u8>) -> bool {
    node.covers(at) && !node.has_separator(at)
}

/// The keys of an index ascend with a new child among them.
pub proof fn adding_a_child_keeps_the_order(data: DataView, key: Seq<u8>, pid: PageId)
    requires
        data.wf(),
        data.is_index(),
        !search::found(data.keys, key),
    ensures
        data.add_child(key, pid).wf(),
{
    let r = search::rank(data.keys, key) as int;
    let new = data.add_child(key, pid);
    search::lemma_rank(data.keys, key);
    assert forall|i: int, j: int| 0 <= i < j < new.keys.len() implies order::lt(
        #[trigger] new.keys[i],
        #[trigger] new.keys[j],
    ) by {
        let a = if i < r { i } else { i - 1 };
        let b = if j < r { j } else { j - 1 };
        if i != r && j != r {
            assert(order::lt(data.keys[a], data.keys[b]));
        } else if i == r {
            assert(new.keys[j] == data.keys[b]);
        } else {
            assert(new.keys[i] == data.keys[a]);
        }
    }
}

/// Where a new child goes: behind the child that has its first key.
proof fn lemma_place(node: NodeView, at: Seq<u8>)
    requires
        node.is_index(),
        is_free(node, at),
    ensures
        ({
            let r = search::rank(node.data.keys, at.skip(node.prefix_len as int)) as int;
            &&& 0 < r <= node.data.keys.len()
            &&& leads_to(node, at, r - 1)
            &&& order::lt(node.full_key(r - 1), at)
        }),
{
    let suffix = at.skip(node.prefix_len as int);
    let ks = node.data.keys;
    let r = search::rank(ks, suffix) as int;
    keys::covered_keys_have_the_prefix(node, at);
    every_key_has_a_child(node, at);
    search::lemma_rank(ks, suffix);
    order::lemma_trichotomy(ks[0], suffix);
    order::lemma_trichotomy(ks[r - 1], suffix);
    assert(node.routes(suffix, r - 1));
    routing_goes_by_whole_keys(node, at, r - 1);
    order::lemma_prepend(node.prefix(), ks[r - 1], suffix);
}

proof fn lemma_added(node: NodeView, at: Seq<u8>, to: PageId)
    requires
        node.is_index(),
        is_free(node, at),
    ensures
        ({
            let r = search::rank(node.data.keys, at.skip(node.prefix_len as int)) as int;
            let new = node.parent_split(at, to);
            &&& 0 < r <= node.data.keys.len()
            &&& new.data.keys.len() == node.data.keys.len() + 1
            &&& new.data.wf()
            &&& new.full_key(r) == at
            &&& new.child(r) == to
            &&& forall|i: int| 0 <= i < r ==> #[trigger] new.full_key(i) == node.full_key(i)
            &&& forall|i: int| 0 <= i < r ==> #[trigger] new.child(i) == node.child(i)
            &&& forall|i: int|
                r < i < new.data.keys.len() ==> #[trigger] new.full_key(i) == node.full_key(i - 1)
            &&& forall|i: int|
                r < i < new.data.keys.len() ==> #[trigger] new.child(i) == node.child(i - 1)
        }),
{
    let new = node.parent_split(at, to);
    keys::covered_keys_have_the_prefix(node, at);
    lemma_place(node, at);
    adding_a_child_keeps_the_order(node.data, at.skip(node.prefix_len as int), to);
    assert(new.prefix() == node.prefix());
}

/// An index with a new child is still a well-formed index.
pub proof fn adding_a_child_keeps_the_index(node: NodeView, at: Seq<u8>, to: PageId)
    requires
        node.is_index(),
        is_free(node, at),
    ensures
        node.parent_split(at, to).is_index(),
{
    let new = node.parent_split(at, to);
    let r = search::rank(node.data.keys, at.skip(node.prefix_len as int)) as int;
    lemma_added(node, at, to);
    assert forall|i: int| 0 <= i < new.data.keys.len() implies new.covers(
        #[trigger] new.full_key(i),
    ) by {
        if i < r {
            assert(node.covers(node.full_key(i)));
        } else if i > r {
            assert(node.covers(node.full_key(i - 1)));
        }
    }
    assert(new.full_key(0) == node.full_key(0));
}

/// A new child takes over, from the child that had them, the keys from its
/// beginning on. Every other key stays where it was.
pub proof fn a_new_child_takes_its_keys(node: NodeView, at: Seq<u8>, to: PageId, key: Seq<u8>)
    requires
        node.is_index(),
        is_free(node, at),
        node.covers(key),
    ensures
        owner(node.parent_split(at, to), key) == if order::le(at, key) && route(node, key)
            == route(node, at) {
            to
        } else {
            owner(node, key)
        },
{
    let new = node.parent_split(at, to);
    let r = search::rank(node.data.keys, at.skip(node.prefix_len as int)) as int;
    let i = route(node, key);
    let len = node.data.keys.len() as int;
    lemma_place(node, at);
    lemma_added(node, at, to);
    adding_a_child_keeps_the_index(node, at, to);
    every_key_has_a_child(node, key);
    one_child_at_most(node, at, r - 1, route(node, at));
    let j = if i < r - 1 {
        assert(new.full_key(i + 1) == node.full_key(i + 1));
        i
    } else if i == r - 1 {
        if order::le(at, key) {
            if r + 1 < len + 1 {
                assert(new.full_key(r + 1) == node.full_key(r));
            }
            r
        } else {
            r - 1
        }
    } else {
        assert(new.full_key(i + 1) == node.full_key(i));
        if i + 2 < len + 1 {
            assert(new.full_key(i + 2) == node.full_key(i + 1));
        }
        i + 1
    };
    assert(j <= r - 1 ==> new.full_key(j) == node.full_key(j));
    assert(leads_to(new, key, j));
    one_child_at_most(new, key, j, route(new, key));
    assert(new.child(j) == if j < r {
        node.child(j)
    } else if j == r {
        to
    } else {
        node.child(j - 1)
    });
}

/// A second child cannot begin where one does: telling an index twice of a split
/// changes nothing more.
pub proof fn a_second_child_is_refused(node: NodeView, at: Seq<u8>, to: PageId, other: PageId)
    requires
        node.data.is_index(),
        node.data.wf(),
    ensures
        node.parent_split(at, to).has_separator(at),
        node.parent_split(at, to).parent_split(at, other) == node.parent_split(at, to),
{
    let suffix = at.skip(node.prefix_len as int);
    let new = node.parent_split(at, to);
    let r = search::rank(node.data.keys, suffix) as int;
    search::lemma_rank(node.data.keys, suffix);
    if !node.has_separator(at) {
        assert(new.data.keys[r] == suffix);
        assert forall|i: int| 0 <= i < r implies order::lt(#[trigger] new.data.keys[i], suffix) by {
            assert(new.data.keys[i] == node.data.keys[i]);
        }
        order::lemma_trichotomy(suffix, suffix);
        search::lemma_rank_unique(new.data.keys, suffix, r);
    }
}

/// Removing a child that was just added gives the index back.
pub proof fn removing_undoes_adding(node: NodeView, at: Seq<u8>, to: PageId)
    requires
        node.data.is_index(),
        node.data.wf(),
        !node.has_separator(at),
        !node.data.items->Pointers_0.contains(to),
    ensures
        node.parent_split(at, to).data.has_child(to),
        node.parent_split(at, to).data.remove_child(to) == node.data,
{
    let suffix = at.skip(node.prefix_len as int);
    let new = node.parent_split(at, to);
    let r = search::rank(node.data.keys, suffix) as int;
    search::lemma_rank(node.data.keys, suffix);
    let pointers = node.data.items->Pointers_0;
    let added = new.data.items->Pointers_0;
    assert(added[r] == to);
    assert forall|i: int| 0 <= i < r implies #[trigger] added[i] != to by {
        assert(added[i] == pointers[i]);
        assert(pointers.contains(pointers[i]));
    }
    data::lemma_position(added, to, r);
    assert(new.data.remove_child(to) =~= node.data);
}

/// The keys of an index ascend when a child is gone.
pub proof fn removing_a_child_keeps_the_order(data: DataView, pid: PageId)
    requires
        data.wf(),
        data.has_child(pid),
    ensures
        data.remove_child(pid).wf(),
{
    let r = model::position(data.items->Pointers_0, pid) as int;
    let new = data.remove_child(pid);
    data::lemma_position_of_child(data.items->Pointers_0, pid);
    assert forall|i: int, j: int| 0 <= i < j < new.keys.len() implies order::lt(
        #[trigger] new.keys[i],
        #[trigger] new.keys[j],
    ) by {
        let a = if i < r { i } else { i + 1 };
        let b = if j < r { j } else { j + 1 };
        assert(order::lt(data.keys[a], data.keys[b]));
    }
}

proof fn lemma_removed(node: NodeView, pid: PageId)
    requires
        node.data.wf(),
        node.data.has_child(pid),
    ensures
        ({
            let r = model::position(node.data.items->Pointers_0, pid) as int;
            let new = NodeView { data: node.data.remove_child(pid), ..node };
            &&& 0 <= r < node.data.keys.len()
            &&& new.data.keys.len() == node.data.keys.len() - 1
            &&& new.data.wf()
            &&& forall|i: int| 0 <= i < r ==> #[trigger] new.full_key(i) == node.full_key(i)
            &&& forall|i: int| 0 <= i < r ==> #[trigger] new.child(i) == node.child(i)
            &&& forall|i: int|
                r <= i < new.data.keys.len() ==> #[trigger] new.full_key(i) == node.full_key(i + 1)
            &&& forall|i: int|
                r <= i < new.data.keys.len() ==> #[trigger] new.child(i) == node.child(i + 1)
        }),
{
    let new = NodeView { data: node.data.remove_child(pid), ..node };
    data::lemma_position_of_child(node.data.items->Pointers_0, pid);
    removing_a_child_keeps_the_order(node.data, pid);
    assert(new.prefix() == node.prefix());
}

/// A node without one of its children is still well formed, and an index that
/// loses a child other than its first is still an index.
pub proof fn removing_a_child_keeps_the_index(node: NodeView, pid: PageId)
    requires
        node.wf(),
        node.data.has_child(pid),
    ensures
        (NodeView { data: node.data.remove_child(pid), ..node }).wf(),
        node.anchored() && node.child(0) != pid ==> (NodeView {
            data: node.data.remove_child(pid),
            ..node
        }).is_index(),
{
    let r = model::position(node.data.items->Pointers_0, pid) as int;
    let new = NodeView { data: node.data.remove_child(pid), ..node };
    lemma_removed(node, pid);
    assert forall|i: int| 0 <= i < new.data.keys.len() implies new.covers(
        #[trigger] new.full_key(i),
    ) by {
        let a = if i < r { i } else { i + 1 };
        assert(node.covers(node.full_key(a)));
    }
    if node.anchored() && node.child(0) != pid {
        assert(new.full_key(0) == node.full_key(0));
    }
}

/// The keys of a child that is removed go to its left sibling. Every other key
/// stays where it was.
pub proof fn the_left_sibling_takes_the_keys(node: NodeView, pid: PageId, key: Seq<u8>)
    requires
        node.is_index(),
        node.data.has_child(pid),
        node.child(0) != pid,
        node.covers(key),
    ensures
        ({
            let r = model::position(node.data.items->Pointers_0, pid) as int;
            owner(NodeView { data: node.data.remove_child(pid), ..node }, key) == if route(
                node,
                key,
            ) == r {
                node.child(r - 1)
            } else {
                owner(node, key)
            }
        }),
{
    let r = model::position(node.data.items->Pointers_0, pid) as int;
    let new = NodeView { data: node.data.remove_child(pid), ..node };
    let i = route(node, key);
    let len = node.data.keys.len() as int;
    lemma_removed(node, pid);
    removing_a_child_keeps_the_index(node, pid);
    every_key_has_a_child(node, key);
    let j = if i < r { i } else { i - 1 };
    assert(order::le(new.full_key(j), key)) by {
        if i == r {
            assert(order::lt(node.data.keys[r - 1], node.data.keys[r]));
            keys::encoding_keeps_the_order(node, r - 1, r);
            order::lemma_trichotomy(node.full_key(r - 1), node.full_key(r));
            order::lemma_le_transitive(node.full_key(r - 1), node.full_key(r), key);
        }
    }
    if j + 1 < len - 1 {
        let k = if j + 1 < r { j + 1 } else { j + 2 };
        assert(new.full_key(j + 1) == node.full_key(k));
        lemma_no_later_child(node, key, i, k);
    }
    assert(leads_to(new, key, j));
    one_child_at_most(new, key, j, route(new, key));
    assert(new.child(j) == if j < r { node.child(j) } else { node.child(j + 1) });
}

/// After a split every key belongs, in the half that covers it, to the child that
/// it belonged to before.
pub proof fn splitting_keeps_the_owners(node: NodeView, key: Seq<u8>)
    requires
        split::is_large(node),
        node.anchored(),
        node.covers(key),
    ensures
        owner(node, key) == if order::lt(key, node.separator()) {
            owner(node.split_left(), key)
        } else {
            owner(node.split_right(), key)
        },
{
    let left = node.split_left();
    let right = node.split_right();
    let m = node.split_point();
    let i = route(node, key);
    split::the_halves_are_well_formed(node);
    split::splitting_keeps_the_entries(node);
    split::splitting_keeps_indexes_anchored(node);
    split::the_halves_share_the_range(node, key);
    split::the_separator_divides_the_keys(node);
    every_key_has_a_child(node, key);
    if order::lt(key, node.separator()) {
        assert(i < m) by {
            if m <= i {
                order::lemma_le_transitive(node.separator(), node.full_key(i), key);
            }
        }
        if i + 1 < m {
            assert(left.full_key(i + 1) == node.full_key(i + 1));
        }
        assert(left.full_key(i) == node.full_key(i));
        assert(leads_to(left, key, i));
        one_child_at_most(left, key, i, route(left, key));
    } else {
        assert(m <= i) by {
            assert(node.full_key(m) == node.separator());
            if i < m {
                lemma_no_later_child(node, key, i, m);
            }
        }
        if i + 1 < node.data.keys.len() {
            assert(right.full_key(i - m + 1) == node.full_key(i - m + 1 + m));
        }
        assert(right.full_key(i - m) == node.full_key(i - m + m));
        assert(leads_to(right, key, i - m));
        one_child_at_most(right, key, i - m, route(right, key));
    }
}

/// In a merged index every key belongs to the child that it belonged to before.
pub proof fn merging_keeps_the_owners(left: NodeView, right: NodeView, key: Seq<u8>)
    requires
        left.adjoins(right),
        left.anchored(),
        right.anchored(),
        left.covers(key) || right.covers(key),
    ensures
        owner(left.receive_merge(right), key) == if left.covers(key) {
            owner(left, key)
        } else {
            owner(right, key)
        },
{
    let merged = left.receive_merge(right);
    let n = left.data.keys.len() as int;
    merge::the_merged_node_is_well_formed(left, right);
    merge::merging_keeps_the_entries(left, right);
    merge::merging_joins_the_ranges(left, right, key);
    assert forall|i: int| 0 <= i < n + right.data.keys.len() implies #[trigger] merged.full_key(i)
        == (left.full_keys() + right.full_keys())[i] by {
        assert(merged.full_keys()[i] == merged.full_key(i));
    }
    if left.covers(key) {
        let i = route(left, key);
        every_key_has_a_child(left, key);
        assert(merged.full_key(i) == left.full_key(i));
        if i + 1 < n {
            assert(merged.full_key(i + 1) == left.full_key(i + 1));
        } else {
            assert(merged.full_key(n) == right.full_key(0));
        }
        assert(leads_to(merged, key, i));
        one_child_at_most(merged, key, i, route(merged, key));
    } else {
        let i = route(right, key);
        every_key_has_a_child(right, key);
        assert(merged.full_key(i + n) == right.full_key(i));
        if i + 1 < right.data.keys.len() {
            assert(merged.full_key(i + n + 1) == right.full_key(i + 1));
        }
        assert(leads_to(merged, key, i + n));
        one_child_at_most(merged, key, i + n, route(merged, key));
    }
}

} // verus!
