//! What each operation does to the keys, the items and the other fields of a node,
//! whatever the node is.

use vstd::prelude::*;

use crate::data;
use crate::ivec::IVec;
use crate::laws::keys;
use crate::laws::leaf;
use crate::laws::words;
use crate::link::Link;
use crate::model;
use crate::model::{DataView, Items, NodeView};
use crate::order;
use crate::page::PageId;
use crate::search;

verus! {

/// One of the entries is `key` with `item`.
pub open spec fn has_entry<T>(keys: Seq<Seq<u8>>, items: Seq<T>, key: Seq<u8>, item: T) -> bool {
    exists|i: int|
        0 <= i < keys.len() && 0 <= i < items.len() && #[trigger] keys[i] == key && items[i] == item
}

/// An entry is one of its list.
proof fn lemma_entry<T>(keys: Seq<Seq<u8>>, items: Seq<T>, i: int)
    requires
        0 <= i < keys.len(),
        i < items.len(),
    ensures
        has_entry(keys, items, keys[i], items[i]),
{
}

/// With an entry added at `r` there are that entry and those that were there.
proof fn lemma_entries_inserted<T>(
    keys: Seq<Seq<u8>>,
    items: Seq<T>,
    r: int,
    key: Seq<u8>,
    item: T,
    k: Seq<u8>,
    v: T,
)
    requires
        keys.len() == items.len(),
        0 <= r <= keys.len(),
    ensures
        has_entry(keys.insert(r, key), items.insert(r, item), k, v) <==> (k == key && v == item)
            || has_entry(keys, items, k, v),
{
    let ks = keys.insert(r, key);
    let vs = items.insert(r, item);
    if has_entry(ks, vs, k, v) {
        let i = choose|i: int|
            0 <= i < ks.len() && 0 <= i < vs.len() && #[trigger] ks[i] == k && vs[i] == v;
        if i < r {
            lemma_entry(keys, items, i);
        } else if i > r {
            lemma_entry(keys, items, i - 1);
        }
    }
    if has_entry(keys, items, k, v) {
        let i = choose|i: int|
            0 <= i < keys.len() && 0 <= i < items.len() && #[trigger] keys[i] == k && items[i]
                == v;
        lemma_entry(ks, vs, if i < r { i } else { i + 1 });
    }
    lemma_entry(ks, vs, r);
}

/// A leaf binds a key that is set to its value, once; every other binding is as it
/// was. The keys still ascend, with a value for each.
pub proof fn setting_binds_just_the_key(
    data: DataView,
    key: Seq<u8>,
    value: Seq<u8>,
    k: Seq<u8>,
    v: Seq<u8>,
)
    requires
        data.items is Values,
        data.wf(),
    ensures
        data.set(key, value).items is Values,
        data.set(key, value).wf(),
        has_entry(data.set(key, value).keys, data.set(key, value).items->Values_0, k, v)
            <==> if k == key {
            v == value
        } else {
            has_entry(data.keys, data.items->Values_0, k, v)
        },
{
    let values = data.items->Values_0;
    let new = data.set(key, value);
    let r = search::rank(data.keys, key) as int;
    search::lemma_rank(data.keys, key);
    leaf::setting_keeps_the_order(data, key, value);
    if data.keys.contains(key) {
        let new_values = new.items->Values_0;
        if has_entry(new.keys, new_values, k, v) {
            let i = choose|i: int|
                0 <= i < new.keys.len() && 0 <= i < new_values.len() && #[trigger] new.keys[i] == k
                    && new_values[i] == v;
            if k != key {
                lemma_entry(data.keys, values, i);
            }
        }
        if k != key && has_entry(data.keys, values, k, v) {
            let i = choose|i: int|
                0 <= i < data.keys.len() && 0 <= i < values.len() && #[trigger] data.keys[i] == k
                    && values[i] == v;
            lemma_entry(new.keys, new_values, i);
        }
        lemma_entry(new.keys, new_values, r);
    } else {
        lemma_entries_inserted(data.keys, values, r, key, value, k, v);
        if has_entry(data.keys, values, key, v) {
            assert(data.keys.contains(key));
        }
    }
}

/// A leaf has no binding of a key that is deleted; every other binding is as it
/// was. The keys still ascend, with a value for each.
pub proof fn deleting_unbinds_just_the_key(data: DataView, key: Seq<u8>, k: Seq<u8>, v: Seq<u8>)
    requires
        data.items is Values,
        data.wf(),
    ensures
        data.del(key).items is Values,
        data.del(key).wf(),
        has_entry(data.del(key).keys, data.del(key).items->Values_0, k, v) <==> k != key
            && has_entry(data.keys, data.items->Values_0, k, v),
{
    let values = data.items->Values_0;
    let new = data.del(key);
    let new_values = new.items->Values_0;
    let r = search::rank(data.keys, key) as int;
    search::lemma_rank(data.keys, key);
    let node = NodeView {
        prefix_len: 0,
        next: None,
        merging_child: None,
        merging: false,
        lo: Seq::empty(),
        hi: Seq::empty(),
        data,
    };
    leaf::deleting_removes(node, key);
    if search::found(data.keys, key) {
        lemma_entries_inserted(new.keys, new_values, r, key, values[r], k, v);
        assert(new.keys.insert(r, key) =~= data.keys);
        assert(new_values.insert(r, values[r]) =~= values);
        if has_entry(new.keys, new_values, key, v) {
            let i = choose|i: int|
                0 <= i < new.keys.len() && 0 <= i < new_values.len() && #[trigger] new.keys[i]
                    == key && new_values[i] == v;
            assert(data.keys[if i < r { i } else { i + 1 }] == key);
        }
    } else if has_entry(data.keys, values, key, v) {
        assert(data.keys.contains(key));
    }
}

/// An index with a new child has that child and all it had. The keys still ascend,
/// with a child for each.
pub proof fn adding_adds_just_the_child(
    data: DataView,
    key: Seq<u8>,
    pid: PageId,
    k: Seq<u8>,
    p: PageId,
)
    requires
        data.items is Pointers,
        data.wf(),
        !data.keys.contains(key),
    ensures
        data.add_child(key, pid).items is Pointers,
        data.add_child(key, pid).wf(),
        has_entry(data.add_child(key, pid).keys, data.add_child(key, pid).items->Pointers_0, k, p)
            <==> if k == key {
            p == pid
        } else {
            has_entry(data.keys, data.items->Pointers_0, k, p)
        },
{
    let pointers = data.items->Pointers_0;
    search::lemma_rank(data.keys, key);
    crate::laws::index::adding_a_child_keeps_the_order(data, key, pid);
    lemma_entries_inserted(
        data.keys,
        pointers,
        search::rank(data.keys, key) as int,
        key,
        pid,
        k,
        p,
    );
    if has_entry(data.keys, pointers, key, p) {
        assert(data.keys.contains(key));
    }
}

/// An index loses the first child that is the one to go, with its key, and nothing
/// else.
pub proof fn removing_removes_just_the_child(data: DataView, pid: PageId)
    requires
        data.has_child(pid),
    ensures
        exists|r: int|
            {
                &&& 0 <= r < data.items->Pointers_0.len()
                &&& #[trigger] data.items->Pointers_0[r] == pid
                &&& forall|j: int| 0 <= j < r ==> #[trigger] data.items->Pointers_0[j] != pid
                &&& data.remove_child(pid).keys == data.keys.remove(r)
                &&& data.remove_child(pid).items == Items::Pointers(
                    data.items->Pointers_0.remove(r),
                )
            },
{
    let pointers = data.items->Pointers_0;
    let r = model::position(pointers, pid) as int;
    data::lemma_position_of_child(pointers, pid);
    lemma_none_before(pointers, pid);
    assert(pointers[r] == pid);
}

proof fn lemma_none_before(pointers: Seq<PageId>, pid: PageId)
    ensures
        forall|j: int|
            0 <= j < model::position(pointers, pid) && j < pointers.len()
                ==> #[trigger] pointers[j] != pid,
    decreases pointers.len(),
{
    if pointers.len() > 0 && pointers[0] != pid {
        let rest = pointers.drop_first();
        lemma_none_before(rest, pid);
        assert forall|j: int|
            0 <= j < model::position(pointers, pid) && j < pointers.len() implies #[trigger] pointers[j]
            != pid by {
            if j > 0 {
                assert(rest[j - 1] != pid);
            }
        }
    }
}

/// Bounds, prefix, sibling and merge state are the same.
pub open spec fn same_but_for_entries(a: NodeView, b: NodeView) -> bool {
    &&& a.prefix_len == b.prefix_len
    &&& a.next == b.next
    &&& a.merging_child == b.merging_child
    &&& a.merging == b.merging
    &&& a.lo == b.lo
    &&& a.hi == b.hi
}

/// Setting a key touches nothing but the entries, and these as
/// `setting_binds_just_the_key` says. So does the change that sets a key: in the
/// map of the leaf the whole key is bound to the value, and nothing else changes.
pub proof fn putting_binds_the_whole_key(
    node: NodeView,
    link: Link,
    key: IVec,
    value: IVec,
    k: Seq<u8>,
    v: Seq<u8>,
)
    requires
        link == Link::Put(key, value),
        node.takes(link),
    ensures
        same_but_for_entries(node.apply(link), node),
        node.apply(link).data.items is Values,
        node.apply(link).data.wf(),
        has_entry(node.apply(link).data.keys, node.apply(link).data.items->Values_0, k, v)
            <==> if k == key.0@ {
            v == value.0@
        } else {
            has_entry(node.data.keys, node.data.items->Values_0, k, v)
        },
        node.apply(link).as_map() == node.as_map().insert(
            node.lo.take(node.prefix_len as int) + key.0@,
            value.0@,
        ),
        node.apply(link) == node.set_leaf(key.0@, value.0@),
{
    setting_binds_just_the_key(node.data, key@, value@, k, v);
    leaf::setting_inserts(node, key@, value@);
}

/// The change that deletes a key takes its binding out of the leaf and changes
/// nothing else.
pub proof fn deleting_unbinds_the_whole_key(
    node: NodeView,
    link: Link,
    key: IVec,
    k: Seq<u8>,
    v: Seq<u8>,
)
    requires
        link == Link::Del(key),
        node.takes(link),
    ensures
        same_but_for_entries(node.apply(link), node),
        node.apply(link).data.items is Values,
        node.apply(link).data.wf(),
        has_entry(node.apply(link).data.keys, node.apply(link).data.items->Values_0, k, v) <==> k
            != key.0@ && has_entry(node.data.keys, node.data.items->Values_0, k, v),
        node.apply(link).as_map() == node.as_map().remove(
            node.lo.take(node.prefix_len as int) + key.0@,
        ),
        node.apply(link) == node.del_leaf(key.0@),
{
    deleting_unbinds_just_the_key(node.data, key@, k, v);
    leaf::deleting_removes(node, key@);
}

/// Setting or deleting a key in a leaf touches nothing but the entries.
pub proof fn leaf_writes_touch_only_entries(node: NodeView, key: Seq<u8>, value: Seq<u8>)
    ensures
        same_but_for_entries(node.set_leaf(key, value), node),
        same_but_for_entries(node.del_leaf(key), node),
        node.set_leaf(key, value).data == node.data.set(key, value),
        node.del_leaf(key).data == node.data.del(key),
{
}

/// An intention names the child and changes nothing else.
pub proof fn an_intention_changes_no_entry(node: NodeView, pid: PageId)
    ensures
        ({
            let new = node.apply(Link::ParentMergeIntention(pid));
            &&& new.merging_child == Some(pid)
            &&& new.data == node.data
            &&& new.prefix_len == node.prefix_len
            &&& new.next == node.next
            &&& new.merging == node.merging
            &&& new.lo == node.lo
            &&& new.hi == node.hi
        }),
{
}

/// A confirmation removes the child that the intention named, with its key, ends
/// the waiting for it, and changes nothing else.
pub proof fn a_confirmation_removes_the_named_child(node: NodeView)
    requires
        node.takes(Link::ParentMergeConfirm),
    ensures
        ({
            let new = node.apply(Link::ParentMergeConfirm);
            let pid = node.merging_child->0;
            let pointers = node.data.items->Pointers_0;
            &&& new.merging_child is None
            &&& new.prefix_len == node.prefix_len
            &&& new.next == node.next
            &&& new.merging == node.merging
            &&& new.lo == node.lo
            &&& new.hi == node.hi
            &&& exists|r: int|
                {
                    &&& 0 <= r < pointers.len()
                    &&& #[trigger] pointers[r] == pid
                    &&& forall|j: int| 0 <= j < r ==> #[trigger] pointers[j] != pid
                    &&& new.data.keys == node.data.keys.remove(r)
                    &&& new.data.items == Items::Pointers(pointers.remove(r))
                }
        }),
{
    removing_removes_just_the_child(node.data, node.merging_child->0);
}

/// Capping a node marks it and changes nothing else: every entry is still there,
/// and every key reads, or goes to the same child, as before.
pub proof fn a_cap_changes_no_entry(node: NodeView, key: Seq<u8>)
    ensures
        ({
            let new = node.apply(Link::ChildMergeCap);
            &&& new.merging
            &&& new.data == node.data
            &&& new.merging_child == node.merging_child
            &&& new.prefix_len == node.prefix_len
            &&& new.next == node.next
            &&& new.lo == node.lo
            &&& new.hi == node.hi
            &&& new.lookup(key) == node.lookup(key)
        }),
{
}

/// A node that is capped is still merged into its left sibling with all it has.
pub proof fn a_cap_does_not_matter_to_a_merge(left: NodeView, right: NodeView)
    ensures
        left.receive_merge(right.apply(Link::ChildMergeCap)) == left.receive_merge(right),
{
}

/// A well-formed index refuses a new child just if one of its children begins at
/// the same whole key.
pub proof fn a_child_is_refused_only_where_one_begins(node: NodeView, at: Seq<u8>)
    requires
        node.wf(),
        node.covers(at),
    ensures
        node.has_separator(at) <==> exists|i: int|
            0 <= i < node.data.keys.len() && node.lo.take(node.prefix_len as int)
                + #[trigger] node.data.keys[i] == at,
{
    let suffix = at.skip(node.prefix_len as int);
    let p = node.lo.take(node.prefix_len as int);
    keys::covered_keys_have_the_prefix(node, at);
    words::taken_places(node, at);
    if node.data.keys.contains(suffix) {
        let i = choose|i: int| 0 <= i < node.data.keys.len() && node.data.keys[i] == suffix;
        assert(p + node.data.keys[i] == at);
    }
    if exists|i: int| 0 <= i < node.data.keys.len() && p + #[trigger] node.data.keys[i] == at {
        let i = choose|i: int|
            0 <= i < node.data.keys.len() && p + #[trigger] node.data.keys[i] == at;
        assert((p + node.data.keys[i]).skip(node.prefix_len as int) =~= node.data.keys[i]);
        assert(node.data.keys[i] == suffix);
    }
}

/// A child that begins where none did is added, whatever else the index is: it has
/// then that child and all it had. Where one begins already nothing changes. Either
/// way nothing but the entries is touched.
pub proof fn telling_of_a_split_adds_the_child(
    node: NodeView,
    at: Seq<u8>,
    to: PageId,
    k: Seq<u8>,
    p: PageId,
)
    requires
        node.data.items is Pointers,
        node.data.wf(),
    ensures
        same_but_for_entries(node.parent_split(at, to), node),
        node.parent_split(at, to).data.items is Pointers,
        node.parent_split(at, to).data.wf(),
        node.data.keys.contains(at.skip(node.prefix_len as int)) ==> node.parent_split(at, to)
            == node,
        !node.data.keys.contains(at.skip(node.prefix_len as int)) ==> (has_entry(
            node.parent_split(at, to).data.keys,
            node.parent_split(at, to).data.items->Pointers_0,
            k,
            p,
        ) <==> if k == at.skip(node.prefix_len as int) {
            p == to
        } else {
            has_entry(node.data.keys, node.data.items->Pointers_0, k, p)
        }),
{
    let suffix = at.skip(node.prefix_len as int);
    words::taken_places(node, at);
    if !node.data.keys.contains(suffix) {
        adding_adds_just_the_child(node.data, suffix, to, k, p);
    }
}

/// A node at rest should be split just if it has more than sixteen entries as a
/// leaf, or more than two hundred and fifty-six as an index, whatever its bounds,
/// its keys and its sibling are.
pub proof fn full_nodes_at_rest_should_be_split(node: NodeView)
    ensures
        node.should_split() <==> {
            &&& node.merging_child is None
            &&& !node.merging
            &&& match node.data.items {
                Items::Pointers(_) => node.data.keys.len() > 256,
                Items::Values(_) => node.data.keys.len() > 16,
            }
        },
        node.should_split_eagerly() <==> node.merging_child is None && !node.merging
            && node.data.keys.len() > 2,
{
}

/// A node at rest should be merged just if it has fewer than four entries as a
/// leaf, or fewer than sixty-four as an index, whatever its bounds, its keys and
/// its sibling are.
pub proof fn small_nodes_at_rest_should_be_merged(node: NodeView)
    ensures
        node.should_merge() <==> {
            &&& node.merging_child is None
            &&& !node.merging
            &&& match node.data.items {
                Items::Pointers(_) => node.data.keys.len() < 64,
                Items::Values(_) => node.data.keys.len() < 4,
            }
        },
        node.should_merge_eagerly() <==> node.merging_child is None && !node.merging
            && node.data.keys.len() == 0,
{
}

/// Whether a node should be split or merged depends on its kind, the number of its
/// entries and its merge state alone. Of two nodes at rest the larger should be
/// split if the smaller should, and the smaller merged if the larger should.
pub proof fn size_alone_decides(a: NodeView, b: NodeView)
    requires
        a.data.items is Values <==> b.data.items is Values,
        a.merging_child is None && !a.merging <==> b.merging_child is None && !b.merging,
        a.data.keys.len() <= b.data.keys.len(),
    ensures
        a.should_split() ==> b.should_split(),
        b.should_merge() ==> a.should_merge(),
        a.data.keys.len() == b.data.keys.len() ==> a.should_split() == b.should_split()
            && a.should_merge() == b.should_merge(),
{
}

/// `new` are the keys `old`, whole with `old_prefix`, without their first `n` bytes.
pub open spec fn keys_without_first(
    new: Seq<Seq<u8>>,
    old: Seq<Seq<u8>>,
    old_prefix: Seq<u8>,
    n: nat,
) -> bool {
    &&& new.len() == old.len()
    &&& forall|i: int|
        0 <= i < new.len() ==> #[trigger] new[i] == words::without_first(old_prefix + old[i], n)
}

/// A split in full. The lower half gets one entry more than half of them, rounded
/// down, and the upper half the rest, in order; every key is whole but for the new
/// prefix of its half. An index is divided at the first key of the upper half, a
/// leaf at the beginning of that key up to the first byte in which it differs from
/// the last key of the lower half. The lower half keeps everything else but its
/// sibling; the upper half takes the sibling over and is at rest.
pub proof fn a_split_in_full(node: NodeView)
    requires
        node.splittable(),
    ensures
        ({
            let left = node.split_left();
            let right = node.split_right();
            let len = node.data.keys.len() as int;
            let m = len / 2 + 1;
            let p = node.lo.take(node.prefix_len as int);
            &&& left.lo == node.lo
            &&& left.hi == right.lo
            &&& right.hi == node.hi
            &&& left.next is None
            &&& right.next == node.next
            &&& left.merging_child == node.merging_child
            &&& left.merging == node.merging
            &&& right.merging_child is None
            &&& !right.merging
            &&& words::longest_prefix(right.lo, node.lo, left.prefix_len as int)
            &&& words::longest_prefix(node.hi, right.lo, right.prefix_len as int)
            &&& keys_without_first(
                left.data.keys,
                node.data.keys.subrange(0, m),
                p,
                left.prefix_len,
            )
            &&& keys_without_first(
                right.data.keys,
                node.data.keys.subrange(m, len),
                p,
                right.prefix_len,
            )
            &&& match node.data.items {
                Items::Pointers(c) => {
                    &&& left.data.items == Items::Pointers(c.subrange(0, m))
                    &&& right.data.items == Items::Pointers(c.subrange(m, len))
                    &&& right.lo == p + node.data.keys[m]
                },
                Items::Values(v) => {
                    let left_max = node.data.keys[m - 1];
                    let right_min = node.data.keys[m];
                    let c = right.lo.len() - p.len() - 1;
                    &&& left.data.items == Items::Values(v.subrange(0, m))
                    &&& right.data.items == Items::Values(v.subrange(m, len))
                    &&& c < right_min.len()
                    &&& right.lo == p + right_min.take(c + 1)
                    &&& words::begin_alike(right_min, left_max, c)
                    &&& c == left_max.len() || right_min[c] != left_max[c]
                },
            }
            &&& node.separator() == right.lo
            &&& node.split_point() == m
        }),
{
    let len = node.data.keys.len() as int;
    let m = len / 2 + 1;
    let left_max = node.data.keys[m - 1];
    let right_min = node.data.keys[m];
    assert(order::lt(left_max, right_min));
    order::lemma_separator(left_max, right_min);
    order::lemma_shared(right_min, left_max);
    words::sharing_ends_at_the_first_difference(node.separator(), node.lo);
    words::sharing_ends_at_the_first_difference(node.hi, node.separator());
}

/// A merge in full. The merged node has the entries of the left one and then those
/// of the right one, every key whole but for the new prefix, which is the longest
/// that the outer bounds share. It takes its end and its sibling from the right
/// one, and keeps everything else of the left one.
pub proof fn a_merge_in_full(left: NodeView, right: NodeView)
    requires
        left.mergeable(right),
    ensures
        ({
            let merged = left.receive_merge(right);
            let n = left.data.keys.len() as int;
            let len = n + right.data.keys.len();
            &&& merged.lo == left.lo
            &&& merged.hi == right.hi
            &&& merged.next == right.next
            &&& merged.merging_child == left.merging_child
            &&& merged.merging == left.merging
            &&& words::longest_prefix(right.hi, left.lo, merged.prefix_len as int)
            &&& merged.data.keys.len() == len
            &&& keys_without_first(
                merged.data.keys.subrange(0, n),
                left.data.keys,
                left.lo.take(left.prefix_len as int),
                merged.prefix_len,
            )
            &&& keys_without_first(
                merged.data.keys.subrange(n, len),
                right.data.keys,
                right.lo.take(right.prefix_len as int),
                merged.prefix_len,
            )
            &&& match (left.data.items, right.data.items) {
                (Items::Pointers(a), Items::Pointers(b)) => merged.data.items == Items::Pointers(
                    a + b,
                ),
                (Items::Values(a), Items::Values(b)) => merged.data.items == Items::Values(a + b),
                _ => false,
            }
        }),
{
    words::sharing_ends_at_the_first_difference(right.hi, left.lo);
}

/// The sizes of the entries that have both a key and an item.
pub open spec fn entry_sizes(data: DataView) -> Seq<int> {
    match data.items {
        Items::Pointers(p) => Seq::new(
            if data.keys.len() <= p.len() { data.keys.len() } else { p.len() },
            |i: int| (data.keys[i].len() + 8) as int,
        ),
        Items::Values(v) => Seq::new(
            if data.keys.len() <= v.len() { data.keys.len() } else { v.len() },
            |i: int| (data.keys[i].len() + v[i].len()) as int,
        ),
    }
}

/// The bytes of the entries are the sum of their sizes, and those of a node the
/// lengths of its bounds more.
pub proof fn bytes_are_summed_up(node: NodeView)
    ensures
        node.data.bytes() == entry_sizes(node.data).fold_left(0int, |sum: int, n: int| sum + n),
        node.bytes() == node.lo.len() + node.hi.len() + node.data.bytes(),
{
    let sizes = entry_sizes(node.data);
    lemma_sum(node.data, sizes.len());
    assert(sizes.take(sizes.len() as int) =~= sizes);
}

proof fn lemma_sum(data: DataView, n: nat)
    requires
        n <= entry_sizes(data).len(),
    ensures
        data.bytes_of_first(n) == entry_sizes(data).take(n as int).fold_left(
            0int,
            |sum: int, n: int| sum + n,
        ),
    decreases n,
{
    if n > 0 {
        lemma_sum(data, (n - 1) as nat);
        assert(entry_sizes(data).take(n as int).drop_last() =~= entry_sizes(data).take(n - 1));
        assert(entry_sizes(data).take(n as int).last() == data.entry_bytes(n - 1));
    }
}

} // verus!
