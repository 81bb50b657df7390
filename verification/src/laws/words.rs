//! What the words of the model mean, in terms of bytes, keys and items alone.

use vstd::prelude::*;

use crate::data::Data;
use crate::ivec;
use crate::ivec::IVec;
use crate::laws::leaf;
use crate::link::Link;
use crate::model;
use crate::model::{DataView, Items, NodeView};
use crate::node::Node;
use crate::order;
use crate::page::PageId;
use crate::prefix;
use crate::search;

verus! {

/// `a` and `b` begin with the same `n` bytes.
pub open spec fn begin_alike(a: Seq<u8>, b: Seq<u8>, n: int) -> bool {
    &&& 0 <= n <= a.len()
    &&& n <= b.len()
    &&& forall|i: int| 0 <= i < n ==> #[trigger] a[i] == b[i]
}

/// `n` is the most bytes, up to 255, that `a` and `b` begin with alike.
pub open spec fn longest_prefix(a: Seq<u8>, b: Seq<u8>, n: int) -> bool {
    &&& begin_alike(a, b, n)
    &&& n <= 255
    &&& n == 255 || n == a.len() || n == b.len() || a[n] != b[n]
}

/// A whole key without its first `n` bytes.
pub open spec fn without_first(key: Seq<u8>, n: nat) -> Seq<u8> {
    if n <= key.len() {
        key.subrange(n as int, key.len() as int)
    } else {
        Seq::empty()
    }
}

/// The model of a node shows every field of it as it is.
pub proof fn views_show_every_field(node: Node)
    ensures
        node@.prefix_len == node.prefix_len,
        node@.lo == node.lo.0@,
        node@.hi == node.hi.0@,
        node@.merging == node.merging,
        match node.next {
            Some(pid) => node@.next == Some(pid@),
            None => node@.next is None,
        },
        match node.merging_child {
            Some(pid) => node@.merging_child == Some(pid@),
            None => node@.merging_child is None,
        },
        match node.data {
            Data::Leaf(leaf) => match node@.data.items {
                Items::Values(values) => {
                    &&& node@.data.keys.len() == leaf.keys@.len()
                    &&& values.len() == leaf.values@.len()
                    &&& forall|i: int|
                        0 <= i < leaf.keys@.len() ==> #[trigger] node@.data.keys[i]
                            == leaf.keys@[i].0@
                    &&& forall|i: int|
                        0 <= i < leaf.values@.len() ==> #[trigger] values[i]
                            == leaf.values@[i].0@
                },
                Items::Pointers(_) => false,
            },
            Data::Index(index) => {
                &&& node@.data.keys.len() == index.keys@.len()
                &&& node@.data.items == Items::Pointers(index.pointers@)
                &&& forall|i: int|
                    0 <= i < index.keys@.len() ==> #[trigger] node@.data.keys[i]
                        == index.keys@[i].0@
            },
        },
        node.data@ == node@.data,
{
}

/// The contents of a list are those of its strings, one for one.
pub proof fn contents_are_one_for_one(list: Seq<IVec>)
    ensures
        ivec::contents(list).len() == list.len(),
        forall|i: int| 0 <= i < list.len() ==> #[trigger] ivec::contents(list)[i] == list[i].0@,
{
}

/// One byte string comes before another if, behind some bytes in which they
/// agree, it has ended or has the smaller byte.
pub proof fn the_order_is_lexicographic(a: Seq<u8>, b: Seq<u8>)
    ensures
        order::lt(a, b) <==> exists|n: int|
            begin_alike(a, b, n) && n < b.len() && (n == a.len() || a[n] < #[trigger] b[n]),
        order::le(a, b) <==> a == b || order::lt(a, b),
{
    order::lemma_shared(a, b);
    order::lemma_trichotomy(a, b);
    let m = order::shared(a, b) as int;
    if order::lt(a, b) {
        assert(begin_alike(a, b, m));
        assert(m == a.len() || a[m] < b[m]);
    }
    if exists|n: int|
        begin_alike(a, b, n) && n < b.len() && (n == a.len() || a[n] < #[trigger] b[n]) {
        let n = choose|n: int|
            begin_alike(a, b, n) && n < b.len() && (n == a.len() || a[n] < #[trigger] b[n]);
        order::lemma_shared_unique(a, b, n);
    }
    if order::le(a, b) && !order::lt(a, b) {
        assert(a == b);
    }
    order::lemma_trichotomy(b, a);
}

/// Recoding leaves the first bytes of the whole key out.
pub proof fn recoding_leaves_bytes_out(old_prefix: Seq<u8>, encoded: Seq<u8>, n: nat)
    ensures
        prefix::recoded(old_prefix, encoded, n) == without_first(old_prefix + encoded, n),
{
}

/// What two strings share is where they begin to differ, or where one ends.
pub proof fn sharing_ends_at_the_first_difference(a: Seq<u8>, b: Seq<u8>)
    ensures
        begin_alike(a, b, order::shared(a, b) as int),
        order::shared(a, b) < a.len() && order::shared(a, b) < b.len()
            ==> a[order::shared(a, b) as int] != b[order::shared(a, b) as int],
        longest_prefix(a, b, model::fitted(a, b) as int),
{
    order::lemma_shared(a, b);
}

/// Only one length is the longest.
pub proof fn one_prefix_is_the_longest(a: Seq<u8>, b: Seq<u8>, n: int, m: int)
    requires
        longest_prefix(a, b, n),
        longest_prefix(a, b, m),
    ensures
        n == m,
{
    if n < m {
        assert(a[n] == b[n]);
    } else if m < n {
        assert(a[m] == b[m]);
    }
}

/// A range has its lower bound, not its upper one, and no end where that is empty.
pub proof fn ranges_are_half_open(key: Seq<u8>, lo: Seq<u8>, hi: Seq<u8>)
    ensures
        order::below(key, hi) <==> hi.len() == 0 || order::lt(key, hi),
        order::in_range(key, lo, hi) <==> (key == lo || order::lt(lo, key)) && (hi.len() == 0
            || order::lt(key, hi)),
{
    the_order_is_lexicographic(lo, key);
}

/// A node covers the keys from `lo` on and below `hi`. Its prefix is the front of
/// `lo`, and with it every entry has its whole key.
pub proof fn nodes_cover_their_range(node: NodeView, key: Seq<u8>, i: int)
    ensures
        node.covers(key) <==> (key == node.lo || order::lt(node.lo, key)) && (node.hi.len() == 0
            || order::lt(key, node.hi)),
        node.prefix() == node.lo.take(node.prefix_len as int),
        node.full_key(i) == node.lo.take(node.prefix_len as int) + node.data.keys[i],
        node.full_keys().len() == node.data.keys.len(),
        0 <= i < node.data.keys.len() ==> node.full_keys()[i] == node.lo.take(
            node.prefix_len as int,
        ) + node.data.keys[i],
{
    ranges_are_half_open(key, node.lo, node.hi);
}

/// Entries are well formed if there is an item for each key and the keys ascend.
pub proof fn well_formed_entries(data: DataView)
    ensures
        data.is_index() <==> data.items is Pointers,
        data.wf() <==> {
            &&& match data.items {
                Items::Pointers(p) => p.len() == data.keys.len(),
                Items::Values(v) => v.len() == data.keys.len(),
            }
            &&& forall|i: int, j: int|
                0 <= i < j < data.keys.len() ==> order::lt(
                    #[trigger] data.keys[i],
                    #[trigger] data.keys[j],
                )
        },
{
}

/// A node is well formed if its entries are, if both bounds begin with the prefix,
/// and if the lower bound and every whole key lie in the range.
pub proof fn well_formed_nodes(node: NodeView)
    ensures
        node.wf() <==> {
            &&& node.data.wf()
            &&& node.prefix_len <= 255
            &&& begin_alike(node.hi, node.lo, node.prefix_len as int)
            &&& node.hi.len() == 0 || order::lt(node.lo, node.hi)
            &&& forall|i: int|
                0 <= i < node.data.keys.len() ==> node.covers(
                    node.lo.take(node.prefix_len as int) + #[trigger] node.data.keys[i],
                )
        },
        node.tight() <==> longest_prefix(node.hi, node.lo, node.prefix_len as int),
        node.is_leaf() <==> node.wf() && node.data.items is Values,
        node.is_index() <==> {
            &&& node.wf()
            &&& node.data.items is Pointers
            &&& node.data.keys.len() > 0
            &&& node.lo.take(node.prefix_len as int) + node.data.keys[0] == node.lo
        },
        node.at_rest() <==> node.merging_child is None && !node.merging,
{
    let n = node.prefix_len as int;
    let m = order::shared(node.hi, node.lo) as int;
    order::lemma_shared(node.hi, node.lo);
    if begin_alike(node.hi, node.lo, n) && m < n {
        assert(node.hi[m] == node.lo[m]);
    }
    if longest_prefix(node.hi, node.lo, n) {
        one_prefix_is_the_longest(
            node.hi,
            node.lo,
            n,
            model::fitted(node.hi, node.lo) as int,
        );
    }
    if node.wf() {
        assert forall|i: int| 0 <= i < node.data.keys.len() implies node.covers(
            node.lo.take(n) + #[trigger] node.data.keys[i],
        ) by {
            assert(node.covers(node.full_key(i)));
        }
    }
    if forall|i: int|
        0 <= i < node.data.keys.len() ==> node.covers(
            node.lo.take(n) + #[trigger] node.data.keys[i],
        ) {
        assert forall|i: int| 0 <= i < node.data.keys.len() implies node.covers(
            #[trigger] node.full_key(i),
        ) by {
            assert(node.full_key(i) == node.lo.take(n) + node.data.keys[i]);
        }
    }
}

/// Two nodes adjoin if both are well formed, are of one kind, and one begins where
/// the other ends.
pub proof fn nodes_that_adjoin(left: NodeView, right: NodeView)
    ensures
        left.adjoins(right) <==> {
            &&& left.wf()
            &&& right.wf()
            &&& left.data.items is Values <==> right.data.items is Values
            &&& left.hi == right.lo
            &&& left.hi.len() > 0
        },
{
}

/// The map of a leaf binds a whole key to a value just if an entry does.
pub proof fn the_map_of_a_leaf(node: NodeView, key: Seq<u8>, value: Seq<u8>)
    requires
        node.data.items is Values,
        node.data.wf(),
    ensures
        node.as_map().contains_key(key) && node.as_map()[key] == value <==> exists|i: int|
            {
                &&& 0 <= i < node.data.keys.len()
                &&& node.lo.take(node.prefix_len as int) + #[trigger] node.data.keys[i] == key
                &&& node.data.items->Values_0[i] == value
            },
{
    leaf::map_holds_the_entries(node);
    if node.as_map().contains_key(key) && node.as_map()[key] == value {
        let i = choose|i: int| 0 <= i < node.data.keys.len() && #[trigger] node.full_key(i) == key;
        assert(node.lo.take(node.prefix_len as int) + node.data.keys[i] == key);
    }
    if exists|i: int|
        {
            &&& 0 <= i < node.data.keys.len()
            &&& node.lo.take(node.prefix_len as int) + #[trigger] node.data.keys[i] == key
            &&& node.data.items->Values_0[i] == value
        } {
        let i = choose|i: int|
            {
                &&& 0 <= i < node.data.keys.len()
                &&& node.lo.take(node.prefix_len as int) + #[trigger] node.data.keys[i] == key
                &&& node.data.items->Values_0[i] == value
            };
        assert(node.full_key(i) == key);
    }
}

/// An encoded key has the value that stands beside it in the leaf; a whole key
/// has that of its encoding.
pub proof fn reading_a_leaf(node: NodeView, key: Seq<u8>, value: Seq<u8>)
    requires
        node.data.items is Values,
        node.data.wf(),
    ensures
        node.data.get(key) == Some(value) <==> exists|i: int|
            {
                &&& 0 <= i < node.data.keys.len()
                &&& #[trigger] node.data.keys[i] == key
                &&& node.data.items->Values_0[i] == value
            },
        node.data.get(key) is None <==> !node.data.keys.contains(key),
        node.lookup(key) == node.data.get(key.skip(node.prefix_len as int)),
{
    search::lemma_rank(node.data.keys, key);
}

/// Where an encoded key stands among ascending keys: all before are smaller, and
/// none from there on is. It is found just if it is one of them.
pub proof fn the_place_of_a_key(keys: Seq<Seq<u8>>, key: Seq<u8>)
    requires
        order::ascending(keys),
    ensures
        search::found(keys, key) <==> keys.contains(key),
        search::rank(keys, key) <= keys.len(),
        forall|i: int| 0 <= i < search::rank(keys, key) ==> order::lt(#[trigger] keys[i], key),
        forall|i: int|
            search::rank(keys, key) <= i < keys.len() ==> #[trigger] keys[i] == key || order::lt(
                key,
                keys[i],
            ),
{
    search::lemma_rank(keys, key);
}

/// Keys ascend if each comes before all behind it.
pub proof fn ascending_keys(keys: Seq<Seq<u8>>)
    ensures
        order::ascending(keys) <==> forall|i: int, j: int|
            0 <= i < j < keys.len() ==> order::lt(#[trigger] keys[i], #[trigger] keys[j]),
{
}

/// A place is taken, in an index, just if a child begins there.
pub proof fn taken_places(node: NodeView, at: Seq<u8>)
    requires
        node.data.wf(),
    ensures
        node.has_separator(at) <==> node.data.keys.contains(at.skip(node.prefix_len as int)),
{
    search::lemma_rank(node.data.keys, at.skip(node.prefix_len as int));
}

/// A leaf takes every encoded key that comes before the encoding of its end,
/// whatever else the leaf is.
pub proof fn the_keys_that_a_leaf_takes(node: NodeView, key: Seq<u8>)
    ensures
        node.takes_key(key) <==> {
            &&& node.data.items is Values
            &&& node.data.wf()
            &&& node.hi.len() == 0 || (node.prefix_len <= node.hi.len() && order::lt(
                key,
                node.hi.subrange(node.prefix_len as int, node.hi.len() as int),
            ))
        },
{
}

/// The changes that a node takes.
pub proof fn the_changes_that_a_node_takes(node: NodeView, link: Link)
    ensures
        node.takes(link) <==> !node.merging && match link {
            Link::Put(k, _) => node.takes_key(k.0@),
            Link::Del(_) => node.data.items is Values && node.data.wf(),
            Link::ParentMergeIntention(pid) => node.merging_child is None && pid != 0,
            Link::ParentMergeConfirm => match (node.merging_child, node.data.items) {
                (Some(pid), Items::Pointers(p)) => p.contains(pid) && p.len()
                    == node.data.keys.len(),
                _ => false,
            },
            Link::ChildMergeCap => true,
        },
{
}

/// The children that an index has.
pub proof fn the_children_of_an_index(data: DataView, pid: PageId)
    ensures
        data.has_child(pid) <==> match data.items {
            Items::Pointers(p) => p.contains(pid) && p.len() == data.keys.len(),
            Items::Values(_) => false,
        },
{
}

/// The nodes that can be split.
pub proof fn the_nodes_that_can_be_split(node: NodeView)
    ensures
        node.splittable() <==> {
            &&& node.data.wf()
            &&& node.data.keys.len() >= 3
            &&& node.prefix_len <= 255
            &&& begin_alike(node.hi, node.lo, node.prefix_len as int)
            &&& order::lt(node.lo, node.separator())
            &&& node.hi.len() == 0 || order::lt(node.separator(), node.hi)
        },
{
    let n = node.prefix_len as int;
    if begin_alike(node.hi, node.lo, n) {
        assert(node.hi.take(n) =~= node.lo.take(n));
    }
    if n <= node.hi.len() && n <= node.lo.len() && node.hi.take(n) == node.lo.take(n) {
        assert forall|i: int| 0 <= i < n implies #[trigger] node.hi[i] == node.lo[i] by {
            assert(node.hi.take(n)[i] == node.lo.take(n)[i]);
        }
    }
}

/// The nodes that can be merged.
pub proof fn the_nodes_that_can_be_merged(left: NodeView, right: NodeView)
    ensures
        left.mergeable(right) <==> {
            &&& left.data.items is Values <==> right.data.items is Values
            &&& left.prefix_len <= left.lo.len()
            &&& right.prefix_len <= right.lo.len()
            &&& match right.data.items {
                Items::Pointers(p) => p.len() == right.data.keys.len(),
                Items::Values(v) => v.len() == right.data.keys.len(),
            }
        },
{
}

/// The child that an index sends an encoded key to: the last that does not begin
/// after it.
pub proof fn the_child_for_a_key(node: NodeView, suffix: Seq<u8>, i: int)
    ensures
        node.routes(suffix, i) <==> {
            &&& 0 <= i < node.data.keys.len()
            &&& node.data.keys[i] == suffix || order::lt(node.data.keys[i], suffix)
            &&& i + 1 == node.data.keys.len() || order::lt(suffix, node.data.keys[i + 1])
        },
        node.child(i) == node.data.items->Pointers_0[i],
{
    the_order_is_lexicographic(node.data.keys[i], suffix);
}

} // verus!
