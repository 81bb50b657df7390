//! What a node is, as a mathematical value, and what each operation makes of it.

use vstd::prelude::*;

use crate::link::Link;
use crate::order;
use crate::page::PageId;
use crate::prefix;
use crate::search;

verus! {

/// The most bytes that a node's prefix may have.
pub open spec fn prefix_limit() -> nat {
    255
}

/// The length of the prefix that a node with these bounds gets: all that the
/// bounds share, as far as one byte can count it.
pub open spec fn fitted(a: Seq<u8>, b: Seq<u8>) -> nat {
    if order::shared(a, b) <= prefix_limit() {
        order::shared(a, b)
    } else {
        prefix_limit()
    }
}

/// How many of the keys stay on the left in a split.
pub open spec fn split_point(keys: Seq<Seq<u8>>) -> int {
    keys.len() as int / 2 + 1
}

/// What divides the keys that stay left from those that go right: the first
/// that goes right, or, truncated, the shortest beginning of it that is still
/// above all that stay left.
pub open spec fn separator(keys: Seq<Seq<u8>>, truncated: bool) -> Seq<u8> {
    let right_min = keys[split_point(keys)];
    let left_max = keys[split_point(keys) - 1];
    if truncated {
        right_min.take(order::shared(right_min, left_max) as int + 1)
    } else {
        right_min
    }
}

/// How many pointers stand in front of the first that is `pid`.
pub open spec fn position(pointers: Seq<PageId>, pid: PageId) -> nat
    decreases pointers.len(),
{
    if pointers.len() > 0 && pointers[0] != pid {
        1 + position(pointers.drop_first(), pid)
    } else {
        0
    }
}

/// What the keys of a node lead to.
#[verifier::ext_equal]
pub enum Items {
    /// In an index, child pages.
    Pointers(Seq<PageId>),
    /// In a leaf, values.
    Values(Seq<Seq<u8>>),
}

impl Items {
    pub open spec fn len(self) -> nat {
        match self {
            Items::Pointers(p) => p.len(),
            Items::Values(v) => v.len(),
        }
    }

    pub open spec fn same_kind(self, other: Items) -> bool {
        self is Pointers <==> other is Pointers
    }

    pub open spec fn slice(self, from: int, to: int) -> Items {
        match self {
            Items::Pointers(p) => Items::Pointers(p.subrange(from, to)),
            Items::Values(v) => Items::Values(v.subrange(from, to)),
        }
    }

    /// The items of both, where both are of one kind.
    pub open spec fn concat(self, other: Items) -> Items {
        match (self, other) {
            (Items::Pointers(p), Items::Pointers(q)) => Items::Pointers(p + q),
            (Items::Values(v), Items::Values(w)) => Items::Values(v + w),
            _ => self,
        }
    }
}

/// Keys, encoded, and what each leads to.
#[verifier::ext_equal]
pub struct DataView {
    pub keys: Seq<Seq<u8>>,
    pub items: Items,
}

impl DataView {
    pub open spec fn is_index(self) -> bool {
        self.items is Pointers
    }

    /// Every key leads to one item, and the keys ascend.
    pub open spec fn wf(self) -> bool {
        &&& self.keys.len() == self.items.len()
        &&& order::ascending(self.keys)
    }

    /// The entries with a number from `from` on and below `to`.
    pub open spec fn slice(self, from: int, to: int) -> DataView {
        DataView { keys: self.keys.subrange(from, to), items: self.items.slice(from, to) }
    }

    /// The entries of this, then those of `other`.
    pub open spec fn concat(self, other: DataView) -> DataView {
        DataView { keys: self.keys + other.keys, items: self.items.concat(other.items) }
    }

    /// The same entries for a prefix of length `n` in place of `prefix`.
    pub open spec fn recoded(self, prefix: Seq<u8>, n: nat) -> DataView {
        DataView { keys: prefix::recoded_all(prefix, self.keys, n), items: self.items }
    }

    /// A leaf in which `key` has the value `value`.
    pub open spec fn set(self, key: Seq<u8>, value: Seq<u8>) -> DataView {
        let i = search::rank(self.keys, key) as int;
        match self.items {
            Items::Values(v) => if search::found(self.keys, key) {
                DataView { keys: self.keys, items: Items::Values(v.update(i, value)) }
            } else {
                DataView {
                    keys: self.keys.insert(i, key),
                    items: Items::Values(v.insert(i, value)),
                }
            },
            Items::Pointers(_) => self,
        }
    }

    /// A leaf without `key`.
    pub open spec fn del(self, key: Seq<u8>) -> DataView {
        let i = search::rank(self.keys, key) as int;
        match self.items {
            Items::Values(v) if search::found(self.keys, key) => DataView {
                keys: self.keys.remove(i),
                items: Items::Values(v.remove(i)),
            },
            _ => self,
        }
    }

    /// The value of `key` in a leaf.
    pub open spec fn get(self, key: Seq<u8>) -> Option<Seq<u8>> {
        match self.items {
            Items::Values(v) if search::found(self.keys, key) => Some(
                v[search::rank(self.keys, key) as int],
            ),
            _ => None,
        }
    }

    /// An index in which `key`, which it did not have, leads to `pid`.
    pub open spec fn add_child(self, key: Seq<u8>, pid: PageId) -> DataView {
        let i = search::rank(self.keys, key) as int;
        match self.items {
            Items::Pointers(p) => DataView {
                keys: self.keys.insert(i, key),
                items: Items::Pointers(p.insert(i, pid)),
            },
            Items::Values(_) => self,
        }
    }

    /// An index, with a key for every child, has `pid` among the children.
    pub open spec fn has_child(self, pid: PageId) -> bool {
        match self.items {
            Items::Pointers(p) => p.contains(pid) && p.len() == self.keys.len(),
            Items::Values(_) => false,
        }
    }

    /// An index without the first child that is `pid`.
    pub open spec fn remove_child(self, pid: PageId) -> DataView {
        match self.items {
            Items::Pointers(p) => DataView {
                keys: self.keys.remove(position(p, pid) as int),
                items: Items::Pointers(p.remove(position(p, pid) as int)),
            },
            Items::Values(_) => self,
        }
    }

    /// How many keys are matched by an item.
    pub open spec fn entries(self) -> nat {
        if self.keys.len() <= self.items.len() {
            self.keys.len()
        } else {
            self.items.len()
        }
    }

    /// The bytes of entry `i`: those of its key, and those of its value or the
    /// eight of a page identifier.
    pub open spec fn entry_bytes(self, i: int) -> nat {
        match self.items {
            Items::Pointers(_) => self.keys[i].len() + 8,
            Items::Values(v) => self.keys[i].len() + v[i].len(),
        }
    }

    /// The bytes of the first `n` entries.
    pub open spec fn bytes_of_first(self, n: nat) -> nat
        decreases n,
    {
        if n == 0 {
            0
        } else {
            self.bytes_of_first((n - 1) as nat) + self.entry_bytes(n - 1)
        }
    }

    /// The bytes of all entries.
    pub open spec fn bytes(self) -> nat {
        self.bytes_of_first(self.entries())
    }
}

/// A node: the half-open range of keys it is responsible for, its entries, and
/// where it stands in a merge.
#[verifier::ext_equal]
pub struct NodeView {
    /// How many bytes at the front of every key are left out.
    pub prefix_len: nat,
    /// The right sibling.
    pub next: Option<PageId>,
    /// The child that is being merged into its left sibling.
    pub merging_child: Option<PageId>,
    /// The node itself is being merged into its left sibling.
    pub merging: bool,
    /// The lowest key of the range.
    pub lo: Seq<u8>,
    /// The end of the range, which is not in it; empty where there is no end.
    pub hi: Seq<u8>,
    pub data: DataView,
}

impl NodeView {
    /// The bytes that are left out of every key.
    pub open spec fn prefix(self) -> Seq<u8> {
        self.lo.take(self.prefix_len as int)
    }

    /// The whole key of entry `i`.
    pub open spec fn full_key(self, i: int) -> Seq<u8> {
        self.prefix() + self.data.keys[i]
    }

    /// The whole keys of all entries.
    pub open spec fn full_keys(self) -> Seq<Seq<u8>> {
        Seq::new(self.data.keys.len(), |i: int| self.full_key(i))
    }

    /// `key` is one that this node is responsible for.
    pub open spec fn covers(self, key: Seq<u8>) -> bool {
        order::in_range(key, self.lo, self.hi)
    }

    /// The entries are in order, the prefix is one that the bounds share, and
    /// every entry lies in a range that is not empty.
    pub open spec fn wf(self) -> bool {
        &&& self.data.wf()
        &&& self.prefix_len <= fitted(self.hi, self.lo)
        &&& order::below(self.lo, self.hi)
        &&& forall|i: int| 0 <= i < self.data.keys.len() ==> self.covers(#[trigger] self.full_key(i))
    }

    /// The prefix is as long as the bounds allow.
    pub open spec fn tight(self) -> bool {
        self.prefix_len == fitted(self.hi, self.lo)
    }

    /// An index whose first key is the lowest of its range, so that no key of
    /// the range comes before the first child.
    pub open spec fn anchored(self) -> bool {
        &&& self.data.is_index()
        &&& self.data.keys.len() > 0
        &&& self.full_key(0) == self.lo
    }

    /// The value of a whole key in a leaf.
    pub open spec fn lookup(self, key: Seq<u8>) -> Option<Seq<u8>> {
        self.data.get(key.skip(self.prefix_len as int))
    }

    /// A leaf as a map from whole keys to values.
    pub open spec fn as_map(self) -> Map<Seq<u8>, Seq<u8>> {
        Map::new(
            |key: Seq<u8>|
                self.data.items is Values && exists|i: int|
                    0 <= i < self.data.keys.len() && #[trigger] self.full_key(i) == key,
            |key: Seq<u8>|
                self.data.items->Values_0[choose|i: int|
                    0 <= i < self.data.keys.len() && #[trigger] self.full_key(i) == key],
        )
    }

    /// `i` is the child that an index sends the encoded key `suffix` to: the
    /// last whose key is not above it.
    pub open spec fn routes(self, suffix: Seq<u8>, i: int) -> bool {
        &&& 0 <= i < self.data.keys.len()
        &&& order::le(self.data.keys[i], suffix)
        &&& i + 1 < self.data.keys.len() ==> order::lt(suffix, self.data.keys[i + 1])
    }

    /// Child `i` of an index.
    pub open spec fn child(self, i: int) -> PageId {
        self.data.items->Pointers_0[i]
    }

    /// A leaf of the tree.
    pub open spec fn is_leaf(self) -> bool {
        self.wf() && !self.data.is_index()
    }

    /// An index of the tree, with no gap in front of its first child.
    pub open spec fn is_index(self) -> bool {
        self.wf() && self.anchored()
    }

    /// A leaf that can take `key`: it is sorted, and the key lies below its end.
    pub open spec fn takes_key(self, key: Seq<u8>) -> bool {
        &&& !self.data.is_index()
        &&& self.data.wf()
        &&& self.hi.len() > 0 ==> {
            &&& self.prefix_len <= self.hi.len()
            &&& order::lt(key, self.hi.skip(self.prefix_len as int))
        }
    }

    pub open spec fn set_leaf(self, key: Seq<u8>, value: Seq<u8>) -> NodeView {
        NodeView { data: self.data.set(key, value), ..self }
    }

    pub open spec fn del_leaf(self, key: Seq<u8>) -> NodeView {
        NodeView { data: self.data.del(key), ..self }
    }

    /// The index already has a child that begins at `at`.
    pub open spec fn has_separator(self, at: Seq<u8>) -> bool {
        search::found(self.data.keys, at.skip(self.prefix_len as int))
    }

    pub open spec fn parent_split(self, at: Seq<u8>, to: PageId) -> NodeView {
        if self.has_separator(at) {
            self
        } else {
            NodeView { data: self.data.add_child(at.skip(self.prefix_len as int), to), ..self }
        }
    }

    /// The change can be made to this node.
    pub open spec fn takes(self, link: Link) -> bool {
        &&& !self.merging
        &&& match link {
            Link::Put(k, _) => self.takes_key(k@),
            Link::Del(_) => !self.data.is_index() && self.data.wf(),
            Link::ParentMergeIntention(pid) => self.merging_child is None && pid != 0,
            Link::ParentMergeConfirm => self.merging_child matches Some(pid)
                && self.data.has_child(pid),
            Link::ChildMergeCap => true,
        }
    }

    /// The node after the change.
    pub open spec fn apply(self, link: Link) -> NodeView {
        match link {
            Link::Put(k, v) => self.set_leaf(k@, v@),
            Link::Del(k) => self.del_leaf(k@),
            Link::ParentMergeIntention(pid) => NodeView { merging_child: Some(pid), ..self },
            Link::ParentMergeConfirm => NodeView {
                merging_child: None,
                data: self.data.remove_child(self.merging_child->0),
                ..self
            },
            Link::ChildMergeCap => NodeView { merging: true, ..self },
        }
    }

    /// How many entries stay on the left in a split.
    pub open spec fn split_point(self) -> int {
        split_point(self.data.keys)
    }

    /// Where a split divides the range. Only a leaf may be divided at less than
    /// a whole key: the first key of an index has to be the lowest of its range.
    pub open spec fn separator(self) -> Seq<u8> {
        self.prefix() + separator(self.data.keys, !self.data.is_index())
    }

    /// A node that can be split: sorted, with enough entries for both halves,
    /// bounds that begin with its prefix, and a separator that divides its range.
    pub open spec fn splittable(self) -> bool {
        &&& self.data.wf()
        &&& self.data.keys.len() >= 3
        &&& self.prefix_len <= prefix_limit()
        &&& self.prefix_len <= self.lo.len()
        &&& self.prefix_len <= self.hi.len()
        &&& self.hi.take(self.prefix_len as int) == self.prefix()
        &&& order::lt(self.lo, self.separator())
        &&& order::below(self.separator(), self.hi)
    }

    /// The lower half.
    pub open spec fn split_left(self) -> NodeView {
        let n = fitted(self.separator(), self.lo);
        NodeView {
            prefix_len: n,
            next: None,
            hi: self.separator(),
            data: self.data.slice(0, self.split_point()).recoded(self.prefix(), n),
            ..self
        }
    }

    /// The upper half, a new node.
    pub open spec fn split_right(self) -> NodeView {
        let n = fitted(self.hi, self.separator());
        NodeView {
            prefix_len: n,
            next: self.next,
            merging_child: None,
            merging: false,
            lo: self.separator(),
            hi: self.hi,
            data: self.data.slice(self.split_point(), self.data.keys.len() as int).recoded(
                self.prefix(),
                n,
            ),
        }
    }

    /// A right sibling that can be merged into this node.
    pub open spec fn mergeable(self, right: NodeView) -> bool {
        &&& self.data.items.same_kind(right.data.items)
        &&& self.prefix_len <= self.lo.len()
        &&& right.prefix_len <= right.lo.len()
        &&& right.data.keys.len() == right.data.items.len()
    }

    /// This node and `right` are well formed and of one kind, and `right` begins
    /// where this ends.
    pub open spec fn adjoins(self, right: NodeView) -> bool {
        &&& self.wf()
        &&& right.wf()
        &&& self.data.items.same_kind(right.data.items)
        &&& self.hi == right.lo
        &&& self.hi.len() > 0
    }

    /// This node with the entries of its right sibling and the sibling's end.
    pub open spec fn receive_merge(self, right: NodeView) -> NodeView {
        let n = fitted(right.hi, self.lo);
        NodeView {
            prefix_len: n,
            next: right.next,
            hi: right.hi,
            data: self.data.recoded(self.prefix(), n).concat(right.data.recoded(right.prefix(), n)),
            ..self
        }
    }

    /// The bytes of the bounds and of all entries.
    pub open spec fn bytes(self) -> nat {
        self.lo.len() + self.hi.len() + self.data.bytes()
    }

    /// The node takes part in no merge.
    pub open spec fn at_rest(self) -> bool {
        self.merging_child is None && !self.merging
    }

    pub open spec fn should_split(self) -> bool {
        &&& self.data.keys.len() > (if self.data.is_index() { 256int } else { 16 })
        &&& self.at_rest()
    }

    pub open spec fn should_merge(self) -> bool {
        &&& self.data.keys.len() < (if self.data.is_index() { 64int } else { 4 })
        &&& self.at_rest()
    }

    pub open spec fn should_split_eagerly(self) -> bool {
        self.data.keys.len() > 2 && self.at_rest()
    }

    pub open spec fn should_merge_eagerly(self) -> bool {
        self.data.keys.len() < 1 && self.at_rest()
    }
}

} // verus!
