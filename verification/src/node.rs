//! The node and its operations.

use vstd::prelude::*;
use vstd::slice::slice_subrange;

use crate::data::{recode_keys, Data, Index, Leaf};
use crate::ivec;
use crate::ivec::IVec;
use crate::laws::{index, leaf, life, merge, split};
use crate::link::Link;
use crate::model;
use crate::model::{Items, NodeView};
use crate::order;
use crate::page;
use crate::page::{NonZeroPid, PageId};
use crate::prefix;
use crate::search;

verus! {

/// A node of the tree. It is responsible for the keys from `lo` up to, but not
/// including, `hi`; an empty `hi` is no bound. All these keys begin with the
/// first `prefix_len` bytes of `lo`, which the keys in `data` leave out.
#[derive(Debug, PartialEq)]
pub struct Node {
    pub prefix_len: u8,
    /// The right sibling.
    pub next: Option<NonZeroPid>,
    /// The child that is being merged into its left sibling.
    pub merging_child: Option<NonZeroPid>,
    /// The node itself is being merged into its left sibling.
    pub merging: bool,
    pub lo: IVec,
    pub hi: IVec,
    pub data: Data,
}

impl View for Node {
    type V = NodeView;

    open spec fn view(&self) -> NodeView {
        NodeView {
            prefix_len: self.prefix_len as nat,
            next: page::named(self.next),
            merging_child: page::named(self.merging_child),
            merging: self.merging,
            lo: self.lo@,
            hi: self.hi@,
            data: self.data@,
        }
    }
}

impl Default for Node {
    /// The leaf that a tree begins with: it covers all keys and holds none.
    fn default() -> (r: Node)
        ensures
            r@.prefix_len == 0,
            r@.next is None,
            r@.merging_child is None,
            !r@.merging,
            r@.lo == Seq::<u8>::empty(),
            r@.hi == Seq::<u8>::empty(),
            !r@.data.is_index(),
            r@.data.keys.len() == 0,
            r@.data.items.len() == 0,
            r@.is_leaf(),
    {
        let r: Node = Node {
            prefix_len: 0,
            next: None,
            merging_child: None,
            merging: false,
            lo: IVec::new(),
            hi: IVec::new(),
            data: Data::default(),
        };
        proof {
            leaf::the_first_leaf_is_empty(r@, Seq::empty());
        }
        r
    }
}

impl Clone for Node {
    fn clone(&self) -> (r: Node)
        ensures
            r@ == self@,
    {
        Node {
            prefix_len: self.prefix_len,
            next: self.next,
            merging_child: self.merging_child,
            merging: self.merging,
            lo: self.lo.clone(),
            hi: self.hi.clone(),
            data: self.data.clone(),
        }
    }
}

/// The length of the prefix of a node with these bounds.
fn fitted_len(a: &IVec, b: &IVec) -> (n: u8)
    ensures
        n == model::fitted(a@, b@),
{
    let n: usize = order::shared_len(a.as_slice(), b.as_slice());
    if n <= 255 {
        n as u8
    } else {
        255
    }
}

/// Takes the upper half out of `keys` and `values`. Returns what divides the
/// halves, the length of the new prefix of the upper half, and the upper half
/// encoded for that prefix.
fn split_inner<T>(
    keys: &mut Vec<IVec>,
    values: &mut Vec<T>,
    old_prefix: &[u8],
    old_hi: &IVec,
    suffix_truncation: bool,
) -> (r: (IVec, u8, Vec<IVec>, Vec<T>))
    requires
        order::ascending(ivec::contents(old(keys)@)),
        old(keys)@.len() >= 3,
        old(values)@.len() == old(keys)@.len(),
        old_prefix@.len() <= model::prefix_limit(),
        old_prefix@.is_prefix_of(old_hi@),
    ensures
        ({
            let all = ivec::contents(old(keys)@);
            let m = model::split_point(all);
            &&& ivec::contents(final(keys)@) == all.subrange(0, m)
            &&& final(values)@ == old(values)@.subrange(0, m)
            &&& r.0@ == old_prefix@ + model::separator(all, suffix_truncation)
            &&& r.1 == model::fitted(old_hi@, r.0@)
            &&& ivec::contents(r.2@) == prefix::recoded_all(
                old_prefix@,
                all.subrange(m, all.len() as int),
                r.1 as nat,
            )
            &&& r.3@ == old(values)@.subrange(m, all.len() as int)
        }),
        r.1 >= old_prefix@.len(),
        r.0@.len() > 0,
{
    let ghost all = ivec::contents(keys@);
    let split_point: usize = keys.len() / 2 + 1;
    let mut right_keys: Vec<IVec> = keys.split_off(split_point);
    let right_values: Vec<T> = values.split_off(split_point);
    assert(ivec::contents(keys@) =~= all.subrange(0, split_point as int));
    assert(ivec::contents(right_keys@) =~= all.subrange(split_point as int, all.len() as int));
    let right_min: &IVec = &right_keys[0];
    let left_max: &IVec = &keys[split_point - 1];
    proof {
        assert(right_min@ == all[split_point as int]);
        assert(left_max@ == all[split_point - 1]);
        assert(order::lt(left_max@, right_min@));
        order::lemma_separator(left_max@, right_min@);
    }
    let right_min_len: usize = right_min.len();
    let separator_len: usize = if suffix_truncation {
        order::shared_len(right_min.as_slice(), left_max.as_slice()) + 1
    } else {
        right_min_len
    };
    let separator: IVec = prefix::decode(old_prefix, right_min.first(separator_len));
    proof {
        assert(right_min@.take(right_min@.len() as int) =~= right_min@);
        assert(separator@ =~= old_prefix@ + model::separator(all, suffix_truncation));
        assert(separator@.take(old_prefix@.len() as int) =~= old_hi@.take(old_prefix@.len() as int));
        order::lemma_shared_at_least(old_hi@, separator@, old_prefix@.len() as int);
    }
    let new_prefix_len: u8 = fitted_len(old_hi, &separator);
    if new_prefix_len as usize != old_prefix.len() {
        // bytes that the upper half shares beyond the old prefix
        recode_keys(&mut right_keys, old_prefix, new_prefix_len as usize);
    } else {
        proof {
            lemma_recoded_all_same(old_prefix@, ivec::contents(right_keys@));
        }
    }
    (separator, new_prefix_len, right_keys, right_values)
}

proof fn lemma_recoded_all_same(p: Seq<u8>, keys: Seq<Seq<u8>>)
    ensures
        prefix::recoded_all(p, keys, p.len()) == keys,
{
    assert forall|i: int| 0 <= i < keys.len() implies #[trigger] prefix::recoded_all(
        p,
        keys,
        p.len(),
    )[i] == keys[i] by {
        prefix::lemma_recoded_same(p, keys[i]);
    }
    assert(prefix::recoded_all(p, keys, p.len()) =~= keys);
}

/// Adds the keys of a right sibling, encoded for a prefix of length `n`.
fn receive_keys(left: &mut Vec<IVec>, right: &Vec<IVec>, old_prefix: &[u8], n: usize)
    ensures
        ivec::contents(final(left)@) == ivec::contents(old(left)@) + prefix::recoded_all(
            old_prefix@,
            ivec::contents(right@),
            n as nat,
        ),
{
    let mut added: Vec<IVec> = ivec::copy_list(right);
    if n != old_prefix.len() {
        recode_keys(&mut added, old_prefix, n);
    } else {
        proof {
            lemma_recoded_all_same(old_prefix@, ivec::contents(right@));
        }
    }
    left.append(&mut added);
    assert(ivec::contents(left@) =~= ivec::contents(old(left)@) + prefix::recoded_all(
        old_prefix@,
        ivec::contents(right@),
        n as nat,
    ));
}

impl Node {
    /// The bytes that every key of the node begins with and leaves out.
    pub fn prefix(&self) -> (r: &[u8])
        requires
            self@.prefix_len <= self@.lo.len(),
        ensures
            r@ == self@.prefix(),
    {
        self.lo.first(self.prefix_len as usize)
    }

    /// The memory that the node takes up: the node itself and the bytes of its
    /// bounds and entries. The sum has to fit. That it does is plain where the
    /// bytes take no more than half of what can be counted, since no type is
    /// larger than that.
    pub fn rss(&self) -> (n: u64)
        requires
            self@.bytes() <= i64::MAX || vstd::layout::size_of::<Node>() + self@.bytes()
                <= u64::MAX,
        ensures
            n == vstd::layout::size_of::<Node>() + self@.bytes(),
            n == vstd::layout::size_of::<Node>() + self@.lo.len() + self@.hi.len()
                + self@.data.bytes(),
    {
        vstd::layout::layout_for_type_is_valid::<Node>();
        let own: usize = std::mem::size_of::<Node>();
        own as u64 + self.lo.len() as u64 + self.hi.len() as u64 + self.data.rss()
    }

    /// Makes one change.
    pub fn apply(&mut self, link: &Link)
        requires
            old(self)@.takes(*link),
        ensures
            final(self)@ == old(self)@.apply(*link),
            old(self)@.wf() && (link matches Link::Put(k, _) ==> old(self)@.covers(
                old(self)@.prefix() + k@,
            )) ==> final(self)@.wf(),
    {
        proof {
            if self@.wf() && (link matches Link::Put(k, _) ==> self@.covers(
                self@.prefix() + k@,
            )) {
                life::changes_keep_the_node_well_formed(self@, *link);
            }
        }
        match link {
            Link::Put(k, v) => {
                self.set_leaf(k.clone(), v.clone());
            },
            Link::Del(k) => {
                self.del_leaf(k);
            },
            Link::ParentMergeIntention(pid) => {
                self.merging_child = NonZeroPid::new(*pid);
            },
            Link::ParentMergeConfirm => {
                if let Some(merged_child) = self.merging_child.take() {
                    self.data.parent_merge_confirm(merged_child.get());
                }
            },
            Link::ChildMergeCap => {
                self.merging = true;
            },
        }
    }

    /// Gives an encoded key a value in a leaf, in place of the one it may have.
    pub fn set_leaf(&mut self, key: IVec, val: IVec)
        requires
            old(self)@.takes_key(key@),
        ensures
            final(self)@ == old(self)@.set_leaf(key@, val@),
            final(self)@.data.wf(),
            old(self)@.wf() && old(self)@.covers(old(self)@.prefix() + key@)
                ==> final(self)@.wf(),
    {
        proof {
            leaf::setting_inserts(self@, key@, val@);
            if self@.wf() && self@.covers(self@.prefix() + key@) {
                leaf::covered_keys_can_be_set(self@, key@, val@);
            }
        }
        if let Data::Leaf(leaf) = &mut self.data {
            let ghost before = leaf@;
            let ghost (k, v) = (key@, val@);
            proof {
                search::lemma_rank(before.keys, key@);
            }
            match search::search(&leaf.keys, key.as_slice()) {
                Ok(idx) => {
                    leaf.values[idx] = val;
                },
                Err(idx) => {
                    leaf.keys.insert(idx, key);
                    leaf.values.insert(idx, val);
                },
            }
            assert(leaf@ =~= before.set(k, v));
        }
    }

    /// Removes an encoded key from a leaf, if it is there.
    pub fn del_leaf(&mut self, key: &IVec)
        requires
            !old(self)@.data.is_index(),
            old(self)@.data.wf(),
        ensures
            final(self)@ == old(self)@.del_leaf(key@),
            final(self)@.data.wf(),
            old(self)@.wf() ==> final(self)@.wf(),
    {
        proof {
            leaf::deleting_removes(self@, key@);
            if self@.wf() {
                leaf::deleting_keeps_the_leaf(self@, key@);
            }
        }
        if let Data::Leaf(leaf) = &mut self.data {
            let ghost before = leaf@;
            if let Ok(idx) = search::search(&leaf.keys, key.as_slice()) {
                leaf.keys.remove(idx);
                leaf.values.remove(idx);
            }
            assert(leaf@ =~= before.del(key@));
        }
    }

    /// Lets the child `to` of an index begin at `at`. Returns false, with nothing
    /// changed, if a child begins there already.
    pub fn parent_split(&mut self, at: &[u8], to: PageId) -> (r: bool)
        requires
            old(self)@.data.is_index(),
            old(self)@.data.wf(),
            old(self)@.prefix_len <= at@.len(),
        ensures
            r <==> !old(self)@.has_separator(at@),
            r <==> !old(self)@.data.keys.contains(at@.skip(old(self).prefix_len as int)),
            !r ==> final(self)@ == old(self)@,
            final(self).prefix_len == old(self).prefix_len,
            final(self).next == old(self).next,
            final(self).merging_child == old(self).merging_child,
            final(self).merging == old(self).merging,
            final(self).lo == old(self).lo,
            final(self).hi == old(self).hi,
            final(self)@ == old(self)@.parent_split(at@, to),
            final(self)@.data.wf(),
            old(self)@.is_index() && old(self)@.covers(at@) ==> final(self)@.is_index(),
    {
        proof {
            if self@.is_index() && self@.covers(at@) && !self@.has_separator(at@) {
                index::adding_a_child_keeps_the_index(self@, at@, to);
            }
        }
        let encoded_sep: &[u8] = slice_subrange(at, self.prefix_len as usize, at.len());
        proof {
            search::lemma_rank(self@.data.keys, encoded_sep@);
        }
        if let Data::Index(index) = &mut self.data {
            if index.contains_key(encoded_sep) {
                return false;
            }
            index.insert(encoded_sep, to);
        }
        true
    }

    /// Divides the node into two of about the same number of entries, the first
    /// with the lower keys. The second is to become the first's right sibling.
    pub fn split(self) -> (r: (Node, Node))
        requires
            self@.splittable(),
        ensures
            r.0@ == self@.split_left(),
            r.1@ == self@.split_right(),
            self@.wf() ==> r.0@.adjoins(r.1@) && r.0@.tight() && r.1@.tight(),
    {
        proof {
            if self@.wf() {
                split::the_halves_are_well_formed(self@);
                merge::merging_undoes_splitting(self@);
            }
        }
        let mut left: Node = self;
        let prefixed_lo: &[u8] = left.lo.first(left.prefix_len as usize);
        assert(prefixed_lo@.is_prefix_of(left.hi@)) by {
            assert(self@.hi.take(self@.prefix_len as int) == prefixed_lo@);
        }
        let (separator, right_prefix_len, right_data) = match &mut left.data {
            Data::Index(index) => {
                let (separator, right_prefix_len, right_keys, right_pointers) = split_inner(
                    &mut index.keys,
                    &mut index.pointers,
                    prefixed_lo,
                    &left.hi,
                    false,
                );
                (
                    separator,
                    right_prefix_len,
                    Data::Index(Index { keys: right_keys, pointers: right_pointers }),
                )
            },
            Data::Leaf(leaf) => {
                let (separator, right_prefix_len, right_keys, right_values) = split_inner(
                    &mut leaf.keys,
                    &mut leaf.values,
                    prefixed_lo,
                    &left.hi,
                    true,
                );
                (
                    separator,
                    right_prefix_len,
                    Data::Leaf(Leaf { keys: right_keys, values: right_values }),
                )
            },
        };
        let left_prefix_len: u8 = fitted_len(&separator, &left.lo);
        if left_prefix_len != left.prefix_len {
            left.data.recode(prefixed_lo, left_prefix_len as usize);
        } else {
            proof {
                lemma_recoded_all_same(prefixed_lo@, left.data@.keys);
            }
        }
        let right: Node = Node {
            prefix_len: right_prefix_len,
            next: left.next,
            merging_child: None,
            merging: false,
            lo: separator.clone(),
            hi: left.hi.clone(),
            data: right_data,
        };
        left.prefix_len = left_prefix_len;
        left.hi = separator;
        left.next = None;
        assert(left@ =~= self@.split_left());
        assert(right@ =~= self@.split_right());
        (left, right)
    }

    /// This node with the entries of its right sibling taken in.
    pub fn receive_merge(&self, right: &Node) -> (r: Node)
        requires
            self@.mergeable(right@),
        ensures
            r@ == self@.receive_merge(right@),
            self@.adjoins(right@) ==> r@.wf() && r@.tight(),
    {
        proof {
            if self@.adjoins(right@) {
                merge::the_merged_node_is_well_formed(self@, right@);
            }
        }
        let mut merged: Node = self.clone();
        let new_prefix_len: u8 = fitted_len(&right.hi, &self.lo);
        if new_prefix_len != self.prefix_len {
            merged.data.recode(self.prefix(), new_prefix_len as usize);
        } else {
            proof {
                lemma_recoded_all_same(self@.prefix(), self@.data.keys);
            }
        }
        merged.prefix_len = new_prefix_len;
        match (&mut merged.data, &right.data) {
            (Data::Index(left_index), Data::Index(right_index)) => {
                receive_keys(
                    &mut left_index.keys,
                    &right_index.keys,
                    right.prefix(),
                    new_prefix_len as usize,
                );
                let mut pointers: Vec<PageId> = right_index.pointers.clone();
                assert(pointers@ =~= right_index.pointers@);
                left_index.pointers.append(&mut pointers);
            },
            (Data::Leaf(left_leaf), Data::Leaf(right_leaf)) => {
                receive_keys(
                    &mut left_leaf.keys,
                    &right_leaf.keys,
                    right.prefix(),
                    new_prefix_len as usize,
                );
                let mut values: Vec<IVec> = ivec::copy_list(&right_leaf.values);
                left_leaf.values.append(&mut values);
            },
            _ => {},
        }
        merged.hi = right.hi.clone();
        merged.next = right.next;
        assert(merged@ =~= self@.receive_merge(right@));
        merged
    }

    /// The entry of a leaf for a whole key.
    pub fn leaf_pair_for_key(&self, key: &[u8]) -> (r: Option<(&IVec, &IVec)>)
        requires
            !self@.data.is_index(),
            self@.data.wf(),
            self@.prefix_len <= key@.len(),
        ensures
            match r {
                Some((k, v)) => k@ == key@.skip(self@.prefix_len as int) && self@.lookup(key@)
                    == Some(v@),
                None => self@.lookup(key@) is None,
            },
    {
        let suffix: &[u8] = slice_subrange(key, self.prefix_len as usize, key.len());
        match &self.data {
            Data::Leaf(leaf) => match search::search(&leaf.keys, suffix) {
                Ok(idx) => Some((&leaf.keys[idx], &leaf.values[idx])),
                Err(_) => None,
            },
            Data::Index(_) => None,
        }
    }

    /// A whole key as this leaf encodes it, with its value where it has one.
    pub fn node_kv_pair(&self, key: &[u8]) -> (r: (IVec, Option<IVec>))
        requires
            !self@.data.is_index(),
            self@.data.wf(),
            self@.covers(key@),
            self@.prefix_len <= key@.len(),
        ensures
            r.0@ == key@.skip(self@.prefix_len as int),
            match r.1 {
                Some(v) => self@.lookup(key@) == Some(v@),
                None => self@.lookup(key@) is None,
            },
            match r.1 {
                Some(v) => self@.data.items matches Items::Values(values) && exists|i: int|
                    {
                        &&& 0 <= i < self@.data.keys.len()
                        &&& #[trigger] self@.data.keys[i] == r.0@
                        &&& values[i] == v@
                    },
                None => !self@.data.keys.contains(r.0@),
            },
    {
        proof {
            search::lemma_rank(self@.data.keys, key@.skip(self@.prefix_len as int));
        }
        match self.leaf_pair_for_key(key) {
            Some((k, v)) => (k.clone(), Some(v.clone())),
            None => (
                IVec::copy_of(slice_subrange(key, self.prefix_len as usize, key.len())),
                None,
            ),
        }
    }

    /// The node takes part in no merge and has more than `threshold` entries.
    fn exceeds(&self, threshold: usize) -> (r: bool)
        ensures
            r <==> self@.data.keys.len() > threshold && self@.at_rest(),
    {
        self.data.len() > threshold && self.can_merge_child()
    }

    /// The node takes part in no merge and has fewer than `threshold` entries.
    fn undercuts(&self, threshold: usize) -> (r: bool)
        ensures
            r <==> self@.data.keys.len() < threshold && self@.at_rest(),
    {
        self.data.len() < threshold && self.can_merge_child()
    }

    /// The node has so many entries that it should be split.
    pub fn should_split(&self) -> (r: bool)
        ensures
            r <==> self@.should_split(),
            r <==> self.merging_child is None && !self.merging && match self.data {
                Data::Index(index) => index.keys@.len() > 256,
                Data::Leaf(leaf) => leaf.keys@.len() > 16,
            },
    {
        if self.data.is_index() {
            self.exceeds(256)
        } else {
            self.exceeds(16)
        }
    }

    /// The node has so few entries that it should be merged into its left sibling.
    pub fn should_merge(&self) -> (r: bool)
        ensures
            r <==> self@.should_merge(),
            r <==> self.merging_child is None && !self.merging && match self.data {
                Data::Index(index) => index.keys@.len() < 64,
                Data::Leaf(leaf) => leaf.keys@.len() < 4,
            },
    {
        if self.data.is_index() {
            self.undercuts(64)
        } else {
            self.undercuts(4)
        }
    }

    /// `should_split` as a run that provokes races uses it: a few entries are
    /// enough.
    pub fn should_split_eagerly(&self) -> (r: bool)
        ensures
            r <==> self@.should_split_eagerly(),
            r <==> self.merging_child is None && !self.merging && self@.data.keys.len() > 2,
    {
        self.exceeds(2)
    }

    /// `should_merge` as a run that provokes races uses it: only an empty node
    /// goes.
    pub fn should_merge_eagerly(&self) -> (r: bool)
        ensures
            r <==> self@.should_merge_eagerly(),
            r <==> self.merging_child is None && !self.merging && self@.data.keys.len() == 0,
    {
        self.undercuts(1)
    }

    /// The node takes part in no merge, so that a merge of a child may begin.
    pub fn can_merge_child(&self) -> (r: bool)
        ensures
            r <==> self@.at_rest(),
            r <==> self.merging_child is None && !self.merging,
    {
        self.merging_child.is_none() && !self.merging
    }

    /// The child of an index that is responsible for a whole key, and its number.
    pub fn index_next_node(&self, key: &[u8]) -> (r: (usize, PageId))
        requires
            self@.data.is_index(),
            self@.data.wf(),
            self@.prefix_len <= key@.len(),
            self@.data.keys.len() > 0,
            order::le(self@.data.keys[0], key@.skip(self@.prefix_len as int)),
        ensures
            self@.routes(key@.skip(self@.prefix_len as int), r.0 as int),
            r.1 == self@.child(r.0 as int),
            r.0 < self@.data.keys.len(),
            order::le(self@.data.keys[r.0 as int], key@.skip(self.prefix_len as int)),
            r.0 + 1 < self@.data.keys.len() ==> order::lt(
                key@.skip(self.prefix_len as int),
                self@.data.keys[r.0 + 1],
            ),
            self@.data.items matches Items::Pointers(pointers) && r.1 == pointers[r.0 as int],
    {
        let suffix: &[u8] = slice_subrange(key, self.prefix_len as usize, key.len());
        if let Data::Index(index) = &self.data {
            if let Some(pos) = search::binary_search_lub(suffix, &index.keys) {
                return (pos, index.pointers[pos]);
            }
        }
        // a leaf, or a key below the first child: neither is let in
        assert(false);
        (0, 0)
    }
}

} // verus!
