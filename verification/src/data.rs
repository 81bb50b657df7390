//! The entries of a node.

use vstd::prelude::*;

use crate::ivec;
use crate::ivec::IVec;
use crate::laws::index;
use crate::model;
use crate::model::{DataView, Items};
use crate::order;
use crate::page::PageId;
use crate::prefix;
use crate::search;

verus! {

/// Keys with their values, side by side.
#[derive(Debug, PartialEq)]
pub struct Leaf {
    pub keys: Vec<IVec>,
    pub values: Vec<IVec>,
}

/// Keys with the child pages that they lead to, side by side.
#[derive(Debug, PartialEq)]
pub struct Index {
    pub keys: Vec<IVec>,
    pub pointers: Vec<PageId>,
}

/// What a node holds.
#[derive(Debug, PartialEq)]
pub enum Data {
    Index(Index),
    Leaf(Leaf),
}

impl View for Leaf {
    type V = DataView;

    open spec fn view(&self) -> DataView {
        DataView {
            keys: ivec::contents(self.keys@),
            items: Items::Values(ivec::contents(self.values@)),
        }
    }
}

impl View for Index {
    type V = DataView;

    open spec fn view(&self) -> DataView {
        DataView { keys: ivec::contents(self.keys@), items: Items::Pointers(self.pointers@) }
    }
}

impl View for Data {
    type V = DataView;

    open spec fn view(&self) -> DataView {
        match self {
            Data::Index(index) => index@,
            Data::Leaf(leaf) => leaf@,
        }
    }
}

impl Default for Leaf {
    fn default() -> (r: Leaf)
        ensures
            r@.keys.len() == 0,
            r@.items.len() == 0,
    {
        Leaf { keys: Vec::new(), values: Vec::new() }
    }
}

impl Default for Index {
    fn default() -> (r: Index)
        ensures
            r@.keys.len() == 0,
            r@.items.len() == 0,
    {
        Index { keys: Vec::new(), pointers: Vec::new() }
    }
}

impl Default for Data {
    fn default() -> (r: Data)
        ensures
            !r@.is_index(),
            r@.keys.len() == 0,
            r@.items.len() == 0,
    {
        Data::Leaf(Leaf::default())
    }
}

impl Clone for Leaf {
    fn clone(&self) -> (r: Leaf)
        ensures
            r@ == self@,
    {
        Leaf { keys: ivec::copy_list(&self.keys), values: ivec::copy_list(&self.values) }
    }
}

impl Clone for Index {
    fn clone(&self) -> (r: Index)
        ensures
            r@ == self@,
    {
        let pointers: Vec<PageId> = self.pointers.clone();
        assert(pointers@ =~= self.pointers@);
        Index { keys: ivec::copy_list(&self.keys), pointers }
    }
}

impl Clone for Data {
    fn clone(&self) -> (r: Data)
        ensures
            r@ == self@,
    {
        match self {
            Data::Index(index) => Data::Index(index.clone()),
            Data::Leaf(leaf) => Data::Leaf(leaf.clone()),
        }
    }
}

/// Encodes every key anew for a prefix of length `n`.
pub(crate) fn recode_keys(keys: &mut Vec<IVec>, old_prefix: &[u8], n: usize)
    ensures
        ivec::contents(final(keys)@) == prefix::recoded_all(
            old_prefix@,
            ivec::contents(old(keys)@),
            n as nat,
        ),
{
    let mut i: usize = 0;
    while i < keys.len()
        invariant
            i <= keys.len(),
            keys.len() == old(keys)@.len(),
            forall|j: int|
                0 <= j < i ==> (#[trigger] keys@[j])@ == prefix::recoded(
                    old_prefix@,
                    old(keys)@[j]@,
                    n as nat,
                ),
            forall|j: int| i <= j < keys.len() ==> #[trigger] keys@[j] == old(keys)@[j],
        decreases keys.len() - i,
    {
        let key: IVec = prefix::reencode(old_prefix, &keys[i], n);
        keys[i] = key;
        i += 1;
    }
    assert(ivec::contents(keys@) =~= prefix::recoded_all(
        old_prefix@,
        ivec::contents(old(keys)@),
        n as nat,
    ));
}

impl Index {
    /// How many children there are.
    pub fn len(&self) -> (n: usize)
        ensures
            n == self@.keys.len(),
    {
        self.keys.len()
    }

    /// A child begins at `key`.
    pub fn contains_key(&self, key: &[u8]) -> (r: bool)
        requires
            order::ascending(self@.keys),
        ensures
            r <==> self@.keys.contains(key@),
    {
        proof {
            search::lemma_rank(self@.keys, key@);
        }
        match search::search(&self.keys, key) {
            Ok(_) => true,
            Err(_) => false,
        }
    }

    /// Lets a child begin at `key`, which none did.
    pub fn insert(&mut self, key: &[u8], pid: PageId)
        requires
            old(self)@.wf(),
            !old(self)@.keys.contains(key@),
        ensures
            final(self)@ == old(self)@.add_child(key@, pid),
            final(self)@.wf(),
    {
        proof {
            search::lemma_rank(self@.keys, key@);
            index::adding_a_child_keeps_the_order(self@, key@, pid);
        }
        match search::search(&self.keys, key) {
            Ok(_) => {},
            Err(i) => {
                self.keys.insert(i, IVec::copy_of(key));
                self.pointers.insert(i, pid);
                assert(self@ =~= old(self)@.add_child(key@, pid));
            },
        }
    }

    /// Where `pid` is first among the children.
    fn position(&self, pid: PageId) -> (r: Option<usize>)
        ensures
            match r {
                Some(i) => i < self.pointers.len() && i == model::position(self.pointers@, pid)
                    && self.pointers@[i as int] == pid,
                None => !self.pointers@.contains(pid),
            },
    {
        let mut i: usize = 0;
        while i < self.pointers.len()
            invariant
                i <= self.pointers.len(),
                forall|j: int| 0 <= j < i ==> #[trigger] self.pointers@[j] != pid,
            decreases self.pointers.len() - i,
        {
            if self.pointers[i] == pid {
                proof {
                    lemma_position(self.pointers@, pid, i as int);
                }
                return Some(i);
            }
            i += 1;
        }
        None
    }
}

/// The first place of `pid` is the one with no other before it.
pub proof fn lemma_position(pointers: Seq<PageId>, pid: PageId, i: int)
    requires
        0 <= i < pointers.len(),
        pointers[i] == pid,
        forall|j: int| 0 <= j < i ==> #[trigger] pointers[j] != pid,
    ensures
        model::position(pointers, pid) == i,
    decreases pointers.len(),
{
    if i > 0 {
        let rest = pointers.drop_first();
        assert(forall|j: int| 0 <= j < i - 1 ==> #[trigger] rest[j] == pointers[j + 1]);
        assert(pointers[0] != pid);
        lemma_position(rest, pid, i - 1);
    }
}

/// A child that is there has a first place.
pub proof fn lemma_position_of_child(pointers: Seq<PageId>, pid: PageId)
    requires
        pointers.contains(pid),
    ensures
        model::position(pointers, pid) < pointers.len(),
        pointers[model::position(pointers, pid) as int] == pid,
    decreases pointers.len(),
{
    if pointers[0] != pid {
        let rest = pointers.drop_first();
        let i = choose|i: int| 0 <= i < pointers.len() && pointers[i] == pid;
        assert(rest[i - 1] == pid);
        lemma_position_of_child(rest, pid);
    }
}

proof fn lemma_bytes_grow(data: DataView, m: nat, n: nat)
    requires
        m <= n,
    ensures
        data.bytes_of_first(m) <= data.bytes_of_first(n),
    decreases n,
{
    if m < n {
        lemma_bytes_grow(data, m, (n - 1) as nat);
    }
}

impl Data {
    /// The bytes that the entries take up: keys and values, or keys and page
    /// identifiers.
    pub fn rss(&self) -> (n: u64)
        requires
            self@.bytes() <= u64::MAX,
        ensures
            n == self@.bytes(),
    {
        let mut sum: u64 = 0;
        let mut i: usize = 0;
        match self {
            Data::Index(index) => {
                while i < index.keys.len() && i < index.pointers.len()
                    invariant
                        i <= self@.entries(),
                        *self == Data::Index(*index),
                        sum == self@.bytes_of_first(i as nat),
                        self@.bytes() <= u64::MAX,
                    decreases index.keys.len() - i,
                {
                    proof {
                        lemma_bytes_grow(self@, (i + 1) as nat, self@.entries());
                    }
                    sum = sum + (index.keys[i].len() as u64 + 8);
                    i += 1;
                }
            },
            Data::Leaf(leaf) => {
                while i < leaf.keys.len() && i < leaf.values.len()
                    invariant
                        i <= self@.entries(),
                        *self == Data::Leaf(*leaf),
                        sum == self@.bytes_of_first(i as nat),
                        self@.bytes() <= u64::MAX,
                    decreases leaf.keys.len() - i,
                {
                    proof {
                        lemma_bytes_grow(self@, (i + 1) as nat, self@.entries());
                    }
                    sum = sum + (leaf.keys[i].len() as u64 + leaf.values[i].len() as u64);
                    i += 1;
                }
            },
        }
        sum
    }

    /// How many keys there are.
    pub fn len(&self) -> (n: usize)
        ensures
            n == self@.keys.len(),
    {
        match self {
            Data::Index(index) => index.len(),
            Data::Leaf(leaf) => leaf.keys.len(),
        }
    }

    /// Removes the child that has been merged into its left sibling.
    pub fn parent_merge_confirm(&mut self, merged_child_pid: PageId)
        requires
            old(self)@.has_child(merged_child_pid),
        ensures
            final(self)@ == old(self)@.remove_child(merged_child_pid),
            old(self)@.wf() ==> final(self)@.wf(),
    {
        proof {
            if self@.wf() {
                index::removing_a_child_keeps_the_order(self@, merged_child_pid);
            }
        }
        match self {
            Data::Index(index) => {
                let ghost before = index@;
                if let Some(i) = index.position(merged_child_pid) {
                    index.keys.remove(i);
                    index.pointers.remove(i);
                    assert(index@ =~= before.remove_child(merged_child_pid));
                }
            },
            Data::Leaf(_) => {},
        }
    }

    pub fn leaf_ref(&self) -> (r: Option<&Leaf>)
        ensures
            match self {
                Data::Index(_) => r is None,
                Data::Leaf(leaf) => r == Some(leaf),
            },
    {
        match self {
            Data::Index(_) => None,
            Data::Leaf(leaf) => Some(leaf),
        }
    }

    pub fn index_ref(&self) -> (r: Option<&Index>)
        ensures
            match self {
                Data::Index(index) => r == Some(index),
                Data::Leaf(_) => r is None,
            },
    {
        match self {
            Data::Index(index) => Some(index),
            Data::Leaf(_) => None,
        }
    }

    pub fn is_index(&self) -> (r: bool)
        ensures
            r <==> self@.is_index(),
            r <==> self is Index,
    {
        match self {
            Data::Index(_) => true,
            Data::Leaf(_) => false,
        }
    }

    /// Encodes every key anew for a prefix of length `n`.
    pub(crate) fn recode(&mut self, old_prefix: &[u8], n: usize)
        ensures
            final(self)@ == old(self)@.recoded(old_prefix@, n as nat),
    {
        match self {
            Data::Index(index) => recode_keys(&mut index.keys, old_prefix, n),
            Data::Leaf(leaf) => recode_keys(&mut leaf.keys, old_prefix, n),
        }
    }
}

} // verus!
