//! How the memory of a node changes with its entries.

use vstd::prelude::*;

use crate::data;
use crate::model;
use crate::model::{DataView, NodeView};
use crate::page::PageId;
use crate::search;

verus! {

/// Two nodes whose first `n` entries have the same sizes but for entry `at`.
proof fn lemma_bytes_replaced(a: DataView, b: DataView, at: int, n: nat)
    requires
        0 <= at,
        forall|i: int| 0 <= i < n && i != at ==> #[trigger] a.entry_bytes(i) == b.entry_bytes(i),
    ensures
        n <= at ==> a.bytes_of_first(n) == b.bytes_of_first(n),
        at < n ==> a.bytes_of_first(n) + b.entry_bytes(at) == b.bytes_of_first(n)
            + a.entry_bytes(at),
    decreases n,
{
    if n > 0 {
        lemma_bytes_replaced(a, b, at, (n - 1) as nat);
        if n - 1 != at {
            assert(a.entry_bytes(n - 1) == b.entry_bytes(n - 1));
        }
    }
}

/// `b` has the entries of `a` and one more, entry `at`.
proof fn lemma_bytes_inserted(a: DataView, b: DataView, at: int, n: nat)
    requires
        0 <= at <= n,
        forall|i: int| 0 <= i < at ==> #[trigger] b.entry_bytes(i) == a.entry_bytes(i),
        forall|i: int| at < i <= n ==> #[trigger] b.entry_bytes(i) == a.entry_bytes(i - 1),
    ensures
        b.bytes_of_first(n + 1) == a.bytes_of_first(n) + b.entry_bytes(at),
    decreases n,
{
    if at == n {
        assert(forall|i: int|
            0 <= i < n && i != at ==> #[trigger] b.entry_bytes(i) == a.entry_bytes(i));
        lemma_bytes_replaced(b, a, at, n);
    } else {
        lemma_bytes_inserted(a, b, at, (n - 1) as nat);
        assert(b.entry_bytes(n as int) == a.entry_bytes(n - 1));
    }
}

/// A new key adds its own bytes and its value's to the memory of a leaf. A key
/// that was there exchanges the bytes of its old value for those of the new.
pub proof fn setting_changes_the_memory(node: NodeView, key: Seq<u8>, value: Seq<u8>)
    requires
        !node.data.is_index(),
        node.data.wf(),
    ensures
        match node.data.get(key) {
            None => node.set_leaf(key, value).bytes() == node.bytes() + key.len() + value.len(),
            Some(old_value) => node.set_leaf(key, value).bytes() + old_value.len() == node.bytes()
                + value.len(),
        },
{
    let a = node.data;
    let b = a.set(key, value);
    let r = search::rank(a.keys, key) as int;
    search::lemma_rank(a.keys, key);
    if search::found(a.keys, key) {
        lemma_bytes_replaced(a, b, r, a.keys.len());
    } else {
        lemma_bytes_inserted(a, b, r, a.keys.len());
    }
}

/// Deleting a key frees its own bytes and its value's, if it was there.
pub proof fn deleting_frees_the_memory(node: NodeView, key: Seq<u8>)
    requires
        !node.data.is_index(),
        node.data.wf(),
    ensures
        match node.data.get(key) {
            None => node.del_leaf(key).bytes() == node.bytes(),
            Some(value) => node.del_leaf(key).bytes() + key.len() + value.len() == node.bytes(),
        },
{
    let a = node.data;
    let b = a.del(key);
    let r = search::rank(a.keys, key) as int;
    search::lemma_rank(a.keys, key);
    if search::found(a.keys, key) {
        lemma_bytes_inserted(b, a, r, b.keys.len());
    }
}

/// A new child adds the bytes of its encoded key and of its page identifier to
/// the memory of an index.
pub proof fn adding_a_child_adds_memory(node: NodeView, at: Seq<u8>, to: PageId)
    requires
        node.data.is_index(),
        node.data.wf(),
        node.prefix_len <= at.len(),
        !node.has_separator(at),
    ensures
        node.parent_split(at, to).bytes() == node.bytes() + (at.len() - node.prefix_len) + 8,
{
    let suffix = at.skip(node.prefix_len as int);
    let a = node.data;
    let b = a.add_child(suffix, to);
    search::lemma_rank(a.keys, suffix);
    lemma_bytes_inserted(a, b, search::rank(a.keys, suffix) as int, a.keys.len());
}

/// A child that is removed frees the bytes of its encoded key and of its page
/// identifier.
pub proof fn removing_a_child_frees_memory(data: DataView, pid: PageId)
    requires
        data.has_child(pid),
    ensures
        data.remove_child(pid).bytes() + data.keys[model::position(
            data.items->Pointers_0,
            pid,
        ) as int].len() + 8 == data.bytes(),
{
    let r = model::position(data.items->Pointers_0, pid) as int;
    let b = data.remove_child(pid);
    data::lemma_position_of_child(data.items->Pointers_0, pid);
    lemma_bytes_inserted(b, data, r, b.keys.len());
}

} // verus!
