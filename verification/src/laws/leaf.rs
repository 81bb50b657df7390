//! A leaf is a map from keys to values.

use vstd::prelude::*;

use crate::laws::keys;
use crate::model::{DataView, NodeView};
use crate::order;
use crate::search;

verus! {

/// The map of a leaf holds, for each entry, its value under its whole key, and
/// nothing else.
pub proof fn map_holds_the_entries(node: NodeView)
    requires
        !node.data.is_index(),
        node.data.wf(),
    ensures
        forall|i: int|
            0 <= i < node.data.keys.len() ==> {
                &&& node.as_map().contains_key(#[trigger] node.full_key(i))
                &&& node.as_map()[node.full_key(i)] == node.data.items->Values_0[i]
            },
        forall|key: Seq<u8>|
            node.as_map().contains_key(key) ==> exists|i: int|
                0 <= i < node.data.keys.len() && #[trigger] node.full_key(i) == key,
{
    assert forall|i: int| 0 <= i < node.data.keys.len() implies {
        &&& node.as_map().contains_key(#[trigger] node.full_key(i))
        &&& node.as_map()[node.full_key(i)] == node.data.items->Values_0[i]
    } by {
        let key = node.full_key(i);
        let j = choose|j: int| 0 <= j < node.data.keys.len() && #[trigger] node.full_key(j) == key;
        keys::encoding_keeps_the_order(node, i, j);
        order::lemma_trichotomy(node.data.keys[i], node.data.keys[j]);
        assert(i == j);
    }
}

/// Looking a key up is reading the map.
pub proof fn lookup_reads_the_map(node: NodeView, key: Seq<u8>)
    requires
        node.is_leaf(),
        node.covers(key),
    ensures
        node.lookup(key) is Some <==> node.as_map().contains_key(key),
        node.lookup(key) matches Some(v) ==> node.as_map()[key] == v,
{
    let suffix = key.skip(node.prefix_len as int);
    keys::covered_keys_have_the_prefix(node, key);
    search::lemma_rank(node.data.keys, suffix);
    map_holds_the_entries(node);
    if node.lookup(key) is Some {
        assert(node.full_key(search::rank(node.data.keys, suffix) as int) == key);
    }
    if node.as_map().contains_key(key) {
        let i = choose|i: int| 0 <= i < node.data.keys.len() && #[trigger] node.full_key(i) == key;
        assert(node.full_key(i).skip(node.prefix_len as int) =~= node.data.keys[i]);
        assert(node.data.keys[i] == suffix);
    }
}

/// The keys of a leaf ascend, with a value for each, when a key is set.
pub proof fn setting_keeps_the_order(data: DataView, key: Seq<u8>, value: Seq<u8>)
    requires
        !data.is_index(),
        data.wf(),
    ensures
        data.set(key, value).wf(),
{
    let new = data.set(key, value);
    let r = search::rank(data.keys, key) as int;
    search::lemma_rank(data.keys, key);
    assert forall|i: int, j: int| 0 <= i < j < new.keys.len() implies order::lt(
        #[trigger] new.keys[i],
        #[trigger] new.keys[j],
    ) by {
        if !search::found(data.keys, key) {
            let a = if i < r { i } else { i - 1 };
            let b = if j < r { j } else { j - 1 };
            if i != r && j != r {
                assert(order::lt(data.keys[a], data.keys[b]));
            } else if i == r {
                assert(new.keys[j] == data.keys[b]);
            } else {
                assert(new.keys[i] == data.keys[a]);
            }
        }
    }
}

/// Which whole keys stand where when a key is set.
proof fn lemma_set(node: NodeView, key: Seq<u8>, value: Seq<u8>)
    requires
        !node.data.is_index(),
        node.data.wf(),
    ensures
        ({
            let new = node.set_leaf(key, value);
            let r = search::rank(node.data.keys, key) as int;
            let shift = if search::found(node.data.keys, key) { 0int } else { 1 };
            &&& 0 <= r < new.data.keys.len()
            &&& new.data.keys.len() == node.data.keys.len() + shift
            &&& new.data.items->Values_0.len() == new.data.keys.len()
            &&& new.full_key(r) == node.prefix() + key
            &&& new.data.items->Values_0[r] == value
            &&& forall|i: int|
                0 <= i < r ==> #[trigger] new.full_key(i) == node.full_key(i)
                    && new.data.items->Values_0[i] == node.data.items->Values_0[i]
            &&& forall|i: int|
                r < i < new.data.keys.len() ==> #[trigger] new.full_key(i) == node.full_key(
                    i - shift,
                ) && new.data.items->Values_0[i] == node.data.items->Values_0[i - shift]
        }),
{
    search::lemma_rank(node.data.keys, key);
    assert(node.set_leaf(key, value).prefix() == node.prefix());
}

/// Setting a key puts it into the map, in place of what was there, and leaves
/// all other keys alone.
pub proof fn setting_inserts(node: NodeView, key: Seq<u8>, value: Seq<u8>)
    requires
        !node.data.is_index(),
        node.data.wf(),
    ensures
        node.set_leaf(key, value).data.wf(),
        node.set_leaf(key, value).as_map() == node.as_map().insert(node.prefix() + key, value),
{
    let new = node.set_leaf(key, value);
    let full = node.prefix() + key;
    let r = search::rank(node.data.keys, key) as int;
    let shift = if search::found(node.data.keys, key) { 0int } else { 1 };
    setting_keeps_the_order(node.data, key, value);
    lemma_set(node, key, value);
    map_holds_the_entries(node);
    map_holds_the_entries(new);
    let was = node.as_map();
    let is = new.as_map();
    assert forall|k: Seq<u8>| #[trigger] is.contains_key(k) implies was.insert(
        full,
        value,
    ).contains_key(k) && is[k] == was.insert(full, value)[k] by {
        let i = choose|i: int| 0 <= i < new.data.keys.len() && #[trigger] new.full_key(i) == k;
        if i != r {
            assert(k != full) by {
                keys::encoding_keeps_the_order(new, i, r);
                order::lemma_trichotomy(new.data.keys[i], new.data.keys[r]);
            }
            assert(node.full_key(if i < r { i } else { i - shift }) == k);
        }
    }
    assert forall|k: Seq<u8>| #[trigger] was.insert(full, value).contains_key(k) implies is.contains_key(
        k,
    ) by {
        if k == full {
            assert(new.full_key(r) == k);
        } else {
            let i = choose|i: int|
                0 <= i < node.data.keys.len() && #[trigger] node.full_key(i) == k;
            if i == r && shift == 0 {
                search::lemma_rank(node.data.keys, key);
            }
            assert(new.full_key(if i < r { i } else { i + shift }) == k);
        }
    }
    assert(is =~= was.insert(full, value));
}

/// Deleting a key takes it out of the map and leaves all other keys alone.
pub proof fn deleting_removes(node: NodeView, key: Seq<u8>)
    requires
        !node.data.is_index(),
        node.data.wf(),
    ensures
        node.del_leaf(key).data.wf(),
        node.del_leaf(key).as_map() == node.as_map().remove(node.prefix() + key),
{
    let new = node.del_leaf(key);
    let full = node.prefix() + key;
    let r = search::rank(node.data.keys, key) as int;
    search::lemma_rank(node.data.keys, key);
    assert(new.prefix() == node.prefix());
    map_holds_the_entries(node);
    let was = node.as_map();
    if !search::found(node.data.keys, key) {
        if was.contains_key(full) {
            let i = choose|i: int|
                0 <= i < node.data.keys.len() && #[trigger] node.full_key(i) == full;
            assert(node.full_key(i).skip(node.prefix().len() as int) =~= node.data.keys[i]);
            assert(full.skip(node.prefix().len() as int) =~= key);
            assert(node.data.keys[i] == key);
        }
        assert(was =~= was.remove(full));
    } else {
        assert forall|i: int, j: int| 0 <= i < j < new.data.keys.len() implies order::lt(
            #[trigger] new.data.keys[i],
            #[trigger] new.data.keys[j],
        ) by {
            let a = if i < r { i } else { i + 1 };
            let b = if j < r { j } else { j + 1 };
            assert(order::lt(node.data.keys[a], node.data.keys[b]));
        }
        map_holds_the_entries(new);
        let is = new.as_map();
        assert(node.full_key(r) == full);
        assert forall|k: Seq<u8>| #[trigger] is.contains_key(k) implies was.remove(full).contains_key(k)
            && is[k] == was[k] by {
            let i = choose|i: int| 0 <= i < new.data.keys.len() && #[trigger] new.full_key(i) == k;
            let a = if i < r { i } else { i + 1 };
            assert(node.full_key(a) == k);
            keys::encoding_keeps_the_order(node, a, r);
            order::lemma_trichotomy(node.data.keys[a], node.data.keys[r]);
        }
        assert forall|k: Seq<u8>| #[trigger] was.remove(full).contains_key(k) implies is.contains_key(
            k,
        ) by {
            let i = choose|i: int|
                0 <= i < node.data.keys.len() && #[trigger] node.full_key(i) == k;
            assert(i != r);
            let a = if i < r { i } else { i - 1 };
            assert(new.full_key(a) == k);
        }
        assert(is =~= was.remove(full));
    }
}

/// A leaf takes every key that it covers, and is still well formed with it.
pub proof fn covered_keys_can_be_set(node: NodeView, key: Seq<u8>, value: Seq<u8>)
    requires
        node.is_leaf(),
        node.covers(node.prefix() + key),
    ensures
        node.takes_key(key),
        node.set_leaf(key, value).is_leaf(),
{
    let new = node.set_leaf(key, value);
    keys::bounds_of_encoded_keys(node, key);
    setting_inserts(node, key, value);
    let r = search::rank(node.data.keys, key) as int;
    search::lemma_rank(node.data.keys, key);
    assert forall|i: int| 0 <= i < new.data.keys.len() implies new.covers(
        #[trigger] new.full_key(i),
    ) by {
        if search::found(node.data.keys, key) || i < r {
            assert(new.full_key(i) == node.full_key(i));
        } else if i > r {
            assert(new.full_key(i) == node.full_key(i - 1));
        }
    }
}

/// A leaf is still well formed when a key is gone.
pub proof fn deleting_keeps_the_leaf(node: NodeView, key: Seq<u8>)
    requires
        node.is_leaf(),
    ensures
        node.del_leaf(key).is_leaf(),
{
    let new = node.del_leaf(key);
    deleting_removes(node, key);
    let r = search::rank(node.data.keys, key) as int;
    search::lemma_rank(node.data.keys, key);
    assert forall|i: int| 0 <= i < new.data.keys.len() implies new.covers(
        #[trigger] new.full_key(i),
    ) by {
        if !search::found(node.data.keys, key) || i < r {
            assert(new.full_key(i) == node.full_key(i));
        } else {
            assert(new.full_key(i) == node.full_key(i + 1));
        }
    }
}

/// A read gives back what the last write to the same key wrote, and every other
/// key reads as before.
pub proof fn reads_see_writes(node: NodeView, key: Seq<u8>, value: Seq<u8>, read: Seq<u8>)
    requires
        node.is_leaf(),
        node.covers(node.prefix() + key),
        node.covers(read),
    ensures
        node.set_leaf(key, value).lookup(read) == if read == node.prefix() + key {
            Some(value)
        } else {
            node.lookup(read)
        },
{
    let new = node.set_leaf(key, value);
    covered_keys_can_be_set(node, key, value);
    setting_inserts(node, key, value);
    lookup_reads_the_map(node, read);
    lookup_reads_the_map(new, read);
}

/// A deleted key has no value, and every other key reads as before.
pub proof fn reads_see_deletes(node: NodeView, key: Seq<u8>, read: Seq<u8>)
    requires
        node.is_leaf(),
        node.covers(read),
    ensures
        node.del_leaf(key).lookup(read) == if read == node.prefix() + key {
            None
        } else {
            node.lookup(read)
        },
{
    let new = node.del_leaf(key);
    deleting_keeps_the_leaf(node, key);
    deleting_removes(node, key);
    lookup_reads_the_map(node, read);
    lookup_reads_the_map(new, read);
}

/// Of two writes to one key only the second counts.
pub proof fn the_last_write_counts(node: NodeView, key: Seq<u8>, first: Seq<u8>, second: Seq<u8>)
    requires
        !node.data.is_index(),
        node.data.wf(),
    ensures
        node.set_leaf(key, first).set_leaf(key, second) == node.set_leaf(key, second),
{
    let once = node.set_leaf(key, first);
    let r = search::rank(node.data.keys, key) as int;
    search::lemma_rank(node.data.keys, key);
    setting_inserts(node, key, first);
    assert(once.data.keys[r] == key);
    search::lemma_rank(once.data.keys, key);
    assert(once.set_leaf(key, second) =~= node.set_leaf(key, second));
}

/// Deleting a key undoes any write to it.
pub proof fn deleting_undoes_setting(node: NodeView, key: Seq<u8>, value: Seq<u8>)
    requires
        !node.data.is_index(),
        node.data.wf(),
    ensures
        node.set_leaf(key, value).del_leaf(key) == node.del_leaf(key),
{
    let once = node.set_leaf(key, value);
    let r = search::rank(node.data.keys, key) as int;
    search::lemma_rank(node.data.keys, key);
    setting_inserts(node, key, value);
    assert(once.data.keys[r] == key);
    search::lemma_rank(once.data.keys, key);
    assert(once.del_leaf(key) =~= node.del_leaf(key));
}

/// Deleting a key twice is deleting it once.
pub proof fn deleting_twice_is_deleting(node: NodeView, key: Seq<u8>)
    requires
        !node.data.is_index(),
        node.data.wf(),
    ensures
        node.del_leaf(key).del_leaf(key) == node.del_leaf(key),
{
    let once = node.del_leaf(key);
    search::lemma_rank(node.data.keys, key);
    deleting_removes(node, key);
    search::lemma_rank(once.data.keys, key);
    if search::found(once.data.keys, key) {
        let i = search::rank(once.data.keys, key) as int;
        let r = search::rank(node.data.keys, key) as int;
        let a = if i < r { i } else { i + 1 };
        assert(node.data.keys[a] == key);
    }
}

/// The node that a tree begins with is a well-formed leaf that covers every key
/// and holds none.
pub proof fn the_first_leaf_is_empty(node: NodeView, key: Seq<u8>)
    requires
        node.prefix_len == 0,
        node.lo == Seq::<u8>::empty(),
        node.hi == Seq::<u8>::empty(),
        !node.data.is_index(),
        node.data.keys.len() == 0,
        node.data.items.len() == 0,
    ensures
        node.is_leaf(),
        node.tight(),
        node.covers(key),
        node.lookup(key) is None,
        node.as_map() == Map::<Seq<u8>, Seq<u8>>::empty(),
{
    order::lemma_empty_first(key);
    order::lemma_shared(node.hi, node.lo);
    assert(node.as_map() =~= Map::empty());
}

} // verus!
