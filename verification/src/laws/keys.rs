//! Keys as a node encodes them.

use vstd::prelude::*;

use crate::model;
use crate::model::{DataView, NodeView};
use crate::order;
use crate::prefix;

verus! {

/// Every key that a node covers begins with the node's prefix, so that it can
/// be encoded, and encoding loses nothing.
pub proof fn covered_keys_have_the_prefix(node: NodeView, key: Seq<u8>)
    requires
        node.prefix_len <= model::fitted(node.hi, node.lo),
        node.covers(key),
    ensures
        node.prefix_len <= key.len(),
        node.prefix_len <= node.lo.len(),
        key == node.prefix() + key.skip(node.prefix_len as int),
{
    let n = node.prefix_len as int;
    order::lemma_shared(node.hi, node.lo);
    order::lemma_shared_symmetric(node.hi, node.lo);
    if node.hi.len() > 0 {
        order::lemma_between(node.lo, key, node.hi);
        let m = order::shared(node.lo, node.hi) as int;
        assert(key.take(n) =~= key.take(m).take(n));
        assert(node.lo.take(n) =~= node.lo.take(m).take(n));
    }
    assert(key.take(n) =~= node.prefix());
    assert(key =~= key.take(n) + key.skip(n));
}

/// A node's encoded keys are in the order of the whole keys.
pub proof fn encoding_keeps_the_order(node: NodeView, i: int, j: int)
    ensures
        order::lt(node.full_key(i), node.full_key(j)) <==> order::lt(
            node.data.keys[i],
            node.data.keys[j],
        ),
        node.full_key(i) == node.full_key(j) <==> node.data.keys[i] == node.data.keys[j],
{
    let p = node.prefix();
    order::lemma_prepend(p, node.data.keys[i], node.data.keys[j]);
    if node.full_key(i) == node.full_key(j) {
        assert(node.full_key(i).skip(p.len() as int) =~= node.data.keys[i]);
        assert(node.full_key(j).skip(p.len() as int) =~= node.data.keys[j]);
    }
}

/// The bound that an encoded key is held against, and the bound of whole keys,
/// are the same.
pub proof fn bounds_of_encoded_keys(node: NodeView, key: Seq<u8>)
    requires
        node.prefix_len <= model::fitted(node.hi, node.lo),
    ensures
        node.prefix_len <= node.lo.len(),
        node.prefix_len <= node.hi.len(),
        order::le(node.lo, node.prefix() + key) <==> order::le(
            node.lo.skip(node.prefix_len as int),
            key,
        ),
        order::lt(node.prefix() + key, node.hi) <==> order::lt(
            key,
            node.hi.skip(node.prefix_len as int),
        ),
{
    let n = node.prefix_len as int;
    order::lemma_shared(node.hi, node.lo);
    assert(node.hi.take(n) =~= node.prefix());
    assert(node.lo =~= node.prefix() + node.lo.skip(n));
    assert(node.hi =~= node.prefix() + node.hi.skip(n));
    order::lemma_prepend(node.prefix(), node.lo.skip(n), key);
    order::lemma_prepend(node.prefix(), key, node.lo.skip(n));
    order::lemma_prepend(node.prefix(), key, node.hi.skip(n));
}

/// Entries encoded anew for a prefix that all their whole keys begin with are
/// the same entries, in the same order.
pub proof fn recoding_keeps_the_entries(
    data: DataView,
    old_prefix: Seq<u8>,
    new_prefix: Seq<u8>,
)
    requires
        forall|i: int|
            0 <= i < data.keys.len() ==> new_prefix.is_prefix_of(
                old_prefix + #[trigger] data.keys[i],
            ),
    ensures
        data.recoded(old_prefix, new_prefix.len()).keys.len() == data.keys.len(),
        data.recoded(old_prefix, new_prefix.len()).items == data.items,
        forall|i: int|
            0 <= i < data.keys.len() ==> new_prefix + #[trigger] data.recoded(
                old_prefix,
                new_prefix.len(),
            ).keys[i] == old_prefix + data.keys[i],
        order::ascending(data.keys) ==> order::ascending(
            data.recoded(old_prefix, new_prefix.len()).keys,
        ),
{
    let new = data.recoded(old_prefix, new_prefix.len());
    assert forall|i: int| 0 <= i < data.keys.len() implies new_prefix + #[trigger] new.keys[i]
        == old_prefix + data.keys[i] by {
        assert(new_prefix.is_prefix_of(old_prefix + data.keys[i]));
        prefix::lemma_recoded_decodes(old_prefix, data.keys[i], new_prefix);
    }
    if order::ascending(data.keys) {
        assert forall|i: int, j: int| 0 <= i < j < new.keys.len() implies order::lt(
            #[trigger] new.keys[i],
            #[trigger] new.keys[j],
        ) by {
            assert(order::lt(data.keys[i], data.keys[j]));
            order::lemma_prepend(old_prefix, data.keys[i], data.keys[j]);
            order::lemma_prepend(new_prefix, new.keys[i], new.keys[j]);
            assert(new_prefix + new.keys[i] == old_prefix + data.keys[i]);
            assert(new_prefix + new.keys[j] == old_prefix + data.keys[j]);
        }
    }
}

} // verus!
