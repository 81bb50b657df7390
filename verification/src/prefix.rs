//! Keys with the bytes that all keys of a node share left out.

use vstd::prelude::*;

use crate::ivec::IVec;

verus! {

/// What is left of the key that `prefix` and `encoded` make up when its first
/// `n` bytes are left out; nothing, when it has fewer.
pub open spec fn recoded(prefix: Seq<u8>, encoded: Seq<u8>, n: nat) -> Seq<u8> {
    let key = prefix + encoded;
    if n <= key.len() {
        key.skip(n as int)
    } else {
        Seq::empty()
    }
}

/// Every key recoded.
pub open spec fn recoded_all(prefix: Seq<u8>, keys: Seq<Seq<u8>>, n: nat) -> Seq<Seq<u8>> {
    keys.map_values(|k: Seq<u8>| recoded(prefix, k, n))
}

/// Puts the prefix back in front of an encoded key.
pub fn decode(old_prefix: &[u8], old_encoded_key: &[u8]) -> (r: IVec)
    ensures
        r@ == old_prefix@ + old_encoded_key@,
{
    let mut key: Vec<u8> = Vec::new();
    key.extend_from_slice(old_prefix);
    key.extend_from_slice(old_encoded_key);
    assert(key@ =~= old_prefix@ + old_encoded_key@);
    IVec(key)
}

/// Encodes a key anew for a prefix of another length: bytes move between the
/// prefix and the key.
pub fn reencode(old_prefix: &[u8], old_encoded_key: &IVec, new_prefix_length: usize) -> (r: IVec)
    ensures
        r@ == recoded(old_prefix@, old_encoded_key@, new_prefix_length as nat),
{
    let key: IVec = decode(old_prefix, old_encoded_key.as_slice());
    if new_prefix_length <= key.len() {
        IVec::copy_of(key.behind(new_prefix_length))
    } else {
        IVec::new()
    }
}

/// What was left out can be put back: a key that begins with the first `n`
/// bytes of the new prefix is made up of those and of its recoding.
pub proof fn lemma_recoded_decodes(prefix: Seq<u8>, encoded: Seq<u8>, new_prefix: Seq<u8>)
    requires
        new_prefix.is_prefix_of(prefix + encoded),
    ensures
        new_prefix + recoded(prefix, encoded, new_prefix.len()) == prefix + encoded,
{
    let key = prefix + encoded;
    assert(new_prefix + key.skip(new_prefix.len() as int) =~= key);
}

/// A recoding for the length of the prefix at hand changes nothing.
pub proof fn lemma_recoded_same(prefix: Seq<u8>, encoded: Seq<u8>)
    ensures
        recoded(prefix, encoded, prefix.len()) == encoded,
{
    assert((prefix + encoded).skip(prefix.len() as int) =~= encoded);
}

} // verus!
