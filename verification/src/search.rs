//! Searching sorted keys.

use vstd::prelude::*;

use crate::ivec;
use crate::ivec::IVec;
use crate::order;
use crate::order::Relation;

verus! {

/// How many keys in front come before `key`: where it stands, or would stand.
pub open spec fn rank(keys: Seq<Seq<u8>>, key: Seq<u8>) -> nat
    decreases keys.len(),
{
    if keys.len() > 0 && order::lt(keys[0], key) {
        1 + rank(keys.drop_first(), key)
    } else {
        0
    }
}

/// `key` is among the sorted `keys`, at its rank.
pub open spec fn found(keys: Seq<Seq<u8>>, key: Seq<u8>) -> bool {
    rank(keys, key) < keys.len() && keys[rank(keys, key) as int] == key
}

/// Among ascending keys all before the rank are smaller, and from it on none is.
pub proof fn lemma_rank(keys: Seq<Seq<u8>>, key: Seq<u8>)
    requires
        order::ascending(keys),
    ensures
        rank(keys, key) <= keys.len(),
        forall|i: int| 0 <= i < rank(keys, key) ==> order::lt(#[trigger] keys[i], key),
        forall|i: int| rank(keys, key) <= i < keys.len() ==> order::le(key, #[trigger] keys[i]),
        forall|i: int|
            rank(keys, key) <= i < keys.len() && keys[i] != key ==> order::lt(
                key,
                #[trigger] keys[i],
            ),
        found(keys, key) <==> keys.contains(key),
        forall|i: int| 0 <= i < keys.len() && #[trigger] keys[i] == key ==> i == rank(keys, key),
    decreases keys.len(),
{
    if keys.len() > 0 && order::lt(keys[0], key) {
        let rest = keys.drop_first();
        assert(forall|i: int| 0 <= i < rest.len() ==> #[trigger] rest[i] == keys[i + 1]);
        assert(order::ascending(rest));
        lemma_rank(rest, key);
        let n = rank(rest, key) as int;
        assert forall|i: int| 0 <= i < n + 1 implies order::lt(#[trigger] keys[i], key) by {
            if i > 0 {
                assert(order::lt(rest[i - 1], key));
            }
        }
        assert forall|i: int| n + 1 <= i < keys.len() implies order::le(key, #[trigger] keys[i]) by {
            assert(order::le(key, rest[i - 1]));
        }
    } else if keys.len() > 0 {
        assert forall|i: int| 0 <= i < keys.len() implies order::le(key, #[trigger] keys[i]) by {
            if i > 0 {
                assert(order::lt(keys[0], keys[i]));
                order::lemma_trichotomy(keys[0], keys[i]);
                order::lemma_le_transitive(key, keys[0], keys[i]);
            }
        }
    }
    let n = rank(keys, key) as int;
    assert forall|i: int|
        n <= i < keys.len() && keys[i] != key implies order::lt(key, #[trigger] keys[i]) by {
        order::lemma_trichotomy(key, keys[i]);
    }
    assert forall|i: int| 0 <= i < keys.len() && #[trigger] keys[i] == key implies i == n by {
        order::lemma_trichotomy(key, key);
        if n < i {
            assert(order::lt(keys[n], keys[i]));
        }
    }
    if keys.contains(key) {
        let i = choose|i: int| 0 <= i < keys.len() && keys[i] == key;
        assert(keys[i] == key);
    }
}

/// Only one place divides the keys into smaller ones and others.
pub proof fn lemma_rank_unique(keys: Seq<Seq<u8>>, key: Seq<u8>, n: int)
    requires
        0 <= n <= keys.len(),
        forall|i: int| 0 <= i < n ==> order::lt(#[trigger] keys[i], key),
        n < keys.len() ==> order::le(key, keys[n]),
    ensures
        rank(keys, key) == n,
    decreases keys.len(),
{
    if n > 0 {
        let rest = keys.drop_first();
        assert(order::lt(keys[0], key));
        assert forall|i: int| 0 <= i < n - 1 implies order::lt(#[trigger] rest[i], key) by {
            assert(rest[i] == keys[i + 1]);
        }
        lemma_rank_unique(rest, key, n - 1);
    }
}

/// Binary search: where the key is, or else where it would go.
pub fn search(keys: &Vec<IVec>, key: &[u8]) -> (r: Result<usize, usize>)
    requires
        order::ascending(ivec::contents(keys@)),
    ensures
        match r {
            Ok(i) => i == rank(ivec::contents(keys@), key@) && found(ivec::contents(keys@), key@),
            Err(i) => i == rank(ivec::contents(keys@), key@) && !found(ivec::contents(keys@), key@),
        },
{
    let ghost all = ivec::contents(keys@);
    let mut low: usize = 0;
    let mut high: usize = keys.len();
    proof {
        lemma_rank(all, key@);
    }
    while low < high
        invariant
            low <= high <= keys.len(),
            all == ivec::contents(keys@),
            order::ascending(all),
            forall|i: int| 0 <= i < low ==> order::lt(#[trigger] all[i], key@),
            forall|i: int| high <= i < all.len() ==> order::lt(key@, #[trigger] all[i]),
        decreases high - low,
    {
        let mid: usize = low + (high - low) / 2;
        match order::compare(keys[mid].as_slice(), key) {
            Relation::Before => {
                assert forall|i: int| 0 <= i < mid + 1 implies order::lt(
                    #[trigger] all[i],
                    key@,
                ) by {
                    assert(order::lt(all[mid as int], key@));
                    if i < mid {
                        order::lemma_lt_transitive(all[i], all[mid as int], key@);
                    }
                }
                low = mid + 1;
            },
            Relation::After => {
                assert forall|i: int| mid <= i < all.len() implies order::lt(
                    key@,
                    #[trigger] all[i],
                ) by {
                    assert(order::lt(key@, all[mid as int]));
                    if i > mid {
                        order::lemma_lt_transitive(key@, all[mid as int], all[i]);
                    }
                }
                high = mid;
            },
            Relation::Same => {
                proof {
                    lemma_rank(all, key@);
                    assert(all[mid as int] == key@);
                }
                return Ok(mid);
            },
        }
    }
    proof {
        if low < all.len() {
            order::lemma_trichotomy(key@, all[low as int]);
        }
        lemma_rank_unique(all, key@, low as int);
    }
    Err(low)
}

/// The last of the sorted keys that is not above `key`, where there is one.
pub fn binary_search_lub(key: &[u8], keys: &Vec<IVec>) -> (r: Option<usize>)
    requires
        order::ascending(ivec::contents(keys@)),
    ensures
        match r {
            Some(i) => {
                &&& i < keys.len()
                &&& order::le(keys@[i as int]@, key@)
                &&& i + 1 < keys.len() ==> order::lt(key@, keys@[i + 1]@)
            },
            None => keys.len() > 0 ==> order::lt(key@, keys@[0]@),
        },
{
    proof {
        lemma_rank(ivec::contents(keys@), key@);
    }
    let ghost all = ivec::contents(keys@);
    assert(forall|i: int| 0 <= i < all.len() ==> #[trigger] all[i] == keys@[i]@);
    match search(keys, key) {
        Ok(i) => {
            proof {
                order::lemma_trichotomy(key@, key@);
                if i + 1 < all.len() {
                    assert(order::lt(all[i as int], all[i + 1]));
                }
            }
            Some(i)
        },
        Err(i) => {
            if i == 0 {
                None
            } else {
                proof {
                    order::lemma_trichotomy(all[i - 1], key@);
                }
                Some(i - 1)
            }
        },
    }
}

} // verus!
