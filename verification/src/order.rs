//! Byte strings in lexicographic order, and what two of them share in front.

use vstd::prelude::*;

verus! {

/// How many bytes `a` and `b` have in common before they part or one ends.
pub open spec fn shared(a: Seq<u8>, b: Seq<u8>) -> nat
    decreases a.len(),
{
    if a.len() > 0 && b.len() > 0 && a[0] == b[0] {
        1 + shared(a.drop_first(), b.drop_first())
    } else {
        0
    }
}

/// `a` comes before `b`: where they part, `a` has ended or has the smaller byte.
pub open spec fn lt(a: Seq<u8>, b: Seq<u8>) -> bool {
    let n = shared(a, b) as int;
    n < b.len() && (n == a.len() || a[n] < b[n])
}

/// `a` comes before `b` or equals it.
pub open spec fn le(a: Seq<u8>, b: Seq<u8>) -> bool {
    !lt(b, a)
}

/// `key` lies below the bound `hi`, where the empty string bounds nothing.
pub open spec fn below(key: Seq<u8>, hi: Seq<u8>) -> bool {
    hi.len() == 0 || lt(key, hi)
}

/// `key` lies in the half-open range from `lo` to `hi`, an empty `hi` being no bound.
pub open spec fn in_range(key: Seq<u8>, lo: Seq<u8>, hi: Seq<u8>) -> bool {
    le(lo, key) && below(key, hi)
}

/// The keys ascend and none occurs twice.
pub open spec fn ascending(keys: Seq<Seq<u8>>) -> bool {
    forall|i: int, j: int| 0 <= i < j < keys.len() ==> lt(#[trigger] keys[i], #[trigger] keys[j])
}

/// `n` is where `a` and `b` part.
pub open spec fn parts_at(a: Seq<u8>, b: Seq<u8>, n: int) -> bool {
    &&& 0 <= n <= a.len()
    &&& n <= b.len()
    &&& forall|i: int| 0 <= i < n ==> #[trigger] a[i] == b[i]
    &&& n < a.len() && n < b.len() ==> a[n] != b[n]
}

/// Two strings part where `shared` says, and nowhere else.
pub proof fn lemma_shared(a: Seq<u8>, b: Seq<u8>)
    ensures
        parts_at(a, b, shared(a, b) as int),
    decreases a.len(),
{
    if a.len() > 0 && b.len() > 0 && a[0] == b[0] {
        let ta = a.drop_first();
        let tb = b.drop_first();
        lemma_shared(ta, tb);
        let n = shared(ta, tb) as int;
        assert forall|i: int| 0 <= i < n + 1 implies #[trigger] a[i] == b[i] by {
            if i > 0 {
                assert(ta[i - 1] == tb[i - 1]);
            }
        }
        if n + 1 < a.len() && n + 1 < b.len() {
            assert(ta[n] != tb[n]);
        }
    }
}

pub proof fn lemma_shared_unique(a: Seq<u8>, b: Seq<u8>, n: int)
    requires
        parts_at(a, b, n),
    ensures
        shared(a, b) == n,
{
    lemma_shared(a, b);
    let m = shared(a, b) as int;
    if m < n {
        assert(a[m] == b[m]);
    } else if n < m {
        assert(a[n] == b[n]);
    }
}

/// Sharing is symmetric.
pub proof fn lemma_shared_symmetric(a: Seq<u8>, b: Seq<u8>)
    ensures
        shared(a, b) == shared(b, a),
{
    lemma_shared(a, b);
    lemma_shared_unique(b, a, shared(a, b) as int);
}

/// Of two strings exactly one comes first, unless they are equal.
pub proof fn lemma_trichotomy(a: Seq<u8>, b: Seq<u8>)
    ensures
        lt(a, b) ==> !lt(b, a) && a != b,
        !lt(a, b) && !lt(b, a) ==> a == b,
{
    lemma_shared(a, b);
    lemma_shared_symmetric(a, b);
    if a == b {
        lemma_shared_unique(a, b, a.len() as int);
    }
    if !lt(a, b) && !lt(b, a) {
        assert(a =~= b);
    }
}

/// The order is transitive.
pub proof fn lemma_lt_transitive(a: Seq<u8>, b: Seq<u8>, c: Seq<u8>)
    requires
        lt(a, b),
        lt(b, c),
    ensures
        lt(a, c),
{
    lemma_shared(a, b);
    lemma_shared(b, c);
    let n = shared(a, b) as int;
    let m = shared(b, c) as int;
    let k = if n < m { n } else { m };
    assert forall|i: int| 0 <= i < k implies #[trigger] a[i] == c[i] by {
        assert(a[i] == b[i]);
        assert(b[i] == c[i]);
    }
    if n < m {
        assert(b[n] == c[n]);
    } else if m < n {
        assert(a[m] == b[m]);
    }
    lemma_shared_unique(a, c, k);
}

pub proof fn lemma_lt_le(a: Seq<u8>, b: Seq<u8>, c: Seq<u8>)
    requires
        lt(a, b),
        le(b, c),
    ensures
        lt(a, c),
{
    lemma_trichotomy(b, c);
    if lt(b, c) {
        lemma_lt_transitive(a, b, c);
    }
}

pub proof fn lemma_le_lt(a: Seq<u8>, b: Seq<u8>, c: Seq<u8>)
    requires
        le(a, b),
        lt(b, c),
    ensures
        lt(a, c),
{
    lemma_trichotomy(a, b);
    if lt(a, b) {
        lemma_lt_transitive(a, b, c);
    }
}

pub proof fn lemma_le_transitive(a: Seq<u8>, b: Seq<u8>, c: Seq<u8>)
    requires
        le(a, b),
        le(b, c),
    ensures
        le(a, c),
{
    lemma_trichotomy(a, c);
    if lt(c, a) {
        lemma_lt_le(c, a, b);
        lemma_trichotomy(b, c);
    }
}

/// Nothing comes before the empty string, and it comes before all others.
pub proof fn lemma_empty_first(a: Seq<u8>)
    ensures
        le(Seq::<u8>::empty(), a),
        a.len() > 0 ==> lt(Seq::<u8>::empty(), a),
{
    lemma_shared(a, Seq::<u8>::empty());
    lemma_shared(Seq::<u8>::empty(), a);
}

/// Putting the same bytes in front of two strings changes neither their order
/// nor what they share behind those bytes.
pub proof fn lemma_prepend(p: Seq<u8>, a: Seq<u8>, b: Seq<u8>)
    ensures
        shared(p + a, p + b) == p.len() + shared(a, b),
        lt(p + a, p + b) == lt(a, b),
        le(p + a, p + b) == le(a, b),
{
    lemma_prepend_shared(p, a, b);
    lemma_prepend_shared(p, b, a);
    lemma_shared(a, b);
    lemma_shared(b, a);
}

proof fn lemma_prepend_shared(p: Seq<u8>, a: Seq<u8>, b: Seq<u8>)
    ensures
        shared(p + a, p + b) == p.len() + shared(a, b),
{
    lemma_shared(a, b);
    let n = shared(a, b) as int;
    let pa = p + a;
    let pb = p + b;
    assert forall|i: int| 0 <= i < p.len() + n implies #[trigger] pa[i] == pb[i] by {
        if i >= p.len() {
            assert(a[i - p.len()] == b[i - p.len()]);
        }
    }
    lemma_shared_unique(pa, pb, p.len() + n);
}

/// A string between two bounds begins with all that the bounds share.
pub proof fn lemma_between(lo: Seq<u8>, key: Seq<u8>, hi: Seq<u8>)
    requires
        le(lo, key),
        lt(key, hi),
    ensures
        shared(lo, hi) <= key.len(),
        shared(lo, hi) <= lo.len(),
        shared(lo, hi) <= hi.len(),
        key.take(shared(lo, hi) as int) == lo.take(shared(lo, hi) as int),
        hi.take(shared(lo, hi) as int) == lo.take(shared(lo, hi) as int),
        shared(lo, hi) <= shared(lo, key),
        shared(lo, hi) <= shared(key, hi),
{
    let n = shared(lo, hi) as int;
    lemma_shared(lo, hi);
    lemma_shared(lo, key);
    lemma_shared_symmetric(lo, key);
    lemma_shared(key, hi);
    lemma_trichotomy(lo, key);
    let m = shared(lo, key) as int;
    let k = shared(key, hi) as int;
    if m < n {
        // they part before `n`, where `hi` still goes along with `lo`
        assert(lo[m] == hi[m]);
        assert(lt(lo, key) || lo == key);
        if lo == key {
            lemma_shared_unique(lo, key, lo.len() as int);
        }
        assert forall|i: int| 0 <= i < m implies #[trigger] key[i] == hi[i] by {
            assert(lo[i] == key[i]);
            assert(lo[i] == hi[i]);
        }
        lemma_shared_unique(key, hi, m);
    }
    assert(key.take(n) =~= lo.take(n));
    assert(hi.take(n) =~= lo.take(n));
    if k < n {
        assert(key.take(n)[k] == hi.take(n)[k]);
    }
}

/// The shortest beginning of `b` that still comes after `a` separates the two.
pub proof fn lemma_separator(a: Seq<u8>, b: Seq<u8>)
    requires
        lt(a, b),
    ensures
        shared(b, a) < b.len(),
        shared(b, a) == shared(a, b),
        lt(a, b.take(shared(b, a) as int + 1)),
        le(b.take(shared(b, a) as int + 1), b),
        forall|t: Seq<u8>| #[trigger] lt(a, t) && le(t, b) ==> t.len() > shared(a, b),
{
    lemma_shared(a, b);
    lemma_shared_symmetric(a, b);
    let n = shared(a, b) as int;
    let s = b.take(n + 1);
    assert forall|i: int| 0 <= i < n implies #[trigger] a[i] == s[i] by {
        assert(a[i] == b[i]);
    }
    lemma_shared_unique(a, s, n);
    lemma_shared_unique(b, s, n + 1);
    assert forall|t: Seq<u8>| #[trigger] lt(a, t) && le(t, b) implies t.len() > n by {
        lemma_trichotomy(a, t);
        lemma_trichotomy(t, b);
        if lt(t, b) {
            lemma_between(a, t, b);
            if t.len() == n {
                // a beginning of `a` does not come after `a`
                assert(t.take(n) =~= t);
                lemma_shared_at_least(a, t, n);
                lemma_shared(a, t);
            }
        }
    }
}

/// Strings that begin alike share at least that beginning.
pub proof fn lemma_shared_at_least(a: Seq<u8>, b: Seq<u8>, n: int)
    requires
        0 <= n <= a.len(),
        n <= b.len(),
        a.take(n) == b.take(n),
    ensures
        n <= shared(a, b),
{
    lemma_shared(a, b);
    let m = shared(a, b) as int;
    if m < n {
        assert(a[m] == a.take(n)[m]);
        assert(b[m] == b.take(n)[m]);
    }
}

/// What two strings share is the same bytes in both.
pub proof fn lemma_shared_take(a: Seq<u8>, b: Seq<u8>, n: int)
    requires
        0 <= n <= shared(a, b),
    ensures
        n <= a.len(),
        n <= b.len(),
        a.take(n) == b.take(n),
{
    lemma_shared(a, b);
    assert(a.take(n) =~= b.take(n));
}

/// Counts the bytes that `a` and `b` share in front.
pub fn shared_len(a: &[u8], b: &[u8]) -> (n: usize)
    ensures
        n == shared(a@, b@),
{
    let mut n: usize = 0;
    while n < a.len() && n < b.len() && a[n] == b[n]
        invariant
            n <= a.len(),
            n <= b.len(),
            forall|i: int| 0 <= i < n ==> #[trigger] a@[i] == b@[i],
        decreases a.len() - n,
    {
        n += 1;
    }
    proof {
        lemma_shared_unique(a@, b@, n as int);
    }
    n
}

/// How one byte string stands to another.
#[derive(Clone, Copy, Debug, PartialEq, Eq, Structural)]
pub enum Relation {
    Before,
    Same,
    After,
}

/// Compares two byte strings.
pub fn compare(a: &[u8], b: &[u8]) -> (r: Relation)
    ensures
        r == Relation::Before <==> lt(a@, b@),
        r == Relation::Same <==> a@ == b@,
        r == Relation::After <==> lt(b@, a@),
{
    let n: usize = shared_len(a, b);
    proof {
        lemma_shared(a@, b@);
        lemma_shared_symmetric(a@, b@);
        lemma_trichotomy(a@, b@);
    }
    if n < a.len() && n < b.len() {
        if a[n] < b[n] {
            Relation::Before
        } else {
            Relation::After
        }
    } else if a.len() < b.len() {
        Relation::Before
    } else if b.len() < a.len() {
        Relation::After
    } else {
        Relation::Same
    }
}

} // verus!
