//! Lexicographic order on sequences, over any order on their items.

use vstd::prelude::*;

verus! {

/// `a` and `b` agree on their first `k` items.
pub open spec fn common_prefix<T>(a: Seq<T>, b: Seq<T>, k: int) -> bool {
    &&& 0 <= k <= a.len()
    &&& k <= b.len()
    &&& forall|i: int| 0 <= i < k ==> a[i] == b[i]
}

/// `a` comes before `b`, and `k` is where they first differ: `a` ends there
/// and `b` goes on, or the item of `a` is less than the item of `b`.
pub open spec fn differs_at<T>(a: Seq<T>, b: Seq<T>, less: spec_fn(T, T) -> bool, k: int) -> bool {
    &&& common_prefix(a, b, k)
    &&& k < b.len()
    &&& k == a.len() || less(a[k], b[k])
}

/// `a` comes before `b` in the lexicographic order over `less`.
pub open spec fn lex_less<T>(a: Seq<T>, b: Seq<T>, less: spec_fn(T, T) -> bool) -> bool {
    exists|k: int| differs_at(a, b, less, k)
}

/// No item is less than itself.
pub open spec fn irreflexive<T>(less: spec_fn(T, T) -> bool) -> bool {
    forall|x: T| !#[trigger] less(x, x)
}

/// Less than less is less.
pub open spec fn transitive<T>(less: spec_fn(T, T) -> bool) -> bool {
    forall|x: T, y: T, z: T| #[trigger] less(x, y) && #[trigger] less(y, z) ==> less(x, z)
}

/// Of two different items one is less than the other.
pub open spec fn connected<T>(less: spec_fn(T, T) -> bool) -> bool {
    forall|x: T, y: T| !#[trigger] less(x, y) && !less(y, x) ==> x == y
}

/// No sequence comes before itself.
pub proof fn lemma_lex_irreflexive<T>(a: Seq<T>, less: spec_fn(T, T) -> bool)
    requires
        irreflexive(less),
    ensures
        !lex_less(a, a, less),
{
    assert forall|k: int| !differs_at(a, a, less, k) by {
        if 0 <= k < a.len() {
            assert(!less(a[k], a[k]));
        }
    }
}

/// Before of before is before.
pub proof fn lemma_lex_transitive<T>(a: Seq<T>, b: Seq<T>, c: Seq<T>, less: spec_fn(T, T) -> bool)
    requires
        transitive(less),
        lex_less(a, b, less),
        lex_less(b, c, less),
    ensures
        lex_less(a, c, less),
{
    let i = choose|k: int| differs_at(a, b, less, k);
    let j = choose|k: int| differs_at(b, c, less, k);
    if i < j {
        assert(b[i] == c[i]);
        assert(differs_at(a, c, less, i));
    } else if j < i {
        assert(a[j] == b[j]);
        assert(differs_at(a, c, less, j));
    } else {
        if i < a.len() {
            assert(less(a[i], b[i]) && less(b[i], c[i]));
        }
        assert(differs_at(a, c, less, i));
    }
}

/// Two sequences of which neither comes before the other agree up to `k`,
/// for every `k` within both.
proof fn lemma_lex_agree<T>(a: Seq<T>, b: Seq<T>, less: spec_fn(T, T) -> bool, k: int)
    requires
        connected(less),
        !lex_less(a, b, less),
        !lex_less(b, a, less),
        0 <= k <= a.len(),
        k <= b.len(),
    ensures
        common_prefix(a, b, k),
    decreases k,
{
    if k > 0 {
        lemma_lex_agree(a, b, less, k - 1);
        let i = k - 1;
        assert(common_prefix(b, a, i));
        if less(a[i], b[i]) {
            assert(differs_at(a, b, less, i));
        }
        if less(b[i], a[i]) {
            assert(differs_at(b, a, less, i));
        }
        assert(a[i] == b[i]);
    }
}

/// Of two different sequences one comes before the other.
pub proof fn lemma_lex_connected<T>(a: Seq<T>, b: Seq<T>, less: spec_fn(T, T) -> bool)
    requires
        connected(less),
        !lex_less(a, b, less),
        !lex_less(b, a, less),
    ensures
        a == b,
{
    if a.len() <= b.len() {
        lemma_lex_agree(a, b, less, a.len() as int);
        if a.len() < b.len() {
            assert(differs_at(a, b, less, a.len() as int));
        }
    } else {
        lemma_lex_agree(a, b, less, b.len() as int);
        assert(common_prefix(b, a, b.len() as int));
        assert(differs_at(b, a, less, b.len() as int));
    }
    assert(a =~= b);
}

} // verus!
