//! Small general facts about `Seq::filter` and `Seq::map_values` that the
//! table proofs lean on.

use vstd::prelude::*;

verus! {

/// An element pushed at the end either survives the filter at the end or
/// vanishes, leaving the rest untouched.
pub proof fn lemma_filter_push<T>(s: Seq<T>, p: spec_fn(T) -> bool, x: T)
    ensures
        s.push(x).filter(p) == if p(x) {
            s.filter(p).push(x)
        } else {
            s.filter(p)
        },
{
    reveal(Seq::filter);
    assert(s.push(x).drop_last() =~= s);
}

/// Membership in a pushed sequence.
pub proof fn lemma_push_contains<T>(s: Seq<T>, e: T, x: T)
    ensures
        s.push(e).contains(x) <==> (s.contains(x) || x == e),
{
    assert(s.push(e)[s.len() as int] == e);
    if s.contains(x) {
        let i = choose|i: int| 0 <= i < s.len() && s[i] == x;
        assert(s.push(e)[i] == x);
    }
    if s.push(e).contains(x) && x != e {
        let i = choose|i: int| 0 <= i < s.push(e).len() && s.push(e)[i] == x;
        assert(0 <= i < s.len() && s[i] == x);
    }
}

/// A filter keeps a sequence it is wholly true on.
pub proof fn lemma_filter_all<T>(s: Seq<T>, p: spec_fn(T) -> bool)
    requires
        forall|i: int| 0 <= i < s.len() ==> p(#[trigger] s[i]),
    ensures
        s.filter(p) == s,
    decreases s.len(),
{
    reveal(Seq::filter);
    if s.len() > 0 {
        lemma_filter_all(s.drop_last(), p);
        assert(s.drop_last().push(s.last()) =~= s);
    }
}

/// A filter drops a sequence it is wholly false on.
pub proof fn lemma_filter_none<T>(s: Seq<T>, p: spec_fn(T) -> bool)
    requires
        forall|i: int| 0 <= i < s.len() ==> !p(#[trigger] s[i]),
    ensures
        s.filter(p) == Seq::<T>::empty(),
    decreases s.len(),
{
    reveal(Seq::filter);
    if s.len() > 0 {
        lemma_filter_none(s.drop_last(), p);
    }
}

/// Filtering by `q` ignores an earlier filter by a predicate that `q`
/// implies on every element.
pub proof fn lemma_filter_implied<T>(s: Seq<T>, p: spec_fn(T) -> bool, q: spec_fn(T) -> bool)
    requires
        forall|i: int| 0 <= i < s.len() && q(#[trigger] s[i]) ==> p(s[i]),
    ensures
        s.filter(p).filter(q) == s.filter(q),
    decreases s.len(),
{
    reveal(Seq::filter);
    if s.len() > 0 {
        let dl = s.drop_last();
        lemma_filter_implied(dl, p, q);
        if p(s.last()) {
            lemma_filter_push(dl.filter(p), q, s.last());
        }
    }
}

/// Every element of a filtered sequence stands somewhere in the original.
pub proof fn lemma_filter_index<T>(s: Seq<T>, p: spec_fn(T) -> bool, k: int)
    requires
        0 <= k < s.filter(p).len(),
    ensures
        exists|i: int| 0 <= i < s.len() && s[i] == s.filter(p)[k],
    decreases s.len(),
{
    reveal(Seq::filter);
    if s.len() > 0 {
        let dl = s.drop_last();
        let f = s.filter(p);
        if p(s.last()) && k == dl.filter(p).len() {
            assert(s[s.len() - 1] == f[k]);
        } else {
            lemma_filter_index(dl, p, k);
            let i = choose|i: int| 0 <= i < dl.len() && dl[i] == dl.filter(p)[k];
            assert(s[i] == f[k]);
        }
    }
}

/// Two elements of a filtered sequence stand at two positions of the
/// original, in the same relative order.
pub proof fn lemma_filter_pair<T>(s: Seq<T>, p: spec_fn(T) -> bool, k1: int, k2: int)
    requires
        0 <= k1 < k2 < s.filter(p).len(),
    ensures
        exists|i1: int, i2: int|
            0 <= i1 < i2 < s.len() && s[i1] == s.filter(p)[k1] && s[i2] == s.filter(p)[k2],
    decreases s.len(),
{
    reveal(Seq::filter);
    if s.len() > 0 {
        let dl = s.drop_last();
        let f = s.filter(p);
        if p(s.last()) && k2 == dl.filter(p).len() {
            lemma_filter_index(dl, p, k1);
            let i1 = choose|i: int| 0 <= i < dl.len() && dl[i] == dl.filter(p)[k1];
            assert(s[i1] == f[k1] && s[s.len() - 1] == f[k2]);
            assert(0 <= i1 < s.len() - 1 < s.len());
        } else {
            lemma_filter_pair(dl, p, k1, k2);
            let (i1, i2) = choose|i1: int, i2: int|
                0 <= i1 < i2 < dl.len() && dl[i1] == dl.filter(p)[k1] && dl[i2] == dl.filter(
                    p,
                )[k2];
            assert(s[i1] == f[k1] && s[i2] == f[k2]);
        }
    }
}

/// Filtering and mapping two pointwise-related sequences gives the same
/// result: the predicates agree position by position, and the map agrees
/// on every kept position.
pub proof fn lemma_filter_map_pointwise<T, U>(
    s1: Seq<T>,
    s2: Seq<T>,
    p1: spec_fn(T) -> bool,
    p2: spec_fn(T) -> bool,
    f: spec_fn(T) -> U,
)
    requires
        s1.len() == s2.len(),
        forall|k: int| 0 <= k < s1.len() ==> p2(#[trigger] s2[k]) == p1(#[trigger] s1[k]),
        forall|k: int| 0 <= k < s1.len() && p1(#[trigger] s1[k]) ==> f(#[trigger] s2[k]) == f(
            s1[k],
        ),
    ensures
        s2.filter(p2).map_values(f) == s1.filter(p1).map_values(f),
    decreases s1.len(),
{
    reveal(Seq::filter);
    if s1.len() > 0 {
        let d1 = s1.drop_last();
        let d2 = s2.drop_last();
        lemma_filter_map_pointwise(d1, d2, p1, p2, f);
        assert(forall|k: int| 0 <= k < d1.len() ==> #[trigger] d1[k] == s1[k]);
        assert(forall|k: int| 0 <= k < d2.len() ==> #[trigger] d2[k] == s2[k]);
        if p1(s1.last()) {
            assert(d2.filter(p2).push(s2.last()).map_values(f) =~= d2.filter(p2).map_values(
                f,
            ).push(f(s2.last())));
            assert(d1.filter(p1).push(s1.last()).map_values(f) =~= d1.filter(p1).map_values(
                f,
            ).push(f(s1.last())));
            assert(f(s2.last()) == f(s1.last()));
        }
    } else {
        assert(s1.filter(p1).map_values(f) =~= s2.filter(p2).map_values(f));
    }
}

} // verus!
