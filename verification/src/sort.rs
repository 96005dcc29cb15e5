//! Stable ordering of loaded records by creation block.
//!
//! `load` fetches live rows in `vid` order and then sorts them stably by
//! creation block, so the result is ordered by `(creation_block, vid)`.
//! The sort is specified here as an insertion sort: `place` puts one value
//! after every value with a key no greater than its own, and `ssort` folds
//! `place` over the sequence from the left.

use vstd::prelude::*;

use crate::model::{live_values, DsValue, TableModel};
use crate::seq_facts::{lemma_filter_push, lemma_push_contains};

verus! {

/// What `load` returns at block `b`: the live values, stably sorted by
/// creation block, hence ordered by `(creation_block, vid)`.
pub open spec fn load_spec(t: TableModel, b: i32) -> Seq<DsValue> {
    ssort(live_values(t, b))
}

/// The sort key of a loaded value: its creation block. Every loaded value
/// stems from a live row, whose creation block is present.
pub open spec fn value_key(d: DsValue) -> i32 {
    d.creation_block->0
}

/// All keys non-decreasing.
pub open spec fn sorted_by_creation(s: Seq<DsValue>) -> bool {
    forall|i: int, j: int|
        0 <= i <= j < s.len() ==> value_key(#[trigger] s[i]) <= value_key(#[trigger] s[j])
}

/// The subsequence of `s` with key exactly `c`, in the order of `s`.
pub open spec fn key_filter(s: Seq<DsValue>, c: i32) -> Seq<DsValue> {
    s.filter(|v: DsValue| value_key(v) == c)
}

/// Insert `d` behind every element whose key is at most `value_key(d)`.
pub open spec fn place(s: Seq<DsValue>, d: DsValue) -> Seq<DsValue>
    decreases s.len(),
{
    if s.len() == 0 {
        seq![d]
    } else if value_key(s.last()) <= value_key(d) {
        s.push(d)
    } else {
        place(s.drop_last(), d).push(s.last())
    }
}

/// Stable sort by key: fold `place` over `s` from the left.
pub open spec fn ssort(s: Seq<DsValue>) -> Seq<DsValue>
    decreases s.len(),
{
    if s.len() == 0 {
        Seq::empty()
    } else {
        place(ssort(s.drop_last()), s.last())
    }
}

pub proof fn lemma_place_contains(s: Seq<DsValue>, d: DsValue, x: DsValue)
    ensures
        place(s, d).contains(x) <==> (s.contains(x) || x == d),
    decreases s.len(),
{
    if s.len() == 0 {
        assert(place(s, d) =~= Seq::empty().push(d));
        lemma_push_contains(Seq::empty(), d, x);
    } else if value_key(s.last()) <= value_key(d) {
        lemma_push_contains(s, d, x);
    } else {
        lemma_place_contains(s.drop_last(), d, x);
        lemma_push_contains(place(s.drop_last(), d), s.last(), x);
        lemma_push_contains(s.drop_last(), s.last(), x);
        assert(s.drop_last().push(s.last()) =~= s);
    }
}

pub proof fn lemma_ssort_contains(s: Seq<DsValue>, x: DsValue)
    ensures
        ssort(s).contains(x) <==> s.contains(x),
    decreases s.len(),
{
    if s.len() > 0 {
        lemma_ssort_contains(s.drop_last(), x);
        lemma_place_contains(ssort(s.drop_last()), s.last(), x);
        lemma_push_contains(s.drop_last(), s.last(), x);
        assert(s.drop_last().push(s.last()) =~= s);
    }
}

/// Every key of `place(s, d)` is bounded by a bound on the keys of `s`
/// and of `d`.
pub proof fn lemma_place_key_bound(s: Seq<DsValue>, d: DsValue, bound: i32)
    requires
        forall|i: int| 0 <= i < s.len() ==> value_key(#[trigger] s[i]) <= bound,
        value_key(d) <= bound,
    ensures
        forall|i: int| 0 <= i < place(s, d).len() ==> value_key(#[trigger] place(s, d)[i])
            <= bound,
{
    let p = place(s, d);
    assert forall|i: int| 0 <= i < p.len() implies value_key(#[trigger] p[i]) <= bound by {
        assert(p.contains(p[i]));
        lemma_place_contains(s, d, p[i]);
        if s.contains(p[i]) {
            let k = choose|k: int| 0 <= k < s.len() && s[k] == p[i];
            assert(value_key(s[k]) <= bound);
        }
    }
}

pub proof fn lemma_place_sorted(s: Seq<DsValue>, d: DsValue)
    requires
        sorted_by_creation(s),
    ensures
        sorted_by_creation(place(s, d)),
    decreases s.len(),
{
    if s.len() == 0 {
    } else if value_key(s.last()) <= value_key(d) {
        assert forall|i: int, j: int| 0 <= i <= j < s.push(d).len() implies value_key(
            #[trigger] s.push(d)[i],
        ) <= value_key(#[trigger] s.push(d)[j]) by {
            if j < s.len() {
                assert(value_key(s[i]) <= value_key(s[j]));
            } else if i < s.len() {
                assert(value_key(s[i]) <= value_key(s.last()));
            }
        }
    } else {
        let dl = s.drop_last();
        assert(forall|i: int| 0 <= i < dl.len() ==> #[trigger] dl[i] == s[i]);
        lemma_place_sorted(dl, d);
        let p = place(dl, d);
        lemma_place_key_bound(dl, d, value_key(s.last()));
        assert forall|i: int, j: int| 0 <= i <= j < p.push(s.last()).len() implies value_key(
            #[trigger] p.push(s.last())[i],
        ) <= value_key(#[trigger] p.push(s.last())[j]) by {
            if j < p.len() {
                assert(value_key(p[i]) <= value_key(p[j]));
            } else if i < p.len() {
                assert(value_key(p[i]) <= value_key(s.last()));
            }
        }
    }
}

pub proof fn lemma_ssort_sorted(s: Seq<DsValue>)
    ensures
        sorted_by_creation(ssort(s)),
    decreases s.len(),
{
    if s.len() > 0 {
        lemma_ssort_sorted(s.drop_last());
        lemma_place_sorted(ssort(s.drop_last()), s.last());
    }
}

/// `place` is stable: within one key, the order of `s` is kept and `d`
/// comes last.
pub proof fn lemma_place_key_filter(s: Seq<DsValue>, d: DsValue, c: i32)
    ensures
        key_filter(place(s, d), c) == if value_key(d) == c {
            key_filter(s, c).push(d)
        } else {
            key_filter(s, c)
        },
    decreases s.len(),
{
    let p = |v: DsValue| value_key(v) == c;
    if s.len() == 0 {
        assert(place(s, d) =~= Seq::empty().push(d));
        lemma_filter_push(Seq::empty(), p, d);
        assert(Seq::<DsValue>::empty().filter(p) =~= s.filter(p));
    } else if value_key(s.last()) <= value_key(d) {
        lemma_filter_push(s, p, d);
    } else {
        let dl = s.drop_last();
        lemma_place_key_filter(dl, d, c);
        lemma_filter_push(place(dl, d), p, s.last());
        lemma_filter_push(dl, p, s.last());
        assert(dl.push(s.last()) =~= s);
    }
}

/// The sort is stable: within one key, `ssort` keeps the order of `s`.
pub proof fn lemma_ssort_stable(s: Seq<DsValue>, c: i32)
    ensures
        key_filter(ssort(s), c) == key_filter(s, c),
    decreases s.len(),
{
    let p = |v: DsValue| value_key(v) == c;
    if s.len() > 0 {
        let dl = s.drop_last();
        lemma_ssort_stable(dl, c);
        lemma_place_key_filter(ssort(dl), s.last(), c);
        lemma_filter_push(dl, p, s.last());
        assert(dl.push(s.last()) =~= s);
    }
}

/// Where the keys at and after position `j` all exceed `value_key(d)` and
/// the key just before `j` does not, `place` is insertion at `j`.
pub proof fn lemma_place_insert_at(s: Seq<DsValue>, d: DsValue, j: int)
    requires
        0 <= j <= s.len(),
        forall|m: int| j <= m < s.len() ==> value_key(#[trigger] s[m]) > value_key(d),
        j > 0 ==> value_key(s[j - 1]) <= value_key(d),
    ensures
        place(s, d) == s.insert(j, d),
    decreases s.len(),
{
    if j == s.len() {
        if s.len() == 0 {
            assert(place(s, d) =~= s.insert(j, d));
        } else {
            assert(value_key(s.last()) <= value_key(d));
            assert(s.push(d) =~= s.insert(j, d));
        }
    } else {
        assert(value_key(s[s.len() - 1]) > value_key(d));
        let dl = s.drop_last();
        assert(forall|m: int| 0 <= m < dl.len() ==> #[trigger] dl[m] == s[m]);
        lemma_place_insert_at(dl, d, j);
        assert(dl.insert(j, d).push(s.last()) =~= s.insert(j, d));
    }
}

} // verus!
