//! Sequences: the elements of a sequence without repetition, and facts about
//! filtering.

use vstd::prelude::*;

verus! {

/// The elements of `s`, each once, in the order in which they first occur.
pub open spec fn distinct<T>(s: Seq<T>) -> Seq<T>
    decreases s.len(),
{
    if s.len() == 0 {
        Seq::empty()
    } else {
        let before = distinct(s.drop_last());
        if before.contains(s.last()) {
            before
        } else {
            before.push(s.last())
        }
    }
}

/// `distinct(s)` holds exactly the elements of `s`.
pub proof fn lemma_distinct_contains<T>(s: Seq<T>, x: T)
    ensures
        distinct(s).contains(x) <==> s.contains(x),
    decreases s.len(),
{
    if s.len() > 0 {
        let d = distinct(s);
        let rest = s.drop_last();
        let before = distinct(rest);
        lemma_distinct_contains(rest, x);
        if d.contains(x) {
            let i = choose|i: int| 0 <= i < d.len() && d[i] == x;
            if i < before.len() {
                assert(before[i] == x);
                assert(before.contains(x));
                let j = choose|j: int| 0 <= j < rest.len() && rest[j] == x;
                assert(s[j] == x);
            } else {
                assert(s[s.len() - 1] == x);
            }
        }
        if s.contains(x) {
            let i = choose|i: int| 0 <= i < s.len() && s[i] == x;
            if i < s.len() - 1 {
                assert(rest[i] == x);
                assert(rest.contains(x));
            }
            if before.contains(x) {
                let k = choose|k: int| 0 <= k < before.len() && before[k] == x;
                assert(d[k] == x);
            } else {
                assert(x == s.last());
                assert(d[before.len() as int] == x);
            }
        }
    }
}

/// `distinct(s)` holds no element twice.
pub proof fn lemma_distinct_no_duplicates<T>(s: Seq<T>)
    ensures
        distinct(s).no_duplicates(),
    decreases s.len(),
{
    if s.len() > 0 {
        lemma_distinct_no_duplicates(s.drop_last());
    }
}

/// What one more element at the end does to `distinct`.
pub proof fn lemma_distinct_push<T>(s: Seq<T>, x: T)
    ensures
        distinct(s.push(x)) == if distinct(s).contains(x) {
            distinct(s)
        } else {
            distinct(s).push(x)
        },
{
    assert(s.push(x).drop_last() =~= s);
}

/// The index at which `x` first occurs in `s`, or the length of `s` where it
/// does not occur.
pub open spec fn first_index<T>(s: Seq<T>, x: T) -> int
    decreases s.len(),
{
    if s.len() == 0 {
        0
    } else {
        let before = first_index(s.drop_last(), x);
        if before < s.len() - 1 {
            before
        } else if s.last() == x {
            s.len() - 1
        } else {
            s.len() as int
        }
    }
}

/// `first_index` finds the first occurrence, if there is one.
pub proof fn lemma_first_index<T>(s: Seq<T>, x: T)
    ensures
        0 <= first_index(s, x) <= s.len(),
        first_index(s, x) < s.len() <==> s.contains(x),
        first_index(s, x) < s.len() ==> s[first_index(s, x)] == x,
        forall|k: int| 0 <= k < first_index(s, x) ==> s[k] != x,
    decreases s.len(),
{
    if s.len() > 0 {
        lemma_first_index(s.drop_last(), x);
        let before = first_index(s.drop_last(), x);
        if before < s.len() - 1 {
            assert(s[before] == s.drop_last()[before]);
        }
        if s.contains(x) && first_index(s, x) >= s.len() {
            let i = choose|i: int| 0 <= i < s.len() && s[i] == x;
            assert(s.drop_last()[i] == x);
        }
        assert forall|k: int| 0 <= k < first_index(s, x) implies s[k] != x by {
            if k < s.len() - 1 {
                assert(s.drop_last()[k] == s[k]);
            }
        }
    }
}

/// The elements of `distinct(s)` stand in the order of their first
/// occurrences in `s`.
pub proof fn lemma_distinct_keeps_order<T>(s: Seq<T>, i: int, j: int)
    requires
        0 <= i < j < distinct(s).len(),
    ensures
        first_index(s, distinct(s)[i]) < first_index(s, distinct(s)[j]) < s.len(),
    decreases s.len(),
{
    let d = distinct(s);
    let rest = s.drop_last();
    let before = distinct(rest);
    lemma_first_index(rest, d[i]);
    lemma_first_index(rest, d[j]);
    lemma_distinct_contains(rest, d[i]);
    lemma_distinct_contains(rest, d[j]);
    assert(before[i] == d[i]);
    assert(before.contains(d[i]));
    if j < before.len() {
        assert(before[j] == d[j]);
        assert(before.contains(d[j]));
        lemma_distinct_keeps_order(rest, i, j);
    }
}

/// Filtering by a condition and then by a stronger one is filtering by the
/// stronger one.
pub proof fn lemma_filter_refines<T>(s: Seq<T>, wide: spec_fn(T) -> bool, narrow: spec_fn(T) -> bool)
    requires
        forall|x: T| #[trigger] narrow(x) ==> wide(x),
    ensures
        s.filter(wide).filter(narrow) == s.filter(narrow),
    decreases s.len(),
{
    reveal(Seq::filter);
    if s.len() > 0 {
        lemma_filter_refines(s.drop_last(), wide, narrow);
        if wide(s.last()) {
            Seq::lemma_filter_push(s.drop_last().filter(wide), s.last(), narrow);
        }
    }
}

/// What one more element at the end of a prefix does to a filter.
pub proof fn lemma_filter_take_step<T>(s: Seq<T>, keep: spec_fn(T) -> bool, i: int)
    requires
        0 <= i < s.len(),
    ensures
        s.take(i + 1).filter(keep) == if keep(s[i]) {
            s.take(i).filter(keep).push(s[i])
        } else {
            s.take(i).filter(keep)
        },
{
    assert(s.take(i + 1) =~= s.take(i).push(s[i]));
    Seq::lemma_filter_push(s.take(i), s[i], keep);
}

/// Every element of a filtered sequence is an element of the sequence and
/// meets the condition.
pub proof fn lemma_filter_member<T>(s: Seq<T>, keep: spec_fn(T) -> bool, i: int)
    requires
        0 <= i < s.filter(keep).len(),
    ensures
        keep(s.filter(keep)[i]),
        s.contains(s.filter(keep)[i]),
{
    Seq::lemma_filter_pred(s, keep, i);
    assert(s.filter(keep).contains(s.filter(keep)[i]));
    Seq::lemma_filter_contains_rev(s, keep, s.filter(keep)[i]);
}

/// The positions of `s` at which `f` gives a value, in increasing order.
pub open spec fn kept_positions<A, B>(s: Seq<A>, f: spec_fn(A) -> Option<B>) -> Seq<int>
    decreases s.len(),
{
    if s.len() == 0 {
        Seq::empty()
    } else {
        let before = kept_positions(s.drop_last(), f);
        if f(s.last()) is Some {
            before.push(s.len() - 1)
        } else {
            before
        }
    }
}

/// `filter_map` keeps the order of the sequence: its `k`-th element is what
/// `f` gives at the `k`-th position at which it gives anything, and those
/// positions increase.
pub proof fn lemma_filter_map_keeps_order<A, B>(s: Seq<A>, f: spec_fn(A) -> Option<B>)
    ensures
        kept_positions(s, f).len() == s.filter_map(f).len(),
        forall|k: int|
            0 <= k < kept_positions(s, f).len() ==> 0 <= #[trigger] kept_positions(s, f)[k]
                < s.len() && f(s[kept_positions(s, f)[k]]) == Some(s.filter_map(f)[k]),
        forall|j: int, k: int|
            0 <= j < k < kept_positions(s, f).len() ==> kept_positions(s, f)[j]
                < kept_positions(s, f)[k],
        forall|p: int|
            0 <= p < s.len() ==> (kept_positions(s, f).contains(p) <==> f(#[trigger] s[p])
                is Some),
    decreases s.len(),
{
    if s.len() > 0 {
        let rest = s.drop_last();
        let before = kept_positions(rest, f);
        let here = kept_positions(s, f);
        lemma_filter_map_keeps_order(rest, f);
        assert forall|k: int| 0 <= k < here.len() implies 0 <= #[trigger] here[k] < s.len() && f(
            s[here[k]],
        ) == Some(s.filter_map(f)[k]) by {
            if k < before.len() {
                assert(here[k] == before[k]);
                assert(rest[before[k]] == s[before[k]]);
            }
        }
        assert forall|j: int, k: int| 0 <= j < k < here.len() implies here[j] < here[k] by {
            assert(here[j] == before[j]);
            if k < before.len() {
                assert(here[k] == before[k]);
            }
        }
        assert forall|p: int| 0 <= p < s.len() implies (here.contains(p) <==> f(#[trigger] s[p])
            is Some) by {
            if p < rest.len() {
                assert(rest[p] == s[p]);
                if before.contains(p) {
                    let k = choose|k: int| 0 <= k < before.len() && before[k] == p;
                    assert(here[k] == p);
                }
                if here.contains(p) {
                    let k = choose|k: int| 0 <= k < here.len() && here[k] == p;
                    if k < before.len() {
                        assert(before[k] == p);
                    }
                }
            } else {
                if f(s[p]) is Some {
                    assert(here[before.len() as int] == p);
                }
                if here.contains(p) {
                    let k = choose|k: int| 0 <= k < here.len() && here[k] == p;
                    if k < before.len() {
                        assert(before[k] == p);
                        assert(before[k] < rest.len());
                    }
                }
            }
        }
    }
}

} // verus!
