//! Filtering and stable ordering of sequences, as spec functions, with the
//! facts about them that the rest of the library relies on.

use vstd::prelude::*;

verus! {

/// The elements of `s` that satisfy `pred`, in order.
pub open spec fn keep<T>(s: Seq<T>, pred: spec_fn(T) -> bool) -> Seq<T>
    decreases s.len(),
{
    if s.len() == 0 {
        s
    } else if pred(s.last()) {
        keep(s.drop_last(), pred).push(s.last())
    } else {
        keep(s.drop_last(), pred)
    }
}

/// Where `x` enters `s`: before the first element that `x` precedes.
pub open spec fn place<T>(s: Seq<T>, x: T, precedes: spec_fn(T, T) -> bool) -> int
    decreases s.len(),
{
    if s.len() == 0 {
        0
    } else if precedes(x, s[0]) {
        0
    } else {
        1 + place(s.drop_first(), x, precedes)
    }
}

/// `s` in the order given by `precedes`, equal elements keeping their order.
pub open spec fn sorted_by<T>(s: Seq<T>, precedes: spec_fn(T, T) -> bool) -> Seq<T>
    decreases s.len(),
{
    if s.len() == 0 {
        s
    } else {
        let prev = sorted_by(s.drop_last(), precedes);
        prev.insert(place(prev, s.last(), precedes), s.last())
    }
}

/// Every kept element is an element of `s` that satisfies `pred`.
pub proof fn lemma_keep_elements<T>(s: Seq<T>, pred: spec_fn(T) -> bool)
    ensures
        forall|i: int| 0 <= i < keep(s, pred).len() ==> s.contains(#[trigger] keep(s, pred)[i]),
        forall|i: int| 0 <= i < keep(s, pred).len() ==> pred(#[trigger] keep(s, pred)[i]),
    decreases s.len(),
{
    if s.len() > 0 {
        let prev = keep(s.drop_last(), pred);
        lemma_keep_elements(s.drop_last(), pred);
        assert forall|i: int| 0 <= i < keep(s, pred).len() implies s.contains(#[trigger] keep(s, pred)[i])
            && pred(keep(s, pred)[i]) by {
            let x = keep(s, pred)[i];
            if i < prev.len() {
                assert(prev[i] == x);
                assert(s.drop_last().contains(prev[i]));
                let j = choose|j: int| 0 <= j < s.drop_last().len() && s.drop_last()[j] == prev[i];
                assert(s[j] == x);
            } else {
                assert(s[s.len() - 1] == x);
            }
        }
    }
}

/// Predicates that agree everywhere keep the same elements.
pub proof fn lemma_keep_same<T>(s: Seq<T>, p1: spec_fn(T) -> bool, p2: spec_fn(T) -> bool)
    requires
        forall|x: T| #[trigger] p1(x) == p2(x),
    ensures
        keep(s, p1) == keep(s, p2),
    decreases s.len(),
{
    if s.len() > 0 {
        lemma_keep_same(s.drop_last(), p1, p2);
    }
}

/// `x` enters after every element that it does not precede, and before the
/// first that it does.
pub proof fn lemma_place<T>(s: Seq<T>, x: T, precedes: spec_fn(T, T) -> bool)
    ensures
        0 <= place(s, x, precedes) <= s.len(),
        forall|k: int| 0 <= k < place(s, x, precedes) ==> !precedes(x, #[trigger] s[k]),
        place(s, x, precedes) < s.len() ==> precedes(x, s[place(s, x, precedes)]),
    decreases s.len(),
{
    if s.len() > 0 && !precedes(x, s[0]) {
        let t = s.drop_first();
        lemma_place(t, x, precedes);
        assert forall|k: int| 0 <= k < place(s, x, precedes) implies !precedes(x, #[trigger] s[k]) by {
            if k > 0 {
                assert(s[k] == t[k - 1]);
            }
        }
    }
}

/// Sorting keeps the length, and every element of the result is one of `s`.
pub proof fn lemma_sorted_by_elements<T>(s: Seq<T>, precedes: spec_fn(T, T) -> bool)
    ensures
        sorted_by(s, precedes).len() == s.len(),
        forall|i: int| 0 <= i < s.len() ==> s.contains(#[trigger] sorted_by(s, precedes)[i]),
    decreases s.len(),
{
    if s.len() > 0 {
        let prev = sorted_by(s.drop_last(), precedes);
        lemma_sorted_by_elements(s.drop_last(), precedes);
        let p = place(prev, s.last(), precedes);
        lemma_place(prev, s.last(), precedes);
        let out = sorted_by(s, precedes);
        assert(out == prev.insert(p, s.last()));
        assert forall|i: int| 0 <= i < s.len() implies s.contains(#[trigger] sorted_by(s, precedes)[i]) by {
            let x = out[i];
            if i == p {
                assert(s[s.len() - 1] == x);
            } else {
                let j = if i < p { i } else { i - 1 };
                assert(prev[j] == x);
                assert(s.drop_last().contains(prev[j]));
                let m = choose|m: int| 0 <= m < s.drop_last().len() && s.drop_last()[m] == prev[j];
                assert(s[m] == x);
            }
        }
    }
}

} // verus!
