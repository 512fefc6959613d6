//! General facts about `Seq::filter` that the registry proofs lean on.

use vstd::prelude::*;

verus! {

/// Unfolds one step of `Seq::filter` for a non-empty sequence.
pub proof fn lemma_filter_unfold<A>(s: Seq<A>, pred: spec_fn(A) -> bool)
    requires
        s.len() > 0,
    ensures
        s.filter(pred) == if pred(s.last()) {
            s.drop_last().filter(pred).push(s.last())
        } else {
            s.drop_last().filter(pred)
        },
{
    reveal_with_fuel(Seq::filter, 2);
}

/// An element stands in the filtered sequence exactly when it stands in
/// the original and satisfies the predicate.
pub proof fn lemma_filter_membership<A>(s: Seq<A>, pred: spec_fn(A) -> bool, x: A)
    ensures
        s.filter(pred).contains(x) <==> s.contains(x) && pred(x),
    decreases s.len(),
{
    reveal_with_fuel(Seq::filter, 2);
    if s.len() > 0 {
        lemma_filter_unfold(s, pred);
        lemma_filter_membership(s.drop_last(), pred, x);
        assert(s.contains(x) <==> s.drop_last().contains(x) || s.last() == x) by {
            if s.contains(x) {
                let i: int = choose|i: int| 0 <= i < s.len() && s[i] == x;
                if i < s.len() - 1 {
                    assert(s.drop_last()[i] == x);
                }
            }
            if s.drop_last().contains(x) {
                let i: int = choose|i: int| 0 <= i < s.drop_last().len() && s.drop_last()[i] == x;
                assert(s[i] == x);
            }
        }
        if pred(s.last()) {
            assert(s.filter(pred).last() == s.last());
            assert forall|y: A| s.filter(pred).contains(y)
                implies s.drop_last().filter(pred).contains(y) || y == s.last() by {
                let i: int = choose|i: int| 0 <= i < s.filter(pred).len() && s.filter(pred)[i] == y;
                if i < s.filter(pred).len() - 1 {
                    assert(s.drop_last().filter(pred)[i] == y);
                }
            }
            assert(s.filter(pred).contains(s.last()));
            if s.drop_last().filter(pred).contains(x) {
                let i: int = choose|i: int|
                    0 <= i < s.drop_last().filter(pred).len()
                        && s.drop_last().filter(pred)[i] == x;
                assert(s.filter(pred)[i] == x);
            }
        }
    }
}

/// Filtering keeps a duplicate-free sequence duplicate-free.
pub proof fn lemma_filter_no_duplicates<A>(s: Seq<A>, pred: spec_fn(A) -> bool)
    requires
        s.no_duplicates(),
    ensures
        s.filter(pred).no_duplicates(),
    decreases s.len(),
{
    reveal_with_fuel(Seq::filter, 2);
    if s.len() > 0 {
        lemma_filter_unfold(s, pred);
        assert(s.drop_last().no_duplicates());
        lemma_filter_no_duplicates(s.drop_last(), pred);
        if pred(s.last()) {
            assert(!s.drop_last().contains(s.last())) by {
                if s.drop_last().contains(s.last()) {
                    let i: int = choose|i: int|
                        0 <= i < s.drop_last().len() && s.drop_last()[i] == s.last();
                    assert(s[i] == s[s.len() - 1]);
                }
            }
            lemma_filter_membership(s.drop_last(), pred, s.last());
            let kept = s.drop_last().filter(pred);
            assert forall|i: int, j: int|
                0 <= i < kept.push(s.last()).len() && 0 <= j < kept.push(s.last()).len() && i != j
                implies kept.push(s.last())[i] != kept.push(s.last())[j] by {
                if i < kept.len() && j < kept.len() {
                    assert(kept[i] != kept[j]);
                } else if i < kept.len() {
                    assert(kept.contains(kept[i]));
                } else if j < kept.len() {
                    assert(kept.contains(kept[j]));
                }
            }
        }
    }
}

/// Filtering with a predicate that every element already satisfies
/// changes nothing.
pub proof fn lemma_filter_all_true<A>(s: Seq<A>, pred: spec_fn(A) -> bool)
    requires
        forall|i: int| 0 <= i < s.len() ==> pred(#[trigger] s[i]),
    ensures
        s.filter(pred) == s,
    decreases s.len(),
{
    reveal_with_fuel(Seq::filter, 2);
    if s.len() == 0 {
        assert(s.filter(pred) =~= s);
    } else {
        lemma_filter_unfold(s, pred);
        assert(forall|i: int|
            0 <= i < s.drop_last().len() ==> pred(#[trigger] s.drop_last()[i]));
        lemma_filter_all_true(s.drop_last(), pred);
        assert(s.drop_last().push(s.last()) =~= s);
    }
}

/// A stricter predicate never keeps more elements than a weaker one.
pub proof fn lemma_filter_monotone<A>(s: Seq<A>, p: spec_fn(A) -> bool, q: spec_fn(A) -> bool)
    requires
        forall|i: int| 0 <= i < s.len() ==> (p(#[trigger] s[i]) ==> q(s[i])),
    ensures
        s.filter(p).len() <= s.filter(q).len(),
    decreases s.len(),
{
    reveal_with_fuel(Seq::filter, 2);
    if s.len() > 0 {
        lemma_filter_unfold(s, p);
        lemma_filter_unfold(s, q);
        assert(forall|i: int|
            0 <= i < s.drop_last().len()
                ==> (p(#[trigger] s.drop_last()[i]) ==> q(s.drop_last()[i])));
        lemma_filter_monotone(s.drop_last(), p, q);
        assert(p(s.last()) ==> q(s.last()));
    }
}

/// Filtering with a predicate that no element satisfies leaves nothing.
pub proof fn lemma_filter_all_false<A>(s: Seq<A>, pred: spec_fn(A) -> bool)
    requires
        forall|i: int| 0 <= i < s.len() ==> !pred(#[trigger] s[i]),
    ensures
        s.filter(pred) == Seq::<A>::empty(),
    decreases s.len(),
{
    reveal_with_fuel(Seq::filter, 2);
    if s.len() == 0 {
        assert(s.filter(pred) =~= Seq::<A>::empty());
    } else {
        lemma_filter_unfold(s, pred);
        assert(forall|i: int|
            0 <= i < s.drop_last().len() ==> !pred(#[trigger] s.drop_last()[i]));
        lemma_filter_all_false(s.drop_last(), pred);
    }
}

/// Two predicates that agree on every element of a sequence filter it to
/// the same result.
pub proof fn lemma_filter_congruence<A>(s: Seq<A>, p: spec_fn(A) -> bool, q: spec_fn(A) -> bool)
    requires
        forall|i: int| 0 <= i < s.len() ==> (p(#[trigger] s[i]) <==> q(s[i])),
    ensures
        s.filter(p) == s.filter(q),
    decreases s.len(),
{
    reveal_with_fuel(Seq::filter, 2);
    if s.len() > 0 {
        lemma_filter_unfold(s, p);
        lemma_filter_unfold(s, q);
        assert(forall|i: int|
            0 <= i < s.drop_last().len()
                ==> (p(#[trigger] s.drop_last()[i]) <==> q(s.drop_last()[i])));
        lemma_filter_congruence(s.drop_last(), p, q);
        assert(p(s.last()) <==> q(s.last()));
    }
}

} // verus!
