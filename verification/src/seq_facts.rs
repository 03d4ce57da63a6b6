//! Facts about filtered sequences that the rest of the crate leans on.

use vstd::prelude::*;

verus! {

/// An element is kept by a filter exactly when the sequence holds it and the
/// predicate accepts it.
pub proof fn lemma_filter_member<A>(s: Seq<A>, p: spec_fn(A) -> bool, x: A)
    ensures
        s.filter(p).contains(x) <==> s.contains(x) && p(x),
    decreases s.len(),
{
    reveal(Seq::filter);
    if s.len() > 0 {
        let front = s.drop_last();
        lemma_filter_member(front, p, x);
        let kept = front.filter(p);
        if s.contains(x) && p(x) {
            let i = choose|i: int| 0 <= i < s.len() && s[i] == x;
            if i == s.len() - 1 {
                assert(s.filter(p) == kept.push(s.last()));
                assert(s.filter(p)[kept.len() as int] == x);
            } else {
                assert(front[i] == x);
                let j = choose|j: int| 0 <= j < kept.len() && kept[j] == x;
                assert(s.filter(p)[j] == x);
            }
        }
        if s.filter(p).contains(x) {
            let j = choose|j: int| 0 <= j < s.filter(p).len() && s.filter(p)[j] == x;
            if p(s.last()) && j == kept.len() {
                assert(s[s.len() - 1] == x);
            } else {
                assert(kept[j] == x);
                let i = choose|i: int| 0 <= i < front.len() && front[i] == x;
                assert(s[i] == x);
            }
        }
    }
}

/// Filtering twice is filtering once by both predicates.
pub proof fn lemma_filter_twice<A>(
    s: Seq<A>,
    p: spec_fn(A) -> bool,
    q: spec_fn(A) -> bool,
    both: spec_fn(A) -> bool,
)
    requires
        forall|i: int| 0 <= i < s.len() ==> both(#[trigger] s[i]) == (p(s[i]) && q(s[i])),
    ensures
        s.filter(p).filter(q) == s.filter(both),
    decreases s.len(),
{
    reveal(Seq::filter);
    if s.len() > 0 {
        let front = s.drop_last();
        assert forall|i: int| 0 <= i < front.len() implies both(#[trigger] front[i]) == (p(
            front[i],
        ) && q(front[i])) by {
            assert(front[i] == s[i]);
        }
        lemma_filter_twice(front, p, q, both);
        assert(both(s[s.len() - 1]) == (p(s.last()) && q(s.last())));
        if p(s.last()) {
            front.filter(p).lemma_filter_push(s.last(), q);
        }
    }
}

/// A filter keeps a sequence free of repeats.
pub proof fn lemma_filter_distinct<A>(s: Seq<A>, p: spec_fn(A) -> bool)
    requires
        s.no_duplicates(),
    ensures
        s.filter(p).no_duplicates(),
    decreases s.len(),
{
    reveal(Seq::filter);
    if s.len() > 0 {
        let front = s.drop_last();
        lemma_filter_distinct(front, p);
        let kept = front.filter(p);
        if p(s.last()) {
            lemma_filter_member(front, p, s.last());
            if front.contains(s.last()) {
                let i = choose|i: int| 0 <= i < front.len() && front[i] == s.last();
                assert(s[i] == s[s.len() - 1]);
            }
            assert forall|i: int, j: int|
                0 <= i < kept.len() + 1 && 0 <= j < kept.len() + 1 && i != j implies kept.push(
                s.last(),
            )[i] != kept.push(s.last())[j] by {
                if i == kept.len() {
                    assert(!kept.contains(s.last()));
                } else if j == kept.len() {
                    assert(!kept.contains(s.last()));
                }
            }
        }
    }
}

/// Dropping repeats from a sequence that has none, and shares nothing with what
/// was seen before, appends it to what was seen.
pub proof fn lemma_distinct_unchanged<A>(s: Seq<A>, seen: Seq<A>)
    requires
        (seen + s).no_duplicates(),
    ensures
        s.remove_duplicates(seen) == seen + s,
    decreases s.len(),
{
    if s.len() == 0 {
        assert(seen + s =~= seen);
    } else {
        let next = seen + seq![s[0]];
        assert(next + s.skip(1) =~= seen + s);
        if seen.contains(s[0]) {
            let i = choose|i: int| 0 <= i < seen.len() && seen[i] == s[0];
            assert((seen + s)[i] == (seen + s)[seen.len() as int]);
        }
        lemma_distinct_unchanged(s.skip(1), next);
    }
}

} // verus!
