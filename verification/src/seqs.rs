//! Facts about filtered sequences.

use vstd::prelude::*;

verus! {

/// Filtering with a predicate that holds everywhere changes nothing.
pub proof fn lemma_filter_all<A>(s: Seq<A>, pred: spec_fn(A) -> bool)
    requires
        forall|i: int| 0 <= i < s.len() ==> pred(#[trigger] s[i]),
    ensures
        s.filter(pred) == s,
    decreases s.len(),
{
    reveal(Seq::filter);
    if s.len() > 0 {
        let shorter = s.drop_last();
        assert forall|i: int| 0 <= i < shorter.len() implies pred(#[trigger] shorter[i]) by {
            assert(shorter[i] == s[i]);
        }
        lemma_filter_all(shorter, pred);
        assert(pred(s[s.len() - 1]));
        assert(shorter.push(s.last()) =~= s);
    }
}

/// Filtering with a predicate that fails at one position only removes that position.
pub proof fn lemma_filter_one<A>(s: Seq<A>, pred: spec_fn(A) -> bool, at: int)
    requires
        0 <= at < s.len(),
        !pred(s[at]),
        forall|i: int| 0 <= i < s.len() && i != at ==> pred(#[trigger] s[i]),
    ensures
        s.filter(pred) == s.remove(at),
    decreases s.len(),
{
    reveal(Seq::filter);
    let shorter = s.drop_last();
    if at == s.len() - 1 {
        assert forall|i: int| 0 <= i < shorter.len() implies pred(#[trigger] shorter[i]) by {
            assert(shorter[i] == s[i]);
        }
        lemma_filter_all(shorter, pred);
        assert(s.remove(at) =~= shorter);
    } else {
        assert forall|i: int| 0 <= i < shorter.len() && i != at implies pred(#[trigger] shorter[i]) by {
            assert(shorter[i] == s[i]);
        }
        lemma_filter_one(shorter, pred, at);
        assert(pred(s[s.len() - 1]));
        assert(s.remove(at) =~= shorter.remove(at).push(s.last()));
    }
}

/// The elements of a filtered sequence are the elements the predicate holds of.
pub proof fn lemma_filter_elements<A>(s: Seq<A>, pred: spec_fn(A) -> bool)
    ensures
        forall|x: A| #[trigger] s.filter(pred).contains(x) <==> s.contains(x) && pred(x),
        s.filter(pred).len() <= s.len(),
    decreases s.len(),
{
    reveal(Seq::filter);
    let out = s.filter(pred);
    if s.len() > 0 {
        let shorter = s.drop_last();
        lemma_filter_elements(shorter, pred);
        let sub = shorter.filter(pred);
        assert forall|x: A| #[trigger] out.contains(x) <==> s.contains(x) && pred(x) by {
            if out.contains(x) {
                let i = out.index_of(x);
                if i < sub.len() {
                    assert(sub[i] == x);
                    assert(sub.contains(x));
                    assert(s[shorter.index_of(x)] == x);
                } else {
                    assert(s[s.len() - 1] == x);
                }
            }
            if s.contains(x) && pred(x) {
                let i = s.index_of(x);
                if i < shorter.len() {
                    assert(shorter[i] == x);
                    assert(sub.contains(x));
                    assert(out[sub.index_of(x)] == x);
                } else {
                    assert(out[sub.len() as int] == x);
                }
            }
        }
    }
}

/// A relation that holds between any two elements in order holds in a filtered sequence too.
pub proof fn lemma_filter_pairwise<A>(
    s: Seq<A>,
    pred: spec_fn(A) -> bool,
    rel: spec_fn(A, A) -> bool,
)
    requires
        forall|i: int, j: int| 0 <= i < j < s.len() ==> #[trigger] rel(s[i], s[j]),
    ensures
        forall|i: int, j: int|
            0 <= i < j < s.filter(pred).len() ==> #[trigger] rel(
                s.filter(pred)[i],
                s.filter(pred)[j],
            ),
    decreases s.len(),
{
    reveal(Seq::filter);
    if s.len() > 0 {
        let shorter = s.drop_last();
        assert forall|i: int, j: int| 0 <= i < j < shorter.len() implies #[trigger] rel(
            shorter[i],
            shorter[j],
        ) by {
            assert(rel(s[i], s[j]));
        }
        lemma_filter_pairwise(shorter, pred, rel);
        lemma_filter_elements(shorter, pred);
        let sub = shorter.filter(pred);
        let out = s.filter(pred);
        assert forall|i: int, j: int| 0 <= i < j < out.len() implies #[trigger] rel(out[i], out[j]) by {
            if j < sub.len() {
                assert(rel(sub[i], sub[j]));
            } else {
                assert(sub.contains(sub[i]));
                let k = shorter.index_of(sub[i]);
                assert(shorter[k] == s[k]);
                assert(rel(s[k], s[s.len() - 1]));
            }
        }
    }
}

/// Filtering twice is filtering with both predicates.
pub proof fn lemma_filter_filter<A>(
    s: Seq<A>,
    p: spec_fn(A) -> bool,
    q: spec_fn(A) -> bool,
    both: spec_fn(A) -> bool,
)
    requires
        forall|x: A| #[trigger] both(x) <==> p(x) && q(x),
    ensures
        s.filter(p).filter(q) == s.filter(both),
    decreases s.len(),
{
    reveal(Seq::filter);
    if s.len() > 0 {
        lemma_filter_filter(s.drop_last(), p, q, both);
        let sub = s.drop_last().filter(p);
        assert(both(s.last()) <==> p(s.last()) && q(s.last()));
        if p(s.last()) {
            assert(sub.push(s.last()).drop_last() =~= sub);
        }
    }
}

/// Two predicates that agree on the elements filter alike.
pub proof fn lemma_filter_agree<A>(s: Seq<A>, p: spec_fn(A) -> bool, q: spec_fn(A) -> bool)
    requires
        forall|i: int| 0 <= i < s.len() ==> p(#[trigger] s[i]) == q(s[i]),
    ensures
        s.filter(p) == s.filter(q),
    decreases s.len(),
{
    reveal(Seq::filter);
    if s.len() > 0 {
        let shorter = s.drop_last();
        assert forall|i: int| 0 <= i < shorter.len() implies p(#[trigger] shorter[i]) == q(shorter[i]) by {
            assert(shorter[i] == s[i]);
        }
        lemma_filter_agree(shorter, p, q);
        assert(p(s[s.len() - 1]) == q(s[s.len() - 1]));
    }
}

} // verus!
