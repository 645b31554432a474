//! Sequence lemmas shared by the store proofs: how `filter` interacts with
//! `push`, containment, and duplicate freedom.

use vstd::prelude::*;

verus! {

/// Filtering a sequence extended by one element appends that element
/// exactly when it satisfies the predicate.
pub proof fn lemma_filter_push<A>(s: Seq<A>, pred: spec_fn(A) -> bool, x: A)
    ensures
        (s.push(x)).filter(pred) == s.filter(pred) + if pred(x) {
            seq![x]
        } else {
            Seq::<A>::empty()
        },
{
    reveal(Seq::filter);
    assert(s.push(x).drop_last() =~= s);
    assert(s.push(x).last() == x);
    if pred(x) {
        assert(s.filter(pred).push(x) =~= s.filter(pred) + seq![x]);
    } else {
        assert(s.filter(pred) =~= s.filter(pred) + Seq::<A>::empty());
    }
}

/// Every element of a filtered sequence is an element of the original.
pub proof fn lemma_filter_subset<A>(s: Seq<A>, pred: spec_fn(A) -> bool, x: A)
    requires
        s.filter(pred).contains(x),
    ensures
        s.contains(x),
        pred(x),
    decreases s.len(),
{
    reveal(Seq::filter);
    if s.len() > 0 {
        let sub = s.drop_last();
        if pred(s.last()) && x == s.last() {
            assert(s.contains(x)) by {
                assert(s[s.len() - 1] == x);
            }
        } else {
            assert(sub.filter(pred).contains(x));
            lemma_filter_subset(sub, pred, x);
            let i = choose|i: int| 0 <= i < sub.len() && sub[i] == x;
            assert(s[i] == x);
        }
    }
}

/// Filtering preserves duplicate freedom.
pub proof fn lemma_filter_no_duplicates<A>(s: Seq<A>, pred: spec_fn(A) -> bool)
    requires
        s.no_duplicates(),
    ensures
        s.filter(pred).no_duplicates(),
    decreases s.len(),
{
    reveal(Seq::filter);
    if s.len() > 0 {
        let sub = s.drop_last();
        assert(sub.no_duplicates());
        lemma_filter_no_duplicates(sub, pred);
        if pred(s.last()) {
            assert(!sub.contains(s.last())) by {
                if sub.contains(s.last()) {
                    let i = choose|i: int| 0 <= i < sub.len() && sub[i] == s.last();
                    assert(s[i] == s[s.len() - 1]);
                }
            }
            if sub.filter(pred).contains(s.last()) {
                lemma_filter_subset(sub, pred, s.last());
            }
            assert(sub.filter(pred).push(s.last()).no_duplicates());
        }
    }
}

/// A sequence whose elements all satisfy the predicate filters to itself.
pub proof fn lemma_filter_all<A>(s: Seq<A>, pred: spec_fn(A) -> bool)
    requires
        forall|i: int| 0 <= i < s.len() ==> pred(#[trigger] s[i]),
    ensures
        s.filter(pred) == s,
    decreases s.len(),
{
    reveal(Seq::filter);
    if s.len() > 0 {
        let sub = s.drop_last();
        lemma_filter_all(sub, pred);
        assert(pred(s.last()));
        assert(sub.push(s.last()) =~= s);
    }
}

/// A sequence none of whose elements satisfies the predicate filters to
/// the empty sequence.
pub proof fn lemma_filter_none<A>(s: Seq<A>, pred: spec_fn(A) -> bool)
    requires
        forall|i: int| 0 <= i < s.len() ==> !pred(#[trigger] s[i]),
    ensures
        s.filter(pred) == Seq::<A>::empty(),
    decreases s.len(),
{
    reveal(Seq::filter);
    if s.len() > 0 {
        lemma_filter_none(s.drop_last(), pred);
    }
}

/// Filtering distributes over concatenation.
pub proof fn lemma_filter_app<A>(a: Seq<A>, b: Seq<A>, pred: spec_fn(A) -> bool)
    ensures
        (a + b).filter(pred) == a.filter(pred) + b.filter(pred),
    decreases b.len(),
{
    reveal(Seq::filter);
    if b.len() == 0 {
        assert(a + b =~= a);
        assert(b.filter(pred) =~= Seq::<A>::empty());
        assert(a.filter(pred) + b.filter(pred) =~= a.filter(pred));
    } else {
        let bsub = b.drop_last();
        lemma_filter_app(a, bsub, pred);
        assert((a + b).drop_last() =~= a + bsub);
        lemma_filter_push(a + bsub, pred, b.last());
        assert(a + bsub =~= (a + b).drop_last());
        assert((a + b) =~= (a + bsub).push(b.last()));
        lemma_filter_push(bsub, pred, b.last());
        assert(bsub.push(b.last()) =~= b);
        if pred(b.last()) {
            assert(a.filter(pred) + bsub.filter(pred) + seq![b.last()] =~= a.filter(pred) + (
            bsub.filter(pred) + seq![b.last()]));
        } else {
            assert(a.filter(pred) + bsub.filter(pred) + Seq::<A>::empty() =~= a.filter(pred) + (
            bsub.filter(pred) + Seq::<A>::empty()));
        }
    }
}

} // verus!
