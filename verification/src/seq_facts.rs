//! Facts about filtering sequences.

use vstd::prelude::*;

verus! {

/// Filtering keeps a sequence whole when every element passes.
pub proof fn lemma_filter_all<A>(s: Seq<A>, pred: spec_fn(A) -> bool)
    requires
        forall|i: int| 0 <= i < s.len() ==> pred(#[trigger] s[i]),
    ensures
        s.filter(pred) == s,
    decreases s.len(),
{
    reveal(Seq::filter);
    if s.len() > 0 {
        lemma_filter_all(s.drop_last(), pred);
        assert(s.drop_last().push(s.last()) =~= s);
    }
}

/// Filtering drops exactly the element at `p` when it is the only one that
/// fails.
pub proof fn lemma_filter_one_out<A>(s: Seq<A>, pred: spec_fn(A) -> bool, p: int)
    requires
        0 <= p < s.len(),
        !pred(s[p]),
        forall|i: int| 0 <= i < s.len() && i != p ==> pred(#[trigger] s[i]),
    ensures
        s.filter(pred) == s.remove(p),
    decreases s.len(),
{
    reveal(Seq::filter);
    if p == s.len() - 1 {
        lemma_filter_all(s.drop_last(), pred);
        assert(s.drop_last() =~= s.remove(p));
    } else {
        lemma_filter_one_out(s.drop_last(), pred, p);
        assert(s.drop_last().remove(p).push(s.last()) =~= s.remove(p));
    }
}

/// Every element that filtering keeps comes from the sequence.
pub proof fn lemma_filter_from<A>(s: Seq<A>, pred: spec_fn(A) -> bool)
    ensures
        forall|k: int| 0 <= k < s.filter(pred).len() ==> s.contains(#[trigger] s.filter(pred)[k]),
{
    assert forall|k: int| 0 <= k < s.filter(pred).len() implies s.contains(
        #[trigger] s.filter(pred)[k],
    ) by {
        assert(s.filter(pred).contains(s.filter(pred)[k]));
        s.lemma_filter_contains_rev(pred, s.filter(pred)[k]);
    }
}

/// Filtering keeps elements pairwise apart by `key` when they were.
pub proof fn lemma_filter_keeps_distinct<A, K>(
    s: Seq<A>,
    pred: spec_fn(A) -> bool,
    key: spec_fn(A) -> K,
)
    requires
        forall|i: int, j: int|
            0 <= i < s.len() && 0 <= j < s.len() && i != j ==> key(#[trigger] s[i]) != key(
                #[trigger] s[j],
            ),
    ensures
        forall|i: int, j: int|
            0 <= i < s.filter(pred).len() && 0 <= j < s.filter(pred).len() && i != j ==> key(
                #[trigger] s.filter(pred)[i],
            ) != key(#[trigger] s.filter(pred)[j]),
    decreases s.len(),
{
    reveal(Seq::filter);
    if s.len() > 0 {
        let d = s.drop_last();
        assert forall|i: int, j: int|
            0 <= i < d.len() && 0 <= j < d.len() && i != j implies key(#[trigger] d[i]) != key(
            #[trigger] d[j],
        ) by {
            assert(d[i] == s[i] && d[j] == s[j]);
        }
        lemma_filter_keeps_distinct(d, pred, key);
        lemma_filter_from(d, pred);
        let t = s.filter(pred);
        let u = d.filter(pred);
        if pred(s.last()) {
            assert(t == u.push(s.last()));
            assert forall|i: int, j: int|
                0 <= i < t.len() && 0 <= j < t.len() && i != j implies key(#[trigger] t[i]) != key(
                #[trigger] t[j],
            ) by {
                if i == t.len() - 1 {
                    assert(d.contains(u[j]));
                    let m = choose|m: int| 0 <= m < d.len() && d[m] == u[j];
                    assert(s[m] == d[m]);
                } else if j == t.len() - 1 {
                    assert(d.contains(u[i]));
                    let m = choose|m: int| 0 <= m < d.len() && d[m] == u[i];
                    assert(s[m] == d[m]);
                } else {
                    assert(t[i] == u[i] && t[j] == u[j]);
                }
            }
        }
    }
}

} // verus!
