//! Cursor pagination over sequences that ascend under a string key:
//! pages, order preservation under filtering, and how a filter that
//! resumes above a row's key picks up exactly the rows after it.

use vstd::prelude::*;

use crate::text::lemma_lex_lt_asymmetric;
use crate::text::lemma_lex_lt_irreflexive;
use crate::text::lex_lt;

verus! {

/// The first `n` items of `q`, or all of them when there are fewer.
pub open spec fn page_of<A>(q: Seq<A>, n: int) -> Seq<A> {
    if q.len() <= n {
        q
    } else {
        q.take(n)
    }
}

/// `q` ascends strictly under `key`.
pub open spec fn sorted_by<A>(q: Seq<A>, key: spec_fn(A) -> Seq<char>) -> bool {
    forall|i: int, j: int|
        0 <= i < j < q.len() ==> lex_lt(key(#[trigger] q[i]), key(#[trigger] q[j]))
}

/// Selects the items whose key lies strictly above `k`.
pub open spec fn above<A>(key: spec_fn(A) -> Seq<char>, k: Seq<char>) -> spec_fn(A) -> bool {
    |x: A| lex_lt(k, key(x))
}

/// Filtering keeps a strictly ascending sequence strictly ascending.
pub proof fn lemma_filter_sorted<A>(q: Seq<A>, key: spec_fn(A) -> Seq<char>, p: spec_fn(A) -> bool)
    requires
        sorted_by(q, key),
    ensures
        sorted_by(q.filter(p), key),
    decreases q.len(),
{
    reveal(Seq::filter);
    if q.len() > 0 {
        let qd = q.drop_last();
        assert(forall|i: int| 0 <= i < qd.len() ==> qd[i] == q[i]);
        lemma_filter_sorted(qd, key, p);
        let f = qd.filter(p);
        let fq = q.filter(p);
        if p(q.last()) {
            assert(fq == f.push(q.last()));
            assert forall|i: int, j: int| 0 <= i < j < fq.len() implies lex_lt(
                key(fq[i]),
                key(fq[j]),
            ) by {
                if j < f.len() {
                    assert(fq[i] == f[i] && fq[j] == f[j]);
                } else {
                    assert(fq[j] == q.last());
                    assert(fq[i] == f[i]);
                    assert(f.contains(f[i]));
                    qd.lemma_filter_contains_rev(p, f[i]);
                    let w = choose|w: int| 0 <= w < qd.len() && qd[w] == f[i];
                    assert(lex_lt(key(q[w]), key(q[q.len() - 1])));
                }
            }
        }
    }
}

/// Filtering one more item appends it exactly when it is selected.
pub proof fn lemma_filter_take_step<A>(q: Seq<A>, p: spec_fn(A) -> bool, i: int)
    requires
        0 <= i < q.len(),
    ensures
        q.take(i + 1).filter(p) == if p(q[i]) {
            q.take(i).filter(p).push(q[i])
        } else {
            q.take(i).filter(p)
        },
{
    reveal(Seq::filter);
    assert(q.take(i + 1).drop_last() =~= q.take(i));
    assert(q.take(i + 1).last() == q[i]);
}

/// A sequence filtered by a predicate that holds nowhere in it is
/// empty.
pub proof fn lemma_filter_none<A>(q: Seq<A>, p: spec_fn(A) -> bool)
    requires
        forall|i: int| 0 <= i < q.len() ==> !p(#[trigger] q[i]),
    ensures
        q.filter(p).len() == 0,
    decreases q.len(),
{
    reveal(Seq::filter);
    if q.len() > 0 {
        let qd = q.drop_last();
        assert(forall|i: int| 0 <= i < qd.len() ==> qd[i] == q[i]);
        lemma_filter_none(qd, p);
    }
}

/// Concatenating and then taking the first part's length gives the
/// first part back.
pub proof fn lemma_take_prefix<A>(a: Seq<A>, b: Seq<A>)
    ensures
        (a + b).take(a.len() as int) == a,
{
    assert((a + b).take(a.len() as int) =~= a);
}

/// One filter over a conjunction splits into two successive filters.
pub proof fn lemma_filter_split<A>(
    q: Seq<A>,
    p1: spec_fn(A) -> bool,
    p2: spec_fn(A) -> bool,
    p12: spec_fn(A) -> bool,
)
    requires
        forall|x: A| #[trigger] p12(x) == (p1(x) && p2(x)),
    ensures
        q.filter(p12) == q.filter(p1).filter(p2),
    decreases q.len(),
{
    reveal(Seq::filter);
    if q.len() > 0 {
        let qd = q.drop_last();
        lemma_filter_split(qd, p1, p2, p12);
        if p1(q.last()) {
            assert(q.filter(p1) == qd.filter(p1).push(q.last()));
            assert(q.filter(p1).drop_last() =~= qd.filter(p1));
            assert(q.filter(p1).last() == q.last());
            assert(q.filter(p1).len() > 0);
        }
    }
}

/// In a strictly ascending sequence, the rows above the key of the
/// row at `m` are exactly the rows after position `m`.
pub proof fn lemma_sorted_filter_above<A>(
    q: Seq<A>,
    key: spec_fn(A) -> Seq<char>,
    k: Seq<char>,
    m: int,
)
    requires
        sorted_by(q, key),
        0 <= m < q.len(),
        key(q[m]) == k,
    ensures
        q.filter(above(key, k)) == q.skip(m + 1),
    decreases q.len(),
{
    reveal(Seq::filter);
    if q.len() == m + 1 {
        assert forall|i: int| 0 <= i < q.len() implies !above(key, k)(q[i]) by {
            if i < m {
                lemma_lex_lt_asymmetric(key(q[i]), k);
            } else {
                lemma_lex_lt_irreflexive(k);
            }
        }
        lemma_filter_none(q, above(key, k));
        assert(q.filter(above(key, k)) =~= q.skip(m + 1));
    } else {
        let qd = q.drop_last();
        assert(forall|i: int| 0 <= i < qd.len() ==> qd[i] == q[i]);
        lemma_sorted_filter_above(qd, key, k, m);
        assert(lex_lt(key(q[m]), key(q[q.len() - 1])));
        assert(above(key, k)(q.last()));
        assert(q.filter(above(key, k)) == qd.filter(above(key, k)).push(q.last()));
        assert(qd.skip(m + 1).push(q.last()) =~= q.skip(m + 1));
    }
}

} // verus!
