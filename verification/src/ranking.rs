//! Selection of the best documents: all scored documents in descending order
//! of score, cut to the first `k`.
//!
//! A score is carried as the bit pattern of an IEEE-754 single. Scores are sums
//! of products of weights that are not negative, and for such values the order
//! of the bit patterns, read as unsigned integers, is the order of the scores.

use vstd::prelude::*;
use crate::index::DocId;

verus! {

/// A document with its score for a query.
#[derive(Debug, Clone, Copy)]
pub struct ScoredDoc {
    pub doc_id: DocId,
    pub score_bits: u32,
}

/// The least number of results that a query may ask for.
pub const MIN_K: usize = 1;

/// The greatest number of results that a query may ask for.
pub const MAX_K: usize = 100;

/// The number of results of a query that does not say how many it wants.
pub fn default_k() -> (k: usize)
    ensures
        k == 10,
{
    10
}

/// The number of results to return for a requested `k`: `k` clamped to
/// [1, 100].
pub open spec fn clamped(k: usize) -> usize {
    if k < MIN_K {
        MIN_K
    } else if k > MAX_K {
        MAX_K
    } else {
        k
    }
}

/// Clamps the requested number of results to [1, 100].
pub fn clamp_k(k: usize) -> (r: usize)
    ensures
        r == clamped(k),
        1 <= r <= 100,
{
    if k < MIN_K {
        MIN_K
    } else if k > MAX_K {
        MAX_K
    } else {
        k
    }
}

/// Where a document goes into a ranking: behind every document whose score is
/// not below its own.
pub open spec fn insert_pos(ranking: Seq<ScoredDoc>, x: ScoredDoc) -> nat
    decreases ranking.len(),
{
    if ranking.len() == 0 {
        0
    } else if ranking.last().score_bits >= x.score_bits {
        ranking.len()
    } else {
        insert_pos(ranking.drop_last(), x)
    }
}

/// The scored documents in descending order of score; documents of equal score
/// keep the order in which they were given.
pub open spec fn ranked(scored: Seq<ScoredDoc>) -> Seq<ScoredDoc>
    decreases scored.len(),
{
    if scored.len() == 0 {
        Seq::empty()
    } else {
        let before = ranked(scored.drop_last());
        before.insert(insert_pos(before, scored.last()) as int, scored.last())
    }
}

/// The first `k` of the ranking, or all of it where it is shorter.
pub open spec fn top_k_of(scored: Seq<ScoredDoc>, k: nat) -> Seq<ScoredDoc> {
    let all = ranked(scored);
    if k < all.len() {
        all.take(k as int)
    } else {
        all
    }
}

/// Whether the scores never rise along the sequence.
pub open spec fn descending(s: Seq<ScoredDoc>) -> bool {
    forall|i: int, j: int| 0 <= i < j < s.len() ==> s[i].score_bits >= s[j].score_bits
}

/// How many of the scored documents have a score other than zero.
pub open spec fn nonzero_count(scored: Seq<ScoredDoc>) -> nat
    decreases scored.len(),
{
    if scored.len() == 0 {
        0
    } else {
        nonzero_count(scored.drop_last()) + if scored.last().score_bits != 0 {
            1nat
        } else {
            0nat
        }
    }
}

/// In a descending ranking the insertion position splits the documents into
/// those whose score is not below the new one and those whose score is.
pub proof fn lemma_insert_pos(ranking: Seq<ScoredDoc>, x: ScoredDoc)
    requires
        descending(ranking),
    ensures
        insert_pos(ranking, x) <= ranking.len(),
        forall|i: int| 0 <= i < insert_pos(ranking, x) ==> ranking[i].score_bits >= x.score_bits,
        forall|i: int|
            insert_pos(ranking, x) <= i < ranking.len() ==> ranking[i].score_bits < x.score_bits,
    decreases ranking.len(),
{
    if ranking.len() > 0 {
        let last = ranking.len() - 1;
        if ranking.last().score_bits < x.score_bits {
            let init = ranking.drop_last();
            lemma_insert_pos(init, x);
            assert forall|i: int| 0 <= i < insert_pos(ranking, x) implies ranking[i].score_bits
                >= x.score_bits by {
                assert(init[i] == ranking[i]);
            }
            assert forall|i: int| insert_pos(ranking, x) <= i < ranking.len() implies ranking[i].score_bits
                < x.score_bits by {
                if i < last {
                    assert(init[i] == ranking[i]);
                }
            }
        } else {
            assert forall|i: int| 0 <= i < insert_pos(ranking, x) implies ranking[i].score_bits
                >= x.score_bits by {
                if i < last {
                    assert(ranking[i].score_bits >= ranking[last].score_bits);
                }
            }
        }
    }
}

/// The ranking is descending and holds every scored document once.
pub proof fn law_ranked(scored: Seq<ScoredDoc>)
    ensures
        descending(ranked(scored)),
        ranked(scored).len() == scored.len(),
        ranked(scored).to_multiset() == scored.to_multiset(),
    decreases scored.len(),
{
    broadcast use vstd::seq_lib::group_to_multiset_ensures;

    if scored.len() == 0 {
        assert(scored =~= Seq::<ScoredDoc>::empty());
    } else {
        let init = scored.drop_last();
        let x = scored.last();
        let before = ranked(init);
        law_ranked(init);
        lemma_insert_pos(before, x);
        let p = insert_pos(before, x) as int;
        let after = before.insert(p, x);
        assert(descending(after)) by {
            assert forall|i: int, j: int| 0 <= i < j < after.len() implies after[i].score_bits
                >= after[j].score_bits by {
                if j < p {
                } else if j == p {
                } else if i < p {
                    assert(after[j] == before[j - 1]);
                } else if i == p {
                    assert(after[j] == before[j - 1]);
                } else {
                    assert(after[i] == before[i - 1]);
                    assert(after[j] == before[j - 1]);
                }
            }
        }
        assert(scored =~= init.push(x));
        assert(after.remove(p) =~= before);
        assert(after[p] == x);
        assert(after.contains(x));
        assert(after.to_multiset() =~= after.to_multiset().remove(x).insert(x));
        assert(after.to_multiset() =~= scored.to_multiset());
    }
}

/// Cutting a ranking to `k` before inserting gives the same first `k` as
/// cutting it after.
pub proof fn lemma_insert_then_cut(ranking: Seq<ScoredDoc>, x: ScoredDoc, k: nat)
    requires
        descending(ranking),
    ensures
        ({
            let cut = if k < ranking.len() {
                ranking.take(k as int)
            } else {
                ranking
            };
            let full = ranking.insert(insert_pos(ranking, x) as int, x);
            let small = cut.insert(insert_pos(cut, x) as int, x);
            (if k < full.len() {
                full.take(k as int)
            } else {
                full
            }) == (if k < small.len() {
                small.take(k as int)
            } else {
                small
            })
        }),
{
    lemma_insert_pos(ranking, x);
    let p = insert_pos(ranking, x) as int;
    if k < ranking.len() {
        let cut = ranking.take(k as int);
        lemma_insert_pos(cut, x);
        let q = insert_pos(cut, x) as int;
        if q < p {
            if q < k {
                assert(cut[q] == ranking[q]);
            }
            assert(q == k);
        } else if p < q {
            assert(cut[p] == ranking[p]);
        }
        let full = ranking.insert(p, x);
        let small = cut.insert(q, x);
        assert(full.take(k as int) =~= small.take(k as int));
    }
}

/// The `k` best of the scored documents, best first. Documents of equal score
/// come in the order in which they were given.
pub fn top_k(scored: &Vec<ScoredDoc>, k: usize) -> (best: Vec<ScoredDoc>)
    ensures
        best@ == top_k_of(scored@, k as nat),
        best@.len() == if k < scored@.len() { k as nat } else { scored@.len() },
{
    let mut best: Vec<ScoredDoc> = Vec::new();
    let mut i: usize = 0;
    proof {
        assert(scored@.take(0) =~= Seq::<ScoredDoc>::empty());
    }
    while i < scored.len()
        invariant
            i <= scored.len(),
            best@ == top_k_of(scored@.take(i as int), k as nat),
            best@.len() <= k,
            best@.len() <= i,
        decreases scored.len() - i,
    {
        let x = scored[i];
        let ghost seen = scored@.take(i as int);
        let ghost all = ranked(seen);
        proof {
            assert(scored@.take(i + 1).drop_last() =~= seen);
            assert(scored@.take(i + 1).last() == x);
            law_ranked(seen);
            law_ranked(scored@.take(i + 1));
            lemma_insert_then_cut(all, x, k as nat);
        }
        let mut p: usize = best.len();
        assert(best@.take(p as int) =~= best@);
        while p > 0 && best[p - 1].score_bits < x.score_bits
            invariant
                p <= best@.len(),
                insert_pos(best@, x) == insert_pos(best@.take(p as int), x),
            decreases p,
        {
            proof {
                assert(best@.take(p as int).drop_last() =~= best@.take(p - 1));
            }
            p -= 1;
        }
        proof {
            assert(best@.take(best@.len() as int) =~= best@);
            if p > 0 {
                assert(best@.take(p as int).last() == best@[p - 1]);
            }
            assert(insert_pos(best@, x) == p);
        }
        if p < k {
            best.insert(p, x);
            if best.len() > k {
                best.truncate(k);
            }
        } else {
            proof {
                let small = best@.insert(p as int, x);
                assert(small.take(k as int) =~= best@);
            }
        }
        i += 1;
    }
    proof {
        assert(scored@.take(i as int) =~= scored@);
        law_ranked(scored@);
    }
    best
}

/// The number of scored documents whose score is not zero.
pub fn count_hits(scored: &Vec<ScoredDoc>) -> (n: usize)
    ensures
        n == nonzero_count(scored@),
{
    let mut n: usize = 0;
    let mut i: usize = 0;
    proof {
        assert(scored@.take(0) =~= Seq::<ScoredDoc>::empty());
    }
    while i < scored.len()
        invariant
            i <= scored.len(),
            n == nonzero_count(scored@.take(i as int)),
            n <= i,
        decreases scored.len() - i,
    {
        proof {
            assert(scored@.take(i + 1).drop_last() =~= scored@.take(i as int));
        }
        if scored[i].score_bits != 0 {
            n += 1;
        }
        i += 1;
    }
    proof {
        assert(scored@.take(i as int) =~= scored@);
    }
    n
}

} // verus!
