//! Ranking of products by score.
//!
//! A product ranks before another when its score is higher, or when the
//! scores are equal and its identifier comes first. The rank of a product is
//! the number of products that rank before it: its place, counted from zero,
//! in the list sorted by descending score.

use vstd::prelude::*;
use vstd::set_lib::*;
use vstd::string::*;
use crate::index::IndexMap;
use crate::text::{comes_before, lemma_text_before_strict_total, text_before};

verus! {

/// Product `a` ranks before product `b`.
pub open spec fn ranks_before(scores: Seq<i64>, ids: Seq<Seq<char>>, a: int, b: int) -> bool {
    scores[a] > scores[b] || (scores[a] == scores[b] && text_before(ids[a], ids[b]))
}

/// The products below position `upto` that rank before product `j`.
pub open spec fn predecessors(scores: Seq<i64>, ids: Seq<Seq<char>>, j: int, upto: int) -> Set<
    int,
> {
    Set::new(|k: int| 0 <= k < upto && ranks_before(scores, ids, k, j))
}

/// The rank of product `j`: how many products rank before it.
pub open spec fn rank(scores: Seq<i64>, ids: Seq<Seq<char>>, j: int) -> nat {
    predecessors(scores, ids, j, ids.len() as int).len()
}

/// Ranking before is a strict total order on the products.
pub proof fn lemma_ranks_before_order(
    scores: Seq<i64>,
    ids: Seq<Seq<char>>,
    a: int,
    b: int,
    c: int,
)
    requires
        ids.no_duplicates(),
        0 <= a < ids.len(),
        0 <= b < ids.len(),
        0 <= c < ids.len(),
    ensures
        !ranks_before(scores, ids, a, a),
        ranks_before(scores, ids, a, b) && ranks_before(scores, ids, b, c) ==> ranks_before(
            scores,
            ids,
            a,
            c,
        ),
        a != b ==> ranks_before(scores, ids, a, b) || ranks_before(scores, ids, b, a),
{
    lemma_text_before_strict_total(ids[a], ids[b], ids[c]);
}

/// The predecessors below a position are finitely many, at most that many.
pub proof fn lemma_predecessors_bounded(scores: Seq<i64>, ids: Seq<Seq<char>>, j: int, upto: int)
    requires
        0 <= upto,
    ensures
        predecessors(scores, ids, j, upto).finite(),
        predecessors(scores, ids, j, upto).len() <= upto,
{
    lemma_int_range(0, upto);
    lemma_len_subset(predecessors(scores, ids, j, upto), set_int_range(0, upto));
}

/// Every rank is below the number of products.
pub proof fn lemma_rank_below_len(scores: Seq<i64>, ids: Seq<Seq<char>>, j: int)
    requires
        ids.no_duplicates(),
        0 <= j < ids.len(),
    ensures
        rank(scores, ids, j) < ids.len(),
{
    let n = ids.len() as int;
    let others = set_int_range(0, n).remove(j);
    lemma_int_range(0, n);
    lemma_ranks_before_order(scores, ids, j, j, j);
    assert(predecessors(scores, ids, j, n).subset_of(others));
    lemma_len_subset(predecessors(scores, ids, j, n), others);
}

/// A product that ranks before another has the lower rank, so different
/// products have different ranks.
pub proof fn lemma_rank_strictly_monotone(scores: Seq<i64>, ids: Seq<Seq<char>>, a: int, b: int)
    requires
        ids.no_duplicates(),
        0 <= a < ids.len(),
        0 <= b < ids.len(),
        ranks_before(scores, ids, a, b),
    ensures
        rank(scores, ids, a) < rank(scores, ids, b),
{
    let n = ids.len() as int;
    let below_a = predecessors(scores, ids, a, n);
    let below_b = predecessors(scores, ids, b, n);
    lemma_predecessors_bounded(scores, ids, b, n);
    lemma_ranks_before_order(scores, ids, a, a, a);
    assert forall|k: int| below_a.contains(k) implies below_b.remove(a).contains(k) by {
        lemma_ranks_before_order(scores, ids, k, a, b);
    }
    assert(below_b.contains(a));
    lemma_len_subset(below_a, below_b.remove(a));
}

/// Tells whether product `a` ranks before product `b`.
pub fn precedes(scores: &Vec<i64>, ids: &IndexMap, a: usize, b: usize) -> (before: bool)
    requires
        scores@.len() == ids@.len(),
        a < ids@.len(),
        b < ids@.len(),
    ensures
        before == ranks_before(scores@, ids@, a as int, b as int),
{
    if scores[a] > scores[b] {
        true
    } else if scores[a] < scores[b] {
        false
    } else {
        comes_before(ids.id_at(a).as_str(), ids.id_at(b).as_str())
    }
}

/// Computes the rank of product `j` by counting the products before it.
pub fn rank_of(scores: &Vec<i64>, ids: &IndexMap, j: usize) -> (r: usize)
    requires
        ids.wf(),
        scores@.len() == ids@.len(),
        j < ids@.len(),
    ensures
        r == rank(scores@, ids@, j as int),
        r < ids@.len(),
{
    let n: usize = scores.len();
    let mut count: usize = 0;
    let mut k: usize = 0;
    proof {
        assert(predecessors(scores@, ids@, j as int, 0) =~= Set::empty());
        ids.lemma_wf();
        lemma_rank_below_len(scores@, ids@, j as int);
    }
    while k < n
        invariant
            n == scores@.len(),
            n == ids@.len(),
            j < n,
            0 <= k <= n,
            count <= k,
            predecessors(scores@, ids@, j as int, k as int).finite(),
            count == predecessors(scores@, ids@, j as int, k as int).len(),
        decreases n - k,
    {
        let ghost seen = predecessors(scores@, ids@, j as int, k as int);
        if precedes(scores, ids, k, j) {
            assert(predecessors(scores@, ids@, j as int, k + 1) =~= seen.insert(k as int));
            count += 1;
        } else {
            assert(predecessors(scores@, ids@, j as int, k + 1) =~= seen);
        }
        k += 1;
    }
    count
}

/// Picks the `n` best-ranked products, best first; all of them where there
/// are fewer than `n`. The product picked at place `t` is the one of rank `t`.
pub fn top_ranked(scores: &Vec<i64>, ids: &IndexMap, n: usize) -> (picked: Vec<usize>)
    requires
        ids.wf(),
        scores@.len() == ids@.len(),
    ensures
        picked@.len() == if n <= ids@.len() {
            n as int
        } else {
            ids@.len() as int
        },
        forall|t: int|
            0 <= t < picked@.len() ==> (#[trigger] picked@[t]) < ids@.len() && rank(
                scores@,
                ids@,
                picked@[t] as int,
            ) == t,
{
    let p: usize = scores.len();
    let want: usize = if n <= p {
        n
    } else {
        p
    };
    let mut taken: Vec<bool> = Vec::new();
    let mut f: usize = 0;
    while f < p
        invariant
            0 <= f <= p,
            taken@.len() == f,
            forall|j: int| 0 <= j < f ==> !taken@[j],
        decreases p - f,
    {
        taken.push(false);
        f += 1;
    }
    let mut picked: Vec<usize> = Vec::new();
    let ghost mut chosen: Seq<int> = Seq::empty();
    proof {
        ids.lemma_wf();
    }
    while picked.len() < want
        invariant
            p == scores@.len(),
            p == ids@.len(),
            ids@.no_duplicates(),
            want <= p,
            taken@.len() == p,
            picked@.len() == chosen.len(),
            chosen.len() <= want,
            chosen.no_duplicates(),
            forall|t: int|
                0 <= t < chosen.len() ==> picked@[t] as int == #[trigger] chosen[t] && 0
                    <= chosen[t] < p,
            forall|j: int| 0 <= j < p ==> #[trigger] taken@[j] == chosen.contains(j),
            forall|t: int|
                0 <= t < chosen.len() ==> predecessors(scores@, ids@, #[trigger] chosen[t], p as int)
                    == chosen.take(t).to_set(),
        decreases want - picked.len(),
    {
        let mut best: usize = p;
        let mut j: usize = 0;
        while j < p
            invariant
                p == scores@.len(),
                p == ids@.len(),
                ids@.no_duplicates(),
                taken@.len() == p,
                0 <= j <= p,
                best <= p,
                best < p ==> best < j && !taken@[best as int],
                best == p ==> forall|k: int| 0 <= k < j ==> #[trigger] taken@[k],
                best < p ==> forall|k: int|
                    0 <= k < j && !(#[trigger] taken@[k]) && k != best ==> ranks_before(
                        scores@,
                        ids@,
                        best as int,
                        k,
                    ),
            decreases p - j,
        {
            if !taken[j] {
                if best == p {
                    best = j;
                } else if precedes(scores, ids, j, best) {
                    proof {
                        let old_best = best as int;
                        assert forall|k: int|
                            0 <= k < j + 1 && !(#[trigger] taken@[k]) && k != j implies ranks_before(
                            scores@,
                            ids@,
                            j as int,
                            k,
                        ) by {
                            if k != old_best {
                                lemma_ranks_before_order(scores@, ids@, j as int, old_best, k);
                            }
                        }
                    }
                    best = j;
                } else {
                    proof {
                        lemma_ranks_before_order(scores@, ids@, best as int, j as int, j as int);
                    }
                }
            }
            j += 1;
        }
        proof {
            chosen.unique_seq_to_set();
            if best == p {
                lemma_int_range(0, p as int);
                assert forall|k: int| set_int_range(0, p as int).contains(k) implies chosen.to_set().contains(
                    k,
                ) by {
                    assert(taken@[k]);
                }
                lemma_len_subset(set_int_range(0, p as int), chosen.to_set());
                assert(false);
            }
            let m = best as int;
            assert(!chosen.contains(m));
            assert(predecessors(scores@, ids@, m, p as int) =~= chosen.to_set()) by {
                assert forall|k: int| predecessors(scores@, ids@, m, p as int).contains(
                    k,
                ) implies chosen.to_set().contains(k) by {
                    lemma_ranks_before_order(scores@, ids@, m, k, m);
                    if !taken@[k] {
                        assert(ranks_before(scores@, ids@, m, k));
                    }
                }
                assert forall|k: int| chosen.to_set().contains(k) implies predecessors(
                    scores@,
                    ids@,
                    m,
                    p as int,
                ).contains(k) by {
                    let t = choose|t: int| 0 <= t < chosen.len() && chosen[t] == k;
                    assert(predecessors(scores@, ids@, chosen[t], p as int) == chosen.take(
                        t,
                    ).to_set());
                    if ranks_before(scores@, ids@, m, k) {
                        assert(predecessors(scores@, ids@, k, p as int).contains(m));
                        assert(chosen.take(t).contains(m));
                        let u = choose|u: int| 0 <= u < chosen.take(t).len() && chosen.take(t)[u] == m;
                        assert(chosen[u] == m);
                    }
                    lemma_ranks_before_order(scores@, ids@, m, k, k);
                }
            }
        }
        taken.set(best, true);
        picked.push(best);
        proof {
            let earlier = chosen;
            chosen = chosen.push(best as int);
            assert(chosen.take(earlier.len() as int) =~= earlier);
            assert forall|t: int| 0 <= t < chosen.len() implies predecessors(
                scores@,
                ids@,
                #[trigger] chosen[t],
                p as int,
            ) == chosen.take(t).to_set() by {
                if t < earlier.len() {
                    assert(chosen.take(t) =~= earlier.take(t));
                    assert(chosen[t] == earlier[t]);
                }
            }
            assert forall|j: int| 0 <= j < p implies #[trigger] taken@[j] == chosen.contains(j) by {
                if j == best {
                    assert(chosen[earlier.len() as int] == j);
                } else {
                    if earlier.contains(j) {
                        let t = choose|t: int| 0 <= t < earlier.len() && earlier[t] == j;
                        assert(chosen[t] == j);
                    }
                    if chosen.contains(j) {
                        let t = choose|t: int| 0 <= t < chosen.len() && chosen[t] == j;
                        assert(earlier[t] == j);
                    }
                }
            }
        }
    }
    proof {
        assert forall|t: int| 0 <= t < picked@.len() implies (#[trigger] picked@[t]) < ids@.len()
            && rank(scores@, ids@, picked@[t] as int) == t by {
            assert(picked@[t] as int == chosen[t]);
            assert(predecessors(scores@, ids@, chosen[t], p as int) == chosen.take(t).to_set());
            chosen.take(t).unique_seq_to_set();
        }
    }
    picked
}

} // verus!
