//! Ranking by score.
//!
//! Scores are computed where floating point numbers may be used, and come
//! here as keys: whole numbers that rise with the scores. The order of the
//! results, best first, is decided here.

use vstd::prelude::*;

verus! {

/// The entry `a` is ranked before the entry `b`: its key is higher, or the
/// keys are equal and it came first.
pub open spec fn before(keys: Seq<u64>, a: usize, b: usize) -> bool {
    keys[a as int] > keys[b as int] || (keys[a as int] == keys[b as int] && a < b)
}

/// A ranking of the first `n` entries: each of them once, the better before
/// the worse.
pub open spec fn ranking(keys: Seq<u64>, order: Seq<usize>, n: int) -> bool {
    &&& order.len() == n
    &&& forall|i: int| 0 <= i < order.len() ==> (#[trigger] order[i]) < n
    &&& forall|i: int, j: int|
        0 <= i < j < order.len() ==> before(keys, #[trigger] order[i], #[trigger] order[j])
    &&& forall|k: usize| k < n ==> #[trigger] order.contains(k)
}

/// Two rankings of the same entries agree up to the position `upto`.
proof fn lemma_rankings_agree(keys: Seq<u64>, a: Seq<usize>, b: Seq<usize>, n: int, upto: int)
    requires
        ranking(keys, a, n),
        ranking(keys, b, n),
        0 <= upto <= n,
    ensures
        forall|j: int| 0 <= j < upto ==> a[j] == b[j],
    decreases upto,
{
    if upto > 0 {
        lemma_rankings_agree(keys, a, b, n, upto - 1);
        let i = upto - 1;
        if a[i] != b[i] {
            assert(b.contains(a[i]));
            let p = choose|p: int| 0 <= p < b.len() && b[p] == a[i];
            assert(a.contains(b[i]));
            let q = choose|q: int| 0 <= q < a.len() && a[q] == b[i];
            if p < i {
                assert(a[p] == b[p]);
                assert(before(keys, a[p], a[i]));
            }
            if q < i {
                assert(a[q] == b[q]);
                assert(before(keys, b[q], b[i]));
            }
            assert(before(keys, b[i], b[p]));
            assert(before(keys, a[i], a[q]));
        }
    }
}

/// A ranking is the only one: two rankings of the same entries agree.
pub proof fn lemma_ranking_unique(keys: Seq<u64>, a: Seq<usize>, b: Seq<usize>, n: int)
    requires
        ranking(keys, a, n),
        ranking(keys, b, n),
    ensures
        a == b,
{
    lemma_rankings_agree(keys, a, b, n, n);
    assert(a =~= b);
}

/// Ranks entries by their keys, the highest first. Entries with one key
/// keep the order in which they came.
#[verifier::rlimit(40)]
pub fn rank_descending(keys: &Vec<u64>) -> (order: Vec<usize>)
    ensures
        ranking(keys@, order@, keys@.len() as int),
{
    let mut order: Vec<usize> = Vec::new();
    let mut i: usize = 0;
    while i < keys.len()
        invariant
            i <= keys@.len(),
            ranking(keys@, order@, i as int),
        decreases keys@.len() - i,
    {
        let mut p: usize = 0;
        while p < order.len() && keys[order[p]] >= keys[i]
            invariant
                p <= order@.len(),
                i < keys@.len(),
                ranking(keys@, order@, i as int),
                forall|q: int| 0 <= q < p ==> keys@[(#[trigger] order@[q]) as int] >= keys@[i as int],
            decreases order@.len() - p,
        {
            p += 1;
        }
        let ghost before_insert = order@;
        order.insert(p, i);
        proof {
            let out = order@;
            assert(out =~= before_insert.insert(p as int, i));
            assert forall|a: int| 0 <= a < out.len() implies (#[trigger] out[a]) < i + 1 by {
                if a < p {
                    assert(out[a] == before_insert[a]);
                } else if a > p {
                    assert(out[a] == before_insert[a - 1]);
                }
            }
            assert forall|a: int, b: int| 0 <= a < b < out.len() implies before(
                keys@,
                #[trigger] out[a],
                #[trigger] out[b],
            ) by {
                if b == p {
                    assert(out[a] == before_insert[a]);
                } else if a == p {
                    assert(out[b] == before_insert[b - 1]);
                    if b - 1 > p {
                        assert(before(keys@, before_insert[p as int], before_insert[b - 1]));
                    }
                } else {
                    let x = if a < p {
                        a
                    } else {
                        a - 1
                    };
                    let y = if b < p {
                        b
                    } else {
                        b - 1
                    };
                    assert(out[a] == before_insert[x] && out[b] == before_insert[y]);
                    assert(before(keys@, before_insert[x], before_insert[y]));
                }
            }
            assert forall|k: usize| k < i + 1 implies #[trigger] out.contains(k) by {
                if k == i {
                    assert(out[p as int] == i);
                } else {
                    assert(before_insert.contains(k));
                    let q = choose|q: int| 0 <= q < before_insert.len() && before_insert[q] == k;
                    if q < p {
                        assert(out[q] == k);
                    } else {
                        assert(out[q + 1] == k);
                    }
                }
            }
        }
        i += 1;
    }
    order
}

/// Of the entries `order[from..upto]`, those whose key is above the
/// threshold.
pub open spec fn above(keys: Seq<u64>, order: Seq<usize>, threshold: u64, from: int, upto: int) -> Seq<
    usize,
>
    decreases upto - from,
{
    if from < 0 || from >= upto || from >= order.len() {
        Seq::empty()
    } else if order[from] < keys.len() && keys[order[from] as int] > threshold {
        seq![order[from]] + above(keys, order, threshold, from + 1, upto)
    } else {
        above(keys, order, threshold, from + 1, upto)
    }
}

/// Of the first `count` entries of a ranking, those whose key is above the
/// threshold.
pub fn top_above(keys: &Vec<u64>, order: &Vec<usize>, count: usize, threshold: u64) -> (r: Vec<
    usize,
>)
    ensures
        r@ == above(keys@, order@, threshold, 0, count as int),
{
    let mut out: Vec<usize> = Vec::new();
    let mut i: usize = 0;
    assert(out@ + above(keys@, order@, threshold, 0, count as int) =~= above(
        keys@,
        order@,
        threshold,
        0,
        count as int,
    ));
    while i < count && i < order.len()
        invariant
            out@ + above(keys@, order@, threshold, i as int, count as int) == above(
                keys@,
                order@,
                threshold,
                0,
                count as int,
            ),
        decreases order@.len() - i,
    {
        let ghost before_push = out@;
        let entry = order[i];
        if entry < keys.len() && keys[entry] > threshold {
            out.push(entry);
            assert(out@ + above(keys@, order@, threshold, i + 1, count as int) =~= before_push
                + above(keys@, order@, threshold, i as int, count as int));
        }
        i += 1;
    }
    assert(out@ + Seq::<usize>::empty() =~= out@);
    out
}

} // verus!
