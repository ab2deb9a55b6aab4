//! Top-k selection over ordered score keys: keep the candidates whose key
//! reaches the threshold, order them by key descending with the lower index
//! first among equal keys, and keep the first `k`.
//!
//! A score is given as `Some(key)`, where keys order exactly as the scores do,
//! or as `None` for a score that compares with nothing (and so never reaches
//! any threshold); a `None` threshold is reached by no score.

use vstd::prelude::*;

verus! {

/// Candidate `i` exists and its key reaches the threshold.
pub open spec fn passes(scores: Seq<Option<u64>>, threshold: Option<u64>, i: int) -> bool {
    &&& 0 <= i < scores.len()
    &&& scores[i] is Some
    &&& threshold is Some
    &&& scores[i].unwrap() >= threshold.unwrap()
}

/// Candidate `i` ranks before candidate `j`: a higher key, or an equal key
/// and a lower index.
pub open spec fn ranks_before(scores: Seq<Option<u64>>, i: int, j: int) -> bool {
    let ki = scores[i].unwrap();
    let kj = scores[j].unwrap();
    ki > kj || (ki == kj && i < j)
}

/// `r` is the top-`k` selection: at most `k` passing candidates in strict
/// rank order, and every passing candidate left out ranks after all of them
/// and was left out only because `k` were already kept.
pub open spec fn is_top_k(
    scores: Seq<Option<u64>>,
    threshold: Option<u64>,
    k: nat,
    r: Seq<usize>,
) -> bool {
    &&& r.len() <= k
    &&& forall|p: int| 0 <= p < r.len() ==> passes(scores, threshold, #[trigger] r[p] as int)
    &&& forall|p: int, q: int|
        0 <= p < q < r.len() ==> ranks_before(scores, #[trigger] r[p] as int, #[trigger] r[q] as int)
    &&& forall|j: int|
        #![trigger passes(scores, threshold, j)]
        passes(scores, threshold, j) && !r.contains(j as usize) ==> {
            &&& r.len() == k
            &&& forall|p: int| 0 <= p < r.len() ==> ranks_before(scores, #[trigger] r[p] as int, j)
        }
}

fn contains_index(v: &Vec<usize>, x: usize) -> (b: bool)
    ensures
        b == v@.contains(x),
{
    let mut i: usize = 0;
    while i < v.len()
        invariant
            i <= v.len(),
            forall|p: int| 0 <= p < i ==> v@[p] != x,
        decreases v.len() - i,
    {
        if v[i] == x {
            assert(v@[i as int] == x);
            return true;
        }
        i = i + 1;
    }
    false
}

fn passes_exec(scores: &Vec<Option<u64>>, threshold: Option<u64>, i: usize) -> (b: bool)
    requires
        i < scores.len(),
    ensures
        b == passes(scores@, threshold, i as int),
{
    match (scores[i], threshold) {
        (Some(s), Some(t)) => s >= t,
        _ => false,
    }
}

/// The indices of the top `top_k` candidates (see the module doc), best first.
pub fn select_top_k(scores: &Vec<Option<u64>>, threshold: Option<u64>, top_k: usize) -> (r: Vec<usize>)
    ensures
        is_top_k(scores@, threshold, top_k as nat, r@),
{
    let n = scores.len();
    let mut out: Vec<usize> = Vec::new();
    while out.len() < top_k
        invariant
            n == scores.len(),
            out.len() <= top_k,
            forall|p: int| 0 <= p < out.len() ==> passes(scores@, threshold, #[trigger] out@[p] as int),
            forall|p: int, q: int|
                0 <= p < q < out.len() ==> ranks_before(scores@, #[trigger] out@[p] as int, #[trigger] out@[q] as int),
            forall|j: int|
                #![trigger passes(scores@, threshold, j)]
                passes(scores@, threshold, j) && !out@.contains(j as usize) ==> forall|p: int|
                    0 <= p < out.len() ==> ranks_before(scores@, #[trigger] out@[p] as int, j),
        ensures
            out.len() <= top_k,
            out.len() < top_k ==> forall|j: int|
                #![trigger passes(scores@, threshold, j)]
                passes(scores@, threshold, j) ==> out@.contains(j as usize),
        decreases top_k - out.len(),
    {
        let mut best: Option<usize> = None;
        let mut j: usize = 0;
        while j < n
            invariant
                n == scores.len(),
                j <= n,
                best matches Some(b) ==> {
                    &&& b < j
                    &&& passes(scores@, threshold, b as int)
                    &&& !out@.contains(b)
                },
                forall|i: int|
                    #![trigger passes(scores@, threshold, i)]
                    0 <= i < j && passes(scores@, threshold, i) && !out@.contains(i as usize) ==> {
                        &&& best is Some
                        &&& (i != best.unwrap() ==> ranks_before(scores@, best.unwrap() as int, i))
                    },
            decreases n - j,
        {
            if passes_exec(scores, threshold, j) && !contains_index(&out, j) {
                match best {
                    None => {
                        best = Some(j);
                    },
                    Some(b) => {
                        let kj = scores[j].unwrap();
                        let kb = scores[b].unwrap();
                        if kj > kb {
                            best = Some(j);
                        }
                    },
                }
            }
            j = j + 1;
        }
        match best {
            None => {
                break;
            },
            Some(b) => {
                let ghost prev = out@;
                out.push(b);
                proof {
                    assert(out@ == prev.push(b));
                    assert forall|j: int|
                        #![trigger passes(scores@, threshold, j)]
                        passes(scores@, threshold, j) && !out@.contains(j as usize) implies forall|p: int|
                        0 <= p < out.len() ==> ranks_before(scores@, #[trigger] out@[p] as int, j) by {
                        assert(!prev.contains(j as usize)) by {
                            if prev.contains(j as usize) {
                                let q = choose|q: int| 0 <= q < prev.len() && prev[q] == j as usize;
                                assert(out@[q] == j as usize);
                            }
                        }
                        assert(j as usize != b) by {
                            assert(out@[prev.len() as int] == b);
                        }
                    }
                    assert forall|j: int|
                        #![trigger passes(scores@, threshold, j)]
                        passes(scores@, threshold, j) && !prev.contains(j as usize) implies !out@.contains(j as usize) || j == b as int by {
                        if out@.contains(j as usize) {
                            let q = choose|q: int| 0 <= q < out.len() && out@[q] == j as usize;
                            if q < prev.len() {
                                assert(prev[q] == j as usize);
                            }
                        }
                    }
                }
            },
        }
    }
    out
}


/// The best candidate: the head of the top-1 selection, `None` when no
/// candidate reaches the threshold.
pub fn select_top1(scores: &Vec<Option<u64>>, threshold: Option<u64>) -> (r: Option<usize>)
    ensures
        match r {
            Some(i) => passes(scores@, threshold, i as int) && forall|j: int|
                #![trigger passes(scores@, threshold, j)]
                passes(scores@, threshold, j) && j != i ==> ranks_before(scores@, i as int, j),
            None => forall|j: int| !passes(scores@, threshold, j),
        },
{
    let top = select_top_k(scores, threshold, 1);
    if top.len() == 0 {
        proof {
            assert forall|j: int| !passes(scores@, threshold, j) by {
                if passes(scores@, threshold, j) {
                    assert(0 <= j < scores.len());
                    assert(!top@.contains(j as usize));
                }
            }
        }
        None
    } else {
        let i = top[0];
        proof {
            assert forall|j: int|
                #![trigger passes(scores@, threshold, j)]
                passes(scores@, threshold, j) && j != i implies ranks_before(scores@, i as int, j) by {
                assert(0 <= j < scores.len());
                assert(j as usize != i);
                if top@.contains(j as usize) {
                    let q = choose|q: int| 0 <= q < top.len() && top@[q] == j as usize;
                }
            }
        }
        Some(i)
    }
}

proof fn lemma_sorted_distinct(scores: Seq<Option<u64>>, threshold: Option<u64>, k: nat, r: Seq<usize>, p: int, q: int)
    requires
        is_top_k(scores, threshold, k, r),
        0 <= p < r.len(),
        0 <= q < r.len(),
        p != q,
    ensures
        r[p] != r[q],
{
    if p < q {
        assert(ranks_before(scores, r[p] as int, r[q] as int));
    } else {
        assert(ranks_before(scores, r[q] as int, r[p] as int));
    }
}

/// Law: the top-`k1` selection is a prefix of the top-`k2` selection for
/// `k1 <= k2`, of length `min(k1, len of the top-k2)`; in particular a
/// top-1 decode is the head of any longer ranking, and the selection for a
/// given `k` is unique.
pub proof fn lemma_top_k_prefix(
    scores: Seq<Option<u64>>,
    threshold: Option<u64>,
    k1: nat,
    k2: nat,
    r1: Seq<usize>,
    r2: Seq<usize>,
)
    requires
        scores.len() <= usize::MAX,
        k1 <= k2,
        is_top_k(scores, threshold, k1, r1),
        is_top_k(scores, threshold, k2, r2),
    ensures
        r1.len() == vstd::math::min(k1 as int, r2.len() as int),
        r1 == r2.subrange(0, r1.len() as int),
    decreases r1.len(),
{
    let m = r1.len() as int;
    if m > 0 {
        let r1s = r1.drop_last();
        // The shorter selection, minus its last entry, is the top-(m-1).
        assert(is_top_k(scores, threshold, (m - 1) as nat, r1s)) by {
            assert forall|j: int|
                #![trigger passes(scores, threshold, j)]
                passes(scores, threshold, j) && !r1s.contains(j as usize) implies {
                    &&& r1s.len() == (m - 1) as nat
                    &&& forall|p: int| 0 <= p < r1s.len() ==> ranks_before(scores, #[trigger] r1s[p] as int, j)
                } by {
                if r1.contains(j as usize) {
                    let q = choose|q: int| 0 <= q < r1.len() && r1[q] == j as usize;
                    if q < m - 1 {
                        assert(r1s[q] == j as usize);
                    }
                    assert(q == m - 1);
                    assert(r1[m - 1] as int == j);
                    assert forall|p: int| 0 <= p < r1s.len() implies ranks_before(scores, #[trigger] r1s[p] as int, j) by {
                        assert(r1s[p] == r1[p]);
                        assert(ranks_before(scores, r1[p] as int, r1[m - 1] as int));
                    }
                } else {
                    assert forall|p: int| 0 <= p < r1s.len() implies ranks_before(scores, #[trigger] r1s[p] as int, j) by {
                        assert(r1s[p] == r1[p]);
                    }
                }
            }
            assert forall|p: int, q: int| 0 <= p < q < r1s.len() implies ranks_before(scores, #[trigger] r1s[p] as int, #[trigger] r1s[q] as int) by {
                assert(r1s[p] == r1[p] && r1s[q] == r1[q]);
            }
            assert forall|p: int| 0 <= p < r1s.len() implies passes(scores, threshold, #[trigger] r1s[p] as int) by {
                assert(r1s[p] == r1[p]);
            }
        }
        lemma_top_k_prefix(scores, threshold, (m - 1) as nat, k2, r1s, r2);
        // Now r1s == r2[0..m-1]; compare the m-th entries.
        let a = r1[m - 1];
        assert forall|q: int| 0 <= q < m - 1 implies r2[q] == r1[q] by {
            assert(r1s[q] == r1[q]);
        }
        // `a` is not among r2's first m-1 entries.
        assert(forall|q: int| 0 <= q < m - 1 ==> r2[q] != a) by {
            assert forall|q: int| 0 <= q < m - 1 implies r2[q] != a by {
                lemma_sorted_distinct(scores, threshold, k1, r1, q, m - 1);
            }
        }
        assert(passes(scores, threshold, a as int));
        if r2.len() <= m - 1 {
            // r2 has no entry at position m-1: `a` is left out of r2.
            assert(!r2.contains(a)) by {
                if r2.contains(a) {
                    let q = choose|q: int| 0 <= q < r2.len() && r2[q] == a;
                }
            }
            assert(false);
        }
        let b = r2[m - 1];
        assert(passes(scores, threshold, b as int));
        if a != b {
            // b is not among r1's first m-1 entries.
            assert(forall|q: int| 0 <= q < m - 1 ==> r1[q] != b) by {
                assert forall|q: int| 0 <= q < m - 1 implies r1[q] != b by {
                    lemma_sorted_distinct(scores, threshold, k2, r2, q, m - 1);
                }
            }
            assert(!r1.contains(b)) by {
                if r1.contains(b) {
                    let q = choose|q: int| 0 <= q < r1.len() && r1[q] == b;
                }
            }
            // so every entry of r1, in particular `a`, ranks before b ...
            assert(ranks_before(scores, a as int, b as int));
            // ... while b ranks before a in r2, wherever a sits there.
            if r2.contains(a) {
                let q = choose|q: int| 0 <= q < r2.len() && r2[q] == a;
                assert(q != m - 1);
                if q < m - 1 {
                    assert(false);
                }
                assert(ranks_before(scores, b as int, a as int));
            } else {
                assert(ranks_before(scores, r2[m - 1] as int, a as int));
            }
            assert(false);
        }
        assert(r1 =~= r2.subrange(0, m));
        if r1.len() < k1 && r2.len() > m {
            let c = r2[m];
            assert(passes(scores, threshold, c as int));
            assert(!r1.contains(c)) by {
                if r1.contains(c) {
                    let q = choose|q: int| 0 <= q < r1.len() && r1[q] == c;
                    assert(r2[q] == c);
                    lemma_sorted_distinct(scores, threshold, k2, r2, q, m);
                }
            }
            assert(false);
        }
    } else {
        if k1 > 0 && r2.len() > 0 {
            let c = r2[0];
            assert(passes(scores, threshold, c as int));
            assert(!r1.contains(c));
            assert(false);
        }
        assert(r1 =~= r2.subrange(0, 0));
    }
}

} // verus!
