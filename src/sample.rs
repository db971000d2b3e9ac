use rand::distributions::{Distribution, WeightedIndex};
use rand::seq::IteratorRandom;
use vstd::prelude::*;
use vstd::set_lib::{lemma_int_range, lemma_len_subset, set_int_range};

use crate::chain::{lemma_sum_bounds, sum};

verus! {

/// `top` lists `k` distinct indices of `w`, and no index left out of it has a
/// larger weight than an index in it.
pub open spec fn is_top(w: Seq<u64>, k: int, top: Seq<usize>) -> bool {
    &&& top.len() == k
    &&& top.no_duplicates()
    &&& forall|i: int| 0 <= i < k ==> #[trigger] top[i] < w.len()
    &&& forall|i: int, j: int|
        0 <= i < k && 0 <= j < w.len() && !top.contains(j as usize) ==> w[#[trigger] top[i] as int]
            >= #[trigger] w[j]
}

/// Some weight of `w` is positive.
pub open spec fn has_positive(w: Seq<u64>) -> bool {
    exists|j: int| 0 <= j < w.len() && #[trigger] w[j] > 0
}

/// Share of the candidates, in percent, that sampling keeps.
pub const TOP_PERCENT: usize = 35;

/// How many of `n` candidates sampling keeps: `TOP_PERCENT` percent of them,
/// rounded down, but at least one.
pub open spec fn top_size(n: int) -> int {
    let t = n * (TOP_PERCENT as int) / 100;
    if t < 1 {
        1
    } else {
        t
    }
}

/// Relies on `IteratorRandom::choose` over the range `0..n` with the thread
/// RNG: `None` for an empty range, else an index below `n`.
#[verifier::external_body]
pub(crate) fn random_index(n: usize) -> (r: Option<usize>)
    ensures
        r is Some <==> n > 0,
        r matches Some(i) ==> i < n,
{
    (0..n).choose(&mut rand::thread_rng())
}

/// Relies on `WeightedIndex::new` and its `sample` with the thread RNG: no
/// distribution when the weights are empty or sum to zero, else the index of
/// a positive weight.
#[verifier::external_body]
fn weighted_index(weights: &[u64]) -> (r: Option<usize>)
    requires
        sum(weights@) <= u64::MAX,
    ensures
        r is Some <==> sum(weights@) > 0,
        r matches Some(i) ==> i < weights@.len() && weights@[i as int] > 0,
{
    match WeightedIndex::new(weights) {
        Ok(d) => Some(d.sample(&mut rand::thread_rng())),
        Err(_) => None,
    }
}

/// Fewer than `n` distinct indices leave one of `0..n` out.
proof fn lemma_missing_index(top: Seq<usize>, n: int)
    requires
        top.no_duplicates(),
        top.len() < n,
        n <= usize::MAX,
    ensures
        exists|j: usize| (j as int) < n && !#[trigger] top.contains(j),
{
    let s = top.map_values(|x: usize| x as int);
    assert(s.no_duplicates()) by {
        assert forall|a: int, b: int| 0 <= a < s.len() && 0 <= b < s.len() && a != b implies s[a]
            != s[b] by {
            assert(top[a] != top[b]);
        }
    }
    s.unique_seq_to_set();
    if forall|j: usize| (j as int) < n ==> #[trigger] top.contains(j) {
        assert(set_int_range(0, n).subset_of(s.to_set())) by {
            assert forall|x: int| set_int_range(0, n).contains(x) implies s.to_set().contains(x) by {
                assert(top.contains(x as usize));
                let i = choose|i: int| 0 <= i < top.len() && top[i] == x as usize;
                assert(s[i] == x);
            }
        }
        lemma_int_range(0, n);
        lemma_len_subset(set_int_range(0, n), s.to_set());
    }
}

/// The number of candidates that sampling keeps out of `n`.
pub fn top_count(n: usize) -> (r: usize)
    requires
        1 <= n,
        n * n <= usize::MAX,
    ensures
        r == top_size(n as int),
        1 <= r <= n,
{
    assert(n * 35 <= usize::MAX) by (nonlinear_arith)
        requires
            1 <= n,
            n * n <= usize::MAX,
    ;
    let t = n * TOP_PERCENT / 100;
    assert(n * 35 / 100 <= n) by (nonlinear_arith)
        requires
            1 <= n,
    ;
    if t < 1 {
        1
    } else {
        t
    }
}

/// Indices of `k` heaviest weights of `w`; of equal weights the earlier
/// index is taken first.
pub fn top_indices(w: &[u64], k: usize) -> (r: Vec<usize>)
    requires
        k <= w@.len(),
    ensures
        is_top(w@, k as int, r@),
{
    let n = w.len();
    let mut chosen: Vec<bool> = vec![false; n];
    let mut top: Vec<usize> = Vec::new();
    let mut t: usize = 0;
    while t < k
        invariant
            k <= n == w@.len(),
            chosen@.len() == n,
            0 <= t <= k,
            top@.len() == t,
            top@.no_duplicates(),
            forall|i: int| 0 <= i < t ==> #[trigger] top@[i] < n,
            forall|j: int| 0 <= j < n ==> (chosen@[j] <==> top@.contains(j as usize)),
            forall|i: int, j: int|
                0 <= i < t && 0 <= j < n && !chosen@[j] ==> w@[#[trigger] top@[i] as int]
                    >= #[trigger] w@[j],
        decreases k - t,
    {
        proof {
            lemma_missing_index(top@, n as int);
        }
        let mut best: usize = n;
        let mut j: usize = 0;
        while j < n
            invariant
                n == w@.len(),
                chosen@.len() == n,
                0 <= j <= n,
                best <= n,
                best == n ==> forall|jj: int| 0 <= jj < j ==> chosen@[jj],
                best < n ==> best < j && !chosen@[best as int] && forall|jj: int|
                    0 <= jj < j && !chosen@[jj] ==> w@[best as int] >= w@[jj],
            decreases n - j,
        {
            if !chosen[j] && (best == n || w[j] > w[best]) {
                best = j;
            }
            j += 1;
        }
        proof {
            if best == n {
                let jj = choose|jj: usize| (jj as int) < n && !#[trigger] top@.contains(jj);
                assert(chosen@[jj as int]);
            }
        }
        let ghost prev = top@;
        let ghost prev_chosen = chosen@;
        top.push(best);
        chosen.set(best, true);
        proof {
            assert forall|a: int, b: int|
                0 <= a < top@.len() && 0 <= b < top@.len() && a != b implies top@[a] != top@[b] by {
                if a == t as int {
                    assert(!prev.contains(best));
                    assert(prev[b] == top@[b]);
                } else if b == t as int {
                    assert(!prev.contains(best));
                    assert(prev[a] == top@[a]);
                }
            }
            assert forall|jj: int| 0 <= jj < n implies (chosen@[jj] <==> top@.contains(
                jj as usize,
            )) by {
                if top@.contains(jj as usize) {
                    let a = choose|a: int| 0 <= a < top@.len() && top@[a] == jj as usize;
                    if a < t {
                        assert(prev[a] == jj as usize);
                    }
                }
                if prev.contains(jj as usize) {
                    let a = choose|a: int| 0 <= a < prev.len() && prev[a] == jj as usize;
                    assert(top@[a] == jj as usize);
                }
                if jj == best as int {
                    assert(top@[t as int] == best);
                }
            }
            assert forall|i: int, jj: int|
                0 <= i < t + 1 && 0 <= jj < n && !chosen@[jj] implies w@[#[trigger] top@[i] as int]
                >= #[trigger] w@[jj] by {
                assert(!prev_chosen[jj]);
                if i < t {
                    assert(top@[i] == prev[i]);
                }
            }
        }
        t += 1;
    }
    assert forall|i: int, j: int|
        0 <= i < k && 0 <= j < w@.len() && !top@.contains(j as usize) implies w@[#[trigger] top@[
        i] as int] >= #[trigger] w@[j] by {
        assert(!chosen@[j]);
    }
    top
}

/// Draws an index of `weights` among its `k` heaviest, with probability in
/// proportion to weight. When the kept weights sum to zero the draw is
/// uniform among them; when their sum does not fit in a `u64` the heaviest
/// kept index is taken.
pub fn choose_from_top(weights: &[u64], k: usize) -> (r: usize)
    requires
        1 <= k <= weights@.len(),
    ensures
        r < weights@.len(),
        exists|top: Seq<usize>| is_top(weights@, k as int, top) && top.contains(r),
        has_positive(weights@) ==> weights@[r as int] > 0,
{
    let top = top_indices(weights, k);
    let mut cand: Vec<u64> = Vec::new();
    let mut best: usize = 0;
    let mut total: u64 = 0;
    let mut fits = true;
    let mut i: usize = 0;
    while i < k
        invariant
            1 <= k <= weights@.len(),
            is_top(weights@, k as int, top@),
            0 <= i <= k,
            cand@.len() == i,
            forall|ii: int| 0 <= ii < i ==> cand@[ii] == weights@[top@[ii] as int],
            best < k,
            i > 0 ==> best < i,
            forall|ii: int| 0 <= ii < i ==> cand@[best as int] >= cand@[ii],
            fits ==> total == sum(cand@),
            i > 0 && cand@[best as int] == 0 ==> fits && total == 0,
            i == 0 ==> fits && total == 0,
        decreases k - i,
    {
        let w = weights[top[i]];
        let ghost prev = cand@;
        cand.push(w);
        proof {
            assert(cand@.drop_last() =~= prev);
        }
        if i == 0 || w > cand[best] {
            best = i;
        }
        if fits {
            match total.checked_add(w) {
                Some(s) => {
                    total = s;
                },
                None => {
                    fits = false;
                },
            }
        }
        i += 1;
    }
    let len = weights.len();
    proof {
        if has_positive(weights@) {
            let j = choose|j: int| 0 <= j < weights@.len() && #[trigger] weights@[j] > 0;
            if top@.contains(j as usize) {
                let a = choose|a: int| 0 <= a < k && top@[a] == j as usize;
                assert(cand@[a] == weights@[j]);
                assert(cand@[best as int] >= cand@[a]);
            } else {
                assert(weights@[top@[0] as int] >= weights@[j]);
                assert(cand@[0] == weights@[top@[0] as int]);
                assert(cand@[best as int] >= cand@[0]);
            }
            assert(cand@[best as int] > 0);
            lemma_sum_bounds(cand@, best as int);
        }
    }
    if !fits {
        assert(top@.contains(top@[best as int]));
        return top[best];
    }
    let pick = match weighted_index(cand.as_slice()) {
        Some(p) => p,
        None => match random_index(k) {
            Some(p) => p,
            None => 0,
        },
    };
    assert(top@.contains(top@[pick as int]));
    top[pick]
}

} // verus!
