use crate::model::{
    candidate, fits, frontier, generators_ok, is_smooth_prefix, lemma_exhausted,
    lemma_frontier_step, lemma_initial_frontier, lemma_one_prefix,
};
use vstd::prelude::*;

verus! {

/// The smallest candidate of the frontier that fits in a `u64`, or `None`
/// when every candidate overflows.
fn min_candidate(primes: &[u64], v: &Vec<u64>, idx: &Vec<usize>) -> (r: Option<u64>)
    requires
        idx@.len() == primes@.len(),
        forall|j: int| 0 <= j < idx@.len() ==> #[trigger] idx@[j] < v@.len(),
    ensures
        match r {
            None => forall|j: int|
                0 <= j < primes@.len() ==> candidate(primes@, v@, idx@, j) > u64::MAX,
            Some(c) => {
                &&& exists|j: int|
                    0 <= j < primes@.len() && candidate(primes@, v@, idx@, j) == c as int
                &&& forall|j: int|
                    0 <= j < primes@.len() ==> candidate(primes@, v@, idx@, j) >= c as int
            },
        },
{
    let mut best: Option<u64> = None;
    let mut j: usize = 0;
    while j < primes.len()
        invariant
            j <= primes@.len(),
            idx@.len() == primes@.len(),
            forall|k: int| 0 <= k < idx@.len() ==> #[trigger] idx@[k] < v@.len(),
            match best {
                None => forall|k: int|
                    0 <= k < j ==> candidate(primes@, v@, idx@, k) > u64::MAX,
                Some(c) => {
                    &&& exists|k: int| 0 <= k < j && candidate(primes@, v@, idx@, k) == c as int
                    &&& forall|k: int| 0 <= k < j ==> candidate(primes@, v@, idx@, k) >= c as int
                },
            },
        decreases primes@.len() - j,
    {
        let p = primes[j];
        let x = v[idx[j]];
        assert(candidate(primes@, v@, idx@, j as int) == (p as int) * (x as int));
        let c = p.checked_mul(x);
        if let Some(c) = c {
            let smaller = match best {
                None => true,
                Some(b) => c < b,
            };
            if smaller {
                best = Some(c);
            }
        }
        j += 1;
    }
    best
}

/// The general multi-way merge over at least one generator, or `None` when
/// the first `n` smooth numbers do not fit in a `u64`.
pub(crate) fn merge(primes: &[u64], n: usize) -> (r: Option<Vec<u64>>)
    requires
        primes@.len() >= 1,
        generators_ok(primes@),
        n >= 1,
    ensures
        match r {
            Some(v) => v@.len() == n && is_smooth_prefix(primes@, v@),
            None => !fits(primes@, n as nat),
        },
{
    let g = Ghost(primes@);
    let m = primes.len();
    let mut idx: Vec<usize> = Vec::new();
    while idx.len() < m
        invariant
            idx@.len() <= m,
            forall|j: int| 0 <= j < idx@.len() ==> #[trigger] idx@[j] == 0,
        decreases m - idx@.len(),
    {
        idx.push(0);
    }
    let mut v: Vec<u64> = Vec::with_capacity(n);
    v.push(1);
    proof {
        assert(v@ =~= seq![1u64]);
        lemma_one_prefix(g@);
        lemma_initial_frontier(g@, idx@);
    }
    while v.len() < n
        invariant
            g@ == primes@,
            m == primes@.len(),
            m >= 1,
            generators_ok(g@),
            1 <= v@.len() <= n,
            is_smooth_prefix(g@, v@),
            frontier(g@, v@, idx@),
        decreases n - v@.len(),
    {
        let best = min_candidate(primes, &v, &idx);
        let new = match best {
            Some(c) => c,
            None => {
                proof {
                    lemma_exhausted(g@, v@, idx@, n as nat);
                }
                return None;
            },
        };
        let ghost old_v = v@;
        let ghost old_idx = idx@;
        let ghost j0 = choose|j: int| 0 <= j < m && candidate(g@, old_v, old_idx, j) == new as int;
        v.push(new);
        let mut j: usize = 0;
        while j < m
            invariant
                g@ == primes@,
                m == primes@.len(),
                j <= m,
                old_v.len() < n,
                v@ == old_v.push(new),
                idx@.len() == m,
                frontier(g@, old_v, old_idx),
                forall|k: int|
                    0 <= k < j ==> #[trigger] idx@[k] == if candidate(g@, old_v, old_idx, k)
                        == new as int {
                        old_idx[k] + 1
                    } else {
                        old_idx[k] as int
                    },
                forall|k: int| j <= k < m ==> #[trigger] idx@[k] == old_idx[k],
            decreases m - j,
        {
            let c = idx[j];
            assert(old_idx[j as int] < old_v.len());
            assert(v@[c as int] == old_v[c as int]);
            assert(candidate(g@, old_v, old_idx, j as int) == (primes@[j as int] as int) * (
            v@[c as int] as int));
            if primes[j].checked_mul(v[c]) == Some(new) {
                idx.set(j, c + 1);
            }
            j += 1;
        }
        proof {
            lemma_frontier_step(g@, old_v, old_idx, idx@, new, j0);
        }
    }
    Some(v)
}

/// The powers of a single generator `p`: `1, p, p^2, ...`, or `None` when
/// the first `n` of them do not fit in a `u64`.
pub(crate) fn powers(p: u64, n: usize) -> (r: Option<Vec<u64>>)
    requires
        p >= 2,
        n >= 1,
    ensures
        match r {
            Some(v) => v@.len() == n && is_smooth_prefix(seq![p], v@),
            None => !fits(seq![p], n as nat),
        },
{
    let ghost g = seq![p];
    assert(generators_ok(g));
    let mut v: Vec<u64> = Vec::with_capacity(n);
    v.push(1);
    let mut x: u64 = 1;
    proof {
        assert(v@ =~= seq![1u64]);
        lemma_one_prefix(g);
        lemma_initial_frontier(g, seq![0usize]);
    }
    while v.len() < n
        invariant
            g == seq![p],
            generators_ok(g),
            1 <= v@.len() <= n,
            x == v@.last(),
            is_smooth_prefix(g, v@),
            frontier(g, v@, seq![(v@.len() - 1) as usize]),
        decreases n - v@.len(),
    {
        let ghost old_v = v@;
        let ghost cursor = seq![(v@.len() - 1) as usize];
        assert(candidate(g, old_v, cursor, 0) == (p as int) * (x as int));
        match x.checked_mul(p) {
            Some(y) => {
                assert((p as int) * (x as int) == (x as int) * (p as int)) by (nonlinear_arith);
                x = y;
            },
            None => {
                proof {
                    assert((p as int) * (x as int) == (x as int) * (p as int)) by (nonlinear_arith);
                    lemma_exhausted(g, v@, cursor, n as nat);
                }
                return None;
            },
        }
        v.push(x);
        proof {
            lemma_frontier_step(g, old_v, cursor, seq![old_v.len() as usize], x, 0);
        }
    }
    Some(v)
}

/// Generates the first `n` numbers whose factors are all among `primes`,
/// in ascending order, or `None` when they do not all fit in a `u64`.
///
/// With no generators the only such number is 1, so the result is `[1]` for
/// any positive `n`.
pub fn try_with_primes(primes: &[u64], n: usize) -> (r: Option<Vec<u64>>)
    requires
        generators_ok(primes@),
    ensures
        match r {
            Some(v) => {
                &&& v@.len() == if primes@.len() == 0 && n > 0 {
                    1
                } else {
                    n as int
                }
                &&& is_smooth_prefix(primes@, v@)
            },
            None => primes@.len() > 0 && !fits(primes@, n as nat),
        },
{
    if n == 0 {
        let r: Vec<u64> = Vec::new();
        assert(r@.len() == 0);
        return Some(r);
    }
    if primes.len() == 0 {
        let r = vec![1u64];
        proof {
            assert(r@ =~= seq![1u64]);
            lemma_one_prefix(primes@);
        }
        return Some(r);
    }
    if primes.len() == 1 {
        assert(primes@ =~= seq![primes@[0]]);
        return powers(primes[0], n);
    }
    merge(primes, n)
}

/// Generates the first `n` numbers whose factors are all among `primes`,
/// in ascending order.
///
/// With no generators the only such number is 1, so the result is `[1]` for
/// any positive `n`. The first `n` such numbers must fit in a `u64`.
pub fn with_primes(primes: &[u64], n: usize) -> (r: Vec<u64>)
    requires
        generators_ok(primes@),
        primes@.len() == 0 || fits(primes@, n as nat),
    ensures
        r@.len() == if primes@.len() == 0 && n > 0 {
            1
        } else {
            n as int
        },
        is_smooth_prefix(primes@, r@),
{
    match try_with_primes(primes, n) {
        Some(v) => v,
        None => vstd::pervasive::unreached(),
    }
}

} // verus!
