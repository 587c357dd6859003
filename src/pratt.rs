use crate::model::{
    candidate, fits, frontier, generators_ok, is_smooth_prefix, lemma_exhausted,
    lemma_frontier_step, lemma_initial_frontier, lemma_one_prefix, pratt_generators,
};
use vstd::prelude::*;

verus! {

/// Generates the first `n` numbers of Pratt's sequence, the numbers of the
/// form `2^i * 3^j`, in ascending order.
///
/// This is the merge over the generators 2 and 3 with two scalar cursors.
/// The result is `None` when the first `n` such numbers do not all fit in a
/// `u64`.
pub fn try_pratt(n: usize) -> (r: Option<Vec<u64>>)
    ensures
        match r {
            Some(v) => v@.len() == n && is_smooth_prefix(pratt_generators(), v@),
            None => !fits(pratt_generators(), n as nat),
        },
{
    if n == 0 {
        let r: Vec<u64> = Vec::new();
        assert(r@.len() == 0);
        return Some(r);
    }
    let ghost g = pratt_generators();
    assert(g[0] == 2 && g[1] == 3);
    assert(generators_ok(g));
    let mut v: Vec<u64> = Vec::with_capacity(n);
    v.push(1);
    let mut two: usize = 0;
    let mut three: usize = 0;
    proof {
        assert(v@ =~= seq![1u64]);
        lemma_one_prefix(g);
        lemma_initial_frontier(g, seq![0usize, 0usize]);
    }
    while v.len() < n
        invariant
            g == pratt_generators(),
            g[0] == 2 && g[1] == 3,
            generators_ok(g),
            1 <= v@.len() <= n,
            is_smooth_prefix(g, v@),
            frontier(g, v@, seq![two, three]),
        decreases n - v@.len(),
    {
        let ghost old_v = v@;
        let ghost cursors = seq![two, three];
        assert(cursors[0] == two && cursors[1] == three);
        assert(two < v@.len() && three < v@.len());
        assert(candidate(g, old_v, cursors, 0) == 2 * (v@[two as int] as int));
        assert(candidate(g, old_v, cursors, 1) == 3 * (v@[three as int] as int));
        let times_two = 2u64.checked_mul(v[two]);
        let times_three = 3u64.checked_mul(v[three]);
        let new: u64;
        let ghost j0: int;
        match (times_two, times_three) {
            (Some(a), Some(b)) => {
                if a <= b {
                    new = a;
                    proof {
                        j0 = 0;
                    }
                } else {
                    new = b;
                    proof {
                        j0 = 1;
                    }
                }
            },
            (Some(a), None) => {
                new = a;
                proof {
                    j0 = 0;
                }
            },
            (None, Some(b)) => {
                new = b;
                proof {
                    j0 = 1;
                }
            },
            (None, None) => {
                proof {
                    lemma_exhausted(g, v@, cursors, n as nat);
                }
                return None;
            },
        }
        if times_two == Some(new) {
            two += 1;
        }
        if times_three == Some(new) {
            three += 1;
        }
        v.push(new);
        proof {
            let next = seq![two, three];
            assert(next[0] == two && next[1] == three);
            lemma_frontier_step(g, old_v, cursors, next, new, j0);
        }
    }
    Some(v)
}

/// Generates the first `n` numbers of Pratt's sequence, the numbers of the
/// form `2^i * 3^j`, in ascending order.
///
/// The first `n` such numbers must fit in a `u64`.
pub fn pratt(n: usize) -> (r: Vec<u64>)
    requires
        fits(pratt_generators(), n as nat),
    ensures
        r@.len() == n,
        is_smooth_prefix(pratt_generators(), r@),
{
    match try_pratt(n) {
        Some(v) => v,
        None => vstd::pervasive::unreached(),
    }
}

} // verus!
