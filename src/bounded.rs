use crate::merge::{merge, powers};
use crate::model::{
    fits, generators_ok, is_prime, is_smooth_prefix, lemma_one_prefix, primes_upto,
    strictly_increasing,
};
use vstd::prelude::*;

verus! {

/// Relies on `primal::Sieve::new(limit)`, which sieves at least up to
/// `limit`, and on `Sieve::primes_from(2)`, which yields in ascending order
/// every prime from 2 to the end of the sieve.
#[verifier::external_body]
fn sieve_primes(limit: usize) -> (r: Vec<u64>)
    requires
        limit >= 2,
    ensures
        strictly_increasing(r@),
        forall|i: int| 0 <= i < r@.len() ==> is_prime(#[trigger] r@[i] as int),
        forall|p: int|
            #![trigger is_prime(p)]
            is_prime(p) && p <= limit ==> exists|i: int| 0 <= i < r@.len() && r@[i] == p,
{
    let sieve = primal::Sieve::new(limit);
    sieve.primes_from(2).map(|p| p as u64).collect()
}

/// A strictly increasing sequence that holds exactly the primes up to `k`
/// is `primes_upto(k)`.
proof fn lemma_primes_upto_unique(s: Seq<u64>, k: int)
    requires
        k <= u64::MAX,
        strictly_increasing(s),
        forall|i: int| 0 <= i < s.len() ==> is_prime(#[trigger] s[i] as int) && s[i] <= k,
        forall|p: int|
            #![trigger is_prime(p)]
            is_prime(p) && p <= k ==> exists|i: int| 0 <= i < s.len() && s[i] == p,
    ensures
        s == primes_upto(k),
    decreases k,
{
    if k < 2 {
        if s.len() > 0 {
            assert(is_prime(s[0] as int));
        }
        assert(s =~= primes_upto(k));
    } else {
        let t = s.drop_last();
        if is_prime(k) {
            let i = choose|i: int| 0 <= i < s.len() && s[i] == k;
            if i < s.len() - 1 {
                assert(s[i] < s[i + 1]);
            }
            assert forall|j: int| 0 <= j < t.len() implies is_prime(#[trigger] t[j] as int) && t[j]
                <= k - 1 by {
                assert(s[j] < s[i]);
            }
            assert forall|p: int|
                #![trigger is_prime(p)]
                is_prime(p) && p <= k - 1 implies exists|j: int| 0 <= j < t.len() && t[j] == p by {
                let j = choose|j: int| 0 <= j < s.len() && s[j] == p;
                assert(t[j] == p);
            }
            lemma_primes_upto_unique(t, k - 1);
            assert(s =~= t.push(k as u64));
        } else {
            assert forall|j: int| 0 <= j < s.len() implies is_prime(#[trigger] s[j] as int) && s[j]
                <= k - 1 by {
                assert(s[j] != k);
            }
            lemma_primes_upto_unique(s, k - 1);
        }
    }
}

/// The primes up to `k`, in ascending order.
fn primes_up_to(k: usize) -> (r: Vec<u64>)
    requires
        k >= 2,
    ensures
        r@ == primes_upto(k as int),
        generators_ok(r@),
{
    let all = sieve_primes(k);
    let mut r: Vec<u64> = Vec::new();
    let mut i: usize = 0;
    while i < all.len() && all[i] <= k as u64
        invariant
            i <= all@.len(),
            r@ == all@.take(i as int),
            forall|j: int| 0 <= j < i ==> all@[j] <= k,
        decreases all@.len() - i,
    {
        r.push(all[i]);
        i += 1;
        assert(r@ =~= all@.take(i as int));
    }
    proof {
        let s = r@;
        assert forall|j: int| 0 <= j < s.len() implies is_prime(#[trigger] s[j] as int) && s[j]
            <= k by {
            assert(s[j] == all@[j]);
        }
        assert forall|p: int|
            #![trigger is_prime(p)]
            is_prime(p) && p <= k implies exists|j: int| 0 <= j < s.len() && s[j] == p by {
            let j = choose|j: int| 0 <= j < all@.len() && all@[j] == p;
            if j >= i {
                if j > i {
                    assert(all@[i as int] < all@[j]);
                }
            }
            assert(s[j] == p);
        }
        lemma_primes_upto_unique(s, k as int);
        assert forall|j: int| 0 <= j < s.len() implies #[trigger] s[j] >= 2 by {
            assert(is_prime(s[j] as int));
        }
    }
    r
}

/// Generates the first `n` `k`-smooth numbers, the numbers whose prime
/// factors are all at most `k`, in ascending order, or `None` when they do
/// not all fit in a `u64`.
///
/// For `k < 2` the only such number is 1, so the result is `[1]` for any
/// positive `n`; for `k == 2` it is the powers of two.
pub fn try_smooth(k: usize, n: usize) -> (r: Option<Vec<u64>>)
    ensures
        match r {
            Some(v) => {
                &&& v@.len() == if k < 2 && n > 0 {
                    1
                } else {
                    n as int
                }
                &&& is_smooth_prefix(primes_upto(k as int), v@)
            },
            None => k >= 2 && !fits(primes_upto(k as int), n as nat),
        },
{
    if n == 0 {
        let r: Vec<u64> = Vec::new();
        assert(r@.len() == 0);
        return Some(r);
    }
    if k < 2 {
        let r = vec![1u64];
        proof {
            assert(r@ =~= seq![1u64]);
            lemma_one_prefix(primes_upto(k as int));
        }
        return Some(r);
    }
    proof {
        assert(is_prime(2));
        assert(primes_upto(1) =~= seq![]);
        assert(primes_upto(2) =~= seq![2u64]);
    }
    if k == 2 {
        return powers(2, n);
    }
    let primes = primes_up_to(k);
    proof {
        lemma_primes_upto_len(k as int);
    }
    merge(primes.as_slice(), n)
}

/// Generates the first `n` `k`-smooth numbers, the numbers whose prime
/// factors are all at most `k`, in ascending order.
///
/// For `k < 2` the only such number is 1, so the result is `[1]` for any
/// positive `n`; for `k == 2` it is the powers of two. The first `n` such
/// numbers must fit in a `u64`.
pub fn smooth(k: usize, n: usize) -> (r: Vec<u64>)
    requires
        k < 2 || fits(primes_upto(k as int), n as nat),
    ensures
        r@.len() == if k < 2 && n > 0 {
            1
        } else {
            n as int
        },
        is_smooth_prefix(primes_upto(k as int), r@),
{
    match try_smooth(k, n) {
        Some(v) => v,
        None => vstd::pervasive::unreached(),
    }
}

/// From 2 on, there is at least one prime up to `k`.
proof fn lemma_primes_upto_len(k: int)
    requires
        k >= 2,
        primes_upto(2).len() == 1,
    ensures
        primes_upto(k).len() >= 1,
    decreases k,
{
    if k > 2 {
        lemma_primes_upto_len(k - 1);
    }
}

} // verus!
