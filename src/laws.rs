use crate::model::{
    fits, is_prime, is_smooth, is_smooth_prefix, is_word, lemma_prefix_unique_at,
    pratt_generators, primes_upto, product,
};
use vstd::arithmetic::div_mod::{
    lemma_fundamental_div_mod, lemma_mod_multiples_basic, lemma_mod_pos_bound,
};
use vstd::prelude::*;

verus! {

/// A smooth prefix is determined by its generators and its length: two
/// results over the same generators with the same length are equal, so
/// repeated calls with identical inputs give identical sequences.
pub proof fn law_results_determined(g: Seq<u64>, a: Seq<u64>, b: Seq<u64>)
    requires
        is_smooth_prefix(g, a),
        is_smooth_prefix(g, b),
        a.len() == b.len(),
    ensures
        a == b,
{
    assert forall|i: int| 0 <= i < a.len() implies a[i] == b[i] by {
        lemma_prefix_unique_at(g, a, b, i);
    }
    assert(a =~= b);
}

/// The primes up to 3 are the generators of Pratt's sequence.
pub proof fn lemma_primes_upto_three()
    ensures
        primes_upto(3) == pratt_generators(),
{
    assert(is_prime(2));
    assert(is_prime(3)) by {
        assert(3int % 2 != 0);
    }
    assert(primes_upto(1) =~= seq![]);
    assert(primes_upto(2) =~= seq![2u64]);
    assert(primes_upto(3) =~= seq![2u64, 3u64]);
}

/// The 3-smooth numbers are Pratt's sequence: `smooth(3, n)` and `pratt(n)`
/// agree for every `n` for which both are defined.
pub proof fn law_smooth_three_is_pratt(n: nat, a: Seq<u64>, b: Seq<u64>)
    requires
        a.len() == n,
        is_smooth_prefix(primes_upto(3), a),
        b.len() == n,
        is_smooth_prefix(pratt_generators(), b),
    ensures
        a == b,
{
    lemma_primes_upto_three();
    law_results_determined(pratt_generators(), a, b);
}

/// `pratt(n)` is strictly increasing and equals `with_primes(&[2, 3], n)`.
pub proof fn law_pratt_is_with_primes(n: nat, primes: Seq<u64>, a: Seq<u64>, b: Seq<u64>)
    requires
        primes == seq![2u64, 3u64],
        a.len() == n,
        is_smooth_prefix(pratt_generators(), a),
        b.len() == n,
        is_smooth_prefix(primes, b),
    ensures
        forall|i: int, j: int| 0 <= i < j < n ==> a[i] < a[j],
        a == b,
{
    assert(primes =~= pratt_generators());
    law_results_determined(primes, a, b);
}

/// The counts that fit are closed downwards: if the first `n` smooth numbers
/// fit in a `u64`, so do the first `m` for every `m <= n`. There is thus no
/// gap between the counts that succeed and those that overflow.
pub proof fn law_fits_downward_closed(g: Seq<u64>, n: nat, m: nat)
    requires
        fits(g, n),
        m <= n,
    ensures
        fits(g, m),
{
    let v = choose|v: Seq<u64>| v.len() == n && is_smooth_prefix(g, v);
    let w = v.take(m as int);
    assert forall|x: int|
        #![trigger is_smooth(g, x)]
        w.len() > 0 && is_smooth(g, x) && x <= w.last() implies exists|i: int|
            0 <= i < w.len() && w[i] == x by {
        let i = choose|i: int| 0 <= i < v.len() && v[i] == x;
        if i >= m {
            if i > m - 1 {
                assert(v[m - 1] < v[i]);
            }
        }
        assert(w[i] == x);
    }
    assert(is_smooth_prefix(g, w));
}

/// The counts that fit are bounded: a strictly increasing sequence of `u64`
/// values has at most `u64::MAX + 1` elements. With the law above, every set
/// of generators has a largest count that fits, and each larger count
/// overflows.
pub proof fn law_fits_bounded(g: Seq<u64>, n: nat)
    requires
        fits(g, n),
    ensures
        n <= u64::MAX + 1,
{
    let v = choose|v: Seq<u64>| v.len() == n && is_smooth_prefix(g, v);
    if n > 0 {
        lemma_increasing_at_least_index(v, n - 1);
    }
}

proof fn lemma_increasing_at_least_index(v: Seq<u64>, i: int)
    requires
        forall|a: int, b: int| 0 <= a < b < v.len() ==> v[a] < v[b],
        0 <= i < v.len(),
    ensures
        v[i] >= i,
    decreases i,
{
    if i > 0 {
        lemma_increasing_at_least_index(v, i - 1);
    }
}

/// A prime `p` that divides `a * b`, with `1 <= a < p`, divides `b`.
proof fn lemma_euclid_below(p: int, a: int, b: int, t: int) -> (u: int)
    requires
        is_prime(p),
        1 <= a < p,
        a * b == p * t,
    ensures
        b == p * u,
    decreases a,
{
    if a == 1 {
        t
    } else {
        let q = p / a;
        let r = p % a;
        lemma_fundamental_div_mod(p, a);
        lemma_mod_pos_bound(p, a);
        assert(p % a != 0);
        let t2 = b - q * t;
        assert(r * b == p * t2) by (nonlinear_arith)
            requires
                p == a * q + r,
                a * b == p * t,
                t2 == b - q * t,
        ;
        lemma_euclid_below(p, r, b, t2)
    }
}

/// Euclid's lemma: a prime that divides `a * b` divides `a` or `b`. The
/// result says which, and gives the quotient.
proof fn lemma_euclid(p: int, a: int, b: int, t: int) -> (r: (bool, int))
    requires
        is_prime(p),
        a >= 0,
        a * b == p * t,
    ensures
        r.0 ==> a == p * r.1,
        !r.0 ==> b == p * r.1,
{
    let k = a / p;
    let a1 = a % p;
    lemma_fundamental_div_mod(a, p);
    lemma_mod_pos_bound(a, p);
    if a1 == 0 {
        (true, k)
    } else {
        let t2 = t - k * b;
        assert(a1 * b == p * t2) by (nonlinear_arith)
            requires
                a == p * k + a1,
                a * b == p * t,
                t2 == t - k * b,
        ;
        (false, lemma_euclid_below(p, a1, b, t2))
    }
}

/// The members of `primes_upto(k)` are primes up to `k`.
proof fn lemma_primes_upto_members(k: int)
    requires
        k <= u64::MAX,
    ensures
        forall|i: int|
            0 <= i < primes_upto(k).len() ==> is_prime(#[trigger] primes_upto(k)[i] as int)
                && primes_upto(k)[i] <= k,
    decreases k,
{
    if k >= 2 {
        lemma_primes_upto_members(k - 1);
        let prev = primes_upto(k - 1);
        if is_prime(k) {
            let cur = prev.push(k as u64);
            assert(primes_upto(k) == cur);
            assert forall|i: int| 0 <= i < cur.len() implies is_prime(#[trigger] cur[i] as int)
                && cur[i] <= k by {
                if i < prev.len() {
                    assert(cur[i] == prev[i]);
                }
            }
        }
    }
}

/// A prime that divides a product of primes up to `k` is at most `k`.
proof fn lemma_word_prime_factor(k: int, s: Seq<int>, p: int, t: int)
    requires
        k <= u64::MAX,
        is_word(primes_upto(k), s),
        is_prime(p),
        product(primes_upto(k), s) == p * t,
    ensures
        p <= k,
    decreases s.len(),
{
    let g = primes_upto(k);
    lemma_primes_upto_members(k);
    if s.len() == 0 {
        assert(product(g, s) == 1);
        assert(p * t != 1) by (nonlinear_arith)
            requires
                p >= 2,
        ;
    } else {
        let rest = s.drop_last();
        assert(is_word(g, rest));
        let y = product(g, rest);
        let q = g[s.last()] as int;
        assert(product(g, s) == y * q);
        assert(0 <= s.last() < g.len());
        assert(is_prime(q) && q <= k);
        assert(q * y == p * t) by (nonlinear_arith)
            requires
                y * q == p * t,
        ;
        let (in_q, u) = lemma_euclid(p, q, y, t);
        if in_q {
            if p < q {
                lemma_mod_multiples_basic(u, p);
                assert(u * p == p * u) by (nonlinear_arith);
                assert(q % p != 0);
            }
            assert(p <= q) by (nonlinear_arith)
                requires
                    q == p * u,
                    q >= 2,
                    p >= 2,
            ;
        } else {
            lemma_word_prime_factor(k, rest, p, u);
        }
    }
}

/// Every element of `smooth(k, n)` has all its prime factors at most `k`.
pub proof fn law_smooth_prime_factors(k: int, v: Seq<u64>, i: int, p: int)
    requires
        0 <= k <= u64::MAX,
        is_smooth_prefix(primes_upto(k), v),
        0 <= i < v.len(),
        is_prime(p),
        (v[i] as int) % p == 0,
    ensures
        p <= k,
{
    let g = primes_upto(k);
    let x = v[i] as int;
    assert(is_smooth(g, x));
    let s = choose|s: Seq<int>| is_word(g, s) && product(g, s) == x;
    lemma_fundamental_div_mod(x, p);
    lemma_word_prime_factor(k, s, p, x / p);
}

} // verus!
