use vstd::prelude::*;

verus! {

/// The product of the generators picked by the indices in `s`
/// (the empty word has product 1).
pub open spec fn product(g: Seq<u64>, s: Seq<int>) -> int
    decreases s.len(),
{
    if s.len() == 0 {
        1
    } else {
        product(g, s.drop_last()) * (g[s.last()] as int)
    }
}

/// Every letter of `s` is an index into `g`.
pub open spec fn is_word(g: Seq<u64>, s: Seq<int>) -> bool {
    forall|i: int| 0 <= i < s.len() ==> 0 <= #[trigger] s[i] < g.len()
}

/// `x` is a product of non-negative powers of the generators in `g`.
pub open spec fn is_smooth(g: Seq<u64>, x: int) -> bool {
    exists|s: Seq<int>| is_word(g, s) && product(g, s) == x
}

/// Every generator is at least 2.
pub open spec fn generators_ok(g: Seq<u64>) -> bool {
    forall|j: int| 0 <= j < g.len() ==> #[trigger] g[j] >= 2
}

/// `v` is strictly increasing.
pub open spec fn strictly_increasing(v: Seq<u64>) -> bool {
    forall|i: int, j: int| 0 <= i < j < v.len() ==> v[i] < v[j]
}

/// `v` holds the first `v.len()` smooth numbers over `g`, in ascending order:
/// it is strictly increasing, each element is smooth, and every smooth number
/// up to its last element occurs in it.
pub open spec fn is_smooth_prefix(g: Seq<u64>, v: Seq<u64>) -> bool {
    &&& strictly_increasing(v)
    &&& forall|i: int| 0 <= i < v.len() ==> is_smooth(g, #[trigger] v[i] as int)
    &&& forall|x: int|
        #![trigger is_smooth(g, x)]
        v.len() > 0 && is_smooth(g, x) && x <= v.last() ==> exists|i: int|
            0 <= i < v.len() && v[i] == x
}

/// The first `n` smooth numbers over `g` all fit in a `u64`.
pub open spec fn fits(g: Seq<u64>, n: nat) -> bool {
    exists|v: Seq<u64>| v.len() == n && is_smooth_prefix(g, v)
}

/// `p` is a prime number.
pub open spec fn is_prime(p: int) -> bool {
    p >= 2 && forall|d: int| 2 <= d < p ==> #[trigger] (p % d) != 0
}

/// The primes up to `k`, in ascending order.
pub open spec fn primes_upto(k: int) -> Seq<u64>
    decreases k,
{
    if k < 2 {
        seq![]
    } else if is_prime(k) {
        primes_upto(k - 1).push(k as u64)
    } else {
        primes_upto(k - 1)
    }
}

/// The generators of Pratt's sequence.
pub open spec fn pratt_generators() -> Seq<u64> {
    seq![2u64, 3u64]
}

/// The candidate of generator `j`: `g[j]` times the element of `v` that its
/// cursor points at.
pub open spec fn candidate(g: Seq<u64>, v: Seq<u64>, idx: Seq<usize>, j: int) -> int {
    (g[j] as int) * (v[idx[j] as int] as int)
}

/// The merge frontier: for each generator `g[j]`, the cursor `idx[j]` points
/// at the first element of `v` whose multiple by `g[j]` lies beyond the last
/// element of `v`.
pub open spec fn frontier(g: Seq<u64>, v: Seq<u64>, idx: Seq<usize>) -> bool {
    &&& idx.len() == g.len()
    &&& forall|j: int| 0 <= j < g.len() ==> #[trigger] idx[j] < v.len()
    &&& forall|j: int| 0 <= j < g.len() ==> #[trigger] candidate(g, v, idx, j) > v.last() as int
    &&& forall|j: int, i: int|
        0 <= j < g.len() && 0 <= i < #[trigger] idx[j] ==> (g[j] as int) * (#[trigger] v[i] as int)
            <= v.last() as int
}

// ---------------------------------------------------------------------------
// Lemmas on words and smooth numbers.

/// With generators of at least 2, every product is at least 1.
pub proof fn lemma_product_positive(g: Seq<u64>, s: Seq<int>)
    requires
        generators_ok(g),
        is_word(g, s),
    ensures
        product(g, s) >= 1,
    decreases s.len(),
{
    if s.len() > 0 {
        lemma_product_positive(g, s.drop_last());
        let p = product(g, s.drop_last());
        let q = g[s.last()] as int;
        assert(p * q >= 1) by (nonlinear_arith)
            requires
                p >= 1,
                q >= 2,
        ;
    }
}

/// 1 is smooth: it is the empty product.
pub proof fn lemma_one_is_smooth(g: Seq<u64>)
    ensures
        is_smooth(g, 1),
{
    let s = Seq::<int>::empty();
    assert(is_word(g, s) && product(g, s) == 1);
}

/// With generators of at least 2, every smooth number is at least 1.
pub proof fn lemma_smooth_positive(g: Seq<u64>, x: int)
    requires
        generators_ok(g),
        is_smooth(g, x),
    ensures
        x >= 1,
{
    let s = choose|s: Seq<int>| is_word(g, s) && product(g, s) == x;
    lemma_product_positive(g, s);
}

/// A generator times a smooth number is smooth.
pub proof fn lemma_smooth_times_generator(g: Seq<u64>, y: int, j: int)
    requires
        is_smooth(g, y),
        0 <= j < g.len(),
    ensures
        is_smooth(g, (g[j] as int) * y),
{
    let s = choose|s: Seq<int>| is_word(g, s) && product(g, s) == y;
    let t = s.push(j);
    assert(t.drop_last() =~= s);
    assert(is_word(g, t));
    assert(product(g, t) == y * (g[j] as int));
    assert(y * (g[j] as int) == (g[j] as int) * y) by (nonlinear_arith);
}

/// A smooth number other than 1 is a generator times a smaller smooth number.
pub proof fn lemma_smooth_split(g: Seq<u64>, x: int) -> (r: (int, int))
    requires
        generators_ok(g),
        is_smooth(g, x),
        x != 1,
    ensures
        0 <= r.0 < g.len(),
        is_smooth(g, r.1),
        1 <= r.1 < x,
        x == (g[r.0] as int) * r.1,
{
    let s = choose|s: Seq<int>| is_word(g, s) && product(g, s) == x;
    let t = s.drop_last();
    assert(is_word(g, t));
    let j = s.last();
    let y = product(g, t);
    lemma_product_positive(g, t);
    let q = g[j] as int;
    assert(x == y * q);
    assert(y < y * q && q * y == y * q) by (nonlinear_arith)
        requires
            y >= 1,
            q >= 2,
    ;
    (j, y)
}

/// Two smooth prefixes over the same generators agree where both are defined.
pub proof fn lemma_prefix_unique_at(g: Seq<u64>, v: Seq<u64>, w: Seq<u64>, i: int)
    requires
        is_smooth_prefix(g, v),
        is_smooth_prefix(g, w),
        0 <= i < v.len(),
        i < w.len(),
    ensures
        v[i] == w[i],
    decreases i,
{
    if i > 0 {
        lemma_prefix_unique_at(g, v, w, i - 1);
    }
    if v[i] < w[i] {
        assert(w[i] <= w.last()) by {
            if i < w.len() - 1 {
                assert(w[i] < w[w.len() - 1]);
            }
        }
        assert(is_smooth(g, v[i] as int));
        let k = choose|k: int| 0 <= k < w.len() && w[k] == v[i] as int;
        if k >= i {
            if k > i {
                assert(w[i] < w[k]);
            }
        } else {
            lemma_prefix_unique_at(g, v, w, k);
            assert(v[k] < v[i]);
        }
    } else if w[i] < v[i] {
        assert(v[i] <= v.last()) by {
            if i < v.len() - 1 {
                assert(v[i] < v[v.len() - 1]);
            }
        }
        assert(is_smooth(g, w[i] as int));
        let k = choose|k: int| 0 <= k < v.len() && v[k] == w[i] as int;
        if k >= i {
            if k > i {
                assert(v[i] < v[k]);
            }
        } else {
            lemma_prefix_unique_at(g, v, w, k);
            assert(w[k] < w[i]);
        }
    }
}

/// Beyond the last element of `v`, no smooth number lies below the smallest
/// candidate of the frontier.
pub proof fn lemma_frontier_gap(g: Seq<u64>, v: Seq<u64>, idx: Seq<usize>, x: int) -> (j: int)
    requires
        generators_ok(g),
        v.len() > 0,
        is_smooth_prefix(g, v),
        frontier(g, v, idx),
        is_smooth(g, x),
        x > v.last() as int,
    ensures
        0 <= j < g.len(),
        x >= candidate(g, v, idx, j),
    decreases x,
{
    lemma_smooth_positive(g, v.last() as int);
    let (k, y) = lemma_smooth_split(g, x);
    let gk = g[k] as int;
    if y <= v.last() as int {
        let i = choose|i: int| 0 <= i < v.len() && v[i] == y;
        if i < idx[k] {
            assert(gk * (v[i] as int) <= v.last() as int);
            assert(false);
        } else {
            let c = idx[k] as int;
            assert(candidate(g, v, idx, k) > v.last() as int);
            if i > c {
                assert(v[c] < v[i]);
            }
            let a = v[c] as int;
            assert(gk * a <= gk * y) by (nonlinear_arith)
                requires
                    a <= y,
                    gk >= 0,
            ;
        }
        k
    } else {
        lemma_frontier_gap(g, v, idx, y)
    }
}

/// If the first `n` smooth numbers fit and `v` holds fewer, a smooth number
/// beyond the last element of `v` still fits in a `u64`.
pub proof fn lemma_fits_has_next(g: Seq<u64>, v: Seq<u64>, n: nat) -> (x: u64)
    requires
        fits(g, n),
        is_smooth_prefix(g, v),
        0 < v.len() < n,
    ensures
        is_smooth(g, x as int),
        x > v.last(),
{
    let w = choose|w: Seq<u64>| w.len() == n && is_smooth_prefix(g, w);
    let l = v.len() as int;
    lemma_prefix_unique_at(g, v, w, l - 1);
    assert(w[l - 1] < w[l]);
    w[l]
}

/// `[1]` is the first smooth number.
pub proof fn lemma_one_prefix(g: Seq<u64>)
    requires
        generators_ok(g),
    ensures
        is_smooth_prefix(g, seq![1u64]),
{
    let v = seq![1u64];
    lemma_one_is_smooth(g);
    assert forall|x: int| v.len() > 0 && is_smooth(g, x) && x <= v.last() implies exists|i: int|
        0 <= i < v.len() && v[i] == x by {
        lemma_smooth_positive(g, x);
        assert(v[0] == x);
    }
}

/// The cursors all at the start of `[1]` form a frontier.
pub proof fn lemma_initial_frontier(g: Seq<u64>, idx: Seq<usize>)
    requires
        generators_ok(g),
        idx.len() == g.len(),
        forall|j: int| 0 <= j < idx.len() ==> #[trigger] idx[j] == 0,
    ensures
        frontier(g, seq![1u64], idx),
{
    let v = seq![1u64];
    assert forall|j: int| 0 <= j < g.len() implies #[trigger] candidate(g, v, idx, j) > v.last() as int by {
        assert(idx[j] == 0);
        assert(v[0] == 1u64 && v.last() == 1u64);
        assert(g[j] >= 2);
        assert(candidate(g, v, idx, j) == (g[j] as int) * 1);
    }
}

/// One step of the merge: appending the smallest candidate `new` and moving
/// on every cursor whose candidate equals it keeps the sequence a smooth
/// prefix and the cursors a frontier.
pub proof fn lemma_frontier_step(
    g: Seq<u64>,
    v: Seq<u64>,
    idx: Seq<usize>,
    idx2: Seq<usize>,
    new: u64,
    j0: int,
)
    requires
        generators_ok(g),
        v.len() > 0,
        is_smooth_prefix(g, v),
        frontier(g, v, idx),
        0 <= j0 < g.len(),
        candidate(g, v, idx, j0) == new as int,
        forall|j: int| 0 <= j < g.len() ==> candidate(g, v, idx, j) >= new as int,
        idx2.len() == g.len(),
        forall|j: int|
            0 <= j < g.len() ==> #[trigger] idx2[j] == if candidate(g, v, idx, j) == new as int {
                idx[j] + 1
            } else {
                idx[j] as int
            },
    ensures
        is_smooth_prefix(g, v.push(new)),
        frontier(g, v.push(new), idx2),
{
    let w = v.push(new);
    let last = v.last() as int;
    assert(candidate(g, v, idx, j0) > last);
    assert forall|i: int, k: int| 0 <= i < k < w.len() implies w[i] < w[k] by {
        if k < v.len() {
            assert(v[i] < v[k]);
        } else if i < v.len() - 1 {
            assert(v[i] < v[v.len() - 1]);
        }
    }
    assert(is_smooth(g, v[idx[j0] as int] as int));
    lemma_smooth_times_generator(g, v[idx[j0] as int] as int, j0);
    assert forall|i: int| 0 <= i < w.len() implies is_smooth(g, #[trigger] w[i] as int) by {
        if i < v.len() {
            assert(w[i] == v[i]);
        }
    }
    assert forall|x: int|
        #![trigger is_smooth(g, x)]
        w.len() > 0 && is_smooth(g, x) && x <= w.last() implies exists|i: int|
            0 <= i < w.len() && w[i] == x by {
        if x <= last {
            let i = choose|i: int| 0 <= i < v.len() && v[i] == x;
            assert(w[i] == x);
        } else {
            let j = lemma_frontier_gap(g, v, idx, x);
            assert(w[w.len() - 1] == x);
        }
    }
    assert forall|j: int| 0 <= j < g.len() implies #[trigger] idx2[j] < w.len() by {
        assert(idx[j] < v.len());
    }
    assert forall|j: int| 0 <= j < g.len() implies #[trigger] candidate(g, w, idx2, j) > w.last() as int by {
        let c = idx[j] as int;
        assert(c < v.len());
        assert(w[c] == v[c]);
        if candidate(g, v, idx, j) == new as int {
            assert(w[c] < w[c + 1]);
            let gj = g[j] as int;
            let a = w[c] as int;
            let b = w[c + 1] as int;
            assert(gj * a < gj * b) by (nonlinear_arith)
                requires
                    a < b,
                    gj >= 2,
            ;
        } else {
            assert(candidate(g, v, idx, j) >= new as int);
        }
    }
    assert forall|j: int, i: int|
        0 <= j < g.len() && 0 <= i < #[trigger] idx2[j] implies (g[j] as int) * (#[trigger] w[i] as int)
            <= w.last() as int by {
        assert(w[i] == v[i]);
        if i < idx[j] {
            assert((g[j] as int) * (v[i] as int) <= last);
        }
    }
}

/// When every candidate of the frontier overflows, the smooth numbers that
/// fit in a `u64` are exactly those of `v`: no longer prefix fits.
pub proof fn lemma_exhausted(g: Seq<u64>, v: Seq<u64>, idx: Seq<usize>, n: nat)
    requires
        generators_ok(g),
        0 < v.len() < n,
        is_smooth_prefix(g, v),
        frontier(g, v, idx),
        forall|j: int| 0 <= j < g.len() ==> candidate(g, v, idx, j) > u64::MAX,
    ensures
        !fits(g, n),
{
    if fits(g, n) {
        let x = lemma_fits_has_next(g, v, n);
        let j = lemma_frontier_gap(g, v, idx, x as int);
    }
}

} // verus!
