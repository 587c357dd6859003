use smooth_numbers::{pratt, smooth, try_pratt, try_smooth, try_with_primes, with_primes};

fn largest_prime_factor(mut x: u64) -> u64 {
    let mut largest = 1;
    let mut d = 2;
    while d * d <= x {
        while x % d == 0 {
            largest = d;
            x /= d;
        }
        d += 1;
    }
    if x > 1 {
        largest = x;
    }
    largest
}

fn strictly_increasing(v: &[u64]) -> bool {
    v.windows(2).all(|w| w[0] < w[1])
}

#[test]
fn lengths_match_the_request() {
    for n in [0, 1, 2, 7, 50, 300] {
        assert_eq!(pratt(n).len(), n);
        assert_eq!(smooth(7, n).len(), n);
        assert_eq!(smooth(30, n).len(), n);
        assert_eq!(with_primes(&[3, 7, 11], n).len(), n);
    }
}

#[test]
fn pratt_is_increasing_and_matches_the_general_merge() {
    for n in [0, 1, 2, 10, 500, 1344] {
        let p = pratt(n);
        assert!(strictly_increasing(&p));
        assert_eq!(p, with_primes(&[2, 3], n));
    }
}

#[test]
fn three_smooth_is_pratt() {
    for n in [0, 1, 5, 64, 700, 1344] {
        assert_eq!(smooth(3, n), pratt(n));
    }
}

#[test]
fn smooth_elements_have_small_prime_factors() {
    for (k, n) in [(2, 64), (3, 300), (5, 300), (7, 300), (10, 300), (13, 300), (20, 300)] {
        let v = smooth(k, n);
        assert_eq!(v.len(), n);
        assert!(strictly_increasing(&v));
        for x in v {
            assert!(largest_prime_factor(x) <= k as u64);
        }
    }
}

#[test]
fn smooth_numbers_are_not_skipped() {
    let v = smooth(5, 40);
    let brute: Vec<u64> = (1u64..)
        .filter(|&x| largest_prime_factor(x) <= 5)
        .take(40)
        .collect();
    assert_eq!(v, brute);
}

#[test]
fn pratt_boundary() {
    assert_eq!(pratt(0), Vec::<u64>::new());
    assert_eq!(pratt(1), [1]);
    assert_eq!(pratt(1344).last(), Some(&17991041643939889152));
}

#[test]
fn smooth_small_bounds() {
    assert_eq!(smooth(0, 0), Vec::<u64>::new());
    assert_eq!(smooth(0, 1), [1]);
    assert_eq!(smooth(0, 10), [1]);
    assert_eq!(smooth(1, 10), [1]);
    assert_eq!(smooth(1, 0), Vec::<u64>::new());
}

#[test]
fn smooth_powers_of_two() {
    assert_eq!(smooth(2, 10), [1, 2, 4, 8, 16, 32, 64, 128, 256, 512]);
    assert_eq!(smooth(2, 64).last(), Some(&(1u64 << 63)));
}

#[test]
fn smooth_uses_exactly_the_primes_up_to_k() {
    assert_eq!(smooth(4, 10), smooth(3, 10));
    assert_eq!(smooth(7, 10), [1, 2, 3, 4, 5, 6, 7, 8, 9, 10]);
    assert_eq!(smooth(10, 12), [1, 2, 3, 4, 5, 6, 7, 8, 9, 10, 12, 14]);
    assert_eq!(smooth(11, 12), [1, 2, 3, 4, 5, 6, 7, 8, 9, 10, 11, 12]);
    assert_eq!(smooth(100, 100), (1u64..=100).collect::<Vec<u64>>());
}

#[test]
fn with_primes_edge_cases() {
    assert_eq!(with_primes(&[], 0), Vec::<u64>::new());
    assert_eq!(with_primes(&[], 1), [1]);
    assert_eq!(with_primes(&[], 10), [1]);
    assert_eq!(with_primes(&[2], 10), [1, 2, 4, 8, 16, 32, 64, 128, 256, 512]);
    assert_eq!(with_primes(&[2, 5], 10), [1, 2, 4, 5, 8, 10, 16, 20, 25, 32]);
    assert_eq!(with_primes(&[7], 4), [1, 7, 49, 343]);
}

#[test]
fn with_primes_duplicates_and_composites() {
    assert_eq!(with_primes(&[2, 2, 3], 50), pratt(50));
    assert_eq!(with_primes(&[3, 2], 50), pratt(50));
    assert_eq!(with_primes(&[4, 6], 6), [1, 4, 6, 16, 24, 36]);
}

#[test]
fn repeated_calls_agree() {
    assert_eq!(pratt(321), pratt(321));
    assert_eq!(smooth(11, 321), smooth(11, 321));
    assert_eq!(with_primes(&[2, 7, 13], 321), with_primes(&[2, 7, 13], 321));
}

#[test]
fn largest_counts_that_fit() {
    assert_eq!(with_primes(&[2], 64).last(), Some(&(1u64 << 63)));
    assert_eq!(smooth(2, 64).last(), Some(&(1u64 << 63)));
    let five = smooth(5, 13282);
    assert_eq!(five.len(), 13282);
    assert!(strictly_increasing(&five));
    assert_eq!(with_primes(&[2, 3, 5], 13282), five);
}

#[test]
fn overflow_is_reported_not_truncated() {
    assert_eq!(try_pratt(1345), None);
    assert_eq!(try_smooth(2, 65), None);
    assert_eq!(try_smooth(3, 1345), None);
    assert_eq!(try_smooth(5, 13283), None);
    assert_eq!(try_with_primes(&[2], 65), None);
    assert_eq!(try_with_primes(&[2, 3], 1345), None);
    assert_eq!(try_with_primes(&[2, 3, 5], 13283), None);
}

#[test]
fn checked_forms_agree_where_they_fit() {
    assert_eq!(try_pratt(0), Some(Vec::new()));
    assert_eq!(try_pratt(1344), Some(pratt(1344)));
    assert_eq!(try_smooth(0, 7), Some(vec![1]));
    assert_eq!(try_smooth(2, 64), Some(smooth(2, 64)));
    assert_eq!(try_smooth(7, 10), Some(vec![1, 2, 3, 4, 5, 6, 7, 8, 9, 10]));
    assert_eq!(try_with_primes(&[], 5), Some(vec![1]));
    assert_eq!(try_with_primes(&[2, 5], 10), Some(vec![1, 2, 4, 5, 8, 10, 16, 20, 25, 32]));
}

#[test]
fn the_counts_that_fit_have_no_gap() {
    let first_failing = |f: &dyn Fn(usize) -> bool| (0..).find(|&n| !f(n)).unwrap();
    let pratt_limit = first_failing(&|n| try_pratt(n).is_some());
    assert_eq!(pratt_limit, 1345);
    for n in [0, 1, 700, 1344] {
        assert!(try_pratt(n).is_some());
    }
    for n in [1345, 1346, 2000] {
        assert!(try_pratt(n).is_none());
    }
    let two_limit = first_failing(&|n| try_with_primes(&[2], n).is_some());
    assert_eq!(two_limit, 65);
    let seven_limit = first_failing(&|n| try_with_primes(&[7], n).is_some());
    assert_eq!(seven_limit, 24);
    assert_eq!(try_with_primes(&[7], 23).unwrap().last(), Some(&3909821048582988049));
}
