use smooth_numbers::{pratt, smooth, with_primes};

#[test]
fn pratt_has_correct_length() {
    for n in [0, 1, 10, 100] {
        assert_eq!(pratt(n).len(), n);
    }
}

#[test]
fn pratt_has_correct_values() {
    assert_eq!(pratt(10), [1, 2, 3, 4, 6, 8, 9, 12, 16, 18]);
    assert_eq!(pratt(100).last(), Some(&93312));
    // this is the largest possible
    assert_eq!(pratt(1343).last(), Some(&17748888853923495936));
    assert_eq!(pratt(1344).last(), Some(&17991041643939889152));
}

#[test]
#[should_panic]
fn pratt_first_to_overflow() {
    let _ = pratt(1345).last();
}

#[test]
fn smooth_has_correct_length() {
    for n in [0, 1, 10, 64] {
        assert_eq!(smooth(2, n).len(), n);
    }
    for n in [0, 1, 10, 100] {
        assert_eq!(smooth(3, n).len(), n);
        assert_eq!(smooth(5, n).len(), n);
    }
}

#[test]
fn smooth_has_correct_values() {
    assert_eq!(smooth(2, 10), [1, 2, 4, 8, 16, 32, 64, 128, 256, 512]);
    assert_eq!(smooth(3, 10), [1, 2, 3, 4, 6, 8, 9, 12, 16, 18]);
    assert_eq!(smooth(3, 100).last(), Some(&93312));
    // this is the largest possible
    assert_eq!(smooth(3, 1343).last(), Some(&17748888853923495936));
    assert_eq!(smooth(3, 1344).last(), Some(&17991041643939889152));
}

#[test]
#[should_panic]
fn smooth_1_first_to_overflow() {
    let _ = smooth(2, 65).last();
}

#[test]
#[should_panic]
fn smooth_2_first_to_overflow() {
    let _ = smooth(3, 1345).last();
}

#[test]
fn with_primes_has_correct_length() {
    for n in [0, 1, 10, 64] {
        assert_eq!(with_primes(&[2], n).len(), n);
    }
    for n in [0, 1, 10, 100] {
        assert_eq!(with_primes(&[2, 3], n).len(), n);
        assert_eq!(with_primes(&[2, 3, 5], n).len(), n);
    }
}

#[test]
fn with_primes_has_correct_values() {
    assert_eq!(
        with_primes(&[2], 10),
        [1, 2, 4, 8, 16, 32, 64, 128, 256, 512]
    );
    assert_eq!(with_primes(&[2, 3], 10), [1, 2, 3, 4, 6, 8, 9, 12, 16, 18]);
    assert_eq!(with_primes(&[2, 3], 100).last(), Some(&93312));
    // this is the largest possible
    assert_eq!(
        with_primes(&[2, 3], 1343).last(),
        Some(&17748888853923495936)
    );
    assert_eq!(
        with_primes(&[2, 3], 1344).last(),
        Some(&17991041643939889152)
    );
    assert_eq!(
        with_primes(&[2, 5], 10),
        [1, 2, 4, 5, 8, 10, 16, 20, 25, 32]
    );
}

#[test]
#[should_panic]
fn with_primes_1_first_to_overflow() {
    let _ = with_primes(&[2], 65).last();
}

#[test]
#[should_panic]
fn with_primes_2_first_to_overflow() {
    let _ = with_primes(&[2, 3], 1345).last();
}
