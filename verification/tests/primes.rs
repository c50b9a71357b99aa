use algoprims::primes::{count_primes, prime_sieve};

#[test]
fn sieve_of_ten() {
    assert_eq!(prime_sieve(10), vec![2, 3, 5, 7]);
}

#[test]
fn degenerate_inputs_give_empty_results() {
    assert_eq!(prime_sieve(0), Vec::<usize>::new());
    assert_eq!(prime_sieve(1), Vec::<usize>::new());
    assert_eq!(count_primes(0), 0);
    assert_eq!(count_primes(1), 0);
}

#[test]
fn smallest_primes() {
    assert_eq!(prime_sieve(2), vec![2]);
    assert_eq!(prime_sieve(3), vec![2, 3]);
    assert_eq!(prime_sieve(4), vec![2, 3]);
}

#[test]
fn count_matches_list_length() {
    for n in 0..200usize {
        assert_eq!(prime_sieve(n).len(), count_primes(n));
    }
}

#[test]
fn known_prime_counts() {
    assert_eq!(count_primes(100), 25);
    assert_eq!(count_primes(1000), 168);
}

#[test]
fn sieve_is_ascending() {
    let primes = prime_sieve(500);
    for w in primes.windows(2) {
        assert!(w[0] < w[1]);
    }
}
