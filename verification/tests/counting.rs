use prime_sieve::coordinator::{
    count_parallel, count_primes_below, segmented_sieve_of_eratosthenes, worker_share, Strategy,
};
use prime_sieve::error::EngineError;
use prime_sieve::trial::{is_prime, single_threaded_prime_naive};

#[test]
fn bound_zero_counts_nothing() {
    assert_eq!(count_primes_below(0, 1, Strategy::Sequential), Ok(0));
    assert_eq!(count_primes_below(0, 4, Strategy::SegmentedParallel), Ok(0));
}

#[test]
fn bound_one_counts_nothing() {
    assert_eq!(count_primes_below(1, 1, Strategy::Sequential), Ok(0));
    assert_eq!(count_primes_below(1, 1, Strategy::SegmentedParallel), Ok(0));
    assert_eq!(count_primes_below(1, 2, Strategy::Sequential), Ok(0));
    assert_eq!(count_primes_below(1, 16, Strategy::SegmentedParallel), Ok(0));
    assert_eq!(count_primes_below(1, usize::MAX, Strategy::SegmentedParallel), Ok(0));
}

#[test]
fn bound_two_counts_one() {
    assert_eq!(count_primes_below(2, 1, Strategy::Sequential), Ok(1));
    assert_eq!(count_primes_below(2, 3, Strategy::SegmentedParallel), Ok(1));
}

#[test]
fn bound_three_counts_two() {
    assert_eq!(count_primes_below(3, 1, Strategy::Sequential), Ok(2));
    assert_eq!(count_primes_below(3, 2, Strategy::SegmentedParallel), Ok(2));
}

#[test]
fn hundred_with_four_workers_counts_twenty_five() {
    assert_eq!(count_primes_below(100, 4, Strategy::SegmentedParallel), Ok(25));
}

#[test]
fn known_prime_counts() {
    assert_eq!(count_primes_below(4, 1, Strategy::Sequential), Ok(2));
    assert_eq!(count_primes_below(5, 1, Strategy::Sequential), Ok(2));
    assert_eq!(count_primes_below(6, 1, Strategy::Sequential), Ok(3));
    assert_eq!(count_primes_below(10, 2, Strategy::SegmentedParallel), Ok(4));
    assert_eq!(count_primes_below(1_000, 3, Strategy::SegmentedParallel), Ok(168));
    assert_eq!(count_primes_below(10_000, 1, Strategy::Sequential), Ok(1_229));
    assert_eq!(count_primes_below(1_000_000, 8, Strategy::SegmentedParallel), Ok(78_498));
    assert_eq!(segmented_sieve_of_eratosthenes(1_000_000), 78_498);
}

#[test]
fn a_prime_bound_is_not_counted() {
    assert_eq!(count_primes_below(97, 2, Strategy::SegmentedParallel), Ok(24));
    assert_eq!(count_primes_below(98, 2, Strategy::SegmentedParallel), Ok(25));
    assert_eq!(segmented_sieve_of_eratosthenes(97), 24);
}

#[test]
fn a_square_bound_strikes_its_root() {
    assert_eq!(segmented_sieve_of_eratosthenes(49), 15);
    assert_eq!(segmented_sieve_of_eratosthenes(50), 15);
    assert_eq!(segmented_sieve_of_eratosthenes(121), 30);
    assert_eq!(segmented_sieve_of_eratosthenes(122), 30);
}

#[test]
fn parallel_matches_sequential() {
    for n in 0..=2_000u64 {
        let sequential = count_primes_below(n, 1, Strategy::Sequential);
        for workers in [1usize, 2, 4, 16] {
            assert_eq!(count_primes_below(n, workers, Strategy::SegmentedParallel), sequential);
            assert_eq!(count_parallel(n, workers), sequential);
        }
    }
}

#[test]
fn more_workers_than_segments() {
    assert_eq!(count_primes_below(30, 1_000, Strategy::SegmentedParallel), Ok(10));
    assert_eq!(count_primes_below(30, usize::MAX, Strategy::SegmentedParallel), Ok(10));
}

#[test]
fn matches_trial_division_up_to_ten_thousand() {
    let mut reference: u64 = 0;
    for n in 0..=10_000u64 {
        if n != 2 && n != 3 {
            assert_eq!(count_primes_below(n, 1, Strategy::Sequential), Ok(reference));
            assert_eq!(count_primes_below(n, 4, Strategy::SegmentedParallel), Ok(reference));
        }
        if is_prime(n) {
            reference += 1;
        }
    }
}

#[test]
fn matches_the_naive_count() {
    for n in [0u64, 1, 4, 5, 10, 100, 101, 1_000, 5_000] {
        let naive = single_threaded_prime_naive(n);
        assert_eq!(segmented_sieve_of_eratosthenes(n), naive);
        assert_eq!(count_primes_below(n, 4, Strategy::SegmentedParallel), Ok(naive));
    }
}

#[test]
fn repeated_calls_agree() {
    for strategy in [Strategy::Sequential, Strategy::SegmentedParallel] {
        let first = count_primes_below(12_345, 4, strategy);
        let second = count_primes_below(12_345, 4, strategy);
        assert_eq!(first, second);
        assert_eq!(first, Ok(1_474));
    }
    assert_eq!(count_primes_below(7, 0, Strategy::Sequential), count_primes_below(7, 0, Strategy::Sequential));
}

#[test]
fn no_worker_is_refused() {
    assert_eq!(count_primes_below(100, 0, Strategy::Sequential), Err(EngineError::InvalidWorkerCount));
    assert_eq!(
        count_primes_below(100, 0, Strategy::SegmentedParallel),
        Err(EngineError::InvalidWorkerCount)
    );
    assert_eq!(count_primes_below(0, 0, Strategy::Sequential), Err(EngineError::InvalidWorkerCount));
    assert_eq!(count_parallel(100, 0), Err(EngineError::InvalidWorkerCount));
}

#[test]
fn naive_count_is_exclusive() {
    assert_eq!(single_threaded_prime_naive(0), 0);
    assert_eq!(single_threaded_prime_naive(2), 0);
    assert_eq!(single_threaded_prime_naive(3), 1);
    assert_eq!(single_threaded_prime_naive(100), 25);
    assert_eq!(single_threaded_prime_naive(97), 24);
    assert_eq!(single_threaded_prime_naive(98), 25);
}

#[test]
fn trial_division_tells_primes() {
    assert!(!is_prime(0));
    assert!(!is_prime(1));
    assert!(is_prime(2));
    assert!(is_prime(3));
    assert!(!is_prime(4));
    assert!(!is_prime(9));
    assert!(!is_prime(25));
    assert!(is_prime(97));
    assert!(!is_prime(7_917));
    assert!(is_prime(7_919));
    assert!(is_prime(4_294_967_311));
    assert!(!is_prime(4_294_967_297));
    assert!(!is_prime(u64::MAX));
}

#[test]
fn shares_of_a_plan_add_up() {
    let plan = prime_sieve::plan::plan(100, 10, 4).unwrap();
    let base = prime_sieve::base::sieve_of_eratosthenes(10);
    let shares: Vec<u64> =
        (0..4).map(|worker| worker_share(&plan, &base, worker, 4).unwrap()).collect();
    assert_eq!(shares, vec![7, 4, 5, 5]);
    assert_eq!(shares.iter().sum::<u64>() + base.len() as u64, 25);
    assert_eq!(worker_share(&plan, &base, 4, 4), Ok(0));
    assert_eq!(worker_share(&plan, &base, 0, 0), Err(EngineError::InvalidWorkerCount));
    assert_eq!(worker_share(&plan, &base, 0, 1), Ok(21));
}
