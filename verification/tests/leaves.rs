use prime_sieve::atkin::sieve_of_atkin;
use prime_sieve::blocks::{block_bounds, blocked_prime_count, count_primes_in};
use prime_sieve::error::EngineError;
use prime_sieve::shared::{shared_sieve_count, SharedSieve};
use prime_sieve::trial::{is_prime, single_threaded_prime_naive};
use prime_sieve::wheel::single_wheel_mod30;

#[test]
fn atkin_known_counts() {
    assert_eq!(sieve_of_atkin(0), 0);
    assert_eq!(sieve_of_atkin(1), 0);
    assert_eq!(sieve_of_atkin(2), 1);
    assert_eq!(sieve_of_atkin(3), 2);
    assert_eq!(sieve_of_atkin(4), 2);
    assert_eq!(sieve_of_atkin(5), 3);
    assert_eq!(sieve_of_atkin(100), 25);
    assert_eq!(sieve_of_atkin(1_000), 168);
    assert_eq!(sieve_of_atkin(100_000), 9_592);
}

#[test]
fn atkin_counts_the_primes_up_to_the_bound() {
    let mut reference: u64 = 0;
    for n in 0..=3_000u64 {
        if is_prime(n) {
            reference += 1;
        }
        assert_eq!(sieve_of_atkin(n), reference);
    }
}

#[test]
fn atkin_takes_out_squares() {
    assert_eq!(sieve_of_atkin(24), 9);
    assert_eq!(sieve_of_atkin(25), 9);
    assert_eq!(sieve_of_atkin(48), 15);
    assert_eq!(sieve_of_atkin(49), 15);
    assert_eq!(sieve_of_atkin(169), 39);
}

#[test]
fn wheel_known_counts() {
    assert_eq!(single_wheel_mod30(0), 0);
    assert_eq!(single_wheel_mod30(1), 0);
    assert_eq!(single_wheel_mod30(2), 1);
    assert_eq!(single_wheel_mod30(3), 2);
    assert_eq!(single_wheel_mod30(4), 2);
    assert_eq!(single_wheel_mod30(5), 3);
    assert_eq!(single_wheel_mod30(6), 3);
    assert_eq!(single_wheel_mod30(7), 4);
    assert_eq!(single_wheel_mod30(30), 10);
    assert_eq!(single_wheel_mod30(31), 11);
    assert_eq!(single_wheel_mod30(100), 25);
    assert_eq!(single_wheel_mod30(100_000), 9_592);
}

#[test]
fn wheel_strikes_a_composite_bound() {
    assert_eq!(single_wheel_mod30(48), 15);
    assert_eq!(single_wheel_mod30(49), 15);
    assert_eq!(single_wheel_mod30(77), 21);
    assert_eq!(single_wheel_mod30(121), 30);
}

#[test]
fn wheel_counts_the_primes_up_to_the_bound() {
    let mut reference: u64 = 0;
    for n in 0..=3_000u64 {
        if is_prime(n) {
            reference += 1;
        }
        assert_eq!(single_wheel_mod30(n), reference);
    }
}

#[test]
fn blocks_of_ten_for_three() {
    assert_eq!(block_bounds(10, 3, 0), Ok((0, 4)));
    assert_eq!(block_bounds(10, 3, 1), Ok((4, 8)));
    assert_eq!(block_bounds(10, 3, 2), Ok((8, 10)));
    assert_eq!(block_bounds(10, 3, 3), Ok((10, 10)));
    assert_eq!(block_bounds(10, 3, 100), Ok((10, 10)));
}

#[test]
fn blocks_tile_the_range() {
    for n in [0u64, 1, 2, 7, 10, 64, 100, 101] {
        for workers in 1..=12usize {
            let mut reach = 0;
            for id in 0..workers {
                let (start, end) = block_bounds(n, workers, id).unwrap();
                assert_eq!(start, reach);
                assert!(start <= end);
                assert!(end - start <= n.div_ceil(workers as u64));
                reach = end;
            }
            assert_eq!(reach, n);
        }
    }
}

#[test]
fn blocks_of_the_largest_bound() {
    assert_eq!(block_bounds(u64::MAX, 1, 0), Ok((0, u64::MAX)));
    assert_eq!(block_bounds(u64::MAX, 2, 1), Ok((9_223_372_036_854_775_808, u64::MAX)));
    assert_eq!(block_bounds(u64::MAX, 2, 2), Ok((u64::MAX, u64::MAX)));
    assert_eq!(block_bounds(u64::MAX, 3, usize::MAX), Ok((u64::MAX, u64::MAX)));
}

#[test]
fn blocks_refuse_no_worker() {
    assert_eq!(block_bounds(10, 0, 0), Err(EngineError::InvalidWorkerCount));
    assert_eq!(blocked_prime_count(10, 0), Err(EngineError::InvalidWorkerCount));
}

#[test]
fn primes_in_a_range() {
    assert_eq!(count_primes_in(0, 10), 4);
    assert_eq!(count_primes_in(4, 8), 2);
    assert_eq!(count_primes_in(8, 10), 0);
    assert_eq!(count_primes_in(7, 8), 1);
    assert_eq!(count_primes_in(7, 7), 0);
    assert_eq!(count_primes_in(9, 3), 0);
}

#[test]
fn blocked_count_does_not_depend_on_the_workers() {
    for n in [0u64, 1, 2, 3, 10, 100, 1_000] {
        let naive = single_threaded_prime_naive(n);
        for workers in [1usize, 2, 3, 4, 16, 5_000] {
            assert_eq!(blocked_prime_count(n, workers), Ok(naive));
        }
    }
    assert_eq!(blocked_prime_count(100, 4), Ok(25));
    assert_eq!(blocked_prime_count(3, usize::MAX), Ok(1));
}

#[test]
fn shared_sieve_counts() {
    assert_eq!(shared_sieve_count(0, 1), Ok(0));
    assert_eq!(shared_sieve_count(1, 2), Ok(0));
    assert_eq!(shared_sieve_count(2, 2), Ok(1));
    assert_eq!(shared_sieve_count(3, 1), Ok(2));
    assert_eq!(shared_sieve_count(100, 4), Ok(25));
    assert_eq!(shared_sieve_count(100_000, 8), Ok(9_592));
    for workers in 1..=10usize {
        assert_eq!(shared_sieve_count(1_000, workers), Ok(168));
    }
}

#[test]
fn shared_sieve_refuses_no_worker() {
    assert_eq!(shared_sieve_count(100, 0), Err(EngineError::InvalidWorkerCount));
}

#[test]
fn shared_sieve_turns() {
    let mut sieve = SharedSieve::new(30);
    assert_eq!(sieve.top(), 30);
    assert_eq!(sieve.count(), 29);
    assert_eq!(sieve.turn(0), None);
    assert_eq!(sieve.turn(1), None);
    assert_eq!(sieve.turn(6), None);
    assert_eq!(sieve.count(), 29);
    assert_eq!(sieve.turn(3), Some(4));
    assert_eq!(sieve.count(), 21);
    assert_eq!(sieve.turn(3), Some(4));
    assert_eq!(sieve.count(), 21);
    assert_eq!(sieve.turn(2), Some(3));
    assert_eq!(sieve.count(), 11);
    assert_eq!(sieve.turn(5), Some(6));
    assert_eq!(sieve.count(), 10);
}

#[test]
fn shared_sieve_sweeps_in_any_order() {
    let mut sieve = SharedSieve::new(200);
    sieve.sweep(5);
    sieve.sweep(3);
    sieve.sweep(0);
    sieve.sweep(2);
    sieve.sweep(7);
    assert_eq!(sieve.count(), 46);
    let mut sieve = SharedSieve::new(200);
    sieve.sweep(2);
    assert_eq!(sieve.count(), 46);
}
