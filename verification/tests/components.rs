use prime_sieve::aggregate::{merge, SharedTotal};
use prime_sieve::base::sieve_of_eratosthenes;
use prime_sieve::error::EngineError;
use prime_sieve::plan::{plan, Segment};
use prime_sieve::roots::isqrt;
use prime_sieve::segment::sieve_segment;

#[test]
fn base_primes_up_to_thirty() {
    assert_eq!(sieve_of_eratosthenes(30), vec![2, 3, 5, 7, 11, 13, 17, 19, 23, 29]);
}

#[test]
fn base_primes_include_the_limit() {
    assert_eq!(sieve_of_eratosthenes(2), vec![2]);
    assert_eq!(sieve_of_eratosthenes(3), vec![2, 3]);
    assert_eq!(sieve_of_eratosthenes(4), vec![2, 3]);
    assert_eq!(sieve_of_eratosthenes(29), vec![2, 3, 5, 7, 11, 13, 17, 19, 23, 29]);
    assert_eq!(sieve_of_eratosthenes(25), vec![2, 3, 5, 7, 11, 13, 17, 19, 23]);
}

#[test]
fn base_primes_below_two_are_none() {
    assert_eq!(sieve_of_eratosthenes(0), Vec::<u64>::new());
    assert_eq!(sieve_of_eratosthenes(1), Vec::<u64>::new());
}

#[test]
fn base_primes_count() {
    assert_eq!(sieve_of_eratosthenes(1_000_000).len(), 78_498);
    assert_eq!(sieve_of_eratosthenes(1_000).len(), 168);
}

#[test]
fn integer_square_roots() {
    assert_eq!(isqrt(0), 0);
    assert_eq!(isqrt(1), 1);
    assert_eq!(isqrt(2), 1);
    assert_eq!(isqrt(3), 1);
    assert_eq!(isqrt(4), 2);
    assert_eq!(isqrt(99), 9);
    assert_eq!(isqrt(100), 10);
    assert_eq!(isqrt(101), 10);
    assert_eq!(isqrt(1_000_000_000), 31_622);
    assert_eq!(isqrt(4_294_967_295 * 4_294_967_295), 4_294_967_295);
    assert_eq!(isqrt(4_294_967_295 * 4_294_967_295 - 1), 4_294_967_294);
    assert_eq!(isqrt(u64::MAX), 4_294_967_295);
}

#[test]
fn plan_of_hundred() {
    let segments = plan(100, 10, 4).unwrap();
    assert_eq!(segments.len(), 9);
    assert_eq!(segments[0], Segment { lo: 10, hi: 20, worker: 0 });
    assert_eq!(segments[1], Segment { lo: 20, hi: 30, worker: 1 });
    assert_eq!(segments[3], Segment { lo: 40, hi: 50, worker: 3 });
    assert_eq!(segments[4], Segment { lo: 50, hi: 60, worker: 0 });
    assert_eq!(segments[8], Segment { lo: 90, hi: 100, worker: 0 });
}

#[test]
fn plan_clips_the_last_segment() {
    let segments = plan(105, 10, 2).unwrap();
    assert_eq!(segments.len(), 10);
    assert_eq!(segments[9], Segment { lo: 100, hi: 105, worker: 1 });
    let segments = plan(11, 10, 1).unwrap();
    assert_eq!(segments, vec![Segment { lo: 10, hi: 11, worker: 0 }]);
}

#[test]
fn plan_without_segments() {
    assert_eq!(plan(0, 0, 1), Ok(vec![]));
    assert_eq!(plan(1, 1, 1), Ok(vec![]));
    assert_eq!(plan(10, 10, 3), Ok(vec![]));
    assert_eq!(plan(5, 10, 3), Ok(vec![]));
    assert_eq!(plan(5, 0, 3), Ok(vec![]));
}

#[test]
fn plan_of_small_bounds() {
    assert_eq!(plan(2, 1, 1), Ok(vec![Segment { lo: 1, hi: 2, worker: 0 }]));
    assert_eq!(
        plan(3, 1, 2),
        Ok(vec![Segment { lo: 1, hi: 2, worker: 0 }, Segment { lo: 2, hi: 3, worker: 1 }])
    );
}

#[test]
fn plan_refuses_no_worker() {
    assert_eq!(plan(100, 10, 0), Err(EngineError::InvalidWorkerCount));
}

#[test]
fn plan_and_base_range_cover_the_range() {
    for n in 0..=600u64 {
        let width = isqrt(n);
        let segments = plan(n, width, 3).unwrap();
        let expected = if width == 0 || n <= width { 0 } else { (n - width).div_ceil(width) };
        assert_eq!(segments.len() as u64, expected);
        let mut reach = width;
        for (index, segment) in segments.iter().enumerate() {
            assert_eq!(segment.lo, reach);
            assert!(segment.lo < segment.hi);
            assert!(segment.hi - segment.lo <= width);
            assert_eq!(segment.worker, index % 3);
            reach = segment.hi;
        }
        assert_eq!(reach, n);
    }
}

#[test]
fn segment_survivors() {
    let base = vec![2u64, 3];
    assert_eq!(sieve_segment(&Segment { lo: 10, hi: 20, worker: 0 }, &base), 4);
    assert_eq!(sieve_segment(&Segment { lo: 3, hi: 9, worker: 0 }, &base), 2);
    assert_eq!(sieve_segment(&Segment { lo: 0, hi: 7, worker: 0 }, &base), 2);
    assert_eq!(sieve_segment(&Segment { lo: 5, hi: 5, worker: 0 }, &base), 0);
    assert_eq!(sieve_segment(&Segment { lo: 1, hi: 4, worker: 0 }, &Vec::new()), 3);
    assert_eq!(sieve_segment(&Segment { lo: 90, hi: 100, worker: 0 }, &vec![2, 3, 5, 7]), 1);
}

#[test]
fn segment_at_the_end_of_the_range() {
    let base = vec![2u64, 3, 5];
    let segment = Segment { lo: u64::MAX - 10, hi: u64::MAX, worker: 0 };
    let mut expected = 0;
    for x in segment.lo..segment.hi {
        if x % 2 != 0 && x % 3 != 0 && x % 5 != 0 {
            expected += 1;
        }
    }
    assert_eq!(sieve_segment(&segment, &base), expected);
}

#[test]
fn merge_sums_the_parts() {
    assert_eq!(merge(&vec![]), Ok(0));
    assert_eq!(merge(&vec![7]), Ok(7));
    assert_eq!(merge(&vec![4, 7, 6, 4, 4]), Ok(25));
    assert_eq!(merge(&vec![u64::MAX - 1, 1]), Ok(u64::MAX));
}

#[test]
fn merge_does_not_depend_on_the_order() {
    assert_eq!(merge(&vec![1, 2, 3, 4]), merge(&vec![4, 2, 1, 3]));
    assert_eq!(merge(&vec![1, 2, 3, 4]), Ok(10));
}

#[test]
fn merge_overflow_is_a_fault() {
    assert_eq!(merge(&vec![u64::MAX, 1]), Err(EngineError::WorkerFault));
    assert_eq!(merge(&vec![1, u64::MAX, 0]), Err(EngineError::WorkerFault));
}

#[test]
fn shared_total_absorbs_each_part_once() {
    let mut total = SharedTotal::new(4);
    assert_eq!(total.value(), 4);
    assert_eq!(total.absorb(7), Ok(11));
    assert_eq!(total.absorb(0), Ok(11));
    assert_eq!(total.absorb(14), Ok(25));
    assert_eq!(total.value(), 25);
}

#[test]
fn shared_total_overflow_changes_nothing() {
    let mut total = SharedTotal::new(u64::MAX - 1);
    assert_eq!(total.absorb(2), Err(EngineError::WorkerFault));
    assert_eq!(total.value(), u64::MAX - 1);
    assert_eq!(total.absorb(1), Ok(u64::MAX));
    assert_eq!(total.absorb(1), Err(EngineError::WorkerFault));
    assert_eq!(total.value(), u64::MAX);
}
