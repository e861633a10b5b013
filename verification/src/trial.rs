//! Trial division: the primality test and the count it gives by enumeration.

use vstd::prelude::*;
use vstd::arithmetic::div_mod::lemma_fundamental_div_mod;
use crate::primes::{
    divides,
    is_prime_number,
    lemma_prime_by_small_divisors,
    prime_count_below,
};

verus! {

/// Tests `num` for primality by dividing it by every `i >= 2` with `i * i <= num`.
pub fn is_prime(num: u64) -> (prime: bool)
    ensures
        prime == is_prime_number(num as int),
{
    if num < 2 {
        return false;
    }
    let mut i: u64 = 2;
    while i <= num / i
        invariant
            2 <= i <= num,
            forall|d: int| 2 <= d < i ==> !#[trigger] divides(d, num as int),
        decreases num - i,
    {
        proof {
            lemma_fundamental_div_mod(num as int, i as int);
            assert(i * (num / i) >= i * i) by (nonlinear_arith)
                requires
                    num / i >= i,
                    i >= 2,
            ;
            assert(i * i >= 2 * i) by (nonlinear_arith)
                requires
                    i >= 2,
            ;
        }
        if num % i == 0 {
            assert(divides(i as int, num as int));
            return false;
        }
        i += 1;
    }
    proof {
        lemma_fundamental_div_mod(num as int, i as int);
        assert(i * i > num) by (nonlinear_arith)
            requires
                num == i * (num / i) + num % i,
                0 <= num % i < i,
                0 <= num / i < i,
        ;
        lemma_prime_by_small_divisors(num as int, i as int);
    }
    true
}

/// Counts the primes below `num_of_primes` by testing every candidate in turn.
pub fn single_threaded_prime_naive(num_of_primes: u64) -> (count: u64)
    ensures
        count == prime_count_below(num_of_primes as int),
{
    let mut curr_num_of_primes: u64 = 0;
    let mut curr_num: u64 = 0;
    while curr_num < num_of_primes
        invariant
            curr_num <= num_of_primes,
            curr_num_of_primes == prime_count_below(curr_num as int),
            curr_num_of_primes <= curr_num,
        decreases num_of_primes - curr_num,
    {
        if is_prime(curr_num) {
            curr_num_of_primes += 1;
        }
        curr_num += 1;
    }
    curr_num_of_primes
}

} // verus!
