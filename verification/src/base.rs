//! The base prime generator: the sieve of Eratosthenes on a whole range.

use vstd::prelude::*;
use vstd::arithmetic::div_mod::lemma_fundamental_div_mod;
use crate::primes::{
    divides,
    is_prime_list,
    is_prime_number,
    lemma_cofactor,
    lemma_divides_multiple,
    lemma_divides_sum,
    lemma_divides_transitive,
    lemma_no_multiple_between,
    lemma_no_prime_below_two,
    lemma_prime_by_small_divisors,
    prime_count_below,
    prime_count_up_to,
};

verus! {

/// `k` is at least two and no `d` with `2 <= d < p` divides it properly:
/// what the sieve's flag of `k` says once every number below `p` has had its turn.
pub open spec fn unstruck(k: int, p: int) -> bool {
    k >= 2 && forall|d: int| 2 <= d < p && d < k ==> !#[trigger] divides(d, k)
}

/// Striking the proper multiples of `p` from `p * p` on is all that the turn of `p` asks for.
proof fn lemma_turn_of_prime(k: int, p: int)
    requires
        p >= 2,
        unstruck(p, p),
    ensures
        unstruck(k, p + 1) == (unstruck(k, p) && !(p * p <= k && divides(p, k))),
{
    if unstruck(k, p) {
        if p * p <= k && divides(p, k) {
            assert(p < k) by (nonlinear_arith)
                requires
                    p >= 2,
                    p * p <= k,
            ;
        }
        if p < k && divides(p, k) {
            lemma_cofactor(p, k);
            let m = k / p;
            if m < p {
                assert(divides(m, k));
                assert(false);
            }
            assert(p * p <= k) by (nonlinear_arith)
                requires
                    p * m == k,
                    m >= p,
                    p >= 2,
            ;
        }
    }
}

/// A number that was struck itself has nothing left to strike.
proof fn lemma_turn_of_composite(k: int, p: int)
    requires
        p >= 2,
        !unstruck(p, p),
    ensures
        unstruck(k, p + 1) == unstruck(k, p),
{
    if unstruck(k, p) && p < k && divides(p, k) {
        let d = choose|d: int| 2 <= d < p && d < p && divides(d, p);
        lemma_divides_transitive(d, p, k);
        assert(false);
    }
}

/// Once `p * p` exceeds `k`, the flag of `k` tells whether `k` is prime.
proof fn lemma_unstruck_is_prime(k: int, p: int)
    requires
        p >= 0,
        p * p > k,
    ensures
        unstruck(k, p) == is_prime_number(k),
{
    if unstruck(k, p) {
        lemma_prime_by_small_divisors(k, p);
    }
}

/// Lists the primes `p <= n` in increasing order.
pub fn sieve_of_eratosthenes(n: u64) -> (primes: Vec<u64>)
    requires
        n < usize::MAX,
    ensures
        is_prime_list(primes@, n as int),
        primes.len() == prime_count_up_to(n as int),
{
    let mut primes: Vec<u64> = Vec::new();
    if n < 2 {
        proof {
            lemma_no_prime_below_two(n as int + 1);
        }
        return primes;
    }
    let top: usize = n as usize;
    let mut primes_list: Vec<bool> = vec![true; top + 1];
    primes_list.set(0, false);
    primes_list.set(1, false);
    let mut p: usize = 2;
    while p <= top / p
        invariant
            2 <= p <= top,
            top == n,
            primes_list.len() == top + 1,
            forall|k: int| 0 <= k <= top ==> primes_list[k] == unstruck(k, p as int),
        decreases top - p,
    {
        proof {
            lemma_fundamental_div_mod(top as int, p as int);
            assert(p * (top / p) >= p * p) by (nonlinear_arith)
                requires
                    top / p >= p,
                    p >= 2,
            ;
            assert(p * p >= 2 * p) by (nonlinear_arith)
                requires
                    p >= 2,
            ;
        }
        if primes_list[p] {
            let mut i: usize = p * p;
            let mut more: bool = true;
            proof {
                lemma_divides_multiple(p as int, p as int);
            }
            while more
                invariant
                    2 <= p < top,
                    primes_list.len() == top + 1,
                    p * p <= i,
                    more ==> i <= top,
                    divides(p as int, i as int),
                    forall|k: int|
                        0 <= k <= top ==> primes_list[k] == (unstruck(k, p as int) && !(p * p <= k
                            && divides(p as int, k) && (more ==> k < i))),
                decreases top - i + if more {
                    1int
                } else {
                    0int
                },
            {
                primes_list.set(i, false);
                if top - i >= p {
                    proof {
                        lemma_divides_multiple(p as int, 1);
                        lemma_divides_sum(p as int, i as int, p as int);
                        assert forall|k: int| i < k < i + p implies !divides(p as int, k) by {
                            lemma_no_multiple_between(p as int, i as int, k);
                        }
                    }
                    i += p;
                } else {
                    proof {
                        assert forall|k: int| i < k <= top implies !divides(p as int, k) by {
                            lemma_no_multiple_between(p as int, i as int, k);
                        }
                    }
                    more = false;
                }
            }
            proof {
                assert forall|k: int| 0 <= k <= top implies primes_list[k] == unstruck(
                    k,
                    p as int + 1,
                ) by {
                    lemma_turn_of_prime(k, p as int);
                }
            }
        } else {
            proof {
                assert forall|k: int| 0 <= k <= top implies primes_list[k] == unstruck(
                    k,
                    p as int + 1,
                ) by {
                    lemma_turn_of_composite(k, p as int);
                }
            }
        }
        p += 1;
    }
    proof {
        lemma_fundamental_div_mod(top as int, p as int);
        assert(p * p > top) by (nonlinear_arith)
            requires
                top == p * (top / p) + top % p,
                0 <= top % p < p,
                0 <= top / p < p,
        ;
        assert forall|k: int| 0 <= k <= top implies primes_list[k] == is_prime_number(k) by {
            lemma_unstruck_is_prime(k, p as int);
        }
        lemma_no_prime_below_two(0);
    }
    let mut index: usize = 0;
    while index <= top
        invariant
            index <= top + 1,
            top == n,
            top < usize::MAX,
            primes_list.len() == top + 1,
            forall|k: int| 0 <= k <= top ==> primes_list[k] == is_prime_number(k),
            is_prime_list(primes@, index as int - 1),
            primes.len() == prime_count_below(index as int),
            primes.len() <= index,
        decreases top + 1 - index,
    {
        if primes_list[index] {
            let ghost before = primes@;
            primes.push(index as u64);
            proof {
                assert forall|q: int| is_prime_number(q) && q <= index implies exists|i: int|
                    0 <= i < primes@.len() && #[trigger] primes@[i] == q by {
                    if q == index {
                        assert(primes@[before.len() as int] == q);
                    } else {
                        let i = choose|i: int| 0 <= i < before.len() && #[trigger] before[i] == q;
                        assert(primes@[i] == q);
                    }
                }
            }
        }
        index += 1;
    }
    primes
}

} // verus!
