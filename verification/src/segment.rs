//! The segment sieve: striking the multiples of the base primes in one
//! segment and counting what is left.

use vstd::prelude::*;
use vstd::arithmetic::div_mod::{lemma_fundamental_div_mod, lemma_mod_pos_bound};
use crate::plan::Segment;
use crate::primes::{
    count_in,
    divides,
    is_prime_list,
    is_prime_number,
    lemma_divides_multiple,
    lemma_divides_sum,
    lemma_no_multiple_between,
    lemma_prime_divisor,
    lemma_prime_factor,
};

verus! {

/// No entry of `base` divides `x`.
pub open spec fn survives(x: int, base: Seq<u64>) -> bool {
    forall|i: int| 0 <= i < base.len() ==> !divides(#[trigger] base[i] as int, x)
}

/// [`survives`] as a predicate on the candidate.
pub open spec fn survivor_of(base: Seq<u64>) -> spec_fn(int) -> bool {
    |x: int| survives(x, base)
}

/// The number of candidates in `[lo, hi)` that no entry of `base` divides.
pub open spec fn survivors_in(lo: int, hi: int, base: Seq<u64>) -> nat {
    count_in(survivor_of(base), lo, hi)
}

/// No prime `p <= limit` divides `x`.
pub open spec fn no_prime_factor_up_to(x: int, limit: int) -> bool {
    forall|p: int| is_prime_number(p) && p <= limit ==> !#[trigger] divides(p, x)
}

/// [`no_prime_factor_up_to`] as a predicate on the candidate.
pub open spec fn unfactored_by(limit: int) -> spec_fn(int) -> bool {
    |x: int| no_prime_factor_up_to(x, limit)
}

/// One more base prime strikes what it divides, and nothing else.
proof fn lemma_survives_one_more(x: int, base: Seq<u64>, i: int)
    requires
        0 <= i < base.len(),
    ensures
        survives(x, base.take(i + 1)) == (survives(x, base.take(i)) && !divides(base[i] as int, x)),
{
    let shorter = base.take(i);
    let longer = base.take(i + 1);
    if survives(x, longer) {
        assert(longer[i] == base[i]);
        assert forall|k: int| 0 <= k < shorter.len() implies !divides(
            #[trigger] shorter[k] as int,
            x,
        ) by {
            assert(longer[k] == shorter[k]);
        }
    }
    if survives(x, shorter) && !divides(base[i] as int, x) {
        assert forall|k: int| 0 <= k < longer.len() implies !divides(
            #[trigger] longer[k] as int,
            x,
        ) by {
            if k < i {
                assert(shorter[k] == longer[k]);
            }
        }
    }
}

/// Against the full list of the primes up to `limit`, a candidate survives exactly
/// when no prime up to `limit` divides it.
pub proof fn lemma_survives_prime_list(x: int, base: Seq<u64>, limit: int)
    requires
        is_prime_list(base, limit),
    ensures
        survives(x, base) == no_prime_factor_up_to(x, limit),
{
    if survives(x, base) {
        assert forall|p: int| is_prime_number(p) && p <= limit implies !#[trigger] divides(
            p,
            x,
        ) by {
            let i = choose|i: int| 0 <= i < base.len() && #[trigger] base[i] == p;
            assert(!divides(base[i] as int, x));
        }
    }
}

/// Between `limit` and the square of its successor, the candidates that no prime
/// up to `limit` divides are the primes.
pub proof fn lemma_unfactored_is_prime(x: int, limit: int)
    requires
        limit >= 0,
        2 <= x,
        limit < x < (limit + 1) * (limit + 1),
    ensures
        no_prime_factor_up_to(x, limit) == is_prime_number(x),
{
    if is_prime_number(x) {
        assert forall|p: int| is_prime_number(p) && p <= limit implies !#[trigger] divides(
            p,
            x,
        ) by {
            if divides(p, x) {
                lemma_prime_divisor(x, p);
            }
        }
    } else {
        let p = lemma_prime_factor(x);
        if p > limit {
            assert(p * p >= (limit + 1) * (limit + 1)) by (nonlinear_arith)
                requires
                    p >= limit + 1,
                    limit >= 0,
            ;
        }
        assert(divides(p, x));
    }
}

/// A number `limit >= 2` does not come through the striking by the primes up to itself.
pub proof fn lemma_limit_is_struck(limit: int)
    requires
        limit >= 2,
    ensures
        !no_prime_factor_up_to(limit, limit),
{
    let p = lemma_prime_factor(limit);
    assert(divides(p, limit));
}

/// Counts the candidates of `segment` that no base prime divides.
///
/// The multiples of each base prime are struck from a buffer that holds one
/// flag for each candidate of the segment; the count is what is left. With
/// the primes up to the square root of the bound as base primes, what is left
/// of a segment above them are its primes (see [`lemma_unfactored_is_prime`]).
pub fn sieve_segment(segment: &Segment, base_primes: &Vec<u64>) -> (count: u64)
    requires
        segment.lo <= segment.hi,
        segment.hi - segment.lo <= usize::MAX,
        forall|i: int| 0 <= i < base_primes.len() ==> base_primes[i] > 0,
    ensures
        count == survivors_in(segment.lo as int, segment.hi as int, base_primes@),
        count <= segment.hi - segment.lo,
{
    let lo: u64 = segment.lo;
    let hi: u64 = segment.hi;
    let width: usize = (hi - lo) as usize;
    let mut buffer: Vec<bool> = vec![true; width];
    let mut i: usize = 0;
    while i < base_primes.len()
        invariant
            i <= base_primes.len(),
            buffer.len() == width,
            lo + width == hi,
            forall|i: int| 0 <= i < base_primes.len() ==> base_primes[i] > 0,
            forall|k: int|
                0 <= k < width ==> buffer[k] == survives(lo + k, base_primes@.take(i as int)),
        decreases base_primes.len() - i,
    {
        let p: u64 = base_primes[i];
        let ghost taken = base_primes@.take(i as int);
        proof {
            lemma_fundamental_div_mod(lo as int, p as int);
            lemma_mod_pos_bound(lo as int, p as int);
            vstd::arithmetic::div_mod::lemma_mod_decreases(lo as nat, p as nat);
            lemma_divides_multiple(p as int, lo as int / p as int);
            lemma_divides_multiple(p as int, 1);
        }
        let below: u64 = lo - lo % p;
        let mut j: u64 = lo;
        let mut more: bool = lo < hi;
        if below < lo {
            match below.checked_add(p) {
                Some(next) => {
                    proof {
                        lemma_divides_sum(p as int, below as int, p as int);
                    }
                    j = next;
                    more = next < hi;
                },
                None => {
                    more = false;
                },
            }
        }
        proof {
            assert forall|x: int| lo <= x < hi && (more ==> x < j) implies !divides(
                p as int,
                x,
            ) by {
                if below < lo {
                    lemma_no_multiple_between(p as int, below as int, x);
                }
            }
        }
        while more
            invariant
                p > 0,
                buffer.len() == width,
                lo + width == hi,
                lo <= j,
                more ==> j < hi && divides(p as int, j as int),
                forall|k: int|
                    0 <= k < width ==> buffer[k] == (survives(lo + k, taken) && !(divides(
                        p as int,
                        lo + k,
                    ) && (more ==> lo + k < j))),
            decreases hi - j + if more {
                1int
            } else {
                0int
            },
        {
            buffer.set((j - lo) as usize, false);
            proof {
                assert forall|x: int| j < x < j + p implies !divides(p as int, x) by {
                    lemma_no_multiple_between(p as int, j as int, x);
                }
            }
            match j.checked_add(p) {
                Some(next) => {
                    if next < hi {
                        proof {
                            lemma_divides_sum(p as int, j as int, p as int);
                        }
                        j = next;
                    } else {
                        more = false;
                    }
                },
                None => {
                    more = false;
                },
            }
        }
        proof {
            assert forall|k: int| 0 <= k < width implies buffer[k] == survives(
                lo + k,
                base_primes@.take(i as int + 1),
            ) by {
                lemma_survives_one_more(lo + k, base_primes@, i as int);
            }
        }
        i += 1;
    }
    assert(base_primes@.take(base_primes.len() as int) =~= base_primes@);
    let mut count: u64 = 0;
    let mut k: usize = 0;
    while k < width
        invariant
            k <= width,
            buffer.len() == width,
            lo + width == hi,
            count <= k,
            count == survivors_in(lo as int, lo + k, base_primes@),
            forall|k: int| 0 <= k < width ==> buffer[k] == survives(lo + k, base_primes@),
        decreases width - k,
    {
        if buffer[k] {
            count += 1;
        }
        k += 1;
    }
    count
}

} // verus!
