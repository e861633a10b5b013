//! The shared sieve: one array of flags that all workers strike in, and the
//! set of the numbers whose multiples some worker has taken on.

use std::collections::HashSet;
use vstd::prelude::*;
use crate::error::EngineError;
use crate::primes::{
    count_in,
    divides,
    is_prime_number,
    lemma_count_agree,
    lemma_count_split,
    lemma_divides_multiple,
    lemma_divides_sum,
    lemma_no_multiple_between,
    lemma_no_prime_below_two,
    lemma_prime_factor,
    prime_count_up_to,
    prime_predicate,
};
use crate::search::{find_first_k_primes, primes_below};

verus! {

/// Clears the flags of the multiples of `p` from `p * p` on.
fn strike_multiples(flags: &mut Vec<bool>, p: usize)
    requires
        2 <= p,
        p * p < old(flags).len(),
    ensures
        final(flags).len() == old(flags).len(),
        forall|k: int|
            0 <= k < old(flags).len() ==> #[trigger] final(flags)[k] == (old(flags)[k] && !(p * p
                <= k && divides(p as int, k))),
{
    let top: usize = flags.len() - 1;
    let ghost before = flags@;
    assert(p * p >= 2 * p) by (nonlinear_arith)
        requires
            p >= 2,
    ;
    let mut i: usize = p * p;
    let mut more: bool = true;
    proof {
        lemma_divides_multiple(p as int, p as int);
    }
    while more
        invariant
            2 <= p,
            flags.len() == top + 1,
            before.len() == top + 1,
            p * p <= i,
            more ==> i <= top,
            divides(p as int, i as int),
            forall|k: int|
                0 <= k <= top ==> #[trigger] flags[k] == (before[k] && !(p * p <= k && divides(
                    p as int,
                    k,
                ) && (more ==> k < i))),
        decreases top - i + if more {
            1int
        } else {
            0int
        },
    {
        flags.set(i, false);
        proof {
            lemma_divides_multiple(p as int, 1);
            lemma_divides_sum(p as int, i as int, p as int);
            assert forall|k: int| i < k < i + p implies !divides(p as int, k) by {
                lemma_no_multiple_between(p as int, i as int, k);
            }
        }
        if top - i >= p {
            i += p;
        } else {
            more = false;
        }
    }
}

/// A multiple of `p >= 2` from `p * p` on is no prime.
proof fn lemma_multiple_is_composite(p: int, k: int)
    requires
        p >= 2,
        p * p <= k,
        divides(p, k),
    ensures
        !is_prime_number(k),
{
    assert(p < k) by (nonlinear_arith)
        requires
            p >= 2,
            p * p <= k,
    ;
}

/// The flags and the claims that the workers of the shared sieve work on.
///
/// A flag that is cleared belongs to a composite number, and the multiples of
/// a claimed number, from its square on, are cleared: that is what
/// [`SharedSieve::well_formed`] says. Whoever shares the sieve
/// between workers hands it out under exclusive access, which is what
/// `&mut self` asks for; one call of [`SharedSieve::turn`] is then one
/// indivisible step.
pub struct SharedSieve {
    flags: Vec<bool>,
    seen: HashSet<usize>,
}

impl SharedSieve {
    /// The sieve is consistent: only flags of composite numbers are cleared, and
    /// what is claimed has had its multiples struck.
    pub closed spec fn well_formed(&self) -> bool {
        &&& 1 <= self.flags.len()
        &&& forall|k: int|
            2 <= k < self.flags.len() && !#[trigger] self.flags[k] ==> !is_prime_number(k)
        &&& forall|p: usize| #[trigger]
            self.seen@.contains(p) ==> 2 <= p && p * p < self.flags.len()
        &&& forall|p: usize, k: int|
            #![trigger self.seen@.contains(p), self.flags[k]]
            self.seen@.contains(p) && p * p <= k < self.flags.len() && divides(p as int, k)
                ==> !self.flags[k]
    }

    /// The largest number that the sieve has a flag for.
    pub closed spec fn limit(&self) -> nat {
        (self.flags.len() - 1) as nat
    }

    /// Whether the flag of `k` is still set.
    pub closed spec fn flagged(&self, k: int) -> bool {
        0 <= k < self.flags.len() && self.flags[k]
    }

    /// Whether some worker has taken on the multiples of `p`.
    pub closed spec fn claimed(&self, p: usize) -> bool {
        self.seen@.contains(p)
    }

    /// [`SharedSieve::flagged`] as a predicate on the number.
    pub open spec fn flag_predicate(&self) -> spec_fn(int) -> bool {
        |k: int| self.flagged(k)
    }

    /// Every number from `start` on whose square is within the limit is claimed or no
    /// longer flagged: a worker that started at `start` has come through.
    pub open spec fn swept_from(&self, start: int) -> bool {
        forall|q: int|
            start <= q && 2 <= q && q * q <= self.limit() ==> (#[trigger] self.flagged(q)
                ==> self.claimed(q as usize))
    }

    /// A sieve for the numbers up to `n` with every flag set and nothing claimed.
    pub fn new(n: usize) -> (sieve: SharedSieve)
        requires
            n < usize::MAX,
        ensures
            sieve.well_formed(),
            sieve.limit() == n,
            forall|k: int| 0 <= k <= n ==> sieve.flagged(k),
            forall|p: usize| !sieve.claimed(p),
    {
        SharedSieve { flags: vec![true; n + 1], seen: HashSet::new() }
    }

    /// The largest number that the sieve has a flag for.
    pub fn top(&self) -> (top: usize)
        requires
            self.well_formed(),
        ensures
            top == self.limit(),
    {
        self.flags.len() - 1
    }

    /// One iteration of a worker that has come to `p`. Returns the number that the
    /// worker goes on with, or nothing where `p` is below two or has a square
    /// beyond the limit: there the worker is done, and nothing changes.
    ///
    /// A `p` that is still flagged and that no worker has claimed is claimed,
    /// and the flags of its multiples from `p * p` on are cleared.
    pub fn turn(&mut self, p: usize) -> (next: Option<usize>)
        requires
            old(self).well_formed(),
        ensures
            final(self).well_formed(),
            final(self).limit() == old(self).limit(),
            next == if 2 <= p && p * p <= old(self).limit() {
                Some((p + 1) as usize)
            } else {
                None::<usize>
            },
            next is None ==> {
                &&& forall|k: int| final(self).flagged(k) == old(self).flagged(k)
                &&& forall|q: usize| final(self).claimed(q) == old(self).claimed(q)
            },
            next is Some ==> {
                let struck = old(self).flagged(p as int) && !old(self).claimed(p);
                &&& forall|k: int|
                    #[trigger] final(self).flagged(k) == (old(self).flagged(k) && !(struck && p * p
                        <= k && divides(p as int, k)))
                &&& forall|q: usize|
                    #[trigger] final(self).claimed(q) == (old(self).claimed(q) || (struck && q
                        == p))
            },
    {
        broadcast use vstd::std_specs::hash::group_hash_axioms;

        let top: usize = self.flags.len() - 1;
        if p < 2 {
            return None;
        }
        let square: usize = match p.checked_mul(p) {
            Some(square) => square,
            None => {
                return None;
            },
        };
        if square > top {
            return None;
        }
        assert(p < square) by (nonlinear_arith)
            requires
                p >= 2,
                square == p * p,
        ;
        if !self.seen.contains(&p) && self.flags[p] {
            let ghost before = self.flags@;
            strike_multiples(&mut self.flags, p);
            proof {
                assert forall|k: int| 2 <= k < self.flags.len() && !#[trigger] self.flags[k]
                    implies !is_prime_number(k) by {
                    if before[k] {
                        lemma_multiple_is_composite(p as int, k);
                    }
                }
            }
            self.seen.insert(p);
        }
        Some(p + 1)
    }

    /// The pass of one worker: from `start` on, turn after turn, until the squares
    /// pass the limit. A worker that starts below two has no turn.
    pub fn sweep(&mut self, start: usize)
        requires
            old(self).well_formed(),
        ensures
            final(self).well_formed(),
            final(self).limit() == old(self).limit(),
            start >= 2 ==> final(self).swept_from(start as int),
            forall|k: int| #[trigger] final(self).flagged(k) ==> old(self).flagged(k),
            forall|q: usize| old(self).claimed(q) ==> #[trigger] final(self).claimed(q),
            forall|from: int| old(self).swept_from(from) ==> final(self).swept_from(from),
    {
        let ghost initial = *self;
        let mut p: usize = start;
        let mut more: bool = true;
        while more
            invariant
                self.well_formed(),
                self.limit() == initial.limit(),
                start <= p,
                !more ==> p < 2 || p * p > self.limit(),
                forall|q: int|
                    start <= q < p && 2 <= q && q * q <= self.limit() && #[trigger] self.flagged(q)
                        ==> self.claimed(q as usize),
                forall|k: int| #[trigger] self.flagged(k) ==> initial.flagged(k),
                forall|q: usize| initial.claimed(q) ==> #[trigger] self.claimed(q),
            decreases
                    if !more {
                        0int
                    } else if p <= self.limit() {
                        self.limit() - p + 2
                    } else {
                        1int
                    },
        {
            let ghost before = *self;
            match self.turn(p) {
                Some(q) => {
                    proof {
                        assert(p * p >= p) by (nonlinear_arith)
                            requires
                                p >= 2,
                        ;
                        assert forall|q: int|
                            start <= q < p + 1 && 2 <= q && q * q <= self.limit()
                                && #[trigger] self.flagged(q) implies self.claimed(q as usize) by {
                            if q < p {
                                assert(before.flagged(q));
                            }
                        }
                    }
                    p = q;
                },
                None => {
                    more = false;
                },
            }
        }
        proof {
            if start >= 2 {
                assert forall|q: int|
                    start <= q && 2 <= q && q * q <= self.limit() && #[trigger] self.flagged(
                        q,
                    ) implies self.claimed(q as usize) by {
                    if q >= p {
                        assert(q * q >= p * p) by (nonlinear_arith)
                            requires
                                q >= p,
                                p >= 2,
                        ;
                    }
                }
            }
            assert forall|from: int| initial.swept_from(from) implies self.swept_from(from) by {
                assert forall|q: int|
                    from <= q && 2 <= q && q * q <= self.limit() && #[trigger] self.flagged(
                        q,
                    ) implies self.claimed(q as usize) by {
                    assert(initial.flagged(q));
                }
            }
        }
    }

    /// Counts the numbers from two on that are still flagged. Once a worker that
    /// started at two has come through, these are the primes up to the limit.
    pub fn count(&self) -> (count: u64)
        requires
            self.well_formed(),
        ensures
            count == count_in(self.flag_predicate(), 2, self.limit() as int + 1),
            self.swept_from(2) ==> count == prime_count_up_to(self.limit() as int),
    {
        let top: usize = self.flags.len() - 1;
        let mut count: u64 = 0;
        if top < 2 {
            proof {
                lemma_no_prime_below_two(top as int + 1);
            }
            return 0;
        }
        let mut k: usize = 2;
        while k <= top
            invariant
                2 <= k <= top + 1,
                top + 1 == self.flags.len(),
                count == count_in(self.flag_predicate(), 2, k as int),
                count <= k - 2,
            decreases top + 1 - k,
        {
            if self.flags[k] {
                count += 1;
            }
            k += 1;
        }
        proof {
            self.lemma_flags_are_primes(top as int);
        }
        count
    }

    /// In a sieve that is well formed and swept from two, the flags from two on
    /// show the primes.
    proof fn lemma_flags_are_primes(self, top: int)
        requires
            self.well_formed(),
            top == self.limit(),
            top >= 2,
        ensures
            self.swept_from(2) ==> count_in(self.flag_predicate(), 2, top + 1)
                == prime_count_up_to(top),
    {
        if self.swept_from(2) {
            assert forall|k: int| 2 <= k < top + 1 implies #[trigger] self.flag_predicate()(k)
                == prime_predicate()(k) by {
                if self.flags[k] && !is_prime_number(k) {
                    let q = lemma_prime_factor(k);
                    assert(q * q <= top);
                    if !self.flags[q] {
                        assert(!is_prime_number(q));
                    }
                    assert(self.flagged(q));
                    assert(self.seen@.contains(q as usize));
                    assert(!self.flags[k]);
                }
            }
            lemma_count_agree(self.flag_predicate(), prime_predicate(), 2, top + 1);
            lemma_count_split(prime_predicate(), 0, 2, top + 1);
            lemma_no_prime_below_two(2);
        }
    }
}

/// The first prime is two.
pub proof fn lemma_first_prime_is_two(c: nat)
    requires
        c <= u64::MAX + 1,
    ensures
        c <= 2 ==> primes_below(c).len() == 0,
        c >= 3 ==> primes_below(c).len() >= 1 && primes_below(c)[0] == 2,
    decreases c,
{
    reveal_with_fuel(primes_below, 4);
    if c > 3 {
        lemma_first_prime_is_two((c - 1) as nat);
    } else if c == 3 {
        assert(is_prime_number(2));
        assert(primes_below(2).len() == 0);
    }
}

/// Counts the primes up to `n` with a sieve that `worker_count` workers share: the
/// workers start at the first `worker_count` primes, and each strikes from
/// there on what nobody has claimed before.
///
/// Here the workers go one after the other. Whatever their order, the first
/// of them, which starts at two, leaves no composite flagged.
/// No worker at all is refused.
pub fn shared_sieve_count(n: usize, worker_count: usize) -> (count: Result<u64, EngineError>)
    requires
        n < usize::MAX,
    ensures
        worker_count == 0 ==> count == Err::<u64, EngineError>(EngineError::InvalidWorkerCount),
        worker_count > 0 ==> count == Ok::<u64, EngineError>(prime_count_up_to(n as int) as u64),
{
    let first_m_primes = match find_first_k_primes(worker_count as u64, 1) {
        Ok(primes) => primes,
        Err(fault) => {
            return Err(fault);
        },
    };
    if worker_count == 0 {
        return Err(EngineError::InvalidWorkerCount);
    }
    proof {
        let c = choose|c: nat|
            c <= u64::MAX + 1 && first_m_primes@ == #[trigger] primes_below(c) && (
            first_m_primes@.len() == worker_count as nat || (first_m_primes@.len()
                < worker_count as nat && c == u64::MAX + 1));
        lemma_first_prime_is_two(c);
    }
    let mut sieve = SharedSieve::new(n);
    let mut worker: usize = 0;
    while worker < first_m_primes.len()
        invariant
            worker <= first_m_primes.len(),
            first_m_primes.len() >= 1,
            first_m_primes[0] == 2,
            sieve.well_formed(),
            sieve.limit() == n,
            worker >= 1 ==> sieve.swept_from(2),
        decreases first_m_primes.len() - worker,
    {
        let start: u64 = first_m_primes[worker];
        if start <= n as u64 {
            sieve.sweep(start as usize);
        } else {
            proof {
                if worker == 0 {
                    assert forall|q: int|
                        2 <= q && 2 <= q && q * q <= sieve.limit() && #[trigger] sieve.flagged(q) implies sieve.claimed(q as usize) by {
                        assert(q * q >= 2 * q) by (nonlinear_arith)
                            requires
                                q >= 2,
                        ;
                    }
                }
            }
        }
        worker += 1;
    }
    let found = sieve.count();
    proof {
        crate::primes::lemma_count_bound(prime_predicate(), 0, n as int + 1);
    }
    Ok(found)
}

} // verus!
