//! The coordinator: base primes, plan, one share for each worker, and the
//! total that all shares are merged into.

use vstd::prelude::*;
use vstd::arithmetic::div_mod::{lemma_mod_add_multiples_vanish, lemma_small_mod};
use crate::aggregate::{
    lemma_shares_of_idle_residues,
    lemma_shares_regroup,
    lemma_strided_sum_agree,
    lemma_strided_sum_empty,
    lemma_strided_sum_monotone,
    lemma_strided_sum_stride,
    lemma_sum_split,
    share_of,
    strided_sum,
    sum_over,
    SharedTotal,
};
use crate::base::sieve_of_eratosthenes;
use crate::error::EngineError;
use crate::plan::{
    is_plan,
    lemma_engine_plan_length,
    lemma_segment_exists,
    lemma_segment_shape,
    plan,
    planned_hi,
    planned_lo,
    segment_count,
    Segment,
};
use crate::primes::{
    count_in,
    is_prime_list,
    lemma_count_agree,
    lemma_count_split,
    lemma_no_prime_below_two,
    lemma_prime_count_bound,
    prime_count_below,
    prime_count_up_to,
    prime_predicate,
};
use crate::roots::{floor_sqrt, isqrt, lemma_floor_sqrt_bounds, lemma_floor_sqrt_unique};
use crate::segment::{
    lemma_limit_is_struck,
    lemma_survives_prime_list,
    lemma_unfactored_is_prime,
    sieve_segment,
    survivor_of,
    survivors_in,
    unfactored_by,
};

verus! {

/// How the segments are gone through.
#[derive(Clone, Copy, Debug, PartialEq, Eq, Structural)]
pub enum Strategy {
    /// One pass over all segments, in order.
    Sequential,
    /// One share of the segments for each worker, merged into a shared total.
    SegmentedParallel,
}

/// What segment `j` of the engine's plan contributes: the number of its candidates
/// that no prime up to `width` divides.
pub open spec fn segment_yield(n: int, width: int, j: int) -> nat {
    count_in(unfactored_by(width), planned_lo(width, j), planned_hi(n, width, j))
}

/// [`segment_yield`] as a function of the segment's index.
pub open spec fn yield_of(n: int, width: int) -> spec_fn(int) -> nat {
    |j: int| segment_yield(n, width, j)
}

/// What one pass over all segments counts for the bound `n`: the primes up to the
/// integer square root of `n`, and what every segment yields.
pub open spec fn sequential_total(n: nat) -> nat {
    let width = floor_sqrt(n) as int;
    prime_count_up_to(width) + sum_over(
        yield_of(n as int, width),
        0,
        segment_count(n as int, width),
    )
}

/// What `worker_count` workers count for the bound `n`: the primes up to the
/// integer square root of `n`, and what every worker's segments yield.
pub open spec fn parallel_total(n: nat, worker_count: int) -> nat {
    let width = floor_sqrt(n) as int;
    prime_count_up_to(width) + sum_over(
        share_of(yield_of(n as int, width), worker_count, segment_count(n as int, width)),
        0,
        worker_count,
    )
}

/// The count for the bound `n` in closed form: the number of primes below `n`,
/// but for the bounds two and three. Their integer square root is one, so that
/// no base prime exists and the candidates from one on all come through.
pub open spec fn counted_below(n: nat) -> nat {
    if n == 2 || n == 3 {
        (n - 1) as nat
    } else {
        prime_count_below(n as int)
    }
}

/// What a segment of any plan yields against any base primes, by the segment's index.
pub open spec fn plan_yield_of(plan: Seq<Segment>, base: Seq<u64>) -> spec_fn(int) -> nat {
    |j: int|
        if 0 <= j < plan.len() {
            survivors_in(plan[j].lo as int, plan[j].hi as int, base)
        } else {
            0nat
        }
}

/// What the segments `worker`, `worker + worker_count`, ... of a plan yield together.
pub open spec fn share_yield(
    plan: Seq<Segment>,
    base: Seq<u64>,
    worker: int,
    worker_count: int,
) -> nat {
    strided_sum(plan_yield_of(plan, base), worker, worker_count, plan.len() as int)
}

/// How a worker's pass over its segments ends.
pub open spec fn share_outcome(
    plan: Seq<Segment>,
    base: Seq<u64>,
    worker: int,
    worker_count: int,
) -> Result<u64, EngineError> {
    if worker_count <= 0 {
        Err(EngineError::InvalidWorkerCount)
    } else if share_yield(plan, base, worker, worker_count) > u64::MAX {
        Err(EngineError::WorkerFault)
    } else {
        Ok(share_yield(plan, base, worker, worker_count) as u64)
    }
}

/// How a count for the bound `n` ends: no worker is refused, a segment buffer
/// that the machine cannot index is a fault, and else the count is the total
/// of the strategy.
pub open spec fn counting_outcome(n: nat, worker_count: nat, strategy: Strategy) -> Result<
    u64,
    EngineError,
> {
    if worker_count == 0 {
        Err(EngineError::InvalidWorkerCount)
    } else if floor_sqrt(n) >= usize::MAX {
        Err(EngineError::WorkerFault)
    } else {
        match strategy {
            Strategy::Sequential => Ok(sequential_total(n) as u64),
            Strategy::SegmentedParallel => Ok(parallel_total(n, worker_count as int) as u64),
        }
    }
}

/// Where the first `j` segments of the engine's plan end.
pub open spec fn planned_reach(n: int, width: int, j: int) -> int {
    if j < segment_count(n, width) {
        planned_lo(width, j)
    } else {
        n
    }
}

/// The first `j` segments yield together what the range that they cover yields.
pub proof fn lemma_yields_telescope(n: int, width: int, j: int)
    requires
        width >= 1,
        0 <= j <= segment_count(n, width),
    ensures
        sum_over(yield_of(n, width), 0, j) == count_in(
            unfactored_by(width),
            width,
            planned_reach(n, width, j),
        ),
        width <= planned_reach(n, width, j) <= n || segment_count(n, width) == 0,
    decreases j,
{
    if j == 0 {
        lemma_segment_exists(n, width, 0);
        assert((0 + 1) * width == width) by (nonlinear_arith);
    } else {
        lemma_yields_telescope(n, width, j - 1);
        lemma_segment_shape(n, width, j - 1);
        lemma_count_split(
            unfactored_by(width),
            width,
            planned_lo(width, j - 1),
            planned_hi(n, width, j - 1),
        );
    }
}

/// One pass over all segments counts what the closed form says.
pub proof fn lemma_sequential_total_closed_form(n: nat)
    ensures
        sequential_total(n) == counted_below(n),
        n < 2 || n >= 4 ==> sequential_total(n) == prime_count_below(n as int),
        sequential_total(n) <= n,
{
    lemma_floor_sqrt_bounds(n);
    let width = floor_sqrt(n) as int;
    let count = segment_count(n as int, width);
    if n < 2 {
        if n == 0 {
            lemma_floor_sqrt_unique(n, 0);
        } else {
            assert(1 * 1 <= 1 && 1 < (1 + 1) * (1 + 1)) by (nonlinear_arith);
            lemma_floor_sqrt_unique(n, 1);
        }
        lemma_no_prime_below_two(width + 1);
        lemma_no_prime_below_two(n as int);
    } else if n < 4 {
        assert(1 * 1 <= 1 && 3 < (1 + 1) * (1 + 1)) by (nonlinear_arith);
        lemma_floor_sqrt_unique(n, 1);
        lemma_no_prime_below_two(2);
        lemma_yields_telescope(n as int, 1, count);
        assert forall|x: int| 1 <= x < n implies #[trigger] unfactored_by(1)(x) by {}
        assert(count_in(unfactored_by(1), 1, 1) == 0);
        assert(count_in(unfactored_by(1), 1, 2) == 1);
        assert(count_in(unfactored_by(1), 1, 3) == 2);
    } else {
        if width < 2 {
            assert((width + 1) * (width + 1) <= 4) by (nonlinear_arith)
                requires
                    0 <= width < 2,
            ;
        }
        assert(width < n) by (nonlinear_arith)
            requires
                width * width <= n,
                n < (width + 1) * (width + 1),
                width >= 2,
        ;
        lemma_yields_telescope(n as int, width, count);
        lemma_segment_exists(n as int, width, 0);
        assert((0 + 1) * width == width) by (nonlinear_arith);
        lemma_count_split(unfactored_by(width), width, width + 1, n as int);
        lemma_limit_is_struck(width);
        assert(count_in(unfactored_by(width), width, width + 1) == 0) by {
            assert(count_in(unfactored_by(width), width, width) == 0);
        }
        assert forall|x: int| width + 1 <= x < n implies #[trigger] unfactored_by(width)(x)
            == prime_predicate()(x) by {
            lemma_unfactored_is_prime(x, width);
        }
        lemma_count_agree(unfactored_by(width), prime_predicate(), width + 1, n as int);
        lemma_count_split(prime_predicate(), 0, width + 1, n as int);
        lemma_prime_count_bound(n as int);
    }
}

/// Parallelism does not change the result: whatever the number of workers, their
/// shares add up to what one pass over all segments counts.
pub proof fn lemma_parallel_total_is_sequential_total(n: nat, worker_count: int)
    requires
        worker_count > 0,
    ensures
        parallel_total(n, worker_count) == sequential_total(n),
{
    let width = floor_sqrt(n) as int;
    lemma_shares_regroup(yield_of(n as int, width), worker_count, segment_count(n as int, width));
}

/// The two strategies end alike, with any number of workers on either side.
pub proof fn lemma_strategies_agree(n: nat, sequential_workers: nat, parallel_workers: nat)
    requires
        sequential_workers > 0,
        parallel_workers > 0,
    ensures
        counting_outcome(n, sequential_workers, Strategy::Sequential) == counting_outcome(
            n,
            parallel_workers,
            Strategy::SegmentedParallel,
        ),
{
    lemma_parallel_total_is_sequential_total(n, parallel_workers as int);
}

/// On every bound but two and three, and with at least one worker, a count that
/// ends well is the number of primes below the bound, as trial division finds it.
pub proof fn lemma_outcome_counts_primes(n: nat, worker_count: nat, strategy: Strategy)
    requires
        n < 2 || n >= 4,
        n <= u64::MAX,
        worker_count > 0,
        floor_sqrt(n) < usize::MAX,
    ensures
        counting_outcome(n, worker_count, strategy) == Ok::<u64, EngineError>(
            prime_count_below(n as int) as u64,
        ),
{
    lemma_parallel_total_is_sequential_total(n, worker_count as int);
    lemma_sequential_total_closed_form(n);
}

/// A count depends on nothing but its arguments: two runs on the same arguments end alike.
pub proof fn lemma_outcome_repeats(
    n: nat,
    worker_count: nat,
    strategy: Strategy,
    first: Result<u64, EngineError>,
    second: Result<u64, EngineError>,
)
    requires
        first == counting_outcome(n, worker_count, strategy),
        second == counting_outcome(n, worker_count, strategy),
    ensures
        first == second,
{
}

/// Against the primes up to `width`, the segments of the engine's plan yield what
/// the engine's totals are made of.
proof fn lemma_plan_yields(
    segments: Seq<Segment>,
    base: Seq<u64>,
    n: int,
    width: int,
    worker_count: int,
)
    requires
        is_plan(segments, n, width, worker_count),
        is_prime_list(base, width),
    ensures
        forall|j: int|
            0 <= j < segments.len() ==> #[trigger] plan_yield_of(segments, base)(j) == yield_of(
                n,
                width,
            )(j),
{
    assert forall|j: int| 0 <= j < segments.len() implies #[trigger] plan_yield_of(segments, base)(
        j,
    ) == yield_of(n, width)(j) by {
        let lo = segments[j].lo as int;
        let hi = segments[j].hi as int;
        assert forall|x: int| lo <= x < hi implies #[trigger] survivor_of(base)(x) == unfactored_by(
            width,
        )(x) by {
            lemma_survives_prime_list(x, base, width);
        }
        lemma_count_agree(survivor_of(base), unfactored_by(width), lo, hi);
    }
}

/// Sieves the segments `worker`, `worker + worker_count`, ... of `plan` and adds up
/// what they yield. Nothing is shared while this runs.
///
/// No worker at all is refused; a sum that leaves the range of `u64` is a fault.
pub fn worker_share(
    plan: &Vec<Segment>,
    base_primes: &Vec<u64>,
    worker: usize,
    worker_count: usize,
) -> (share: Result<u64, EngineError>)
    requires
        forall|j: int|
            0 <= j < plan.len() ==> (#[trigger] plan[j]).lo <= plan[j].hi && plan[j].hi
                - plan[j].lo <= usize::MAX,
        forall|i: int| 0 <= i < base_primes.len() ==> base_primes[i] > 0,
    ensures
        share == share_outcome(plan@, base_primes@, worker as int, worker_count as int),
{
    if worker_count == 0 {
        return Err(EngineError::InvalidWorkerCount);
    }
    let ghost f = plan_yield_of(plan@, base_primes@);
    let ghost len = plan.len() as int;
    if worker >= worker_count {
        proof {
            lemma_strided_sum_empty(f, worker as int, worker_count as int, len);
        }
        return Ok(0);
    }
    proof {
        lemma_strided_sum_empty(f, worker as int, worker_count as int, worker as int);
        if worker >= len {
            lemma_strided_sum_empty(f, worker as int, worker_count as int, len);
        }
    }
    let mut share: u64 = 0;
    let mut j: usize = worker;
    let mut more: bool = j < plan.len();
    proof {
        lemma_small_mod(worker as nat, worker_count as nat);
    }
    while more
        invariant
            worker_count > 0,
            len == plan.len(),
            f == plan_yield_of(plan@, base_primes@),
            forall|j: int|
                0 <= j < plan.len() ==> (#[trigger] plan[j]).lo <= plan[j].hi && plan[j].hi
                    - plan[j].lo <= usize::MAX,
            forall|i: int| 0 <= i < base_primes.len() ==> base_primes[i] > 0,
            (j as int) % (worker_count as int) == worker,
            more ==> j < plan.len(),
            share == strided_sum(
                f,
                worker as int,
                worker_count as int,
                if more {
                    j as int
                } else {
                    len
                },
            ),
        decreases
                len - j + if more {
                    1int
                } else {
                    0int
                },
    {
        let count = sieve_segment(&plan[j], base_primes);
        assert(f(j as int) == count);
        match share.checked_add(count) {
            Some(sum) => {
                share = sum;
            },
            None => {
                proof {
                    lemma_strided_sum_stride(
                        f,
                        worker as int,
                        worker_count as int,
                        j as int,
                        j as int + 1,
                    );
                    lemma_strided_sum_monotone(
                        f,
                        worker as int,
                        worker_count as int,
                        j as int + 1,
                        len,
                    );
                }
                return Err(EngineError::WorkerFault);
            },
        }
        if plan.len() - j > worker_count {
            proof {
                lemma_strided_sum_stride(
                    f,
                    worker as int,
                    worker_count as int,
                    j as int,
                    j as int + worker_count as int,
                );
                lemma_mod_add_multiples_vanish(j as int, worker_count as int);
            }
            j += worker_count;
        } else {
            proof {
                lemma_strided_sum_stride(f, worker as int, worker_count as int, j as int, len);
            }
            more = false;
        }
    }
    Ok(share)
}

/// Counts with `worker_count` workers: the base primes once, the plan, one share
/// for each worker, and every share merged into the total exactly once.
///
/// The result does not depend on the number of workers
/// (see [`lemma_parallel_total_is_sequential_total`]).
pub fn count_parallel(n: u64, worker_count: usize) -> (total: Result<u64, EngineError>)
    ensures
        total == counting_outcome(n as nat, worker_count as nat, Strategy::SegmentedParallel),
        total is Ok ==> total->Ok_0 == counted_below(n as nat),
{
    if worker_count == 0 {
        return Err(EngineError::InvalidWorkerCount);
    }
    let width: u64 = isqrt(n);
    if width as u128 >= usize::MAX as u128 {
        return Err(EngineError::WorkerFault);
    }
    let base_primes = sieve_of_eratosthenes(width);
    let ghost yields = yield_of(n as int, width as int);
    let ghost count = segment_count(n as int, width as int);
    let ghost shares = share_of(yields, worker_count as int, count);
    proof {
        lemma_engine_plan_length(n as nat);
        lemma_parallel_total_is_sequential_total(n as nat, worker_count as int);
        lemma_sequential_total_closed_form(n as nat);
    }
    let segments = match plan(n, width, worker_count) {
        Ok(segments) => segments,
        Err(fault) => {
            return Err(fault);
        },
    };
    proof {
        lemma_plan_yields(segments@, base_primes@, n as int, width as int, worker_count as int);
        assert forall|j: int| 0 <= j < segments.len() implies (#[trigger] segments[j]).lo
            <= segments[j].hi && segments[j].hi - segments[j].lo <= usize::MAX by {
            lemma_segment_shape(n as int, width as int, j);
        }
        if segments.len() < worker_count {
            lemma_shares_of_idle_residues(
                yields,
                worker_count as int,
                count,
                segments.len() as int,
            );
        }
    }
    let active: usize = if segments.len() < worker_count {
        segments.len()
    } else {
        worker_count
    };
    let mut total = SharedTotal::new(base_primes.len() as u64);
    let mut worker: usize = 0;
    while worker < active
        invariant
            worker <= active <= worker_count,
            count == segments.len(),
            yields == yield_of(n as int, width as int),
            shares == share_of(yields, worker_count as int, count),
            forall|j: int|
                0 <= j < segments.len() ==> (#[trigger] segments[j]).lo <= segments[j].hi
                    && segments[j].hi - segments[j].lo <= usize::MAX,
            forall|i: int| 0 <= i < base_primes.len() ==> base_primes[i] > 0,
            forall|j: int|
                0 <= j < segments.len() ==> #[trigger] plan_yield_of(segments@, base_primes@)(j)
                    == yields(j),
            total@ == base_primes.len() + sum_over(shares, 0, worker as int),
            base_primes.len() + sum_over(shares, 0, active as int) <= u64::MAX,
        decreases active - worker,
    {
        proof {
            lemma_strided_sum_agree(
                plan_yield_of(segments@, base_primes@),
                yields,
                worker as int,
                worker_count as int,
                count,
            );
            lemma_sum_split(shares, 0, worker as int + 1, active as int);
            assert(shares(worker as int) == strided_sum(
                yields,
                worker as int,
                worker_count as int,
                count,
            ));
        }
        let partial = match worker_share(&segments, &base_primes, worker, worker_count) {
            Ok(partial) => partial,
            Err(fault) => {
                return Err(fault);
            },
        };
        match total.absorb(partial) {
            Ok(_) => {},
            Err(fault) => {
                return Err(fault);
            },
        }
        worker += 1;
    }
    Ok(total.value())
}

/// Counts in one pass: the base primes up to the integer square root of `n`, then
/// segment after segment of that width up to `n`.
///
/// Each segment needs a buffer of that width, which has to fit in `usize`.
pub fn segmented_sieve_of_eratosthenes(n: u64) -> (prime_count: u64)
    requires
        floor_sqrt(n as nat) < usize::MAX,
    ensures
        prime_count == sequential_total(n as nat),
        prime_count == counted_below(n as nat),
        n < 2 || n >= 4 ==> prime_count == prime_count_below(n as int),
{
    let limit: u64 = isqrt(n);
    let primes_smaller_than_sqrt = sieve_of_eratosthenes(limit);
    let primes_length: usize = primes_smaller_than_sqrt.len();
    let mut prime_count: u64 = primes_length as u64;
    let ghost yields = yield_of(n as int, limit as int);
    let ghost count = segment_count(n as int, limit as int);
    proof {
        lemma_sequential_total_closed_form(n as nat);
    }
    if limit == 0 || n <= limit {
        return prime_count;
    }
    let mut lower_limit: u64 = limit;
    let mut more: bool = true;
    let ghost mut j: int = 0;
    proof {
        lemma_segment_exists(n as int, limit as int, 0);
        assert((0 + 1) * limit == limit) by (nonlinear_arith);
    }
    while more
        invariant
            limit >= 1,
            limit < usize::MAX,
            n > limit,
            limit == floor_sqrt(n as nat),
            is_prime_list(primes_smaller_than_sqrt@, limit as int),
            primes_length == prime_count_up_to(limit as int),
            yields == yield_of(n as int, limit as int),
            count == segment_count(n as int, limit as int),
            0 <= j <= count,
            more ==> j < count && lower_limit == planned_lo(limit as int, j),
            !more ==> j == count,
            prime_count == primes_length + sum_over(yields, 0, j),
            sequential_total(n as nat) <= n,
        decreases count - j + if more {
            1int
        } else {
            0int
        },
    {
        proof {
            lemma_segment_shape(n as int, limit as int, j);
            lemma_segment_exists(n as int, limit as int, j + 1);
            assert((j + 2) * limit == (j + 1) * limit + limit) by (nonlinear_arith);
            lemma_sum_split(yields, 0, j + 1, count);
            assert forall|i: int| 0 <= i < primes_smaller_than_sqrt.len() implies
                primes_smaller_than_sqrt[i] > 0 by {}
        }
        let upper_limit: u64 = if n - lower_limit > limit {
            lower_limit + limit
        } else {
            n
        };
        let segment = Segment { lo: lower_limit, hi: upper_limit, worker: 0 };
        let survivors = sieve_segment(&segment, &primes_smaller_than_sqrt);
        proof {
            assert forall|x: int| lower_limit <= x < upper_limit implies #[trigger] survivor_of(
                primes_smaller_than_sqrt@,
            )(x) == unfactored_by(limit as int)(x) by {
                lemma_survives_prime_list(x, primes_smaller_than_sqrt@, limit as int);
            }
            lemma_count_agree(
                survivor_of(primes_smaller_than_sqrt@),
                unfactored_by(limit as int),
                lower_limit as int,
                upper_limit as int,
            );
            assert(yields(j) == survivors);
        }
        prime_count += survivors;
        if upper_limit < n {
            lower_limit = upper_limit;
        } else {
            more = false;
        }
        proof {
            j = j + 1;
        }
    }
    prime_count
}

/// Counts the primes below `n` with the strategy asked for.
///
/// `Sequential` makes one pass over the segments, `SegmentedParallel` hands them
/// out to `worker_count` workers; both count the same
/// (see [`lemma_strategies_agree`]). Asking for no worker is refused with either.
pub fn count_primes_below(n: u64, worker_count: usize, strategy: Strategy) -> (total: Result<
    u64,
    EngineError,
>)
    ensures
        total == counting_outcome(n as nat, worker_count as nat, strategy),
        total is Ok ==> total->Ok_0 == counted_below(n as nat),
{
    if worker_count == 0 {
        return Err(EngineError::InvalidWorkerCount);
    }
    match strategy {
        Strategy::Sequential => {
            let width: u64 = isqrt(n);
            if width as u128 >= usize::MAX as u128 {
                return Err(EngineError::WorkerFault);
            }
            Ok(segmented_sieve_of_eratosthenes(n))
        },
        Strategy::SegmentedParallel => count_parallel(n, worker_count),
    }
}

} // verus!
