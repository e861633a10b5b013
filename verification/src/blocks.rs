//! Counting by trial division in blocks: the range below the bound is cut into
//! one block for each worker.

use vstd::prelude::*;
use vstd::arithmetic::div_mod::{lemma_fundamental_div_mod, lemma_mod_pos_bound};
use crate::aggregate::{sum_over, SharedTotal};
use crate::error::EngineError;
use crate::primes::{
    count_in,
    lemma_count_bound,
    lemma_count_monotone,
    lemma_count_split,
    prime_count_below,
    prime_predicate,
};
use crate::trial::is_prime;

verus! {

/// The size of a block: `n / workers`, rounded up.
pub open spec fn block_size(n: int, workers: int) -> int {
    (n + workers - 1) / workers
}

/// Where the blocks before block `id` end: `id` block sizes on, but never beyond `n`.
pub open spec fn block_start(n: int, workers: int, id: int) -> int {
    if block_size(n, workers) * id <= n {
        block_size(n, workers) * id
    } else {
        n
    }
}

/// What block `id` contributes: the number of primes from its start to the start of the next.
pub open spec fn block_yield(n: int, workers: int, id: int) -> nat {
    count_in(prime_predicate(), block_start(n, workers, id), block_start(n, workers, id + 1))
}

/// [`block_yield`] as a function of the block's index.
pub open spec fn block_yield_of(n: int, workers: int) -> spec_fn(int) -> nat {
    |id: int| block_yield(n, workers, id)
}

/// The block size in the form in which it is computed: the quotient, and one
/// more where something remains.
proof fn lemma_block_size(n: int, workers: int)
    requires
        n >= 0,
        workers > 0,
    ensures
        block_size(n, workers) == n / workers + if n % workers == 0 {
            0int
        } else {
            1int
        },
        block_size(n, workers) * workers >= n,
        block_size(n, workers) >= 0,
        n > 0 ==> block_size(n, workers) >= 1,
{
    let q = n / workers;
    let r = n % workers;
    lemma_fundamental_div_mod(n, workers);
    lemma_mod_pos_bound(n, workers);
    let size = if r == 0 {
        q
    } else {
        q + 1
    };
    let rest = if r == 0 {
        workers - 1
    } else {
        r - 1
    };
    assert(n + workers - 1 == size * workers + rest) by (nonlinear_arith)
        requires
            n == workers * q + r,
            size == if r == 0 {
                q
            } else {
                q + 1
            },
            rest == if r == 0 {
                workers - 1
            } else {
                r - 1
            },
    ;
    vstd::arithmetic::div_mod::lemma_fundamental_div_mod_converse(
        n + workers - 1,
        workers,
        size,
        rest,
    );
    assert(size * workers >= n) by (nonlinear_arith)
        requires
            n == workers * q + r,
            0 <= r < workers,
            size == if r == 0 {
                q
            } else {
                q + 1
            },
    ;
    assert(q >= 0) by (nonlinear_arith)
        requires
            n == workers * q + r,
            0 <= r < workers,
            n >= 0,
            workers > 0,
    ;
    if n > 0 {
        assert(size >= 1) by (nonlinear_arith)
            requires
                size * workers >= n,
                n > 0,
                workers > 0,
        ;
    }
}

/// The blocks lie side by side from zero to `n`: each starts where the one
/// before ends, the first at zero, and after the last comes `n`.
pub proof fn lemma_blocks_tile(n: int, workers: int, id: int)
    requires
        n >= 0,
        workers > 0,
        0 <= id,
    ensures
        block_start(n, workers, 0) == 0,
        0 <= block_start(n, workers, id) <= block_start(n, workers, id + 1) <= n,
        block_start(n, workers, workers) == n,
        id >= n ==> block_start(n, workers, id) == n,
{
    lemma_block_size(n, workers);
    let size = block_size(n, workers);
    assert(size * 0 == 0) by (nonlinear_arith);
    assert(size * id >= 0 && size * (id + 1) == size * id + size) by (nonlinear_arith)
        requires
            size >= 0,
            id >= 0,
    ;
    if id >= n && n > 0 {
        assert(size * id >= n) by (nonlinear_arith)
            requires
                size >= 1,
                id >= n,
                n > 0,
        ;
    }
}

/// The blocks up to block `id` yield together the primes below the start of block `id`.
pub proof fn lemma_block_yields_telescope(n: int, workers: int, id: int)
    requires
        n >= 0,
        workers > 0,
        0 <= id,
    ensures
        sum_over(block_yield_of(n, workers), 0, id) == prime_count_below(
            block_start(n, workers, id),
        ),
    decreases id,
{
    lemma_blocks_tile(n, workers, id);
    if id > 0 {
        lemma_block_yields_telescope(n, workers, id - 1);
        lemma_blocks_tile(n, workers, id - 1);
        lemma_count_split(
            prime_predicate(),
            0,
            block_start(n, workers, id - 1),
            block_start(n, workers, id),
        );
    }
}

/// All blocks together yield the primes below `n`: cutting the range into
/// blocks loses no candidate and counts none twice.
pub proof fn lemma_blocks_count_primes(n: int, workers: int)
    requires
        n >= 0,
        workers > 0,
    ensures
        sum_over(block_yield_of(n, workers), 0, workers) == prime_count_below(n),
{
    lemma_block_yields_telescope(n, workers, workers);
    lemma_blocks_tile(n, workers, workers);
}

/// The bounds `(start, end)` of block `id` when the range below `n` is cut into
/// `workers` blocks. No worker at all is refused.
pub fn block_bounds(n: u64, workers: usize, id: usize) -> (bounds: Result<(u64, u64), EngineError>)
    ensures
        workers == 0 ==> bounds == Err::<(u64, u64), EngineError>(EngineError::InvalidWorkerCount),
        workers > 0 ==> bounds == Ok::<(u64, u64), EngineError>(
            (
                block_start(n as int, workers as int, id as int) as u64,
                block_start(n as int, workers as int, id + 1) as u64,
            ),
        ),
{
    if workers == 0 {
        return Err(EngineError::InvalidWorkerCount);
    }
    proof {
        lemma_block_size(n as int, workers as int);
        lemma_blocks_tile(n as int, workers as int, id as int);
        lemma_blocks_tile(n as int, workers as int, id + 1);
    }
    let count: u64 = workers as u64;
    proof {
        lemma_fundamental_div_mod(n as int, count as int);
        lemma_mod_pos_bound(n as int, count as int);
        let q = n as int / count as int;
        let r = n as int % count as int;
        assert(r > 0 ==> q < n) by (nonlinear_arith)
            requires
                n == count * q + r,
                0 <= r < count,
                n >= 0,
        ;
    }
    let tam_bloq: u64 = n / count + if n % count == 0 {
        0
    } else {
        1
    };
    let ghost size = block_size(n as int, workers as int);
    assert(size * (id + 1) == size * id + size) by (nonlinear_arith);
    let start: u64 = match tam_bloq.checked_mul(id as u64) {
        Some(product) => if product <= n {
            product
        } else {
            n
        },
        None => n,
    };
    let fin: u64 = if n - start > tam_bloq {
        start + tam_bloq
    } else {
        n
    };
    Ok((start, fin))
}

/// Counts the primes `p` with `start <= p < fin` by trial division.
pub fn count_primes_in(start: u64, fin: u64) -> (count: u64)
    ensures
        count == count_in(prime_predicate(), start as int, fin as int),
{
    let mut count: u64 = 0;
    let mut num: u64 = start;
    while num < fin
        invariant
            start <= num <= fin || fin < start,
            fin < start ==> num == start,
            count == count_in(prime_predicate(), start as int, num as int),
            count <= num - start,
        decreases fin - num,
    {
        if is_prime(num) {
            count += 1;
        }
        num += 1;
    }
    count
}

/// Counts the primes below `n` block by block, one block for each worker, and
/// merges the counts into one total.
///
/// The result does not depend on the number of workers
/// (see [`lemma_blocks_count_primes`]). No worker at all is refused.
pub fn blocked_prime_count(n: u64, workers: usize) -> (total: Result<u64, EngineError>)
    ensures
        workers == 0 ==> total == Err::<u64, EngineError>(EngineError::InvalidWorkerCount),
        workers > 0 ==> total == Ok::<u64, EngineError>(prime_count_below(n as int) as u64),
{
    if workers == 0 {
        return Err(EngineError::InvalidWorkerCount);
    }
    let active: usize = if (workers as u64) <= n {
        workers
    } else {
        n as usize
    };
    let mut counter = SharedTotal::new(0);
    let mut id: usize = 0;
    proof {
        lemma_blocks_tile(n as int, workers as int, 0);
        lemma_count_bound(prime_predicate(), 0, n as int);
    }
    while id < active
        invariant
            id <= active <= workers,
            active <= n,
            workers > 0,
            counter@ == prime_count_below(block_start(n as int, workers as int, id as int)),
            prime_count_below(n as int) <= n,
        decreases active - id,
    {
        proof {
            lemma_blocks_tile(n as int, workers as int, id as int);
            lemma_count_split(
                prime_predicate(),
                0,
                block_start(n as int, workers as int, id as int),
                block_start(n as int, workers as int, id + 1),
            );
            lemma_count_monotone(
                prime_predicate(),
                0,
                block_start(n as int, workers as int, id + 1),
                n as int,
            );
        }
        let (start, fin) = match block_bounds(n, workers, id) {
            Ok(bounds) => bounds,
            Err(fault) => {
                return Err(fault);
            },
        };
        let found = count_primes_in(start, fin);
        match counter.absorb(found) {
            Ok(_) => {},
            Err(fault) => {
                return Err(fault);
            },
        }
        id += 1;
    }
    proof {
        lemma_blocks_tile(n as int, workers as int, active as int);
        lemma_blocks_tile(n as int, workers as int, workers as int);
        if active < workers {
            assert(block_start(n as int, workers as int, active as int) == n);
        }
    }
    Ok(counter.value())
}

} // verus!
