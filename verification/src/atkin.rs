//! The sieve of Atkin: candidates by the parity of their representations by
//! three quadratic forms, then the multiples of squares taken out.
//!
//! What is proved is that the sieve marks what its definition says, for every
//! bound. The number theory that makes the marked numbers the primes is not
//! part of this crate.

use vstd::prelude::*;
use crate::primes::{
    count_in,
    divides,
    lemma_divides_multiple,
    lemma_divides_sum,
    lemma_no_multiple_between,
};
use crate::roots::isqrt;

verus! {

/// The pair `(x, y)` represents `k` by the form that belongs to the residue of `k`
/// modulo twelve: `4x^2 + y^2` for the residues 1 and 5, `3x^2 + y^2` for the
/// residue 7, and `3x^2 - y^2` with `x > y` for the residue 11.
pub open spec fn atkin_hit(k: int, x: int, y: int) -> bool {
    ||| (k == 4 * (x * x) + y * y && (k % 12 == 1 || k % 12 == 5))
    ||| (k == 3 * (x * x) + y * y && k % 12 == 7)
    ||| (x > y && k == 3 * (x * x) - y * y && k % 12 == 11)
}

/// The number of `y` with `1 <= y <= y_max` for which `(x, y)` represents `k`.
pub open spec fn row_hits(k: int, x: int, y_max: int) -> nat
    decreases y_max,
{
    if y_max <= 0 {
        0
    } else {
        row_hits(k, x, y_max - 1) + if atkin_hit(k, x, y_max) {
            1nat
        } else {
            0nat
        }
    }
}

/// The number of pairs `(x, y)` with `1 <= x <= x_max` and `1 <= y <= y_max` that represent `k`.
pub open spec fn hits_up_to(k: int, x_max: int, y_max: int) -> nat
    decreases x_max,
{
    if x_max <= 0 {
        0
    } else {
        hits_up_to(k, x_max - 1, y_max) + row_hits(k, x_max, y_max)
    }
}

/// The number of pairs of positive integers that represent `k`. No pair with an
/// entry above `k` represents `k` (see [`lemma_hits_settle`]).
pub open spec fn representations(k: int) -> nat {
    hits_up_to(k, k, k)
}

/// `k` is two, three, or has an odd number of representations.
pub open spec fn atkin_candidate(k: int) -> bool {
    k == 2 || k == 3 || representations(k) % 2 == 1
}

/// The square of `q` is at most `k` and divides it.
pub open spec fn square_divides(q: int, k: int) -> bool {
    q * q <= k && divides(q * q, k)
}

/// What the sieve of Atkin marks: a candidate that is no multiple of the square of
/// a number from five on that is marked itself.
pub open spec fn atkin_marked(k: int) -> bool
    decreases k,
{
    atkin_candidate(k) && !exists|q: int|
        5 <= q < k && #[trigger] square_divides(q, k) && atkin_marked(q)
}

/// [`atkin_marked`] as a predicate.
pub open spec fn atkin_predicate() -> spec_fn(int) -> bool {
    |k: int| atkin_marked(k)
}

/// The number of `k <= n` that the sieve of Atkin marks.
pub open spec fn atkin_count(n: int) -> nat {
    count_in(atkin_predicate(), 0, n + 1)
}

/// The flag of `k` after `hits` toggles: two and three start set, everything else unset.
pub open spec fn toggled(k: int, hits: nat) -> bool {
    (k == 2 || k == 3) != (hits % 2 == 1)
}

/// Some marked `q` with `5 <= q < r` has a square that divides `k`.
pub open spec fn struck_below(k: int, r: int) -> bool {
    exists|q: int|
        5 <= q < r && q < k && #[trigger] square_divides(q, k) && atkin_marked(q)
}

/// The flag of `k` when every number below `r` has had its turn at striking.
pub open spec fn atkin_state(k: int, r: int) -> bool {
    atkin_candidate(k) && !struck_below(k, r)
}

/// A pair that represents `k` has no entry whose square exceeds `k`.
pub proof fn lemma_hit_bounds(k: int, x: int, y: int)
    requires
        x >= 1,
        y >= 1,
        atkin_hit(k, x, y),
    ensures
        x * x <= k,
        y * y <= k,
{
    assert(x * x >= 1 && y * y >= 1) by (nonlinear_arith)
        requires
            x >= 1,
            y >= 1,
    ;
    if x > y {
        assert(x * x > y * y) by (nonlinear_arith)
            requires
                x > y,
                y >= 1,
        ;
    }
}

/// Beyond a `y` whose successor's square exceeds `k`, a row has no more hits.
proof fn lemma_row_settles(k: int, x: int, y_low: int, y_high: int)
    requires
        x >= 1,
        0 <= y_low <= y_high,
        (y_low + 1) * (y_low + 1) > k,
    ensures
        row_hits(k, x, y_high) == row_hits(k, x, y_low),
    decreases y_high - y_low,
{
    if y_high > y_low {
        lemma_row_settles(k, x, y_low, y_high - 1);
        if atkin_hit(k, x, y_high) {
            lemma_hit_bounds(k, x, y_high);
            assert(y_high * y_high >= (y_low + 1) * (y_low + 1)) by (nonlinear_arith)
                requires
                    y_high >= y_low + 1,
                    y_low >= 0,
            ;
        }
    }
}

/// A row whose `x` has a square above `k` has no hits.
proof fn lemma_row_empty(k: int, x: int, y_max: int)
    requires
        x >= 1,
        x * x > k,
    ensures
        row_hits(k, x, y_max) == 0,
    decreases y_max,
{
    if y_max > 0 {
        lemma_row_empty(k, x, y_max - 1);
        if atkin_hit(k, x, y_max) {
            lemma_hit_bounds(k, x, y_max);
        }
    }
}

/// The count of hits no longer grows once the squares of both bounds' successors exceed `k`.
pub proof fn lemma_hits_settle(k: int, low: int, x_max: int, y_max: int)
    requires
        0 <= low <= x_max,
        low <= y_max,
        (low + 1) * (low + 1) > k,
    ensures
        hits_up_to(k, x_max, y_max) == hits_up_to(k, low, low),
    decreases x_max,
{
    if x_max > low {
        lemma_hits_settle(k, low, x_max - 1, y_max);
        assert(x_max * x_max >= (low + 1) * (low + 1)) by (nonlinear_arith)
            requires
                x_max >= low + 1,
                low >= 0,
        ;
        lemma_row_empty(k, x_max, y_max);
    } else {
        lemma_rows_settle(k, low, low, y_max);
    }
}

proof fn lemma_rows_settle(k: int, x_max: int, y_low: int, y_high: int)
    requires
        0 <= x_max,
        0 <= y_low <= y_high,
        (y_low + 1) * (y_low + 1) > k,
    ensures
        hits_up_to(k, x_max, y_high) == hits_up_to(k, x_max, y_low),
    decreases x_max,
{
    if x_max > 0 {
        lemma_rows_settle(k, x_max - 1, y_low, y_high);
        lemma_row_settles(k, x_max, y_low, y_high);
    }
}

/// With bounds whose successors' squares exceed `k`, the hits are the representations of `k`.
pub proof fn lemma_hits_are_representations(k: int, bound: int)
    requires
        0 <= k,
        0 <= bound,
        (bound + 1) * (bound + 1) > k,
    ensures
        hits_up_to(k, bound, bound) == representations(k),
{
    assert((k + 1) * (k + 1) > k) by (nonlinear_arith)
        requires
            k >= 0,
    ;
    if bound <= k {
        lemma_hits_settle(k, bound, k, k);
    } else {
        lemma_hits_settle(k, k, bound, bound);
    }
}

/// A number whose residue modulo twelve belongs to no form has no hits.
proof fn lemma_no_form_no_hits(k: int, x_max: int, y_max: int)
    requires
        k % 12 != 1,
        k % 12 != 5,
        k % 12 != 7,
        k % 12 != 11,
    ensures
        hits_up_to(k, x_max, y_max) == 0,
    decreases x_max,
{
    if x_max > 0 {
        lemma_no_form_no_hits(k, x_max - 1, y_max);
        lemma_no_form_no_row_hits(k, x_max, y_max);
    }
}

proof fn lemma_no_form_no_row_hits(k: int, x: int, y_max: int)
    requires
        k % 12 != 1,
        k % 12 != 5,
        k % 12 != 7,
        k % 12 != 11,
    ensures
        row_hits(k, x, y_max) == 0,
    decreases y_max,
{
    if y_max > 0 {
        lemma_no_form_no_row_hits(k, x, y_max - 1);
    }
}

/// When all pairs up to the square root of the bound are gone through, the
/// flags show the candidates.
proof fn lemma_toggled_is_candidate(k: int, bound: int)
    requires
        0 <= k,
        0 <= bound,
        (bound + 1) * (bound + 1) > k,
    ensures
        toggled(k, hits_up_to(k, bound, bound)) == atkin_candidate(k),
{
    lemma_hits_are_representations(k, bound);
    if k == 2 || k == 3 {
        lemma_no_form_no_hits(k, bound, bound);
    }
}

/// The turn of a marked `r` takes out the multiples of its square.
proof fn lemma_turn_of_marked(k: int, r: int)
    requires
        r >= 5,
        atkin_marked(r),
    ensures
        atkin_state(k, r + 1) == (atkin_state(k, r) && !(r * r <= k && divides(r * r, k))),
{
    if r * r <= k {
        assert(r < k) by (nonlinear_arith)
            requires
                r >= 5,
                r * r <= k,
        ;
        if divides(r * r, k) {
            assert(square_divides(r, k) && atkin_marked(r));
        }
    }
    if struck_below(k, r + 1) && !struck_below(k, r) {
        let q = choose|q: int|
            5 <= q < r + 1 && q < k && #[trigger] square_divides(q, k) && atkin_marked(q);
        assert(q == r);
    }
    if struck_below(k, r) {
        let q = choose|q: int|
            5 <= q < r && q < k && #[trigger] square_divides(q, k) && atkin_marked(q);
        assert(5 <= q < r + 1 && q < k && square_divides(q, k) && atkin_marked(q));
    }
}

/// The turn of an unmarked `r` changes nothing.
proof fn lemma_turn_of_unmarked(k: int, r: int)
    requires
        r >= 5,
        !atkin_marked(r),
    ensures
        atkin_state(k, r + 1) == atkin_state(k, r),
{
    if struck_below(k, r + 1) {
        let q = choose|q: int|
            5 <= q < r + 1 && q < k && #[trigger] square_divides(q, k) && atkin_marked(q);
        assert(5 <= q < r && q < k && square_divides(q, k) && atkin_marked(q));
    }
    if struck_below(k, r) {
        let q = choose|q: int|
            5 <= q < r && q < k && #[trigger] square_divides(q, k) && atkin_marked(q);
        assert(5 <= q < r + 1 && q < k && square_divides(q, k) && atkin_marked(q));
    }
}

/// Before the turn of `k` itself, the flag of `k` shows whether `k` is marked; so it
/// does once the square of `r` exceeds `k`.
proof fn lemma_state_is_marked(k: int, r: int)
    requires
        r >= 0,
        r * r > k || r == k,
    ensures
        atkin_state(k, r) == atkin_marked(k),
{
    let struck = exists|q: int|
        5 <= q < k && #[trigger] square_divides(q, k) && atkin_marked(q);
    assert(atkin_marked(k) == (atkin_candidate(k) && !struck));
    if struck_below(k, r) {
        let q = choose|q: int|
            5 <= q < r && q < k && #[trigger] square_divides(q, k) && atkin_marked(q);
        assert(5 <= q < k && square_divides(q, k) && atkin_marked(q));
        assert(struck);
    }
    if struck {
        let q = choose|q: int|
            5 <= q < k && #[trigger] square_divides(q, k) && atkin_marked(q);
        if q >= r {
            assert(q * q >= r * r) by (nonlinear_arith)
                requires
                    q >= r,
                    r >= 0,
            ;
        }
        assert(5 <= q < r && q < k && square_divides(q, k) && atkin_marked(q));
        assert(struck_below(k, r));
    }
}

/// Flips the flag at `at` if `flip` holds.
fn flip_flag(sieve: &mut Vec<bool>, at: u128, flip: bool)
    requires
        flip ==> at < old(sieve).len(),
    ensures
        final(sieve).len() == old(sieve).len(),
        forall|k: int|
            0 <= k < old(sieve).len() ==> final(sieve)[k] == (old(sieve)[k] != (flip && k == at)),
{
    if flip {
        let index: usize = at as usize;
        let flag: bool = sieve[index];
        sieve.set(index, !flag);
    }
}

/// Lets the pair `(x, y)` toggle the flag of each number up to `bound` that it represents.
fn toggle_pair(sieve: &mut Vec<bool>, bound: u64, x: u64, y: u64)
    requires
        1 <= x <= 0xffff_ffff,
        1 <= y <= 0xffff_ffff,
        old(sieve).len() == bound + 1,
    ensures
        final(sieve).len() == old(sieve).len(),
        forall|k: int|
            0 <= k <= bound ==> final(sieve)[k] == (old(sieve)[k] != atkin_hit(
                k,
                x as int,
                y as int,
            )),
{
    assert(1 <= x * x <= 0xffff_ffff * 0xffff_ffff) by (nonlinear_arith)
        requires
            1 <= x <= 0xffff_ffff,
    ;
    assert(1 <= y * y <= 0xffff_ffff * 0xffff_ffff) by (nonlinear_arith)
        requires
            1 <= y <= 0xffff_ffff,
    ;
    let x_2: u128 = (x as u128) * (x as u128);
    let y_2: u128 = (y as u128) * (y as u128);
    let limit: u128 = bound as u128;
    let ghost start = sieve@;
    let first: u128 = 4 * x_2 + y_2;
    flip_flag(sieve, first, first <= limit && (first % 12 == 1 || first % 12 == 5));
    let ghost after_first = sieve@;
    let second: u128 = 3 * x_2 + y_2;
    flip_flag(sieve, second, second <= limit && second % 12 == 7);
    let ghost after_second = sieve@;
    let mut third: u128 = 0;
    let mut third_flips: bool = false;
    if x > y {
        assert(x * x > y * y) by (nonlinear_arith)
            requires
                x > y,
                y >= 1,
        ;
        third = 3 * x_2 - y_2;
        third_flips = third <= limit && third % 12 == 11;
    }
    flip_flag(sieve, third, third_flips);
    proof {
        assert forall|k: int| 0 <= k <= bound implies sieve[k] == (start[k] != atkin_hit(
            k,
            x as int,
            y as int,
        )) by {
            let hit_first = k == first && (k % 12 == 1 || k % 12 == 5);
            let hit_second = k == second && k % 12 == 7;
            let hit_third = x > y && k == 3 * x_2 - y_2 && k % 12 == 11;
            assert(atkin_hit(k, x as int, y as int) == (hit_first || hit_second || hit_third));
            assert(after_first[k] == (start[k] != hit_first));
            assert(after_second[k] == (after_first[k] != hit_second));
            assert(sieve[k] == (after_second[k] != hit_third));
            assert(!(hit_first && hit_second));
            assert(!(hit_first && hit_third));
            assert(!(hit_second && hit_third));
        }
    }
}

/// Counts the numbers up to `n` that the sieve of Atkin marks.
///
/// Every pair `(x, y)` of positive integers with squares up to `n` toggles the
/// flag of each number that it represents; then every number from five on that
/// is still flagged clears the flags of the multiples of its square. The
/// forms are evaluated in 128 bits, so that no value wraps around.
///
/// The contract says which numbers are marked, by [`atkin_marked`]. That the
/// marked numbers are the primes is the theorem of Atkin and Bernstein; it is
/// not proved here.
pub fn sieve_of_atkin(n: u64) -> (count: u64)
    requires
        n < usize::MAX,
    ensures
        count == atkin_count(n as int),
{
    let top: usize = n as usize;
    let mut sieve: Vec<bool> = vec![false; top + 1];
    if n >= 2 {
        sieve.set(2, true);
    }
    if n >= 3 {
        sieve.set(3, true);
    }
    let root: u64 = isqrt(n);
    let mut x: u64 = 1;
    while x <= root
        invariant
            1 <= x <= root + 1,
            root <= 0xffff_ffff,
            top == n,
            sieve.len() == top + 1,
            forall|k: int| 0 <= k <= n ==> sieve[k] == toggled(k, hits_up_to(k, x - 1, root as int)),
        decreases root + 1 - x,
    {
        let mut y: u64 = 1;
        while y <= root
            invariant
                1 <= y <= root + 1,
                1 <= x <= root,
                root <= 0xffff_ffff,
                top == n,
                sieve.len() == top + 1,
                forall|k: int|
                    0 <= k <= n ==> sieve[k] == toggled(
                        k,
                        hits_up_to(k, x - 1, root as int) + row_hits(k, x as int, y - 1),
                    ),
            decreases root + 1 - y,
        {
            toggle_pair(&mut sieve, n, x, y);
            y += 1;
        }
        x += 1;
    }
    proof {
        assert((root + 1) * (root + 1) > n);
        assert forall|k: int| 0 <= k <= n implies sieve[k] == atkin_state(k, 5) by {
            lemma_toggled_is_candidate(k, root as int);
        }
    }
    let mut r: u64 = 5;
    while r <= root
        invariant
            5 <= r,
            r <= root + 1 || root < 5,
            root <= 0xffff_ffff,
            root * root <= n,
            top == n,
            sieve.len() == top + 1,
            forall|k: int| 0 <= k <= n ==> sieve[k] == atkin_state(k, r as int),
        decreases root + 1 - r,
    {
        assert(r * r <= root * root) by (nonlinear_arith)
            requires
                5 <= r <= root,
        ;
        assert(r * r >= r) by (nonlinear_arith)
            requires
                5 <= r,
        ;
        proof {
            lemma_state_is_marked(r as int, r as int);
        }
        if sieve[r as usize] {
            let square: usize = (r * r) as usize;
            let mut i: usize = square;
            let mut more: bool = true;
            proof {
                lemma_divides_multiple(square as int, 1);
            }
            while more
                invariant
                    5 <= r,
                    square == r * r,
                    1 <= square <= top,
                    top == n,
                    sieve.len() == top + 1,
                    square <= i,
                    more ==> i <= top,
                    divides(square as int, i as int),
                    forall|k: int|
                        0 <= k <= top ==> sieve[k] == (atkin_state(k, r as int) && !(square <= k
                            && divides(square as int, k) && (more ==> k < i))),
                decreases top - i + if more {
                    1int
                } else {
                    0int
                },
            {
                sieve.set(i, false);
                if top - i >= square {
                    proof {
                        lemma_divides_multiple(square as int, 1);
                        lemma_divides_sum(square as int, i as int, square as int);
                        assert forall|k: int| i < k < i + square implies !divides(
                            square as int,
                            k,
                        ) by {
                            lemma_no_multiple_between(square as int, i as int, k);
                        }
                    }
                    i += square;
                } else {
                    proof {
                        assert forall|k: int| i < k <= top implies !divides(square as int, k) by {
                            lemma_no_multiple_between(square as int, i as int, k);
                        }
                    }
                    more = false;
                }
            }
            proof {
                assert forall|k: int| 0 <= k <= n implies sieve[k] == atkin_state(
                    k,
                    r as int + 1,
                ) by {
                    lemma_turn_of_marked(k, r as int);
                }
            }
        } else {
            proof {
                assert forall|k: int| 0 <= k <= n implies sieve[k] == atkin_state(
                    k,
                    r as int + 1,
                ) by {
                    lemma_turn_of_unmarked(k, r as int);
                }
            }
        }
        r += 1;
    }
    proof {
        assert(r * r > n) by (nonlinear_arith)
            requires
                r >= root + 1,
                r >= 5,
                (root + 1) * (root + 1) > n,
                root >= 0,
        ;
        assert forall|k: int| 0 <= k <= n implies sieve[k] == atkin_marked(k) by {
            lemma_state_is_marked(k, r as int);
        }
    }
    let mut count: u64 = 0;
    let mut index: usize = 0;
    while index <= top
        invariant
            index <= top + 1,
            top == n,
            top < usize::MAX,
            sieve.len() == top + 1,
            forall|k: int| 0 <= k <= n ==> sieve[k] == atkin_marked(k),
            count == count_in(atkin_predicate(), 0, index as int),
            count <= index,
        decreases top + 1 - index,
    {
        if sieve[index] {
            count += 1;
        }
        index += 1;
    }
    count
}

} // verus!
