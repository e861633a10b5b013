//! The wheel sieve modulo thirty: only the numbers on the eight spokes that
//! are coprime to thirty are candidates.

use vstd::prelude::*;
use crate::base::unstruck;
use crate::primes::{
    divides,
    is_prime_number,
    lemma_cofactor,
    lemma_divides_multiple,
    lemma_divides_sum,
    lemma_divides_transitive,
    lemma_no_multiple_between,
    prime_count_below,
    prime_count_up_to,
};

verus! {

/// `k` lies on the spoke that starts at `start`: it is `start` plus a multiple of thirty.
pub open spec fn on_spoke(k: int, start: int) -> bool {
    k >= start && divides(30, k - start)
}

/// The starts of the eight spokes.
pub open spec fn spoke_starts() -> Seq<usize> {
    seq![7usize, 11, 13, 17, 19, 23, 29, 31]
}

/// `k` lies on one of the first `spokes` spokes.
pub open spec fn on_spokes(k: int, spokes: int) -> bool {
    exists|i: int| 0 <= i < spokes && i < 8 && on_spoke(k, #[trigger] spoke_starts()[i] as int)
}

/// `k` is a candidate of the wheel: at least seven and coprime to thirty.
pub open spec fn wheel_candidate(k: int) -> bool {
    k >= 7 && k % 2 != 0 && k % 3 != 0 && k % 5 != 0
}

/// The candidates of the wheel are the numbers on its eight spokes.
proof fn lemma_spokes_are_candidates(k: int)
    requires
        k >= 0,
    ensures
        on_spokes(k, 8) == wheel_candidate(k),
{
    let starts = spoke_starts();
    if on_spokes(k, 8) {
        let i = choose|i: int| 0 <= i < 8 && i < 8 && on_spoke(k, #[trigger] starts[i] as int);
        let start = starts[i] as int;
        assert(start == 7 || start == 11 || start == 13 || start == 17 || start == 19 || start
            == 23 || start == 29 || start == 31);
        assert((k - start) % 30 == 0);
        assert(k % 30 == start % 30);
    }
    if wheel_candidate(k) {
        let residue = k % 30;
        assert(residue == 1 || residue == 7 || residue == 11 || residue == 13 || residue == 17
            || residue == 19 || residue == 23 || residue == 29);
        let i: int = if residue == 7 {
            0
        } else if residue == 11 {
            1
        } else if residue == 13 {
            2
        } else if residue == 17 {
            3
        } else if residue == 19 {
            4
        } else if residue == 23 {
            5
        } else if residue == 29 {
            6
        } else {
            7
        };
        assert(on_spoke(k, starts[i] as int));
    }
}

/// Two, three and five are primes.
proof fn lemma_small_primes()
    ensures
        is_prime_number(2),
        is_prime_number(3),
        is_prime_number(5),
{
    assert forall|d: int| 2 <= d < 3 implies !#[trigger] divides(d, 3) by {
        assert(d == 2);
        assert(3int % 2 == 1);
    }
    assert forall|d: int| 2 <= d < 5 implies !#[trigger] divides(d, 5) by {
        if d == 2 {
            assert(5int % 2 == 1);
        } else if d == 3 {
            assert(5int % 3 == 2);
        } else {
            assert(d == 4);
            assert(5int % 4 == 1);
        }
    }
}

/// A prime from seven on is a candidate of the wheel.
proof fn lemma_prime_is_candidate(k: int)
    requires
        is_prime_number(k),
        k >= 7,
    ensures
        wheel_candidate(k),
{
    assert(!divides(2, k));
    assert(!divides(3, k));
    assert(!divides(5, k));
}

/// No candidate of the wheel has a divisor between two and six.
proof fn lemma_candidate_unstruck(k: int, index: int)
    requires
        wheel_candidate(k),
        index <= 7,
    ensures
        unstruck(k, index),
{
    assert forall|d: int| 2 <= d < index && d < k implies !#[trigger] divides(d, k) by {
        if divides(d, k) {
            if d == 4 {
                lemma_divides_transitive(2, 4, k);
            } else if d == 6 {
                lemma_divides_transitive(2, 6, k);
            }
        }
    }
}

/// What the turn of `index` has to leave behind.
proof fn lemma_wheel_turn(k: int, index: int, flagged: bool)
    requires
        index >= 0,
        k >= 0,
        flagged == (wheel_candidate(index) && unstruck(index, index)),
    ensures
        (wheel_candidate(k) && unstruck(k, index + 1)) == (wheel_candidate(k) && unstruck(k, index)
            && !(flagged && 2 * index <= k && divides(index, k))),
{
    if wheel_candidate(k) && unstruck(k, index) {
        if index >= 2 && index < k && divides(index, k) {
            lemma_cofactor(index, k);
            assert(2 * index <= k) by (nonlinear_arith)
                requires
                    index * (k / index) == k,
                    k / index >= 2,
                    index >= 2,
            ;
            if !flagged {
                if !wheel_candidate(index) {
                    if index < 7 {
                        lemma_candidate_unstruck(k, 7);
                        assert(false);
                    } else {
                        if index % 2 == 0 {
                            lemma_divides_transitive(2, index, k);
                        } else if index % 3 == 0 {
                            lemma_divides_transitive(3, index, k);
                        } else {
                            lemma_divides_transitive(5, index, k);
                        }
                        assert(false);
                    }
                } else {
                    let d = choose|d: int| 2 <= d < index && d < index && divides(d, index);
                    lemma_divides_transitive(d, index, k);
                    assert(false);
                }
            }
        }
        if flagged && 2 * index <= k && divides(index, k) {
            assert(index >= 7);
            assert(!unstruck(k, index + 1));
        }
    }
}

/// Counts the primes up to `num` with a wheel modulo thirty.
///
/// The numbers from seven on that lie on the eight spokes are flagged; going
/// up, each number that is still flagged takes the flags of its proper
/// multiples; two, three and five are added at the end.
pub fn single_wheel_mod30(num: u64) -> (count: u64)
    requires
        num < usize::MAX,
    ensures
        count == prime_count_up_to(num as int),
{
    let top: usize = num as usize;
    let mut primes_list: Vec<bool> = vec![false; top + 1];
    let wheel: Vec<usize> = vec![7, 11, 13, 17, 19, 23, 29, 31];
    assert(wheel@ =~= spoke_starts());
    let mut spoke: usize = 0;
    while spoke < 8
        invariant
            spoke <= 8,
            wheel@ == spoke_starts(),
            top == num,
            top < usize::MAX,
            primes_list.len() == top + 1,
            forall|k: int| 0 <= k <= top ==> primes_list[k] == on_spokes(k, spoke as int),
        decreases 8 - spoke,
    {
        let w: usize = wheel[spoke];
        let ghost before = primes_list@;
        let mut i: usize = w;
        let mut more: bool = w <= top;
        proof {
            lemma_divides_multiple(30, 0);
        }
        while more
            invariant
                7 <= w <= 31,
                top == num,
                primes_list.len() == top + 1,
                before.len() == top + 1,
                w <= i,
                more ==> i <= top,
                divides(30, i - w),
                forall|k: int|
                    0 <= k <= top ==> primes_list[k] == (before[k] || (on_spoke(k, w as int) && (
                    more ==> k < i))),
            decreases top - i + if more {
                1int
            } else {
                0int
            },
        {
            primes_list.set(i, true);
            proof {
                lemma_divides_multiple(30, 1);
                lemma_divides_sum(30, i - w, 30);
                assert forall|k: int| i < k < i + 30 implies !on_spoke(k, w as int) by {
                    lemma_no_multiple_between(30, i - w, k - w);
                }
            }
            if top - i >= 30 {
                i += 30;
            } else {
                more = false;
            }
        }
        proof {
            assert forall|k: int| 0 <= k <= top implies primes_list[k] == on_spokes(
                k,
                spoke as int + 1,
            ) by {
                if on_spokes(k, spoke as int + 1) {
                    let j = choose|j: int|
                        0 <= j < spoke + 1 && j < 8 && on_spoke(
                            k,
                            #[trigger] spoke_starts()[j] as int,
                        );
                    if j < spoke {
                        assert(on_spokes(k, spoke as int));
                    }
                }
                if on_spokes(k, spoke as int) {
                    let j = choose|j: int|
                        0 <= j < spoke && j < 8 && on_spoke(k, #[trigger] spoke_starts()[j] as int);
                    assert(on_spoke(k, spoke_starts()[j] as int));
                }
                if on_spoke(k, w as int) {
                    assert(on_spoke(k, spoke_starts()[spoke as int] as int));
                }
            }
        }
        spoke += 1;
    }
    proof {
        assert forall|k: int| 0 <= k <= top implies #[trigger] primes_list[k] == (wheel_candidate(k)
            && unstruck(k, 0)) by {
            lemma_spokes_are_candidates(k);
            if wheel_candidate(k) {
                lemma_candidate_unstruck(k, 0);
            }
        }
    }
    let mut index: usize = 0;
    while index <= top
        invariant
            index <= top + 1,
            top == num,
            top < usize::MAX,
            primes_list.len() == top + 1,
            forall|k: int|
                0 <= k <= top ==> #[trigger] primes_list[k] == (wheel_candidate(k) && unstruck(
                    k,
                    index as int,
                )),
        decreases top + 1 - index,
    {
        let flagged: bool = primes_list[index];
        assert(flagged == (wheel_candidate(index as int) && unstruck(index as int, index as int)));
        if flagged && top - index >= index {
            let mut i: usize = 2 * index;
            let mut more: bool = true;
            proof {
                lemma_divides_multiple(index as int, 2);
            }
            while more
                invariant
                    7 <= index,
                    top == num,
                    primes_list.len() == top + 1,
                    2 * index <= i,
                    more ==> i <= top,
                    divides(index as int, i as int),
                    forall|k: int|
                        0 <= k <= top ==> #[trigger] primes_list[k] == (wheel_candidate(k) && unstruck(
                            k,
                            index as int,
                        ) && !(2 * index <= k && divides(index as int, k) && (more ==> k < i))),
                decreases top - i + if more {
                    1int
                } else {
                    0int
                },
            {
                primes_list.set(i, false);
                proof {
                    lemma_divides_multiple(index as int, 1);
                    lemma_divides_sum(index as int, i as int, index as int);
                    assert forall|k: int| i < k < i + index implies !divides(index as int, k) by {
                        lemma_no_multiple_between(index as int, i as int, k);
                    }
                }
                if top - i >= index {
                    i += index;
                } else {
                    more = false;
                }
            }
        }
        proof {
            assert forall|k: int| 0 <= k <= top implies #[trigger] primes_list[k] == (wheel_candidate(k)
                && unstruck(k, index as int + 1)) by {
                lemma_wheel_turn(k, index as int, flagged);
            }
        }
        index += 1;
    }
    if num >= 2 {
        primes_list.set(2, true);
    }
    if num >= 3 {
        primes_list.set(3, true);
    }
    if num >= 5 {
        primes_list.set(5, true);
    }
    proof {
        assert forall|k: int| 0 <= k <= top implies primes_list[k] == is_prime_number(k) by {
            if is_prime_number(k) && k >= 7 {
                lemma_prime_is_candidate(k);
            }
            lemma_small_primes();
            if k == 4 {
                assert(divides(2, 4));
            }
            if k == 6 {
                assert(divides(2, 6));
            }
        }
    }
    let mut count: u64 = 0;
    let mut position: usize = 0;
    while position <= top
        invariant
            position <= top + 1,
            top == num,
            top < usize::MAX,
            primes_list.len() == top + 1,
            forall|k: int| 0 <= k <= top ==> primes_list[k] == is_prime_number(k),
            count == prime_count_below(position as int),
            count <= position,
        decreases top + 1 - position,
    {
        if primes_list[position] {
            count += 1;
        }
        position += 1;
    }
    count
}

} // verus!
