//! The mathematical vocabulary of the crate: divisibility, primality and
//! counting the integers of a range that satisfy a predicate.

use vstd::prelude::*;
use vstd::arithmetic::div_mod::{
    lemma_fundamental_div_mod,
    lemma_fundamental_div_mod_converse,
    lemma_mod_multiples_basic,
};

verus! {

/// `d` divides `n` exactly. Meant for `d > 0`.
pub open spec fn divides(d: int, n: int) -> bool {
    n % d == 0
}

/// `n` is a prime number: at least two, and no `d` with `2 <= d < n` divides it.
pub open spec fn is_prime_number(n: int) -> bool {
    n >= 2 && forall|d: int| 2 <= d < n ==> !#[trigger] divides(d, n)
}

/// The number of integers `x` with `lo <= x < hi` for which `f(x)` holds.
pub open spec fn count_in(f: spec_fn(int) -> bool, lo: int, hi: int) -> nat
    decreases hi - lo,
{
    if hi <= lo {
        0
    } else {
        count_in(f, lo, hi - 1) + if f(hi - 1) {
            1nat
        } else {
            0nat
        }
    }
}

/// [`is_prime_number`] as a predicate.
pub open spec fn prime_predicate() -> spec_fn(int) -> bool {
    |x: int| is_prime_number(x)
}

/// The number of primes `p` with `p < n`.
pub open spec fn prime_count_below(n: int) -> nat {
    count_in(prime_predicate(), 0, n)
}

/// The number of primes `p` with `p <= n`.
pub open spec fn prime_count_up_to(n: int) -> nat {
    prime_count_below(n + 1)
}

/// `s` lists, in increasing order and without repetition, exactly the primes `p <= limit`.
pub open spec fn is_prime_list(s: Seq<u64>, limit: int) -> bool {
    &&& forall|i: int| 0 <= i < s.len() ==> is_prime_number(#[trigger] s[i] as int) && s[i] <= limit
    &&& forall|i: int, j: int| 0 <= i < j < s.len() ==> s[i] < s[j]
    &&& forall|p: int|
        is_prime_number(p) && p <= limit ==> exists|i: int|
            0 <= i < s.len() && #[trigger] s[i] == p
}

/// Every multiple of `d` is divisible by `d`.
pub proof fn lemma_divides_multiple(d: int, m: int)
    requires
        d > 0,
    ensures
        divides(d, d * m),
        divides(d, m * d),
{
    lemma_mod_multiples_basic(m, d);
    assert(d * m == m * d) by (nonlinear_arith);
}

/// A number divisible by `d` is `d` times its quotient by `d`.
pub proof fn lemma_divides_quotient(d: int, n: int)
    requires
        d > 0,
        divides(d, n),
    ensures
        n == d * (n / d),
        n == (n / d) * d,
{
    lemma_fundamental_div_mod(n, d);
    assert(d * (n / d) == (n / d) * d) by (nonlinear_arith);
}

/// Divisibility is transitive.
pub proof fn lemma_divides_transitive(a: int, b: int, c: int)
    requires
        a > 0,
        b > 0,
        divides(a, b),
        divides(b, c),
    ensures
        divides(a, c),
{
    lemma_divides_quotient(a, b);
    lemma_divides_quotient(b, c);
    let k = (b / a) * (c / b);
    assert(c == a * k) by (nonlinear_arith)
        requires
            b == a * (b / a),
            c == b * (c / b),
            k == (b / a) * (c / b),
    ;
    lemma_divides_multiple(a, k);
}

/// The sum of two multiples of `d` is a multiple of `d`.
pub proof fn lemma_divides_sum(d: int, a: int, b: int)
    requires
        d > 0,
        divides(d, a),
        divides(d, b),
    ensures
        divides(d, a + b),
{
    lemma_divides_quotient(d, a);
    lemma_divides_quotient(d, b);
    let k = a / d + b / d;
    assert(a + b == d * k) by (nonlinear_arith)
        requires
            a == d * (a / d),
            b == d * (b / d),
            k == a / d + b / d,
    ;
    lemma_divides_multiple(d, k);
}

/// Between two consecutive multiples of `d` nothing is divisible by `d`.
pub proof fn lemma_no_multiple_between(d: int, a: int, x: int)
    requires
        d > 0,
        divides(d, a),
        a < x < a + d,
    ensures
        !divides(d, x),
{
    lemma_divides_quotient(d, a);
    let q = a / d;
    let r = x - a;
    assert(x == q * d + r);
    lemma_fundamental_div_mod_converse(x, d, q, r);
}

/// A proper divisor `d >= 2` of `n` comes with a cofactor `n / d` that is one too.
pub proof fn lemma_cofactor(d: int, n: int)
    requires
        2 <= d < n,
        divides(d, n),
    ensures
        2 <= n / d < n,
        divides(n / d, n),
        d * (n / d) == n,
{
    lemma_divides_quotient(d, n);
    let e = n / d;
    assert(e >= 2) by (nonlinear_arith)
        requires
            n == d * e,
            2 <= d < n,
    ;
    assert(e < n) by (nonlinear_arith)
        requires
            n == d * e,
            2 <= d,
            e >= 2,
    ;
    lemma_divides_multiple(e, d);
}

/// Every `n >= 2` has a prime divisor; a composite `n` has one whose square does not exceed `n`.
pub proof fn lemma_prime_factor(n: int) -> (p: int)
    requires
        n >= 2,
    ensures
        is_prime_number(p),
        divides(p, n),
        2 <= p <= n,
        !is_prime_number(n) ==> p * p <= n,
    decreases n,
{
    if is_prime_number(n) {
        assert(n % n == 0) by {
            lemma_divides_multiple(n, 1);
        }
        n
    } else {
        let d = choose|d: int| 2 <= d < n && divides(d, n);
        lemma_cofactor(d, n);
        let e = n / d;
        let s = if d <= e {
            d
        } else {
            e
        };
        assert(s * s <= n) by (nonlinear_arith)
            requires
                d * e == n,
                2 <= d,
                2 <= e,
                s == if d <= e {
                    d
                } else {
                    e
                },
        ;
        let q = lemma_prime_factor(s);
        lemma_divides_transitive(q, s, n);
        assert(q * q <= n) by (nonlinear_arith)
            requires
                2 <= q <= s,
                s * s <= n,
        ;
        q
    }
}

/// A number `n >= 2` without a divisor `d` with `2 <= d < b`, where `b * b > n`, is prime.
pub proof fn lemma_prime_by_small_divisors(n: int, b: int)
    requires
        n >= 2,
        b >= 0,
        b * b > n,
        forall|d: int| 2 <= d < b && d < n ==> !#[trigger] divides(d, n),
    ensures
        is_prime_number(n),
{
    assert forall|d: int| 2 <= d < n implies !#[trigger] divides(d, n) by {
        if d >= b && divides(d, n) {
            lemma_cofactor(d, n);
            let e = n / d;
            if e >= b {
                assert(d * e >= b * b) by (nonlinear_arith)
                    requires
                        d >= b,
                        e >= b,
                        b >= 0,
                ;
            }
            assert(!divides(e, n));
        }
    }
}

/// A prime has no divisor but one and itself.
pub proof fn lemma_prime_divisor(p: int, d: int)
    requires
        is_prime_number(p),
        d >= 1,
        divides(d, p),
    ensures
        d == 1 || d == p,
{
    if d > p {
        vstd::arithmetic::div_mod::lemma_small_mod(p as nat, d as nat);
    }
}

/// Counting over an empty range gives zero; a count never exceeds the range's length.
pub proof fn lemma_count_bound(f: spec_fn(int) -> bool, lo: int, hi: int)
    ensures
        count_in(f, lo, hi) <= if hi <= lo {
            0
        } else {
            hi - lo
        },
    decreases hi - lo,
{
    if hi > lo {
        lemma_count_bound(f, lo, hi - 1);
    }
}

/// A count over a range is the sum of the counts over its two parts.
pub proof fn lemma_count_split(f: spec_fn(int) -> bool, lo: int, mid: int, hi: int)
    requires
        lo <= mid <= hi,
    ensures
        count_in(f, lo, hi) == count_in(f, lo, mid) + count_in(f, mid, hi),
    decreases hi - mid,
{
    if hi > mid {
        lemma_count_split(f, lo, mid, hi - 1);
    }
}

/// Two predicates that agree on a range have the same count over it.
pub proof fn lemma_count_agree(f: spec_fn(int) -> bool, g: spec_fn(int) -> bool, lo: int, hi: int)
    requires
        forall|x: int| lo <= x < hi ==> #[trigger] f(x) == g(x),
    ensures
        count_in(f, lo, hi) == count_in(g, lo, hi),
    decreases hi - lo,
{
    if hi > lo {
        lemma_count_agree(f, g, lo, hi - 1);
    }
}

/// A predicate that holds nowhere on a range has count zero over it.
pub proof fn lemma_count_none(f: spec_fn(int) -> bool, lo: int, hi: int)
    requires
        forall|x: int| lo <= x < hi ==> !#[trigger] f(x),
    ensures
        count_in(f, lo, hi) == 0,
    decreases hi - lo,
{
    if hi > lo {
        lemma_count_none(f, lo, hi - 1);
    }
}

/// A count grows with the range.
pub proof fn lemma_count_monotone(f: spec_fn(int) -> bool, lo: int, mid: int, hi: int)
    requires
        lo <= mid <= hi,
    ensures
        count_in(f, lo, mid) <= count_in(f, lo, hi),
{
    lemma_count_split(f, lo, mid, hi);
}

/// There is no prime below two.
pub proof fn lemma_no_prime_below_two(n: int)
    requires
        n <= 2,
    ensures
        prime_count_below(n) == 0,
{
    lemma_count_none(prime_predicate(), 0, n);
}

/// Zero and one are no primes: below `n >= 2` there are at most `n - 2` primes.
pub proof fn lemma_prime_count_bound(n: int)
    requires
        n >= 2,
    ensures
        prime_count_below(n) <= n - 2,
{
    lemma_count_split(prime_predicate(), 0, 2, n);
    lemma_no_prime_below_two(2);
    lemma_count_bound(prime_predicate(), 2, n);
}

} // verus!
