//! Sums of partial counts: the aggregator and the shared total.

use vstd::prelude::*;
use crate::error::EngineError;

verus! {

/// The sum of `f(j)` over the indices `lo <= j < hi`.
pub open spec fn sum_over(f: spec_fn(int) -> nat, lo: int, hi: int) -> nat
    decreases hi - lo,
{
    if hi <= lo {
        0
    } else {
        sum_over(f, lo, hi - 1) + f(hi - 1)
    }
}

/// The sum of `f(j)` over the indices `0 <= j < hi` that leave `residue` when divided by `modulus`.
pub open spec fn strided_sum(f: spec_fn(int) -> nat, residue: int, modulus: int, hi: int) -> nat
    decreases hi,
{
    if hi <= 0 {
        0
    } else {
        strided_sum(f, residue, modulus, hi - 1) + if (hi - 1) % modulus == residue {
            f(hi - 1)
        } else {
            0nat
        }
    }
}

/// The strided sums of `f` below `hi`, as a function of the residue.
pub open spec fn share_of(f: spec_fn(int) -> nat, modulus: int, hi: int) -> spec_fn(int) -> nat {
    |residue: int| strided_sum(f, residue, modulus, hi)
}

/// The entries of a sequence of counts, as a function of the index.
pub open spec fn entry_of(s: Seq<u64>) -> spec_fn(int) -> nat {
    |j: int|
        if 0 <= j < s.len() {
            s[j] as nat
        } else {
            0nat
        }
}

/// The sum of all entries of `s`.
pub open spec fn sum_of(s: Seq<u64>) -> nat {
    sum_over(entry_of(s), 0, s.len() as int)
}

/// A sum over a range is the sum of the sums over its two parts.
pub proof fn lemma_sum_split(f: spec_fn(int) -> nat, lo: int, mid: int, hi: int)
    requires
        lo <= mid <= hi,
    ensures
        sum_over(f, lo, hi) == sum_over(f, lo, mid) + sum_over(f, mid, hi),
    decreases hi - mid,
{
    if hi > mid {
        lemma_sum_split(f, lo, mid, hi - 1);
    }
}

/// Two functions that agree on a range have the same sum over it.
pub proof fn lemma_sum_agree(f: spec_fn(int) -> nat, g: spec_fn(int) -> nat, lo: int, hi: int)
    requires
        forall|j: int| lo <= j < hi ==> #[trigger] f(j) == g(j),
    ensures
        sum_over(f, lo, hi) == sum_over(g, lo, hi),
    decreases hi - lo,
{
    if hi > lo {
        lemma_sum_agree(f, g, lo, hi - 1);
    }
}

/// A function that vanishes on a range has sum zero over it.
pub proof fn lemma_sum_zero(f: spec_fn(int) -> nat, lo: int, hi: int)
    requires
        forall|j: int| lo <= j < hi ==> #[trigger] f(j) == 0,
    ensures
        sum_over(f, lo, hi) == 0,
    decreases hi - lo,
{
    if hi > lo {
        lemma_sum_zero(f, lo, hi - 1);
    }
}

/// A residue that no index below `hi` leaves has an empty strided sum.
pub proof fn lemma_strided_sum_empty(f: spec_fn(int) -> nat, residue: int, modulus: int, hi: int)
    requires
        modulus > 0,
        residue >= hi || residue < 0 || residue >= modulus,
    ensures
        strided_sum(f, residue, modulus, hi) == 0,
    decreases hi,
{
    if hi > 0 {
        lemma_strided_sum_empty(f, residue, modulus, hi - 1);
        vstd::arithmetic::div_mod::lemma_mod_decreases((hi - 1) as nat, modulus as nat);
        vstd::arithmetic::div_mod::lemma_mod_pos_bound(hi - 1, modulus);
    }
}

/// Two functions that agree below `hi` have the same strided sums below `hi`.
pub proof fn lemma_strided_sum_agree(
    f: spec_fn(int) -> nat,
    g: spec_fn(int) -> nat,
    residue: int,
    modulus: int,
    hi: int,
)
    requires
        forall|j: int| 0 <= j < hi ==> #[trigger] f(j) == g(j),
    ensures
        strided_sum(f, residue, modulus, hi) == strided_sum(g, residue, modulus, hi),
    decreases hi,
{
    if hi > 0 {
        lemma_strided_sum_agree(f, g, residue, modulus, hi - 1);
    }
}

/// From an index that leaves `residue`, the strided sum takes that index's value
/// and then nothing more until the modulus has gone by.
pub proof fn lemma_strided_sum_stride(
    f: spec_fn(int) -> nat,
    residue: int,
    modulus: int,
    j: int,
    hi: int,
)
    requires
        modulus > 0,
        j >= 0,
        j % modulus == residue,
        j < hi <= j + modulus,
    ensures
        strided_sum(f, residue, modulus, hi) == strided_sum(f, residue, modulus, j) + f(j),
    decreases hi - j,
{
    if hi > j + 1 {
        lemma_strided_sum_stride(f, residue, modulus, j, hi - 1);
        let x = hi - 1;
        if x % modulus == residue {
            vstd::arithmetic::div_mod::lemma_mod_equivalence(x, j, modulus);
            vstd::arithmetic::div_mod::lemma_small_mod((x - j) as nat, modulus as nat);
        }
    }
}

/// A strided sum grows with its range.
pub proof fn lemma_strided_sum_monotone(
    f: spec_fn(int) -> nat,
    residue: int,
    modulus: int,
    lo: int,
    hi: int,
)
    requires
        lo <= hi,
    ensures
        strided_sum(f, residue, modulus, lo) <= strided_sum(f, residue, modulus, hi),
    decreases hi - lo,
{
    if hi > lo {
        lemma_strided_sum_monotone(f, residue, modulus, lo, hi - 1);
    }
}

/// One more index adds its value to the share of exactly one residue.
proof fn lemma_shares_step(f: spec_fn(int) -> nat, modulus: int, hi: int, k: int)
    requires
        modulus > 0,
        hi > 0,
        0 <= k <= modulus,
    ensures
        sum_over(share_of(f, modulus, hi), 0, k) == sum_over(share_of(f, modulus, hi - 1), 0, k)
            + if (hi - 1) % modulus < k {
            f(hi - 1)
        } else {
            0nat
        },
    decreases k,
{
    if k > 0 {
        lemma_shares_step(f, modulus, hi, k - 1);
        vstd::arithmetic::div_mod::lemma_mod_pos_bound(hi - 1, modulus);
    }
}

/// Regrouping: the shares of all residues of a modulus add up to the plain sum.
/// Handing the indices out round-robin loses nothing and counts nothing twice.
pub proof fn lemma_shares_regroup(f: spec_fn(int) -> nat, modulus: int, hi: int)
    requires
        modulus > 0,
        hi >= 0,
    ensures
        sum_over(share_of(f, modulus, hi), 0, modulus) == sum_over(f, 0, hi),
    decreases hi,
{
    if hi > 0 {
        lemma_shares_regroup(f, modulus, hi - 1);
        lemma_shares_step(f, modulus, hi, modulus);
        vstd::arithmetic::div_mod::lemma_mod_pos_bound(hi - 1, modulus);
    } else {
        lemma_sum_zero(share_of(f, modulus, hi), 0, modulus);
    }
}

/// The shares of residues that no index leaves add nothing.
pub proof fn lemma_shares_of_idle_residues(f: spec_fn(int) -> nat, modulus: int, hi: int, k: int)
    requires
        modulus > 0,
        0 <= hi <= k <= modulus,
    ensures
        sum_over(share_of(f, modulus, hi), 0, modulus) == sum_over(share_of(f, modulus, hi), 0, k),
{
    lemma_sum_split(share_of(f, modulus, hi), 0, k, modulus);
    assert forall|i: int| k <= i < modulus implies #[trigger] share_of(f, modulus, hi)(i) == 0 by {
        lemma_strided_sum_empty(f, i, modulus, hi);
    }
    lemma_sum_zero(share_of(f, modulus, hi), k, modulus);
}

/// The sum of a concatenation is the sum of the sums: merging is associative,
/// and the two halves may be merged in either order.
pub proof fn lemma_sum_of_concat(a: Seq<u64>, b: Seq<u64>)
    ensures
        sum_of(a + b) == sum_of(a) + sum_of(b),
        sum_of(a + b) == sum_of(b + a),
    decreases b.len(),
{
    lemma_sum_of_concat_one_way(a, b);
    lemma_sum_of_concat_one_way(b, a);
}

proof fn lemma_sum_of_concat_one_way(a: Seq<u64>, b: Seq<u64>)
    ensures
        sum_of(a + b) == sum_of(a) + sum_of(b),
    decreases b.len(),
{
    let ab = a + b;
    if b.len() == 0 {
        assert(ab =~= a);
    } else {
        let head = b.drop_last();
        lemma_sum_of_concat_one_way(a, head);
        let ah = a + head;
        assert(ah =~= ab.drop_last());
        lemma_sum_of_push(ah, b.last());
        lemma_sum_of_push(head, b.last());
        assert(ah.push(b.last()) =~= ab);
        assert(head.push(b.last()) =~= b);
    }
}

/// Appending one count adds it to the sum.
pub proof fn lemma_sum_of_push(s: Seq<u64>, x: u64)
    ensures
        sum_of(s.push(x)) == sum_of(s) + x,
{
    let t = s.push(x);
    assert forall|j: int| 0 <= j < s.len() implies #[trigger] entry_of(t)(j) == entry_of(s)(j) by {}
    lemma_sum_agree(entry_of(t), entry_of(s), 0, s.len() as int);
}

/// Swapping two counts leaves the sum as it was: the order of merging does not matter.
pub proof fn lemma_sum_of_swap(s: Seq<u64>, i: int, j: int)
    requires
        0 <= i < j < s.len(),
    ensures
        sum_of(s.update(i, s[j]).update(j, s[i])) == sum_of(s),
{
    let t = s.update(i, s[j]).update(j, s[i]);
    let a = s.subrange(0, i);
    let m = s.subrange(i + 1, j);
    let z = s.subrange(j + 1, s.len() as int);
    let si = seq![s[i]];
    let sj = seq![s[j]];
    assert(s =~= a + si + m + sj + z);
    assert(t =~= a + sj + m + si + z);
    lemma_sum_of_concat(a + si + m + sj, z);
    lemma_sum_of_concat(a + si + m, sj);
    lemma_sum_of_concat(a + si, m);
    lemma_sum_of_concat(a, si);
    lemma_sum_of_concat(a + sj + m + si, z);
    lemma_sum_of_concat(a + sj + m, si);
    lemma_sum_of_concat(a + sj, m);
    lemma_sum_of_concat(a, sj);
}

/// Merges partial counts into their total.
///
/// The total is the plain sum, whatever the order of the parts; a sum that
/// leaves the range of `u64` is a fault.
pub fn merge(partial_counts: &Vec<u64>) -> (total: Result<u64, EngineError>)
    ensures
        sum_of(partial_counts@) <= u64::MAX ==> total == Ok::<u64, EngineError>(
            sum_of(partial_counts@) as u64,
        ),
        sum_of(partial_counts@) > u64::MAX ==> total == Err::<u64, EngineError>(
            EngineError::WorkerFault,
        ),
{
    let mut total: u64 = 0;
    let mut index: usize = 0;
    while index < partial_counts.len()
        invariant
            index <= partial_counts.len(),
            total == sum_over(entry_of(partial_counts@), 0, index as int),
        decreases partial_counts.len() - index,
    {
        match total.checked_add(partial_counts[index]) {
            Some(next) => {
                total = next;
            },
            None => {
                proof {
                    lemma_sum_split(
                        entry_of(partial_counts@),
                        0,
                        index as int + 1,
                        partial_counts.len() as int,
                    );
                }
                return Err(EngineError::WorkerFault);
            },
        }
        index += 1;
    }
    Ok(total)
}

/// The one value that all workers add to: the count so far.
///
/// It starts from a seed and grows by each partial count that is absorbed,
/// once each. Whoever shares it between workers hands it out under exclusive
/// access, which is what `&mut self` asks for.
pub struct SharedTotal {
    value: u64,
    seed: Ghost<nat>,
    absorbed: Ghost<Seq<u64>>,
}

impl SharedTotal {
    /// The value is the seed plus every partial count absorbed so far.
    #[verifier::type_invariant]
    spec fn consistent(self) -> bool {
        self.value == self.seed@ + sum_of(self.absorbed@)
    }

    /// The count held now.
    pub closed spec fn view(&self) -> nat {
        self.value as nat
    }

    /// The value this total started from.
    pub closed spec fn seed(&self) -> nat {
        self.seed@
    }

    /// The partial counts absorbed so far, in the order in which they came.
    pub closed spec fn absorbed(&self) -> Seq<u64> {
        self.absorbed@
    }

    /// A total that holds `seed` and has absorbed nothing yet.
    pub fn new(seed: u64) -> (total: SharedTotal)
        ensures
            total@ == seed,
            total.seed() == seed,
            total.absorbed() == Seq::<u64>::empty(),
    {
        SharedTotal { value: seed, seed: Ghost(seed as nat), absorbed: Ghost(Seq::empty()) }
    }

    /// Adds one partial count and returns the new value.
    ///
    /// A sum that leaves the range of `u64` is a fault and changes nothing.
    pub fn absorb(&mut self, partial: u64) -> (new_value: Result<u64, EngineError>)
        ensures
            old(self)@ + partial <= u64::MAX ==> new_value == Ok::<u64, EngineError>(
                (old(self)@ + partial) as u64,
            ) && final(self)@ == old(self)@ + partial && final(self).absorbed() == old(
                self,
            ).absorbed().push(partial),
            old(self)@ + partial > u64::MAX ==> new_value == Err::<u64, EngineError>(
                EngineError::WorkerFault,
            ) && final(self)@ == old(self)@ && final(self).absorbed() == old(self).absorbed(),
            final(self).seed() == old(self).seed(),
    {
        proof {
            use_type_invariant(&*self);
        }
        match self.value.checked_add(partial) {
            Some(next) => {
                proof {
                    lemma_sum_of_push(self.absorbed@, partial);
                }
                let ghost seed = self.seed@;
                let ghost absorbed = self.absorbed@.push(partial);
                *self = SharedTotal { value: next, seed: Ghost(seed), absorbed: Ghost(absorbed) };
                Ok(next)
            },
            None => Err(EngineError::WorkerFault),
        }
    }

    /// The count held now: the seed plus every partial count absorbed so far,
    /// so that nothing is lost and nothing counts twice.
    pub fn value(&self) -> (value: u64)
        ensures
            value == self@,
            value == self.seed() + sum_of(self.absorbed()),
    {
        proof {
            use_type_invariant(self);
        }
        self.value
    }
}

} // verus!
