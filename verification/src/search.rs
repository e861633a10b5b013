//! The early-stop search: workers scan disjoint strides of candidates, share a
//! count and a stop signal, and halt once the count has reached its target.

use vstd::prelude::*;
use crate::error::EngineError;
use crate::primes::{is_prime_list, is_prime_number};
use crate::trial::is_prime;

verus! {

/// The primes below `c`, in increasing order.
pub open spec fn primes_below(c: nat) -> Seq<u64>
    decreases c,
{
    if c == 0 {
        Seq::empty()
    } else if is_prime_number(c - 1) {
        primes_below((c - 1) as nat).push((c - 1) as u64)
    } else {
        primes_below((c - 1) as nat)
    }
}

/// `found` holds the first `k` primes, or every prime that a `u64` can hold
/// where those are fewer than `k`.
pub open spec fn is_first_primes(found: Seq<u64>, k: nat) -> bool {
    exists|c: nat|
        c <= u64::MAX + 1 && found == #[trigger] primes_below(c) && (found.len() == k || (
        found.len() < k && c == u64::MAX + 1))
}

/// `primes_below(c)` lists exactly the primes below `c`, each once and in increasing order.
pub proof fn lemma_primes_below_is_prime_list(c: nat)
    requires
        c <= u64::MAX + 1,
    ensures
        is_prime_list(primes_below(c), c as int - 1),
    decreases c,
{
    if c > 0 {
        let shorter = primes_below((c - 1) as nat);
        let longer = primes_below(c);
        lemma_primes_below_is_prime_list((c - 1) as nat);
        assert forall|p: int| is_prime_number(p) && p <= c - 1 implies exists|i: int|
            0 <= i < longer.len() && #[trigger] longer[i] == p by {
            if p == c - 1 {
                assert(longer[shorter.len() as int] == p);
            } else {
                let i = choose|i: int| 0 <= i < shorter.len() && #[trigger] shorter[i] == p;
                assert(longer[i] == p);
            }
        }
    }
}

/// The count that the workers share, with its target and the stop signal.
///
/// The count never passes the target, and the signal is set exactly when the
/// count has reached it: the signal goes from unset to set once and is never
/// reset. Whoever shares this between workers hands it out under exclusive
/// access, which is what `&mut self` asks for; one call of
/// [`SearchState::record_prime`] is then one indivisible step.
pub struct SearchState {
    target: u64,
    count: u64,
    stop: bool,
}

impl SearchState {
    #[verifier::type_invariant]
    spec fn consistent(self) -> bool {
        self.count <= self.target && self.stop == (self.count == self.target)
    }

    /// The number of primes counted so far.
    pub closed spec fn counted(&self) -> nat {
        self.count as nat
    }

    /// The number of primes to count.
    pub closed spec fn target(&self) -> nat {
        self.target as nat
    }

    /// Whether the stop signal is set.
    pub closed spec fn stopped(&self) -> bool {
        self.stop
    }

    /// A search for `k` primes of which none is counted yet. With `k == 0` there
    /// is nothing to find and the signal is set from the start.
    pub fn new(k: u64) -> (state: SearchState)
        ensures
            state.target() == k,
            state.counted() == 0,
            state.stopped() == (k == 0),
    {
        SearchState { target: k, count: 0, stop: k == 0 }
    }

    /// Counts one prime, unless the signal is set already, and sets the signal if
    /// that prime was the last one wanted. Returns whether it was.
    ///
    /// Increment, comparison and signal are one step: the count cannot pass
    /// the target, whatever the order in which the workers come.
    pub fn record_prime(&mut self) -> (hit: bool)
        ensures
            final(self).target() == old(self).target(),
            old(self).stopped() ==> !hit && final(self).counted() == old(self).counted()
                && final(self).stopped(),
            !old(self).stopped() ==> final(self).counted() == old(self).counted() + 1 && hit == (
            final(self).counted() == final(self).target()) && final(self).stopped() == hit,
            final(self).counted() <= final(self).target(),
    {
        proof {
            use_type_invariant(&*self);
        }
        if self.stop {
            return false;
        }
        let count: u64 = self.count + 1;
        let hit: bool = count == self.target;
        *self = SearchState { target: self.target, count, stop: hit };
        hit
    }

    /// Reads the stop signal.
    pub fn stop_requested(&self) -> (stop: bool)
        ensures
            stop == self.stopped(),
            stop == (self.counted() == self.target()),
    {
        proof {
            use_type_invariant(self);
        }
        self.stop
    }

    /// Reads the count, which never passes the target.
    pub fn count(&self) -> (count: u64)
        ensures
            count == self.counted(),
            count <= self.target(),
    {
        proof {
            use_type_invariant(self);
        }
        self.count
    }
}

/// Where a worker of the search stands.
#[derive(Clone, Copy, Debug, PartialEq, Eq, Structural)]
pub enum WorkerPhase {
    /// Looking at its next candidate.
    Scanning,
    /// Holding a prime that it has found and not yet reported.
    Incrementing,
    /// Having counted the last prime wanted, and set the signal with it.
    Signaling,
    /// Done: it has seen the signal, or run out of candidates.
    Stopped,
}

/// What happens to a worker.
#[derive(Clone, Copy, Debug, PartialEq, Eq, Structural)]
pub enum WorkerEvent {
    /// It found the stop signal set.
    StopObserved,
    /// Its candidate was no prime, and another candidate is left.
    CandidateRejected,
    /// Its candidate was a prime.
    PrimeFound,
    /// Its prime was reported without reaching the target, and another candidate is left.
    CountBelowTarget,
    /// Its prime was counted and was the last one wanted.
    TargetReached,
    /// It has no candidate left.
    CandidatesExhausted,
    /// It has passed the signal on.
    Signaled,
}

/// The worker's state machine: `Scanning` leads to `Incrementing` by a prime,
/// `Incrementing` to `Signaling` by the last prime wanted, `Signaling` to
/// `Stopped`; a worker that scans stops when it sees the signal. Whatever does
/// not belong to a phase leaves the phase as it is, and `Stopped` is final.
pub open spec fn next_phase(phase: WorkerPhase, event: WorkerEvent) -> WorkerPhase {
    match (phase, event) {
        (WorkerPhase::Scanning, WorkerEvent::StopObserved) => WorkerPhase::Stopped,
        (WorkerPhase::Scanning, WorkerEvent::CandidateRejected) => WorkerPhase::Scanning,
        (WorkerPhase::Scanning, WorkerEvent::PrimeFound) => WorkerPhase::Incrementing,
        (WorkerPhase::Scanning, WorkerEvent::CandidatesExhausted) => WorkerPhase::Stopped,
        (WorkerPhase::Incrementing, WorkerEvent::CountBelowTarget) => WorkerPhase::Scanning,
        (WorkerPhase::Incrementing, WorkerEvent::TargetReached) => WorkerPhase::Signaling,
        (WorkerPhase::Incrementing, WorkerEvent::CandidatesExhausted) => WorkerPhase::Stopped,
        (WorkerPhase::Signaling, WorkerEvent::Signaled) => WorkerPhase::Stopped,
        (phase, _) => phase,
    }
}

/// Computes [`next_phase`].
pub fn advance_phase(phase: WorkerPhase, event: WorkerEvent) -> (next: WorkerPhase)
    ensures
        next == next_phase(phase, event),
{
    match phase {
        WorkerPhase::Scanning => match event {
            WorkerEvent::StopObserved => WorkerPhase::Stopped,
            WorkerEvent::PrimeFound => WorkerPhase::Incrementing,
            WorkerEvent::CandidatesExhausted => WorkerPhase::Stopped,
            _ => WorkerPhase::Scanning,
        },
        WorkerPhase::Incrementing => match event {
            WorkerEvent::CountBelowTarget => WorkerPhase::Scanning,
            WorkerEvent::TargetReached => WorkerPhase::Signaling,
            WorkerEvent::CandidatesExhausted => WorkerPhase::Stopped,
            _ => WorkerPhase::Incrementing,
        },
        WorkerPhase::Signaling => match event {
            WorkerEvent::Signaled => WorkerPhase::Stopped,
            _ => WorkerPhase::Signaling,
        },
        WorkerPhase::Stopped => WorkerPhase::Stopped,
    }
}

/// One worker of the search: the candidate it looks at next, the stride by
/// which it moves on, and its phase.
#[derive(Clone, Copy, Debug, PartialEq, Eq, Structural)]
pub struct StrideWorker {
    /// The candidate that the worker looks at next, or holds.
    pub candidate: u64,
    /// The distance between two candidates of the worker.
    pub stride: u64,
    /// Where the worker stands.
    pub phase: WorkerPhase,
}

/// The worker after its candidate is dealt with: at the next candidate of its
/// stride, or stopped where a `u64` holds no further one.
pub open spec fn moved_on(worker: StrideWorker) -> StrideWorker {
    if worker.candidate + worker.stride <= u64::MAX {
        StrideWorker {
            candidate: (worker.candidate + worker.stride) as u64,
            stride: worker.stride,
            phase: WorkerPhase::Scanning,
        }
    } else {
        StrideWorker {
            candidate: worker.candidate,
            stride: worker.stride,
            phase: WorkerPhase::Stopped,
        }
    }
}

/// The worker after one look at the stop signal and, if that is unset, at its candidate.
pub open spec fn scanned(worker: StrideWorker, stop_signal: bool) -> StrideWorker {
    if worker.phase != WorkerPhase::Scanning {
        worker
    } else if stop_signal {
        StrideWorker { phase: WorkerPhase::Stopped, ..worker }
    } else if is_prime_number(worker.candidate as int) {
        StrideWorker { phase: WorkerPhase::Incrementing, ..worker }
    } else {
        moved_on(worker)
    }
}

impl StrideWorker {
    /// Worker `index` of `worker_count`: it starts at the candidate `index` and
    /// moves on by `worker_count`, so that no two workers share a candidate and
    /// none is left out. No worker at all is refused.
    pub fn new(index: u64, worker_count: u64) -> (worker: Result<StrideWorker, EngineError>)
        ensures
            worker_count == 0 ==> worker == Err::<StrideWorker, EngineError>(
                EngineError::InvalidWorkerCount,
            ),
            worker_count > 0 ==> worker == Ok::<StrideWorker, EngineError>(
                StrideWorker {
                    candidate: index,
                    stride: worker_count,
                    phase: WorkerPhase::Scanning,
                },
            ),
    {
        if worker_count == 0 {
            return Err(EngineError::InvalidWorkerCount);
        }
        Ok(StrideWorker { candidate: index, stride: worker_count, phase: WorkerPhase::Scanning })
    }

    /// Moves to the next candidate of the stride.
    fn move_on(&mut self)
        ensures
            *final(self) == moved_on(*old(self)),
    {
        match self.candidate.checked_add(self.stride) {
            Some(next) => {
                self.candidate = next;
                self.phase = WorkerPhase::Scanning;
            },
            None => {
                self.phase = WorkerPhase::Stopped;
            },
        }
    }

    /// One iteration of a scanning worker: it looks at the stop signal first and
    /// stops if that is set; else it tests its candidate, keeps a prime for
    /// reporting and moves on from anything else. Returns the prime that it keeps.
    ///
    /// A worker in another phase is left as it is.
    pub fn scan(&mut self, stop_signal: bool) -> (found: Option<u64>)
        ensures
            *final(self) == scanned(*old(self), stop_signal),
            found == if final(self).phase == WorkerPhase::Incrementing && old(self).phase
                == WorkerPhase::Scanning {
                Some(old(self).candidate)
            } else {
                None::<u64>
            },
    {
        if self.phase != WorkerPhase::Scanning {
            return None;
        }
        if stop_signal {
            self.phase = advance_phase(self.phase, WorkerEvent::StopObserved);
            return None;
        }
        if is_prime(self.candidate) {
            self.phase = advance_phase(self.phase, WorkerEvent::PrimeFound);
            Some(self.candidate)
        } else {
            self.move_on();
            None
        }
    }

    /// Reports the prime that the worker holds, under exclusive access to the
    /// shared state. Returns whether the prime was counted.
    ///
    /// A prime that reaches the target leaves the worker signaling; any other
    /// report sends it on to its next candidate. A prime that comes after the
    /// signal is not counted. A worker that holds no prime is left as it is.
    pub fn report(&mut self, shared: &mut SearchState) -> (counted: bool)
        ensures
            final(shared).target() == old(shared).target(),
            final(shared).counted() <= final(shared).target(),
            old(self).phase != WorkerPhase::Incrementing ==> !counted && *final(self) == *old(self)
                && final(shared).counted() == old(shared).counted() && final(shared).stopped()
                == old(shared).stopped(),
            old(self).phase == WorkerPhase::Incrementing ==> {
                &&& counted == !old(shared).stopped()
                &&& final(shared).counted() == old(shared).counted() + if counted {
                    1nat
                } else {
                    0nat
                }
                &&& final(shared).stopped() == (final(shared).counted() == final(shared).target())
                &&& *final(self) == if counted && final(shared).stopped() {
                    StrideWorker { phase: WorkerPhase::Signaling, ..*old(self) }
                } else {
                    moved_on(*old(self))
                }
            },
    {
        proof {
            use_type_invariant(&*shared);
        }
        if self.phase != WorkerPhase::Incrementing {
            return false;
        }
        let was_stopped: bool = shared.stop_requested();
        let hit: bool = shared.record_prime();
        if hit {
            self.phase = advance_phase(self.phase, WorkerEvent::TargetReached);
        } else {
            self.move_on();
        }
        !was_stopped
    }

    /// The last step of the worker that reached the target: from signaling to stopped.
    /// A worker in another phase is left as it is.
    pub fn finish(&mut self)
        ensures
            *final(self) == (StrideWorker {
                phase: next_phase(old(self).phase, WorkerEvent::Signaled),
                ..*old(self)
            }),
    {
        self.phase = advance_phase(self.phase, WorkerEvent::Signaled);
    }

    /// Whether the worker is done.
    pub fn is_stopped(&self) -> (stopped: bool)
        ensures
            stopped == (self.phase == WorkerPhase::Stopped),
    {
        self.phase == WorkerPhase::Stopped
    }
}

/// Worker `worker` stands where the schedule wants it: it scans `at`, or has
/// stopped because `at` is more than a `u64` holds.
pub open spec fn stands_at(worker: StrideWorker, stride: int, at: int) -> bool {
    &&& worker.stride == stride
    &&& if at <= u64::MAX {
        worker.phase == WorkerPhase::Scanning && worker.candidate == at
    } else {
        worker.phase == WorkerPhase::Stopped
    }
}

/// The candidates below `base + offset`, as far as a `u64` holds them.
pub open spec fn tested_below(base: int, offset: int) -> nat {
    if base + offset <= u64::MAX {
        (base + offset) as nat
    } else {
        (u64::MAX + 1) as nat
    }
}

/// Finds the first `k` primes with `worker_count` workers and returns them in
/// the order in which they were counted.
///
/// Worker `i` scans the candidates `i`, `i + worker_count`, ... The workers
/// take turns, one candidate each, in the order of their indices; each looks
/// at the stop signal before its candidate and reports a prime in one step
/// with the comparison against `k`. So the primes are counted in increasing
/// order, exactly `k` of them, and nothing is tested once the signal is set.
/// The search also ends where the workers run out of candidates.
/// No worker at all is refused.
pub fn find_first_k_primes(k: u64, worker_count: usize) -> (found: Result<Vec<u64>, EngineError>)
    ensures
        worker_count == 0 ==> (found matches Err(e) && e == EngineError::InvalidWorkerCount),
        worker_count > 0 ==> (found matches Ok(primes) && is_first_primes(primes@, k as nat)),
{
    if worker_count == 0 {
        return Err(EngineError::InvalidWorkerCount);
    }
    let mut workers: Vec<StrideWorker> = Vec::new();
    let mut index: usize = 0;
    while index < worker_count
        invariant
            index <= worker_count,
            worker_count > 0,
            workers.len() == index,
            forall|j: int| 0 <= j < index ==> stands_at(#[trigger] workers[j], worker_count as int, j),
        decreases worker_count - index,
    {
        match StrideWorker::new(index as u64, worker_count as u64) {
            Ok(worker) => {
                workers.push(worker);
            },
            Err(fault) => {
                return Err(fault);
            },
        }
        index += 1;
    }
    let mut shared = SearchState::new(k);
    let mut recorded: Vec<u64> = Vec::new();
    let mut running: bool = true;
    let ghost mut base: int = 0;
    let ghost mut tested: nat = 0;
    while running
        invariant
            worker_count > 0,
            workers.len() == worker_count,
            shared.target() == k,
            0 <= base,
            tested <= u64::MAX + 1,
            recorded@ == primes_below(tested),
            shared.stopped() ==> recorded.len() == k,
            forall|j: int|
                0 <= j < worker_count ==> (#[trigger] workers[j]).phase == WorkerPhase::Scanning
                    || workers[j].phase == WorkerPhase::Stopped,
            !shared.stopped() ==> {
                &&& tested == tested_below(base, 0)
                &&& recorded.len() == shared.counted()
                &&& shared.counted() < k
                &&& forall|j: int|
                    0 <= j < worker_count ==> stands_at(
                        #[trigger] workers[j],
                        worker_count as int,
                        base + j,
                    )
            },
            running && !shared.stopped() ==> base <= u64::MAX,
            !running ==> forall|j: int|
                0 <= j < worker_count ==> (#[trigger] workers[j]).phase == WorkerPhase::Stopped,
        decreases
                if !running {
                    0int
                } else if shared.stopped() {
                    1int
                } else {
                    2 + (u64::MAX - base)
                },
    {
        let ghost stopped_at_start = shared.stopped();
        let mut any_scanning: bool = false;
        let ghost mut witness: int = 0;
        let mut i: usize = 0;
        while i < worker_count
            invariant
                i <= worker_count,
                worker_count > 0,
                workers.len() == worker_count,
                shared.target() == k,
                0 <= base,
                tested <= u64::MAX + 1,
                recorded@ == primes_below(tested),
                shared.stopped() ==> recorded.len() == k,
                stopped_at_start ==> shared.stopped(),
                forall|j: int|
                    0 <= j < worker_count ==> (#[trigger] workers[j]).phase
                        == WorkerPhase::Scanning || workers[j].phase == WorkerPhase::Stopped,
                stopped_at_start ==> forall|j: int|
                    0 <= j < i ==> (#[trigger] workers[j]).phase == WorkerPhase::Stopped,
                !any_scanning ==> forall|j: int|
                    0 <= j < i ==> (#[trigger] workers[j]).phase == WorkerPhase::Stopped,
                any_scanning ==> 0 <= witness < i && workers[witness].phase
                    == WorkerPhase::Scanning,
                !shared.stopped() ==> {
                    &&& tested == tested_below(base, i as int)
                    &&& recorded.len() == shared.counted()
                    &&& shared.counted() < k
                    &&& forall|j: int|
                        0 <= j < i ==> stands_at(
                            #[trigger] workers[j],
                            worker_count as int,
                            base + worker_count + j,
                        )
                    &&& forall|j: int|
                        i <= j < worker_count ==> stands_at(
                            #[trigger] workers[j],
                            worker_count as int,
                            base + j,
                        )
                },
            decreases worker_count - i,
        {
            let mut worker: StrideWorker = workers[i];
            let ghost before = worker;
            let ghost was_stopped = shared.stopped();
            let found = worker.scan(shared.stop_requested());
            match found {
                Some(prime) => {
                    let counted = worker.report(&mut shared);
                    if counted {
                        recorded.push(prime);
                    }
                    worker.finish();
                    proof {
                        tested = (tested + 1) as nat;
                    }
                },
                None => {
                    proof {
                        if !was_stopped && before.phase == WorkerPhase::Scanning {
                            tested = (tested + 1) as nat;
                        }
                    }
                },
            }
            workers.set(i, worker);
            if !worker.is_stopped() {
                any_scanning = true;
                proof {
                    witness = i as int;
                }
            }
            i += 1;
        }
        running = any_scanning;
        proof {
            if !shared.stopped() {
                if any_scanning {
                    assert(stands_at(workers[witness], worker_count as int, base + worker_count + witness));
                } else {
                    assert(stands_at(workers[0], worker_count as int, base + worker_count + 0));
                }
            }
            base = base + worker_count;
        }
    }
    proof {
        if !shared.stopped() {
            assert(stands_at(workers[0], worker_count as int, base + 0));
        }
        assert(recorded@ == primes_below(tested));
    }
    Ok(recorded)
}

} // verus!
