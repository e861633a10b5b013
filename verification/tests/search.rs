use prime_sieve::error::EngineError;
use prime_sieve::search::{
    advance_phase, find_first_k_primes, SearchState, StrideWorker, WorkerEvent, WorkerPhase,
};

#[test]
fn first_five_primes_with_three_workers() {
    assert_eq!(find_first_k_primes(5, 3), Ok(vec![2, 3, 5, 7, 11]));
}

#[test]
fn first_primes_with_any_number_of_workers() {
    let expected = vec![2u64, 3, 5, 7, 11, 13, 17, 19, 23, 29, 31, 37];
    for workers in [1usize, 2, 3, 4, 5, 7, 16, 100] {
        assert_eq!(find_first_k_primes(12, workers), Ok(expected.clone()));
    }
}

#[test]
fn first_primes_count_exactly() {
    for k in 0..40u64 {
        let found = find_first_k_primes(k, 4).unwrap();
        assert_eq!(found.len() as u64, k);
    }
    assert_eq!(find_first_k_primes(1_000, 6).unwrap().last(), Some(&7_919));
}

#[test]
fn no_prime_wanted() {
    assert_eq!(find_first_k_primes(0, 3), Ok(vec![]));
}

#[test]
fn search_refuses_no_worker() {
    assert_eq!(find_first_k_primes(5, 0), Err(EngineError::InvalidWorkerCount));
    assert_eq!(StrideWorker::new(0, 0), Err(EngineError::InvalidWorkerCount));
}

#[test]
fn count_does_not_pass_the_target() {
    let mut shared = SearchState::new(2);
    assert!(!shared.stop_requested());
    assert!(!shared.record_prime());
    assert_eq!(shared.count(), 1);
    assert!(!shared.stop_requested());
    assert!(shared.record_prime());
    assert_eq!(shared.count(), 2);
    assert!(shared.stop_requested());
    assert!(!shared.record_prime());
    assert!(!shared.record_prime());
    assert_eq!(shared.count(), 2);
    assert!(shared.stop_requested());
}

#[test]
fn target_of_one_is_hit_at_once() {
    let mut shared = SearchState::new(1);
    assert!(shared.record_prime());
    assert!(shared.stop_requested());
    assert_eq!(shared.count(), 1);
}

#[test]
fn target_of_zero_starts_stopped() {
    let mut shared = SearchState::new(0);
    assert!(shared.stop_requested());
    assert!(!shared.record_prime());
    assert_eq!(shared.count(), 0);
}

#[test]
fn worker_phases() {
    assert_eq!(advance_phase(WorkerPhase::Scanning, WorkerEvent::StopObserved), WorkerPhase::Stopped);
    assert_eq!(
        advance_phase(WorkerPhase::Scanning, WorkerEvent::CandidateRejected),
        WorkerPhase::Scanning
    );
    assert_eq!(
        advance_phase(WorkerPhase::Scanning, WorkerEvent::PrimeFound),
        WorkerPhase::Incrementing
    );
    assert_eq!(
        advance_phase(WorkerPhase::Scanning, WorkerEvent::CandidatesExhausted),
        WorkerPhase::Stopped
    );
    assert_eq!(
        advance_phase(WorkerPhase::Incrementing, WorkerEvent::CountBelowTarget),
        WorkerPhase::Scanning
    );
    assert_eq!(
        advance_phase(WorkerPhase::Incrementing, WorkerEvent::TargetReached),
        WorkerPhase::Signaling
    );
    assert_eq!(
        advance_phase(WorkerPhase::Incrementing, WorkerEvent::CandidatesExhausted),
        WorkerPhase::Stopped
    );
    assert_eq!(advance_phase(WorkerPhase::Signaling, WorkerEvent::Signaled), WorkerPhase::Stopped);
    assert_eq!(
        advance_phase(WorkerPhase::Incrementing, WorkerEvent::StopObserved),
        WorkerPhase::Incrementing
    );
    assert_eq!(
        advance_phase(WorkerPhase::Signaling, WorkerEvent::StopObserved),
        WorkerPhase::Signaling
    );
    assert_eq!(advance_phase(WorkerPhase::Scanning, WorkerEvent::Signaled), WorkerPhase::Scanning);
    for event in [
        WorkerEvent::StopObserved,
        WorkerEvent::CandidateRejected,
        WorkerEvent::PrimeFound,
        WorkerEvent::CountBelowTarget,
        WorkerEvent::TargetReached,
        WorkerEvent::CandidatesExhausted,
        WorkerEvent::Signaled,
    ] {
        assert_eq!(advance_phase(WorkerPhase::Stopped, event), WorkerPhase::Stopped);
    }
}

#[test]
fn worker_walks_its_stride() {
    let mut shared = SearchState::new(2);
    let mut worker = StrideWorker::new(2, 3).unwrap();
    assert_eq!(worker, StrideWorker { candidate: 2, stride: 3, phase: WorkerPhase::Scanning });
    assert_eq!(worker.scan(shared.stop_requested()), Some(2));
    assert_eq!(worker.phase, WorkerPhase::Incrementing);
    assert_eq!(worker.scan(false), None);
    assert_eq!(worker.phase, WorkerPhase::Incrementing);
    assert!(worker.report(&mut shared));
    assert_eq!(worker, StrideWorker { candidate: 5, stride: 3, phase: WorkerPhase::Scanning });
    assert!(!worker.report(&mut shared));
    assert_eq!(shared.count(), 1);
    assert_eq!(worker.scan(shared.stop_requested()), Some(5));
    assert!(worker.report(&mut shared));
    assert_eq!(worker.phase, WorkerPhase::Signaling);
    assert_eq!(worker.candidate, 5);
    worker.finish();
    assert_eq!(worker.phase, WorkerPhase::Stopped);
    assert!(worker.is_stopped());
    assert_eq!(worker.scan(false), None);
    assert!(worker.is_stopped());
    assert_eq!(shared.count(), 2);
}

#[test]
fn worker_stops_on_the_signal() {
    let mut worker = StrideWorker::new(7, 4).unwrap();
    assert_eq!(worker.scan(true), None);
    assert_eq!(worker, StrideWorker { candidate: 7, stride: 4, phase: WorkerPhase::Stopped });
}

#[test]
fn worker_moves_on_from_a_composite() {
    let mut worker = StrideWorker::new(8, 4).unwrap();
    assert_eq!(worker.scan(false), None);
    assert_eq!(worker, StrideWorker { candidate: 12, stride: 4, phase: WorkerPhase::Scanning });
    worker.finish();
    assert_eq!(worker.phase, WorkerPhase::Scanning);
}

#[test]
fn late_prime_is_not_counted() {
    let mut shared = SearchState::new(1);
    let mut first = StrideWorker::new(2, 2).unwrap();
    let mut second = StrideWorker::new(3, 2).unwrap();
    assert_eq!(first.scan(shared.stop_requested()), Some(2));
    assert_eq!(second.scan(shared.stop_requested()), Some(3));
    assert!(first.report(&mut shared));
    assert!(!second.report(&mut shared));
    assert_eq!(shared.count(), 1);
    assert_eq!(second, StrideWorker { candidate: 5, stride: 2, phase: WorkerPhase::Scanning });
    assert_eq!(second.scan(shared.stop_requested()), None);
    assert!(second.is_stopped());
}

#[test]
fn worker_runs_out_of_candidates() {
    let mut worker = StrideWorker::new(u64::MAX - 1, 2).unwrap();
    assert_eq!(worker.scan(false), None);
    assert_eq!(
        worker,
        StrideWorker { candidate: u64::MAX - 1, stride: 2, phase: WorkerPhase::Stopped }
    );
    let mut worker = StrideWorker::new(u64::MAX, 1).unwrap();
    assert_eq!(worker.scan(false), None);
    assert!(worker.is_stopped());
    let mut worker = StrideWorker::new(u64::MAX - 3, 3).unwrap();
    assert_eq!(worker.scan(false), None);
    assert_eq!(worker, StrideWorker { candidate: u64::MAX, stride: 3, phase: WorkerPhase::Scanning });
}
