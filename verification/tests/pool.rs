use thread_pool::pool::{worker_step, Message, PoolError, Step, ThreadPool, Worker, WorkerState};

#[test]
fn worker_new_starts_running() {
    let w = Worker::new(7);
    assert_eq!(w.id, 7);
    assert_eq!(w.state, WorkerState::Running);
}

#[test]
fn worker_step_runs_job_and_keeps_running() {
    let (state, job) = worker_step(Message::NewJob(41u64));
    assert_eq!(state, WorkerState::Running);
    assert_eq!(job, Some(41u64));
}

#[test]
fn worker_step_terminates_on_signal() {
    let (state, job) = worker_step(Message::<u64>::Terminate);
    assert_eq!(state, WorkerState::Terminated);
    assert_eq!(job, None);
}

#[test]
fn try_new_zero_workers_fails() {
    let r = ThreadPool::<u64>::try_new(0);
    assert!(matches!(r, Err(PoolError::ConstraintViolation)));
}

#[test]
fn try_new_positive_builds_running_pool() {
    let pool = ThreadPool::<u64>::try_new(4).unwrap();
    assert_eq!(pool.worker_count(), 4);
    assert_eq!(pool.queue_len(), 0);
    assert!(!pool.is_torn_down());
    for w in 0..4 {
        assert_eq!(pool.worker_state(w), WorkerState::Running);
    }
}

#[test]
fn execute_enqueues_in_order() {
    let mut pool = ThreadPool::<u64>::new(2);
    assert!(pool.execute(10).is_ok());
    assert!(pool.execute(20).is_ok());
    assert_eq!(pool.queue_len(), 2);
}

#[test]
fn execute_after_teardown_is_reported() {
    let mut pool = ThreadPool::<u64>::new(1);
    pool.teardown();
    let r = pool.execute(5);
    assert!(matches!(r, Err(PoolError::SubmissionAfterShutdown)));
}

#[test]
fn dispatch_blocks_on_empty_queue() {
    let mut pool = ThreadPool::<u64>::new(2);
    assert!(matches!(pool.dispatch(0), Step::Blocked));
}

#[test]
fn dispatch_blocks_on_unknown_worker() {
    let mut pool = ThreadPool::<u64>::new(2);
    pool.execute(1).unwrap();
    assert!(matches!(pool.dispatch(9), Step::Blocked));
}

#[test]
fn two_workers_claim_two_jobs_concurrently() {
    // Two pending jobs, two workers: one dequeue turn each claims both
    // jobs, one per worker, while every worker keeps running.
    let mut pool = ThreadPool::<u64>::new(2);
    pool.execute(10).unwrap();
    pool.execute(20).unwrap();
    assert!(matches!(pool.dispatch(0), Step::Run(10)));
    assert!(matches!(pool.dispatch(1), Step::Run(20)));
    assert_eq!(pool.worker_state(0), WorkerState::Running);
    assert_eq!(pool.worker_state(1), WorkerState::Running);
    assert_eq!(pool.queue_len(), 0);
}

#[test]
fn teardown_claims_every_job_exactly_once() {
    let k: u64 = 10;
    let mut pool = ThreadPool::<u64>::new(2);
    for j in 0..k {
        pool.execute(j).unwrap();
    }
    let claimed = pool.teardown();
    assert_eq!(claimed, (0..k).collect::<Vec<u64>>());
    assert!(pool.is_torn_down());
    for w in 0..2 {
        assert_eq!(pool.worker_state(w), WorkerState::Terminated);
    }
}

#[test]
fn teardown_returns_only_after_submitted_work_is_done() {
    // The job's side effect (its presence among the claimed jobs) is
    // observable as soon as teardown returns.
    let mut pool = ThreadPool::<u64>::new(1);
    pool.execute(99).unwrap();
    let claimed = pool.teardown();
    assert_eq!(claimed, vec![99]);
}

#[test]
fn teardown_of_idle_pool_claims_nothing() {
    let mut pool = ThreadPool::<u64>::new(3);
    let claimed = pool.teardown();
    assert!(claimed.is_empty());
    for w in 0..3 {
        assert_eq!(pool.worker_state(w), WorkerState::Terminated);
    }
}

#[test]
fn faulted_worker_does_not_stop_the_rest() {
    let mut pool = ThreadPool::<u64>::new(3);
    pool.execute(1).unwrap();
    assert!(matches!(pool.dispatch(0), Step::Run(1)));
    // The job faults on worker 0: that worker is lost, nothing else is.
    pool.worker_fault(0);
    assert_eq!(pool.worker_state(0), WorkerState::Faulted);
    assert_eq!(pool.worker_state(1), WorkerState::Running);
    assert_eq!(pool.worker_state(2), WorkerState::Running);
    // The remaining workers still accept and execute new jobs.
    pool.execute(2).unwrap();
    pool.execute(3).unwrap();
    assert!(matches!(pool.dispatch(1), Step::Run(2)));
    assert!(matches!(pool.dispatch(2), Step::Run(3)));
    // Teardown still claims everything still queued and stops the rest.
    pool.execute(4).unwrap();
    let claimed = pool.teardown();
    assert_eq!(claimed, vec![4]);
    assert_eq!(pool.worker_state(0), WorkerState::Faulted);
    assert_eq!(pool.worker_state(1), WorkerState::Terminated);
    assert_eq!(pool.worker_state(2), WorkerState::Terminated);
    // One terminate signal stays addressed to the lost worker.
    assert_eq!(pool.queue_len(), 1);
}

#[test]
fn faulted_worker_no_longer_dequeues() {
    let mut pool = ThreadPool::<u64>::new(1);
    pool.worker_fault(0);
    pool.execute(1).unwrap();
    assert!(matches!(pool.dispatch(0), Step::Blocked));
}

#[test]
fn pool_of_two_runs_both_jobs() {
    // Pool(2); job A and job B are both submitted; after teardown the
    // shared log holds both, each exactly once.
    let mut pool = ThreadPool::<&str>::new(2);
    pool.execute("A").unwrap();
    pool.execute("B").unwrap();
    let log = pool.teardown();
    assert_eq!(log.len(), 2);
    assert!(log.contains(&"A"));
    assert!(log.contains(&"B"));
    assert_eq!(pool.worker_state(0), WorkerState::Terminated);
    assert_eq!(pool.worker_state(1), WorkerState::Terminated);
}

#[test]
fn worker_terminates_only_behind_all_jobs() {
    // FIFO: the terminate signals enqueued by teardown stand behind the
    // jobs, so a worker dequeues every job before it can stop.
    let mut pool = ThreadPool::<u64>::new(1);
    pool.execute(7).unwrap();
    pool.begin_teardown();
    assert!(matches!(pool.dispatch(0), Step::Run(7)));
    assert!(matches!(pool.dispatch(0), Step::Exit));
    assert_eq!(pool.worker_state(0), WorkerState::Terminated);
}
