use threadpool::pool::{ClaimOutcome, DequeueOutcome, Pool, PoolError, TaskOutcome, TaskQueue};

#[test]
fn queue_delivers_in_submission_order() {
    let mut q = TaskQueue::new();
    assert_eq!(q.enqueue(1), Ok(()));
    assert_eq!(q.enqueue(2), Ok(()));
    assert_eq!(q.enqueue(3), Ok(()));
    assert_eq!(q.dequeue(), DequeueOutcome::Task(1));
    assert_eq!(q.dequeue(), DequeueOutcome::Task(2));
    assert_eq!(q.dequeue(), DequeueOutcome::Task(3));
    assert_eq!(q.dequeue(), DequeueOutcome::WouldBlock);
}

#[test]
fn queue_drains_after_close() {
    let mut q = TaskQueue::new();
    assert_eq!(q.enqueue(10), Ok(()));
    assert_eq!(q.enqueue(11), Ok(()));
    q.close();
    assert_eq!(q.enqueue(12), Err(PoolError::QueueClosed));
    assert_eq!(q.dequeue(), DequeueOutcome::Task(10));
    assert_eq!(q.dequeue(), DequeueOutcome::Task(11));
    assert_eq!(q.dequeue(), DequeueOutcome::Closed);
}

#[test]
fn zero_workers_is_a_configuration_error() {
    assert!(matches!(Pool::new(0), Err(PoolError::ConfigurationError)));
}

#[test]
fn post_shutdown_submission_is_rejected() {
    let mut pool = Pool::new(2).unwrap();
    assert_eq!(pool.submit(1), Ok(()));
    pool.shutdown();
    assert_eq!(pool.submit(2), Err(PoolError::QueueClosed));
    assert_eq!(pool.pending_count(), 1);
}

#[test]
fn shutdown_is_idempotent() {
    let mut pool = Pool::new(3).unwrap();
    assert_eq!(pool.submit(7), Ok(()));
    pool.shutdown();
    pool.shutdown();
    assert!(!pool.is_accepting());
    assert_eq!(pool.pending_count(), 1);
    assert_eq!(pool.live_workers(), 3);
}

#[test]
fn idle_worker_waits_while_open_and_exits_after_shutdown() {
    let mut pool = Pool::new(1).unwrap();
    assert_eq!(pool.claim(), ClaimOutcome::WouldBlock);
    pool.shutdown();
    assert_eq!(pool.claim(), ClaimOutcome::Exit);
    assert_eq!(pool.live_workers(), 0);
}

#[test]
fn a_failed_task_does_not_stop_the_ones_behind_it() {
    let mut pool = Pool::new(1).unwrap();
    assert_eq!(pool.submit(1), Ok(()));
    assert_eq!(pool.submit(2), Ok(()));
    assert_eq!(pool.submit(3), Ok(()));
    assert_eq!(pool.claim(), ClaimOutcome::Run(1));
    pool.complete(1, TaskOutcome::Failed);
    assert_eq!(pool.live_workers(), 1);
    assert_eq!(pool.claim(), ClaimOutcome::Run(2));
    pool.complete(2, TaskOutcome::Succeeded);
    assert_eq!(pool.claim(), ClaimOutcome::Run(3));
    pool.complete(3, TaskOutcome::Succeeded);
    assert_eq!(pool.completed_count(), 3);
    assert_eq!(pool.failed_tasks().as_slice(), &[1]);
}

#[test]
fn several_claims_run_side_by_side() {
    let mut pool = Pool::new(4).unwrap();
    for id in 0..4u64 {
        assert_eq!(pool.submit(id), Ok(()));
    }
    assert_eq!(pool.claim(), ClaimOutcome::Run(0));
    assert_eq!(pool.claim(), ClaimOutcome::Run(1));
    assert_eq!(pool.claim(), ClaimOutcome::Run(2));
    assert_eq!(pool.claim(), ClaimOutcome::Run(3));
    assert_eq!(pool.running_count(), 4);
    for id in 0..4u64 {
        pool.complete(id, TaskOutcome::Succeeded);
    }
    assert_eq!(pool.completed_count(), 4);
}

#[test]
fn hundred_tasks_four_workers_all_run_exactly_once() {
    let mut pool = Pool::new(4).unwrap();
    for id in 0..100u64 {
        assert_eq!(pool.submit(id), Ok(()));
    }
    pool.shutdown();
    let mut counter: u64 = 0;
    let mut exited: usize = 0;
    // Each round plays one scheduling step of some worker: claim, run
    // (increment the shared counter), report.
    while exited < 4 {
        match pool.claim() {
            ClaimOutcome::Run(id) => {
                counter += 1;
                pool.complete(id, TaskOutcome::Succeeded);
            }
            ClaimOutcome::Exit => {
                exited += 1;
            }
            ClaimOutcome::WouldBlock => unreachable!(),
        }
    }
    assert_eq!(counter, 100);
    assert_eq!(pool.completed_count(), 100);
    assert_eq!(pool.pending_count(), 0);
    assert_eq!(pool.running_count(), 0);
    assert_eq!(pool.live_workers(), 0);
    assert_eq!(pool.failed_tasks().len(), 0);
}
