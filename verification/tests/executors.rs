use taskmaster::error::TaskMasterError;
use taskmaster::task::{Task, TaskPriority, TaskStatus};
use taskmaster::task_executor::TaskExecutor;
use taskmaster::worker_pool::{TaskJob, WorkerPool};

fn task(id: u32, title: &str) -> Task {
    Task::new(id, title.to_string(), TaskStatus::ToDo, TaskPriority::Medium)
}

#[test]
fn pool_delivers_one_result_per_job() {
    // Three jobs into a pool of two workers: exactly three results, each
    // tagged with the submitted task identifier.
    let mut pool = WorkerPool::new(2);
    for id in [10u32, 11, 12] {
        pool.execute(TaskJob { id, task: task(id, "job") }).unwrap();
    }
    let mut finished = Vec::new();
    while let Some(id) = pool.run_next_job(true, None) {
        finished.push(id);
    }
    assert_eq!(finished, vec![10, 11, 12]);
    let mut results = Vec::new();
    while let Some(r) = pool.try_get_result() {
        results.push(r);
    }
    assert_eq!(results.len(), 3);
    let ids: Vec<u32> = results.iter().map(|r| r.task_id).collect();
    assert_eq!(ids, vec![10, 11, 12]);
    assert!(results.iter().all(|r| r.success));
    assert!(pool.try_get_result().is_none());
}

#[test]
fn peeking_does_not_consume_the_queue() {
    let mut pool = WorkerPool::new(1);
    pool.execute(TaskJob { id: 3, task: task(3, "peeked") }).unwrap();
    let seen = pool.peek_next_job().map(|j| (j.id, j.task.title.clone()));
    assert_eq!(seen, Some((3, "peeked".to_string())));
    assert_eq!(pool.run_next_job(true, None), Some(3));
    assert!(pool.peek_next_job().is_none());
}

#[test]
fn pool_failure_is_a_result_not_a_crash() {
    let mut pool = WorkerPool::new(1);
    pool.execute(TaskJob { id: 5, task: task(5, "boom") }).unwrap();
    pool.run_next_job(false, Some("handler failed".to_string()));
    let r = pool.get_result().unwrap();
    assert_eq!(r.task_id, 5);
    assert!(!r.success);
    assert_eq!(r.error_message.as_deref(), Some("handler failed"));
}

#[test]
fn pool_refuses_jobs_after_shutdown() {
    let mut pool = WorkerPool::new(1);
    pool.execute(TaskJob { id: 1, task: task(1, "before") }).unwrap();
    pool.shutdown();
    let r = pool.execute(TaskJob { id: 2, task: task(2, "after") });
    assert!(matches!(r, Err(TaskMasterError::InvalidOperation(_))));
    // The job accepted before shutdown still runs to completion.
    assert_eq!(pool.run_next_job(true, None), Some(1));
    assert_eq!(pool.get_result().unwrap().task_id, 1);
}

#[test]
fn pool_get_result_without_results_is_an_error() {
    let mut pool = WorkerPool::new(1);
    assert!(matches!(
        pool.get_result(),
        Err(TaskMasterError::InvalidOperation(_))
    ));
}

#[test]
fn executor_tracks_and_releases_running_tasks() {
    let mut ex = TaskExecutor::new(4, 10);
    ex.execute_task_at(task(1, "one"), 1_000).unwrap();
    ex.execute_task_at(task(2, "two"), 1_000).unwrap();
    assert!(ex.is_task_running(1));
    assert!(ex.is_task_running(2));
    assert!(!ex.is_task_running(3));
    // The job handler itself releases the record and publishes the result.
    assert_eq!(ex.complete_next_job(true, None), Some(1));
    assert!(!ex.is_task_running(1));
    assert!(ex.is_task_running(2));
    let results = ex.collect_results();
    assert_eq!(results.len(), 1);
    assert_eq!(results[0].task_id, 1);
    assert!(ex.collect_results().is_empty());
}

#[test]
fn overdue_task_is_reported_exactly_once() {
    // Timeout of 1 second; the task started at 0 and 2 seconds passed.
    let mut ex = TaskExecutor::new(1, 1);
    ex.execute_task_at(task(7, "slow"), 0).unwrap();
    ex.execute_task_at(task(8, "fast"), 1_800).unwrap();
    let expired = ex.check_timeouts_at(2_000);
    assert_eq!(expired, vec![7]);
    assert!(!ex.is_task_running(7));
    assert!(ex.is_task_running(8));
    // The read was destructive: a second sweep reports nothing for it.
    let again = ex.check_timeouts_at(2_000);
    assert!(again.is_empty());
}

#[test]
fn timeout_boundary_is_strict() {
    let mut ex = TaskExecutor::new(1, 1);
    ex.execute_task_at(task(7, "edge"), 0).unwrap();
    // Exactly at the limit: not yet over it.
    assert!(ex.check_timeouts_at(1_000).is_empty());
    assert!(ex.is_task_running(7));
    assert_eq!(ex.check_timeouts_at(1_001), vec![7]);
}

#[test]
fn cancel_is_bookkeeping_only() {
    let mut ex = TaskExecutor::new(1, 10);
    ex.execute_task_at(task(3, "c"), 0).unwrap();
    ex.cancel_task(3).unwrap();
    assert!(!ex.is_task_running(3));
    assert!(matches!(
        ex.cancel_task(3),
        Err(TaskMasterError::TaskNotFound(3))
    ));
    // The dispatched work still delivers its result after cancellation.
    assert_eq!(ex.complete_next_job(true, None), Some(3));
    assert_eq!(ex.collect_results().len(), 1);
}
