use taskmaster::async_executor::{AsyncTaskExecutor, TaskEvent};
use taskmaster::error::TaskMasterError;
use taskmaster::task::{Task, TaskPriority, TaskStatus};

fn task(id: u32, title: &str) -> Task {
    Task::new(id, title.to_string(), TaskStatus::ToDo, TaskPriority::Medium)
}

#[test]
fn submission_emits_started_then_completion_emits_completed() {
    let mut ex = AsyncTaskExecutor::new(10, 100);
    ex.execute_task_at(task(1, "one"), 500).unwrap();
    assert!(ex.is_task_running(1));
    ex.finish_task(1);
    assert!(!ex.is_task_running(1));
    // Within one task's lifecycle, Started comes before the terminal event.
    assert!(matches!(ex.next_event(), Some(TaskEvent::Started { task_id: 1 })));
    assert!(matches!(ex.next_event(), Some(TaskEvent::Completed { task_id: 1 })));
    assert!(ex.next_event().is_none());
}

#[test]
fn closed_stream_refuses_submission_and_swallows_completion() {
    let mut ex = AsyncTaskExecutor::new(10, 100);
    ex.execute_task_at(task(1, "one"), 0).unwrap();
    ex.close_events();
    let r = ex.execute_task_at(task(2, "two"), 0);
    assert!(matches!(r, Err(TaskMasterError::ChannelError(_))));
    // The task was still recorded as running before the send failed.
    assert!(ex.is_task_running(2));
    // A fire-and-forget completion after closing is swallowed, not an error.
    ex.finish_task(1);
    assert!(!ex.is_task_running(1));
    assert!(matches!(ex.next_event(), Some(TaskEvent::Started { task_id: 1 })));
    assert!(ex.next_event().is_none());
}

#[test]
fn async_timeouts_are_destructive_reads() {
    let mut ex = AsyncTaskExecutor::new(1, 8);
    ex.execute_task_at(task(5, "slow"), 0).unwrap();
    let expired = ex.check_timeouts_at(1_500);
    assert_eq!(expired, vec![5]);
    assert!(!ex.is_task_running(5));
    assert!(ex.check_timeouts_at(1_500).is_empty());
}

#[test]
fn async_cancel_reports_absence() {
    let mut ex = AsyncTaskExecutor::new(10, 8);
    ex.execute_task_at(task(4, "c"), 0).unwrap();
    ex.cancel_task(4).unwrap();
    assert!(matches!(
        ex.cancel_task(4),
        Err(TaskMasterError::TaskNotFound(4))
    ));
}

#[test]
fn event_task_id_matches_variant_payload() {
    let ev = TaskEvent::Failed { task_id: 9, error_message: "m".to_string() };
    assert_eq!(ev.task_id(), 9);
    let copy = ev.clone();
    assert!(matches!(copy, TaskEvent::Failed { task_id: 9, ref error_message } if error_message == "m"));
}
