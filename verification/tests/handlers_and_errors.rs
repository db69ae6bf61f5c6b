use taskmaster::error::TaskMasterError;
use taskmaster::task::{Task, TaskPriority, TaskStatus};
use taskmaster::task_handler::{
    BasicTaskHandler, PriorityTaskHandler, RegisteredHandler, TaskHandler, TaskHandlerRegistry,
};
use taskmaster::text::u32_to_string;

fn task(id: u32, title: &str, priority: TaskPriority) -> Task {
    Task::new(id, title.to_string(), TaskStatus::ToDo, priority)
}

#[test]
fn decimal_rendering_is_exact() {
    assert_eq!(u32_to_string(0), "0");
    assert_eq!(u32_to_string(7), "7");
    assert_eq!(u32_to_string(907), "907");
    assert_eq!(u32_to_string(1_000), "1000");
    assert_eq!(u32_to_string(u32::MAX), "4294967295");
}

#[test]
fn error_messages_name_their_subject() {
    assert_eq!(
        TaskMasterError::TaskNotFound(42).message(),
        "Task with ID 42 not found"
    );
    assert_eq!(
        TaskMasterError::ProjectNotFound(7).message(),
        "Project with ID 7 not found"
    );
    assert_eq!(
        TaskMasterError::InvalidOperation("bad".to_string()).message(),
        "Invalid operation: bad"
    );
    assert_eq!(
        TaskMasterError::StorageError("disk".to_string()).message(),
        "Storage error: disk"
    );
    assert_eq!(TaskMasterError::IoError("pipe".to_string()).message(), "I/O error: pipe");
    assert_eq!(
        TaskMasterError::SerializationError("json".to_string()).message(),
        "Serialization error: json"
    );
    assert_eq!(
        TaskMasterError::ChannelError("closed".to_string()).message(),
        "Channel error: closed"
    );
}

#[test]
fn basic_handler_matches_titles_by_substring() {
    let h = BasicTaskHandler::new(
        "BasicHandler",
        vec!["Report".to_string(), "Document".to_string()],
    );
    assert!(h.can_handle(&task(1, "Generate Monthly Report", TaskPriority::Low)));
    assert!(h.can_handle(&task(2, "Document the API", TaskPriority::Low)));
    assert!(!h.can_handle(&task(3, "Fix Production Bug", TaskPriority::Low)));
    // Substring search is exact: a partial overlap is no match.
    assert!(!h.can_handle(&task(4, "Repor", TaskPriority::Low)));
    assert_eq!(h.name(), "BasicHandler");
}

#[test]
fn priority_handler_matches_levels() {
    let h = PriorityTaskHandler::new(
        "PriorityHandler",
        vec![TaskPriority::High, TaskPriority::Medium],
    );
    assert!(h.can_handle(&task(1, "x", TaskPriority::High)));
    assert!(h.can_handle(&task(2, "x", TaskPriority::Medium)));
    assert!(!h.can_handle(&task(3, "x", TaskPriority::Low)));
}

#[test]
fn registry_dispatches_first_match_in_registration_order() {
    let mut registry = TaskHandlerRegistry::new();
    registry.register_handler(RegisteredHandler::Basic(BasicTaskHandler::new(
        "BasicHandler",
        vec!["Report".to_string()],
    )));
    registry.register_handler(RegisteredHandler::Priority(PriorityTaskHandler::new(
        "PriorityHandler",
        vec![TaskPriority::High],
    )));
    assert_eq!(
        registry.list_handlers(),
        vec!["BasicHandler".to_string(), "PriorityHandler".to_string()]
    );
    // Matches both: the earlier registration wins.
    let both = task(1, "Quarterly Report", TaskPriority::High);
    let chosen = registry.get_handler_for_task(&both).unwrap();
    assert_eq!(chosen.name(), "BasicHandler");
    // Matches only the second.
    let urgent = task(2, "Fix Production Bug", TaskPriority::High);
    assert_eq!(registry.get_handler_for_task(&urgent).unwrap().name(), "PriorityHandler");
    registry.execute_task(&both).unwrap();
    registry.execute_task(&urgent).unwrap();
    // No handler takes it: an invalid-operation error naming the task.
    let unhandled = task(103, "Unknown Task Type", TaskPriority::Low);
    let r = registry.execute_task(&unhandled);
    assert!(matches!(r, Err(TaskMasterError::InvalidOperation(_))));
    match r {
        Err(e) => assert_eq!(e.message(), "Invalid operation: No handler available for task: 103"),
        Ok(_) => unreachable!(),
    }
}
