use taskmaster::error::TaskMasterError;
use taskmaster::project::Project;
use taskmaster::task::{Task, TaskBuilder, TaskPriority, TaskStatus};

#[test]
fn new_task_has_no_dependencies() {
    let t = Task::new(7, "Write".to_string(), TaskStatus::ToDo, TaskPriority::High);
    assert_eq!(t.id, 7);
    assert_eq!(t.title, "Write");
    assert!(matches!(t.status, TaskStatus::ToDo));
    assert!(matches!(t.priority, TaskPriority::High));
    assert!(t.dependencies.is_none());
}

#[test]
fn update_replaces_fields() {
    let mut t = Task::new(7, "Write".to_string(), TaskStatus::ToDo, TaskPriority::High);
    t.update("Edit".to_string(), TaskStatus::Done, TaskPriority::Low);
    assert_eq!(t.id, 7);
    assert_eq!(t.title, "Edit");
    assert!(matches!(t.status, TaskStatus::Done));
    assert!(matches!(t.priority, TaskPriority::Low));
}

#[test]
fn builder_defaults_and_dependencies() {
    let t = TaskBuilder::new(9, "Built".to_string()).build();
    assert!(matches!(t.status, TaskStatus::ToDo));
    assert!(matches!(t.priority, TaskPriority::Medium));
    assert!(t.dependencies.is_none());

    let t2 = TaskBuilder::new(10, "Built2".to_string())
        .status(TaskStatus::InProgress)
        .priority(TaskPriority::High)
        .dependency(1)
        .dependency(2)
        .build();
    assert!(matches!(t2.status, TaskStatus::InProgress));
    assert!(matches!(t2.priority, TaskPriority::High));
    assert_eq!(t2.dependencies, Some(vec![1, 2]));
}

#[test]
fn can_start_checks_first_occurrence_status() {
    let done = Task::new(1, "dep".to_string(), TaskStatus::Done, TaskPriority::Low);
    let todo = Task::new(2, "dep2".to_string(), TaskStatus::ToDo, TaskPriority::Low);
    let t = TaskBuilder::new(3, "t".to_string()).dependency(1).dependency(2).build();
    let tasks = vec![done.clone(), todo.clone(), t.clone()];
    assert!(!t.can_start(&tasks));
    let t_single = TaskBuilder::new(4, "t2".to_string()).dependency(1).build();
    assert!(t_single.can_start(&tasks));
    // A dependency absent from the list counts as unmet.
    let t_missing = TaskBuilder::new(5, "t3".to_string()).dependency(77).build();
    assert!(!t_missing.can_start(&tasks));
    // No dependencies: can start immediately.
    assert!(done.can_start(&tasks));
}

#[test]
fn project_add_update_get_remove() {
    let mut p = Project::new(1, "P".to_string());
    p.add_task(Task::new(1, "a".to_string(), TaskStatus::ToDo, TaskPriority::Low));
    p.add_task(Task::new(2, "b".to_string(), TaskStatus::ToDo, TaskPriority::Low));
    assert_eq!(p.get_task(2).unwrap().title, "b");
    assert!(matches!(
        p.get_task(9),
        Err(TaskMasterError::TaskNotFound(9))
    ));
    p.update_task(2, "b2".to_string(), TaskStatus::Done, TaskPriority::High).unwrap();
    assert_eq!(p.get_task(2).unwrap().title, "b2");
    assert!(matches!(
        p.update_task(9, "x".to_string(), TaskStatus::Done, TaskPriority::Low),
        Err(TaskMasterError::TaskNotFound(9))
    ));
    p.remove_task(1);
    assert!(p.get_task(1).is_err());
    assert_eq!(p.tasks.len(), 1);
}

#[test]
fn project_dependency_edit_round_trip() {
    let mut p = Project::new(1, "P".to_string());
    for id in 1..=3u32 {
        p.add_task(Task::new(id, format!("t{}", id), TaskStatus::ToDo, TaskPriority::Low));
    }
    p.add_task_dependency(2, 1).unwrap();
    p.add_task_dependency(3, 2).unwrap();
    assert_eq!(p.get_task(2).unwrap().dependencies, Some(vec![1]));
    // A missing task is reported by its identifier.
    assert!(matches!(
        p.add_task_dependency(9, 1),
        Err(TaskMasterError::TaskNotFound(9))
    ));
    assert!(matches!(
        p.add_task_dependency(1, 9),
        Err(TaskMasterError::TaskNotFound(9))
    ));
    // A cycle is refused and nothing changes.
    let r = p.add_task_dependency(1, 3);
    assert!(matches!(r, Err(TaskMasterError::InvalidOperation(_))));
    assert!(p.get_task(1).unwrap().dependencies.is_none());
    // A self-dependency between existing tasks is the same error kind.
    assert!(matches!(
        p.add_task_dependency(2, 2),
        Err(TaskMasterError::InvalidOperation(_))
    ));
    assert_eq!(p.get_task(2).unwrap().dependencies, Some(vec![1]));
    // Removing the only dependency clears the list entirely.
    p.remove_task_dependency(2, 1).unwrap();
    assert!(p.get_task(2).unwrap().dependencies.is_none());
    assert!(matches!(
        p.remove_task_dependency(9, 1),
        Err(TaskMasterError::TaskNotFound(9))
    ));
}

#[test]
fn project_execution_order_follows_dependencies() {
    let mut p = Project::new(99, "Deps".to_string());
    for (id, title) in [
        (1, "Requirement gathering"),
        (2, "Design"),
        (3, "Implementation"),
        (4, "Testing"),
    ] {
        p.add_task(Task::new(id, title.to_string(), TaskStatus::ToDo, TaskPriority::High));
    }
    p.add_task_dependency(2, 1).unwrap();
    p.add_task_dependency(3, 2).unwrap();
    p.add_task_dependency(4, 3).unwrap();
    let order = p.get_task_execution_order().unwrap();
    let ids: Vec<u32> = order.iter().map(|t| t.id).collect();
    assert_eq!(ids, vec![1, 2, 3, 4]);
    assert_eq!(order[0].title, "Requirement gathering");
    assert!(matches!(
        p.add_task_dependency(1, 4),
        Err(TaskMasterError::InvalidOperation(_))
    ));
    let ids_after: Vec<u32> =
        p.get_task_execution_order().unwrap().iter().map(|t| t.id).collect();
    assert_eq!(ids_after, vec![1, 2, 3, 4]);
}

#[test]
fn project_clone_is_deep() {
    let mut p = Project::new(1, "P".to_string());
    p.add_task(Task::new(1, "a".to_string(), TaskStatus::ToDo, TaskPriority::Low));
    let c = p.clone();
    assert_eq!(c.id, 1);
    assert_eq!(c.name, "P");
    assert_eq!(c.tasks.len(), 1);
    assert_eq!(c.tasks[0].title, "a");
}
