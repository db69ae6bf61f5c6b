use taskmaster::error::TaskMasterError;
use taskmaster::task::{Task, TaskPriority, TaskStatus};
use taskmaster::task_dependencies::DependencyGraph;

fn task(id: u32, title: &str, status: TaskStatus) -> Task {
    Task::new(id, title.to_string(), status, TaskPriority::Medium)
}

#[test]
fn self_dependency_is_refused() {
    let mut g = DependencyGraph::new();
    let r = g.add_dependency(3, 3);
    assert!(matches!(r, Err(TaskMasterError::InvalidOperation(_))));
    assert!(g.get_dependencies(3).is_empty());
    assert!(g.get_dependents(3).is_empty());
}

#[test]
fn chain_orders_dependencies_first() {
    // Tasks {1,2,3,4} with edges 2->1, 3->2, 4->3 order as [1,2,3,4].
    let mut g = DependencyGraph::new();
    g.add_dependency(2, 1).unwrap();
    g.add_dependency(3, 2).unwrap();
    g.add_dependency(4, 3).unwrap();
    let tasks = vec![
        task(1, "a", TaskStatus::ToDo),
        task(2, "b", TaskStatus::ToDo),
        task(3, "c", TaskStatus::ToDo),
        task(4, "d", TaskStatus::ToDo),
    ];
    let order = g.get_execution_order(&tasks).unwrap();
    assert_eq!(order, vec![1, 2, 3, 4]);
}

#[test]
fn closing_edge_is_refused_and_order_unchanged() {
    let mut g = DependencyGraph::new();
    g.add_dependency(2, 1).unwrap();
    g.add_dependency(3, 2).unwrap();
    g.add_dependency(4, 3).unwrap();
    // Task 1 depending on task 4 would close the cycle 4 -> 3 -> 2 -> 1.
    let r = g.add_dependency(1, 4);
    assert!(matches!(r, Err(TaskMasterError::InvalidOperation(_))));
    match r {
        Err(e) => assert_eq!(
            e.message(),
            "Invalid operation: Adding this dependency would create a cycle"
        ),
        Ok(_) => unreachable!(),
    }
    // Both indices are exactly as they were: the order is reproducible.
    let tasks = vec![
        task(1, "a", TaskStatus::ToDo),
        task(2, "b", TaskStatus::ToDo),
        task(3, "c", TaskStatus::ToDo),
        task(4, "d", TaskStatus::ToDo),
    ];
    let order = g.get_execution_order(&tasks).unwrap();
    assert_eq!(order, vec![1, 2, 3, 4]);
    assert_eq!(g.get_dependencies(1), Vec::<u32>::new());
    assert_eq!(g.get_dependents(1), vec![2]);
}

#[test]
fn cycle_check_sees_transitive_dependents() {
    let mut g = DependencyGraph::new();
    g.add_dependency(2, 1).unwrap();
    g.add_dependency(3, 2).unwrap();
    // 1 -> 3 would close the cycle; 3 -> 1 merely shortcuts the chain.
    assert!(g.would_create_cycle(1, 3));
    assert!(g.would_create_cycle(2, 3));
    assert!(!g.would_create_cycle(3, 1));
    assert!(g.would_create_cycle(5, 5));
    assert!(!g.would_create_cycle(5, 6));
}

#[test]
fn duplicate_edge_is_idempotent() {
    let mut g = DependencyGraph::new();
    g.add_dependency(2, 1).unwrap();
    g.add_dependency(2, 1).unwrap();
    assert_eq!(g.get_dependencies(2), vec![1]);
    assert_eq!(g.get_dependents(1), vec![2]);
}

#[test]
fn diamond_order_respects_every_edge() {
    // 4 depends on 2 and 3; both depend on 1.
    let mut g = DependencyGraph::new();
    g.add_dependency(2, 1).unwrap();
    g.add_dependency(3, 1).unwrap();
    g.add_dependency(4, 2).unwrap();
    g.add_dependency(4, 3).unwrap();
    let tasks = vec![
        task(4, "d", TaskStatus::ToDo),
        task(3, "c", TaskStatus::ToDo),
        task(2, "b", TaskStatus::ToDo),
        task(1, "a", TaskStatus::ToDo),
    ];
    let order = g.get_execution_order(&tasks).unwrap();
    assert_eq!(order.len(), 4);
    let pos = |id: u32| order.iter().position(|&x| x == id).unwrap();
    assert!(pos(1) < pos(2));
    assert!(pos(1) < pos(3));
    assert!(pos(2) < pos(4));
    assert!(pos(3) < pos(4));
    // The diamond admits two topological orders; the traversal is pinned
    // to input order and recorded edge order, so the result is this one.
    assert_eq!(order, vec![1, 2, 3, 4]);
}

#[test]
fn execution_order_is_reproducible() {
    // Two graphs built through the same calls order the same input the
    // same way, run after run.
    let mut orders = Vec::new();
    for _ in 0..2 {
        let mut g = DependencyGraph::new();
        g.add_dependency(2, 1).unwrap();
        g.add_dependency(3, 1).unwrap();
        g.add_dependency(4, 2).unwrap();
        g.add_dependency(4, 3).unwrap();
        let tasks = vec![
            task(3, "c", TaskStatus::ToDo),
            task(4, "d", TaskStatus::ToDo),
            task(1, "a", TaskStatus::ToDo),
            task(2, "b", TaskStatus::ToDo),
        ];
        orders.push(g.get_execution_order(&tasks).unwrap());
    }
    assert_eq!(orders[0], orders[1]);
}

#[test]
fn order_emits_only_input_tasks() {
    // The graph references task 9, which the input lacks: it is
    // traversed but not emitted.
    let mut g = DependencyGraph::new();
    g.add_dependency(2, 9).unwrap();
    let tasks = vec![task(2, "b", TaskStatus::ToDo)];
    let order = g.get_execution_order(&tasks).unwrap();
    assert_eq!(order, vec![2]);
}

#[test]
fn empty_input_orders_empty() {
    let g = DependencyGraph::new();
    let order = g.get_execution_order(&[]).unwrap();
    assert!(order.is_empty());
}

#[test]
fn remove_dependency_forgets_the_edge() {
    let mut g = DependencyGraph::new();
    g.add_dependency(2, 1).unwrap();
    g.add_dependency(3, 1).unwrap();
    g.remove_dependency(2, 1);
    assert!(g.get_dependencies(2).is_empty());
    assert_eq!(g.get_dependents(1), vec![3]);
    // Removing an absent edge is a no-op.
    g.remove_dependency(2, 1);
    assert_eq!(g.get_dependents(1), vec![3]);
}

#[test]
fn dependencies_met_only_when_all_done() {
    let mut g = DependencyGraph::new();
    g.add_dependency(3, 1).unwrap();
    g.add_dependency(3, 2).unwrap();
    let mut tasks = vec![
        task(1, "a", TaskStatus::Done),
        task(2, "b", TaskStatus::InProgress),
        task(3, "c", TaskStatus::ToDo),
    ];
    assert!(!g.are_dependencies_met(3, &tasks));
    tasks[1] = task(2, "b", TaskStatus::Done);
    assert!(g.are_dependencies_met(3, &tasks));
    // A task with no recorded dependencies is trivially met.
    assert!(g.are_dependencies_met(1, &tasks));
}

#[test]
fn dependency_on_missing_task_is_unmet() {
    let mut g = DependencyGraph::new();
    g.add_dependency(3, 42).unwrap();
    let tasks = vec![task(3, "c", TaskStatus::ToDo)];
    assert!(!g.are_dependencies_met(3, &tasks));
}
