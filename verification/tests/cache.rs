use taskmaster::optimizations::{GlobalCache, TaskCache};
use taskmaster::project::Project;
use taskmaster::task::{Task, TaskPriority, TaskStatus};

fn project(id: u32, name: &str) -> Project {
    Project::new(id, name.to_string())
}

fn task(id: u32, title: &str) -> Task {
    Task::new(id, title.to_string(), TaskStatus::ToDo, TaskPriority::Low)
}

#[test]
fn fresh_entries_are_returned() {
    // One-second time-to-live.
    let mut cache = TaskCache::new(1);
    cache.add_project_at(project(1, "P"), 0);
    let hit = cache.get_project_at(1, 500).unwrap();
    assert_eq!(hit.id, 1);
    assert_eq!(hit.name, "P");
    assert!(cache.get_project_at(9, 500).is_none());
}

#[test]
fn expired_entry_is_absent_and_stays_gone() {
    let mut cache = TaskCache::new(1);
    cache.add_project_at(project(1, "P"), 0);
    // Age reached the time-to-live: absence, never a stale value.
    assert!(cache.get_project_at(1, 1_000).is_none());
    // The read evicted it in place: still absent, even for a fresh query.
    assert!(cache.get_project_at(1, 0).is_none());
}

#[test]
fn freshness_boundary_is_strict() {
    let mut cache = TaskCache::new(1);
    cache.add_project_at(project(1, "P"), 0);
    assert!(cache.get_project_at(1, 999).is_some());
    assert!(cache.get_project_at(1, 1_000).is_none());
}

#[test]
fn task_entries_are_keyed_by_project_and_task() {
    let mut cache = TaskCache::new(1);
    cache.add_task_at(1, task(7, "a"), 0);
    cache.add_task_at(2, task(7, "b"), 0);
    assert_eq!(cache.get_task_at(1, 7, 100).unwrap().title, "a");
    assert_eq!(cache.get_task_at(2, 7, 100).unwrap().title, "b");
    assert!(cache.get_task_at(3, 7, 100).is_none());
    // Expiry evicts in place.
    assert!(cache.get_task_at(1, 7, 5_000).is_none());
    assert!(cache.get_task_at(1, 7, 100).is_none());
    assert_eq!(cache.get_task_at(2, 7, 100).unwrap().title, "b");
}

#[test]
fn replacing_an_entry_renews_it() {
    let mut cache = TaskCache::new(1);
    cache.add_project_at(project(1, "Old"), 0);
    cache.add_project_at(project(1, "New"), 900);
    let hit = cache.get_project_at(1, 1_500).unwrap();
    assert_eq!(hit.name, "New");
}

#[test]
fn cleanup_sweeps_every_stale_entry() {
    let mut cache = TaskCache::new(1);
    cache.add_project_at(project(1, "P1"), 0);
    cache.add_project_at(project(2, "P2"), 900);
    cache.add_task_at(1, task(7, "t"), 0);
    cache.cleanup_expired_at(1_200);
    // The stale project and task are not still present; the fresh one is.
    assert!(cache.get_project_at(1, 1_200).is_none());
    assert!(cache.get_task_at(1, 7, 1_200).is_none());
    assert_eq!(cache.get_project_at(2, 1_200).unwrap().name, "P2");
}

#[test]
fn clear_empties_the_cache() {
    let mut cache = TaskCache::new(10);
    cache.add_project_at(project(1, "P"), 0);
    cache.add_task_at(1, task(7, "t"), 0);
    cache.clear();
    assert!(cache.get_project_at(1, 0).is_none());
    assert!(cache.get_task_at(1, 7, 0).is_none());
}

#[test]
fn shared_cache_round_trip() {
    let shared = GlobalCache::new(3_600);
    shared.add_project(project(4, "Shared")).unwrap();
    let got = shared.get_project(4).unwrap();
    assert_eq!(got.map(|p| p.name), Some("Shared".to_string()));
    shared.clear().unwrap();
    assert!(shared.get_project(4).unwrap().is_none());
}
