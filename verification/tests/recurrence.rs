use taskmaster::periodic_tasks::{PeriodicTask, PeriodicTaskScheduler, RecurrencePattern};
use taskmaster::task::{Task, TaskPriority, TaskStatus};

const DAY_MS: u64 = 86_400_000;

fn template(id: u32, title: &str) -> Task {
    Task::new(id, title.to_string(), TaskStatus::ToDo, TaskPriority::Medium)
}

#[test]
fn pattern_periods_are_fixed_durations() {
    assert_eq!(RecurrencePattern::Daily.period_millis(), DAY_MS);
    assert_eq!(RecurrencePattern::Weekly.period_millis(), 7 * DAY_MS);
    // Monthly is a calendar-naive thirty-day approximation.
    assert_eq!(RecurrencePattern::Monthly.period_millis(), 30 * DAY_MS);
    assert_eq!(RecurrencePattern::Custom(12 * 3_600_000).period_millis(), 43_200_000);
    assert_eq!(RecurrencePattern::Daily.get_next_occurrence(1_000), 1_000 + DAY_MS);
    // A next occurrence past the largest representable instant clamps.
    assert_eq!(RecurrencePattern::Daily.get_next_occurrence(u64::MAX - 5), u64::MAX);
}

#[test]
fn daily_generation_advances_schedule_and_derives_ids() {
    let start: u64 = 1_000;
    let mut pt = PeriodicTask::new_at(1, template(5, "Standup"), RecurrencePattern::Daily, start);
    assert_eq!(pt.created_at, start);
    assert_eq!(pt.next_run, start + DAY_MS);
    assert_eq!(pt.occurrences, 0);
    assert!(pt.last_run.is_none());
    assert!(!pt.is_due_at(start));
    assert!(pt.is_due_at(start + DAY_MS));

    // First generation at instant T: next run lands at T + 24h,
    // occurrence 1, derived identifier template * 1000 + 1.
    let t_one = start + DAY_MS;
    let one = pt.generate_task_at(t_one, "2024-03-01");
    assert_eq!(pt.occurrences, 1);
    assert_eq!(pt.last_run, Some(t_one));
    assert_eq!(pt.next_run, t_one + DAY_MS);
    assert_eq!(one.id, 5_001);
    assert_eq!(one.title, "Standup (#1 on 2024-03-01)");
    assert!(matches!(one.status, TaskStatus::ToDo));
    assert!(matches!(one.priority, TaskPriority::Medium));
    assert!(one.dependencies.is_none());

    // A second generation at the scheduled instant: occurrence 2, a
    // distinct derived identifier.
    let t_two = pt.next_run;
    let two = pt.generate_task_at(t_two, "2024-03-02");
    assert_eq!(pt.occurrences, 2);
    assert_eq!(pt.next_run, t_two + DAY_MS);
    assert_eq!(two.id, 5_002);
    assert_ne!(one.id, two.id);
    assert_eq!(two.title, "Standup (#2 on 2024-03-02)");
}

#[test]
fn scheduler_visits_due_tasks_in_insertion_order() {
    let mut sched = PeriodicTaskScheduler::new();
    sched.add_task(PeriodicTask::new_at(1, template(100, "Weekly"), RecurrencePattern::Weekly, 0));
    sched.add_task(PeriodicTask::new_at(2, template(200, "Daily"), RecurrencePattern::Daily, 0));
    sched.add_task(
        PeriodicTask::new_at(3, template(300, "Backup"), RecurrencePattern::Custom(1_000), 0),
    );
    // Only the custom and daily tasks are due within two days.
    let due = sched.get_due_tasks_at(2 * DAY_MS);
    let due_ids: Vec<u32> = due.iter().map(|p| p.id).collect();
    assert_eq!(due_ids, vec![2, 3]);
    let batch = sched.generate_due_tasks_at(2 * DAY_MS, "2024-03-03");
    let ids: Vec<u32> = batch.iter().map(|t| t.id).collect();
    assert_eq!(ids, vec![200_001, 300_001]);
    // The weekly task was untouched.
    assert_eq!(sched.get_task(1).unwrap().occurrences, 0);
    assert_eq!(sched.get_task(2).unwrap().occurrences, 1);
    // Generation moved the due tasks past the sweep instant.
    assert!(sched.get_due_tasks_at(2 * DAY_MS).is_empty());
}

#[test]
fn scheduler_lookup_and_removal() {
    let mut sched = PeriodicTaskScheduler::new();
    sched.add_task(PeriodicTask::new_at(1, template(10, "A"), RecurrencePattern::Daily, 0));
    sched.add_task(PeriodicTask::new_at(2, template(20, "B"), RecurrencePattern::Daily, 0));
    assert_eq!(sched.get_all_tasks().len(), 2);
    assert_eq!(sched.get_task(2).unwrap().template.id, 20);
    assert!(sched.get_task(9).is_none());
    assert!(sched.set_next_run(2, 5));
    assert_eq!(sched.get_task(2).unwrap().next_run, 5);
    assert!(!sched.set_next_run(9, 5));
    let removed = sched.remove_task(1).unwrap();
    assert_eq!(removed.id, 1);
    assert!(sched.remove_task(1).is_none());
    assert_eq!(sched.get_all_tasks().len(), 1);
}

#[test]
fn forced_due_tasks_generate_like_the_original_flow() {
    // Force every task due by moving its next run into the past, then
    // generate: every task yields exactly one occurrence.
    let mut sched = PeriodicTaskScheduler::new();
    for id in 1..=3u32 {
        sched.add_task(
            PeriodicTask::new_at(id, template(id * 100, "T"), RecurrencePattern::Weekly, 1_000),
        );
    }
    for id in 1..=3u32 {
        assert!(sched.set_next_run(id, 999));
    }
    let batch = sched.generate_due_tasks_at(1_000, "2024-03-04");
    assert_eq!(batch.len(), 3);
    for pt in sched.get_all_tasks() {
        assert_eq!(pt.occurrences, 1);
        assert!(pt.next_run > 1_000);
    }
}
