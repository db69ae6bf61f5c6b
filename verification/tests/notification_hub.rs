use taskmaster::async_executor::TaskEvent;
use taskmaster::notification::NotificationSystem;

#[test]
fn callbacks_keep_registration_order_and_last_wins() {
    let mut hub = NotificationSystem::new();
    hub.register_callback("log");
    hub.register_callback("audit");
    // Re-registering keeps the original position; the surrounding program
    // replaces the callback the name maps to.
    hub.register_callback("log");
    let names = hub.callback_names();
    assert_eq!(names, vec!["log".to_string(), "audit".to_string()]);
    assert!(hub.unregister_callback("log"));
    assert!(!hub.unregister_callback("log"));
    assert_eq!(hub.callback_names(), vec!["audit".to_string()]);
}

#[test]
fn every_event_goes_to_every_callback_in_order() {
    let mut hub = NotificationSystem::new();
    hub.register_callback("first");
    hub.register_callback("second");
    let deliveries = hub.handle_event(&TaskEvent::Started { task_id: 1 });
    assert_eq!(deliveries, vec!["first".to_string(), "second".to_string()]);
}

#[test]
fn deadline_fires_exactly_one_timeout() {
    let mut hub = NotificationSystem::new();
    hub.register_callback("watch");
    hub.track_deadline(8, 100);
    // Before the deadline, a tick synthesizes nothing.
    assert!(hub.handle_tick(50).is_empty());
    // At the deadline, exactly one synthetic timeout for the task.
    let fired = hub.handle_tick(100);
    assert_eq!(fired.len(), 1);
    assert!(matches!(fired[0], TaskEvent::Timeout { task_id: 8 }));
    // Delivered at most once: later ticks stay silent.
    assert!(hub.handle_tick(500).is_empty());
}

#[test]
fn completed_before_deadline_suppresses_the_timeout() {
    let mut hub = NotificationSystem::new();
    hub.register_callback("watch");
    hub.track_deadline(7, 100);
    let deliveries = hub.handle_event(&TaskEvent::Completed { task_id: 7 });
    assert_eq!(deliveries, vec!["watch".to_string()]);
    // The deadline was dropped proactively: no synthetic timeout, ever.
    assert!(hub.handle_tick(100).is_empty());
    assert!(hub.handle_tick(10_000).is_empty());
}

#[test]
fn other_events_leave_deadlines_tracked() {
    let mut hub = NotificationSystem::new();
    hub.track_deadline(7, 100);
    hub.handle_event(&TaskEvent::Started { task_id: 7 });
    hub.handle_event(&TaskEvent::Completed { task_id: 99 });
    let fired = hub.handle_tick(200);
    assert_eq!(fired.len(), 1);
    assert!(matches!(fired[0], TaskEvent::Timeout { task_id: 7 }));
}

#[test]
fn multiple_deadlines_fire_in_tracking_order() {
    let mut hub = NotificationSystem::new();
    hub.track_deadline(1, 100);
    hub.track_deadline(2, 50);
    hub.track_deadline(3, 500);
    let fired = hub.handle_tick(120);
    assert_eq!(fired.len(), 2);
    assert!(matches!(fired[0], TaskEvent::Timeout { task_id: 1 }));
    assert!(matches!(fired[1], TaskEvent::Timeout { task_id: 2 }));
    let later = hub.handle_tick(500);
    assert_eq!(later.len(), 1);
    assert!(matches!(later[0], TaskEvent::Timeout { task_id: 3 }));
}

#[test]
fn retracking_moves_a_deadline() {
    let mut hub = NotificationSystem::new();
    hub.track_deadline(4, 100);
    hub.track_deadline(4, 1_000);
    assert!(hub.handle_tick(100).is_empty());
    let fired = hub.handle_tick(1_000);
    assert_eq!(fired.len(), 1);
    assert!(matches!(fired[0], TaskEvent::Timeout { task_id: 4 }));
}
