use night::event::{Event, EventListener, EventSystem, EventType};
use night::types::TaskStatus;
use uuid::Uuid;

fn id() -> u128 {
    Uuid::new_v4().as_u128()
}

#[test]
fn test_event_subscription() {
    let mut event_system: EventSystem<u32> = EventSystem::new();
    let listener = EventListener::new(EventType::TaskCompleted, None, 0u32);
    let listener_id = event_system.subscribe(listener).unwrap();
    assert_eq!(event_system.listener_count(EventType::TaskCompleted), 1);
    event_system.unsubscribe(listener_id).unwrap();
    assert_eq!(event_system.listener_count(EventType::TaskCompleted), 0);
}

#[test]
fn test_event_publishing() {
    let mut event_system: EventSystem<u32> = EventSystem::new();
    let listener = EventListener::new(EventType::TaskCompleted, None, 100u32);
    event_system.subscribe(listener).unwrap();
    let event = Event::task_completed(id());
    let targets = event_system.interested_listeners(&event);
    assert_eq!(targets, vec![0]);
    assert_eq!(event_system.listener(EventType::TaskCompleted, targets[0]).callback, 100);
}

#[test]
fn subscribe_then_unsubscribe_restores_listeners() {
    let mut system: EventSystem<&str> = EventSystem::new();
    let first = system.subscribe(EventListener::new(EventType::TaskFailed, None, "first")).unwrap();
    let before = system.total_listener_count();
    let second = system.subscribe(EventListener::new(EventType::TaskFailed, Some(3), "second")).unwrap();
    assert_ne!(first, second);
    assert_eq!(system.listener_count(EventType::TaskFailed), 2);
    assert_eq!(system.listener(EventType::TaskFailed, 1).id, second);
    system.unsubscribe(second).unwrap();
    assert_eq!(system.total_listener_count(), before);
    assert_eq!(system.listener(EventType::TaskFailed, 0).id, first);
    system.unsubscribe(id()).unwrap();
    assert_eq!(system.total_listener_count(), before);
}

#[test]
fn listeners_filter_by_kind_and_task() {
    let t1 = id();
    let t2 = id();
    let mut system: EventSystem<u8> = EventSystem::new();
    system.subscribe(EventListener::new(EventType::TaskCompleted, Some(t1), 1)).unwrap();
    system.subscribe(EventListener::new(EventType::TaskCompleted, None, 2)).unwrap();
    system.subscribe(EventListener::new(EventType::TaskCompleted, Some(t2), 3)).unwrap();
    system.subscribe(EventListener::new(EventType::TaskFailed, Some(t1), 4)).unwrap();
    assert_eq!(system.total_listener_count(), 4);
    let e = Event::task_completed(t1);
    assert_eq!(system.interested_listeners(&e), vec![0, 1]);
    let e = Event::task_completed(t2);
    assert_eq!(system.interested_listeners(&e), vec![1, 2]);
    let e = Event::task_failed(t1, "bad".to_string());
    assert_eq!(system.interested_listeners(&e), vec![0]);
    let e = Event::mission_started();
    assert!(system.interested_listeners(&e).is_empty());
}

#[test]
fn listener_without_task_id_on_event_wants_only_unfiltered() {
    let filtered = EventListener::new(EventType::MissionFailed, Some(1), ());
    let open = EventListener::new(EventType::MissionFailed, None, ());
    let e = Event::mission_failed("down".to_string());
    assert!(!filtered.is_interested_in(&e));
    assert!(open.is_interested_in(&e));
    let other = EventListener::new(EventType::MissionCompleted, None, ());
    assert!(!other.is_interested_in(&e));
}

#[test]
fn event_constructors_fill_fields() {
    let t = id();
    let e = Event::task_status_changed(t, TaskStatus::Pending, TaskStatus::Running);
    assert_eq!(e.event_type, EventType::TaskStatusChanged);
    assert_eq!(e.task_id, Some(t));
    assert_eq!(e.previous_status, Some(TaskStatus::Pending));
    assert_eq!(e.new_status, Some(TaskStatus::Running));
    assert!(e.data.is_none());
    let e = Event::task_completed(t);
    assert_eq!((e.previous_status, e.new_status), (Some(TaskStatus::Running), Some(TaskStatus::Completed)));
    let e = Event::task_failed(t, "oops".to_string());
    assert_eq!(e.event_type, EventType::TaskFailed);
    assert_eq!(e.new_status, Some(TaskStatus::Failed));
    assert_eq!(e.data.as_deref(), Some("oops"));
    let e = Event::mission_started();
    assert_eq!((e.event_type, e.task_id, e.new_status), (EventType::MissionStarted, None, None));
    let e = Event::mission_completed();
    assert_eq!(e.event_type, EventType::MissionCompleted);
    let e = Event::mission_failed("x".to_string());
    assert_eq!(e.event_type, EventType::MissionFailed);
    assert_eq!(e.data.as_deref(), Some("x"));
    assert!(e.timestamp > 1_600_000_000_000_000);
    let copy = e.clone();
    assert_eq!(copy.data, e.data);
    assert_eq!(copy.timestamp, e.timestamp);
}

#[test]
fn listener_ids_are_random_uuids() {
    let a = EventListener::new(EventType::TaskCompleted, None, ());
    let b = EventListener::new(EventType::TaskCompleted, None, ());
    assert_ne!(a.id, b.id);
    assert_eq!(Uuid::from_u128(a.id).get_version_num(), 4);
}

#[test]
fn subscriptions_keep_each_callback_with_its_listener() {
    let mut system: EventSystem<&str> = EventSystem::new();
    let a = system.subscribe(EventListener::new(EventType::TaskCompleted, Some(1), "a")).unwrap();
    let b = system.subscribe(EventListener::new(EventType::TaskCompleted, Some(2), "b")).unwrap();
    let c = system.subscribe(EventListener::new(EventType::TaskCompleted, Some(3), "c")).unwrap();
    system.unsubscribe(b).unwrap();
    assert_eq!(system.listener_count(EventType::TaskCompleted), 2);
    let first = system.listener(EventType::TaskCompleted, 0);
    assert_eq!((first.id, first.task_id_filter, first.callback), (a, Some(1), "a"));
    let second = system.listener(EventType::TaskCompleted, 1);
    assert_eq!((second.id, second.task_id_filter, second.callback), (c, Some(3), "c"));
    let targets = system.interested_listeners(&Event::task_completed(3));
    assert_eq!(targets, vec![1]);
    assert_eq!(system.listener(EventType::TaskCompleted, targets[0]).callback, "c");
}
