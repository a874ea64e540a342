use night::event::{Event, EventType};
use night::task::{Readiness, Task};
use night::types::{DependencyState, TaskConfig, TaskStatus};
use uuid::Uuid;

fn config(id: u128, deps: Vec<u128>, is_periodic: bool) -> TaskConfig {
    TaskConfig {
        name: "Worker".to_string(),
        id: Some(id),
        command: "true".to_string(),
        is_periodic,
        interval: "100".to_string(),
        importance: 2,
        dependencies: deps,
    }
}

fn id() -> u128 {
    Uuid::new_v4().as_u128()
}

#[test]
fn new_task_is_pending_runnable_and_waits_for_all_dependencies() {
    let (me, d1, d2, follower) = (id(), id(), id(), id());
    let t = Task::new(config(me, vec![d1, d2], false), vec![follower]);
    assert_eq!(t.status, TaskStatus::Pending);
    assert!(t.should_run());
    assert_eq!(t.get_execution_order(), None);
    assert_eq!(t.dependent_tasks, vec![follower]);
    assert_eq!(t.dependency_status.len(), 2);
    assert_eq!(t.dependency_status[&d1], DependencyState::Pending);
    assert!(!t.can_start());
    assert_eq!(t.readiness(), Readiness::Wait);
}

#[test]
fn task_without_dependencies_can_start() {
    let t = Task::new(config(id(), vec![], false), vec![]);
    assert!(t.can_start());
    assert_eq!(t.readiness(), Readiness::Proceed);
}

#[test]
fn dependency_events_update_state_and_wake() {
    let (me, dep, other) = (id(), id(), id());
    let mut t = Task::new(config(me, vec![dep], false), vec![]);
    assert!(!t.apply_dependency_event(dep, &Event::task_completed(other)));
    assert!(!t.apply_dependency_event(dep, &Event::task_status_changed(dep, TaskStatus::Pending, TaskStatus::Running)));
    assert!(!t.apply_dependency_event(other, &Event::task_completed(other)));
    assert_eq!(t.dependency_status[&dep], DependencyState::Pending);
    assert!(t.apply_dependency_event(dep, &Event::task_completed(dep)));
    assert_eq!(t.dependency_status[&dep], DependencyState::Completed);
    assert!(t.apply_dependency_event(dep, &Event::task_completed(dep)));
    assert_eq!(t.readiness(), Readiness::Proceed);
    assert!(t.apply_dependency_event(dep, &Event::task_failed(dep, "no".to_string())));
    assert_eq!(t.dependency_status[&dep], DependencyState::Failed);
    assert!(!t.can_start());
}

#[test]
fn failed_dependency_blocks_start_even_when_others_completed() {
    let (me, a, b) = (id(), id(), id());
    let mut t = Task::new(config(me, vec![a, b], false), vec![]);
    t.set_dependency_status(a, DependencyState::Completed);
    t.set_dependency_status(b, DependencyState::Failed);
    assert!(!t.can_start());
    t.set_dependency_status(b, DependencyState::Completed);
    assert!(t.can_start());
    t.set_dependency_status(id(), DependencyState::Failed);
    assert_eq!(t.dependency_status.len(), 2);
    assert!(t.can_start());
}

#[test]
fn stopped_task_reports_stop() {
    let mut t = Task::new(config(id(), vec![], false), vec![]);
    t.set_execution_lock(false);
    assert!(!t.should_run());
    assert_eq!(t.readiness(), Readiness::Stop);
}

#[test]
fn successful_one_off_run_completes() {
    let me = id();
    let mut t = Task::new(config(me, vec![], false), vec![]);
    let e = t.begin_run(3, 100);
    assert_eq!(e.event_type, EventType::TaskStatusChanged);
    assert_eq!((e.previous_status, e.new_status), (Some(TaskStatus::Pending), Some(TaskStatus::Running)));
    assert_eq!(t.get_execution_order(), Some(3));
    let events = t.finish_run(true, 250);
    assert_eq!(events.len(), 2);
    assert_eq!(events[0].event_type, EventType::TaskStatusChanged);
    assert_eq!((events[0].previous_status, events[0].new_status), (Some(TaskStatus::Running), Some(TaskStatus::Completed)));
    assert_eq!(events[1].event_type, EventType::TaskCompleted);
    assert_eq!(events[1].task_id, Some(me));
    let info = t.get_info();
    assert_eq!(info.id, me);
    assert_eq!(info.status, TaskStatus::Completed);
    assert_eq!((info.start_time, info.end_time, info.execution_order), (Some(100), Some(250), Some(3)));
}

#[test]
fn failed_run_fails_and_reports_name() {
    let me = id();
    let mut t = Task::new(config(me, vec![], false), vec![]);
    t.begin_run(0, 1);
    let events = t.finish_run(false, 2);
    assert_eq!(t.status, TaskStatus::Failed);
    assert_eq!(events.len(), 2);
    assert_eq!(events[1].event_type, EventType::TaskFailed);
    assert_eq!(events[1].data.as_deref(), Some("Task Worker failed"));
}

#[test]
fn periodic_run_keeps_status() {
    let mut t = Task::new(config(id(), vec![], true), vec![]);
    t.begin_run(0, 1);
    let events = t.finish_run(true, 2);
    assert!(events.is_empty());
    assert_eq!(t.status, TaskStatus::Running);
    assert_eq!(t.end_time, Some(2));
}

#[test]
fn notify_completion_follows_status() {
    let me = id();
    let mut t = Task::new(config(me, vec![], false), vec![]);
    assert!(t.notify_completion().is_none());
    t.set_status_external(TaskStatus::Completed);
    let e = t.notify_completion().unwrap();
    assert_eq!(e.event_type, EventType::TaskCompleted);
    let e = t.set_status_external(TaskStatus::Failed);
    assert_eq!((e.previous_status, e.new_status), (Some(TaskStatus::Completed), Some(TaskStatus::Failed)));
    let e = t.notify_completion().unwrap();
    assert_eq!(e.event_type, EventType::TaskFailed);
    assert_eq!(e.data.as_deref(), Some("Task Worker failed"));
}

#[test]
fn dependency_subscriptions_pair_completion_and_failure() {
    let (a, b) = (id(), id());
    let t = Task::new(config(id(), vec![a, b], false), vec![]);
    assert_eq!(
        t.dependency_subscriptions(),
        vec![
            (EventType::TaskCompleted, a),
            (EventType::TaskFailed, a),
            (EventType::TaskCompleted, b),
            (EventType::TaskFailed, b),
        ]
    );
}
