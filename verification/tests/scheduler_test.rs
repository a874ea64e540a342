use night::task::{SchedulerPhase, SchedulerStep, Task, TaskScheduler};
use night::types::{NightError, TaskConfig};
use std::time::Duration;
use uuid::Uuid;

fn create_test_task(is_periodic: bool, interval: &str) -> Task {
    let config = TaskConfig {
        name: "Test Task".to_string(),
        id: Some(Uuid::new_v4().as_u128()),
        command: "echo Hello".to_string(),
        is_periodic,
        interval: interval.to_string(),
        importance: 1,
        dependencies: vec![],
    };
    let depend = config.dependencies.clone();
    Task::new(config, depend)
}

#[test]
fn test_parse_interval_valid() {
    let task = create_test_task(true, "1000");
    let scheduler = TaskScheduler::new(&task);
    let result = scheduler.parse_interval();
    assert_eq!(Duration::from_millis(result.unwrap()), Duration::from_millis(1000));
}

#[test]
fn test_parse_interval_invalid_non_numeric() {
    let interval_str = "abc";
    let task = create_test_task(true, interval_str);
    let scheduler = TaskScheduler::new(&task);
    let result = scheduler.parse_interval();
    assert!(result.is_err());
    match result.err().unwrap() {
        NightError::Task(msg) => assert_eq!(msg, format!("Invalid interval format: '{}'", interval_str)),
        _ => panic!("Expected NightError::Task"),
    }
}

#[test]
fn test_parse_interval_empty() {
    let interval_str = "";
    let task = create_test_task(true, interval_str);
    let scheduler = TaskScheduler::new(&task);
    let result = scheduler.parse_interval();
    assert!(result.is_err());
    match result.err().unwrap() {
        NightError::Task(msg) => assert_eq!(msg, format!("Invalid interval format: '{}'", interval_str)),
        _ => panic!("Expected NightError::Task"),
    }
}

#[test]
fn parse_interval_accepts_plus_sign_and_max() {
    let task = create_test_task(true, "+250");
    assert_eq!(TaskScheduler::new(&task).parse_interval().unwrap(), 250);
    let task = create_test_task(true, "18446744073709551615");
    assert_eq!(TaskScheduler::new(&task).parse_interval().unwrap(), u64::MAX);
}

#[test]
fn parse_interval_rejects_overflow_sign_and_spaces() {
    for bad in ["18446744073709551616", "-1", "+", " 10", "1.5"] {
        let task = create_test_task(true, bad);
        match TaskScheduler::new(&task).parse_interval() {
            Err(NightError::Task(msg)) => assert_eq!(msg, format!("Invalid interval format: '{}'", bad)),
            _ => panic!("expected an interval error for {:?}", bad),
        }
    }
}

#[test]
fn task_parse_interval_has_plain_message() {
    let task = create_test_task(true, "soon");
    match task.parse_interval() {
        Err(NightError::Task(msg)) => assert_eq!(msg, "Invalid interval format"),
        _ => panic!("expected an interval error"),
    }
    let task = create_test_task(true, "42");
    assert_eq!(task.parse_interval().unwrap(), 42);
}

#[test]
fn one_off_task_runs_once_and_finishes() {
    let task = create_test_task(false, "0");
    let scheduler = TaskScheduler::new(&task);
    assert_eq!(scheduler.next_step(SchedulerPhase::Starting, true), SchedulerStep::RunOnceAndFinish);
    assert_eq!(scheduler.next_step(SchedulerPhase::Starting, false), SchedulerStep::RunOnceAndFinish);
}

#[test]
fn periodic_task_runs_then_ticks_until_stopped() {
    let task = create_test_task(true, "100");
    let scheduler = TaskScheduler::new(&task);
    assert_eq!(scheduler.next_step(SchedulerPhase::Starting, true), SchedulerStep::Run);
    assert_eq!(scheduler.next_step(SchedulerPhase::Starting, false), SchedulerStep::Finish);
    assert_eq!(scheduler.next_step(SchedulerPhase::FirstRunDone, true), SchedulerStep::StartTimer);
    assert_eq!(scheduler.next_step(SchedulerPhase::Ticked, true), SchedulerStep::Run);
    assert_eq!(scheduler.next_step(SchedulerPhase::Ticked, false), SchedulerStep::Finish);
}
