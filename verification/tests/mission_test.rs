use night::event::{Event, EventType};
use night::mission::Mission;
use night::types::{MissionConfig, NightError, TaskConfig, TaskStatus};
use std::collections::HashMap;
use uuid::Uuid;

fn task(name: &str, id: u128, deps: Vec<u128>, is_periodic: bool, interval: &str) -> TaskConfig {
    TaskConfig {
        name: name.to_string(),
        id: Some(id),
        command: format!("echo {}", name),
        is_periodic,
        interval: interval.to_string(),
        importance: 1,
        dependencies: deps,
    }
}

fn ids(names: &[char]) -> HashMap<char, u128> {
    names.iter().map(|&c| (c, Uuid::new_v4().as_u128())).collect()
}

fn complex_config() -> (MissionConfig, HashMap<char, u128>) {
    let t = ids(&['A', 'B', 'C', 'D', 'E']);
    let tasks = vec![
        task("Task A", t[&'A'], vec![], false, "1"),
        task("Task B", t[&'B'], vec![t[&'A']], false, "1"),
        task("Task C", t[&'C'], vec![t[&'B'], t[&'E']], false, "1"),
        task("Task D", t[&'D'], vec![t[&'C']], false, "1"),
        task("Task E", t[&'E'], vec![t[&'A']], false, "1"),
    ];
    (MissionConfig { name: "Complex Test Mission".to_string(), tasks }, t)
}

fn chained_config() -> (MissionConfig, HashMap<char, u128>) {
    let t = ids(&['A', 'B', 'C', 'D']);
    let tasks = vec![
        task("Task A", t[&'A'], vec![], false, "1"),
        task("Task B", t[&'B'], vec![t[&'A']], false, "1"),
        task("Task C", t[&'C'], vec![t[&'B']], false, "1"),
        task("Task D", t[&'D'], vec![t[&'C']], false, "1"),
    ];
    (MissionConfig { name: "Chained Dependency Mission".to_string(), tasks }, t)
}

fn fan_out_config() -> (MissionConfig, HashMap<char, u128>) {
    let t = ids(&['A', 'B', 'C', 'D']);
    let tasks = vec![
        task("Task A", t[&'A'], vec![], false, "1"),
        task("Task B", t[&'B'], vec![t[&'A']], false, "1"),
        task("Task C", t[&'C'], vec![t[&'A']], false, "1"),
        task("Task D", t[&'D'], vec![t[&'A']], false, "1"),
    ];
    (MissionConfig { name: "Fan-out Dependency Mission".to_string(), tasks }, t)
}

fn fan_in_config() -> (MissionConfig, HashMap<char, u128>) {
    let t = ids(&['A', 'B', 'C']);
    let tasks = vec![
        task("Task A", t[&'A'], vec![], false, "1"),
        task("Task B", t[&'B'], vec![], false, "1"),
        task("Task C", t[&'C'], vec![t[&'A'], t[&'B']], false, "1"),
    ];
    (MissionConfig { name: "Fan-in Dependency Mission".to_string(), tasks }, t)
}

fn simple_a_b_config() -> (MissionConfig, HashMap<char, u128>) {
    let t = ids(&['A', 'B']);
    let tasks = vec![
        task("Task A", t[&'A'], vec![], false, "1"),
        task("Task B", t[&'B'], vec![t[&'A']], false, "1"),
    ];
    (MissionConfig { name: "Simple A B Mission".to_string(), tasks }, t)
}

/// Hands `event` to every task that follows the task it concerns, as the
/// dependency listeners do.
fn deliver(mission: &mut Mission, all: &[u128], event: &Event) -> Vec<u128> {
    let mut woken = Vec::new();
    for &t in all {
        let subs = mission.task(t).unwrap().dependency_subscriptions();
        for (kind, dep) in subs {
            if kind == event.event_type && event.task_id == Some(dep) {
                if mission.apply_dependency_event(t, dep, event) {
                    woken.push(t);
                }
            }
        }
    }
    woken
}

/// Runs one task if it may run: begins it, ends it with `succeeded`, and
/// delivers the events it reports.
fn run_one(mission: &mut Mission, all: &[u128], id: u128, order: &mut usize, succeeded: bool) -> bool {
    let start = 1_000 + *order as i64;
    match mission.begin_task_run(id, start) {
        None => false,
        Some(e) => {
            *order += 1;
            deliver(mission, all, &e);
            let events = mission.finish_task_run(id, succeeded, start + 500);
            for e in &events {
                deliver(mission, all, e);
            }
            true
        }
    }
}

/// Runs the mission level by level; the tasks in `failing` fail.
fn run_mission(mission: &mut Mission, failing: &[u128]) -> usize {
    let all: Vec<u128> = mission.config().tasks.iter().map(|t| t.id.unwrap()).collect();
    let plan = mission.execution_plan().unwrap();
    let mut order = 0usize;
    for level in plan {
        for id in level {
            run_one(mission, &all, id, &mut order, !failing.contains(&id));
        }
    }
    order
}

fn status(mission: &Mission, id: u128) -> TaskStatus {
    mission.get_task_info(id).unwrap().status
}

#[test]
fn test_mission_creation() {
    let (config, _) = simple_a_b_config();
    let mission = Mission::new(config);
    assert!(mission.is_ok());
}

#[test]
fn mission_test_stop_task() {
    let (config, _) = simple_a_b_config();
    let mut mission = Mission::new(config).unwrap();
    let task_id = mission.config().tasks[0].id.expect("Test task should have an ID");
    let result = mission.stop_task(task_id);
    assert!(result.is_ok());
    let task_info = mission.get_task_info(task_id).unwrap();
    assert_eq!(task_info.status, TaskStatus::Pending);
}

#[test]
fn test_mission_initialization() {
    let (config, _) = complex_config();
    let mission = Mission::new(config).unwrap();
    assert_eq!(mission.config().name, "Complex Test Mission");
    assert_eq!(mission.config().tasks.len(), 5);
}

#[test]
fn integration_test_test_mission_execution() {
    let (config, t) = complex_config();
    let mut mission = Mission::new(config).unwrap();
    run_mission(&mut mission, &[]);
    for c in ['A', 'B', 'C', 'D', 'E'] {
        assert_eq!(status(&mission, t[&c]), TaskStatus::Completed, "Task {} did not complete", c);
    }
    let order = |c: char| mission.get_task_info(t[&c]).unwrap().execution_order.unwrap_or(0);
    assert!(order('A') < order('B'), "A before B");
    assert!(order('A') < order('E'), "A before E");
    assert!(order('B') < order('C'), "B before C");
    assert!(order('E') < order('C'), "E before C");
    assert!(order('C') < order('D'), "C before D");
}

#[test]
fn test_failing_task() {
    let t = ids(&['A', 'B', 'C']);
    let tasks = vec![
        task("Task A", t[&'A'], vec![], false, "1"),
        task("Failing Task B", t[&'B'], vec![t[&'A']], false, "1"),
        task("Task C", t[&'C'], vec![t[&'A'], t[&'B']], false, "1"),
    ];
    let config = MissionConfig { name: "Failing Task Mission".to_string(), tasks };
    let mut mission = Mission::new(config).unwrap();
    run_mission(&mut mission, &[t[&'B']]);
    assert_eq!(status(&mission, t[&'A']), TaskStatus::Completed, "Task A should complete");
    assert_eq!(status(&mission, t[&'B']), TaskStatus::Failed, "Task B should fail");
    assert_eq!(status(&mission, t[&'C']), TaskStatus::Pending, "Task C should be Pending");
}

#[test]
fn integration_test_test_stop_task() {
    let (config, t) = complex_config();
    let mut mission = Mission::new(config).unwrap();
    run_mission(&mut mission, &[]);
    mission.stop_task(t[&'B']).unwrap();
    assert_eq!(status(&mission, t[&'A']), TaskStatus::Completed, "Task A should complete");
    assert_eq!(status(&mission, t[&'B']), TaskStatus::Pending, "Task B should be Pending");
    assert_eq!(status(&mission, t[&'C']), TaskStatus::Pending, "Task C should be Pending");
    assert_eq!(status(&mission, t[&'D']), TaskStatus::Pending, "Task D should be Pending");
    assert_eq!(status(&mission, t[&'E']), TaskStatus::Completed, "Task E should complete");
}

#[test]
fn test_task_info_retrieval() {
    let (config, _) = complex_config();
    let mut mission = Mission::new(config).unwrap();
    run_mission(&mut mission, &[]);
    let all_info = mission.get_all_task_info();
    assert_eq!(all_info.len(), 5, "Should have info for all 5 tasks");
    for (id, info) in all_info {
        assert_eq!(info.id, id);
        assert_eq!(info.status, TaskStatus::Completed, "All tasks should be completed");
        assert!(info.start_time.is_some() && info.end_time.is_some() && info.execution_order.is_some());
    }
}

#[test]
fn test_stop_task_with_chained_dependencies() {
    let (config, t) = chained_config();
    let mut mission = Mission::new(config).unwrap();
    let all: Vec<u128> = ['A', 'B', 'C', 'D'].iter().map(|c| t[c]).collect();
    let mut order = 0usize;
    let e = mission.begin_task_run(t[&'A'], 10).unwrap();
    order += 1;
    deliver(&mut mission, &all, &e);
    let events = mission.stop_task(t[&'A']).unwrap();
    assert_eq!(events.len(), 4);
    let ended = mission.finish_task_run(t[&'A'], true, 20);
    assert!(ended.is_empty());
    for c in ['A', 'B', 'C', 'D'] {
        assert_eq!(status(&mission, t[&c]), TaskStatus::Pending, "Task {} should be Pending", c);
    }
    for c in ['B', 'C', 'D'] {
        assert!(!run_one(&mut mission, &all, t[&c], &mut order, true));
    }
    for c in ['A', 'B', 'C', 'D'] {
        assert_eq!(status(&mission, t[&c]), TaskStatus::Pending, "Task {} should remain Pending", c);
    }
}

#[test]
fn test_stop_task_with_fan_out_dependencies() {
    let (config, t) = fan_out_config();
    let mut mission = Mission::new(config).unwrap();
    mission.stop_task(t[&'A']).unwrap();
    run_mission(&mut mission, &[]);
    for c in ['A', 'B', 'C', 'D'] {
        assert_eq!(status(&mission, t[&c]), TaskStatus::Pending, "Task {} should be Pending", c);
    }
}

#[test]
fn test_stop_task_with_fan_in_dependencies() {
    let (config, t) = fan_in_config();
    let mut mission = Mission::new(config).unwrap();
    mission.stop_task(t[&'A']).unwrap();
    run_mission(&mut mission, &[]);
    assert_eq!(status(&mission, t[&'A']), TaskStatus::Pending, "Part 1: Task A Pending");
    assert_eq!(status(&mission, t[&'B']), TaskStatus::Completed, "Part 1: Task B Completed");
    assert_eq!(status(&mission, t[&'C']), TaskStatus::Pending, "Part 1: Task C Pending (A stopped)");
    mission.stop_task(t[&'B']).unwrap();
    assert_eq!(status(&mission, t[&'B']), TaskStatus::Pending, "Part 2: Task B Pending after stop");
    assert_eq!(status(&mission, t[&'C']), TaskStatus::Pending, "Part 2: Task C still Pending");
}

#[test]
fn test_stop_periodic_task_preventing_dependent_normal_task() {
    let t = ids(&['A', 'B']);
    let tasks = vec![
        task("Periodic Task A", t[&'A'], vec![], true, "100"),
        task("Normal Task B", t[&'B'], vec![t[&'A']], false, "1"),
    ];
    let config = MissionConfig { name: "Periodic A Normal B Mission".to_string(), tasks };
    let mut mission = Mission::new(config).unwrap();
    let all = vec![t[&'A'], t[&'B']];
    mission.begin_task_run(t[&'A'], 1).unwrap();
    mission.stop_task(t[&'A']).unwrap();
    let mut order = 1usize;
    assert!(!run_one(&mut mission, &all, t[&'B'], &mut order, true));
    assert_eq!(status(&mission, t[&'A']), TaskStatus::Pending, "Periodic A should be Pending");
    assert_eq!(status(&mission, t[&'B']), TaskStatus::Pending, "Normal B should be Pending");
}

#[test]
fn test_stop_completed_task_and_dependent_tasks() {
    let (config, t) = simple_a_b_config();
    let mut mission = Mission::new(config).unwrap();
    run_mission(&mut mission, &[]);
    assert_eq!(status(&mission, t[&'A']), TaskStatus::Completed, "A completed");
    assert_eq!(status(&mission, t[&'B']), TaskStatus::Completed, "B completed");
    mission.stop_task(t[&'A']).unwrap();
    assert_eq!(status(&mission, t[&'A']), TaskStatus::Pending, "A Pending after stop");
    assert_eq!(status(&mission, t[&'B']), TaskStatus::Pending, "B Pending after A stopped");
}

#[test]
fn test_stop_non_existent_task() {
    let (config, _) = complex_config();
    let mut mission = Mission::new(config).unwrap();
    let non_existent_task_id = Uuid::new_v4().as_u128();
    let result = mission.stop_task(non_existent_task_id);
    assert!(result.is_err(), "Stopping non-existent task should err.");
    if let Err(NightError::Mission(msg)) = result {
        assert!(msg.contains("not found"), "Error message should indicate task not found.");
        assert_eq!(msg, format!("Task {} not found", Uuid::from_u128(non_existent_task_id)));
    } else {
        panic!("Expected NightError::Mission, got {:?}", result);
    }
}

#[test]
fn stop_events_report_each_stopped_task() {
    let (config, t) = complex_config();
    let mut mission = Mission::new(config).unwrap();
    let events = mission.stop_task(t[&'B']).unwrap();
    assert_eq!(events[0].task_id, Some(t[&'B']));
    assert_eq!(events[0].previous_status, Some(TaskStatus::Pending));
    let reported: std::collections::HashSet<u128> = events.iter().map(|e| e.task_id.unwrap()).collect();
    let expected: std::collections::HashSet<u128> = [t[&'B'], t[&'C'], t[&'D']].into_iter().collect();
    assert_eq!(reported, expected);
    for e in &events {
        assert_eq!(e.event_type, EventType::TaskStatusChanged);
        assert_eq!(e.new_status, Some(TaskStatus::Pending));
        assert!(e.data.is_none());
    }
}

#[test]
fn run_positions_are_fresh_and_increasing() {
    let (config, t) = complex_config();
    let mut mission = Mission::new(config).unwrap();
    assert_eq!(mission.next_execution_order(), 0);
    run_mission(&mut mission, &[]);
    assert_eq!(mission.next_execution_order(), 5);
    let mut orders: Vec<usize> = ['A', 'B', 'C', 'D', 'E']
        .iter()
        .map(|c| mission.get_task_info(t[c]).unwrap().execution_order.unwrap())
        .collect();
    orders.sort();
    assert_eq!(orders, vec![0, 1, 2, 3, 4]);
    mission.stop_task(t[&'A']).unwrap();
    assert_eq!(mission.next_execution_order(), 5);
}

#[test]
fn stopping_twice_changes_nothing_more() {
    let (config, t) = complex_config();
    let mut mission = Mission::new(config).unwrap();
    run_mission(&mut mission, &[]);
    mission.stop_task(t[&'E']).unwrap();
    let once = mission.get_all_task_info();
    mission.stop_task(t[&'E']).unwrap();
    let twice = mission.get_all_task_info();
    assert_eq!(once, twice);
    for c in ['C', 'D', 'E'] {
        assert!(!mission.task(t[&c]).unwrap().should_run());
    }
    for c in ['A', 'B'] {
        assert!(mission.task(t[&c]).unwrap().should_run());
    }
}

#[test]
fn stopped_running_task_is_not_completed_by_its_run() {
    let (config, t) = simple_a_b_config();
    let mut mission = Mission::new(config).unwrap();
    let e = mission.begin_task_run(t[&'A'], 5).unwrap();
    assert_eq!(e.new_status, Some(TaskStatus::Running));
    assert_eq!(status(&mission, t[&'A']), TaskStatus::Running);
    mission.stop_task(t[&'A']).unwrap();
    let events = mission.finish_task_run(t[&'A'], true, 9);
    assert!(events.is_empty());
    let info = mission.get_task_info(t[&'A']).unwrap();
    assert_eq!(info.status, TaskStatus::Pending);
    assert_eq!(info.start_time, Some(5));
    assert_eq!(info.end_time, Some(9));
    assert_eq!(info.execution_order, Some(0));
    assert!(mission.begin_task_run(t[&'A'], 10).is_none());
}

#[test]
fn stopped_dependency_is_pending_again_for_its_dependents() {
    let (config, t) = simple_a_b_config();
    let mut mission = Mission::new(config).unwrap();
    run_mission(&mut mission, &[]);
    let b = mission.task(t[&'B']).unwrap();
    assert!(b.can_start());
    mission.stop_task(t[&'A']).unwrap();
    let b = mission.task(t[&'B']).unwrap();
    assert!(!b.can_start());
    assert!(!b.should_run());
}

#[test]
fn task_waits_until_every_dependency_completed() {
    let (config, t) = complex_config();
    let mut mission = Mission::new(config).unwrap();
    assert!(mission.begin_task_run(t[&'B'], 1).is_none());
    assert_eq!(status(&mission, t[&'B']), TaskStatus::Pending);
    let all: Vec<u128> = ['A', 'B', 'C', 'D', 'E'].iter().map(|c| t[c]).collect();
    let mut order = 0usize;
    assert!(run_one(&mut mission, &all, t[&'A'], &mut order, true));
    assert!(run_one(&mut mission, &all, t[&'B'], &mut order, true));
    assert!(!run_one(&mut mission, &all, t[&'C'], &mut order, true));
    assert!(run_one(&mut mission, &all, t[&'E'], &mut order, true));
    assert!(run_one(&mut mission, &all, t[&'C'], &mut order, true));
}

#[test]
fn unknown_task_operations_leave_mission_alone() {
    let (config, _) = simple_a_b_config();
    let mut mission = Mission::new(config).unwrap();
    let before = mission.get_all_task_info();
    let stranger = Uuid::new_v4().as_u128();
    assert!(mission.begin_task_run(stranger, 1).is_none());
    assert!(mission.finish_task_run(stranger, true, 2).is_empty());
    assert!(!mission.apply_dependency_event(stranger, stranger, &Event::task_completed(stranger)));
    assert!(mission.task(stranger).is_none());
    match mission.get_task_info(stranger) {
        Err(NightError::Mission(m)) => assert_eq!(m, format!("Task {} not found", Uuid::from_u128(stranger))),
        _ => panic!("expected an unknown-task error"),
    }
    assert_eq!(before, mission.get_all_task_info());
}

#[test]
fn fresh_mission_lists_dependents_of_each_task() {
    let (config, t) = complex_config();
    let mission = Mission::new(config).unwrap();
    let dependents = |c: char| {
        let mut v = mission.task(t[&c]).unwrap().dependent_tasks.clone();
        v.sort();
        v
    };
    let sorted = |mut v: Vec<u128>| {
        v.sort();
        v
    };
    assert_eq!(dependents('A'), sorted(vec![t[&'B'], t[&'E']]));
    assert_eq!(dependents('B'), vec![t[&'C']]);
    assert_eq!(dependents('E'), vec![t[&'C']]);
    assert_eq!(dependents('C'), vec![t[&'D']]);
    assert!(dependents('D').is_empty());
}

#[test]
fn execution_plan_levels_follow_dependencies() {
    let (config, t) = complex_config();
    let mission = Mission::new(config).unwrap();
    let plan = mission.execution_plan().unwrap();
    assert_eq!(plan.len(), 4);
    assert_eq!(plan[0], vec![t[&'A']]);
    let mut level1 = plan[1].clone();
    level1.sort();
    let mut expected = vec![t[&'B'], t[&'E']];
    expected.sort();
    assert_eq!(level1, expected);
    assert_eq!(plan[2], vec![t[&'C']]);
    assert_eq!(plan[3], vec![t[&'D']]);
}

#[test]
fn execution_plan_refused_for_replaced_configuration() {
    let id_a = Uuid::new_v4().as_u128();
    let id_b = Uuid::new_v4().as_u128();
    let tasks = vec![
        task("Task A", id_a, vec![], false, "1"),
        task("Task B", id_b, vec![id_a], false, "1"),
        task("Task B again", id_b, vec![], false, "1"),
    ];
    let mission = Mission::new(MissionConfig { name: "Replaced".to_string(), tasks }).unwrap();
    assert!(mission.execution_plan().is_none());
}

#[test]
fn mission_rejects_cycles_and_unknown_dependencies() {
    let id_a = Uuid::new_v4().as_u128();
    let id_b = Uuid::new_v4().as_u128();
    let cyclic = vec![task("Task A", id_a, vec![id_b], false, "1"), task("Task B", id_b, vec![id_a], false, "1")];
    match Mission::new(MissionConfig { name: "Cyclic".to_string(), tasks: cyclic }) {
        Err(NightError::Mission(m)) => assert!(m.starts_with("Cyclic dependency detected: ")),
        _ => panic!("expected a cycle error"),
    }
    let missing = vec![task("Task A", id_a, vec![id_b], false, "1")];
    match Mission::new(MissionConfig { name: "Missing".to_string(), tasks: missing }) {
        Err(NightError::Mission(m)) => assert_eq!(
            m,
            format!("Task {} depends on non-existent task {}", Uuid::from_u128(id_a), Uuid::from_u128(id_b))
        ),
        _ => panic!("expected a missing-dependency error"),
    }
}

#[test]
fn periodic_dependency_cycles_reach_dependents() {
    let t = ids(&['A', 'B']);
    let tasks = vec![
        task("Periodic Task A", t[&'A'], vec![], true, "100"),
        task("Periodic Task B", t[&'B'], vec![t[&'A']], true, "100"),
    ];
    let mut mission = Mission::new(MissionConfig { name: "Periodic".to_string(), tasks }).unwrap();
    let all = vec![t[&'A'], t[&'B']];
    mission.begin_task_run(t[&'A'], 1).unwrap();
    let cycle = mission.task(t[&'A']).unwrap().periodic_cycle_event(None);
    assert_eq!(deliver(&mut mission, &all, &cycle), vec![t[&'B']]);
    assert!(mission.begin_task_run(t[&'B'], 2).is_some());
    let failed = mission.task(t[&'A']).unwrap().periodic_cycle_event(Some("boom".to_string()));
    assert_eq!(failed.data.as_deref(), Some("Periodic cycle failed: boom"));
    assert_eq!(deliver(&mut mission, &all, &failed), vec![t[&'B']]);
    assert!(!mission.task(t[&'B']).unwrap().can_start());
    mission.stop_task(t[&'A']).unwrap();
    assert_eq!(status(&mission, t[&'A']), TaskStatus::Pending, "Periodic Task A should be Pending after stop");
    assert_eq!(status(&mission, t[&'B']), TaskStatus::Pending, "Periodic Task B should be Pending as its dependency A was stopped");
}

#[test]
fn mission_test_mission_execution() {
    let t = ids(&['1', '2']);
    let tasks = vec![task("Task 1", t[&'1'], vec![], false, "0"), task("Task 2", t[&'2'], vec![], false, "0")];
    let config = MissionConfig { name: "Test Mission".to_string(), tasks };
    let num_tasks = config.tasks.len();
    let mut mission = Mission::new(config).unwrap();
    assert_eq!(run_mission(&mut mission, &[]), num_tasks);
    let final_task_info = mission.get_all_task_info();
    for (id, info) in final_task_info {
        assert_eq!(info.status, TaskStatus::Completed, "Task {} did not complete. Status: {:?}", id, info.status);
    }
}

#[test]
fn test_stop_normal_task_preventing_dependent_periodic_task() {
    let t = ids(&['A', 'B']);
    let tasks = vec![
        task("Normal Task A", t[&'A'], vec![], false, "1"),
        task("Periodic Task B", t[&'B'], vec![t[&'A']], true, "100"),
    ];
    let config = MissionConfig { name: "Normal A Periodic B Mission".to_string(), tasks };
    let mut mission = Mission::new(config).unwrap();
    let all = vec![t[&'A'], t[&'B']];
    let mut order = 0usize;
    assert!(run_one(&mut mission, &all, t[&'A'], &mut order, true));
    assert_eq!(status(&mission, t[&'A']), TaskStatus::Completed, "Normal A should complete");
    let e = mission.begin_task_run(t[&'B'], 50).unwrap();
    deliver(&mut mission, &all, &e);
    assert_eq!(status(&mission, t[&'B']), TaskStatus::Running);
    mission.stop_task(t[&'A']).unwrap();
    assert_eq!(status(&mission, t[&'A']), TaskStatus::Pending, "Normal A should be Pending after stop");
    assert_eq!(status(&mission, t[&'B']), TaskStatus::Pending, "Periodic B should be Pending");
    let b = mission.task(t[&'B']).unwrap();
    let scheduler = night::task::TaskScheduler::new(b);
    assert_eq!(
        scheduler.next_step(night::task::SchedulerPhase::Ticked, b.should_run()),
        night::task::SchedulerStep::Finish
    );
    assert!(mission.finish_task_run(t[&'B'], true, 60).is_empty());
    assert_eq!(status(&mission, t[&'B']), TaskStatus::Pending);
}

#[test]
fn stop_events_carry_status_at_marking() {
    let (config, t) = complex_config();
    let mut mission = Mission::new(config).unwrap();
    run_mission(&mut mission, &[]);
    let events = mission.stop_task(t[&'A']).unwrap();
    assert_eq!(events.len(), 6);
    let mut seen = std::collections::HashSet::new();
    for e in &events {
        let id = e.task_id.unwrap();
        let expected = if seen.contains(&id) { TaskStatus::Pending } else { TaskStatus::Completed };
        assert_eq!(e.previous_status, Some(expected));
        seen.insert(id);
    }
    assert_eq!(seen.len(), 5);
}
