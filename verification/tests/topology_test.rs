use night::topology::TopologyManager;
use night::types::TaskConfig;
use std::collections::HashSet;
use uuid::Uuid;

fn uid(n: u128) -> u128 {
    Uuid::from_u128(n).as_u128()
}

fn create_test_task(id: u128, deps: Vec<u128>) -> TaskConfig {
    TaskConfig {
        name: format!("Task {}", id),
        id: Some(uid(id)),
        command: "echo test".to_string(),
        is_periodic: false,
        interval: "0".to_string(),
        importance: 1,
        dependencies: deps.into_iter().map(uid).collect(),
    }
}

#[test]
fn test_valid_topology() {
    let tasks = vec![
        create_test_task(1, vec![]),
        create_test_task(2, vec![1]),
        create_test_task(3, vec![1]),
        create_test_task(4, vec![2, 3]),
    ];

    let topology = TopologyManager::new(tasks).unwrap();
    let order = topology.get_execution_order();
    assert_eq!(order.len(), 3);
    assert_eq!(order[0], vec![uid(1)]);
    let level1_tasks: HashSet<u128> = order[1].iter().cloned().collect();
    let expected_level1: HashSet<u128> = [uid(2), uid(3)].iter().cloned().collect();
    assert_eq!(level1_tasks, expected_level1);
    assert_eq!(order[2], vec![uid(4)]);
}

#[test]
fn test_cyclic_topology() {
    let tasks = vec![
        create_test_task(1, vec![3]),
        create_test_task(2, vec![1]),
        create_test_task(3, vec![2]),
    ];

    let result = TopologyManager::new(tasks);
    assert!(result.is_err());
}

#[test]
fn test_missing_dependency() {
    let tasks = vec![
        create_test_task(1, vec![]),
        create_test_task(2, vec![3]),
    ];

    let result = TopologyManager::new(tasks);
    assert!(result.is_err());
}

#[test]
fn test_deeply_nested_topology() {
    let tasks = vec![
        create_test_task(1, vec![]),
        create_test_task(2, vec![1]),
        create_test_task(3, vec![2]),
        create_test_task(4, vec![3]),
    ];
    let topology = TopologyManager::new(tasks).unwrap();
    let order = topology.get_execution_order();
    assert_eq!(order.len(), 4);
    assert_eq!(order[0], vec![uid(1)]);
    assert_eq!(order[1], vec![uid(2)]);
    assert_eq!(order[2], vec![uid(3)]);
    assert_eq!(order[3], vec![uid(4)]);
}

#[test]
fn test_multiple_independent_paths() {
    let tasks = vec![
        create_test_task(1, vec![]),
        create_test_task(2, vec![1]),
        create_test_task(3, vec![]),
        create_test_task(4, vec![3]),
    ];
    let topology = TopologyManager::new(tasks).unwrap();
    let order = topology.get_execution_order();
    assert_eq!(order.len(), 2);

    let level0_tasks: HashSet<u128> = order[0].iter().cloned().collect();
    let expected_level0: HashSet<u128> = [uid(1), uid(3)].iter().cloned().collect();
    assert_eq!(level0_tasks, expected_level0);

    let level1_tasks: HashSet<u128> = order[1].iter().cloned().collect();
    let expected_level1: HashSet<u128> = [uid(2), uid(4)].iter().cloned().collect();
    assert_eq!(level1_tasks, expected_level1);
}

#[test]
fn test_get_task_and_dependencies() {
    let task1_id = uid(1);
    let task2_id = uid(2);
    let task3_id = uid(3);
    let task1_config = create_test_task(1, vec![]);
    let task2_config = create_test_task(2, vec![1]);

    let tasks = vec![task1_config.clone(), task2_config.clone()];
    let topology = TopologyManager::new(tasks).unwrap();

    let retrieved_task1 = topology.get_task(&task1_id);
    assert!(retrieved_task1.is_some());
    assert_eq!(retrieved_task1.unwrap().id, Some(task1_id));
    assert_eq!(retrieved_task1.unwrap().name, "Task 1");

    assert!(topology.get_task(&task3_id).is_none());

    let deps_task2 = topology.get_dependencies(&task2_id);
    assert!(deps_task2.is_some());
    assert_eq!(deps_task2.unwrap(), &vec![task1_id]);

    let deps_task1 = topology.get_dependencies(&task1_id);
    assert!(deps_task1.is_some());
    assert!(deps_task1.unwrap().is_empty());

    assert!(topology.get_dependencies(&task3_id).is_none());
}

#[test]
fn missing_dependency_message_names_both_tasks() {
    let tasks = vec![create_test_task(1, vec![]), create_test_task(2, vec![3])];
    match TopologyManager::new(tasks) {
        Err(night::types::NightError::Mission(m)) => assert_eq!(
            m,
            "Task 00000000-0000-0000-0000-000000000002 depends on non-existent task 00000000-0000-0000-0000-000000000003"
        ),
        other => panic!("unexpected result: {:?}", other.is_ok()),
    }
}

#[test]
fn cycle_message_lists_the_search_path() {
    let tasks = vec![create_test_task(1, vec![1])];
    match TopologyManager::new(tasks) {
        Err(night::types::NightError::Mission(m)) => assert_eq!(
            m,
            "Cyclic dependency detected: Mission(\"Cyclic dependency detected: {00000000-0000-0000-0000-000000000001}\")"
        ),
        other => panic!("unexpected result: {:?}", other.is_ok()),
    }
}

#[test]
fn cycle_is_reported_before_missing_dependency() {
    let tasks = vec![create_test_task(1, vec![2, 9]), create_test_task(2, vec![1])];
    match TopologyManager::new(tasks) {
        Err(night::types::NightError::Mission(m)) => {
            assert!(m.starts_with("Cyclic dependency detected: Mission(\"Cyclic dependency detected: {"))
        }
        other => panic!("unexpected result: {:?}", other.is_ok()),
    }
}

#[test]
fn reverse_relation_is_consistent_with_distinct_ids() {
    let tasks = vec![
        create_test_task(1, vec![]),
        create_test_task(2, vec![1, 1]),
        create_test_task(3, vec![2]),
    ];
    let topology = TopologyManager::new(tasks).unwrap();
    assert!(topology.reverse_dependencies_consistent());
    let order = topology.get_execution_order();
    assert_eq!(order, vec![vec![uid(1)], vec![uid(2)], vec![uid(3)]]);
}

#[test]
fn replaced_configuration_breaks_reverse_relation() {
    let tasks = vec![
        create_test_task(1, vec![]),
        create_test_task(2, vec![1]),
        create_test_task(2, vec![]),
    ];
    let topology = TopologyManager::new(tasks).unwrap();
    assert!(!topology.reverse_dependencies_consistent());
    assert!(topology.get_dependencies(&uid(2)).unwrap().is_empty());
}

#[test]
fn empty_topology_has_no_levels() {
    let topology = TopologyManager::new(vec![]).unwrap();
    assert!(topology.get_execution_order().is_empty());
}
