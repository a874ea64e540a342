use night::config::{ConfigFormat, ConfigManager};
use night::types::{MissionConfig, NightError, TaskConfig};
use uuid::Uuid;

fn parse(s: &str) -> u128 {
    Uuid::parse_str(s).unwrap().as_u128()
}

fn task(name: &str, id: Option<u128>, deps: Vec<u128>) -> TaskConfig {
    TaskConfig {
        name: name.to_string(),
        id,
        command: format!("echo {}", name),
        is_periodic: false,
        interval: "".to_string(),
        importance: 1,
        dependencies: deps,
    }
}

#[test]
fn config_format_follows_extension() {
    assert!(matches!(ConfigManager::config_format(Some("json")), Ok(ConfigFormat::Json)));
    assert!(matches!(ConfigManager::config_format(Some("yaml")), Ok(ConfigFormat::Yaml)));
    assert!(matches!(ConfigManager::config_format(Some("yml")), Ok(ConfigFormat::Yaml)));
    match ConfigManager::config_format(Some("txt")) {
        Err(NightError::Config(msg)) => assert_eq!(msg, "Unsupported file extension: txt"),
        _ => panic!("Expected a Config error indicating an unsupported file extension"),
    }
    match ConfigManager::config_format(Some("JSON")) {
        Err(NightError::Config(msg)) => assert_eq!(msg, "Unsupported file extension: JSON"),
        _ => panic!("extensions are case sensitive"),
    }
    match ConfigManager::config_format(None) {
        Err(NightError::Config(msg)) => assert_eq!(msg, "File has no extension"),
        _ => panic!("Expected a Config error for a missing extension"),
    }
}

#[test]
fn missing_ids_are_generated_and_given_ids_kept() {
    let given = parse("11111111-1111-1111-1111-111111111111");
    let config = MissionConfig {
        name: "Test Mission JSON Missing IDs".to_string(),
        tasks: vec![task("Task 1 With ID", Some(given), vec![]), task("Task 2 Missing ID", None, vec![])],
    };
    let config = ConfigManager::complete_config(config).unwrap();
    assert_eq!(config.tasks.len(), 2);
    assert_eq!(config.tasks[0].id, Some(given), "Task 1 ID should match specified");
    let generated = config.tasks[1].id.expect("Task 2 ID should be generated");
    assert_eq!(Uuid::from_u128(generated).get_version_num(), 4);
    assert_eq!(config.tasks[1].name, "Task 2 Missing ID");
}

#[test]
fn assign_missing_ids_touches_only_missing_ids() {
    let mut config = MissionConfig {
        name: "m".to_string(),
        tasks: vec![task("a", None, vec![]), task("b", Some(7), vec![1]), task("c", None, vec![])],
    };
    ConfigManager::assign_missing_ids(&mut config);
    assert_eq!(config.name, "m");
    assert_eq!(config.tasks[1].id, Some(7));
    assert_eq!(config.tasks[1].dependencies, vec![1]);
    let a = config.tasks[0].id.unwrap();
    let c = config.tasks[2].id.unwrap();
    assert_ne!(a, c);
    assert_eq!(Uuid::from_u128(a).get_version_num(), 4);
    assert_eq!(Uuid::from_u128(c).get_version_num(), 4);
}

#[test]
fn dependency_on_unlisted_id_is_rejected() {
    let b = parse("33333333-3333-3333-3333-333333333333");
    let missing = parse("00000000-0000-0000-0000-000000000001");
    let config = MissionConfig {
        name: "Dependency Test Mission".to_string(),
        tasks: vec![task("Task A", None, vec![]), task("Task B", Some(b), vec![missing])],
    };
    match ConfigManager::complete_config(config) {
        Err(NightError::Config(msg)) => {
            assert!(msg.contains("depends on non-existent task"));
            assert_eq!(
                msg,
                "Task 33333333-3333-3333-3333-333333333333 depends on non-existent task 00000000-0000-0000-0000-000000000001"
            );
        }
        _ => panic!("Expected a Config error"),
    }
}

#[test]
fn dependency_on_given_id_is_accepted() {
    let a = parse("44444444-4444-4444-4444-444444444444");
    let config = MissionConfig {
        name: "Dependency Test Mission Success".to_string(),
        tasks: vec![task("Task A", Some(a), vec![]), task("Task B", None, vec![a])],
    };
    let config = ConfigManager::complete_config(config).unwrap();
    assert_eq!(config.tasks[0].id, Some(a));
    let b = config.tasks[1].id.unwrap();
    assert_ne!(b, a);
}

#[test]
fn duplicate_id_is_reported_first() {
    let config = MissionConfig {
        name: "dup".to_string(),
        tasks: vec![task("a", Some(5), vec![99]), task("b", Some(5), vec![]), task("c", Some(6), vec![])],
    };
    match ConfigManager::validate_config(&config) {
        Err(NightError::Config(msg)) => assert_eq!(msg, "Duplicate task ID: 00000000-0000-0000-0000-000000000005"),
        _ => panic!("expected a duplicate error"),
    }
}

#[test]
fn first_unknown_dependency_is_reported() {
    let config = MissionConfig {
        name: "deps".to_string(),
        tasks: vec![task("a", Some(1), vec![]), task("b", Some(2), vec![1, 8]), task("c", Some(3), vec![9])],
    };
    match ConfigManager::validate_config(&config) {
        Err(NightError::Config(msg)) => assert_eq!(
            msg,
            "Task 00000000-0000-0000-0000-000000000002 depends on non-existent task 00000000-0000-0000-0000-000000000008"
        ),
        _ => panic!("expected a dependency error"),
    }
}

#[test]
fn valid_configuration_passes() {
    let config = MissionConfig {
        name: "ok".to_string(),
        tasks: vec![task("a", Some(1), vec![]), task("b", Some(2), vec![1]), task("c", Some(3), vec![1, 2])],
    };
    assert!(ConfigManager::validate_config(&config).is_ok());
    let empty = MissionConfig { name: "empty".to_string(), tasks: vec![] };
    assert!(ConfigManager::validate_config(&empty).is_ok());
}
