//! Loading rules for mission configurations: file formats, identifiers of
//! tasks that have none, and the consistency checks.
use vstd::prelude::*;
use std::collections::HashSet;
use crate::types::{MissionConfig, MissionConfigView, TaskConfig, TaskConfigView, NightError};
use crate::ids::{new_task_id, uuid_string, uuid_text, is_random_uuid};
use crate::text::framed;
use crate::topology::{missing_dependency_report, ids_present, ids_distinct};

verus! {

broadcast use {vstd::std_specs::hash::group_hash_axioms, vstd::string::group_string_axioms};

/// The two file formats a configuration can be written in.
#[derive(Clone, Copy, Debug, PartialEq, Eq, Structural)]
pub enum ConfigFormat {
    Json,
    Yaml,
}

/// The task at `j` carries an identifier that an earlier task already carries.
pub open spec fn repeats_earlier(tasks: Seq<TaskConfigView>, j: int) -> bool {
    &&& 0 <= j < tasks.len()
    &&& tasks[j].id is Some
    &&& exists|k: int| 0 <= k < j && #[trigger] tasks[k].id == tasks[j].id
}

/// The check walks the tasks in order and needs each identifier it reaches:
/// every task without one comes after a repeated identifier, where the walk
/// stops.
pub open spec fn ids_checkable(tasks: Seq<TaskConfigView>) -> bool {
    forall|i: int|
        0 <= i < tasks.len() && (#[trigger] tasks[i]).id is None ==> exists|j: int| j < i && #[trigger] repeats_earlier(tasks, j)
}

/// The identifiers that the tasks carry.
pub open spec fn id_set(tasks: Seq<TaskConfigView>) -> Set<u128> {
    Set::new(|x: u128| exists|i: int| 0 <= i < tasks.len() && #[trigger] tasks[i].id == Some(x))
}

/// Dependency `k` of task `i` names no task.
pub open spec fn dependency_unknown(tasks: Seq<TaskConfigView>, i: int, k: int) -> bool {
    &&& 0 <= i < tasks.len()
    &&& 0 <= k < tasks[i].dependencies.len()
    &&& !id_set(tasks).contains(tasks[i].dependencies[k])
}

/// Message of a repeated identifier.
pub open spec fn duplicate_report(id: u128) -> Seq<char> {
    "Duplicate task ID: "@ + uuid_text(id)
}

/// Message of a missing file extension.
pub open spec fn no_extension_report() -> Seq<char> {
    "File has no extension"@
}

/// Message of an extension that names no known format.
pub open spec fn unsupported_extension_report(ext: Seq<char>) -> Seq<char> {
    "Unsupported file extension: "@ + ext
}

/// The result of checking a configuration's tasks: the first repeated
/// identifier, else the first dependency (task by task, in list order) that
/// names no task, else success.
pub open spec fn validation_outcome(tasks: Seq<TaskConfigView>, res: Result<(), NightError>) -> bool {
    if exists|j: int| #[trigger] repeats_earlier(tasks, j) {
        exists|j: int|
            #[trigger] repeats_earlier(tasks, j) && (forall|j2: int| j2 < j ==> !#[trigger] repeats_earlier(tasks, j2))
                && (res matches Err(NightError::Config(m)) && m@ == duplicate_report(tasks[j].id.unwrap()))
    } else if exists|i: int, k: int| #[trigger] dependency_unknown(tasks, i, k) {
        exists|i: int, k: int|
            #[trigger] dependency_unknown(tasks, i, k)
                && (forall|i2: int, k2: int| (i2 < i || (i2 == i && k2 < k)) ==> !#[trigger] dependency_unknown(tasks, i2, k2))
                && (res matches Err(NightError::Config(m)) && m@ == missing_dependency_report(
                tasks[i].id.unwrap(),
                tasks[i].dependencies[k],
            ))
    } else {
        res is Ok
    }
}

/// `after` is `before` with a fresh random identifier given to each task
/// that had none.
pub open spec fn fills_ids(before: Seq<TaskConfigView>, after: Seq<TaskConfigView>) -> bool {
    &&& after.len() == before.len()
    &&& forall|i: int|
        0 <= i < before.len() ==> {
            let a = #[trigger] after[i];
            &&& a == TaskConfigView { id: a.id, ..before[i] }
            &&& before[i].id is Some ==> a.id == before[i].id
            &&& before[i].id is None ==> (a.id matches Some(x) && is_random_uuid(x))
        }
}

/// The tasks pass the checks of [`ConfigManager::validate_config`].
pub open spec fn tasks_valid(tasks: Seq<TaskConfigView>) -> bool {
    &&& forall|i: int| 0 <= i < tasks.len() ==> (#[trigger] tasks[i]).id is Some
    &&& forall|j: int| !#[trigger] repeats_earlier(tasks, j)
    &&& forall|i: int, k: int| !#[trigger] dependency_unknown(tasks, i, k)
}

/// Reads and checks mission configurations.
pub struct ConfigManager;

impl ConfigManager {
    /// The format named by a file extension: `json` or `yaml`/`yml`.
    pub fn config_format(extension: Option<&str>) -> (res: Result<ConfigFormat, NightError>)
        ensures
            match extension {
                None => res matches Err(NightError::Config(m)) && m@ == no_extension_report(),
                Some(e) => if e@ == "json"@ {
                    res == Ok::<ConfigFormat, NightError>(ConfigFormat::Json)
                } else if e@ == "yaml"@ || e@ == "yml"@ {
                    res == Ok::<ConfigFormat, NightError>(ConfigFormat::Yaml)
                } else {
                    res matches Err(NightError::Config(m)) && m@ == unsupported_extension_report(e@)
                },
            },
    {
        match extension {
            None => Err(NightError::Config(String::from_str("File has no extension"))),
            Some(e) => {
                let given = e.to_string();
                if given == "json".to_string() {
                    Ok(ConfigFormat::Json)
                } else if given == "yaml".to_string() || given == "yml".to_string() {
                    Ok(ConfigFormat::Yaml)
                } else {
                    let mut msg = String::from_str("Unsupported file extension: ");
                    msg.append(e);
                    Err(NightError::Config(msg))
                }
            },
        }
    }

    /// Gives every task without an identifier a fresh random one; other
    /// tasks are left as they are.
    pub fn assign_missing_ids(config: &mut MissionConfig)
        ensures
            final(config)@.name == old(config)@.name,
            fills_ids(old(config)@.tasks, final(config)@.tasks),
    {
        let ghost before = config@.tasks;
        let mut i: usize = 0;
        while i < config.tasks.len()
            invariant
                i <= config.tasks.len(),
                config@.name == old(config)@.name,
                config@.tasks.len() == before.len(),
                before == old(config)@.tasks,
                forall|j: int|
                    i <= j < before.len() ==> #[trigger] config@.tasks[j] == before[j],
                forall|j: int|
                    0 <= j < i ==> {
                        let after = #[trigger] config@.tasks[j];
                        &&& after == TaskConfigView { id: after.id, ..before[j] }
                        &&& before[j].id is Some ==> after.id == before[j].id
                        &&& before[j].id is None ==> (after.id matches Some(x) && is_random_uuid(x))
                    },
            decreases config.tasks.len() - i,
        {
            proof {
                assert(config@.tasks[i as int] == before[i as int]);
                assert(config.tasks@[i as int]@ == before[i as int]);
            }
            if config.tasks[i].id.is_none() {
                let id = new_task_id();
                let ghost views_before = config@.tasks;
                let mut task = config.tasks[i].clone();
                task.id = Some(id);
                let ghost task_view = task@;
                config.tasks.set(i, task);
                proof {
                    assert(config@.tasks =~= views_before.update(i as int, task_view));
                    assert(task_view == TaskConfigView { id: Some(id), ..before[i as int] });
                }
            }
            proof {
                let after = config@.tasks[i as int];
                assert(after == TaskConfigView { id: after.id, ..before[i as int] });
            }
            i = i + 1;
        }
    }

    /// Checks the tasks of a configuration: identifiers must be distinct and
    /// every dependency must name a task of the configuration.
    pub fn validate_config(config: &MissionConfig) -> (res: Result<(), NightError>)
        requires
            ids_checkable(config@.tasks),
        ensures
            validation_outcome(config@.tasks, res),
            res is Ok <==> tasks_valid(config@.tasks),
            res is Ok <==> {
                let tasks = config@.tasks;
                &&& forall|i: int| 0 <= i < tasks.len() ==> (#[trigger] tasks[i]).id is Some
                &&& forall|i: int, j: int| 0 <= i < j < tasks.len() ==> (#[trigger] tasks[i]).id != (#[trigger] tasks[j]).id
                &&& forall|i: int, k: int|
                    0 <= i < tasks.len() && 0 <= k < tasks[i].dependencies.len() ==> exists|j: int|
                        0 <= j < tasks.len() && #[trigger] tasks[j].id == Some(#[trigger] tasks[i].dependencies[k])
            },
            res is Err ==> (res matches Err(NightError::Config(_))),
            res matches Err(NightError::Config(m)) ==> ({
                let tasks = config@.tasks;
                ||| exists|i: int, j: int|
                    0 <= i < j < tasks.len() && (#[trigger] tasks[i]).id == (#[trigger] tasks[j]).id && tasks[j].id is Some
                        && m@ == "Duplicate task ID: "@ + uuid_text(tasks[j].id.unwrap())
                ||| exists|i: int, k: int|
                    0 <= i < tasks.len() && 0 <= k < tasks[i].dependencies.len() && tasks[i].id is Some && (forall|j: int|
                        0 <= j < tasks.len() ==> tasks[j].id != Some(#[trigger] tasks[i].dependencies[k])) && m@ == "Task "@
                        + uuid_text(tasks[i].id.unwrap()) + " depends on non-existent task "@ + uuid_text(
                        tasks[i].dependencies[k],
                    )
            }),
    {
        let ghost tasks = config@.tasks;
        let mut task_ids: HashSet<u128> = HashSet::new();
        let mut i: usize = 0;
        while i < config.tasks.len()
            invariant
                tasks == config@.tasks,
                ids_checkable(tasks),
                i <= tasks.len(),
                forall|j: int| 0 <= j < i ==> (#[trigger] tasks[j]).id is Some,
                forall|j: int| j < i ==> !#[trigger] repeats_earlier(tasks, j),
                forall|x: u128| task_ids@.contains(x) <==> exists|j: int| 0 <= j < i && #[trigger] tasks[j].id == Some(x),
            decreases tasks.len() - i,
        {
            proof {
                if tasks[i as int].id is None {
                    let j = choose|j: int| j < i && #[trigger] repeats_earlier(tasks, j);
                }
            }
            let id = config.tasks[i].id.unwrap();
            if !task_ids.insert(id) {
                let id_text = uuid_string(id);
                let mut msg = String::from_str("Duplicate task ID: ");
                msg.append(id_text.as_str());
                proof {
                    let k = choose|k: int| 0 <= k < i && #[trigger] tasks[k].id == Some(id);
                    assert(repeats_earlier(tasks, i as int));
                    lemma_validity_ignores_order(tasks);
                    assert(0 <= k < i && tasks[k].id == tasks[i as int].id);
                }
                return Err(NightError::Config(msg));
            }
            proof {
                assert(!repeats_earlier(tasks, i as int));
                assert forall|x: u128| task_ids@.contains(x) <==> exists|j: int| 0 <= j < i + 1 && #[trigger] tasks[j].id == Some(x) by {
                    if x == id {
                        assert(tasks[i as int].id == Some(x));
                    }
                }
            }
            i = i + 1;
        }
        proof {
            assert forall|j: int| !#[trigger] repeats_earlier(tasks, j) by {
                if 0 <= j < tasks.len() {
                    assert(!repeats_earlier(tasks, j));
                }
            }
            assert forall|x: u128| task_ids@.contains(x) <==> id_set(tasks).contains(x) by {}
        }
        let mut i: usize = 0;
        while i < config.tasks.len()
            invariant
                tasks == config@.tasks,
                i <= tasks.len(),
                forall|j: int| 0 <= j < tasks.len() ==> (#[trigger] tasks[j]).id is Some,
                forall|j: int| !#[trigger] repeats_earlier(tasks, j),
                task_ids@ == id_set(tasks),
                forall|i2: int, k2: int| i2 < i ==> !#[trigger] dependency_unknown(tasks, i2, k2),
            decreases tasks.len() - i,
        {
            let task = &config.tasks[i];
            let mut k: usize = 0;
            while k < task.dependencies.len()
                invariant
                    tasks == config@.tasks,
                    i < tasks.len(),
                    tasks[i as int] == task@,
                    forall|j: int| 0 <= j < tasks.len() ==> (#[trigger] tasks[j]).id is Some,
                    forall|j: int| !#[trigger] repeats_earlier(tasks, j),
                    task_ids@ == id_set(tasks),
                    forall|i2: int, k2: int| i2 < i ==> !#[trigger] dependency_unknown(tasks, i2, k2),
                    k <= task.dependencies.len(),
                    forall|k2: int| k2 < k ==> !#[trigger] dependency_unknown(tasks, i as int, k2),
                decreases task.dependencies.len() - k,
            {
                let dep_id = task.dependencies[k];
                if !task_ids.contains(&dep_id) {
                    let task_text = uuid_string(task.id.unwrap());
                    let dep_text = uuid_string(dep_id);
                    let mut msg = framed("Task ", &task_text, " depends on non-existent task ");
                    msg.append(dep_text.as_str());
                    proof {
                        assert(dependency_unknown(tasks, i as int, k as int));
                        assert forall|j: int| 0 <= j < tasks.len() implies tasks[j].id != Some(tasks[i as int].dependencies[k as int]) by {
                            if tasks[j].id == Some(dep_id) {
                                assert(id_set(tasks).contains(dep_id));
                            }
                        }
                        assert forall|i2: int, k2: int| (i2 < i || (i2 == i && k2 < k)) implies !#[trigger] dependency_unknown(tasks, i2, k2) by {}
                        lemma_validity_ignores_order(tasks);
                    }
                    return Err(NightError::Config(msg));
                }
                k = k + 1;
            }
            proof {
                assert forall|i2: int, k2: int| i2 < i + 1 implies !#[trigger] dependency_unknown(tasks, i2, k2) by {
                    if i2 == i && 0 <= k2 < task@.dependencies.len() {
                        assert(!dependency_unknown(tasks, i as int, k2));
                    }
                }
            }
            i = i + 1;
        }
        proof {
            lemma_validity_ignores_order(tasks);
        }
        Ok(())
    }

    /// Finishes a parsed configuration: tasks without an identifier get a
    /// fresh one, then the tasks are checked as by [`Self::validate_config`].
    pub fn complete_config(config: MissionConfig) -> (res: Result<MissionConfig, NightError>)
        ensures
            exists|filled: Seq<TaskConfigView>|
                #[trigger] fills_ids(config@.tasks, filled) && match res {
                    Ok(c) => c@ == MissionConfigView { name: config@.name, tasks: filled } && tasks_valid(filled),
                    Err(e) => !tasks_valid(filled) && validation_outcome(filled, Err(e)),
                },
            res matches Ok(c) ==> ids_present(c@.tasks) && ids_distinct(c@.tasks),
    {
        let mut config = config;
        Self::assign_missing_ids(&mut config);
        let ghost filled = config@.tasks;
        proof {
            assert forall|i: int| 0 <= i < filled.len() && (#[trigger] filled[i]).id is None implies exists|j: int| j < i && #[trigger] repeats_earlier(filled, j) by {
                assert(false);
            }
        }
        match Self::validate_config(&config) {
            Ok(()) => {
                proof {
                    lemma_valid_ids_distinct(filled);
                }
                Ok(config)
            },
            Err(e) => Err(e),
        }
    }
}

/// Valid tasks all carry an identifier, and no two carry the same one.
pub proof fn lemma_valid_ids_distinct(tasks: Seq<TaskConfigView>)
    requires
        tasks_valid(tasks),
    ensures
        ids_present(tasks),
        ids_distinct(tasks),
{
    assert forall|i: int, j: int| 0 <= i < j < tasks.len() implies (#[trigger] tasks[i]).id != (#[trigger] tasks[j]).id by {
        assert(!repeats_earlier(tasks, j));
        assert(tasks[j].id is Some);
    }
}


/// Whether a configuration's tasks are valid does not depend on their
/// order: they are valid exactly when every task carries an identifier, no
/// two tasks carry the same one, and every dependency of every task is the
/// identifier of some task of the list, before or after it.
pub proof fn lemma_validity_ignores_order(tasks: Seq<TaskConfigView>)
    ensures
        tasks_valid(tasks) <==> {
            &&& forall|i: int| 0 <= i < tasks.len() ==> (#[trigger] tasks[i]).id is Some
            &&& forall|i: int, j: int| 0 <= i < j < tasks.len() ==> (#[trigger] tasks[i]).id != (#[trigger] tasks[j]).id
            &&& forall|i: int, k: int|
                0 <= i < tasks.len() && 0 <= k < tasks[i].dependencies.len() ==> exists|j: int|
                    0 <= j < tasks.len() && #[trigger] tasks[j].id == Some(#[trigger] tasks[i].dependencies[k])
        },
{
    if tasks_valid(tasks) {
        assert forall|i: int, j: int| 0 <= i < j < tasks.len() implies (#[trigger] tasks[i]).id != (#[trigger] tasks[j]).id by {
            assert(!repeats_earlier(tasks, j));
            assert(tasks[j].id is Some);
        }
        assert forall|i: int, k: int| 0 <= i < tasks.len() && 0 <= k < tasks[i].dependencies.len() implies exists|j: int|
            0 <= j < tasks.len() && #[trigger] tasks[j].id == Some(#[trigger] tasks[i].dependencies[k]) by {
            assert(!dependency_unknown(tasks, i, k));
            assert(id_set(tasks).contains(tasks[i].dependencies[k]));
        }
    }
    if (forall|i: int, j: int| 0 <= i < j < tasks.len() ==> (#[trigger] tasks[i]).id != (#[trigger] tasks[j]).id)
        && (forall|i: int, k: int|
        0 <= i < tasks.len() && 0 <= k < tasks[i].dependencies.len() ==> exists|j: int|
            0 <= j < tasks.len() && #[trigger] tasks[j].id == Some(#[trigger] tasks[i].dependencies[k])) {
        assert forall|j: int| !#[trigger] repeats_earlier(tasks, j) by {
            if repeats_earlier(tasks, j) {
                let k = choose|k: int| 0 <= k < j && #[trigger] tasks[k].id == tasks[j].id;
                assert(tasks[k].id != tasks[j].id);
            }
        }
        assert forall|i: int, k: int| !#[trigger] dependency_unknown(tasks, i, k) by {
            if 0 <= i < tasks.len() && 0 <= k < tasks[i].dependencies.len() {
                let j = choose|j: int| 0 <= j < tasks.len() && #[trigger] tasks[j].id == Some(tasks[i].dependencies[k]);
                assert(id_set(tasks).contains(tasks[i].dependencies[k]));
            }
        }
    }
}

} // verus!
