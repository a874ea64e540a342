//! Plain data shared by the whole library.
use vstd::prelude::*;

verus! {

/// Life-cycle state of a task.
#[derive(Clone, Copy, Debug, PartialEq, Eq, Structural)]
pub enum TaskStatus {
    Pending,
    Running,
    Completed,
    Failed,
}

/// What a task knows about one of its prerequisites.
#[derive(Clone, Copy, Debug, PartialEq, Eq, Structural)]
pub enum DependencyState {
    Pending,
    Completed,
    Failed,
}

/// Configuration of one task. Task identifiers are the 128-bit values of UUIDs.
#[derive(Debug)]
pub struct TaskConfig {
    pub name: String,
    pub id: Option<u128>,
    pub command: String,
    pub is_periodic: bool,
    pub interval: String,
    pub importance: u32,
    pub dependencies: Vec<u128>,
}

/// Mathematical model of a [`TaskConfig`].
pub struct TaskConfigView {
    pub name: Seq<char>,
    pub id: Option<u128>,
    pub command: Seq<char>,
    pub is_periodic: bool,
    pub interval: Seq<char>,
    pub importance: u32,
    pub dependencies: Seq<u128>,
}

impl View for TaskConfig {
    type V = TaskConfigView;

    open spec fn view(&self) -> TaskConfigView {
        TaskConfigView {
            name: self.name@,
            id: self.id,
            command: self.command@,
            is_periodic: self.is_periodic,
            interval: self.interval@,
            importance: self.importance,
            dependencies: self.dependencies@,
        }
    }
}

impl Clone for TaskConfig {
    fn clone(&self) -> (res: Self)
        ensures
            res@ == self@,
    {
        TaskConfig {
            name: self.name.clone(),
            id: self.id,
            command: self.command.clone(),
            is_periodic: self.is_periodic,
            interval: self.interval.clone(),
            importance: self.importance,
            dependencies: self.dependencies.clone(),
        }
    }
}

/// Configuration of a mission: a name and its tasks.
#[derive(Debug)]
pub struct MissionConfig {
    pub name: String,
    pub tasks: Vec<TaskConfig>,
}

/// Mathematical model of a [`MissionConfig`].
pub struct MissionConfigView {
    pub name: Seq<char>,
    pub tasks: Seq<TaskConfigView>,
}

impl View for MissionConfig {
    type V = MissionConfigView;

    open spec fn view(&self) -> MissionConfigView {
        MissionConfigView { name: self.name@, tasks: self.tasks@.map_values(|c: TaskConfig| c@) }
    }
}

/// Clones every configuration of `tasks`.
pub fn clone_tasks(tasks: &Vec<TaskConfig>) -> (res: Vec<TaskConfig>)
    ensures
        res@.map_values(|c: TaskConfig| c@) == tasks@.map_values(|c: TaskConfig| c@),
{
    let mut out: Vec<TaskConfig> = Vec::new();
    let mut i: usize = 0;
    while i < tasks.len()
        invariant
            i <= tasks.len(),
            out@.len() == i,
            forall|j: int| 0 <= j < i ==> (#[trigger] out@[j])@ == tasks@[j]@,
        decreases tasks.len() - i,
    {
        out.push(tasks[i].clone());
        i = i + 1;
    }
    proof {
        assert(out@.map_values(|c: TaskConfig| c@) =~= tasks@.map_values(|c: TaskConfig| c@));
    }
    out
}

impl Clone for MissionConfig {
    fn clone(&self) -> (res: Self)
        ensures
            res@ == self@,
    {
        let tasks = clone_tasks(&self.tasks);
        MissionConfig { name: self.name.clone(), tasks }
    }
}

/// A snapshot of a task's progress. Times are microseconds since the Unix
/// epoch; the execution order is the task's position among the runs of its
/// mission.
#[derive(Clone, Copy, Debug, PartialEq, Eq, Structural)]
pub struct TaskInfo {
    pub id: u128,
    pub status: TaskStatus,
    pub start_time: Option<i64>,
    pub end_time: Option<i64>,
    pub execution_order: Option<usize>,
}

/// Errors of the library. Each carries a human-readable message.
#[derive(Debug)]
pub enum NightError {
    /// The mission configuration is unusable.
    Config(String),
    /// A task could not be run as configured.
    Task(String),
    /// The mission's task graph or task set rejected a request.
    Mission(String),
    /// A YAML configuration could not be parsed.
    YamlSerialization(String),
    /// A JSON document could not be produced or parsed.
    JsonSerialization(String),
    /// An input or output operation failed.
    Io(String),
}

} // verus!
