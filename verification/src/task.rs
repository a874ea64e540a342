//! The state of one task and the decisions of its run: when it may start,
//! what a run changes, which events it reports.
use vstd::prelude::*;
use vstd::std_specs::iter::IteratorSpec;
use std::collections::HashMap;
use crate::types::{TaskConfig, TaskConfigView, TaskStatus, DependencyState, TaskInfo, NightError};
use crate::event::{Event, EventType, EventView, event_is};
use crate::interval::{parse_u64, parsed_u64};
use crate::text::framed;
use crate::seq_facts::lemma_push_facts;

verus! {

broadcast use vstd::std_specs::hash::group_hash_axioms;

/// Every dependency of `deps`, waiting.
pub open spec fn all_pending(deps: Seq<u128>) -> Map<u128, DependencyState> {
    Map::new(|d: u128| deps.contains(d), |d: u128| DependencyState::Pending)
}

/// The task keeps one dependency state for each dependency of its
/// configuration, and no other.
pub open spec fn tracks_dependencies(t: TaskView) -> bool {
    t.dependency_status.dom() == t.config.dependencies.to_set()
}

/// Every dependency of `deps` is waiting, and `deps` names exactly the
/// dependencies that `all_pending` tracks.
pub proof fn lemma_all_pending_domain(deps: Seq<u128>)
    ensures
        all_pending(deps).dom() == deps.to_set(),
{
    assert(all_pending(deps).dom() =~= deps.to_set());
}

/// Every dependency has completed (vacuously, when there is none).
pub open spec fn dependencies_met(deps: Map<u128, DependencyState>) -> bool {
    forall|d: u128| #[trigger] deps.contains_key(d) ==> deps[d] == DependencyState::Completed
}

/// The dependency state that an event of kind `t` reports, if any.
pub open spec fn reported_state(t: EventType) -> Option<DependencyState> {
    match t {
        EventType::TaskCompleted => Some(DependencyState::Completed),
        EventType::TaskFailed => Some(DependencyState::Failed),
        _ => None,
    }
}

/// Message of a failed task.
pub open spec fn failure_report(name: Seq<char>) -> Seq<char> {
    "Task "@ + name + " failed"@
}

/// Message of a failed cycle of a periodic task.
pub open spec fn periodic_failure_report(error_text: Seq<char>) -> Seq<char> {
    "Periodic cycle failed: "@ + error_text
}

/// Message of an interval that is not a decimal count of milliseconds.
pub open spec fn interval_error_report(interval: Seq<char>) -> Seq<char> {
    "Invalid interval format: '"@ + interval + "'"@
}

/// The task after a run that ended at `now`: a failed run marks it failed; a
/// successful one-off run marks it completed unless it was stopped
/// meanwhile; a periodic task keeps its status. The end time is recorded.
pub open spec fn finished_view(t: TaskView, succeeded: bool, now: i64) -> TaskView {
    if !succeeded {
        TaskView { status: TaskStatus::Failed, end_time: Some(now), ..t }
    } else if !t.config.is_periodic && t.execution_lock {
        TaskView { status: TaskStatus::Completed, end_time: Some(now), ..t }
    } else {
        TaskView { end_time: Some(now), ..t }
    }
}

/// The events of a run of `t` that ended: the status change and the
/// failure or completion report when the status changed, none otherwise.
pub open spec fn finish_events(events: Seq<Event>, t: TaskView, succeeded: bool) -> bool {
    let id = t.config.id.unwrap();
    if !succeeded {
        &&& events.len() == 2
        &&& event_is(events[0]@, EventType::TaskStatusChanged, Some(id), Some(t.status), Some(TaskStatus::Failed), None)
        &&& event_is(events[1]@, EventType::TaskFailed, Some(id), Some(TaskStatus::Running), Some(TaskStatus::Failed), Some(failure_report(t.config.name)))
    } else if !t.config.is_periodic && t.execution_lock {
        &&& events.len() == 2
        &&& event_is(events[0]@, EventType::TaskStatusChanged, Some(id), Some(t.status), Some(TaskStatus::Completed), None)
        &&& event_is(events[1]@, EventType::TaskCompleted, Some(id), Some(TaskStatus::Running), Some(TaskStatus::Completed), None)
    } else {
        events.len() == 0
    }
}

/// Ending a run records its end time, whatever the outcome, and changes
/// nothing but the status and the end time. A failed run leaves every task,
/// one-off or periodic, failed and reports the failure: a status change to
/// failed, then a failure event naming the task. A successful one-off run
/// of a task that was not stopped leaves it completed and reports the
/// completion; any other successful run keeps the status and reports
/// nothing. The events name the task.
pub proof fn lemma_finish_outcome(t: TaskView, succeeded: bool, now: i64, events: Seq<Event>)
    ensures
        finished_view(t, succeeded, now).end_time == Some(now),
        finished_view(t, succeeded, now).config == t.config,
        finished_view(t, succeeded, now).start_time == t.start_time,
        finished_view(t, succeeded, now).execution_lock == t.execution_lock,
        finished_view(t, succeeded, now).execution_order == t.execution_order,
        finished_view(t, succeeded, now).dependency_status == t.dependency_status,
        finished_view(t, succeeded, now).dependent_tasks == t.dependent_tasks,
        !succeeded ==> finished_view(t, succeeded, now).status == TaskStatus::Failed,
        succeeded && !t.config.is_periodic && t.execution_lock ==> finished_view(t, succeeded, now).status
            == TaskStatus::Completed,
        succeeded && (t.config.is_periodic || !t.execution_lock) ==> finished_view(t, succeeded, now).status
            == t.status,
        finish_events(events, t, succeeded) && !succeeded && t.config.id is Some ==> {
            &&& events.len() == 2
            &&& events[0]@.event_type == EventType::TaskStatusChanged
            &&& events[0]@.task_id == t.config.id
            &&& events[0]@.new_status == Some(TaskStatus::Failed)
            &&& events[1]@.event_type == EventType::TaskFailed
            &&& events[1]@.task_id == t.config.id
            &&& events[1]@.data == Some("Task "@ + t.config.name + " failed"@)
        },
        finish_events(events, t, succeeded) && succeeded && !t.config.is_periodic && t.execution_lock
            && t.config.id is Some ==> {
            &&& events.len() == 2
            &&& events[0]@.event_type == EventType::TaskStatusChanged
            &&& events[0]@.task_id == t.config.id
            &&& events[0]@.new_status == Some(TaskStatus::Completed)
            &&& events[1]@.event_type == EventType::TaskCompleted
            &&& events[1]@.task_id == t.config.id
        },
        finish_events(events, t, succeeded) && succeeded && (t.config.is_periodic || !t.execution_lock)
            ==> events.len() == 0,
{
}

/// The subscriptions through which a task follows its dependencies: for
/// each dependency of `deps`, in order, one to its completions and one to its
/// failures, each filtered on that dependency.
pub open spec fn dependency_subscriptions_of(deps: Seq<u128>) -> Seq<(EventType, u128)>
    decreases deps.len(),
{
    if deps.len() == 0 {
        Seq::empty()
    } else {
        dependency_subscriptions_of(deps.drop_last()).push((EventType::TaskCompleted, deps.last())).push(
            (EventType::TaskFailed, deps.last()),
        )
    }
}

/// The dependency states after recording what `e` says of dependency
/// `dep`: a completion or failure of a tracked `dep` replaces its state;
/// anything else changes nothing.
pub open spec fn recorded(ds: Map<u128, DependencyState>, dep: u128, e: EventView) -> Map<u128, DependencyState> {
    if e.task_id == Some(dep) && ds.contains_key(dep) && reported_state(e.event_type) is Some {
        ds.insert(dep, reported_state(e.event_type).unwrap())
    } else {
        ds
    }
}

/// The dependency states after recording, in order, each event of `es`
/// for the dependency it is paired with.
pub open spec fn recorded_all(ds: Map<u128, DependencyState>, es: Seq<(u128, EventView)>) -> Map<u128, DependencyState>
    decreases es.len(),
{
    if es.len() == 0 {
        ds
    } else {
        recorded(recorded_all(ds, es.drop_last()), es.last().0, es.last().1)
    }
}

/// `e`, recorded for dependency `dep`, reports on it.
pub open spec fn reports_on(dep: u128, p: (u128, EventView)) -> bool {
    p.0 == dep && p.1.task_id == Some(dep) && reported_state(p.1.event_type) is Some
}

/// Recording events never adds or removes a tracked dependency.
pub proof fn lemma_recorded_all_domain(ds: Map<u128, DependencyState>, es: Seq<(u128, EventView)>)
    ensures
        recorded_all(ds, es).dom() == ds.dom(),
    decreases es.len(),
{
    if es.len() > 0 {
        lemma_recorded_all_domain(ds, es.drop_last());
        let r = recorded_all(ds, es.drop_last());
        assert(recorded(r, es.last().0, es.last().1).dom() =~= r.dom());
    }
}

/// The latest event that reports on a tracked dependency decides its state.
pub proof fn lemma_latest_event_wins(ds: Map<u128, DependencyState>, es: Seq<(u128, EventView)>, dep: u128, k: int)
    requires
        ds.contains_key(dep),
        0 <= k < es.len(),
        reports_on(dep, es[k]),
        forall|j: int| k < j < es.len() ==> !#[trigger] reports_on(dep, es[j]),
    ensures
        recorded_all(ds, es)[dep] == reported_state(es[k].1.event_type).unwrap(),
    decreases es.len(),
{
    lemma_recorded_all_domain(ds, es.drop_last());
    if k < es.len() - 1 {
        let j = es.len() - 1;
        assert(!reports_on(dep, es[j]));
        lemma_latest_event_wins(ds, es.drop_last(), dep, k);
        assert(es.drop_last()[k] == es[k]);
        assert forall|i: int| k < i < es.drop_last().len() implies !#[trigger] reports_on(dep, es.drop_last()[i]) by {
            assert(es.drop_last()[i] == es[i]);
        }
    }
}

/// A dependency that failed stays failed, and the task may not start, as
/// long as no later event reports the dependency completed.
pub proof fn lemma_failed_dependency_blocks(ds: Map<u128, DependencyState>, es: Seq<(u128, EventView)>, dep: u128)
    requires
        ds.contains_key(dep),
        ds[dep] == DependencyState::Failed,
        forall|j: int|
            0 <= j < es.len() ==> !(#[trigger] reports_on(dep, es[j]) && es[j].1.event_type == EventType::TaskCompleted),
    ensures
        recorded_all(ds, es).contains_key(dep),
        recorded_all(ds, es)[dep] == DependencyState::Failed,
        !dependencies_met(recorded_all(ds, es)),
    decreases es.len(),
{
    lemma_recorded_all_domain(ds, es);
    if es.len() > 0 {
        assert forall|j: int|
            0 <= j < es.drop_last().len() implies !(#[trigger] reports_on(dep, es.drop_last()[j])
            && es.drop_last()[j].1.event_type == EventType::TaskCompleted) by {
            assert(es.drop_last()[j] == es[j]);
        }
        lemma_failed_dependency_blocks(ds, es.drop_last(), dep);
        let j = es.len() - 1;
        assert(!(reports_on(dep, es[j]) && es[j].1.event_type == EventType::TaskCompleted));
    }
}

/// A task may start exactly when no tracked dependency is pending or
/// failed: a pending or failed dependency blocks the start, and a task
/// whose dependencies all completed, or that has none, may start.
pub proof fn lemma_start_condition(ds: Map<u128, DependencyState>, d: u128)
    ensures
        ds.contains_key(d) && ds[d] == DependencyState::Failed ==> !dependencies_met(ds),
        ds.contains_key(d) && ds[d] == DependencyState::Pending ==> !dependencies_met(ds),
        ds.dom() == Set::<u128>::empty() ==> dependencies_met(ds),
        dependencies_met(ds) ==> dependencies_met(ds.insert(d, DependencyState::Completed)),
        dependencies_met(ds) && ds.contains_key(d) ==> !dependencies_met(ds.insert(d, DependencyState::Failed)),
{
    if ds.dom() == Set::<u128>::empty() {
        assert forall|x: u128| #[trigger] ds.contains_key(x) implies ds[x] == DependencyState::Completed by {
            assert(ds.dom().contains(x));
        }
    }
    if dependencies_met(ds) && ds.contains_key(d) {
        assert(ds.insert(d, DependencyState::Failed).contains_key(d));
    }
}

/// What a task does when it is woken.
#[derive(Clone, Copy, Debug, PartialEq, Eq, Structural)]
pub enum Readiness {
    /// The task was stopped: leave without running.
    Stop,
    /// Every dependency completed: run now.
    Proceed,
    /// Some dependency has not completed: wait for the next notification.
    Wait,
}

/// A task: its configuration and everything its run decides on.
pub struct Task {
    pub config: TaskConfig,
    pub status: TaskStatus,
    pub start_time: Option<i64>,
    pub end_time: Option<i64>,
    pub execution_lock: bool,
    pub dependency_status: HashMap<u128, DependencyState>,
    pub execution_order: Option<usize>,
    pub dependent_tasks: Vec<u128>,
}

/// Mathematical model of a [`Task`].
pub struct TaskView {
    pub config: TaskConfigView,
    pub status: TaskStatus,
    pub start_time: Option<i64>,
    pub end_time: Option<i64>,
    pub execution_lock: bool,
    pub dependency_status: Map<u128, DependencyState>,
    pub execution_order: Option<usize>,
    pub dependent_tasks: Seq<u128>,
}

impl View for Task {
    type V = TaskView;

    open spec fn view(&self) -> TaskView {
        TaskView {
            config: self.config@,
            status: self.status,
            start_time: self.start_time,
            end_time: self.end_time,
            execution_lock: self.execution_lock,
            dependency_status: self.dependency_status@,
            execution_order: self.execution_order,
            dependent_tasks: self.dependent_tasks@,
        }
    }
}

impl Task {
    /// The identifier of the task's configuration.
    pub open spec fn id(&self) -> u128 {
        self.config.id.unwrap()
    }

    /// A pending, runnable task whose dependencies are all pending.
    pub fn new(config: TaskConfig, dependent_tasks: Vec<u128>) -> (t: Task)
        ensures
            t.config@ == config@,
            t.dependent_tasks@ == dependent_tasks@,
            t.status == TaskStatus::Pending,
            t.start_time is None,
            t.end_time is None,
            t.execution_lock,
            t.execution_order is None,
            t.dependency_status@ == all_pending(config@.dependencies),
            tracks_dependencies(t@),
    {
        let mut dependency_status: HashMap<u128, DependencyState> = HashMap::new();
        let mut i: usize = 0;
        while i < config.dependencies.len()
            invariant
                i <= config.dependencies.len(),
                dependency_status@ == all_pending(config@.dependencies.take(i as int)),
            decreases config.dependencies.len() - i,
        {
            dependency_status.insert(config.dependencies[i], DependencyState::Pending);
            proof {
                let s = config@.dependencies;
                assert(s.take(i + 1) == s.take(i as int).push(s[i as int]));
                lemma_push_facts(s.take(i as int), s[i as int]);
                assert(dependency_status@ =~= all_pending(s.take(i + 1)));
            }
            i = i + 1;
        }
        proof {
            assert(config@.dependencies.take(config.dependencies.len() as int) == config@.dependencies);
            lemma_all_pending_domain(config@.dependencies);
        }
        Task {
            config,
            status: TaskStatus::Pending,
            start_time: None,
            end_time: None,
            execution_lock: true,
            dependency_status,
            execution_order: None,
            dependent_tasks,
        }
    }

    /// The position of the task among the runs of its mission, once it ran.
    pub fn get_execution_order(&self) -> (res: Option<usize>)
        ensures
            res == self.execution_order,
    {
        self.execution_order
    }

    /// Whether the task may start: no dependency failed and every dependency
    /// completed.
    pub fn can_start(&self) -> (res: bool)
        ensures
            res == dependencies_met(self.dependency_status@),
    {
        if self.dependency_status.is_empty() {
            return true;
        }
        let ghost m = self.dependency_status@;
        let ghost all = vstd::std_specs::hash::spec_values_iter(&self.dependency_status).remaining();
        for state in it: self.dependency_status.values()
            invariant
                it.seq() == all,
                m == self.dependency_status@,
                forall|k: int| 0 <= k < it.index() ==> *#[trigger] all[k] != DependencyState::Failed,
        {
            if *state == DependencyState::Failed {
                proof {
                    assert(all.unref().to_set().contains(*all[it.index()]));
                    assert(m.values().contains(DependencyState::Failed));
                    let d = choose|d: u128| m.contains_key(d) && m[d] == DependencyState::Failed;
                    assert(m.contains_key(d));
                }
                return false;
            }
        }
        for state in it: self.dependency_status.values()
            invariant
                it.seq() == all,
                m == self.dependency_status@,
                forall|k: int| 0 <= k < it.index() ==> *#[trigger] all[k] == DependencyState::Completed,
        {
            if *state != DependencyState::Completed {
                proof {
                    assert(all.unref().to_set().contains(*all[it.index()]));
                    let v = *all[it.index()];
                    assert(m.values().contains(v));
                    let d = choose|d: u128| m.contains_key(d) && m[d] == v;
                    assert(m.contains_key(d));
                }
                return false;
            }
        }
        proof {
            assert forall|d: u128| #[trigger] m.contains_key(d) implies m[d] == DependencyState::Completed by {
                assert(m.values().contains(m[d]));
                assert(all.unref().to_set().contains(m[d]));
                let k = choose|k: int| 0 <= k < all.unref().len() && all.unref()[k] == m[d];
                assert(*all[k] == m[d]);
            }
        }
        true
    }

    /// What the task does when woken: stop if it was stopped, run if its
    /// dependencies are met, wait otherwise.
    pub fn readiness(&self) -> (r: Readiness)
        ensures
            r == if !self.execution_lock {
                Readiness::Stop
            } else if dependencies_met(self.dependency_status@) {
                Readiness::Proceed
            } else {
                Readiness::Wait
            },
    {
        if !self.execution_lock {
            return Readiness::Stop;
        }
        if self.can_start() {
            Readiness::Proceed
        } else {
            Readiness::Wait
        }
    }

    /// Whether the task may still run (it has not been stopped).
    pub fn should_run(&self) -> (res: bool)
        ensures
            res == self.execution_lock,
    {
        self.execution_lock
    }

    /// Sets the status and returns the status-change event to publish.
    pub fn set_status_external(&mut self, new_status: TaskStatus) -> (e: Event)
        requires
            old(self).config.id is Some,
        ensures
            final(self).status == new_status,
            event_is(e@, EventType::TaskStatusChanged, Some(old(self).id()), Some(old(self).status), Some(new_status), None),
            *final(self) == (Task { status: new_status, ..*old(self) }),
    {
        let previous_status = self.status;
        self.status = new_status;
        Event::task_status_changed(self.config.id.unwrap(), previous_status, new_status)
    }

    /// The event that reports how the task ended, if it ended: completion
    /// or failure.
    pub fn notify_completion(&self) -> (e: Option<Event>)
        requires
            self.config.id is Some,
        ensures
            match self.status {
                TaskStatus::Completed => e matches Some(ev) && event_is(
                    ev@,
                    EventType::TaskCompleted,
                    Some(self.id()),
                    Some(TaskStatus::Running),
                    Some(TaskStatus::Completed),
                    None,
                ),
                TaskStatus::Failed => e matches Some(ev) && event_is(
                    ev@,
                    EventType::TaskFailed,
                    Some(self.id()),
                    Some(TaskStatus::Running),
                    Some(TaskStatus::Failed),
                    Some(failure_report(self.config@.name)),
                ),
                _ => e is None,
            },
    {
        let id = self.config.id.unwrap();
        match self.status {
            TaskStatus::Completed => Some(Event::task_completed(id)),
            TaskStatus::Failed => {
                let msg = framed("Task ", &self.config.name, " failed");
                Some(Event::task_failed(id, msg))
            },
            _ => None,
        }
    }

    /// Records what an event says of dependency `dep_id`: a completion or a
    /// failure of that dependency updates its state. Returns whether the
    /// task must be woken to check again whether it can start.
    pub fn apply_dependency_event(&mut self, dep_id: u128, event: &Event) -> (wake: bool)
        ensures
            wake == (event.task_id == Some(dep_id) && old(self).dependency_status@.contains_key(dep_id)
                && reported_state(event.event_type) is Some),
            final(self).dependency_status@ == if wake {
                old(self).dependency_status@.insert(dep_id, reported_state(event.event_type).unwrap())
            } else {
                old(self).dependency_status@
            },
            final(self).dependency_status@ == recorded(old(self).dependency_status@, dep_id, event@),
            tracks_dependencies(old(self)@) ==> tracks_dependencies(final(self)@),
            *final(self) == (Task { dependency_status: final(self).dependency_status, ..*old(self) }),
    {
        match event.task_id {
            Some(event_task_id) => {
                if event_task_id != dep_id {
                    return false;
                }
            },
            None => {
                return false;
            },
        }
        let current: DependencyState = match self.dependency_status.get(&dep_id) {
            Some(state) => *state,
            None => {
                return false;
            },
        };
        let new_state = match event.event_type {
            EventType::TaskCompleted => DependencyState::Completed,
            EventType::TaskFailed => DependencyState::Failed,
            _ => {
                return false;
            },
        };
        if current != new_state {
            self.dependency_status.insert(dep_id, new_state);
        } else {
            proof {
                assert(self.dependency_status@ =~= self.dependency_status@.insert(dep_id, new_state));
            }
        }
        proof {
            assert(self.dependency_status@.dom() =~= old(self).dependency_status@.dom());
        }
        true
    }

    /// A snapshot of the task's progress.
    pub fn get_info(&self) -> (info: TaskInfo)
        requires
            self.config.id is Some,
        ensures
            info == (TaskInfo {
                id: self.id(),
                status: self.status,
                start_time: self.start_time,
                end_time: self.end_time,
                execution_order: self.execution_order,
            }),
    {
        TaskInfo {
            id: self.config.id.unwrap(),
            status: self.status,
            start_time: self.start_time,
            end_time: self.end_time,
            execution_order: self.execution_order,
        }
    }

    /// The subscriptions the task needs to follow its dependencies (see
    /// [`dependency_subscriptions_of`]): the kind of event and the
    /// dependency that each listener filters on.
    pub fn dependency_subscriptions(&self) -> (subs: Vec<(EventType, u128)>)
        ensures
            subs@ == dependency_subscriptions_of(self.config@.dependencies),
    {
        let deps = &self.config.dependencies;
        let mut subs: Vec<(EventType, u128)> = Vec::new();
        let mut i: usize = 0;
        while i < deps.len()
            invariant
                i <= deps.len(),
                deps@ == self.config@.dependencies,
                subs@ == dependency_subscriptions_of(deps@.take(i as int)),
            decreases deps.len() - i,
        {
            let dep_id = deps[i];
            proof {
                assert(deps@.take(i + 1).drop_last() == deps@.take(i as int));
                assert(deps@.take(i + 1).last() == dep_id);
            }
            subs.push((EventType::TaskCompleted, dep_id));
            subs.push((EventType::TaskFailed, dep_id));
            i = i + 1;
        }
        proof {
            assert(deps@.take(deps.len() as int) == deps@);
        }
        subs
    }

    /// Sets the state of a known dependency; an unknown one is ignored.
    pub fn set_dependency_status(&mut self, dependency_id: u128, state: DependencyState)
        ensures
            final(self).dependency_status@ == if old(self).dependency_status@.contains_key(dependency_id) {
                old(self).dependency_status@.insert(dependency_id, state)
            } else {
                old(self).dependency_status@
            },
            *final(self) == (Task { dependency_status: final(self).dependency_status, ..*old(self) }),
            tracks_dependencies(old(self)@) ==> tracks_dependencies(final(self)@),
    {
        if self.dependency_status.contains_key(&dependency_id) {
            self.dependency_status.insert(dependency_id, state);
            proof {
                assert(self.dependency_status@.dom() =~= old(self).dependency_status@.dom());
            }
        }
    }

    /// Allows (`true`) or forbids (`false`) further runs.
    pub fn set_execution_lock(&mut self, status: bool)
        ensures
            *final(self) == (Task { execution_lock: status, ..*old(self) }),
    {
        self.execution_lock = status;
    }

    /// Starts a run that the task is allowed to make: records its position
    /// among the runs of its mission and its start time, marks it running,
    /// and returns the status-change event.
    pub fn begin_run(&mut self, order: usize, now: i64) -> (e: Event)
        requires
            old(self).config.id is Some,
            old(self).execution_lock,
        ensures
            *final(self) == (Task {
                status: TaskStatus::Running,
                execution_order: Some(order),
                start_time: Some(now),
                ..*old(self)
            }),
            event_is(e@, EventType::TaskStatusChanged, Some(old(self).id()), Some(old(self).status), Some(TaskStatus::Running), None),
    {
        self.execution_order = Some(order);
        self.start_time = Some(now);
        self.set_status_external(TaskStatus::Running)
    }

    /// Ends a run: records the end time and the outcome, and returns the
    /// events to publish, in order. A failed run marks the task failed. A
    /// successful one-off run marks it completed unless it was stopped
    /// meanwhile; a periodic task's status is left as it is.
    pub fn finish_run(&mut self, succeeded: bool, now: i64) -> (events: Vec<Event>)
        requires
            old(self).config.id is Some,
        ensures
            final(self)@ == finished_view(old(self)@, succeeded, now),
            finish_events(events@, old(self)@, succeeded),
            final(self).end_time == Some(now),
            !succeeded ==> final(self).status == TaskStatus::Failed && events@.len() == 2
                && events@[1]@.event_type == EventType::TaskFailed && events@[1]@.task_id == Some(old(self).id()),
    {
        self.end_time = Some(now);
        let mut events: Vec<Event> = Vec::new();
        if succeeded {
            if !self.config.is_periodic && self.execution_lock {
                events.push(self.set_status_external(TaskStatus::Completed));
                match self.notify_completion() {
                    Some(e) => events.push(e),
                    None => {},
                }
            }
        } else {
            events.push(self.set_status_external(TaskStatus::Failed));
            match self.notify_completion() {
                Some(e) => events.push(e),
                None => {},
            }
        }
        events
    }

    /// The event a periodic task reports after one cycle: completion, or a
    /// failure carrying the text of the cycle's error.
    pub fn periodic_cycle_event(&self, error_text: Option<String>) -> (e: Event)
        requires
            self.config.id is Some,
        ensures
            match error_text {
                None => event_is(e@, EventType::TaskCompleted, Some(self.id()), Some(TaskStatus::Running), Some(TaskStatus::Completed), None),
                Some(t) => event_is(e@, EventType::TaskFailed, Some(self.id()), Some(TaskStatus::Running), Some(TaskStatus::Failed), Some(periodic_failure_report(t@))),
            },
    {
        let id = self.config.id.unwrap();
        match error_text {
            None => Event::task_completed(id),
            Some(t) => {
                let mut msg = String::from_str("Periodic cycle failed: ");
                msg.append(t.as_str());
                Event::task_failed(id, msg)
            },
        }
    }

    /// The interval of a periodic task, in milliseconds.
    pub fn parse_interval(&self) -> (res: Result<u64, NightError>)
        ensures
            match parsed_u64(self.config@.interval) {
                Some(ms) => res == Ok::<u64, NightError>(ms),
                None => res matches Err(NightError::Task(m)) && m@ == "Invalid interval format"@,
            },
    {
        match parse_u64(self.config.interval.as_str()) {
            Some(ms) => Ok(ms),
            None => Err(NightError::Task(String::from_str("Invalid interval format"))),
        }
    }
}

/// Where a scheduler stands.
#[derive(Clone, Copy, Debug, PartialEq, Eq, Structural)]
pub enum SchedulerPhase {
    /// Nothing ran yet.
    Starting,
    /// The first run of a periodic task finished.
    FirstRunDone,
    /// The interval timer of a periodic task ticked.
    Ticked,
}

/// What a scheduler does next.
#[derive(Clone, Copy, Debug, PartialEq, Eq, Structural)]
pub enum SchedulerStep {
    /// Run the task once and end with its result.
    RunOnceAndFinish,
    /// Run the task; on success go on, on error end with it.
    Run,
    /// Read the interval (ending with its error if it is invalid) and wait
    /// for the timer.
    StartTimer,
    /// End successfully.
    Finish,
}

/// Runs one task: once, or periodically until the task is stopped.
pub struct TaskScheduler {
    is_periodic: bool,
    interval: String,
}

impl TaskScheduler {
    /// The kind of run and the interval of the scheduled task.
    pub closed spec fn schedule(&self) -> (bool, Seq<char>) {
        (self.is_periodic, self.interval@)
    }

    /// A scheduler for `task`.
    pub fn new(task: &Task) -> (s: Self)
        ensures
            s.schedule() == (task.config.is_periodic, task.config@.interval),
    {
        TaskScheduler { is_periodic: task.config.is_periodic, interval: task.config.interval.clone() }
    }

    /// The interval of the periodic runs, in milliseconds.
    pub fn parse_interval(&self) -> (res: Result<u64, NightError>)
        ensures
            match parsed_u64(self.schedule().1) {
                Some(ms) => res == Ok::<u64, NightError>(ms),
                None => res matches Err(NightError::Task(m)) && m@ == interval_error_report(self.schedule().1),
            },
    {
        match parse_u64(self.interval.as_str()) {
            Some(ms) => Ok(ms),
            None => Err(NightError::Task(framed("Invalid interval format: '", &self.interval, "'"))),
        }
    }

    /// The next step, given the phase and whether the task may still run.
    /// A one-off task runs once. A periodic task runs at once if allowed,
    /// then on every tick of its timer until it is stopped.
    pub fn next_step(&self, phase: SchedulerPhase, should_run: bool) -> (step: SchedulerStep)
        ensures
            step == if !self.schedule().0 {
                SchedulerStep::RunOnceAndFinish
            } else {
                match phase {
                    SchedulerPhase::Starting => if should_run {
                        SchedulerStep::Run
                    } else {
                        SchedulerStep::Finish
                    },
                    SchedulerPhase::FirstRunDone => SchedulerStep::StartTimer,
                    SchedulerPhase::Ticked => if should_run {
                        SchedulerStep::Run
                    } else {
                        SchedulerStep::Finish
                    },
                }
            },
    {
        if !self.is_periodic {
            return SchedulerStep::RunOnceAndFinish;
        }
        match phase {
            SchedulerPhase::Starting => if should_run {
                SchedulerStep::Run
            } else {
                SchedulerStep::Finish
            },
            SchedulerPhase::FirstRunDone => SchedulerStep::StartTimer,
            SchedulerPhase::Ticked => if should_run {
                SchedulerStep::Run
            } else {
                SchedulerStep::Finish
            },
        }
    }
}

} // verus!
