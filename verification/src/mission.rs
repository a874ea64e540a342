//! A mission: its configuration, its dependency graph and the state of its
//! tasks; stopping a task stops every task that depends on it.
use vstd::prelude::*;
use vstd::std_specs::iter::IteratorSpec;
use std::collections::{HashMap, HashSet};
use crate::types::{clone_tasks, MissionConfig, MissionConfigView, TaskConfig, TaskConfigView, TaskStatus, DependencyState, TaskInfo, NightError};
use crate::topology::{
    TopologyManager, config_views, ids_present, task_map, reverse_map, list_or_empty, lists_view,
    record_dependents, graph_valid, construction_error, levels_view, add_dependents, ids_distinct, occurrences,
    dependency_map, lemma_distinct_ids_reverse_consistent, lemma_reverse_matches_when_distinct,
};
use crate::graph::is_level_schedule;
use crate::task::{
    Task, TaskView, Readiness, all_pending, dependencies_met, finished_view, finish_events, reported_state,
    tracks_dependencies, lemma_all_pending_domain, recorded,
};
use crate::event::{Event, EventType, EventView, event_is};
use crate::ids::{uuid_string, uuid_text};
use crate::text::framed;

verus! {

broadcast use vstd::std_specs::hash::group_hash_axioms;

/// `y` is a known task that `x` lists among its dependents.
pub open spec fn dependent_edge(tasks: Map<u128, TaskView>, x: u128, y: u128) -> bool {
    &&& tasks.contains_key(x)
    &&& tasks.contains_key(y)
    &&& tasks[x].dependent_tasks.contains(y)
}

/// Consecutive entries of `path` are dependent edges.
pub open spec fn is_dependent_chain(tasks: Map<u128, TaskView>, path: Seq<u128>) -> bool {
    &&& path.len() >= 1
    &&& forall|i: int| 0 <= i < path.len() - 1 ==> #[trigger] dependent_edge(tasks, path[i], path[i + 1])
}

/// `to` depends, directly or through other tasks, on `from` (or is `from`).
pub open spec fn reaches(tasks: Map<u128, TaskView>, from: u128, to: u128) -> bool {
    exists|path: Seq<u128>| #[trigger] is_dependent_chain(tasks, path) && path[0] == from && path.last() == to
}

/// The tasks whose dependency on `root` is recorded when `root` is stopped:
/// the stopped tasks that list `u` among their dependents.
pub open spec fn stop_sources(tasks: Map<u128, TaskView>, root: u128, u: u128) -> Set<u128> {
    Set::new(|x: u128| reaches(tasks, root, x) && dependent_edge(tasks, x, u))
}

/// `t` after a stop: when `node` holds it is locked and pending, and its
/// dependencies in `sources` are pending again.
pub open spec fn stop_mark(t: TaskView, node: bool, sources: Set<u128>) -> TaskView {
    TaskView {
        execution_lock: if node {
            false
        } else {
            t.execution_lock
        },
        status: if node {
            TaskStatus::Pending
        } else {
            t.status
        },
        dependency_status: Map::new(
            |k: u128| t.dependency_status.contains_key(k),
            |k: u128|
                if sources.contains(k) {
                    DependencyState::Pending
                } else {
                    t.dependency_status[k]
                },
        ),
        ..t
    }
}

/// The tasks after stopping `root`: `root` and every task that depends on it,
/// directly or not, are locked and pending, and each of them records its
/// stopped dependencies as pending; every other task is unchanged.
pub open spec fn stopped(tasks: Map<u128, TaskView>, root: u128) -> Map<u128, TaskView> {
    Map::new(
        |u: u128| tasks.contains_key(u),
        |u: u128| stop_mark(tasks[u], reaches(tasks, root, u), stop_sources(tasks, root, u)),
    )
}

/// The state of every task of a fresh mission built from `v`, whose
/// reverse relation is `rev`.
pub open spec fn fresh_task(v: Seq<TaskConfigView>, rev: Map<u128, Seq<u128>>, id: u128) -> TaskView {
    TaskView {
        config: task_map(v)[id],
        status: TaskStatus::Pending,
        start_time: None,
        end_time: None,
        execution_lock: true,
        dependency_status: all_pending(task_map(v)[id].dependencies),
        execution_order: None,
        dependent_tasks: list_or_empty(rev, id),
    }
}

/// The tasks of a fresh mission built from `v`.
pub open spec fn fresh_tasks(v: Seq<TaskConfigView>) -> Map<u128, TaskView> {
    Map::new(|id: u128| task_map(v).contains_key(id), |id: u128| fresh_task(v, reverse_map(v), id))
}

/// The progress record of task `id` in state `t`.
pub open spec fn info_of(id: u128, t: TaskView) -> TaskInfo {
    TaskInfo {
        id,
        status: t.status,
        start_time: t.start_time,
        end_time: t.end_time,
        execution_order: t.execution_order,
    }
}

/// Models of the tasks of a map.
pub open spec fn task_views(m: Map<u128, Task>) -> Map<u128, TaskView> {
    m.map_values(|t: Task| t@)
}

/// Message of an unknown task.
pub open spec fn not_found_report(id: u128) -> Seq<char> {
    "Task "@ + uuid_text(id) + " not found"@
}

/// The state-change events of a stop: each reports that a task of the
/// stopped set became pending.
pub open spec fn stop_events(events: Seq<Event>, tasks: Map<u128, TaskView>, root: u128) -> bool {
    forall|k: int|
        0 <= k < events.len() ==> {
            let e = (#[trigger] events[k])@;
            &&& e.event_type == EventType::TaskStatusChanged
            &&& e.new_status == Some(TaskStatus::Pending)
            &&& e.data is None
            &&& e.task_id matches Some(u) && reaches(tasks, root, u) && (e.previous_status == Some(tasks[u].status)
                || e.previous_status == Some(TaskStatus::Pending))
        }
}

/// Every event concerns a known task and reports as its previous status
/// either the task's status in `tasks` or pending.
pub open spec fn prior_or_pending(events: Seq<Event>, tasks: Map<u128, TaskView>) -> bool {
    forall|k: int|
        0 <= k < events.len() ==> {
            let e = (#[trigger] events[k])@;
            e.task_id matches Some(u) && tasks.contains_key(u) && (e.previous_status == Some(tasks[u].status)
                || e.previous_status == Some(TaskStatus::Pending))
        }
}

proof fn lemma_prior_or_pending_append(a: Seq<Event>, b: Seq<Event>, tasks: Map<u128, TaskView>)
    requires
        prior_or_pending(a, tasks),
        prior_or_pending(b, tasks),
    ensures
        prior_or_pending(a + b, tasks),
{
    assert forall|k: int| 0 <= k < (a + b).len() implies {
        let e = (#[trigger] (a + b)[k])@;
        e.task_id matches Some(u) && tasks.contains_key(u) && (e.previous_status == Some(tasks[u].status)
            || e.previous_status == Some(TaskStatus::Pending))
    } by {
        if k < a.len() {
            assert((a + b)[k] == a[k]);
        } else {
            assert((a + b)[k] == b[k - a.len()]);
        }
    }
}

/// A mission: its configuration, the graph of its tasks and their states.
pub struct Mission {
    config: MissionConfig,
    topology: TopologyManager,
    tasks: HashMap<u128, Task>,
    next_order: usize,
}

/// Every dependency that a task of `tasks` records as completed is a task
/// that has begun a run.
pub open spec fn completions_backed(tasks: Map<u128, TaskView>) -> bool {
    forall|t: u128, d: u128|
        #![trigger tasks[t].dependency_status[d]]
        tasks.contains_key(t) && tasks[t].dependency_status.contains_key(d) && tasks[t].dependency_status[d]
            == DependencyState::Completed ==> tasks.contains_key(d) && tasks[d].execution_order is Some
}

/// Every task that has begun a run did so after each task it depends on:
/// its run position is larger than theirs.
pub open spec fn order_follows_dependencies(tasks: Map<u128, TaskView>) -> bool {
    forall|t: u128, d: u128|
        #![trigger tasks[t].config.dependencies.contains(d), tasks[d]]
        tasks.contains_key(t) && tasks[t].config.dependencies.contains(d) && tasks[t].execution_order is Some
            ==> tasks.contains_key(d) && tasks[d].execution_order is Some && tasks[d].execution_order.unwrap()
            < tasks[t].execution_order.unwrap()
}

/// An event that reports `dep` completed does so only once `dep` has begun
/// a run.
pub open spec fn backed_event(tasks: Map<u128, TaskView>, dep: u128, e: EventView) -> bool {
    e.event_type == EventType::TaskCompleted && e.task_id == Some(dep) ==> tasks.contains_key(dep)
        && tasks[dep].execution_order is Some
}

/// Every run position already given to a task of `tasks` is below `n`.
pub open spec fn orders_below(tasks: Map<u128, TaskView>, n: usize) -> bool {
    forall|id: u128| #[trigger] tasks.contains_key(id) ==> (tasks[id].execution_order matches Some(o) ==> o < n)
}

impl Mission {
    /// The states of the tasks, by identifier.
    pub closed spec fn tasks_view(&self) -> Map<u128, TaskView> {
        task_views(self.tasks@)
    }

    /// The mission's configuration.
    pub closed spec fn config_view(&self) -> MissionConfigView {
        self.config@
    }

    /// The mission's dependency graph.
    pub closed spec fn graph(&self) -> TopologyManager {
        self.topology
    }

    /// The run position that the next run will get.
    pub closed spec fn order_counter(&self) -> usize {
        self.next_order
    }

    /// The graph is validated, the tasks are the graph's tasks, and each task
    /// is stored under its identifier.
    pub closed spec fn wf(&self) -> bool {
        &&& self.topology.wf()
        &&& self.tasks@.dom() == self.topology.task_view().dom()
        &&& forall|id: u128| #[trigger] self.tasks@.contains_key(id) ==> self.tasks@[id].config.id == Some(id)
        &&& forall|id: u128| #[trigger] self.tasks@.contains_key(id) ==> tracks_dependencies(self.tasks@[id]@)
        &&& orders_below(task_views(self.tasks@), self.next_order)
    }

    /// Builds a mission: its graph (which must be acyclic and name only known
    /// tasks) and a pending task for each configuration, knowing the tasks
    /// that depend on it.
    pub fn new(config: MissionConfig) -> (res: Result<Mission, NightError>)
        requires
            ids_present(config@.tasks),
        ensures
            res is Ok <==> graph_valid(config@.tasks),
            res matches Ok(m) ==> {
                &&& m.wf()
                &&& m.config_view() == config@
                &&& m.graph().built_from(config@.tasks)
                &&& m.tasks_view() == fresh_tasks(config@.tasks)
                &&& m.order_counter() == 0
                &&& completions_backed(m.tasks_view())
                &&& order_follows_dependencies(m.tasks_view())
                &&& (ids_distinct(config@.tasks) ==> m.graph().reverse_matches())
            },
            res matches Err(e) ==> construction_error(config@.tasks, e),
    {
        let ghost v = config@.tasks;
        proof {
            assert(config_views(config.tasks@) == v);
        }
        let topology = match TopologyManager::new(clone_tasks(&config.tasks)) {
            Ok(t) => t,
            Err(e) => {
                return Err(e);
            },
        };
        let mut dependents_map: HashMap<u128, Vec<u128>> = HashMap::new();
        let mut i: usize = 0;
        proof {
            assert(lists_view(dependents_map@) =~= reverse_map(v.take(0)));
        }
        while i < config.tasks.len()
            invariant
                v == config@.tasks,
                ids_present(v),
                i <= config.tasks.len(),
                lists_view(dependents_map@) == reverse_map(v.take(i as int)),
            decreases config.tasks.len() - i,
        {
            let task = &config.tasks[i];
            proof {
                assert(v[i as int] == task@);
                assert(v[i as int].id is Some);
                assert(v.take(i + 1).drop_last() == v.take(i as int));
                assert(v.take(i + 1).last() == v[i as int]);
            }
            let id = task.id.unwrap();
            record_dependents(&mut dependents_map, id, &task.dependencies);
            i = i + 1;
        }
        proof {
            assert(v.take(config.tasks.len() as int) == v);
        }
        let ghost rev = reverse_map(v);
        let mut tasks: HashMap<u128, Task> = HashMap::new();
        let mut i: usize = 0;
        proof {
            assert(task_views(tasks@) =~= Map::new(
                |id: u128| task_map(v.take(0)).contains_key(id),
                |id: u128| fresh_task(v.take(0), rev, id),
            ));
        }
        while i < config.tasks.len()
            invariant
                v == config@.tasks,
                ids_present(v),
                i <= config.tasks.len(),
                lists_view(dependents_map@) == rev,
                rev == reverse_map(v),
                task_views(tasks@) == Map::new(
                    |id: u128| task_map(v.take(i as int)).contains_key(id),
                    |id: u128| fresh_task(v.take(i as int), rev, id),
                ),
                forall|id: u128| #[trigger] tasks@.contains_key(id) ==> tasks@[id].config.id == Some(id),
            decreases config.tasks.len() - i,
        {
            let task_config = &config.tasks[i];
            proof {
                assert(v[i as int] == task_config@);
                assert(v[i as int].id is Some);
                assert(v.take(i + 1).drop_last() == v.take(i as int));
                assert(v.take(i + 1).last() == v[i as int]);
            }
            let id = task_config.id.unwrap();
            let dependents: Vec<u128> = match dependents_map.get(&id) {
                Some(list) => list.clone(),
                None => Vec::new(),
            };
            proof {
                assert(dependents@ == list_or_empty(rev, id));
            }
            let task = Task::new(task_config.clone(), dependents);
            proof {
                let post = v.take(i + 1);
                assert(task_map(post) == task_map(v.take(i as int)).insert(id, task_config@));
                assert(task@ == fresh_task(post, rev, id));
            }
            let ghost old_map = tasks@;
            let ghost new_view = task@;
            tasks.insert(id, task);
            proof {
                let pre = v.take(i as int);
                let post = v.take(i + 1);
                assert(tasks@ == old_map.insert(id, tasks@[id]));
                assert(tasks@[id]@ == new_view);
                assert forall|x: u128| old_map.contains_key(x) implies old_map[x]@ == fresh_task(pre, rev, x) by {
                    assert(task_views(old_map).contains_key(x));
                    assert(task_views(old_map)[x] == old_map[x]@);
                }
                assert forall|x: u128| #[trigger] old_map.contains_key(x) <==> task_map(pre).contains_key(x) by {
                    assert(task_views(old_map).dom() == old_map.dom());
                }
                assert(task_map(post) == task_map(pre).insert(id, task_config@));
                assert forall|x: u128| #[trigger] task_map(post).contains_key(x) implies
                    (task_views(tasks@))[x] == fresh_task(post, rev, x) by {
                    if x != id {
                        assert(task_map(pre).contains_key(x));
                        assert(fresh_task(post, rev, x) == fresh_task(pre, rev, x));
                    }
                }
                assert(task_views(tasks@) =~= Map::new(
                    |x: u128| task_map(post).contains_key(x),
                    |x: u128| fresh_task(post, rev, x),
                ));
            }
            i = i + 1;
        }
        proof {
            assert(v.take(config.tasks.len() as int) == v);
        }
        let mission = Mission { config, topology, tasks, next_order: 0 };
        proof {
            assert(mission.tasks_view() == fresh_tasks(v));
            assert(mission.topology.task_view() == task_map(v));
            assert(task_views(mission.tasks@).dom() == mission.tasks@.dom());
            assert forall|x: u128| mission.tasks@.dom().contains(x) <==> task_map(v).dom().contains(x) by {
                assert(task_views(mission.tasks@).dom().contains(x) == mission.tasks@.dom().contains(x));
            }
            assert(mission.tasks@.dom() =~= mission.topology.task_view().dom());
            assert forall|id: u128| #[trigger] mission.tasks@.contains_key(id) implies tracks_dependencies(mission.tasks@[id]@) by {
                assert(task_views(mission.tasks@).contains_key(id));
                assert(task_views(mission.tasks@)[id] == mission.tasks@[id]@);
                assert(fresh_tasks(v).contains_key(id));
                assert(fresh_tasks(v)[id] == fresh_task(v, reverse_map(v), id));
                assert(mission.tasks@[id]@ == fresh_task(v, rev, id));
                lemma_all_pending_domain(task_map(v)[id].dependencies);
            }
            assert forall|id: u128| #[trigger] task_views(mission.tasks@).contains_key(id) implies
                task_views(mission.tasks@)[id].execution_order is None by {
                assert(fresh_tasks(v).contains_key(id));
            }
            if ids_distinct(v) {
                lemma_reverse_matches_when_distinct(mission.topology, v);
            }
        }
        Ok(mission)
    }
}

/// The tasks marked so far by a stop from `root` that has recorded the
/// edges `em`: the root and the target of every recorded edge.
pub open spec fn marked_nodes(root: u128, em: Set<(u128, u128)>) -> Set<u128> {
    Set::new(|u: u128| u == root || exists|x: u128| #[trigger] em.contains((x, u)))
}

/// The sources of the recorded edges that end in `u`.
pub open spec fn marked_sources(em: Set<(u128, u128)>, u: u128) -> Set<u128> {
    Set::new(|x: u128| em.contains((x, u)))
}

/// The task states after a stop from `root` has recorded the edges `em`.
pub open spec fn mark_state(m0: Map<u128, TaskView>, root: u128, em: Set<(u128, u128)>) -> Map<u128, TaskView> {
    Map::new(
        |u: u128| m0.contains_key(u),
        |u: u128| stop_mark(m0[u], marked_nodes(root, em).contains(u), marked_sources(em, u)),
    )
}

/// The dependent edges leaving the tasks of `now` that are not in `before`.
pub open spec fn new_edges(m0: Map<u128, TaskView>, now: Set<u128>, before: Set<u128>) -> Set<(u128, u128)> {
    Set::new(|p: (u128, u128)| now.contains(p.0) && !before.contains(p.0) && dependent_edge(m0, p.0, p.1))
}

/// Every event reports that a task marked by `em` became pending.
pub open spec fn marking_events(events: Seq<Event>, root: u128, em: Set<(u128, u128)>) -> bool {
    forall|k: int|
        0 <= k < events.len() ==> {
            let e = (#[trigger] events[k])@;
            &&& e.event_type == EventType::TaskStatusChanged
            &&& e.new_status == Some(TaskStatus::Pending)
            &&& e.data is None
            &&& e.task_id matches Some(u) && marked_nodes(root, em).contains(u)
        }
}

proof fn lemma_reach_extend(m: Map<u128, TaskView>, root: u128, x: u128, y: u128)
    requires
        reaches(m, root, x),
        dependent_edge(m, x, y),
    ensures
        reaches(m, root, y),
{
    let path = choose|path: Seq<u128>| #[trigger] is_dependent_chain(m, path) && path[0] == root && path.last() == x;
    let p2 = path.push(y);
    assert forall|i: int| 0 <= i < p2.len() - 1 implies #[trigger] dependent_edge(m, p2[i], p2[i + 1]) by {
        if i < path.len() - 1 {
            assert(dependent_edge(m, path[i], path[i + 1]));
        }
    }
    assert(is_dependent_chain(m, p2));
}

proof fn lemma_reach_start(m: Map<u128, TaskView>, root: u128)
    ensures
        reaches(m, root, root),
{
    let p = seq![root];
    assert(is_dependent_chain(m, p));
}

/// A task reached from `root` is `root` or the dependent of a task reached
/// from `root`, and is a known task when `root` is.
proof fn lemma_reach_last_step(m: Map<u128, TaskView>, root: u128, u: u128)
    requires
        reaches(m, root, u),
        m.contains_key(root),
    ensures
        m.contains_key(u),
        u == root || exists|x: u128| reaches(m, root, x) && #[trigger] dependent_edge(m, x, u),
{
    let path = choose|path: Seq<u128>| #[trigger] is_dependent_chain(m, path) && path[0] == root && path.last() == u;
    if path.len() > 1 {
        let p2 = path.drop_last();
        let last = path.len() - 2;
        assert(dependent_edge(m, path[last], path[last + 1]));
        assert forall|i: int| 0 <= i < p2.len() - 1 implies #[trigger] dependent_edge(m, p2[i], p2[i + 1]) by {
            assert(dependent_edge(m, path[i], path[i + 1]));
        }
        assert(is_dependent_chain(m, p2));
        assert(reaches(m, root, p2.last()));
    }
}

/// A set that holds `root` and every dependent of its members holds every
/// task reached from `root`.
proof fn lemma_closed_holds_reach(m: Map<u128, TaskView>, root: u128, s: Set<u128>, u: u128)
    requires
        s.contains(root),
        forall|z: u128, w: u128| s.contains(z) && #[trigger] dependent_edge(m, z, w) ==> s.contains(w),
        reaches(m, root, u),
    ensures
        s.contains(u),
{
    let path = choose|path: Seq<u128>| #[trigger] is_dependent_chain(m, path) && path[0] == root && path.last() == u;
    lemma_chain_in_closed(m, path, s, path.len() - 1);
}

proof fn lemma_chain_in_closed(m: Map<u128, TaskView>, path: Seq<u128>, s: Set<u128>, i: int)
    requires
        is_dependent_chain(m, path),
        s.contains(path[0]),
        forall|z: u128, w: u128| s.contains(z) && #[trigger] dependent_edge(m, z, w) ==> s.contains(w),
        0 <= i < path.len(),
    ensures
        s.contains(path[i]),
    decreases i,
{
    if i > 0 {
        let k = i - 1;
        lemma_chain_in_closed(m, path, s, k);
        assert(dependent_edge(m, path[k], path[k + 1]));
    }
}

/// The edges from `x` to the known tasks among the first `j` entries of
/// `deps`.
pub open spec fn first_edges(m0: Map<u128, TaskView>, x: u128, deps: Seq<u128>, j: int) -> Set<(u128, u128)> {
    Set::new(|p: (u128, u128)| p.0 == x && m0.contains_key(p.1) && exists|k: int| 0 <= k < j && #[trigger] deps[k] == p.1)
}

proof fn lemma_first_edges_step(m0: Map<u128, TaskView>, x: u128, deps: Seq<u128>, j: int)
    requires
        0 <= j < deps.len(),
    ensures
        first_edges(m0, x, deps, j + 1) == if m0.contains_key(deps[j]) {
            first_edges(m0, x, deps, j).insert((x, deps[j]))
        } else {
            first_edges(m0, x, deps, j)
        },
{
    let next = if m0.contains_key(deps[j]) {
        first_edges(m0, x, deps, j).insert((x, deps[j]))
    } else {
        first_edges(m0, x, deps, j)
    };
    assert forall|p: (u128, u128)| first_edges(m0, x, deps, j + 1).contains(p) <==> next.contains(p) by {
        if first_edges(m0, x, deps, j + 1).contains(p) {
            let k = choose|k: int| 0 <= k < j + 1 && #[trigger] deps[k] == p.1;
            if k < j {
                assert(first_edges(m0, x, deps, j).contains(p));
            }
        }
        if first_edges(m0, x, deps, j).contains(p) {
            let k = choose|k: int| 0 <= k < j && #[trigger] deps[k] == p.1;
            assert(0 <= k < j + 1 && deps[k] == p.1);
        }
        if m0.contains_key(deps[j]) && p == (x, deps[j]) {
            assert(0 <= j < j + 1 && deps[j] == p.1);
        }
    }
    assert(first_edges(m0, x, deps, j + 1) =~= next);
}

proof fn lemma_first_edges_all(m0: Map<u128, TaskView>, x: u128, deps: Seq<u128>)
    requires
        m0.contains_key(x),
        deps == m0[x].dependent_tasks,
    ensures
        first_edges(m0, x, deps, deps.len() as int) == Set::new(|p: (u128, u128)| p.0 == x && dependent_edge(m0, p.0, p.1)),
{
    let all = Set::new(|p: (u128, u128)| p.0 == x && dependent_edge(m0, p.0, p.1));
    assert forall|p: (u128, u128)| first_edges(m0, x, deps, deps.len() as int).contains(p) <==> all.contains(p) by {
        if first_edges(m0, x, deps, deps.len() as int).contains(p) {
            let k = choose|k: int| 0 <= k < deps.len() && #[trigger] deps[k] == p.1;
            assert(deps.contains(p.1));
        }
        if all.contains(p) {
            assert(deps.contains(p.1));
            let k = choose|k: int| 0 <= k < deps.len() && deps[k] == p.1;
            assert(0 <= k < deps.len() && deps[k] == p.1);
        }
    }
    assert(first_edges(m0, x, deps, deps.len() as int) =~= all);
}

/// The visited tasks are known tasks, and there are no more of them than
/// tasks.
proof fn lemma_visited_bounded(m0: Map<u128, TaskView>, root: u128, visited: Set<u128>)
    requires
        m0.contains_key(root),
        m0.dom().finite(),
        forall|v: u128| #[trigger] visited.contains(v) ==> reaches(m0, root, v),
    ensures
        visited.subset_of(m0.dom()),
        visited.finite(),
        visited.len() <= m0.dom().len(),
{
    assert forall|v: u128| visited.contains(v) implies m0.dom().contains(v) by {
        lemma_reach_last_step(m0, root, v);
    }
    vstd::set_lib::lemma_len_subset(visited, m0.dom());
}

/// Recording the edge `(x, y)` locks `y`, makes it pending, and sets its
/// dependency on `x` pending.
proof fn lemma_mark_step(
    m0: Map<u128, TaskView>,
    root: u128,
    em: Set<(u128, u128)>,
    x: u128,
    y: u128,
    now: Map<u128, TaskView>,
    before: TaskView,
    after: TaskView,
)
    requires
        m0.contains_key(y),
        before == mark_state(m0, root, em)[y],
        now == mark_state(m0, root, em).insert(y, after),
        after == (TaskView {
            execution_lock: false,
            status: TaskStatus::Pending,
            dependency_status: if before.dependency_status.contains_key(x) {
                before.dependency_status.insert(x, DependencyState::Pending)
            } else {
                before.dependency_status
            },
            ..before
        }),
    ensures
        now == mark_state(m0, root, em.insert((x, y))),
{
    let em2 = em.insert((x, y));
    let target = mark_state(m0, root, em2);
    assert forall|u: u128| #[trigger] m0.contains_key(u) implies now[u] == target[u] by {
        if u == y {
            assert(marked_nodes(root, em2).contains(y)) by {
                assert(em2.contains((x, y)));
            }
            assert(now[u].dependency_status =~= target[u].dependency_status);
        } else {
            assert(marked_nodes(root, em2).contains(u) == marked_nodes(root, em).contains(u)) by {
                if marked_nodes(root, em2).contains(u) && u != root {
                    let z = choose|z: u128| #[trigger] em2.contains((z, u));
                    assert(em.contains((z, u)));
                }
                if marked_nodes(root, em).contains(u) && u != root {
                    let z = choose|z: u128| #[trigger] em.contains((z, u));
                    assert(em2.contains((z, u)));
                }
            }
            assert(marked_sources(em2, u) =~= marked_sources(em, u));
        }
    }
    assert(now =~= target);
}

/// Recording more edges keeps every reported task marked.
proof fn lemma_marking_events_grow(events: Seq<Event>, root: u128, em1: Set<(u128, u128)>, em2: Set<(u128, u128)>)
    requires
        marking_events(events, root, em1),
        em1.subset_of(em2),
    ensures
        marking_events(events, root, em2),
{
    assert forall|k: int| 0 <= k < events.len() implies {
        let e = (#[trigger] events[k])@;
        e.task_id matches Some(u) && marked_nodes(root, em2).contains(u)
    } by {
        let u = events[k]@.task_id.unwrap();
        if u != root {
            assert(marked_nodes(root, em1).contains(u));
            let z = choose|z: u128| #[trigger] em1.contains((z, u));
            assert(em2.contains((z, u)));
        }
    }
}

/// Every edge of `edges` has an event about its target in `events`.
pub open spec fn covers(events: Seq<Event>, edges: Set<(u128, u128)>) -> bool {
    forall|p: (u128, u128)| #[trigger] edges.contains(p) ==> exists|k: int| 0 <= k < events.len() && events[k]@.task_id == Some(p.1)
}

/// Joining event lists joins what they cover.
proof fn lemma_covers_append(a: Seq<Event>, b: Seq<Event>, ea: Set<(u128, u128)>, eb: Set<(u128, u128)>)
    requires
        covers(a, ea),
        covers(b, eb),
    ensures
        covers(a + b, ea + eb),
{
    assert forall|p: (u128, u128)| #[trigger] (ea + eb).contains(p) implies exists|k: int| 0 <= k < (a + b).len() && (a + b)[k]@.task_id == Some(p.1) by {
        if ea.contains(p) {
            let k = choose|k: int| 0 <= k < a.len() && a[k]@.task_id == Some(p.1);
            assert((a + b)[k] == a[k]);
        } else {
            let k = choose|k: int| 0 <= k < b.len() && b[k]@.task_id == Some(p.1);
            assert((a + b)[a.len() + k] == b[k]);
        }
    }
}

/// Some event of `events` concerns task `u`.
pub open spec fn reported_in(events: Seq<Event>, u: u128) -> bool {
    exists|j: int| 0 <= j < events.len() && #[trigger] events[j]@.task_id == Some(u)
}

/// Each event reports as its previous status the status that its task had
/// when the event was made: pending when an earlier event of `events`
/// already concerned the task, its status in `tasks` otherwise.
pub open spec fn first_report_rule(events: Seq<Event>, tasks: Map<u128, TaskView>) -> bool {
    forall|k: int|
        0 <= k < events.len() && (#[trigger] events[k])@.task_id is Some ==> events[k]@.previous_status
            == Some(status_when_reported(events.take(k), tasks, events[k]@.task_id.unwrap()))
}

/// The status of task `u` when an event is made after `earlier`: pending
/// when an event of `earlier` concerned it, its status in `tasks`
/// otherwise.
pub open spec fn status_when_reported(earlier: Seq<Event>, tasks: Map<u128, TaskView>, u: u128) -> TaskStatus {
    if reported_in(earlier, u) {
        TaskStatus::Pending
    } else {
        tasks[u].status
    }
}

proof fn lemma_reported_push(a: Seq<Event>, e: Event, u: u128)
    ensures
        reported_in(a.push(e), u) <==> (reported_in(a, u) || e@.task_id == Some(u)),
{
    if reported_in(a, u) {
        let j = choose|j: int| 0 <= j < a.len() && #[trigger] a[j]@.task_id == Some(u);
        assert(a.push(e)[j] == a[j]);
    }
    if e@.task_id == Some(u) {
        assert(a.push(e)[a.len() as int] == e);
    }
    if reported_in(a.push(e), u) {
        let j = choose|j: int| 0 <= j < a.push(e).len() && #[trigger] a.push(e)[j]@.task_id == Some(u);
        if j < a.len() {
            assert(a[j] == a.push(e)[j]);
        }
    }
}

proof fn lemma_first_report_push(a: Seq<Event>, e: Event, tasks: Map<u128, TaskView>, u: u128)
    requires
        first_report_rule(a, tasks),
        e@.task_id == Some(u),
        e@.previous_status == Some(status_when_reported(a, tasks, u)),
    ensures
        first_report_rule(a.push(e), tasks),
{
    let b = a.push(e);
    assert forall|k: int| 0 <= k < b.len() && (#[trigger] b[k])@.task_id is Some implies b[k]@.previous_status
        == Some(status_when_reported(b.take(k), tasks, b[k]@.task_id.unwrap())) by {
        if k < a.len() {
            assert(b[k] == a[k]);
            assert(b.take(k) =~= a.take(k));
        } else {
            assert(b.take(k) =~= a);
        }
    }
}

proof fn lemma_first_report_append(a: Seq<Event>, b: Seq<Event>, c: Seq<Event>, tasks: Map<u128, TaskView>)
    requires
        first_report_rule((a + b) + c, tasks),
    ensures
        first_report_rule(a + (b + c), tasks),
{
    assert((a + b) + c =~= a + (b + c));
}

/// Two event lists that each report marked tasks report marked tasks together.
proof fn lemma_marking_events_append(a: Seq<Event>, b: Seq<Event>, root: u128, em: Set<(u128, u128)>)
    requires
        marking_events(a, root, em),
        marking_events(b, root, em),
    ensures
        marking_events(a + b, root, em),
{
    assert forall|k: int| 0 <= k < (a + b).len() implies {
        let e = (#[trigger] (a + b)[k])@;
        &&& e.event_type == EventType::TaskStatusChanged
        &&& e.new_status == Some(TaskStatus::Pending)
        &&& e.data is None
        &&& e.task_id matches Some(u) && marked_nodes(root, em).contains(u)
    } by {
        if k < a.len() {
            assert((a + b)[k] == a[k]);
        } else {
            assert((a + b)[k] == b[k - a.len()]);
        }
    }
}

/// The models of a map in which the entry under `k` was taken out and
/// replaced.
proof fn lemma_task_views_replace(m: Map<u128, Task>, k: u128, t: Task)
    requires
        m.contains_key(k),
    ensures
        task_views(m.remove(k).insert(k, t)) == task_views(m).insert(k, t@),
        task_views(m)[k] == m[k]@,
{
    assert(task_views(m.remove(k).insert(k, t)) =~= task_views(m).insert(k, t@));
}

impl Mission {
    /// Stops a task: it may not run any more and is pending again, and so is
    /// every task that depends on it, directly or not; each of those records
    /// its stopped dependencies as pending. Returns the status-change events
    /// to publish, the stopped task's first.
    pub fn stop_task(&mut self, task_id: u128) -> (res: Result<Vec<Event>, NightError>)
        requires
            old(self).wf(),
        ensures
            final(self).wf(),
            final(self).graph() == old(self).graph(),
            final(self).config_view() == old(self).config_view(),
            stays_stopped(old(self).tasks_view(), final(self).tasks_view()),
            final(self).order_counter() == old(self).order_counter(),
            orders_below(final(self).tasks_view(), final(self).order_counter()),
            completions_backed(old(self).tasks_view()) ==> completions_backed(final(self).tasks_view()),
            order_follows_dependencies(old(self).tasks_view()) ==> order_follows_dependencies(final(self).tasks_view()),
            match res {
                Err(e) => {
                    &&& !old(self).tasks_view().contains_key(task_id)
                    &&& final(self).tasks_view() == old(self).tasks_view()
                    &&& e matches NightError::Mission(m) && m@ == not_found_report(task_id)
                },
                Ok(events) => {
                    &&& old(self).tasks_view().contains_key(task_id)
                    &&& final(self).tasks_view() == stopped(old(self).tasks_view(), task_id)
                    &&& stop_events(events@, old(self).tasks_view(), task_id)
                    &&& first_report_rule(events@, old(self).tasks_view())
                    &&& forall|u: u128| #[trigger] reaches(old(self).tasks_view(), task_id, u) ==> exists|k: int|
                        0 <= k < events@.len() && events@[k]@.task_id == Some(u)
                    &&& events@.len() > 0
                    &&& events@[0]@.task_id == Some(task_id)
                    &&& events@[0]@.previous_status == Some(old(self).tasks_view()[task_id].status)
                },
            },
    {
        let ghost m0 = self.tasks_view();
        let ghost tasks0 = self.tasks@;
        let mut task = match self.tasks.remove(&task_id) {
            Some(t) => t,
            None => {
                proof {
                    assert(self.tasks@ =~= tasks0);
                }
                let id_text = uuid_string(task_id);
                return Err(NightError::Mission(framed("Task ", &id_text, " not found")));
            },
        };
        proof {
            assert(m0.contains_key(task_id));
            assert(m0[task_id] == task@);
        }
        task.set_execution_lock(false);
        let first = task.set_status_external(TaskStatus::Pending);
        self.tasks.insert(task_id, task);
        let mut events: Vec<Event> = Vec::new();
        events.push(first);
        let mut visited: HashSet<u128> = HashSet::new();
        proof {
            lemma_reach_start(m0, task_id);
            assert(events@.take(0) =~= Seq::<Event>::empty());
            assert(events@[0] == first);
            assert(first_report_rule(events@, m0));
            assert forall|u: u128| #[trigger] marked_nodes(task_id, Set::<(u128, u128)>::empty()).contains(u) <==> reported_in(events@, u) by {
                if reported_in(events@, u) {
                    let j = choose|j: int| 0 <= j < events@.len() && #[trigger] events@[j]@.task_id == Some(u);
                    assert(j == 0);
                }
                if u == task_id {
                    assert(events@[0]@.task_id == Some(u));
                }
            }
            assert(m0.dom() =~= self.tasks@.dom());
            assert forall|u: u128| #[trigger] m0.contains_key(u) implies task_views(self.tasks@)[u] == mark_state(m0, task_id, Set::empty())[u] by {
                if u == task_id {
                    assert(marked_nodes(task_id, Set::empty()).contains(task_id));
                    assert(m0[u].dependency_status =~= stop_mark(m0[u], true, marked_sources(Set::empty(), u)).dependency_status);
                } else {
                    assert(!marked_nodes(task_id, Set::empty()).contains(u));
                    assert(m0[u].dependency_status =~= stop_mark(m0[u], false, marked_sources(Set::empty(), u)).dependency_status);
                }
            }
            assert(task_views(self.tasks@) =~= mark_state(m0, task_id, Set::empty()));
        }
        let (mut more, Ghost(em)) = self.mark_dependent_tasks_incomplete(
            task_id,
            &mut visited,
            Ghost(m0),
            Ghost(task_id),
            Ghost(Set::empty()),
            Ghost(events@),
        );
        let ghost more_v = more@;
        let ghost first_v = events@;
        events.append(&mut more);
        proof {
            assert(events@ =~= first_v + more_v);
            let c = visited@;
            assert forall|z: u128, w: u128| c.contains(z) && #[trigger] dependent_edge(m0, z, w) implies c.contains(w) by {}
            assert forall|u: u128| #[trigger] reaches(m0, task_id, u) <==> c.contains(u) by {
                if reaches(m0, task_id, u) {
                    lemma_closed_holds_reach(m0, task_id, c, u);
                }
            }
            assert forall|u: u128| #[trigger] marked_nodes(task_id, em).contains(u) <==> reaches(m0, task_id, u) by {
                if marked_nodes(task_id, em).contains(u) && u != task_id {
                    let x = choose|x: u128| #[trigger] em.contains((x, u));
                    assert(new_edges(m0, c, Set::empty()).contains((x, u)));
                    lemma_reach_extend(m0, task_id, x, u);
                }
                if reaches(m0, task_id, u) && u != task_id {
                    lemma_reach_last_step(m0, task_id, u);
                    let x = choose|x: u128| reaches(m0, task_id, x) && #[trigger] dependent_edge(m0, x, u);
                    assert(new_edges(m0, c, Set::empty()).contains((x, u)));
                    assert(em.contains((x, u)));
                }
            }
            assert forall|u: u128| m0.contains_key(u) implies #[trigger] marked_sources(em, u) == stop_sources(m0, task_id, u) by {
                assert forall|x: u128| marked_sources(em, u).contains(x) <==> stop_sources(m0, task_id, u).contains(x) by {
                    if em.contains((x, u)) {
                        assert(new_edges(m0, c, Set::empty()).contains((x, u)));
                    }
                    if stop_sources(m0, task_id, u).contains(x) {
                        assert(new_edges(m0, c, Set::empty()).contains((x, u)));
                    }
                }
                assert(marked_sources(em, u) =~= stop_sources(m0, task_id, u));
            }
            assert(mark_state(m0, task_id, em) =~= stopped(m0, task_id));
            assert(task_views(self.tasks@).dom() == self.tasks@.dom());
            assert(self.tasks@.dom() =~= tasks0.dom());
            assert forall|id: u128| #[trigger] task_views(self.tasks@).contains_key(id) implies
                (task_views(self.tasks@)[id].execution_order matches Some(o) ==> o < self.next_order) by {
                assert(tasks0.contains_key(id));
                assert(task_views(tasks0).contains_key(id));
            }
            assert forall|id: u128| #[trigger] self.tasks@.contains_key(id) implies tracks_dependencies(self.tasks@[id]@) by {
                assert(task_views(self.tasks@).contains_key(id));
                assert(self.tasks@[id]@ == stopped(m0, task_id)[id]);
                assert(tasks0.contains_key(id));
                assert(m0[id] == tasks0[id]@);
                assert(self.tasks@[id]@.dependency_status.dom() =~= m0[id].dependency_status.dom());
            }
            assert forall|k: int| 0 <= k < events@.len() implies {
                let e = (#[trigger] events@[k])@;
                &&& e.event_type == EventType::TaskStatusChanged
                &&& e.new_status == Some(TaskStatus::Pending)
                &&& e.data is None
                &&& e.task_id matches Some(u) && reaches(m0, task_id, u) && (e.previous_status == Some(m0[u].status)
                    || e.previous_status == Some(TaskStatus::Pending))
            } by {
                if k > 0 {
                    assert(events@[k] == more_v[k - 1]);
                    assert(prior_or_pending(more_v, m0));
                    let e = more_v[k - 1]@;
                    let u = e.task_id.unwrap();
                    assert(marked_nodes(task_id, em).contains(u));
                } else {
                    assert(events@[0] == first_v[0]);
                    lemma_reach_start(m0, task_id);
                }
            }
            if order_follows_dependencies(m0) {
                let f = stopped(m0, task_id);
                assert forall|t: u128, d: u128|
                    #![trigger f[t].config.dependencies.contains(d), f[d]]
                    f.contains_key(t) && f[t].config.dependencies.contains(d) && f[t].execution_order is Some
                        implies f.contains_key(d) && f[d].execution_order is Some && f[d].execution_order.unwrap()
                        < f[t].execution_order.unwrap() by {
                    assert(m0[t].config.dependencies.contains(d));
                    assert(m0.contains_key(d));
                }
            }
            assert forall|u: u128| #[trigger] reaches(m0, task_id, u) implies exists|k: int|
                0 <= k < events@.len() && events@[k]@.task_id == Some(u) by {
                if u == task_id {
                    assert(events@[0] == first_v[0]);
                } else {
                    lemma_reach_last_step(m0, task_id, u);
                    let x = choose|x: u128| reaches(m0, task_id, x) && #[trigger] dependent_edge(m0, x, u);
                    assert(new_edges(m0, c, Set::empty()).contains((x, u)));
                    let k = choose|k: int| 0 <= k < more_v.len() && more_v[k]@.task_id == Some(u);
                    assert(events@[k + 1] == more_v[k]);
                }
            }
        }
        Ok(events)
    }

    /// Marks, depth first, every task that depends on `task_id` as stopped;
    /// `visited` holds the tasks already expanded.
    fn mark_dependent_tasks_incomplete(
        &mut self,
        task_id: u128,
        visited: &mut HashSet<u128>,
        Ghost(m0): Ghost<Map<u128, TaskView>>,
        Ghost(root): Ghost<u128>,
        Ghost(em): Ghost<Set<(u128, u128)>>,
        Ghost(prior): Ghost<Seq<Event>>,
    ) -> (res: (Vec<Event>, Ghost<Set<(u128, u128)>>))
        requires
            first_report_rule(prior, m0),
            forall|u: u128| #[trigger] marked_nodes(root, em).contains(u) <==> reported_in(prior, u),
            task_views(old(self).tasks@) == mark_state(m0, root, em),
            m0.contains_key(root),
            m0.dom().finite(),
            reaches(m0, root, task_id),
            forall|v: u128| #[trigger] old(visited)@.contains(v) ==> reaches(m0, root, v),
            forall|p: (u128, u128)| #[trigger] em.contains(p) ==> old(visited)@.contains(p.0) && dependent_edge(m0, p.0, p.1),
            forall|id: u128| #[trigger] old(self).tasks@.contains_key(id) ==> old(self).tasks@[id].config.id == Some(id),
        ensures
            task_views(final(self).tasks@) == mark_state(m0, root, res.1@),
            final(self).topology == old(self).topology,
            final(self).config == old(self).config,
            final(self).next_order == old(self).next_order,
            forall|id: u128| #[trigger] final(self).tasks@.contains_key(id) ==> final(self).tasks@[id].config.id == Some(id),
            old(visited)@.subset_of(final(visited)@),
            final(visited)@.contains(task_id),
            forall|v: u128| #[trigger] final(visited)@.contains(v) ==> reaches(m0, root, v),
            res.1@ == em + new_edges(m0, final(visited)@, old(visited)@),
            forall|z: u128, w: u128|
                final(visited)@.contains(z) && !old(visited)@.contains(z) && #[trigger] dependent_edge(m0, z, w)
                    ==> final(visited)@.contains(w),
            marking_events(res.0@, root, res.1@),
            prior_or_pending(res.0@, m0),
            covers(res.0@, new_edges(m0, final(visited)@, old(visited)@)),
            first_report_rule(prior + res.0@, m0),
            forall|u: u128| #[trigger] marked_nodes(root, res.1@).contains(u) <==> reported_in(prior + res.0@, u),
            old(visited)@.contains(task_id) ==> {
                &&& final(visited)@ == old(visited)@
                &&& res.1@ == em
                &&& res.0@.len() == 0
                &&& final(self).tasks@ == old(self).tasks@
            },
        decreases m0.dom().len() - old(visited)@.len(),
    {
        if visited.contains(&task_id) {
            proof {
                assert(em + new_edges(m0, visited@, visited@) =~= em);
                assert(prior + Seq::<Event>::empty() =~= prior);
            }
            return (Vec::new(), Ghost(em));
        }
        let ghost visited0 = visited@;
        proof {
            lemma_visited_bounded(m0, root, visited0);
        }
        visited.insert(task_id);
        let dependent_ids: Vec<u128> = match self.tasks.get(&task_id) {
            Some(t) => t.dependent_tasks.clone(),
            None => {
                proof {
                    assert(!m0.contains_key(task_id)) by {
                        assert(task_views(self.tasks@).dom() == self.tasks@.dom());
                    }
                    assert(em + new_edges(m0, visited@, visited0) =~= em);
                    assert(prior + Seq::<Event>::empty() =~= prior);
                }
                return (Vec::new(), Ghost(em));
            },
        };
        proof {
            assert(task_views(self.tasks@).contains_key(task_id));
            assert(m0.contains_key(task_id));
            assert(task_views(self.tasks@)[task_id] == self.tasks@[task_id]@);
            assert(dependent_ids@ == self.tasks@[task_id].dependent_tasks@);
            assert(dependent_ids@ == m0[task_id].dependent_tasks);
        }
        let ghost entry = visited0.insert(task_id);
        let mut events: Vec<Event> = Vec::new();
        let ghost mut em_cur = em;
        proof {
            assert(prior + events@ =~= prior);
        }
        let mut j: usize = 0;
        while j < dependent_ids.len()
            invariant
                j <= dependent_ids.len(),
                m0.contains_key(root),
                m0.contains_key(task_id),
                reaches(m0, root, task_id),
                dependent_ids@ == m0[task_id].dependent_tasks,
                visited0 == old(visited)@,
                entry == visited0.insert(task_id),
                !visited0.contains(task_id),
                visited0.finite(),
                visited0.len() <= m0.dom().len(),
                m0.dom().finite(),
                entry.subset_of(visited@),
                forall|v: u128| #[trigger] visited@.contains(v) ==> reaches(m0, root, v),
                task_views(self.tasks@) == mark_state(m0, root, em_cur),
                self.topology == old(self).topology,
                self.config == old(self).config,
                self.next_order == old(self).next_order,
                forall|id: u128| #[trigger] self.tasks@.contains_key(id) ==> self.tasks@[id].config.id == Some(id),
                em_cur == em + first_edges(m0, task_id, dependent_ids@, j as int) + new_edges(m0, visited@, entry),
                forall|p: (u128, u128)| #[trigger] em_cur.contains(p) ==> visited@.contains(p.0) && dependent_edge(m0, p.0, p.1),
                forall|k: int| 0 <= k < j && m0.contains_key(#[trigger] dependent_ids@[k]) ==> visited@.contains(dependent_ids@[k]),
                forall|z: u128, w: u128|
                    visited@.contains(z) && !entry.contains(z) && #[trigger] dependent_edge(m0, z, w) ==> visited@.contains(w),
                marking_events(events@, root, em_cur),
                prior_or_pending(events@, m0),
                first_report_rule(prior + events@, m0),
                forall|u: u128| #[trigger] marked_nodes(root, em_cur).contains(u) <==> reported_in(prior + events@, u),
                covers(events@, first_edges(m0, task_id, dependent_ids@, j as int) + new_edges(m0, visited@, entry)),
            decreases dependent_ids.len() - j,
        {
            let dependent_id = dependent_ids[j];
            let ghost em_j = em_cur;
            let ghost visited_j = visited@;
            let ghost tasks_j = self.tasks@;
            proof {
                lemma_first_edges_step(m0, task_id, dependent_ids@, j as int);
                assert(dependent_ids@[j as int] == dependent_id);
            }
            match self.tasks.remove(&dependent_id) {
                Some(dependent_task) => {
                    let mut dependent_task = dependent_task;
                    let ghost before = dependent_task@;
                    proof {
                        assert(tasks_j.contains_key(dependent_id));
                        assert(dependent_task == tasks_j[dependent_id]);
                        lemma_task_views_replace(tasks_j, dependent_id, dependent_task);
                        assert(task_views(tasks_j).contains_key(dependent_id));
                        assert(m0.contains_key(dependent_id));
                    }
                    dependent_task.set_dependency_status(task_id, DependencyState::Pending);
                    dependent_task.set_execution_lock(false);
                    let e = dependent_task.set_status_external(TaskStatus::Pending);
                    let ghost after = dependent_task@;
                    self.tasks.insert(dependent_id, dependent_task);
                    proof {
                        lemma_task_views_replace(tasks_j, dependent_id, dependent_task);
                        assert(self.tasks@ == tasks_j.remove(dependent_id).insert(dependent_id, dependent_task));
                        em_cur = em_j.insert((task_id, dependent_id));
                        assert(m0[task_id].dependent_tasks.contains(dependent_id));
                        assert(dependent_edge(m0, task_id, dependent_id));
                        lemma_mark_step(m0, root, em_j, task_id, dependent_id, task_views(self.tasks@), before, after);
                        lemma_reach_extend(m0, root, task_id, dependent_id);
                        assert(em_cur.contains((task_id, dependent_id)));
                        assert(marked_nodes(root, em_cur).contains(dependent_id));
                        lemma_marking_events_grow(events@, root, em_j, em_cur);
                        assert(marking_events(seq![e], root, em_cur));
                        assert(before.status == m0[dependent_id].status || before.status == TaskStatus::Pending);
                        assert(prior_or_pending(seq![e], m0));
                    }
                    let ghost events_before = events@;
                    let ghost covered_j = first_edges(m0, task_id, dependent_ids@, j as int) + new_edges(m0, visited@, entry);
                    events.push(e);
                    proof {
                        let l0 = prior + events_before;
                        assert(before.status == status_when_reported(l0, m0, dependent_id)) by {
                            assert(marked_nodes(root, em_j).contains(dependent_id) <==> reported_in(l0, dependent_id));
                        }
                        lemma_first_report_push(l0, e, m0, dependent_id);
                        assert(l0.push(e) =~= prior + events@);
                        assert forall|u: u128| #[trigger] marked_nodes(root, em_cur).contains(u) <==> reported_in(prior + events@, u) by {
                            lemma_reported_push(l0, e, u);
                            assert(marked_nodes(root, em_j).contains(u) <==> reported_in(l0, u));
                            if marked_nodes(root, em_cur).contains(u) && u != root && u != dependent_id {
                                let z = choose|z: u128| #[trigger] em_cur.contains((z, u));
                                assert(em_j.contains((z, u)));
                            }
                            if marked_nodes(root, em_j).contains(u) && u != root {
                                let z = choose|z: u128| #[trigger] em_j.contains((z, u));
                                assert(em_cur.contains((z, u)));
                            }
                        }
                        lemma_marking_events_append(events_before, seq![e], root, em_cur);
                        lemma_prior_or_pending_append(events_before, seq![e], m0);
                        assert(events@ =~= events_before + seq![e]);
                        assert(seq![e][0]@.task_id == Some(dependent_id));
                        assert(covers(seq![e], set![(task_id, dependent_id)]));
                        lemma_covers_append(events_before, seq![e], covered_j, set![(task_id, dependent_id)]);
                        assert forall|id: u128| #[trigger] self.tasks@.contains_key(id) implies self.tasks@[id].config.id == Some(id) by {
                            if id != dependent_id {
                                assert(tasks_j.contains_key(id));
                            }
                        }
                        lemma_visited_bounded(m0, root, visited@);
                        vstd::set_lib::lemma_len_subset(entry, visited@);
                        assert forall|p: (u128, u128)| #[trigger] em_cur.contains(p) implies visited@.contains(p.0) && dependent_edge(m0, p.0, p.1) by {
                            if p != (task_id, dependent_id) {
                                assert(em_j.contains(p));
                            }
                        }
                    }
                    let ghost em_mid = em_cur;
                    let (mut more, Ghost(em_next)) = self.mark_dependent_tasks_incomplete(
                        dependent_id,
                        visited,
                        Ghost(m0),
                        Ghost(root),
                        Ghost(em_cur),
                        Ghost(prior + events@),
                    );
                    proof {
                        assert(em_mid.subset_of(em_next));
                        lemma_marking_events_grow(events@, root, em_mid, em_next);
                        lemma_marking_events_append(events@, more@, root, em_next);
                        lemma_prior_or_pending_append(events@, more@, m0);
                        lemma_covers_append(
                            events@,
                            more@,
                            covered_j + set![(task_id, dependent_id)],
                            new_edges(m0, visited@, visited_j),
                        );
                    }
                    let ghost events_mid = events@;
                    let ghost more_v = more@;
                    events.append(&mut more);
                    proof {
                        assert(events@ =~= events_mid + more_v);
                        lemma_first_report_append(prior, events_mid, more_v, m0);
                        assert((prior + events_mid) + more_v =~= prior + events@);
                        let covered_next = first_edges(m0, task_id, dependent_ids@, j + 1) + new_edges(m0, visited@, entry);
                        assert forall|p: (u128, u128)| covered_next.contains(p) implies (covered_j + set![(task_id, dependent_id)]
                            + new_edges(m0, visited@, visited_j)).contains(p) by {
                            if new_edges(m0, visited@, entry).contains(p) && !visited_j.contains(p.0) {
                                assert(new_edges(m0, visited@, visited_j).contains(p));
                            }
                        }
                        em_cur = em_next;
                        let target = em + first_edges(m0, task_id, dependent_ids@, j + 1) + new_edges(m0, visited@, entry);
                        assert forall|p: (u128, u128)| em_cur.contains(p) <==> target.contains(p) by {
                            if new_edges(m0, visited@, entry).contains(p) && !visited_j.contains(p.0) {
                                assert(new_edges(m0, visited@, visited_j).contains(p));
                            }
                            if new_edges(m0, visited@, visited_j).contains(p) {
                                assert(!entry.contains(p.0));
                            }
                        }
                        assert(em_cur =~= target);
                        assert forall|p: (u128, u128)| #[trigger] em_cur.contains(p) implies visited@.contains(p.0) && dependent_edge(m0, p.0, p.1) by {
                            if em_mid.contains(p) {
                                assert(visited_j.contains(p.0));
                            }
                        }
                        assert forall|k: int| 0 <= k < j + 1 && m0.contains_key(#[trigger] dependent_ids@[k]) implies visited@.contains(dependent_ids@[k]) by {
                            if k < j {
                                assert(visited_j.contains(dependent_ids@[k]));
                            }
                        }
                        assert forall|z: u128, w: u128|
                            visited@.contains(z) && !entry.contains(z) && #[trigger] dependent_edge(m0, z, w) implies visited@.contains(w) by {
                            if visited_j.contains(z) {
                                assert(visited_j.contains(w));
                            }
                        }
                    }
                },
                None => {
                    proof {
                        assert(!m0.contains_key(dependent_id)) by {
                            assert(task_views(tasks_j).dom() == tasks_j.dom());
                        }
                        assert(em_cur =~= em + first_edges(m0, task_id, dependent_ids@, j + 1) + new_edges(m0, visited@, entry));
                    }
                },
            }
            j = j + 1;
        }
        proof {
            lemma_first_edges_all(m0, task_id, dependent_ids@);
            assert(dependent_ids@.len() == j);
            assert forall|p: (u128, u128)| em_cur.contains(p) <==> (em + new_edges(m0, visited@, visited0)).contains(p) by {
                if new_edges(m0, visited@, visited0).contains(p) && p.0 == task_id {
                    assert(first_edges(m0, task_id, dependent_ids@, j as int).contains(p));
                }
            }
            assert(em_cur =~= em + new_edges(m0, visited@, visited0));
            assert forall|p: (u128, u128)| new_edges(m0, visited@, visited0).contains(p) implies (first_edges(
                m0,
                task_id,
                dependent_ids@,
                j as int,
            ) + new_edges(m0, visited@, entry)).contains(p) by {
                if p.0 == task_id {
                    assert(first_edges(m0, task_id, dependent_ids@, j as int).contains(p));
                }
            }
            assert forall|w: u128| #[trigger] dependent_edge(m0, task_id, w) implies visited@.contains(w) by {
                assert(dependent_ids@.contains(w));
                let k = choose|k: int| 0 <= k < dependent_ids@.len() && dependent_ids@[k] == w;
                assert(m0.contains_key(dependent_ids@[k]));
            }
        }
        (events, Ghost(em_cur))
    }
}

} // verus!
verus! {

impl Mission {
    /// The configuration the mission was built from.
    pub fn config(&self) -> (c: &MissionConfig)
        ensures
            c@ == self.config_view(),
    {
        &self.config
    }

    /// The mission's dependency graph.
    pub fn topology(&self) -> (t: &TopologyManager)
        requires
            self.wf(),
        ensures
            *t == self.graph(),
            t.wf(),
    {
        &self.topology
    }

    /// The task with identifier `task_id`, if the mission has one.
    pub fn task(&self, task_id: u128) -> (res: Option<&Task>)
        ensures
            match res {
                Some(t) => self.tasks_view().contains_key(task_id) && t@ == self.tasks_view()[task_id],
                None => !self.tasks_view().contains_key(task_id),
            },
    {
        self.tasks.get(&task_id)
    }

    /// The identifiers of the tasks.
    fn task_keys(&self) -> (ids: Vec<u128>)
        ensures
            ids@.no_duplicates(),
            ids@.to_set() == self.tasks@.dom(),
    {
        let mut ids: Vec<u128> = Vec::new();
        let ghost all = vstd::std_specs::hash::spec_keys_iter(&self.tasks).remaining();
        for k in it: self.tasks.keys()
            invariant
                it.seq() == all,
                ids@ == all.take(it.index()).map_values(|r: &u128| *r),
        {
            ids.push(*k);
        }
        assert(ids@ =~= all.map_values(|r: &u128| *r));
        assert(all.map_values(|r: &u128| *r) == all.unref());
        ids
    }

    /// Each stored task's configuration carries the identifier it is stored
    /// under, the task keeps one dependency state per configured dependency,
    /// and its run position, if any, is below the counter.
    pub proof fn lemma_stored_tasks(&self, id: u128)
        requires
            self.wf(),
            self.tasks_view().contains_key(id),
        ensures
            self.tasks_view()[id].config.id == Some(id),
            tracks_dependencies(self.tasks_view()[id]),
            orders_below(self.tasks_view(), self.order_counter()),
    {
        assert(self.tasks@.contains_key(id));
        assert(self.tasks_view()[id] == self.tasks@[id]@);
    }

    /// The run position that the next run will get; every position already
    /// given is below it.
    pub fn next_execution_order(&self) -> (n: usize)
        requires
            self.wf(),
        ensures
            n == self.order_counter(),
            orders_below(self.tasks_view(), n),
    {
        self.next_order
    }

    /// The progress record of one task; an unknown task is an error.
    pub fn get_task_info(&self, task_id: u128) -> (res: Result<TaskInfo, NightError>)
        requires
            self.wf(),
        ensures
            match res {
                Ok(info) => self.tasks_view().contains_key(task_id) && info == info_of(task_id, self.tasks_view()[task_id]),
                Err(e) => {
                    &&& !self.tasks_view().contains_key(task_id)
                    &&& e matches NightError::Mission(m) && m@ == not_found_report(task_id)
                },
            },
    {
        match self.tasks.get(&task_id) {
            Some(task) => {
                proof {
                    assert(self.tasks@.contains_key(task_id));
                    assert(self.tasks_view()[task_id] == task@);
                }
                Ok(task.get_info())
            },
            None => {
                let id_text = uuid_string(task_id);
                Err(NightError::Mission(framed("Task ", &id_text, " not found")))
            },
        }
    }

    /// The progress records of all tasks, by identifier.
    pub fn get_all_task_info(&self) -> (res: HashMap<u128, TaskInfo>)
        requires
            self.wf(),
        ensures
            res@ == Map::new(
                |id: u128| self.tasks_view().contains_key(id),
                |id: u128| info_of(id, self.tasks_view()[id]),
            ),
    {
        let ids = self.task_keys();
        let mut res: HashMap<u128, TaskInfo> = HashMap::new();
        let mut i: usize = 0;
        proof {
            assert(res@ =~= Map::new(
                |x: u128| ids@.take(0).contains(x),
                |x: u128| info_of(x, self.tasks_view()[x]),
            ));
        }
        while i < ids.len()
            invariant
                self.wf(),
                i <= ids.len(),
                ids@.to_set() == self.tasks@.dom(),
                res@ == Map::new(
                    |x: u128| ids@.take(i as int).contains(x),
                    |x: u128| info_of(x, self.tasks_view()[x]),
                ),
            decreases ids.len() - i,
        {
            let id = ids[i];
            proof {
                assert(ids@.contains(id));
                assert(ids@.to_set().contains(id));
            }
            let task = self.tasks.get(&id).unwrap();
            proof {
                assert(self.tasks_view()[id] == task@);
            }
            let info = task.get_info();
            let ghost before = res@;
            res.insert(id, info);
            proof {
                let next = ids@.take(i + 1);
                assert(next =~= ids@.take(i as int).push(id));
                assert forall|x: u128| next.contains(x) <==> (ids@.take(i as int).contains(x) || x == id) by {
                    if next.contains(x) {
                        let k = choose|k: int| 0 <= k < next.len() && next[k] == x;
                        if k < i {
                            assert(ids@.take(i as int)[k] == x);
                        }
                    }
                    if ids@.take(i as int).contains(x) {
                        let k = choose|k: int| 0 <= k < i && ids@.take(i as int)[k] == x;
                        assert(next[k] == x);
                    }
                    if x == id {
                        assert(next[i as int] == x);
                    }
                }
                assert(res@ =~= Map::new(
                    |x: u128| next.contains(x),
                    |x: u128| info_of(x, self.tasks_view()[x]),
                ));
            }
            i = i + 1;
        }
        proof {
            assert(ids@.take(ids.len() as int) =~= ids@);
            assert forall|x: u128| ids@.contains(x) <==> self.tasks_view().contains_key(x) by {
                assert(ids@.to_set().contains(x) == ids@.contains(x));
                assert(self.tasks_view().dom() == self.tasks@.dom());
            }
            assert(res@ =~= Map::new(
                |id: u128| self.tasks_view().contains_key(id),
                |id: u128| info_of(id, self.tasks_view()[id]),
            ));
        }
        res
    }

    /// The execution levels of the tasks, when the graph's reverse relation
    /// matches its dependency lists (always, when task identifiers are
    /// distinct); `None` otherwise.
    pub fn execution_plan(&self) -> (res: Option<Vec<Vec<u128>>>)
        requires
            self.wf(),
        ensures
            res is Some <==> self.graph().reverse_matches(),
            res matches Some(order) ==> is_level_schedule(
                levels_view(order@),
                self.graph().task_view().dom(),
                self.graph().deps_view(),
            ),
    {
        if self.topology.reverse_dependencies_consistent() {
            Some(self.topology.get_execution_order())
        } else {
            None
        }
    }
    /// Starts a run of task `task_id` when it may run: it is known, it was
    /// not stopped, and every dependency of its configuration has completed.
    /// Records `order` and `now` and marks it running. Returns the
    /// status-change event, or `None` when nothing was done.
    pub fn begin_task_run(&mut self, task_id: u128, now: i64) -> (res: Option<Event>)
        requires
            old(self).wf(),
            old(self).order_counter() < usize::MAX,
        ensures
            final(self).wf(),
            final(self).graph() == old(self).graph(),
            final(self).config_view() == old(self).config_view(),
            stays_stopped(old(self).tasks_view(), final(self).tasks_view()),
            orders_below(final(self).tasks_view(), final(self).order_counter()),
            res is Some <==> may_begin(old(self).tasks_view(), task_id),
            completions_backed(old(self).tasks_view()) ==> completions_backed(final(self).tasks_view()),
            completions_backed(old(self).tasks_view()) && order_follows_dependencies(old(self).tasks_view()) && (
            old(self).tasks_view().contains_key(task_id) ==> old(self).tasks_view()[task_id].execution_order is None)
                ==> order_follows_dependencies(final(self).tasks_view()),
            ({
                let m = old(self).tasks_view();
                match res {
                    None => {
                        &&& !(m.contains_key(task_id) && m[task_id].execution_lock && dependencies_met(
                            m[task_id].dependency_status,
                        ))
                        &&& final(self).tasks_view() == m
                        &&& final(self).order_counter() == old(self).order_counter()
                    },
                    Some(e) => {
                        &&& m.contains_key(task_id)
                        &&& m[task_id].execution_lock
                        &&& dependencies_met(m[task_id].dependency_status)
                        &&& forall|d: u128| #[trigger] m[task_id].config.dependencies.contains(d)
                            ==> m[task_id].dependency_status[d] == DependencyState::Completed
                        &&& final(self).tasks_view() == m.insert(
                            task_id,
                            TaskView {
                                status: TaskStatus::Running,
                                execution_order: Some(old(self).order_counter()),
                                start_time: Some(now),
                                ..m[task_id]
                            },
                        )
                        &&& orders_below(m, old(self).order_counter())
                        &&& final(self).order_counter() == old(self).order_counter() + 1
                        &&& event_is(e@, EventType::TaskStatusChanged, Some(task_id), Some(m[task_id].status), Some(TaskStatus::Running), None)
                    },
                }
            }),
    {
        let ghost tasks0 = self.tasks@;
        let mut task = match self.tasks.remove(&task_id) {
            Some(t) => t,
            None => {
                proof {
                    assert(self.tasks@ =~= tasks0);
                }
                return None;
            },
        };
        proof {
            assert(task == tasks0[task_id]);
            assert(task_views(tasks0)[task_id] == task@);
        }
        match task.readiness() {
            Readiness::Proceed => {},
            _ => {
                self.tasks.insert(task_id, task);
                proof {
                    assert(self.tasks@ =~= tasks0);
                }
                return None;
            },
        }
        proof {
            assert(tracks_dependencies(tasks0[task_id]@));
            assert forall|d: u128| #[trigger] task@.config.dependencies.contains(d) implies task@.dependency_status[d]
                == DependencyState::Completed by {
                assert(task@.config.dependencies.to_set().contains(d));
                assert(task@.dependency_status.contains_key(d));
            }
        }
        let order = self.next_order;
        let e = task.begin_run(order, now);
        let ghost t = task;
        self.tasks.insert(task_id, task);
        self.next_order = order + 1;
        proof {
            lemma_task_views_replace(tasks0, task_id, t);
            assert(self.tasks@.dom() =~= tasks0.dom());
            assert forall|id: u128| #[trigger] self.tasks@.contains_key(id) implies self.tasks@[id].config.id == Some(id)
                && tracks_dependencies(self.tasks@[id]@) by {
                if id != task_id {
                    assert(tasks0.contains_key(id));
                } else {
                    assert(t@.dependency_status.dom() =~= tasks0[task_id]@.dependency_status.dom());
                }
            }
            assert forall|id: u128| #[trigger] task_views(self.tasks@).contains_key(id) implies
                (task_views(self.tasks@)[id].execution_order matches Some(o) ==> o < self.next_order) by {
                if id != task_id {
                    assert(task_views(tasks0).contains_key(id));
                }
            }
        }
        Some(e)
    }

    /// Ends the run of task `task_id` (see [`Task::finish_run`]) and returns
    /// the events to publish; an unknown task is left alone and yields none.
    pub fn finish_task_run(&mut self, task_id: u128, succeeded: bool, now: i64) -> (events: Vec<Event>)
        requires
            old(self).wf(),
        ensures
            final(self).wf(),
            final(self).graph() == old(self).graph(),
            final(self).config_view() == old(self).config_view(),
            stays_stopped(old(self).tasks_view(), final(self).tasks_view()),
            final(self).order_counter() == old(self).order_counter(),
            orders_below(final(self).tasks_view(), final(self).order_counter()),
            completions_backed(old(self).tasks_view()) ==> completions_backed(final(self).tasks_view()),
            order_follows_dependencies(old(self).tasks_view()) ==> order_follows_dependencies(final(self).tasks_view()),
            ({
                let m = old(self).tasks_view();
                if m.contains_key(task_id) {
                    &&& final(self).tasks_view() == m.insert(task_id, finished_view(m[task_id], succeeded, now))
                    &&& finish_events(events@, m[task_id], succeeded)
                    &&& m[task_id].config.id == Some(task_id)
                    &&& final(self).tasks_view()[task_id].end_time == Some(now)
                    &&& !succeeded ==> final(self).tasks_view()[task_id].status == TaskStatus::Failed && events@.len() == 2
                        && events@[1]@.event_type == EventType::TaskFailed && events@[1]@.task_id == Some(task_id)
                } else {
                    &&& final(self).tasks_view() == m
                    &&& events@.len() == 0
                }
            }),
    {
        let ghost tasks0 = self.tasks@;
        let mut task = match self.tasks.remove(&task_id) {
            Some(t) => t,
            None => {
                proof {
                    assert(self.tasks@ =~= tasks0);
                }
                return Vec::new();
            },
        };
        proof {
            assert(task == tasks0[task_id]);
            assert(task_views(tasks0)[task_id] == task@);
        }
        let events = task.finish_run(succeeded, now);
        let ghost t = task;
        self.tasks.insert(task_id, task);
        proof {
            lemma_task_views_replace(tasks0, task_id, t);
            assert(self.tasks@.dom() =~= tasks0.dom());
            assert forall|id: u128| #[trigger] self.tasks@.contains_key(id) implies self.tasks@[id].config.id == Some(id)
                && tracks_dependencies(self.tasks@[id]@) by {
                if id != task_id {
                    assert(tasks0.contains_key(id));
                } else {
                    assert(t@.dependency_status.dom() =~= tasks0[task_id]@.dependency_status.dom());
                }
            }
        }
        events
    }

    /// Lets task `task_id` record what `event` says of its dependency
    /// `dep_id` (see [`Task::apply_dependency_event`]). Returns whether the
    /// task must be woken; an unknown task is left alone and is not.
    pub fn apply_dependency_event(&mut self, task_id: u128, dep_id: u128, event: &Event) -> (wake: bool)
        requires
            old(self).wf(),
        ensures
            final(self).wf(),
            final(self).graph() == old(self).graph(),
            final(self).config_view() == old(self).config_view(),
            stays_stopped(old(self).tasks_view(), final(self).tasks_view()),
            final(self).order_counter() == old(self).order_counter(),
            orders_below(final(self).tasks_view(), final(self).order_counter()),
            completions_backed(old(self).tasks_view()) && backed_event(old(self).tasks_view(), dep_id, event@)
                ==> completions_backed(final(self).tasks_view()),
            order_follows_dependencies(old(self).tasks_view()) ==> order_follows_dependencies(final(self).tasks_view()),
            ({
                let m = old(self).tasks_view();
                if m.contains_key(task_id) {
                    let t = m[task_id];
                    &&& wake == (event.task_id == Some(dep_id) && t.dependency_status.contains_key(dep_id)
                        && reported_state(event.event_type) is Some)
                    &&& final(self).tasks_view()[task_id].dependency_status == recorded(t.dependency_status, dep_id, event@)
                    &&& final(self).tasks_view() == m.insert(
                        task_id,
                        TaskView {
                            dependency_status: if wake {
                                t.dependency_status.insert(dep_id, reported_state(event.event_type).unwrap())
                            } else {
                                t.dependency_status
                            },
                            ..t
                        },
                    )
                } else {
                    &&& !wake
                    &&& final(self).tasks_view() == m
                }
            }),
    {
        let ghost tasks0 = self.tasks@;
        let mut task = match self.tasks.remove(&task_id) {
            Some(t) => t,
            None => {
                proof {
                    assert(self.tasks@ =~= tasks0);
                }
                return false;
            },
        };
        proof {
            assert(task == tasks0[task_id]);
            assert(task_views(tasks0)[task_id] == task@);
        }
        let wake = task.apply_dependency_event(dep_id, event);
        let ghost t = task;
        self.tasks.insert(task_id, task);
        proof {
            lemma_task_views_replace(tasks0, task_id, t);
            assert(self.tasks@.dom() =~= tasks0.dom());
            assert forall|id: u128| #[trigger] self.tasks@.contains_key(id) implies self.tasks@[id].config.id == Some(id)
                && tracks_dependencies(self.tasks@[id]@) by {
                if id != task_id {
                    assert(tasks0.contains_key(id));
                } else {
                    assert(t@.dependency_status.dom() =~= tasks0[task_id]@.dependency_status.dom());
                }
            }
        }
        wake
    }
}

} // verus!

verus! {

/// No task that was stopped before is runnable after.
pub open spec fn stays_stopped(before: Map<u128, TaskView>, after: Map<u128, TaskView>) -> bool {
    forall|id: u128|
        #[trigger] before.contains_key(id) && !before[id].execution_lock ==> after.contains_key(id)
            && !after[id].execution_lock
}

proof fn lemma_occurrences_positive(s: Seq<u128>, x: u128)
    ensures
        occurrences(s, x) > 0 <==> s.contains(x),
    decreases s.len(),
{
    if s.len() > 0 {
        lemma_occurrences_positive(s.drop_last(), x);
        if s.drop_last().contains(x) {
            let k = choose|k: int| 0 <= k < s.drop_last().len() && s.drop_last()[k] == x;
            assert(s[k] == x);
        }
        if s.contains(x) {
            let k = choose|k: int| 0 <= k < s.len() && s[k] == x;
            if k < s.len() - 1 {
                assert(s.drop_last()[k] == x);
            }
        }
    }
}

proof fn lemma_dependency_map_matches(v: Seq<TaskConfigView>, t: u128)
    requires
        task_map(v).contains_key(t),
    ensures
        dependency_map(v).contains_key(t),
        dependency_map(v)[t] == task_map(v)[t].dependencies,
    decreases v.len(),
{
    if v.len() > 0 && v.last().id.unwrap() != t {
        lemma_dependency_map_matches(v.drop_last(), t);
    }
}

/// In the tasks of a mission built from configurations with distinct
/// identifiers, task `y` is listed among the dependents of task `x` exactly
/// when `y`'s configuration lists `x` among its dependencies: the edges along
/// which a stop spreads are the configured dependencies, reversed.
pub proof fn lemma_fresh_dependents_match_dependencies(v: Seq<TaskConfigView>, x: u128, y: u128)
    requires
        ids_present(v),
        ids_distinct(v),
    ensures
        dependent_edge(fresh_tasks(v), x, y) <==> (task_map(v).contains_key(x) && task_map(v).contains_key(y)
            && task_map(v)[y].dependencies.contains(x)),
{
    if task_map(v).contains_key(x) && task_map(v).contains_key(y) {
        lemma_distinct_ids_reverse_consistent(v);
        assert(occurrences(list_or_empty(reverse_map(v), x), y) == occurrences(dependency_map(v)[y], x));
        lemma_dependency_map_matches(v, y);
        lemma_occurrences_positive(list_or_empty(reverse_map(v), x), y);
        lemma_occurrences_positive(dependency_map(v)[y], x);
        assert(fresh_tasks(v)[x].dependent_tasks == list_or_empty(reverse_map(v), x));
    }
}

proof fn lemma_stopped_edges(m: Map<u128, TaskView>, root: u128, x: u128, y: u128)
    ensures
        dependent_edge(stopped(m, root), x, y) == dependent_edge(m, x, y),
{
}

proof fn lemma_stopped_reach(m: Map<u128, TaskView>, root: u128, from: u128, to: u128)
    ensures
        reaches(stopped(m, root), from, to) == reaches(m, from, to),
{
    let s = stopped(m, root);
    if reaches(m, from, to) {
        let path = choose|path: Seq<u128>| #[trigger] is_dependent_chain(m, path) && path[0] == from && path.last() == to;
        assert forall|i: int| 0 <= i < path.len() - 1 implies #[trigger] dependent_edge(s, path[i], path[i + 1]) by {
            assert(dependent_edge(m, path[i], path[i + 1]));
        }
        assert(is_dependent_chain(s, path));
    }
    if reaches(s, from, to) {
        let path = choose|path: Seq<u128>| #[trigger] is_dependent_chain(s, path) && path[0] == from && path.last() == to;
        assert forall|i: int| 0 <= i < path.len() - 1 implies #[trigger] dependent_edge(m, path[i], path[i + 1]) by {
            assert(dependent_edge(s, path[i], path[i + 1]));
        }
        assert(is_dependent_chain(m, path));
    }
}

/// Task `id` of `tasks` may begin a run: it is known, it was not stopped,
/// and every dependency it tracks has completed.
pub open spec fn may_begin(tasks: Map<u128, TaskView>, id: u128) -> bool {
    &&& tasks.contains_key(id)
    &&& tasks[id].execution_lock
    &&& dependencies_met(tasks[id].dependency_status)
}

/// Keeping stopped tasks stopped, step after step, keeps them stopped.
pub proof fn lemma_stays_stopped_trans(a: Map<u128, TaskView>, b: Map<u128, TaskView>, c: Map<u128, TaskView>)
    requires
        stays_stopped(a, b),
        stays_stopped(b, c),
    ensures
        stays_stopped(a, c),
{
    assert forall|id: u128| #[trigger] a.contains_key(id) && !a[id].execution_lock implies c.contains_key(id)
        && !c[id].execution_lock by {
        assert(b.contains_key(id) && !b[id].execution_lock);
    }
}

/// After a stop from `root`, no task that the stop reached may begin a run
/// in any later state that keeps stopped tasks stopped (as every operation
/// of a mission does).
pub proof fn lemma_stopped_task_never_begins(m: Map<u128, TaskView>, root: u128, u: u128, later: Map<u128, TaskView>)
    requires
        m.contains_key(u),
        reaches(m, root, u),
        stays_stopped(stopped(m, root), later),
    ensures
        !may_begin(later, u),
{
    assert(stopped(m, root).contains_key(u));
    assert(!stopped(m, root)[u].execution_lock);
}

/// What a stop from `root` does to task `u`. A task that does not depend
/// on `root`, directly or not, is left exactly as it was. A task that does
/// (and `root` itself) may not run any more and is pending; its
/// configuration, times, run position and dependents are kept, it tracks
/// the same dependencies, and a dependency becomes pending exactly when it
/// is a stopped task that lists `u` among its dependents, the others keeping
/// their state.
pub proof fn lemma_stop_effect(m: Map<u128, TaskView>, root: u128, u: u128, d: u128)
    requires
        m.contains_key(u),
    ensures
        stopped(m, root).contains_key(u),
        !reaches(m, root, u) ==> stopped(m, root)[u] == m[u],
        reaches(m, root, u) ==> {
            let t = stopped(m, root)[u];
            &&& !t.execution_lock
            &&& t.status == TaskStatus::Pending
            &&& t.config == m[u].config
            &&& t.start_time == m[u].start_time
            &&& t.end_time == m[u].end_time
            &&& t.execution_order == m[u].execution_order
            &&& t.dependent_tasks == m[u].dependent_tasks
            &&& t.dependency_status.dom() == m[u].dependency_status.dom()
            &&& m[u].dependency_status.contains_key(d) ==> t.dependency_status[d] == if reaches(m, root, d) && m.contains_key(d)
                && m[d].dependent_tasks.contains(u) {
                DependencyState::Pending
            } else {
                m[u].dependency_status[d]
            }
        },
{
    let t = stopped(m, root)[u];
    if !reaches(m, root, u) {
        assert forall|x: u128| !stop_sources(m, root, u).contains(x) by {
            if stop_sources(m, root, u).contains(x) {
                lemma_reach_extend(m, root, x, u);
            }
        }
        assert(t.dependency_status =~= m[u].dependency_status);
    } else {
        assert(t.dependency_status.dom() =~= m[u].dependency_status.dom());
    }
}

/// Stopping a task twice leaves the tasks as stopping it once does.
pub proof fn lemma_stop_idempotent(m: Map<u128, TaskView>, root: u128)
    ensures
        stopped(stopped(m, root), root) == stopped(m, root),
{
    let s = stopped(m, root);
    assert forall|u: u128| #[trigger] s.contains_key(u) implies stopped(s, root)[u] == s[u] by {
        lemma_stopped_reach(m, root, root, u);
        assert forall|x: u128| stop_sources(s, root, u).contains(x) <==> stop_sources(m, root, u).contains(x) by {
            lemma_stopped_reach(m, root, root, x);
            lemma_stopped_edges(m, root, x, u);
        }
        assert(stop_sources(s, root, u) =~= stop_sources(m, root, u));
        assert(stopped(s, root)[u].dependency_status =~= s[u].dependency_status);
    }
    assert(stopped(s, root) =~= s);
}

/// A task that a stop reached is locked and pending, and a successful end of
/// a run it had begun leaves it pending: a stopped task is never marked
/// completed by the run it was in.
pub proof fn lemma_stopped_run_stays_pending(m: Map<u128, TaskView>, root: u128, u: u128, now: i64)
    requires
        m.contains_key(u),
        reaches(m, root, u),
    ensures
        !stopped(m, root)[u].execution_lock,
        stopped(m, root)[u].status == TaskStatus::Pending,
        finished_view(stopped(m, root)[u], true, now).status == TaskStatus::Pending,
{
}

} // verus!
