//! The dependency graph of a mission's tasks: construction, validation and
//! execution levels.
use vstd::prelude::*;
use vstd::std_specs::iter::IteratorSpec;
use std::collections::{HashMap, HashSet};
use crate::types::{TaskConfig, TaskConfigView, NightError};
use crate::graph::{
    has_edge, is_ranking, acyclic, is_path, is_cycle, has_cycle, dependencies_exist, in_level,
    is_level_schedule, lemma_no_self_supporting_set, lemma_acyclic_has_no_cycle, lemma_no_cycle_acyclic,
};
use crate::ids::uuid_string;
use crate::text::{ids_text, join_ids, framed};
use crate::ids::uuid_text;
use crate::seq_facts::lemma_push_facts;

verus! {

broadcast use vstd::std_specs::hash::group_hash_axioms;

/// Models of a list of task configurations.
pub open spec fn config_views(tasks: Seq<TaskConfig>) -> Seq<TaskConfigView> {
    tasks.map_values(|c: TaskConfig| c@)
}

/// Every configuration carries an identifier.
pub open spec fn ids_present(tasks: Seq<TaskConfigView>) -> bool {
    forall|i: int| 0 <= i < tasks.len() ==> (#[trigger] tasks[i]).id is Some
}

/// No two configurations carry the same identifier.
pub open spec fn ids_distinct(tasks: Seq<TaskConfigView>) -> bool {
    forall|i: int, j: int|
        0 <= i < j < tasks.len() ==> (#[trigger] tasks[i]).id != (#[trigger] tasks[j]).id
}

/// Identifier to configuration; a later configuration replaces an earlier one
/// with the same identifier.
pub open spec fn task_map(tasks: Seq<TaskConfigView>) -> Map<u128, TaskConfigView>
    decreases tasks.len(),
{
    if tasks.len() == 0 {
        Map::empty()
    } else {
        task_map(tasks.drop_last()).insert(tasks.last().id.unwrap(), tasks.last())
    }
}

/// Identifier to dependency list; a later configuration replaces an earlier
/// one with the same identifier.
pub open spec fn dependency_map(tasks: Seq<TaskConfigView>) -> Map<u128, Seq<u128>>
    decreases tasks.len(),
{
    if tasks.len() == 0 {
        Map::empty()
    } else {
        dependency_map(tasks.drop_last()).insert(tasks.last().id.unwrap(), tasks.last().dependencies)
    }
}

/// The list stored under `k`, or the empty list.
pub open spec fn list_or_empty(m: Map<u128, Seq<u128>>, k: u128) -> Seq<u128> {
    if m.contains_key(k) {
        m[k]
    } else {
        Seq::empty()
    }
}

/// Records `id` as a dependent of each entry of `deps`, in order.
pub open spec fn add_dependents(rev: Map<u128, Seq<u128>>, id: u128, deps: Seq<u128>) -> Map<u128, Seq<u128>>
    decreases deps.len(),
{
    if deps.len() == 0 {
        rev
    } else {
        let r = add_dependents(rev, id, deps.drop_last());
        r.insert(deps.last(), list_or_empty(r, deps.last()).push(id))
    }
}

/// Identifier to the identifiers of the configurations that list it as a
/// dependency, once per listing, over every configuration of the list
/// (replaced ones too).
pub open spec fn reverse_map(tasks: Seq<TaskConfigView>) -> Map<u128, Seq<u128>>
    decreases tasks.len(),
{
    if tasks.len() == 0 {
        Map::empty()
    } else {
        add_dependents(reverse_map(tasks.drop_last()), tasks.last().id.unwrap(), tasks.last().dependencies)
    }
}

/// Number of entries of `s` equal to `x`.
pub open spec fn occurrences(s: Seq<u128>, x: u128) -> nat
    decreases s.len(),
{
    if s.len() == 0 {
        0
    } else {
        occurrences(s.drop_last(), x) + if s.last() == x { 1nat } else { 0nat }
    }
}

/// Each task is listed as a dependent of each known task exactly as often as
/// it lists that task as a dependency.
pub open spec fn reverse_consistent(
    tasks: Set<u128>,
    deps: Map<u128, Seq<u128>>,
    rev: Map<u128, Seq<u128>>,
) -> bool {
    forall|t: u128, d: u128|
        tasks.contains(t) && tasks.contains(d) ==> #[trigger] occurrences(list_or_empty(rev, d), t)
            == #[trigger] occurrences(deps[t], d)
}

/// Message of a dependency on an unknown task.
pub open spec fn missing_dependency_report(task: u128, dep: u128) -> Seq<char> {
    "Task "@ + uuid_text(task) + " depends on non-existent task "@ + uuid_text(dep)
}

/// Message of a detected cycle, listing the tasks of the search path that
/// closed it.
pub open spec fn cycle_report(path: Seq<u128>) -> Seq<char> {
    "Cyclic dependency detected: Mission(\""@ + cycle_search_report(path) + "\")"@
}

/// Message of the search that found a cycle, listing the tasks of its path.
pub open spec fn cycle_search_report(path: Seq<u128>) -> Seq<char> {
    "Cyclic dependency detected: {"@ + join_ids(path) + "}"@
}

/// Model of a map from identifiers to identifier lists.
pub open spec fn lists_view(m: Map<u128, Vec<u128>>) -> Map<u128, Seq<u128>> {
    m.map_values(|v: Vec<u128>| v@)
}

/// Records `id` as a dependent of each entry of `deps`, in order.
pub fn record_dependents(map: &mut HashMap<u128, Vec<u128>>, id: u128, deps: &Vec<u128>)
    ensures
        lists_view(final(map)@) == add_dependents(lists_view(old(map)@), id, deps@),
{
    let ghost start = lists_view(map@);
    proof {
        assert(lists_view(map@) =~= add_dependents(start, id, deps@.take(0)));
    }
    let mut i: usize = 0;
    while i < deps.len()
        invariant
            i <= deps.len(),
            start == lists_view(old(map)@),
            lists_view(map@) == add_dependents(start, id, deps@.take(i as int)),
        decreases deps.len() - i,
    {
        let dep_id = deps[i];
        let ghost before = lists_view(map@);
        let mut list = match map.remove(&dep_id) {
            Some(l) => l,
            None => Vec::new(),
        };
        proof {
            assert(list@ == list_or_empty(before, dep_id));
        }
        list.push(id);
        map.insert(dep_id, list);
        proof {
            let ds = deps@.take(i + 1);
            assert(ds.drop_last() == deps@.take(i as int));
            assert(ds.last() == dep_id);
            assert(lists_view(map@) =~= before.insert(dep_id, list_or_empty(before, dep_id).push(id)));
        }
        i = i + 1;
    }
    assert(deps@.take(deps.len() as int) == deps@);
}

/// The graph of the configurations is acyclic and has no unknown dependency.
pub open spec fn graph_valid(v: Seq<TaskConfigView>) -> bool {
    acyclic(dependency_map(v)) && dependencies_exist(task_map(v).dom(), dependency_map(v))
}

/// `e` is the error that building the graph of `v` reports: a cycle (with
/// the tasks of the search path that closed it), or else a dependency on an
/// unknown task.
pub open spec fn construction_error(v: Seq<TaskConfigView>, e: NightError) -> bool {
    let deps = dependency_map(v);
    let known = task_map(v).dom();
    if !acyclic(deps) {
        e matches NightError::Mission(m) && exists|path: Seq<u128>| m@ == cycle_report(path)
    } else {
        e matches NightError::Mission(m) && exists|t: u128, d: u128|
            has_edge(deps, t, d) && !known.contains(d) && m@ == missing_dependency_report(t, d)
    }
}

/// The tasks of a mission, their dependencies and the reverse relation.
pub struct TopologyManager {
    tasks: HashMap<u128, TaskConfig>,
    dependencies: HashMap<u128, Vec<u128>>,
    reverse_dependencies: HashMap<u128, Vec<u128>>,
    nodes: Ghost<Set<u128>>,
}

impl TopologyManager {
    /// Identifier to configuration.
    pub closed spec fn task_view(&self) -> Map<u128, TaskConfigView> {
        self.tasks@.map_values(|c: TaskConfig| c@)
    }

    /// Identifier to dependency list.
    pub closed spec fn deps_view(&self) -> Map<u128, Seq<u128>> {
        self.dependencies@.map_values(|v: Vec<u128>| v@)
    }

    /// Identifier to the tasks that depend on it.
    pub closed spec fn rev_view(&self) -> Map<u128, Seq<u128>> {
        lists_view(self.reverse_dependencies@)
    }

    /// The three maps describe the same tasks, and the ghost node set holds
    /// every task and every dependency.
    pub closed spec fn structure_ok(&self) -> bool {
        &&& self.tasks@.dom() == self.dependencies@.dom()
        &&& self.nodes@.finite()
        &&& forall|t: u128| #[trigger] self.tasks@.contains_key(t) ==> self.nodes@.contains(t)
        &&& forall|t: u128, d: u128| #[trigger] has_edge(self.deps_view(), t, d) ==> self.nodes@.contains(d)
        &&& forall|d: u128, i: int|
            #![trigger self.rev_view()[d][i]]
            self.rev_view().contains_key(d) && 0 <= i < self.rev_view()[d].len()
                ==> self.tasks@.contains_key(self.rev_view()[d][i])
    }

    /// A validated topology: consistent, acyclic, no unknown dependency.
    pub closed spec fn wf(&self) -> bool {
        &&& self.structure_ok()
        &&& acyclic(self.deps_view())
        &&& dependencies_exist(self.task_view().dom(), self.deps_view())
    }

    /// A validated topology built from the configurations `v`.
    pub open spec fn built_from(&self, v: Seq<TaskConfigView>) -> bool {
        &&& self.wf()
        &&& self.task_view() == task_map(v)
        &&& self.deps_view() == dependency_map(v)
        &&& self.rev_view() == reverse_map(v)
    }

    /// The reverse relation matches the dependency lists of the current tasks.
    pub closed spec fn reverse_matches(&self) -> bool {
        reverse_consistent(self.task_view().dom(), self.deps_view(), self.rev_view())
    }

    /// Builds the graph of `tasks` and checks it: no task may depend on itself
    /// through a chain of dependencies, and every dependency must name a task.
    pub fn new(tasks: Vec<TaskConfig>) -> (res: Result<Self, NightError>)
        requires
            ids_present(config_views(tasks@)),
        ensures
            res is Ok <==> graph_valid(config_views(tasks@)),
            res matches Ok(t) ==> t.built_from(config_views(tasks@)),
            res matches Err(e) ==> construction_error(config_views(tasks@), e),
    {
        let mut topology = TopologyManager {
            tasks: HashMap::new(),
            dependencies: HashMap::new(),
            reverse_dependencies: HashMap::new(),
            nodes: Ghost(Set::empty()),
        };
        let ghost v = config_views(tasks@);
        proof {
            assert(topology.task_view() =~= task_map(v.take(0)));
            assert(topology.deps_view() =~= dependency_map(v.take(0)));
            assert(topology.rev_view() =~= reverse_map(v.take(0)));
        }
        let mut i: usize = 0;
        while i < tasks.len()
            invariant
                v == config_views(tasks@),
                ids_present(v),
                i <= tasks.len(),
                topology.structure_ok(),
                topology.task_view() == task_map(v.take(i as int)),
                topology.deps_view() == dependency_map(v.take(i as int)),
                topology.rev_view() == reverse_map(v.take(i as int)),
            decreases tasks.len() - i,
        {
            let task = tasks[i].clone();
            proof {
                assert(v[i as int] == tasks@[i as int]@);
                assert(v[i as int].id is Some);
            }
            match topology.add_task(task) {
                Ok(()) => {},
                Err(e) => {
                    return Err(e);
                },
            }
            proof {
                assert(v.take(i + 1).drop_last() == v.take(i as int));
                assert(v.take(i + 1).last() == v[i as int]);
            }
            i = i + 1;
        }
        proof {
            assert(v.take(tasks.len() as int) == v);
        }
        match topology.validate() {
            Ok(()) => Ok(topology),
            Err(e) => Err(e),
        }
    }

    fn add_task(&mut self, task: TaskConfig) -> (res: Result<(), NightError>)
        requires
            old(self).structure_ok(),
            task.id is Some,
        ensures
            res is Ok,
            final(self).structure_ok(),
            final(self).task_view() == old(self).task_view().insert(task.id.unwrap(), task@),
            final(self).deps_view() == old(self).deps_view().insert(task.id.unwrap(), task@.dependencies),
            final(self).rev_view() == add_dependents(old(self).rev_view(), task.id.unwrap(), task@.dependencies),
    {
        let task_id = task.id.unwrap();
        let ghost old_rev = self.rev_view();
        let ghost old_tasks = self.task_view();
        let ghost old_deps = self.deps_view();
        let ghost old_nodes = self.nodes@;
        self.tasks.insert(task_id, task.clone());
        self.dependencies.insert(task_id, task.dependencies.clone());
        self.nodes = Ghost(self.nodes@.insert(task_id).union(task.dependencies@.to_set()));
        proof {
            vstd::seq_lib::seq_to_set_is_finite(task@.dependencies);
            assert(self.task_view() =~= old_tasks.insert(task_id, task@));
            assert(self.deps_view() =~= old_deps.insert(task_id, task@.dependencies));
            assert forall|t: u128, d: u128| #[trigger] has_edge(self.deps_view(), t, d) implies self.nodes@.contains(d) by {
                if t == task_id {
                    assert(task.dependencies@.to_set().contains(d));
                } else {
                    assert(has_edge(old_deps, t, d));
                }
            }
        }
        record_dependents(&mut self.reverse_dependencies, task_id, &task.dependencies);
        proof {
            lemma_add_dependents_entries(old_rev, task_id, task@.dependencies);
            assert forall|d: u128, k: int|
                #![trigger self.rev_view()[d][k]]
                self.rev_view().contains_key(d) && 0 <= k < self.rev_view()[d].len()
                    implies self.tasks@.contains_key(self.rev_view()[d][k]) by {
                let x = self.rev_view()[d][k];
                assert(list_or_empty(self.rev_view(), d)[k] == x);
                assert(list_or_empty(self.rev_view(), d).contains(x));
                assert(list_or_empty(add_dependents(old_rev, task_id, task@.dependencies), d).contains(x));
                assert(x == task_id || list_or_empty(old_rev, d).contains(x));
                if x != task_id {
                    assert(list_or_empty(old_rev, d).contains(x));
                    let k2 = choose|k2: int| 0 <= k2 < list_or_empty(old_rev, d).len() && list_or_empty(old_rev, d)[k2] == x;
                    assert(old_rev[d][k2] == x);
                    assert(old_tasks.contains_key(x));
                    assert(self.task_view().contains_key(x));
                }
            }
        }
        Ok(())
    }

    /// The configuration of `task_id`, if the task is known.
    pub fn get_task(&self, task_id: &u128) -> (res: Option<&TaskConfig>)
        ensures
            match res {
                Some(c) => self.task_view().contains_key(*task_id) && c@ == self.task_view()[*task_id],
                None => !self.task_view().contains_key(*task_id),
            },
    {
        self.tasks.get(task_id)
    }

    /// The dependency list of `task_id`, if the task is known.
    pub fn get_dependencies(&self, task_id: &u128) -> (res: Option<&Vec<u128>>)
        ensures
            match res {
                Some(d) => self.deps_view().contains_key(*task_id) && d@ == self.deps_view()[*task_id],
                None => !self.deps_view().contains_key(*task_id),
            },
    {
        self.dependencies.get(task_id)
    }
}

/// Every entry added by `add_dependents` is `id`; other entries come from `rev`.
proof fn lemma_add_dependents_entries(rev: Map<u128, Seq<u128>>, id: u128, deps: Seq<u128>)
    ensures
        forall|d: u128, x: u128|
            #[trigger] list_or_empty(add_dependents(rev, id, deps), d).contains(x) ==> x == id
                || list_or_empty(rev, d).contains(x),
    decreases deps.len(),
{
    if deps.len() > 0 {
        lemma_add_dependents_entries(rev, id, deps.drop_last());
        let r = add_dependents(rev, id, deps.drop_last());
        assert forall|d: u128, x: u128|
            #[trigger] list_or_empty(add_dependents(rev, id, deps), d).contains(x) implies x == id
                || list_or_empty(rev, d).contains(x) by {
            if d == deps.last() {
                let l = list_or_empty(r, d);
                let k = choose|k: int| 0 <= k < l.push(id).len() && l.push(id)[k] == x;
                if k < l.len() {
                    assert(l[k] == x);
                    assert(l.contains(x));
                }
            } else {
                assert(list_or_empty(add_dependents(rev, id, deps), d) == list_or_empty(r, d));
            }
        }
    }
}

/// A task that was entered by the search and left again.
pub open spec fn finished(visited: Set<u128>, stack: Set<u128>, t: u128) -> bool {
    visited.contains(t) && !stack.contains(t)
}

/// The state of the depth-first search for cycles: `path` is the chain of
/// tasks being explored, in order, and `stack` holds its members; every
/// finished task has only finished dependencies, of lower rank.
pub open spec fn search_state(
    deps: Map<u128, Seq<u128>>,
    nodes: Set<u128>,
    visited: Set<u128>,
    stack: Set<u128>,
    path: Seq<u128>,
    rank: Map<u128, nat>,
) -> bool {
    &&& visited.subset_of(nodes)
    &&& stack.subset_of(visited)
    &&& forall|x: u128| stack.contains(x) <==> path.contains(x)
    &&& path.no_duplicates()
    &&& is_path(deps, path)
    &&& forall|b: u128| #[trigger] finished(visited, stack, b) ==> rank.contains_key(b)
    &&& forall|b: u128, d: u128|
        finished(visited, stack, b) && #[trigger] has_edge(deps, b, d) ==> finished(visited, stack, d)
            && rank[d] < rank[b]
}

/// Largest rank among the entries of `s`.
pub open spec fn max_rank(rank: Map<u128, nat>, s: Seq<u128>) -> nat
    decreases s.len(),
{
    if s.len() == 0 {
        0
    } else {
        let m = max_rank(rank, s.drop_last());
        if rank[s.last()] > m {
            rank[s.last()]
        } else {
            m
        }
    }
}

proof fn lemma_max_rank(rank: Map<u128, nat>, s: Seq<u128>)
    ensures
        forall|i: int| 0 <= i < s.len() ==> rank[#[trigger] s[i]] <= max_rank(rank, s),
    decreases s.len(),
{
    if s.len() > 0 {
        lemma_max_rank(rank, s.drop_last());
        assert forall|i: int| 0 <= i < s.len() implies rank[#[trigger] s[i]] <= max_rank(rank, s) by {
            if i < s.len() - 1 {
                assert(s.drop_last()[i] == s[i]);
            }
        }
    }
}

/// Elements of a set, in the set's iteration order.
fn set_elements(s: &HashSet<u128>) -> (ids: Vec<u128>)
    ensures
        ids@.no_duplicates(),
        ids@.to_set() == s@,
{
    let mut ids: Vec<u128> = Vec::new();
    let ghost all = vstd::std_specs::hash::spec_hash_keys_iter(s).remaining();
    for k in it: s.iter()
        invariant
            it.seq() == all,
            ids@ == all.take(it.index()).map_values(|r: &u128| *r),
    {
        ids.push(*k);
    }
    assert(ids@ =~= all.map_values(|r: &u128| *r));
    assert(all.map_values(|r: &u128| *r) == all.unref());
    ids
}

impl TopologyManager {
    /// The known task identifiers, in the map's iteration order.
    fn task_ids(&self) -> (ids: Vec<u128>)
        ensures
            ids@.no_duplicates(),
            ids@.to_set() == self.tasks@.dom(),
    {
        let mut ids: Vec<u128> = Vec::new();
        let ghost all = vstd::std_specs::hash::spec_keys_iter(&self.tasks).remaining();
        for k in it: self.tasks.keys()
            invariant
                it.seq() == all,
                ids@ == all.take(it.index()).map_values(|r: &u128| *r),
        {
            ids.push(*k);
        }
        assert(ids@ =~= all.map_values(|r: &u128| *r));
        assert(all.map_values(|r: &u128| *r) == all.unref());
        ids
    }

    fn validate(&self) -> (res: Result<(), NightError>)
        requires
            self.structure_ok(),
        ensures
            res is Ok <==> acyclic(self.deps_view()) && dependencies_exist(self.task_view().dom(), self.deps_view()),
            !acyclic(self.deps_view()) ==> (res matches Err(NightError::Mission(m)) && exists|path: Seq<u128>|
                m@ == cycle_report(path)),
            acyclic(self.deps_view()) && !dependencies_exist(self.task_view().dom(), self.deps_view())
                ==> (res matches Err(NightError::Mission(m)) && exists|t: u128, d: u128|
                has_edge(self.deps_view(), t, d) && !self.task_view().dom().contains(d) && m@
                    == missing_dependency_report(t, d)),
    {
        match self.detect_cycle() {
            Ok(()) => {},
            Err(cycle) => {
                let ghost path = choose|path: Seq<u128>| cycle_inner_message(cycle, path);
                let inner = match cycle {
                    NightError::Mission(m) => m,
                    _ => String::new(),
                };
                proof {
                    lemma_has_cycle_not_acyclic(self.deps_view());
                }
                let msg = framed("Cyclic dependency detected: Mission(\"", &inner, "\")");
                proof {
                    assert(msg@ =~= cycle_report(path));
                    assert(exists|p: Seq<u128>| msg@ == cycle_report(p));
                    assert(!acyclic(self.deps_view()));
                }
                return Err(NightError::Mission(msg));
            },
        }
        let ghost deps = self.deps_view();
        let ghost all = vstd::std_specs::hash::spec_hash_map_iter(&self.dependencies).remaining();
        for entry in it: self.dependencies.iter()
            invariant
                it.seq() == all,
                self.structure_ok(),
                deps == self.deps_view(),
                acyclic(deps),
                forall|k: int, d: u128|
                    0 <= k < it.index() && #[trigger] all[k].1@.contains(d)
                        ==> self.tasks@.contains_key(d),
        {
            proof {
                assert(entry == all[it.index()]);
                assert(self.dependencies@.contains_key(*all[it.index()].0));
            }
            let (task_id, dep_list) = entry;
            let mut j: usize = 0;
            while j < dep_list.len()
                invariant
                    self.structure_ok(),
                    deps == self.deps_view(),
                    acyclic(deps),
                    self.dependencies@.contains_key(*task_id),
                    self.dependencies@[*task_id] == *dep_list,
                    j <= dep_list.len(),
                    forall|i: int| 0 <= i < j ==> self.tasks@.contains_key(#[trigger] dep_list@[i]),
                decreases dep_list.len() - j,
            {
                let dep_id = dep_list[j];
                if !self.tasks.contains_key(&dep_id) {
                    let t_text = uuid_string(*task_id);
                    let d_text = uuid_string(dep_id);
                    let mut msg = framed("Task ", &t_text, " depends on non-existent task ");
                    msg.append(d_text.as_str());
                    proof {
                        assert(deps[*task_id] == dep_list@);
                        assert(dep_list@[j as int] == dep_id);
                        assert(dep_list@.contains(dep_id));
                        assert(has_edge(deps, *task_id, dep_id));
                        assert(msg@ =~= missing_dependency_report(*task_id, dep_id));
                        assert(!self.task_view().dom().contains(dep_id));
                    }
                    return Err(NightError::Mission(msg));
                }
                j = j + 1;
            }
            proof {
                assert forall|d: u128| dep_list@.contains(d) implies self.tasks@.contains_key(d) by {
                    let i = choose|i: int| 0 <= i < dep_list@.len() && dep_list@[i] == d;
                    assert(self.tasks@.contains_key(dep_list@[i]));
                }
            }
        }
        proof {
            assert forall|t: u128, d: u128| #[trigger] has_edge(deps, t, d) implies self.task_view().dom().contains(d) by {
                assert(self.dependencies@.contains_key(t));
                assert(all.contains((&t, &self.dependencies@[t])));
                let k = choose|k: int| 0 <= k < all.len() && all[k] == (&t, &self.dependencies@[t]);
                assert(all[k].1@.contains(d));
            }
        }
        Ok(())
    }

    fn detect_cycle(&self) -> (res: Result<(), NightError>)
        requires
            self.structure_ok(),
        ensures
            res is Ok ==> acyclic(self.deps_view()),
            res matches Err(e) ==> has_cycle(self.deps_view()) && exists|path: Seq<u128>|
                cycle_inner_message(e, path),
    {
        let ghost deps = self.deps_view();
        let mut visited: HashSet<u128> = HashSet::new();
        let mut stack: HashSet<u128> = HashSet::new();
        let ghost mut rank: Map<u128, nat> = Map::empty();
        let ids = self.task_ids();
        let mut i: usize = 0;
        while i < ids.len()
            invariant
                self.structure_ok(),
                deps == self.deps_view(),
                i <= ids.len(),
                ids@.to_set() == self.tasks@.dom(),
                search_state(deps, self.nodes@, visited@, stack@, Seq::empty(), rank),
                stack@ == Set::<u128>::empty(),
                forall|j: int| 0 <= j < i ==> visited@.contains(#[trigger] ids@[j]),
            decreases ids.len() - i,
        {
            let task_id = ids[i];
            proof {
                assert(ids@.to_set().contains(task_id));
            }
            let (cyclic, Ghost(r)) = self.is_cyclic(task_id, &mut visited, &mut stack, Ghost(Seq::empty()), Ghost(rank));
            if cyclic {
                let members = set_elements(&stack);
                let listed = ids_text(&members);
                let msg = framed("Cyclic dependency detected: {", &listed, "}");
                let e = NightError::Mission(msg);
                proof {
                    assert(cycle_inner_message(e, members@));
                }
                return Err(e);
            }
            proof {
                rank = r;
            }
            i = i + 1;
        }
        proof {
            assert forall|t: u128, d: u128| #[trigger] has_edge(deps, t, d) implies rank.contains_key(t) && rank.contains_key(d) && rank[d] < rank[t] by {
                assert(self.tasks@.contains_key(t));
                assert(ids@.to_set().contains(t));
                let j = choose|j: int| 0 <= j < ids@.len() && ids@[j] == t;
                assert(visited@.contains(ids@[j]));
                assert(finished(visited@, stack@, t));
            }
            assert(is_ranking(deps, rank));
        }
        Ok(())
    }

    fn is_cyclic(
        &self,
        task_id: u128,
        visited: &mut HashSet<u128>,
        stack: &mut HashSet<u128>,
        Ghost(path): Ghost<Seq<u128>>,
        Ghost(rank): Ghost<Map<u128, nat>>,
    ) -> (res: (bool, Ghost<Map<u128, nat>>))
        requires
            self.structure_ok(),
            search_state(self.deps_view(), self.nodes@, old(visited)@, old(stack)@, path, rank),
            self.nodes@.contains(task_id),
            path.len() > 0 ==> has_edge(self.deps_view(), path.last(), task_id),
        ensures
            res.0 ==> has_cycle(self.deps_view()),
            !res.0 ==> {
                &&& search_state(self.deps_view(), self.nodes@, final(visited)@, final(stack)@, path, res.1@)
                &&& final(stack)@ == old(stack)@
                &&& old(visited)@.subset_of(final(visited)@)
                &&& final(visited)@.contains(task_id)
                &&& !final(stack)@.contains(task_id)
            },
        decreases self.nodes@.len() - visited@.len(),
    {
        let ghost deps = self.deps_view();
        if stack.contains(&task_id) {
            proof {
                assert(path.contains(task_id));
                let i = choose|i: int| 0 <= i < path.len() && path[i] == task_id;
                let cyc = path.subrange(i, path.len() as int).push(task_id);
                assert forall|k: int| 0 <= k < cyc.len() - 1 implies #[trigger] has_edge(deps, cyc[k], cyc[k + 1]) by {
                    if k < cyc.len() - 2 {
                        assert(has_edge(deps, path[i + k], path[i + k + 1]));
                    }
                }
                assert(is_cycle(deps, cyc));
            }
            return (true, Ghost(rank));
        }
        if visited.contains(&task_id) {
            return (false, Ghost(rank));
        }
        let ghost visited0 = visited@;
        let ghost stack0 = stack@;
        proof {
            vstd::set_lib::lemma_set_subset_finite(self.nodes@, visited0);
        }
        visited.insert(task_id);
        stack.insert(task_id);
        let ghost path2 = path.push(task_id);
        let ghost mut rank2 = rank;
        proof {
            assert forall|x: u128| stack@.contains(x) <==> path2.contains(x) by {
                if x == task_id {
                    assert(path2[path.len() as int] == x);
                } else if path.contains(x) {
                    let k = choose|k: int| 0 <= k < path.len() && path[k] == x;
                    assert(path2[k] == x);
                } else if path2.contains(x) {
                    let k = choose|k: int| 0 <= k < path2.len() && path2[k] == x;
                    assert(path[k] == x);
                }
            }
            assert forall|k: int| 0 <= k < path2.len() - 1 implies #[trigger] has_edge(deps, path2[k], path2[k + 1]) by {
                if k < path.len() - 1 {
                    assert(has_edge(deps, path[k], path[k + 1]));
                }
            }
            assert(visited@ == visited0.insert(task_id));
            assert(stack@ == stack0.insert(task_id));
            assert forall|b: u128| #[trigger] finished(visited@, stack@, b) <==> finished(visited0, stack0, b) by {
                if b == task_id {
                    assert(stack@.contains(b));
                }
            }
            assert(search_state(deps, self.nodes@, visited@, stack@, path2, rank2));
            vstd::set_lib::lemma_len_subset(visited0, self.nodes@);
        }
        let ghost mut dep_seq: Seq<u128> = Seq::empty();
        match self.dependencies.get(&task_id) {
            Some(dep_list) => {
                proof {
                    dep_seq = dep_list@;
                    assert(deps[task_id] == dep_seq);
                }
                let mut j: usize = 0;
                while j < dep_list.len()
                    invariant
                        self.structure_ok(),
                        deps == self.deps_view(),
                        dep_seq == dep_list@,
                        path2 == path.push(task_id),
                        visited0 == old(visited)@,
                        self.dependencies@.contains_key(task_id),
                        deps[task_id] == dep_seq,
                        j <= dep_list.len(),
                        search_state(deps, self.nodes@, visited@, stack@, path2, rank2),
                        stack@ == stack0.insert(task_id),
                        visited0.insert(task_id).subset_of(visited@),
                        !visited0.contains(task_id),
                        self.nodes@.finite(),
                        visited0.finite(),
                        visited0.len() <= self.nodes@.len(),
                        forall|k: int| 0 <= k < j ==> finished(visited@, stack@, #[trigger] dep_seq[k]),
                    decreases dep_list.len() - j,
                {
                    let dep_id = dep_list[j];
                    proof {
                        assert(dep_seq.contains(dep_id));
                        assert(has_edge(deps, task_id, dep_id));
                        vstd::set_lib::lemma_set_subset_finite(self.nodes@, visited@);
                        vstd::set_lib::lemma_len_subset(visited0.insert(task_id), visited@);
                        vstd::set_lib::lemma_len_subset(visited@, self.nodes@);
                        assert(path2.last() == task_id);
                        assert(visited0.insert(task_id).len() == visited0.len() + 1);
                        assert(visited@.len() > visited0.len());
                        assert(self.nodes@.len() - visited@.len() < self.nodes@.len() - visited0.len());

                    }
                    let (cyclic, Ghost(r)) = self.is_cyclic(dep_id, visited, stack, Ghost(path2), Ghost(rank2));
                    if cyclic {
                        return (true, Ghost(r));
                    }
                    proof {
                        rank2 = r;
                    }
                    j = j + 1;
                }
            },
            None => {},
        }
        stack.remove(&task_id);
        let ghost new_rank = rank2.insert(task_id, max_rank(rank2, dep_seq) + 1);
        proof {
            lemma_max_rank(rank2, dep_seq);
            assert(stack@ =~= stack0);
            assert forall|b: u128| #[trigger] finished(visited@, stack@, b) implies new_rank.contains_key(b) by {
                if b != task_id {
                    assert(finished(visited@, stack0.insert(task_id), b));
                }
            }
            assert forall|b: u128, d: u128|
                finished(visited@, stack@, b) && #[trigger] has_edge(deps, b, d) implies finished(visited@, stack@, d)
                    && new_rank[d] < new_rank[b] by {
                if b == task_id {
                    let k = choose|k: int| 0 <= k < dep_seq.len() && dep_seq[k] == d;
                    assert(finished(visited@, stack0.insert(task_id), dep_seq[k]));
                } else {
                    assert(finished(visited@, stack0.insert(task_id), b));
                    assert(finished(visited@, stack0.insert(task_id), d));
                }
            }
        }
        (false, Ghost(new_rank))
    }
}

/// `e` is the search's report of the chain of tasks in `path`.
pub open spec fn cycle_inner_message(e: NightError, path: Seq<u128>) -> bool {
    e matches NightError::Mission(m) && m@ == cycle_search_report(path)
}

proof fn lemma_has_cycle_not_acyclic(deps: Map<u128, Seq<u128>>)
    requires
        has_cycle(deps),
    ensures
        !acyclic(deps),
{
    if acyclic(deps) {
        lemma_acyclic_has_no_cycle(deps);
    }
}

/// Number of entries of `s` that are not in `done`.
pub open spec fn pending(s: Seq<u128>, done: Set<u128>) -> nat
    decreases s.len(),
{
    if s.len() == 0 {
        0
    } else {
        pending(s.drop_last(), done) + if done.contains(s.last()) { 0nat } else { 1nat }
    }
}

proof fn lemma_pending_none_done(s: Seq<u128>)
    ensures
        pending(s, Set::empty()) == s.len(),
    decreases s.len(),
{
    if s.len() > 0 {
        lemma_pending_none_done(s.drop_last());
    }
}

proof fn lemma_pending_zero(s: Seq<u128>, done: Set<u128>)
    ensures
        pending(s, done) == 0 <==> forall|d: u128| s.contains(d) ==> done.contains(d),
    decreases s.len(),
{
    if s.len() > 0 {
        lemma_pending_zero(s.drop_last(), done);
        if pending(s, done) == 0 {
            assert forall|d: u128| s.contains(d) implies done.contains(d) by {
                let k = choose|k: int| 0 <= k < s.len() && s[k] == d;
                if k < s.len() - 1 {
                    assert(s.drop_last()[k] == d);
                }
            }
        }
        if forall|d: u128| s.contains(d) ==> done.contains(d) {
            assert(s.contains(s.last()));
            assert forall|d: u128| s.drop_last().contains(d) implies done.contains(d) by {
                let k = choose|k: int| 0 <= k < s.drop_last().len() && s.drop_last()[k] == d;
                assert(s[k] == d);
            }
        }
    }
}

proof fn lemma_pending_insert(s: Seq<u128>, done: Set<u128>, x: u128)
    requires
        !done.contains(x),
    ensures
        pending(s, done.insert(x)) + occurrences(s, x) == pending(s, done),
        occurrences(s, x) <= pending(s, done),
    decreases s.len(),
{
    if s.len() > 0 {
        lemma_pending_insert(s.drop_last(), done, x);
    }
}

proof fn lemma_occurrences_take(s: Seq<u128>, j: int, x: u128)
    requires
        0 <= j < s.len(),
    ensures
        occurrences(s.take(j + 1), x) == occurrences(s.take(j), x) + if s[j] == x { 1nat } else { 0nat },
{
    assert(s.take(j + 1).drop_last() == s.take(j));
}

proof fn lemma_occurrences_take_le(s: Seq<u128>, j: int, x: u128)
    requires
        0 <= j <= s.len(),
    ensures
        occurrences(s.take(j), x) <= occurrences(s, x),
    decreases s.len() - j,
{
    if j < s.len() {
        lemma_occurrences_take(s, j, x);
        lemma_occurrences_take_le(s, j + 1, x);
    } else {
        assert(s.take(j) == s);
    }
}

/// Models of the levels of an execution order.
pub open spec fn levels_view(order: Seq<Vec<u128>>) -> Seq<Seq<u128>> {
    order.map_values(|l: Vec<u128>| l@)
}

impl TopologyManager {
    /// The execution levels of the tasks (Kahn's algorithm). Each inner list
    /// holds the tasks that can run in parallel once every earlier list has
    /// run; the order inside a list follows the task map's iteration order.
    /// Requires that the reverse relation matches the dependency lists, which
    /// holds whenever task identifiers are distinct; otherwise a dependency
    /// count would drop below zero.
    pub fn get_execution_order(&self) -> (order: Vec<Vec<u128>>)
        requires
            self.wf(),
            self.reverse_matches(),
        ensures
            is_level_schedule(levels_view(order@), self.task_view().dom(), self.deps_view()),
    {
        let ghost known = self.tasks@.dom();
        let ghost deps = self.deps_view();
        proof {
            assert(known == self.task_view().dom());
        }
        let ids = self.task_ids();
        let mut in_degree: HashMap<u128, usize> = HashMap::new();
        let mut i: usize = 0;
        while i < ids.len()
            invariant
                self.wf(),
                deps == self.deps_view(),
                known == self.tasks@.dom(),
                ids@.to_set() == known,
                i <= ids.len(),
                in_degree@.dom() == ids@.take(i as int).to_set(),
                forall|t: u128| #[trigger] in_degree@.contains_key(t) ==> in_degree@[t] == deps[t].len(),
            decreases ids.len() - i,
        {
            let task_id = ids[i];
            let degree: usize = match self.dependencies.get(&task_id) {
                Some(d) => d.len(),
                None => 0,
            };
            proof {
                assert(ids@.to_set().contains(task_id));
                assert(ids@.take(i + 1) == ids@.take(i as int).push(task_id));
                lemma_push_facts(ids@.take(i as int), task_id);
            }
            in_degree.insert(task_id, degree);
            i = i + 1;
        }
        proof {
            assert(ids@.take(ids.len() as int) == ids@);
        }
        let mut current: Vec<u128> = Vec::new();
        let mut i: usize = 0;
        while i < ids.len()
            invariant
                self.wf(),
                deps == self.deps_view(),
                known == self.tasks@.dom(),
                ids@.to_set() == known,
                ids@.no_duplicates(),
                i <= ids.len(),
                in_degree@.dom() == known,
                forall|t: u128| #[trigger] in_degree@.contains_key(t) ==> in_degree@[t] == deps[t].len(),
                current@.no_duplicates(),
                forall|x: u128|
                    #[trigger] current@.contains(x) <==> ids@.take(i as int).contains(x) && deps[x].len() == 0,
            decreases ids.len() - i,
        {
            let task_id = ids[i];
            proof {
                assert(ids@.to_set().contains(task_id));
                assert(ids@.take(i + 1) == ids@.take(i as int).push(task_id));
            }
            let degree: usize = *in_degree.get(&task_id).unwrap();
            if degree == 0 {
                proof {
                    assert(!ids@.take(i as int).contains(task_id)) by {
                        if ids@.take(i as int).contains(task_id) {
                            let k = choose|k: int| 0 <= k < i && ids@.take(i as int)[k] == task_id;
                            assert(ids@[k] == ids@[i as int]);
                        }
                    }
                }
                proof {
                    lemma_push_facts(current@, task_id);
                }
                current.push(task_id);
            }
            proof {
                lemma_push_facts(ids@.take(i as int), task_id);
            }
            i = i + 1;
        }
        proof {
            assert(ids@.take(ids.len() as int) == ids@);
            assert forall|t: u128| #[trigger] known.contains(t) implies in_degree@[t] == pending(deps[t], Set::empty()) by {
                lemma_pending_none_done(deps[t]);
            }
            assert forall|x: u128|
                #[trigger] current@.contains(x) <==> (known.contains(x) && !Set::<u128>::empty().contains(x)
                    && pending(deps[x], Set::empty()) == 0) by {
                if known.contains(x) {
                    lemma_pending_none_done(deps[x]);
                    assert(ids@.to_set().contains(x));
                }
            }
        }
        let mut result: Vec<Vec<u128>> = Vec::new();
        let ghost mut done: Set<u128> = Set::empty();
        let ghost mut level_of: Map<u128, int> = Map::empty();
        while current.len() > 0
            invariant
                self.wf(),
                self.reverse_matches(),
                deps == self.deps_view(),
                known == self.tasks@.dom(),
                known == self.task_view().dom(),
                known.finite(),
                done.subset_of(known),
                level_of.dom() == done,
                in_degree@.dom() == known,
                forall|t: u128| #[trigger] known.contains(t) ==> in_degree@[t] == pending(deps[t], done),
                current@.no_duplicates(),
                forall|x: u128|
                    #[trigger] current@.contains(x) <==> (known.contains(x) && !done.contains(x) && pending(deps[x], done) == 0),
                forall|x: u128|
                    #[trigger] current@.contains(x) && result@.len() > 0 ==> exists|d: u128|
                        has_edge(deps, x, d) && done.contains(d) && level_of[d] == result@.len() - 1,
                forall|i: int, t: u128|
                    #[trigger] in_level(levels_view(result@), i, t) <==> (done.contains(t) && level_of[t] == i),
                forall|i: int| 0 <= i < result@.len() ==> (#[trigger] result@[i])@.len() > 0 && result@[i]@.no_duplicates(),
                forall|t: u128| #[trigger] done.contains(t) ==> 0 <= level_of[t] < result@.len(),
                forall|t: u128, d: u128|
                    done.contains(t) && #[trigger] has_edge(deps, t, d) ==> done.contains(d) && level_of[d] < level_of[t],
                forall|t: u128|
                    #[trigger] done.contains(t) && level_of[t] > 0 ==> exists|d: u128|
                        has_edge(deps, t, d) && done.contains(d) && level_of[d] == level_of[t] - 1,
            decreases known.len() - done.len(),
        {
            let ghost done0 = done;
            let ghost level_of0 = level_of;
            let ghost k = result@.len() as int;
            let mut level: Vec<u128> = Vec::new();
            let mut next: Vec<u128> = Vec::new();
            let mut i: usize = 0;
            while i < current.len()
                invariant
                    self.wf(),
                    self.reverse_matches(),
                    deps == self.deps_view(),
                    known == self.tasks@.dom(),
                    known == self.task_view().dom(),
                    i <= current.len(),
                    current@.no_duplicates(),
                    forall|x: u128|
                        #[trigger] current@.contains(x) <==> (known.contains(x) && !done0.contains(x) && pending(deps[x], done0) == 0),
                    forall|t: u128, d: u128|
                        done0.contains(t) && #[trigger] has_edge(deps, t, d) ==> done0.contains(d),
                    level@ == current@.take(i as int),
                    done == done0.union(current@.take(i as int).to_set()),
                    level_of.dom() == done,
                    forall|t: u128| #[trigger] done0.contains(t) ==> level_of[t] == level_of0[t],
                    forall|t: u128| #[trigger] current@.take(i as int).contains(t) ==> level_of[t] == k,
                    in_degree@.dom() == known,
                    forall|t: u128| #[trigger] known.contains(t) ==> in_degree@[t] == pending(deps[t], done),
                    next@.no_duplicates(),
                    forall|x: u128|
                        #[trigger] next@.contains(x) <==> (known.contains(x) && !done0.contains(x) && !current@.contains(x)
                            && pending(deps[x], done) == 0),
                decreases current.len() - i,
            {
                let task_id = current[i];
                level.push(task_id);
                let ghost done_before = done;
                proof {
                    assert(current@.contains(task_id));
                    assert(!done.contains(task_id)) by {
                        if current@.take(i as int).to_set().contains(task_id) {
                            let m = choose|m: int| 0 <= m < i && current@.take(i as int)[m] == task_id;
                            assert(current@[m] == current@[i as int]);
                        }
                    }
                }
                match self.reverse_dependencies.get(&task_id) {
                    Some(dependents) => {
                        let ghost rev_list = dependents@;
                        proof {
                            assert(list_or_empty(self.rev_view(), task_id) == rev_list);
                        }
                        let mut j: usize = 0;
                        while j < dependents.len()
                            invariant
                                self.wf(),
                                self.reverse_matches(),
                                deps == self.deps_view(),
                                known == self.tasks@.dom(),
                                known == self.task_view().dom(),
                                rev_list == dependents@,
                                list_or_empty(self.rev_view(), task_id) == rev_list,
                                known.contains(task_id),
                                !done_before.contains(task_id),
                                done_before == done,
                                done0.subset_of(done),
                                current@.contains(task_id),
                                forall|x: u128|
                                    #[trigger] current@.contains(x) <==> (known.contains(x) && !done0.contains(x) && pending(deps[x], done0) == 0),
                                forall|t: u128, d: u128|
                                    done0.contains(t) && #[trigger] has_edge(deps, t, d) ==> done0.contains(d),
                                j <= dependents.len(),
                                in_degree@.dom() == known,
                                forall|t: u128| #[trigger] known.contains(t) ==> in_degree@[t] + occurrences(rev_list.take(j as int), t) == pending(deps[t], done),
                                next@.no_duplicates(),
                                forall|x: u128|
                                    #[trigger] next@.contains(x) <==> (known.contains(x) && !done0.contains(x) && !current@.contains(x)
                                        && in_degree@[x] == 0),
                            decreases dependents.len() - j,
                        {
                            let dependent = dependents[j];
                            proof {
                                assert(self.rev_view().contains_key(task_id));
                                assert(self.rev_view()[task_id][j as int] == dependent);
                                assert(known.contains(dependent));
                                lemma_occurrences_take(rev_list, j as int, dependent);
                                lemma_occurrences_take_le(rev_list, j + 1, dependent);
                                lemma_pending_insert(deps[dependent], done, task_id);
                                assert(occurrences(list_or_empty(self.rev_view(), task_id), dependent)
                                    == occurrences(deps[dependent], task_id));
                            }
                            let degree: usize = *in_degree.get(&dependent).unwrap();
                            let lowered: usize = degree - 1;
                            in_degree.insert(dependent, lowered);
                            if lowered == 0 {
                                proof {
                                    assert(!done0.contains(dependent)) by {
                                        if done0.contains(dependent) {
                                            assert forall|d: u128| deps[dependent].contains(d) implies done.contains(d) by {
                                                assert(has_edge(deps, dependent, d));
                                            }
                                            lemma_pending_zero(deps[dependent], done);
                                        }
                                    }
                                    assert(!current@.contains(dependent)) by {
                                        if current@.contains(dependent) {
                                            lemma_pending_zero(deps[dependent], done0);
                                            assert forall|d: u128| deps[dependent].contains(d) implies done.contains(d) by {
                                                assert(done0.contains(d));
                                            }
                                            lemma_pending_zero(deps[dependent], done);
                                        }
                                    }
                                    assert(!next@.contains(dependent));
                                    lemma_push_facts(next@, dependent);
                                }
                                next.push(dependent);
                            }
                            proof {
                                assert forall|t: u128| #[trigger] known.contains(t) implies in_degree@[t] + occurrences(rev_list.take(j + 1), t) == pending(deps[t], done) by {
                                    lemma_occurrences_take(rev_list, j as int, t);
                                }
                            }
                            j = j + 1;
                        }
                        proof {
                            assert(rev_list.take(dependents.len() as int) == rev_list);
                        }
                    },
                    None => {
                        proof {
                            assert(list_or_empty(self.rev_view(), task_id) == Seq::<u128>::empty());
                            assert forall|t: u128| #[trigger] known.contains(t) implies in_degree@[t] + occurrences(Seq::<u128>::empty(), t) == pending(deps[t], done) by {
                            }
                        }
                    },
                }
                proof {
                    let rl = list_or_empty(self.rev_view(), task_id);
                    let done2 = done.insert(task_id);
                    assert forall|t: u128| #[trigger] known.contains(t) implies in_degree@[t] == pending(deps[t], done2) by {
                        lemma_pending_insert(deps[t], done, task_id);
                        assert(occurrences(rl, t) == occurrences(deps[t], task_id));
                    }
                    assert forall|x: u128|
                        #[trigger] next@.contains(x) <==> (known.contains(x) && !done0.contains(x) && !current@.contains(x)
                            && pending(deps[x], done2) == 0) by {
                        if known.contains(x) {
                            assert(in_degree@[x] == pending(deps[x], done2));
                        }
                    }
                    assert(current@.take(i + 1) == current@.take(i as int).push(task_id));
                    lemma_push_facts(current@.take(i as int), task_id);
                    assert(done0.union(current@.take(i + 1).to_set()) =~= done2);
                    done = done2;
                    level_of = level_of.insert(task_id, k);
                    assert forall|t: u128| #[trigger] current@.take(i + 1).contains(t) implies level_of[t] == k by {
                        if t != task_id {
                            assert(current@.take(i as int).contains(t));
                        }
                    }
                }
                i = i + 1;
            }
            proof {
                assert(current@.take(current.len() as int) == current@);
                assert(level@ == current@);
            }
            let ghost result0 = result@;
            result.push(level);
            proof {
                assert(levels_view(result@) == levels_view(result0).push(current@));
                assert(done =~= done0.union(current@.to_set()));
                assert forall|i2: int, t: u128|
                    #[trigger] in_level(levels_view(result@), i2, t) <==> (done.contains(t) && level_of[t] == i2) by {
                    if i2 < k {
                        assert(in_level(levels_view(result@), i2, t) == in_level(levels_view(result0), i2, t));
                        if done.contains(t) && !done0.contains(t) {
                            assert(current@.take(current.len() as int).contains(t));
                        }
                    } else if i2 == k {
                        if done.contains(t) && !done0.contains(t) {
                            assert(current@.take(current.len() as int).contains(t));
                        }
                        if done0.contains(t) {
                            assert(level_of[t] < k);
                        }
                    }
                }
                assert forall|t: u128, d: u128|
                    done.contains(t) && #[trigger] has_edge(deps, t, d) implies done.contains(d) && level_of[d] < level_of[t] by {
                    if !done0.contains(t) {
                        assert(current@.contains(t));
                        lemma_pending_zero(deps[t], done0);
                        assert(done0.contains(d));
                        assert(current@.take(current.len() as int).contains(t));
                    }
                }
                assert forall|t: u128|
                    #[trigger] done.contains(t) && level_of[t] > 0 implies exists|d: u128|
                        has_edge(deps, t, d) && done.contains(d) && level_of[d] == level_of[t] - 1 by {
                    if !done0.contains(t) {
                        assert(current@.take(current.len() as int).contains(t));
                        assert(current@.contains(t));
                    } else {
                        let d = choose|d: u128| has_edge(deps, t, d) && done0.contains(d) && level_of0[d] == level_of0[t] - 1;
                        assert(has_edge(deps, t, d) && done.contains(d) && level_of[d] == level_of[t] - 1);
                    }
                }
                assert forall|t: u128| #[trigger] done.contains(t) implies 0 <= level_of[t] < result@.len() by {
                    if !done0.contains(t) {
                        assert(current@.take(current.len() as int).contains(t));
                    }
                }
                assert forall|x: u128|
                    #[trigger] next@.contains(x) && result@.len() > 0 implies exists|d: u128|
                        has_edge(deps, x, d) && done.contains(d) && level_of[d] == result@.len() - 1 by {
                    assert(!current@.contains(x));
                    assert(!(pending(deps[x], done0) == 0));
                    lemma_pending_zero(deps[x], done0);
                    let d = choose|d: u128| deps[x].contains(d) && !done0.contains(d);
                    lemma_pending_zero(deps[x], done);
                    assert(done.contains(d));
                    assert(current@.take(current.len() as int).contains(d));
                    assert(has_edge(deps, x, d));
                }
                assert forall|x: u128|
                    #[trigger] next@.contains(x) <==> (known.contains(x) && !done.contains(x) && pending(deps[x], done) == 0) by {
                    if current@.contains(x) {
                        assert(current@.take(current.len() as int).contains(x));
                    }
                }
                assert(current@.len() > 0);
                assert(current@.to_set().contains(current@[0]));
                vstd::set_lib::lemma_len_subset(done0, known);
                vstd::set_lib::lemma_len_subset(done, known);
                assert(done0.insert(current@[0]).subset_of(done));
                vstd::set_lib::lemma_set_subset_finite(known, done0);
                vstd::set_lib::lemma_len_subset(done0.insert(current@[0]), done);
            }
            current = next;
        }
        proof {
            assert(current@.len() == 0);
            let rest = known.difference(done);
            assert forall|t: u128| #[trigger] rest.contains(t) implies exists|d: u128| has_edge(deps, t, d) && rest.contains(d) by {
                assert(!current@.contains(t));
                lemma_pending_zero(deps[t], done);
                let d = choose|d: u128| deps[t].contains(d) && !done.contains(d);
                assert(has_edge(deps, t, d));
                assert(known.contains(d));
                assert(rest.contains(d));
            }
            lemma_no_self_supporting_set(deps, rest);
            assert forall|t: u128| known.contains(t) implies done.contains(t) by {
                if !done.contains(t) {
                    assert(rest.contains(t));
                }
            }
            let levels = levels_view(result@);
            assert forall|t: u128| known.contains(t) <==> exists|i: int| #[trigger] in_level(levels, i, t) by {
                if known.contains(t) {
                    assert(in_level(levels, level_of[t], t));
                }
            }
            assert forall|i: int, t: u128, d: u128|
                #[trigger] in_level(levels, i, t) && #[trigger] has_edge(deps, t, d)
                    implies exists|j: int| j < i && #[trigger] in_level(levels, j, d) by {
                assert(in_level(levels, level_of[d], d));
            }
            assert forall|i: int, t: u128|
                #[trigger] in_level(levels, i, t) && i > 0 implies exists|d: u128| #[trigger] has_edge(deps, t, d) && in_level(levels, i - 1, d) by {
                let d = choose|d: u128| has_edge(deps, t, d) && done.contains(d) && level_of[d] == level_of[t] - 1;
                assert(in_level(levels, i - 1, d));
            }
            assert forall|i: int| 0 <= i < levels.len() implies #[trigger] levels[i].len() > 0 && levels[i].no_duplicates() by {
                assert(levels[i] == result@[i]@);
            }
        }
        result
    }
}

proof fn lemma_occurrences_absent(s: Seq<u128>, x: u128)
    requires
        !s.contains(x),
    ensures
        occurrences(s, x) == 0,
    decreases s.len(),
{
    if s.len() > 0 {
        assert(s.last() != x) by {
            assert(s[s.len() - 1] == s.last());
        }
        assert forall|y: u128| s.drop_last().contains(y) implies s.contains(y) by {
            let k = choose|k: int| 0 <= k < s.drop_last().len() && s.drop_last()[k] == y;
            assert(s[k] == y);
        }
        lemma_occurrences_absent(s.drop_last(), x);
    }
}

proof fn lemma_add_dependents_count(rev: Map<u128, Seq<u128>>, id: u128, deps: Seq<u128>, d: u128, t: u128)
    ensures
        occurrences(list_or_empty(add_dependents(rev, id, deps), d), t) == occurrences(list_or_empty(rev, d), t)
            + if t == id { occurrences(deps, d) } else { 0 },
    decreases deps.len(),
{
    if deps.len() > 0 {
        lemma_add_dependents_count(rev, id, deps.drop_last(), d, t);
        let r = add_dependents(rev, id, deps.drop_last());
        if deps.last() == d {
            assert(list_or_empty(r, d).push(id).drop_last() == list_or_empty(r, d));
        }
    }
}

proof fn lemma_task_map_dom(v: Seq<TaskConfigView>)
    requires
        ids_present(v),
    ensures
        dependency_map(v).dom() == task_map(v).dom(),
        forall|y: u128| #[trigger] task_map(v).dom().contains(y) <==> exists|i: int| 0 <= i < v.len() && v[i].id == Some(y),
    decreases v.len(),
{
    if v.len() > 0 {
        let v2 = v.drop_last();
        assert(ids_present(v2)) by {
            assert forall|i: int| 0 <= i < v2.len() implies (#[trigger] v2[i]).id is Some by {
                assert(v2[i] == v[i]);
            }
        }
        lemma_task_map_dom(v2);
        assert(v[v.len() - 1].id is Some);
        assert forall|y: u128| #[trigger] task_map(v).dom().contains(y) <==> exists|i: int| 0 <= i < v.len() && v[i].id == Some(y) by {
            if task_map(v).dom().contains(y) && y == v.last().id.unwrap() {
                assert(v[v.len() - 1].id == Some(y));
            }
            if task_map(v).dom().contains(y) && y != v.last().id.unwrap() {
                let i = choose|i: int| 0 <= i < v2.len() && v2[i].id == Some(y);
                assert(v[i] == v2[i]);
            }
            if exists|i: int| 0 <= i < v.len() && v[i].id == Some(y) {
                let i = choose|i: int| 0 <= i < v.len() && v[i].id == Some(y);
                if i < v2.len() {
                    assert(v2[i] == v[i]);
                }
            }
        }
    }
}

proof fn lemma_reverse_map_entries(v: Seq<TaskConfigView>)
    requires
        ids_present(v),
    ensures
        forall|d: u128, y: u128| #[trigger] list_or_empty(reverse_map(v), d).contains(y) ==> task_map(v).dom().contains(y),
    decreases v.len(),
{
    if v.len() > 0 {
        let v2 = v.drop_last();
        assert(ids_present(v2)) by {
            assert forall|i: int| 0 <= i < v2.len() implies (#[trigger] v2[i]).id is Some by {
                assert(v2[i] == v[i]);
            }
        }
        lemma_reverse_map_entries(v2);
        lemma_add_dependents_entries(reverse_map(v2), v.last().id.unwrap(), v.last().dependencies);
    }
}

proof fn lemma_dependency_map_finite(v: Seq<TaskConfigView>)
    ensures
        dependency_map(v).dom().finite(),
    decreases v.len(),
{
    if v.len() > 0 {
        lemma_dependency_map_finite(v.drop_last());
    }
}

/// The graph of configurations is valid exactly when no task depends on
/// itself through a chain of dependencies and every dependency names a task.
pub proof fn lemma_graph_valid_iff_no_cycle(v: Seq<TaskConfigView>)
    ensures
        graph_valid(v) <==> (!has_cycle(dependency_map(v)) && dependencies_exist(task_map(v).dom(), dependency_map(v))),
{
    lemma_dependency_map_finite(v);
    if acyclic(dependency_map(v)) {
        lemma_acyclic_has_no_cycle(dependency_map(v));
    }
    if !has_cycle(dependency_map(v)) {
        lemma_no_cycle_acyclic(dependency_map(v));
    }
}

/// A graph built from configurations with distinct identifiers has a reverse
/// relation that matches its dependency lists, so its execution order may be
/// computed.
pub proof fn lemma_reverse_matches_when_distinct(t: TopologyManager, v: Seq<TaskConfigView>)
    requires
        t.built_from(v),
        ids_present(v),
        ids_distinct(v),
    ensures
        t.reverse_matches(),
{
    lemma_distinct_ids_reverse_consistent(v);
}

/// With distinct task identifiers, the reverse relation built from a list of
/// configurations matches its dependency lists: every such list has an
/// execution order.
pub proof fn lemma_distinct_ids_reverse_consistent(v: Seq<TaskConfigView>)
    requires
        ids_present(v),
        ids_distinct(v),
    ensures
        forall|t: u128, d: u128|
            task_map(v).dom().contains(t) ==> #[trigger] occurrences(list_or_empty(reverse_map(v), d), t)
                == #[trigger] occurrences(dependency_map(v)[t], d),
        reverse_consistent(task_map(v).dom(), dependency_map(v), reverse_map(v)),
    decreases v.len(),
{
    if v.len() > 0 {
        let v2 = v.drop_last();
        let c = v.last();
        let x = c.id.unwrap();
        assert(ids_present(v2)) by {
            assert forall|i: int| 0 <= i < v2.len() implies (#[trigger] v2[i]).id is Some by {
                assert(v2[i] == v[i]);
            }
        }
        assert(ids_distinct(v2)) by {
            assert forall|i: int, j: int| 0 <= i < j < v2.len() implies (#[trigger] v2[i]).id != (#[trigger] v2[j]).id by {
                assert(v2[i] == v[i] && v2[j] == v[j]);
            }
        }
        lemma_distinct_ids_reverse_consistent(v2);
        lemma_reverse_map_entries(v2);
        lemma_task_map_dom(v2);
        assert(!task_map(v2).dom().contains(x)) by {
            if task_map(v2).dom().contains(x) {
                let i = choose|i: int| 0 <= i < v2.len() && v2[i].id == Some(x);
                assert(v[i].id == v[v.len() - 1].id);
            }
        }
        assert forall|t: u128, d: u128|
            task_map(v).dom().contains(t) implies #[trigger] occurrences(list_or_empty(reverse_map(v), d), t)
                == #[trigger] occurrences(dependency_map(v)[t], d) by {
            lemma_add_dependents_count(reverse_map(v2), x, c.dependencies, d, t);
            if t == x {
                if list_or_empty(reverse_map(v2), d).contains(x) {
                    assert(task_map(v2).dom().contains(x));
                }
                lemma_occurrences_absent(list_or_empty(reverse_map(v2), d), x);
            }
        }
    }
}

impl TopologyManager {
    /// Whether the reverse relation matches the dependency lists, that is,
    /// whether `get_execution_order` may be called.
    pub fn reverse_dependencies_consistent(&self) -> (res: bool)
        requires
            self.wf(),
        ensures
            res == self.reverse_matches(),
    {
        let ids = self.task_ids();
        let ghost known = self.tasks@.dom();
        let mut a: usize = 0;
        while a < ids.len()
            invariant
                self.wf(),
                ids@.to_set() == known,
                known == self.tasks@.dom(),
                known == self.task_view().dom(),
                a <= ids.len(),
                forall|i: int, d: u128|
                    #![trigger ids@[i], known.contains(d)]
                    0 <= i < a && known.contains(d) ==> occurrences(list_or_empty(self.rev_view(), d), ids@[i])
                        == occurrences(self.deps_view()[ids@[i]], d),
            decreases ids.len() - a,
        {
            let t = ids[a];
            let mut b: usize = 0;
            while b < ids.len()
                invariant
                    self.wf(),
                    ids@.to_set() == known,
                    known == self.tasks@.dom(),
                    a < ids.len(),
                    t == ids@[a as int],
                    b <= ids.len(),
                    forall|j: int|
                        0 <= j < b ==> occurrences(list_or_empty(self.rev_view(), #[trigger] ids@[j]), t)
                            == occurrences(self.deps_view()[t], ids@[j]),
                decreases ids.len() - b,
            {
                let d = ids[b];
                let forward: usize = match self.dependencies.get(&t) {
                    Some(list) => count_in(list, d),
                    None => 0,
                };
                let backward: usize = match self.reverse_dependencies.get(&d) {
                    Some(list) => count_in(list, t),
                    None => 0,
                };
                proof {
                    assert(ids@.to_set().contains(t));
                    if !self.reverse_dependencies@.contains_key(d) {
                        assert(list_or_empty(self.rev_view(), d) == Seq::<u128>::empty());
                    }
                }
                if forward != backward {
                    proof {
                        assert(ids@.to_set().contains(d));
                        assert(known.contains(t) && known.contains(d));
                        assert(!(occurrences(list_or_empty(self.rev_view(), d), t) == occurrences(self.deps_view()[t], d)));
                    }
                    return false;
                }
                b = b + 1;
            }
            proof {
                assert forall|i: int, d: u128|
                    #![trigger ids@[i], known.contains(d)]
                    0 <= i < a + 1 && known.contains(d) implies occurrences(list_or_empty(self.rev_view(), d), ids@[i])
                        == occurrences(self.deps_view()[ids@[i]], d) by {
                    if i == a {
                        assert(ids@.to_set().contains(d));
                        let j = choose|j: int| 0 <= j < ids@.len() && ids@[j] == d;
                        assert(occurrences(list_or_empty(self.rev_view(), ids@[j]), t) == occurrences(self.deps_view()[t], ids@[j]));
                    }
                }
            }
            a = a + 1;
        }
        proof {
            assert forall|t: u128, d: u128|
                known.contains(t) && known.contains(d) implies #[trigger] occurrences(list_or_empty(self.rev_view(), d), t)
                    == #[trigger] occurrences(self.deps_view()[t], d) by {
                assert(ids@.to_set().contains(t));
                let i = choose|i: int| 0 <= i < ids@.len() && ids@[i] == t;
                assert(known.contains(d));
            }
        }
        true
    }
}

/// Counts the entries of `v` equal to `x`.
fn count_in(v: &Vec<u128>, x: u128) -> (n: usize)
    ensures
        n == occurrences(v@, x),
{
    let mut n: usize = 0;
    let mut i: usize = 0;
    while i < v.len()
        invariant
            i <= v.len(),
            n == occurrences(v@.take(i as int), x),
            n <= i,
        decreases v.len() - i,
    {
        proof {
            lemma_occurrences_take(v@, i as int, x);
        }
        if v[i] == x {
            n = n + 1;
        }
        i = i + 1;
    }
    assert(v@.take(v.len() as int) == v@);
    n
}

} // verus!