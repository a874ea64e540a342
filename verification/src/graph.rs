//! The dependency graph as a mathematical object: edges from a task to each
//! of its prerequisites, acyclicity, and execution levels.
use vstd::prelude::*;

verus! {

/// `from` lists `to` among its dependencies.
pub open spec fn has_edge(deps: Map<u128, Seq<u128>>, from: u128, to: u128) -> bool {
    deps.contains_key(from) && deps[from].contains(to)
}

/// `rank` strictly decreases along every dependency edge.
pub open spec fn is_ranking(deps: Map<u128, Seq<u128>>, rank: Map<u128, nat>) -> bool {
    forall|t: u128, d: u128|
        #[trigger] has_edge(deps, t, d) ==> rank.contains_key(t) && rank.contains_key(d) && rank[d]
            < rank[t]
}

/// The graph has a ranking, so no task can (transitively) depend on itself.
pub open spec fn acyclic(deps: Map<u128, Seq<u128>>) -> bool {
    exists|rank: Map<u128, nat>| is_ranking(deps, rank)
}

/// Consecutive entries of `path` are dependency edges.
pub open spec fn is_path(deps: Map<u128, Seq<u128>>, path: Seq<u128>) -> bool {
    forall|i: int| 0 <= i < path.len() - 1 ==> #[trigger] has_edge(deps, path[i], path[i + 1])
}

/// A path of at least one edge that returns to where it started.
pub open spec fn is_cycle(deps: Map<u128, Seq<u128>>, path: Seq<u128>) -> bool {
    &&& path.len() >= 2
    &&& path[0] == path.last()
    &&& is_path(deps, path)
}

/// Some task depends on itself through a chain of dependencies.
pub open spec fn has_cycle(deps: Map<u128, Seq<u128>>) -> bool {
    exists|path: Seq<u128>| is_cycle(deps, path)
}

/// Every dependency names a known task.
pub open spec fn dependencies_exist(tasks: Set<u128>, deps: Map<u128, Seq<u128>>) -> bool {
    forall|t: u128, d: u128| #[trigger] has_edge(deps, t, d) ==> tasks.contains(d)
}

proof fn lemma_rank_along_path(deps: Map<u128, Seq<u128>>, rank: Map<u128, nat>, path: Seq<u128>, i: int)
    requires
        is_ranking(deps, rank),
        is_path(deps, path),
        0 <= i < path.len() - 1,
    ensures
        rank.contains_key(path[i]),
        rank.contains_key(path.last()),
        rank[path[i]] >= rank[path.last()] + (path.len() - 1 - i),
    decreases path.len() - i,
{
    assert(has_edge(deps, path[i], path[i + 1]));
    if i + 1 < path.len() - 1 {
        lemma_rank_along_path(deps, rank, path, i + 1);
    }
}

/// A graph with a ranking has no cycle.
pub proof fn lemma_acyclic_has_no_cycle(deps: Map<u128, Seq<u128>>)
    requires
        acyclic(deps),
    ensures
        !has_cycle(deps),
{
    let rank = choose|rank: Map<u128, nat>| is_ranking(deps, rank);
    if has_cycle(deps) {
        let path = choose|path: Seq<u128>| is_cycle(deps, path);
        lemma_rank_along_path(deps, rank, path, 0);
    }
}

/// A walk of `k + 1` tasks from `x`, each step along an edge that stays in
/// `dom`.
spec fn walk(deps: Map<u128, Seq<u128>>, dom: Set<u128>, x: u128, k: nat) -> Seq<u128>
    decreases k,
{
    if k == 0 {
        seq![x]
    } else {
        let w = walk(deps, dom, x, (k - 1) as nat);
        w.push(choose|d: u128| has_edge(deps, w.last(), d) && dom.contains(d))
    }
}

proof fn lemma_walk(deps: Map<u128, Seq<u128>>, dom: Set<u128>, x: u128, k: nat)
    requires
        dom.contains(x),
        forall|y: u128| #[trigger] dom.contains(y) ==> exists|d: u128| has_edge(deps, y, d) && dom.contains(d),
    ensures
        walk(deps, dom, x, k).len() == k + 1,
        walk(deps, dom, x, k)[0] == x,
        is_path(deps, walk(deps, dom, x, k)),
        forall|i: int| 0 <= i < walk(deps, dom, x, k).len() ==> dom.contains(#[trigger] walk(deps, dom, x, k)[i]),
    decreases k,
{
    if k > 0 {
        let w = walk(deps, dom, x, (k - 1) as nat);
        lemma_walk(deps, dom, x, (k - 1) as nat);
        assert(dom.contains(w[w.len() - 1]));
        let d = choose|d: u128| has_edge(deps, w.last(), d) && dom.contains(d);
        let w2 = w.push(d);
        assert(w2 == walk(deps, dom, x, k));
        assert forall|i: int| 0 <= i < w2.len() - 1 implies #[trigger] has_edge(deps, w2[i], w2[i + 1]) by {
            if i < w.len() - 1 {
                assert(has_edge(deps, w[i], w[i + 1]));
            }
        }
        assert forall|i: int| 0 <= i < w2.len() implies dom.contains(#[trigger] w2[i]) by {
            if i < w.len() {
                assert(dom.contains(w[i]));
            }
        }
    }
}

/// A path that visits a task twice contains a cycle.
proof fn lemma_repeat_gives_cycle(deps: Map<u128, Seq<u128>>, w: Seq<u128>, i: int, j: int)
    requires
        is_path(deps, w),
        0 <= i < j < w.len(),
        w[i] == w[j],
    ensures
        has_cycle(deps),
{
    let c = w.subrange(i, j + 1);
    assert forall|k: int| 0 <= k < c.len() - 1 implies #[trigger] has_edge(deps, c[k], c[k + 1]) by {
        assert(c[k] == w[i + k]);
        assert(c[k + 1] == w[i + k + 1]);
        assert(has_edge(deps, w[i + k], w[i + k + 1]));
    }
    assert(is_cycle(deps, c));
}

/// A sequence longer than a finite set, whose entries are all in the set,
/// repeats an entry.
proof fn lemma_long_seq_repeats(w: Seq<u128>, dom: Set<u128>)
    requires
        dom.finite(),
        w.len() > dom.len(),
        forall|i: int| 0 <= i < w.len() ==> dom.contains(#[trigger] w[i]),
    ensures
        exists|i: int, j: int| 0 <= i < j < w.len() && w[i] == w[j],
{
    if w.no_duplicates() {
        w.unique_seq_to_set();
        assert forall|y: u128| w.to_set().contains(y) implies dom.contains(y) by {
            let k = choose|k: int| 0 <= k < w.len() && w[k] == y;
            assert(dom.contains(w[k]));
        }
        vstd::set_lib::lemma_len_subset(w.to_set(), dom);
    } else {
        let (i, j) = choose|i: int, j: int| 0 <= i < w.len() && 0 <= j < w.len() && i != j && w[i] == w[j];
        if j < i {
            assert(0 <= j < i < w.len() && w[j] == w[i]);
        }
    }
}

/// When every task of a finite, non-empty set has a dependency in the set,
/// the graph has a cycle.
proof fn lemma_successors_give_cycle(deps: Map<u128, Seq<u128>>, dom: Set<u128>)
    requires
        dom.finite(),
        dom.len() > 0,
        forall|y: u128| #[trigger] dom.contains(y) ==> exists|d: u128| has_edge(deps, y, d) && dom.contains(d),
    ensures
        has_cycle(deps),
{
    let x = dom.choose();
    let n = dom.len();
    lemma_walk(deps, dom, x, n);
    let w = walk(deps, dom, x, n);
    lemma_long_seq_repeats(w, dom);
    let (i, j) = choose|i: int, j: int| 0 <= i < j < w.len() && w[i] == w[j];
    lemma_repeat_gives_cycle(deps, w, i, j);
}

/// `s` is one of `dom` and has no dependency in `dom`.
spec fn is_sink(deps: Map<u128, Seq<u128>>, dom: Set<u128>, s: u128) -> bool {
    dom.contains(s) && forall|d: u128| #[trigger] has_edge(deps, s, d) ==> !dom.contains(d)
}

/// A finite graph without cycle has a task whose dependencies are all
/// outside the graph's tasks.
proof fn lemma_sink_exists(deps: Map<u128, Seq<u128>>)
    requires
        deps.dom().finite(),
        deps.dom().len() > 0,
        !has_cycle(deps),
    ensures
        exists|s: u128| #[trigger] is_sink(deps, deps.dom(), s),
{
    let dom = deps.dom();
    if !exists|s: u128| #[trigger] is_sink(deps, dom, s) {
        assert forall|y: u128| #[trigger] dom.contains(y) implies exists|d: u128| has_edge(deps, y, d) && dom.contains(d) by {
            assert(!is_sink(deps, dom, y));
        }
        lemma_successors_give_cycle(deps, dom);
    }
}

/// A finite graph without cycle is acyclic: it has a ranking. With
/// [`lemma_acyclic_has_no_cycle`], a finite graph is acyclic exactly when
/// no task depends on itself through a chain of dependencies.
pub proof fn lemma_no_cycle_acyclic(deps: Map<u128, Seq<u128>>)
    requires
        deps.dom().finite(),
        !has_cycle(deps),
    ensures
        acyclic(deps),
    decreases deps.dom().len(),
{
    let dom = deps.dom();
    if dom.len() == 0 {
        let rank = Map::<u128, nat>::empty();
        assert forall|t: u128, d: u128| #[trigger] has_edge(deps, t, d) implies rank.contains_key(t) && rank.contains_key(d)
            && rank[d] < rank[t] by {
            assert(dom.contains(t));
        }
        assert(is_ranking(deps, rank));
    } else {
        lemma_sink_exists(deps);
        let s = choose|s: u128| #[trigger] is_sink(deps, dom, s);
        assert(is_sink(deps, dom, s));
        let deps2 = deps.remove(s);
        assert(deps2.dom() =~= dom.remove(s));
        if has_cycle(deps2) {
            let c = choose|c: Seq<u128>| is_cycle(deps2, c);
            assert forall|i: int| 0 <= i < c.len() - 1 implies #[trigger] has_edge(deps, c[i], c[i + 1]) by {
                assert(has_edge(deps2, c[i], c[i + 1]));
            }
            assert(is_cycle(deps, c));
        }
        lemma_no_cycle_acyclic(deps2);
        let rank2 = choose|rank: Map<u128, nat>| is_ranking(deps2, rank);
        let rank = Map::new(
            |x: u128| true,
            |x: u128|
                if !dom.contains(x) {
                    0nat
                } else if x == s {
                    1nat
                } else {
                    rank2[x] + 2
                },
        );
        assert forall|t: u128, d: u128| #[trigger] has_edge(deps, t, d) implies rank.contains_key(t) && rank.contains_key(d)
            && rank[d] < rank[t] by {
            if t != s {
                assert(has_edge(deps2, t, d));
            }
        }
        assert(is_ranking(deps, rank));
    }
}

/// In an acyclic graph, a set of tasks in which every member has a
/// dependency that is again a member is empty.
pub proof fn lemma_no_self_supporting_set(deps: Map<u128, Seq<u128>>, s: Set<u128>)
    requires
        acyclic(deps),
        forall|t: u128| #[trigger] s.contains(t) ==> exists|d: u128| has_edge(deps, t, d) && s.contains(d),
    ensures
        s.is_empty(),
{
    let rank = choose|rank: Map<u128, nat>| is_ranking(deps, rank);
    if !s.is_empty() {
        let t = s.choose();
        lemma_members_rank_above(deps, rank, s, rank[t]);
        let d = choose|d: u128| has_edge(deps, t, d) && s.contains(d);
        assert(has_edge(deps, t, d));
    }
}

proof fn lemma_members_rank_above(deps: Map<u128, Seq<u128>>, rank: Map<u128, nat>, s: Set<u128>, n: nat)
    requires
        is_ranking(deps, rank),
        forall|t: u128| #[trigger] s.contains(t) ==> exists|d: u128| has_edge(deps, t, d) && s.contains(d),
    ensures
        forall|t: u128| #[trigger] s.contains(t) ==> rank.contains_key(t) && rank[t] > n,
    decreases n,
{
    assert forall|t: u128| #[trigger] s.contains(t) implies rank.contains_key(t) && rank[t] > n by {
        let d = choose|d: u128| has_edge(deps, t, d) && s.contains(d);
        assert(has_edge(deps, t, d));
        if n > 0 {
            lemma_members_rank_above(deps, rank, s, (n - 1) as nat);
            assert(s.contains(d));
        }
    }
}

/// `t` is placed in level `i` of `levels`.
pub open spec fn in_level(levels: Seq<Seq<u128>>, i: int, t: u128) -> bool {
    0 <= i < levels.len() && levels[i].contains(t)
}

/// `levels` runs every task of `tasks` exactly once, level by level: a task
/// stands after all of its dependencies, and a task that is not in the first
/// level has a dependency in the level just before its own, so that it
/// starts as early as its dependencies allow. Tasks of one level can run in
/// parallel.
pub open spec fn is_level_schedule(levels: Seq<Seq<u128>>, tasks: Set<u128>, deps: Map<u128, Seq<u128>>) -> bool {
    &&& forall|i: int| 0 <= i < levels.len() ==> #[trigger] levels[i].len() > 0 && levels[i].no_duplicates()
    &&& forall|i1: int, i2: int, t: u128| #[trigger] in_level(levels, i1, t) && #[trigger] in_level(levels, i2, t) ==> i1 == i2
    &&& forall|t: u128| tasks.contains(t) <==> exists|i: int| #[trigger] in_level(levels, i, t)
    &&& forall|i: int, t: u128, d: u128|
        #[trigger] in_level(levels, i, t) && #[trigger] has_edge(deps, t, d)
            ==> exists|j: int| j < i && #[trigger] in_level(levels, j, d)
    &&& forall|i: int, t: u128|
        #[trigger] in_level(levels, i, t) && i > 0
            ==> exists|d: u128| #[trigger] has_edge(deps, t, d) && in_level(levels, i - 1, d)
}

proof fn lemma_same_level(
    l1: Seq<Seq<u128>>,
    l2: Seq<Seq<u128>>,
    tasks: Set<u128>,
    deps: Map<u128, Seq<u128>>,
    i: int,
)
    requires
        is_level_schedule(l1, tasks, deps),
        is_level_schedule(l2, tasks, deps),
        0 <= i,
    ensures
        forall|t: u128| #[trigger] in_level(l1, i, t) ==> in_level(l2, i, t),
    decreases i,
{
    assert forall|t: u128| #[trigger] in_level(l1, i, t) implies in_level(l2, i, t) by {
        assert(tasks.contains(t));
        let k = choose|k: int| #[trigger] in_level(l2, k, t);
        if i == 0 {
            if k > 0 {
                let d = choose|d: u128| #[trigger] has_edge(deps, t, d) && in_level(l2, k - 1, d);
                let j = choose|j: int| j < i && #[trigger] in_level(l1, j, d);
            }
        } else {
            let d0 = choose|d: u128| #[trigger] has_edge(deps, t, d) && in_level(l1, i - 1, d);
            lemma_same_level(l1, l2, tasks, deps, i - 1);
            assert(in_level(l2, i - 1, d0));
            let j0 = choose|j: int| j < k && #[trigger] in_level(l2, j, d0);
            assert(j0 == i - 1);
            let d1 = choose|d: u128| #[trigger] has_edge(deps, t, d) && in_level(l2, k - 1, d);
            let j1 = choose|j: int| j < i && #[trigger] in_level(l1, j, d1);
            lemma_same_level(l1, l2, tasks, deps, j1);
            assert(in_level(l2, j1, d1));
        }
    }
}

/// Execution levels are determined by the graph: any two level schedules of
/// the same tasks and dependencies have the same number of levels and the
/// same tasks in each level; only the order inside a level may differ.
pub proof fn lemma_level_schedule_unique(
    l1: Seq<Seq<u128>>,
    l2: Seq<Seq<u128>>,
    tasks: Set<u128>,
    deps: Map<u128, Seq<u128>>,
)
    requires
        is_level_schedule(l1, tasks, deps),
        is_level_schedule(l2, tasks, deps),
    ensures
        l1.len() == l2.len(),
        forall|i: int| 0 <= i < l1.len() ==> (#[trigger] l1[i]).to_set() == l2[i].to_set(),
{
    assert forall|i: int, t: u128| 0 <= i && #[trigger] in_level(l1, i, t) implies in_level(l2, i, t) by {
        lemma_same_level(l1, l2, tasks, deps, i);
    }
    assert forall|i: int, t: u128| 0 <= i && #[trigger] in_level(l2, i, t) implies in_level(l1, i, t) by {
        lemma_same_level(l2, l1, tasks, deps, i);
    }
    if l1.len() > l2.len() {
        let i = l2.len() as int;
        assert(l1[i].len() > 0);
        assert(in_level(l1, i, l1[i][0]));
    }
    if l2.len() > l1.len() {
        let i = l1.len() as int;
        assert(l2[i].len() > 0);
        assert(in_level(l2, i, l2[i][0]));
    }
    assert forall|i: int| 0 <= i < l1.len() implies (#[trigger] l1[i]).to_set() == l2[i].to_set() by {
        assert forall|t: u128| l1[i].to_set().contains(t) <==> l2[i].to_set().contains(t) by {
            if l1[i].contains(t) {
                assert(in_level(l1, i, t));
            }
            if l2[i].contains(t) {
                assert(in_level(l2, i, t));
            }
        }
        assert(l1[i].to_set() =~= l2[i].to_set());
    }
}

} // verus!
