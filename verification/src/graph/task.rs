//! The task graph: one task per (project, target) pair reachable from the
//! requested target, with the dependencies that `depends_on` declares, and the
//! execution state of each task.

use vstd::prelude::*;

use crate::config::{ProjectName, TargetName};
use crate::config::project::{TargetConfigView, has_key, targets_view};
use crate::config::types::{DependsOn, DependsOnView, depends_view};
use crate::error::TaskGraphError;
use crate::graph::dag::{
    acyclic, reverse_edges, adj_of, contains_index, edge, is_walk, on_cycle, rel_of, topo_sort, walk_step,
    well_formed,
};
use crate::graph::project::{ProjectGraph, ProjectGraphView};

verus! {

/// A task as plain values: (project name, target name).
pub type TaskKey = (Seq<char>, Seq<char>);

/// A unique identifier for a task: (project, target) pair.
#[derive(Debug, PartialEq, Eq, Hash)]
pub struct TaskId {
    project: ProjectName,
    target: TargetName,
}

impl View for TaskId {
    type V = TaskKey;

    closed spec fn view(&self) -> TaskKey {
        (self.project@, self.target@)
    }
}

impl Clone for TaskId {
    fn clone(&self) -> (r: Self)
        ensures
            r@ == self@,
    {
        TaskId { project: self.project.clone(), target: self.target.clone() }
    }
}

impl TaskId {
    pub fn new(project: ProjectName, target: TargetName) -> (r: Self)
        ensures
            r@ == (project@, target@),
    {
        TaskId { project, target }
    }

    pub fn project(&self) -> (r: &ProjectName)
        ensures
            r@ == self@.0,
    {
        &self.project
    }

    pub fn target(&self) -> (r: &TargetName)
        ensures
            r@ == self@.1,
    {
        &self.target
    }

    /// The task as text (what `Display` writes): `project:target`.
    pub fn to_string(&self) -> (r: String)
        ensures
            r@ == self@.0 + ":"@ + self@.1,
    {
        let mut s = self.project.to_string();
        s.append(":");
        s.append(self.target.as_str());
        s
    }

    /// Whether two identifiers name the same task.
    pub fn same(&self, other: &Self) -> (r: bool)
        ensures
            r == (self@ == other@),
    {
        self.project.same(&other.project) && self.target.same(&other.target)
    }
}

/// The state of a task in the execution graph.
#[derive(Debug, Clone, Copy, PartialEq, Eq, Structural)]
pub enum TaskState {
    /// Task is waiting for dependencies to complete.
    Pending,
    /// Task is ready to execute (all deps complete).
    Ready,
    /// Task is currently executing.
    Running,
    /// Task completed successfully.
    Completed,
}

/// The state a task starts in, given how many tasks it depends on.
pub open spec fn initial_state(ndeps: nat) -> TaskState {
    if ndeps == 0 {
        TaskState::Ready
    } else {
        TaskState::Pending
    }
}

/// Target `q` of project `p` exists.
pub open spec fn valid_pq(pg: ProjectGraphView, p: int, q: int) -> bool {
    0 <= p < pg.projects.len() && 0 <= q < pg.projects[p].targets.len()
}

/// The task of target `q` of project `p`.
pub open spec fn key_at(pg: ProjectGraphView, p: int, q: int) -> TaskKey {
    (pg.projects[p].name, pg.projects[p].targets[q].0)
}

/// The configuration of target `q` of project `p`.
pub open spec fn config_at(pg: ProjectGraphView, p: int, q: int) -> TargetConfigView {
    pg.projects[p].targets[q].1
}

/// `d` is a task that the entry `dep` of a target of project `p` asks for: the named
/// target of `p` itself, or of each project that `p` depends on and that has it.
pub open spec fn dep_target(pg: ProjectGraphView, p: int, dep: DependsOnView, d: TaskKey) -> bool {
    match dep {
        DependsOnView::Local(t) => d == (pg.projects[p].name, t),
        DependsOnView::Upstream(t) => exists|v: usize|
            #![trigger edge(pg.edges, p as usize, v)]
            edge(pg.edges, p as usize, v) && has_key(pg.projects[v as int].targets, t) && d == (
                pg.projects[v as int].name,
                t,
            ),
    }
}

/// Task `k` depends on task `d`.
pub open spec fn task_dep(pg: ProjectGraphView, k: TaskKey, d: TaskKey) -> bool {
    exists|p: int, q: int, j: int|
        #![trigger key_at(pg, p, q), config_at(pg, p, q).depends_on[j]]
        valid_pq(pg, p, q) && key_at(pg, p, q) == k && 0 <= j < config_at(pg, p, q).depends_on.len()
            && dep_target(pg, p, config_at(pg, p, q).depends_on[j], d)
}

/// The dependency relation between tasks.
pub open spec fn task_rel(pg: ProjectGraphView) -> spec_fn(TaskKey, TaskKey) -> bool {
    |k: TaskKey, d: TaskKey| task_dep(pg, k, d)
}

/// `k` is a task of the requested target `t`: some project has target `t`.
pub open spec fn is_seed(pg: ProjectGraphView, t: Seq<char>, k: TaskKey) -> bool {
    k.1 == t && exists|p: int, q: int| #![trigger key_at(pg, p, q)] valid_pq(pg, p, q) && key_at(pg, p, q) == k
}

/// Every dependency of a task of `s` is in `s`.
pub open spec fn closed(pg: ProjectGraphView, s: Set<TaskKey>) -> bool {
    forall|k: TaskKey, d: TaskKey| #[trigger] s.contains(k) && #[trigger] task_dep(pg, k, d) ==> s.contains(d)
}

/// Every task of the requested target is in `s`.
pub open spec fn has_seeds(pg: ProjectGraphView, t: Seq<char>, s: Set<TaskKey>) -> bool {
    forall|k: TaskKey| #[trigger] is_seed(pg, t, k) ==> s.contains(k)
}

/// `k` belongs to the least set of tasks that holds the tasks of target `t` and every
/// dependency of its tasks.
pub open spec fn in_closure(pg: ProjectGraphView, t: Seq<char>, k: TaskKey) -> bool {
    forall|s: Set<TaskKey>| #[trigger] closed(pg, s) && has_seeds(pg, t, s) ==> s.contains(k)
}

/// Task `k` depends on a local target `t2` that its project does not have.
pub open spec fn missing_local(pg: ProjectGraphView, k: TaskKey, t2: Seq<char>) -> bool {
    exists|p: int, q: int, j: int|
        #![trigger key_at(pg, p, q), config_at(pg, p, q).depends_on[j]]
        valid_pq(pg, p, q) && key_at(pg, p, q) == k && 0 <= j < config_at(pg, p, q).depends_on.len()
            && config_at(pg, p, q).depends_on[j] == DependsOnView::Local(t2) && !has_key(
            pg.projects[p].targets,
            t2,
        )
}

/// Some task of the closure depends on a local target that its project lacks.
pub open spec fn closure_has_missing(pg: ProjectGraphView, t: Seq<char>) -> bool {
    exists|k: TaskKey, t2: Seq<char>| #[trigger] in_closure(pg, t, k) && #[trigger] missing_local(pg, k, t2)
}

/// No task of the closure lies on a dependency cycle.
pub open spec fn closure_acyclic(pg: ProjectGraphView, t: Seq<char>) -> bool {
    forall|k: TaskKey| #[trigger] in_closure(pg, t, k) ==> !on_cycle(task_rel(pg), k)
}


/// The tasks of a list of (project index, target index) pairs.
pub open spec fn keys_of(pg: ProjectGraphView, pq: Seq<(usize, usize)>) -> Seq<TaskKey> {
    pq.map_values(|e: (usize, usize)| key_at(pg, e.0 as int, e.1 as int))
}

/// Every pair names an existing target.
pub open spec fn all_valid(pg: ProjectGraphView, pq: Seq<(usize, usize)>) -> bool {
    forall|i: int| 0 <= i < pq.len() ==> #[trigger] valid_pq(pg, pq[i].0 as int, pq[i].1 as int)
}

/// The number of targets of the projects before `p`.
pub open spec fn prefix_targets(pg: ProjectGraphView, p: int) -> int
    decreases p,
{
    if p <= 0 {
        0
    } else {
        prefix_targets(pg, p - 1) + pg.projects[p - 1].targets.len()
    }
}

proof fn lemma_prefix_mono(pg: ProjectGraphView, a: int, b: int)
    requires
        0 <= a <= b,
    ensures
        prefix_targets(pg, a) <= prefix_targets(pg, b),
    decreases b - a,
{
    if a < b {
        lemma_prefix_mono(pg, a, b - 1);
    }
}

/// A numbering of the targets of all projects.
pub open spec fn flat_id(pg: ProjectGraphView, e: (usize, usize)) -> int {
    prefix_targets(pg, e.0 as int) + e.1
}

/// Distinct existing targets are at most as many as all targets.
proof fn lemma_pairs_bounded(pg: ProjectGraphView, pq: Seq<(usize, usize)>)
    requires
        all_valid(pg, pq),
        pq.no_duplicates(),
    ensures
        pq.len() <= prefix_targets(pg, pg.projects.len() as int),
{
    let n = pg.projects.len() as int;
    let total = prefix_targets(pg, n);
    let ids = pq.map_values(|e: (usize, usize)| flat_id(pg, e));
    assert forall|i: int| 0 <= i < pq.len() implies 0 <= #[trigger] ids[i] < total by {
        assert(valid_pq(pg, pq[i].0 as int, pq[i].1 as int));
        lemma_prefix_mono(pg, 0, pq[i].0 as int);
        lemma_prefix_mono(pg, pq[i].0 + 1, n);
    }
    assert forall|i: int, j: int| 0 <= i < ids.len() && 0 <= j < ids.len() && i != j implies ids[i] != ids[j] by {
        let a = pq[i];
        let b = pq[j];
        assert(valid_pq(pg, a.0 as int, a.1 as int));
        assert(valid_pq(pg, b.0 as int, b.1 as int));
        if a.0 < b.0 {
            lemma_prefix_mono(pg, a.0 + 1, b.0 as int);
        } else if b.0 < a.0 {
            lemma_prefix_mono(pg, b.0 + 1, a.0 as int);
        } else {
            assert(a.1 != b.1);
        }
    }
    assert(ids.no_duplicates());
    ids.unique_seq_to_set();
    lemma_prefix_mono(pg, 0, n);
    vstd::set_lib::lemma_int_range(0, total);
    assert(ids.to_set().subset_of(vstd::set_lib::set_int_range(0, total))) by {
        assert forall|x: int| #[trigger] ids.to_set().contains(x) implies vstd::set_lib::set_int_range(0, total).contains(x) by {
            let i = choose|i: int| 0 <= i < ids.len() && ids[i] == x;
        }
    }
    vstd::set_lib::lemma_len_subset(ids.to_set(), vstd::set_lib::set_int_range(0, total));
}

/// Distinct existing targets are distinct tasks.
proof fn lemma_key_injective(pg: ProjectGraphView, a: (usize, usize), b: (usize, usize))
    requires
        pg.wf(),
        valid_pq(pg, a.0 as int, a.1 as int),
        valid_pq(pg, b.0 as int, b.1 as int),
        key_at(pg, a.0 as int, a.1 as int) == key_at(pg, b.0 as int, b.1 as int),
    ensures
        a == b,
{
    assert(pg.projects[a.0 as int].name == pg.projects[b.0 as int].name);
    assert(a.0 == b.0);
    assert(crate::config::project::distinct_keys(pg.projects[a.0 as int].targets));
}

/// A dependency of a task of the closure is in the closure.
proof fn lemma_closure_step(pg: ProjectGraphView, t: Seq<char>, k: TaskKey, d: TaskKey)
    requires
        in_closure(pg, t, k),
        task_dep(pg, k, d),
    ensures
        in_closure(pg, t, d),
{
    assert forall|s: Set<TaskKey>| #[trigger] closed(pg, s) && has_seeds(pg, t, s) implies s.contains(d) by {
        assert(s.contains(k));
    }
}

/// A task of the requested target is in the closure.
proof fn lemma_seed_in_closure(pg: ProjectGraphView, t: Seq<char>, k: TaskKey)
    requires
        is_seed(pg, t, k),
    ensures
        in_closure(pg, t, k),
{
    assert forall|s: Set<TaskKey>| #[trigger] closed(pg, s) && has_seeds(pg, t, s) implies s.contains(k) by {}
}

/// Finds the pair `(p, q)` in `pq`.
fn find_pair(pq: &Vec<(usize, usize)>, p: usize, q: usize) -> (r: Option<usize>)
    ensures
        match r {
            Some(i) => i < pq.len() && pq@[i as int] == (p, q),
            None => !pq@.contains((p, q)),
        },
{
    let mut i: usize = 0;
    while i < pq.len()
        invariant
            i <= pq.len(),
            forall|j: int| 0 <= j < i ==> pq@[j] != (p, q),
        decreases pq.len() - i,
    {
        if pq[i].0 == p && pq[i].1 == q {
            return Some(i);
        }
        i = i + 1;
    }
    None
}

/// Adds `x` to `row` unless it is already there.
fn add_unique(row: &mut Vec<usize>, x: usize)
    requires
        old(row)@.no_duplicates(),
    ensures
        final(row)@.no_duplicates(),
        forall|y: usize| #[trigger] final(row)@.contains(y) <==> (old(row)@.contains(y) || y == x),
        forall|i: int| 0 <= i < old(row)@.len() ==> final(row)@[i] == old(row)@[i],
        old(row)@.len() <= final(row)@.len() <= old(row)@.len() + 1,
{
    let mut i: usize = 0;
    while i < row.len()
        invariant
            i <= row.len(),
            row@ == old(row)@,
            old(row)@.no_duplicates(),
            forall|j: int| 0 <= j < i ==> row@[j] != x,
        decreases row.len() - i,
    {
        if row[i] == x {
            return;
        }
        i = i + 1;
    }
    let ghost old_row = row@;
    row.push(x);
    proof {
        assert forall|y: usize| #[trigger] row@.contains(y) <==> (old_row.contains(y) || y == x) by {
            if old_row.contains(y) {
                let j = choose|j: int| 0 <= j < old_row.len() && old_row[j] == y;
                assert(row@[j] == y);
            }
            if y == x {
                assert(row@[old_row.len() as int] == x);
            }
        }
        assert forall|a: int, b: int| 0 <= a < row@.len() && 0 <= b < row@.len() && a != b implies row@[a] != row@[b] by {
            if a == old_row.len() {
                assert(old_row.contains(row@[b]));
            } else if b == old_row.len() {
                assert(old_row.contains(row@[a]));
            }
        }
    }
}


/// The task pairs are existing targets, distinct, and in the closure.
pub open spec fn pairs_ok(pg: ProjectGraphView, t: Seq<char>, pq: Seq<(usize, usize)>) -> bool {
    &&& all_valid(pg, pq)
    &&& pq.no_duplicates()
    &&& forall|i: int| 0 <= i < pq.len() ==> #[trigger] in_closure(pg, t, keys_of(pg, pq)[i])
}

/// Every task of the requested target is among the pairs.
pub open spec fn covers_seeds(pg: ProjectGraphView, t: Seq<char>, pq: Seq<(usize, usize)>) -> bool {
    forall|k: TaskKey| #[trigger] is_seed(pg, t, k) ==> keys_of(pg, pq).contains(k)
}

/// The first `n` tasks are resolved: `deps[i]` lists exactly their dependencies, and none
/// of them depends on a missing local target.
pub open spec fn processed_ok(
    pg: ProjectGraphView,
    pq: Seq<(usize, usize)>,
    deps: Seq<Seq<usize>>,
    n: int,
) -> bool {
    forall|i: int| 0 <= i < n ==> #[trigger] processed_at(pg, pq, deps, i)
}

/// Task `i` is resolved: `deps[i]` lists exactly its dependencies, without repetition,
/// and it depends on no missing local target.
pub open spec fn processed_at(pg: ProjectGraphView, pq: Seq<(usize, usize)>, deps: Seq<Seq<usize>>, i: int) -> bool {
    &&& deps[i].no_duplicates()
    &&& forall|m: int|
        0 <= m < deps[i].len() ==> #[trigger] deps[i][m] < pq.len() && task_dep(
            pg,
            keys_of(pg, pq)[i],
            keys_of(pg, pq)[deps[i][m] as int],
        )
    &&& forall|d: TaskKey| #[trigger]
        task_dep(pg, keys_of(pg, pq)[i], d) ==> exists|m: int|
            0 <= m < deps[i].len() && keys_of(pg, pq)[deps[i][m] as int] == d
    &&& forall|t2: Seq<char>| !#[trigger] missing_local(pg, keys_of(pg, pq)[i], t2)
}

proof fn lemma_keys_push(pg: ProjectGraphView, pq: Seq<(usize, usize)>, e: (usize, usize))
    ensures
        keys_of(pg, pq.push(e)) == keys_of(pg, pq).push(key_at(pg, e.0 as int, e.1 as int)),
{
    assert(keys_of(pg, pq.push(e)) =~= keys_of(pg, pq).push(key_at(pg, e.0 as int, e.1 as int)));
}

/// Appending a new task keeps what is known of the resolved ones.
proof fn lemma_processed_grow(
    pg: ProjectGraphView,
    pq: Seq<(usize, usize)>,
    e: (usize, usize),
    deps: Seq<Seq<usize>>,
    n: int,
)
    requires
        processed_ok(pg, pq, deps, n),
        n <= pq.len(),
    ensures
        processed_ok(pg, pq.push(e), deps, n),
{
    lemma_keys_push(pg, pq, e);
    let ko = keys_of(pg, pq);
    let kn = keys_of(pg, pq.push(e));
    assert forall|i: int| 0 <= i < n implies #[trigger] processed_at(pg, pq.push(e), deps, i) by {
        assert(processed_at(pg, pq, deps, i));
        assert(kn[i] == ko[i]);
        assert forall|m: int| 0 <= m < deps[i].len() implies #[trigger] deps[i][m] < pq.push(e).len()
            && task_dep(pg, kn[i], kn[deps[i][m] as int]) by {
            assert(deps[i][m] < pq.len() && task_dep(pg, ko[i], ko[deps[i][m] as int]));
        }
        assert forall|d: TaskKey| #[trigger] task_dep(pg, kn[i], d) implies exists|m: int|
            0 <= m < deps[i].len() && kn[deps[i][m] as int] == d by {
            let m = choose|m: int| 0 <= m < deps[i].len() && ko[deps[i][m] as int] == d;
            assert(deps[i][m] < pq.len());
            assert(kn[deps[i][m] as int] == d);
        }
        assert forall|t2: Seq<char>| !#[trigger] missing_local(pg, kn[i], t2) by {
            assert(!missing_local(pg, ko[i], t2));
        }
    }
}

/// The index of the task of target `q` of project `p`, appended when it is new.
fn add_task(
    pq: &mut Vec<(usize, usize)>,
    p: usize,
    q: usize,
    Ghost(pg): Ghost<ProjectGraphView>,
    Ghost(t): Ghost<Seq<char>>,
    Ghost(deps): Ghost<Seq<Seq<usize>>>,
    Ghost(n): Ghost<int>,
) -> (r: usize)
    requires
        pg.wf(),
        pairs_ok(pg, t, old(pq)@),
        covers_seeds(pg, t, old(pq)@),
        processed_ok(pg, old(pq)@, deps, n),
        0 <= n <= old(pq)@.len(),
        valid_pq(pg, p as int, q as int),
        in_closure(pg, t, key_at(pg, p as int, q as int)),
    ensures
        pairs_ok(pg, t, final(pq)@),
        covers_seeds(pg, t, final(pq)@),
        processed_ok(pg, final(pq)@, deps, n),
        final(pq)@ == old(pq)@ || final(pq)@ == old(pq)@.push((p, q)),
        r < final(pq)@.len(),
        final(pq)@[r as int] == (p, q),
{
    match find_pair(pq, p, q) {
        Some(i) => i,
        None => {
            let ghost old_pq = pq@;
            pq.push((p, q));
            proof {
                lemma_keys_push(pg, old_pq, (p, q));
                lemma_processed_grow(pg, old_pq, (p, q), deps, n);
                let kn = keys_of(pg, pq@);
                let ko = keys_of(pg, old_pq);
                assert forall|i: int| 0 <= i < pq@.len() implies #[trigger] valid_pq(pg, pq@[i].0 as int, pq@[i].1 as int) by {
                    if i < old_pq.len() {
                        assert(valid_pq(pg, old_pq[i].0 as int, old_pq[i].1 as int));
                    }
                }
                assert forall|a: int, b: int| 0 <= a < pq@.len() && 0 <= b < pq@.len() && a != b implies pq@[a] != pq@[b] by {
                    if a == old_pq.len() {
                        assert(old_pq.contains(pq@[b]));
                    } else if b == old_pq.len() {
                        assert(old_pq.contains(pq@[a]));
                    }
                }
                assert forall|i: int| 0 <= i < pq@.len() implies #[trigger] in_closure(pg, t, kn[i]) by {
                    if i < old_pq.len() {
                        assert(in_closure(pg, t, ko[i]));
                    }
                }
                assert forall|k: TaskKey| #[trigger] is_seed(pg, t, k) implies kn.contains(k) by {
                    let y = choose|y: int| 0 <= y < ko.len() && ko[y] == k;
                    assert(kn[y] == k);
                }
            }
            pq.len() - 1
        },
    }
}

/// A task graph as plain values.
pub struct TaskGraphView {
    pub tasks: Seq<TaskKey>,
    pub deps: Seq<Seq<usize>>,
    pub dependents: Seq<Seq<usize>>,
    pub states: Seq<TaskState>,
    pub pending: Seq<usize>,
}

impl TaskGraphView {
    /// The graph is consistent: distinct tasks, matching lengths, dependents exactly the
    /// reverse of dependencies, and no cycle.
    pub open spec fn wf(self) -> bool {
        let n = self.tasks.len();
        &&& n <= usize::MAX
        &&& self.tasks.no_duplicates()
        &&& self.deps.len() == n
        &&& self.dependents.len() == n
        &&& self.states.len() == n
        &&& self.pending.len() == n
        &&& well_formed(self.deps)
        &&& well_formed(self.dependents)
        &&& forall|i: int| 0 <= i < n ==> #[trigger] self.deps[i].no_duplicates()
        &&& forall|i: int| 0 <= i < n ==> #[trigger] self.dependents[i].no_duplicates()
        &&& forall|i: usize, x: usize|
            i < n && x < n ==> (#[trigger] self.deps[i as int].contains(x) <==> #[trigger] self.dependents[x as int].contains(i))
        &&& acyclic(rel_of(self.deps), n)
    }

    /// Every task starts with its dependencies pending: ready when it has none.
    pub open spec fn initial(self) -> bool {
        forall|i: int|
            0 <= i < self.tasks.len() ==> #[trigger] self.pending[i] == self.deps[i].len()
                && self.states[i] == initial_state(self.deps[i].len())
    }
}

/// The views of a sequence of task identifiers.
pub open spec fn task_ids_view(v: Seq<TaskId>) -> Seq<TaskKey> {
    v.map_values(|x: TaskId| x@)
}

/// A fine-grained task dependency graph built from the project graph.
///
/// Expands project-level dependencies into target-level task dependencies,
/// resolving local and upstream (`^`) dependency references.
#[derive(Debug)]
pub struct TaskGraph {
    /// All tasks in the graph, each once.
    tasks: Vec<TaskId>,
    /// Dependencies: for each task, the indices of the tasks it depends on.
    dependencies: Vec<Vec<usize>>,
    /// Reverse dependencies: for each task, the indices of the tasks that depend on it.
    dependents: Vec<Vec<usize>>,
    /// Current state of each task.
    states: Vec<TaskState>,
    /// Count of incomplete dependencies for each task.
    pending_deps: Vec<usize>,
}

impl View for TaskGraph {
    type V = TaskGraphView;

    closed spec fn view(&self) -> TaskGraphView {
        TaskGraphView {
            tasks: task_ids_view(self.tasks@),
            deps: adj_of(&self.dependencies),
            dependents: adj_of(&self.dependents),
            states: self.states@,
            pending: self.pending_deps@,
        }
    }
}

impl TaskGraph {
    #[verifier::type_invariant]
    spec fn inv(self) -> bool {
        self@.wf()
    }
}


/// The dependencies of target `q` of project `p` resolved so far: `row` lists only its
/// dependencies, and every task asked for by its first `j` entries; those entries name
/// no missing local target.
pub open spec fn row_ok(
    pg: ProjectGraphView,
    pq: Seq<(usize, usize)>,
    p: int,
    q: int,
    row: Seq<usize>,
    j: int,
) -> bool {
    let cd = config_at(pg, p, q).depends_on;
    &&& row.no_duplicates()
    &&& forall|m: int|
        0 <= m < row.len() ==> #[trigger] row[m] < pq.len() && task_dep(
            pg,
            key_at(pg, p, q),
            keys_of(pg, pq)[row[m] as int],
        )
    &&& forall|jj: int, d: TaskKey|
        0 <= jj < j && #[trigger] dep_target(pg, p, cd[jj], d) ==> exists|m: int|
            0 <= m < row.len() && keys_of(pg, pq)[row[m] as int] == d
    &&& forall|jj: int| 0 <= jj < j ==> match #[trigger] cd[jj] {
        DependsOnView::Local(t2) => has_key(pg.projects[p].targets, t2),
        DependsOnView::Upstream(_) => true,
    }
}

proof fn lemma_row_grow(
    pg: ProjectGraphView,
    pq: Seq<(usize, usize)>,
    e: (usize, usize),
    p: int,
    q: int,
    row: Seq<usize>,
    j: int,
)
    requires
        row_ok(pg, pq, p, q, row, j),
    ensures
        row_ok(pg, pq.push(e), p, q, row, j),
{
    lemma_keys_push(pg, pq, e);
    let ko = keys_of(pg, pq);
    let kn = keys_of(pg, pq.push(e));
    let cd = config_at(pg, p, q).depends_on;
    assert forall|m: int| 0 <= m < row.len() implies #[trigger] row[m] < pq.push(e).len() && task_dep(
        pg,
        key_at(pg, p, q),
        kn[row[m] as int],
    ) by {
        assert(row[m] < pq.len());
        assert(kn[row[m] as int] == ko[row[m] as int]);
    }
    assert forall|jj: int, d: TaskKey| 0 <= jj < j && #[trigger] dep_target(pg, p, cd[jj], d) implies exists|m: int|
        0 <= m < row.len() && kn[row[m] as int] == d by {
        let m = choose|m: int| 0 <= m < row.len() && ko[row[m] as int] == d;
        assert(row[m] < pq.len());
        assert(kn[row[m] as int] == d);
    }
}

/// Distinct existing targets give distinct tasks.
proof fn lemma_keys_distinct(pg: ProjectGraphView, pq: Seq<(usize, usize)>)
    requires
        pg.wf(),
        all_valid(pg, pq),
        pq.no_duplicates(),
    ensures
        keys_of(pg, pq).no_duplicates(),
{
    let k = keys_of(pg, pq);
    assert forall|a: int, b: int| 0 <= a < k.len() && 0 <= b < k.len() && a != b implies k[a] != k[b] by {
        assert(valid_pq(pg, pq[a].0 as int, pq[a].1 as int));
        assert(valid_pq(pg, pq[b].0 as int, pq[b].1 as int));
        if k[a] == k[b] {
            lemma_key_injective(pg, pq[a], pq[b]);
        }
    }
}


impl TaskGraph {
    /// Resolves the dependencies of every task reachable from the seeds, in order,
    /// collecting the tasks in `pq` and their dependency rows in the result.
    fn resolve(
        project_graph: &ProjectGraph,
        target: &TargetName,
        pq: &mut Vec<(usize, usize)>,
    ) -> (r: Result<Vec<Vec<usize>>, TaskGraphError>)
        requires
            project_graph@.wf(),
            pairs_ok(project_graph@, target@, old(pq)@),
            covers_seeds(project_graph@, target@, old(pq)@),
        ensures
            pairs_ok(project_graph@, target@, final(pq)@),
            covers_seeds(project_graph@, target@, final(pq)@),
            r matches Ok(deps) ==> deps.len() == final(pq)@.len() && processed_ok(
                project_graph@,
                final(pq)@,
                adj_of(&deps),
                final(pq)@.len() as int,
            ),
            r matches Err(e) ==> match e {
                TaskGraphError::UnknownTarget { target: t2, project, referencing_target } => in_closure(
                    project_graph@,
                    target@,
                    (project@, referencing_target@),
                ) && missing_local(project_graph@, (project@, referencing_target@), t2@),
                _ => false,
            },
    {
        let ghost pg = project_graph@;
        let ghost t = target@;
        let mut deps: Vec<Vec<usize>> = Vec::new();
        let mut next: usize = 0;
        while next < pq.len()
            invariant
                pg == project_graph@,
                pg.wf(),
                t == target@,
                pairs_ok(pg, t, pq@),
                covers_seeds(pg, t, pq@),
                next <= pq.len(),
                deps.len() == next,
                processed_ok(pg, pq@, adj_of(&deps), next as int),
            decreases prefix_targets(pg, pg.projects.len() as int) - next,
        {
            proof {
                lemma_pairs_bounded(pg, pq@);
            }
            let p = pq[next].0;
            let q = pq[next].1;
            proof {
                assert(valid_pq(pg, pq@[next as int].0 as int, pq@[next as int].1 as int));
                assert(in_closure(pg, t, keys_of(pg, pq@)[next as int]));
            }
            let project = project_graph.project_at(p);
            let ts = project.targets();
            let cdeps = ts[q].1.depends_on();
            proof {
                assert(depends_view(cdeps@) == config_at(pg, p as int, q as int).depends_on);
                assert(row_ok(pg, pq@, p as int, q as int, Seq::<usize>::empty(), 0));
            }
            let mut row: Vec<usize> = Vec::new();
            let mut j: usize = 0;
            while j < cdeps.len()
                invariant
                    pg == project_graph@,
                    pg.wf(),
                    t == target@,
                    pairs_ok(pg, t, pq@),
                    covers_seeds(pg, t, pq@),
                    next < pq.len(),
                    deps.len() == next,
                    processed_ok(pg, pq@, adj_of(&deps), next as int),
                    pq@[next as int] == (p, q),
                    valid_pq(pg, p as int, q as int),
                    project@ == pg.projects[p as int],
                    targets_view(ts@) == pg.projects[p as int].targets,
                    depends_view(cdeps@) == config_at(pg, p as int, q as int).depends_on,
                    in_closure(pg, t, key_at(pg, p as int, q as int)),
                    j <= cdeps.len(),
                    row_ok(pg, pq@, p as int, q as int, row@, j as int),
                decreases cdeps.len() - j,
            {
                let ghost cd = config_at(pg, p as int, q as int).depends_on;
                let ghost kq = key_at(pg, p as int, q as int);
                proof {
                    assert(cd[j as int] == cdeps@[j as int]@);
                }
                match &cdeps[j] {
                    DependsOn::Local(t2) => {
                        match project.target_index(t2) {
                            None => {
                                proof {
                                    assert(q < ts@.len());
                                    assert(keys_of(pg, pq@)[next as int] == kq);
                                    assert(cd[j as int] == DependsOnView::Local(t2@));
                                    assert(missing_local(pg, kq, t2@)) by {
                                        assert(config_at(pg, p as int, q as int).depends_on[j as int] == DependsOnView::Local(t2@));
                                    }
                                }
                                return Err(
                                    TaskGraphError::UnknownTarget {
                                        target: t2.to_string(),
                                        project: project.name().to_string(),
                                        referencing_target: ts[q].0.to_string(),
                                    },
                                );
                            },
                            Some(q2) => {
                                let ghost d = key_at(pg, p as int, q2 as int);
                                proof {
                                    assert(dep_target(pg, p as int, cd[j as int], d));
                                    assert(task_dep(pg, kq, d)) by {
                                        assert(config_at(pg, p as int, q as int).depends_on[j as int] == cd[j as int]);
                                    }
                                    lemma_closure_step(pg, t, kq, d);
                                }
                                let ghost old_pq = pq@;
                                let idx = add_task(pq, p, q2, Ghost(pg), Ghost(t), Ghost(adj_of(&deps)), Ghost(next as int));
                                proof {
                                    if pq@ != old_pq {
                                        lemma_row_grow(pg, old_pq, (p, q2), p as int, q as int, row@, j as int);
                                        lemma_keys_push(pg, old_pq, (p, q2));
                                    }
                                    assert(keys_of(pg, pq@)[idx as int] == d);
                                }
                                let ghost old_row = row@;
                                add_unique(&mut row, idx);
                                proof {
                                    let kn = keys_of(pg, pq@);
                                    assert forall|m: int| 0 <= m < row@.len() implies #[trigger] row@[m] < pq@.len() && task_dep(pg, kq, kn[row@[m] as int]) by {
                                        if m < old_row.len() {
                                            assert(row@[m] == old_row[m]);
                                        } else {
                                            assert(row@.contains(row@[m]));
                                            if row@[m] != idx {
                                                assert(old_row.contains(row@[m]));
                                            }
                                        }
                                    }
                                    assert forall|jj: int, dd: TaskKey| 0 <= jj < j + 1 && #[trigger] dep_target(pg, p as int, cd[jj], dd) implies exists|m: int|
                                        0 <= m < row@.len() && kn[row@[m] as int] == dd by {
                                        if jj < j {
                                            assert(row_ok(pg, pq@, p as int, q as int, old_row, j as int));
                                            assert(exists|m: int| 0 <= m < old_row.len() && kn[old_row[m] as int] == dd);
                                            let m = choose|m: int| 0 <= m < old_row.len() && kn[old_row[m] as int] == dd;
                                            assert(row@[m] == old_row[m]);
                                        } else {
                                            assert(dd == d);
                                            assert(row@.contains(idx));
                                            let m = choose|m: int| 0 <= m < row@.len() && row@[m] == idx;
                                            assert(kn[row@[m] as int] == dd);
                                        }
                                    }
                                    assert forall|jj: int| 0 <= jj < j + 1 implies match #[trigger] cd[jj] {
                                        DependsOnView::Local(t3) => has_key(pg.projects[p as int].targets, t3),
                                        DependsOnView::Upstream(_) => true,
                                    } by {
                                        if jj == j {
                                            assert(pg.projects[p as int].targets[q2 as int].0 == t2@);
                                        }
                                    }
                                }
                            },
                        }
                    },
                    DependsOn::Upstream(t2) => {
                        let vs = project_graph.deps_at(p);
                        let mut k: usize = 0;
                        while k < vs.len()
                            invariant
                                pg == project_graph@,
                                pg.wf(),
                                t == target@,
                                pairs_ok(pg, t, pq@),
                                covers_seeds(pg, t, pq@),
                                next < pq.len(),
                                deps.len() == next,
                                processed_ok(pg, pq@, adj_of(&deps), next as int),
                                pq@[next as int] == (p, q),
                                valid_pq(pg, p as int, q as int),
                                cd == config_at(pg, p as int, q as int).depends_on,
                                kq == key_at(pg, p as int, q as int),
                                cd[j as int] == DependsOnView::Upstream(t2@),
                                in_closure(pg, t, kq),
                                j < cdeps.len(),
                                depends_view(cdeps@) == config_at(pg, p as int, q as int).depends_on,
                                vs@ == pg.edges[p as int],
                                k <= vs.len(),
                                row_ok(pg, pq@, p as int, q as int, row@, j as int),
                                forall|kk: int| 0 <= kk < k && #[trigger] has_key(pg.projects[vs@[kk] as int].targets, t2@) ==> exists|m: int|
                                    0 <= m < row@.len() && keys_of(pg, pq@)[row@[m] as int] == (pg.projects[vs@[kk] as int].name, t2@),
                            decreases vs.len() - k,
                        {
                            let v = vs[k];
                            proof {
                                assert(pg.edges[p as int][k as int] < pg.edges.len());
                                assert(edge(pg.edges, p, v));
                            }
                            match project_graph.project_at(v).target_index(t2) {
                                None => {},
                                Some(q2) => {
                                    let ghost d = key_at(pg, v as int, q2 as int);
                                    proof {
                                        assert(has_key(pg.projects[v as int].targets, t2@)) by {
                                            assert(pg.projects[v as int].targets[q2 as int].0 == t2@);
                                        }
                                        assert(edge(pg.edges, (p as int) as usize, v));
                                        assert(d == (pg.projects[v as int].name, t2@));
                                        assert(dep_target(pg, p as int, cd[j as int], d));
                                        assert(task_dep(pg, kq, d)) by {
                                            assert(config_at(pg, p as int, q as int).depends_on[j as int] == cd[j as int]);
                                        }
                                        lemma_closure_step(pg, t, kq, d);
                                    }
                                    let ghost old_pq = pq@;
                                    let idx = add_task(pq, v, q2, Ghost(pg), Ghost(t), Ghost(adj_of(&deps)), Ghost(next as int));
                                    proof {
                                        if pq@ != old_pq {
                                            lemma_row_grow(pg, old_pq, (v, q2), p as int, q as int, row@, j as int);
                                            lemma_keys_push(pg, old_pq, (v, q2));
                                        }
                                        assert(keys_of(pg, pq@)[idx as int] == d);
                                        assert forall|kk: int| 0 <= kk < k && #[trigger] has_key(pg.projects[vs@[kk] as int].targets, t2@) implies exists|m: int|
                                            0 <= m < row@.len() && keys_of(pg, pq@)[row@[m] as int] == (pg.projects[vs@[kk] as int].name, t2@) by {
                                            let m = choose|m: int| 0 <= m < row@.len() && keys_of(pg, old_pq)[row@[m] as int] == (pg.projects[vs@[kk] as int].name, t2@);
                                            assert(row@[m] < old_pq.len());
                                            if pq@ != old_pq {
                                                assert(keys_of(pg, pq@)[row@[m] as int] == keys_of(pg, old_pq)[row@[m] as int]);
                                            }
                                        }
                                    }
                                    let ghost old_row = row@;
                                    add_unique(&mut row, idx);
                                    proof {
                                        let kn = keys_of(pg, pq@);
                                        assert forall|m: int| 0 <= m < row@.len() implies #[trigger] row@[m] < pq@.len() && task_dep(pg, kq, kn[row@[m] as int]) by {
                                            if m < old_row.len() {
                                                assert(row@[m] == old_row[m]);
                                            } else {
                                                assert(row@.contains(row@[m]));
                                                if row@[m] != idx {
                                                    assert(old_row.contains(row@[m]));
                                                }
                                            }
                                        }
                                        assert forall|jj: int, dd: TaskKey| 0 <= jj < j && #[trigger] dep_target(pg, p as int, cd[jj], dd) implies exists|m: int|
                                            0 <= m < row@.len() && kn[row@[m] as int] == dd by {
                                            assert(row_ok(pg, pq@, p as int, q as int, old_row, j as int));
                                            assert(exists|m: int| 0 <= m < old_row.len() && kn[old_row[m] as int] == dd);
                                            let m = choose|m: int| 0 <= m < old_row.len() && kn[old_row[m] as int] == dd;
                                            assert(row@[m] == old_row[m]);
                                        }
                                        assert forall|kk: int| 0 <= kk < k + 1 && #[trigger] has_key(pg.projects[vs@[kk] as int].targets, t2@) implies exists|m: int|
                                            0 <= m < row@.len() && kn[row@[m] as int] == (pg.projects[vs@[kk] as int].name, t2@) by {
                                            if kk < k {
                                                let m = choose|m: int| 0 <= m < old_row.len() && kn[old_row[m] as int] == (pg.projects[vs@[kk] as int].name, t2@);
                                                assert(row@[m] == old_row[m]);
                                            } else {
                                                assert(row@.contains(idx));
                                                let m = choose|m: int| 0 <= m < row@.len() && row@[m] == idx;
                                                assert(pg.projects[v as int].targets[q2 as int].0 == t2@);
                                            }
                                        }
                                    }
                                },
                            }
                            k = k + 1;
                        }
                        proof {
                            let kn = keys_of(pg, pq@);
                            assert forall|jj: int, dd: TaskKey| 0 <= jj < j + 1 && #[trigger] dep_target(pg, p as int, cd[jj], dd) implies exists|m: int|
                                0 <= m < row@.len() && kn[row@[m] as int] == dd by {
                                if jj == j {
                                    let v2 = choose|v2: usize| #![trigger edge(pg.edges, p, v2)] edge(pg.edges, p, v2) && has_key(pg.projects[v2 as int].targets, t2@) && dd == (pg.projects[v2 as int].name, t2@);
                                    let kk = choose|kk: int| 0 <= kk < vs@.len() && vs@[kk] == v2;
                                    assert(has_key(pg.projects[vs@[kk] as int].targets, t2@));
                                }
                            }
                        }
                    },
                }
                j = j + 1;
            }
            proof {
                let kn = keys_of(pg, pq@);
                let kq = key_at(pg, p as int, q as int);
                let cd = config_at(pg, p as int, q as int).depends_on;
                assert(kn[next as int] == kq);
                assert forall|dd: TaskKey| #[trigger] task_dep(pg, kq, dd) implies exists|m: int|
                    0 <= m < row@.len() && kn[row@[m] as int] == dd by {
                    let (p2, q2, j2) = choose|p2: int, q2: int, j2: int| #![trigger key_at(pg, p2, q2), config_at(pg, p2, q2).depends_on[j2]]
                        valid_pq(pg, p2, q2) && key_at(pg, p2, q2) == kq && 0 <= j2 < config_at(pg, p2, q2).depends_on.len()
                        && dep_target(pg, p2, config_at(pg, p2, q2).depends_on[j2], dd);
                    lemma_key_injective(pg, (p2 as usize, q2 as usize), (p, q));
                    assert(dep_target(pg, p as int, cd[j2], dd));
                }
                assert forall|t2: Seq<char>| !#[trigger] missing_local(pg, kq, t2) by {
                    if missing_local(pg, kq, t2) {
                        let (p2, q2, j2) = choose|p2: int, q2: int, j2: int| #![trigger key_at(pg, p2, q2), config_at(pg, p2, q2).depends_on[j2]]
                            valid_pq(pg, p2, q2) && key_at(pg, p2, q2) == kq && 0 <= j2 < config_at(pg, p2, q2).depends_on.len()
                            && config_at(pg, p2, q2).depends_on[j2] == DependsOnView::Local(t2) && !has_key(pg.projects[p2].targets, t2);
                        lemma_key_injective(pg, (p2 as usize, q2 as usize), (p, q));
                        assert(match cd[j2] {
                            DependsOnView::Local(t3) => has_key(pg.projects[p as int].targets, t3),
                            DependsOnView::Upstream(_) => true,
                        });
                    }
                }
            }
            let ghost old_deps = adj_of(&deps);
            deps.push(row);
            proof {
                let nd = adj_of(&deps);
                assert(nd =~= old_deps.push(row@));
                let kn = keys_of(pg, pq@);
                assert forall|i: int| 0 <= i < next + 1 implies #[trigger] processed_at(pg, pq@, nd, i) by {
                    if i < next {
                        assert(nd[i] == old_deps[i]);
                        assert(processed_at(pg, pq@, old_deps, i));
                    } else {
                        assert(nd[i] == row@);
                        let kq = key_at(pg, p as int, q as int);
                        assert(kn[i] == kq);
                        assert(row@.no_duplicates());
                        assert forall|m: int| 0 <= m < nd[i].len() implies #[trigger] nd[i][m] < pq@.len() && task_dep(pg, kn[i], kn[nd[i][m] as int]) by {
                            assert(row@[m] < pq@.len() && task_dep(pg, kq, kn[row@[m] as int]));
                        }
                        assert forall|d: TaskKey| #[trigger] task_dep(pg, kn[i], d) implies exists|m: int| 0 <= m < nd[i].len() && kn[nd[i][m] as int] == d by {
                            assert(task_dep(pg, kq, d));
                        }
                        assert forall|t2: Seq<char>| !#[trigger] missing_local(pg, kn[i], t2) by {
                            assert(!missing_local(pg, kq, t2));
                        }
                    }
                }
            }
            next = next + 1;
        }
        Ok(deps)
    }
}


/// With every dependency of every task recorded, the tasks are exactly the closure.
proof fn lemma_closure_exact(pg: ProjectGraphView, t: Seq<char>, pq: Seq<(usize, usize)>, deps: Seq<Seq<usize>>)
    requires
        pairs_ok(pg, t, pq),
        covers_seeds(pg, t, pq),
        processed_ok(pg, pq, deps, pq.len() as int),
    ensures
        forall|k: TaskKey| #[trigger] keys_of(pg, pq).contains(k) <==> in_closure(pg, t, k),
{
    let keys = keys_of(pg, pq);
    let s = Set::new(|k: TaskKey| keys.contains(k));
    assert(closed(pg, s)) by {
        assert forall|k: TaskKey, d: TaskKey| #[trigger] s.contains(k) && #[trigger] task_dep(pg, k, d) implies s.contains(d) by {
            let i = choose|i: int| 0 <= i < keys.len() && keys[i] == k;
            assert(processed_at(pg, pq, deps, i));
            assert(task_dep(pg, keys[i], d));
            let m = choose|m: int| 0 <= m < deps[i].len() && keys[deps[i][m] as int] == d;
            assert(deps[i][m] < pq.len());
            assert(keys.contains(d));
        }
    }
    assert(has_seeds(pg, t, s));
    assert forall|k: TaskKey| #[trigger] keys.contains(k) <==> in_closure(pg, t, k) by {
        if keys.contains(k) {
            let i = choose|i: int| 0 <= i < keys.len() && keys[i] == k;
            assert(in_closure(pg, t, keys[i]));
        }
        if in_closure(pg, t, k) {
            assert(s.contains(k));
        }
    }
}

/// With every dependency of every task recorded, `deps` lists exactly the dependencies.
proof fn lemma_deps_exact(pg: ProjectGraphView, pq: Seq<(usize, usize)>, deps: Seq<Seq<usize>>)
    requires
        pg.wf(),
        all_valid(pg, pq),
        pq.no_duplicates(),
        deps.len() == pq.len(),
        processed_ok(pg, pq, deps, pq.len() as int),
    ensures
        forall|i: usize, x: usize|
            i < pq.len() && x < pq.len() ==> (#[trigger] deps[i as int].contains(x) <==> task_dep(
                pg,
                keys_of(pg, pq)[i as int],
                keys_of(pg, pq)[x as int],
            )),
        well_formed(deps),
{
    let keys = keys_of(pg, pq);
    lemma_keys_distinct(pg, pq);
    assert forall|i: usize, x: usize| i < pq.len() && x < pq.len() implies (#[trigger] deps[i as int].contains(x) <==> task_dep(
        pg,
        keys[i as int],
        keys[x as int],
    )) by {
        assert(processed_at(pg, pq, deps, i as int));
        if deps[i as int].contains(x) {
            let m = choose|m: int| 0 <= m < deps[i as int].len() && deps[i as int][m] == x;
            assert(task_dep(pg, keys[i as int], keys[deps[i as int][m] as int]));
        }
        if task_dep(pg, keys[i as int], keys[x as int]) {
            let m = choose|m: int| 0 <= m < deps[i as int].len() && keys[deps[i as int][m] as int] == keys[x as int];
            assert(deps[i as int][m] < pq.len());
            assert(deps[i as int][m] == x);
        }
    }
    assert forall|u: int, k: int| 0 <= u < deps.len() && 0 <= k < deps[u].len() implies #[trigger] deps[u][k] < deps.len() by {
        assert(processed_at(pg, pq, deps, u));
        assert(deps[u][k] < pq.len());
    }
}

/// A walk of the index graph is a walk of tasks.
proof fn lemma_index_walk_keys(pg: ProjectGraphView, keys: Seq<TaskKey>, adj: Seq<Seq<usize>>, w: Seq<usize>)
    requires
        adj.len() == keys.len(),
        well_formed(adj),
        forall|i: usize, x: usize| i < adj.len() && x < adj.len() ==> (#[trigger] adj[i as int].contains(x) ==> task_dep(pg, keys[i as int], keys[x as int])),
        is_walk(rel_of(adj), w),
    ensures
        is_walk(task_rel(pg), w.map_values(|i: usize| keys[i as int])),
{
    let wk = w.map_values(|i: usize| keys[i as int]);
    assert forall|i: int| 0 <= i < wk.len() - 1 implies #[trigger] walk_step(task_rel(pg), wk, i) by {
        assert(walk_step(rel_of(adj), w, i));
        let a = w[i];
        let b = w[i + 1];
        assert(adj[a as int].contains(b));
        let m = choose|m: int| 0 <= m < adj[a as int].len() && adj[a as int][m] == b;
        assert(adj[a as int][m] < adj.len());
    }
}

/// A walk of tasks from a recorded task is a walk of the index graph.
proof fn lemma_key_walk_lift(
    pg: ProjectGraphView,
    keys: Seq<TaskKey>,
    adj: Seq<Seq<usize>>,
    wk: Seq<TaskKey>,
) -> (wi: Seq<usize>)
    requires
        adj.len() == keys.len(),
        keys.len() <= usize::MAX,
        well_formed(adj),
        forall|i: int, d: TaskKey| 0 <= i < keys.len() && #[trigger] task_dep(pg, keys[i], d) ==> exists|m: int|
            0 <= m < adj[i].len() && keys[adj[i][m] as int] == d,
        is_walk(task_rel(pg), wk),
        keys.contains(wk[0]),
    ensures
        is_walk(rel_of(adj), wi),
        wi.len() == wk.len(),
        forall|i: int| 0 <= i < wi.len() ==> #[trigger] wi[i] < keys.len() && keys[wi[i] as int] == wk[i],
    decreases wk.len(),
{
    if wk.len() == 1 {
        let i0 = choose|i: int| 0 <= i < keys.len() && keys[i] == wk[0];
        let wi = seq![i0 as usize];
        assert(wi[0] as int == i0);
        assert(is_walk(rel_of(adj), wi));
        wi
    } else {
        let prev = wk.drop_last();
        assert forall|i: int| 0 <= i < prev.len() - 1 implies #[trigger] walk_step(task_rel(pg), prev, i) by {
            assert(walk_step(task_rel(pg), wk, i));
        }
        let wp = lemma_key_walk_lift(pg, keys, adj, prev);
        let l = wk.len() - 2;
        assert(walk_step(task_rel(pg), wk, l));
        let a = wp[l];
        assert(keys[a as int] == wk[l]);
        assert(task_dep(pg, keys[a as int], wk[l + 1]));
        let m = choose|m: int| 0 <= m < adj[a as int].len() && keys[adj[a as int][m] as int] == wk[l + 1];
        let b = adj[a as int][m];
        assert(b < adj.len());
        let wi = wp.push(b);
        assert forall|i: int| 0 <= i < wi.len() implies #[trigger] wi[i] < keys.len() && keys[wi[i] as int] == wk[i] by {
            if i < l + 1 {
                assert(wi[i] == wp[i]);
            }
        }
        assert forall|i: int| 0 <= i < wi.len() - 1 implies #[trigger] walk_step(rel_of(adj), wi, i) by {
            if i < l {
                assert(walk_step(rel_of(adj), wp, i));
            } else {
                assert(adj[a as int].contains(b));
            }
        }
        wi
    }
}



impl TaskGraph {
    /// Builds the task graph of `target` over the project graph.
    ///
    /// The tasks are the least set that holds the task of every project that has
    /// `target` and every dependency of its tasks: a local `"t"` names target `t` of
    /// the same project, an upstream `"^t"` names target `t` of each project that the
    /// project depends on and that has it.
    pub fn build(project_graph: &ProjectGraph, target: &TargetName) -> (r: Result<TaskGraph, TaskGraphError>)
        ensures
            ({
                let pg = project_graph@;
                let t = target@;
                &&& r is Ok <==> !closure_has_missing(pg, t) && closure_acyclic(pg, t)
                &&& r matches Ok(g) ==> {
                    &&& g@.wf()
                    &&& forall|k: TaskKey| #[trigger] g@.tasks.contains(k) <==> in_closure(pg, t, k)
                    &&& forall|i: usize, x: usize|
                        i < g@.tasks.len() && x < g@.tasks.len() ==> (#[trigger] g@.deps[i as int].contains(x)
                            <==> task_dep(pg, g@.tasks[i as int], g@.tasks[x as int]))
                    &&& g@.initial()
                    &&& g@.consistent()
                }
                &&& r matches Err(e) ==> match e {
                    TaskGraphError::UnknownTarget { target: t2, project, referencing_target } => in_closure(
                        pg,
                        t,
                        (project@, referencing_target@),
                    ) && missing_local(pg, (project@, referencing_target@), t2@),
                    TaskGraphError::CycleDetected { project, target: tt } => !closure_has_missing(pg, t)
                        && in_closure(pg, t, (project@, tt@)) && on_cycle(task_rel(pg), (project@, tt@)),
                    TaskGraphError::TaskNotFound { .. } => false,
                }
            }),
    {
        let ghost pg = project_graph@;
        let ghost t = target@;
        let np = project_graph.len();
        let mut pq: Vec<(usize, usize)> = Vec::new();
        let mut p: usize = 0;
        while p < np
            invariant
                pg == project_graph@,
                pg.wf(),
                t == target@,
                np == pg.projects.len(),
                p <= np,
                pairs_ok(pg, t, pq@),
                forall|i: int| 0 <= i < pq@.len() ==> #[trigger] pq@[i].0 < p,
                forall|pp: int, qq: int|
                    0 <= pp < p && valid_pq(pg, pp, qq) && #[trigger] key_at(pg, pp, qq).1 == t ==> keys_of(pg, pq@).contains(
                        key_at(pg, pp, qq),
                    ),
            decreases np - p,
        {
            let project = project_graph.project_at(p);
            match project.target_index(target) {
                Some(q) => {
                    let ghost old_pq = pq@;
                    proof {
                        assert(is_seed(pg, t, key_at(pg, p as int, q as int)));
                        lemma_seed_in_closure(pg, t, key_at(pg, p as int, q as int));
                    }
                    pq.push((p, q));
                    proof {
                        lemma_keys_push(pg, old_pq, (p, q));
                        let kn = keys_of(pg, pq@);
                        let ko = keys_of(pg, old_pq);
                        assert forall|i: int| 0 <= i < pq@.len() implies #[trigger] valid_pq(pg, pq@[i].0 as int, pq@[i].1 as int) by {
                            if i < old_pq.len() {
                                assert(valid_pq(pg, old_pq[i].0 as int, old_pq[i].1 as int));
                            }
                        }
                        assert forall|a: int, b: int| 0 <= a < pq@.len() && 0 <= b < pq@.len() && a != b implies pq@[a] != pq@[b] by {
                            if a == old_pq.len() {
                                assert(pq@[b].0 < p);
                            } else if b == old_pq.len() {
                                assert(pq@[a].0 < p);
                            }
                        }
                        assert forall|i: int| 0 <= i < pq@.len() implies #[trigger] in_closure(pg, t, kn[i]) by {
                            if i < old_pq.len() {
                                assert(in_closure(pg, t, ko[i]));
                            }
                        }
                        assert forall|i: int| 0 <= i < pq@.len() implies #[trigger] pq@[i].0 < p + 1 by {
                            if i < old_pq.len() {
                                assert(old_pq[i].0 < p);
                            }
                        }
                        assert forall|pp: int, qq: int|
                            0 <= pp < p + 1 && valid_pq(pg, pp, qq) && #[trigger] key_at(pg, pp, qq).1 == t implies kn.contains(
                                key_at(pg, pp, qq),
                            ) by {
                            if pp < p {
                                let y = choose|y: int| 0 <= y < ko.len() && ko[y] == key_at(pg, pp, qq);
                                assert(kn[y] == ko[y]);
                            } else {
                                assert(pg.projects[p as int].targets[qq].0 == pg.projects[p as int].targets[q as int].0);
                                assert(qq == q);
                                assert(kn[old_pq.len() as int] == key_at(pg, pp, qq));
                            }
                        }
                    }
                },
                None => {
                    proof {
                        assert forall|pp: int, qq: int|
                            0 <= pp < p + 1 && valid_pq(pg, pp, qq) && #[trigger] key_at(pg, pp, qq).1 == t implies keys_of(pg, pq@).contains(
                                key_at(pg, pp, qq),
                            ) by {
                            if pp == p {
                                assert(pg.projects[p as int].targets[qq].0 == t);
                                assert(has_key(pg.projects[p as int].targets, t));
                            }
                        }
                    }
                },
            }
            p = p + 1;
        }
        proof {
            assert forall|k: TaskKey| #[trigger] is_seed(pg, t, k) implies keys_of(pg, pq@).contains(k) by {
                let (pp, qq) = choose|pp: int, qq: int| #![trigger key_at(pg, pp, qq)] valid_pq(pg, pp, qq) && key_at(pg, pp, qq) == k;
                assert(key_at(pg, pp, qq).1 == t);
            }
        }
        let deps = match Self::resolve(project_graph, target, &mut pq) {
            Ok(d) => d,
            Err(e) => {
                proof {
                    if e is UnknownTarget {
                        let k = (e->UnknownTarget_project@, e->UnknownTarget_referencing_target@);
                        assert(in_closure(pg, t, k));
                        assert(missing_local(pg, k, e->UnknownTarget_target@));
                        assert(closure_has_missing(pg, t));
                    }
                }
                return Err(e);
            },
        };
        let n = pq.len();
        let ghost keys = keys_of(pg, pq@);
        let ghost g = adj_of(&deps);
        proof {
            lemma_closure_exact(pg, t, pq@, g);
            lemma_deps_exact(pg, pq@, g);
            lemma_keys_distinct(pg, pq@);
            assert(!closure_has_missing(pg, t)) by {
                assert forall|k: TaskKey, t2: Seq<char>| #[trigger] in_closure(pg, t, k) implies !#[trigger] missing_local(pg, k, t2) by {
                    assert(keys.contains(k));
                    let i = choose|i: int| 0 <= i < keys.len() && keys[i] == k;
                    assert(processed_at(pg, pq@, g, i));
                }
            }
        }
        match topo_sort(&deps) {
            Err(u) => {
                let up = pq[u].0;
                let uq = pq[u].1;
                proof {
                    assert(valid_pq(pg, pq@[u as int].0 as int, pq@[u as int].1 as int));
                }
                let project = project_graph.project_at(up);
                let pname = project.name().to_string();
                let uts = project.targets();
                proof {
                    assert(uts@.len() == targets_view(uts@).len());
                }
                let tname = uts[uq].0.to_string();
                proof {
                    let w = choose|w: Seq<usize>| #![trigger is_walk(rel_of(g), w)] is_walk(rel_of(g), w) && w.len() >= 2 && w[0] == u && w.last() == u;
                    lemma_index_walk_keys(pg, keys, g, w);
                    let wk = w.map_values(|i: usize| keys[i as int]);
                    assert(wk[0] == keys[u as int]);
                    assert(wk.last() == keys[u as int]);
                    assert(keys[u as int] == (pname@, tname@));
                    assert(on_cycle(task_rel(pg), (pname@, tname@)));
                    assert(keys.contains(keys[u as int]));
                }
                Err(TaskGraphError::CycleDetected { project: pname, target: tname })
            },
            Ok(_) => {
                proof {
                    assert forall|k: TaskKey| #[trigger] in_closure(pg, t, k) implies !on_cycle(task_rel(pg), k) by {
                        if on_cycle(task_rel(pg), k) {
                            let wk = choose|w: Seq<TaskKey>| #![trigger is_walk(task_rel(pg), w)] is_walk(task_rel(pg), w) && w.len() >= 2 && w[0] == k && w.last() == k;
                            assert(keys.contains(k));
                            assert forall|i: int, d: TaskKey| 0 <= i < keys.len() && #[trigger] task_dep(pg, keys[i], d) implies exists|m: int|
                                0 <= m < g[i].len() && keys[g[i][m] as int] == d by {
                                assert(processed_at(pg, pq@, g, i));
                            }
                            let wi = lemma_key_walk_lift(pg, keys, g, wk);
                            let last = wi.len() - 1;
                            assert(keys[wi[0] as int] == keys[wi[last] as int]);
                            assert(wi[0] == wi[last]);
                            assert(on_cycle(rel_of(g), wi[0]));
                        }
                    }
                }
                let dependents = reverse_edges(&deps);
                let mut states: Vec<TaskState> = Vec::new();
                let mut pending: Vec<usize> = Vec::new();
                let mut i: usize = 0;
                while i < n
                    invariant
                        n == deps.len(),
                        g == adj_of(&deps),
                        i <= n,
                        states.len() == i,
                        pending.len() == i,
                        forall|j: int|
                            0 <= j < i ==> #[trigger] pending@[j] == g[j].len() && states@[j] == initial_state(g[j].len()),
                    decreases n - i,
                {
                    let c = deps[i].len();
                    proof {
                        assert(g[i as int] == deps@[i as int]@);
                    }
                    let ghost old_p = pending@;
                    let ghost old_s = states@;
                    pending.push(c);
                    if c == 0 {
                        states.push(TaskState::Ready);
                    } else {
                        states.push(TaskState::Pending);
                    }
                    proof {
                        assert forall|j2: int|
                            0 <= j2 < i + 1 implies #[trigger] pending@[j2] == g[j2].len() && states@[j2] == initial_state(g[j2].len()) by {
                            if j2 < i {
                                assert(pending@[j2] == old_p[j2]);
                                assert(states@[j2] == old_s[j2]);
                            }
                        }
                    }
                    i = i + 1;
                }
                let mut tasks: Vec<TaskId> = Vec::new();
                let mut j: usize = 0;
                while j < n
                    invariant
                        pg == project_graph@,
                        pg.wf(),
                        n == pq.len(),
                        all_valid(pg, pq@),
                        keys == keys_of(pg, pq@),
                        j <= n,
                        task_ids_view(tasks@) =~= keys.take(j as int),
                    decreases n - j,
                {
                    let tp = pq[j].0;
                    let tq = pq[j].1;
                    proof {
                        assert(valid_pq(pg, pq@[j as int].0 as int, pq@[j as int].1 as int));
                    }
                    let project = project_graph.project_at(tp);
                    let ts = project.targets();
                    proof {
                        assert(ts@.len() == targets_view(ts@).len());
                    }
                    let id = TaskId::new(project.name().clone(), ts[tq].0.clone());
                    let ghost old_tasks = tasks@;
                    tasks.push(id);
                    proof {
                        assert(task_ids_view(tasks@) =~= task_ids_view(old_tasks).push(id@));
                        assert(keys.take(j + 1) =~= keys.take(j as int).push(keys[j as int]));
                    }
                    j = j + 1;
                }
                proof {
                    assert(keys.take(n as int) =~= keys);
                    assert forall|i2: int| 0 <= i2 < n implies #[trigger] g[i2].no_duplicates() by {
                        assert(processed_at(pg, pq@, g, i2));
                    }
                    assert forall|j2: int| 0 <= j2 < n implies #[trigger] pending@[j2] == incomplete_count(g[j2], states@) by {
                        assert forall|x: int| 0 <= x < g[j2].len() implies states@[#[trigger] g[j2][x] as int] != TaskState::Completed by {
                            assert(g[j2][x] < n);
                            assert(pending@[g[j2][x] as int] == g[g[j2][x] as int].len());
                        }
                        lemma_count_all_incomplete(g[j2], states@);
                    }
                }
                let graph = TaskGraph {
                    tasks,
                    dependencies: deps,
                    dependents,
                    states,
                    pending_deps: pending,
                };
                Ok(graph)
            },
        }
    }
}


/// How many of the tasks listed in `s` are not completed.
pub open spec fn incomplete_count(s: Seq<usize>, states: Seq<TaskState>) -> nat
    decreases s.len(),
{
    if s.len() == 0 {
        0
    } else {
        incomplete_count(s.drop_last(), states) + if states[s.last() as int] == TaskState::Completed {
            0nat
        } else {
            1nat
        }
    }
}

/// Saturating decrement.
pub open spec fn dec(x: usize) -> usize {
    if x == 0 {
        0
    } else {
        (x - 1) as usize
    }
}

impl TaskGraphView {
    /// The states agree with the counts: each task's pending count is the number of its
    /// dependencies not yet completed; a ready task has none, a pending task has some.
    pub open spec fn consistent(self) -> bool {
        forall|j: int|
            0 <= j < self.tasks.len() ==> {
                &&& #[trigger] self.pending[j] == incomplete_count(self.deps[j], self.states)
                &&& self.states[j] == TaskState::Ready ==> self.pending[j] == 0
                &&& self.states[j] == TaskState::Pending ==> self.pending[j] > 0
            }
    }

    /// The tasks in state `Ready` among the first `n`, in order.
    pub open spec fn ready_prefix(self, n: int) -> Seq<TaskKey>
        decreases n,
    {
        if n <= 0 {
            Seq::empty()
        } else if self.states[n - 1] == TaskState::Ready {
            self.ready_prefix(n - 1).push(self.tasks[n - 1])
        } else {
            self.ready_prefix(n - 1)
        }
    }

    /// Task `j` becomes ready when task `k` completes: it depends on `k`, its count of
    /// pending dependencies drops to zero, and it was waiting.
    pub open spec fn unblocked_by(self, k: int, j: usize) -> bool {
        &&& self.dependents[k].contains(j)
        &&& dec(self.pending[j as int]) == 0
        &&& self.states[j as int] == TaskState::Pending
    }

    /// The tasks that completing task `k` makes ready, among the first `m` dependents of `k`.
    pub open spec fn unblocked_prefix(self, k: int, m: int) -> Seq<TaskKey>
        decreases m,
    {
        if m <= 0 {
            Seq::empty()
        } else {
            let j = self.dependents[k][m - 1];
            if dec(self.pending[j as int]) == 0 && self.states[j as int] == TaskState::Pending {
                self.unblocked_prefix(k, m - 1).push(self.tasks[j as int])
            } else {
                self.unblocked_prefix(k, m - 1)
            }
        }
    }

    /// The graph after task `k` completes: `k` is completed, the pending count of each task
    /// that depends on it drops by one, and those whose count reaches zero while waiting
    /// become ready.
    pub open spec fn completed(self, k: int) -> TaskGraphView {
        TaskGraphView {
            tasks: self.tasks,
            deps: self.deps,
            dependents: self.dependents,
            states: Seq::new(
                self.states.len(),
                |j: int|
                    if j == k {
                        TaskState::Completed
                    } else if self.unblocked_by(k, j as usize) {
                        TaskState::Ready
                    } else {
                        self.states[j]
                    },
            ),
            pending: Seq::new(
                self.pending.len(),
                |j: int|
                    if self.dependents[k].contains(j as usize) {
                        dec(self.pending[j])
                    } else {
                        self.pending[j]
                    },
            ),
        }
    }

    /// The graph after task `k` starts running.
    pub open spec fn running(self, k: int) -> TaskGraphView {
        TaskGraphView { states: self.states.update(k, TaskState::Running), ..self }
    }

    /// The graph after the first `m` ready tasks, in index order, start running.
    pub open spec fn start_first(self, m: nat) -> TaskGraphView {
        TaskGraphView {
            states: Seq::new(
                self.states.len(),
                |i: int|
                    if self.states[i] == TaskState::Ready && self.ready_prefix(i).len() < m {
                        TaskState::Running
                    } else {
                        self.states[i]
                    },
            ),
            ..self
        }
    }

    /// The index of task `key` (meaningful when the graph has it).
    pub open spec fn index_of(self, key: TaskKey) -> int {
        choose|i: int| 0 <= i < self.tasks.len() && self.tasks[i] == key
    }
}

proof fn lemma_count_all_incomplete(s: Seq<usize>, states: Seq<TaskState>)
    requires
        forall|i: int| 0 <= i < s.len() ==> states[#[trigger] s[i] as int] != TaskState::Completed,
    ensures
        incomplete_count(s, states) == s.len(),
    decreases s.len(),
{
    if s.len() > 0 {
        lemma_count_all_incomplete(s.drop_last(), states);
    }
}

proof fn lemma_count_zero(s: Seq<usize>, states: Seq<TaskState>)
    ensures
        incomplete_count(s, states) == 0 <==> forall|i: int| 0 <= i < s.len() ==> states[#[trigger] s[i] as int] == TaskState::Completed,
    decreases s.len(),
{
    if s.len() > 0 {
        lemma_count_zero(s.drop_last(), states);
        if incomplete_count(s, states) == 0 {
            assert forall|i: int| 0 <= i < s.len() implies states[#[trigger] s[i] as int] == TaskState::Completed by {
                if i < s.len() - 1 {
                    assert(s.drop_last()[i] == s[i]);
                }
            }
        } else {
            if states[s.last() as int] == TaskState::Completed {
                let i = choose|i: int| 0 <= i < s.drop_last().len() && states[s.drop_last()[i] as int] != TaskState::Completed;
                assert(s[i] == s.drop_last()[i]);
            }
        }
    }
}

/// Counts agree when the tasks listed in `s` agree on being completed.
proof fn lemma_count_same(s: Seq<usize>, a: Seq<TaskState>, b: Seq<TaskState>)
    requires
        forall|i: int| 0 <= i < s.len() ==> (a[#[trigger] s[i] as int] == TaskState::Completed) == (b[s[i] as int] == TaskState::Completed),
    ensures
        incomplete_count(s, a) == incomplete_count(s, b),
    decreases s.len(),
{
    if s.len() > 0 {
        assert forall|i: int| 0 <= i < s.drop_last().len() implies (a[#[trigger] s.drop_last()[i] as int] == TaskState::Completed) == (b[s.drop_last()[i] as int] == TaskState::Completed) by {
            assert(s.drop_last()[i] == s[i]);
        }
        lemma_count_same(s.drop_last(), a, b);
        assert(s.last() == s[s.len() - 1]);
    }
}

/// Completing one listed task lowers the count by one.
proof fn lemma_count_flip(s: Seq<usize>, a: Seq<TaskState>, b: Seq<TaskState>, k: usize)
    requires
        s.no_duplicates(),
        s.contains(k),
        a[k as int] != TaskState::Completed,
        b[k as int] == TaskState::Completed,
        forall|i: int| 0 <= i < s.len() && s[i] != k ==> (a[#[trigger] s[i] as int] == TaskState::Completed) == (b[s[i] as int] == TaskState::Completed),
    ensures
        incomplete_count(s, b) + 1 == incomplete_count(s, a),
    decreases s.len(),
{
    let t = s.drop_last();
    if s.last() == k {
        assert forall|i: int| 0 <= i < t.len() implies (a[#[trigger] t[i] as int] == TaskState::Completed) == (b[t[i] as int] == TaskState::Completed) by {
            assert(t[i] == s[i]);
            assert(s[i] != s[s.len() - 1]);
        }
        lemma_count_same(t, a, b);
    } else {
        let x = choose|x: int| 0 <= x < s.len() && s[x] == k;
        assert(x < s.len() - 1);
        assert(t[x] == k);
        assert forall|a1: int, b1: int| 0 <= a1 < t.len() && 0 <= b1 < t.len() && a1 != b1 implies t[a1] != t[b1] by {
            assert(t[a1] == s[a1] && t[b1] == s[b1]);
        }
        assert forall|i: int| 0 <= i < t.len() && t[i] != k implies (a[#[trigger] t[i] as int] == TaskState::Completed) == (b[t[i] as int] == TaskState::Completed) by {
            assert(t[i] == s[i]);
        }
        lemma_count_flip(t, a, b, k);
        assert(s.last() == s[s.len() - 1]);
    }
}

/// Every task that task `k` depends on is completed.
pub open spec fn deps_completed(g: TaskGraphView, k: int) -> bool {
    forall|m: int| 0 <= m < g.deps[k].len() ==> g.states[#[trigger] g.deps[k][m] as int] == TaskState::Completed
}

/// A ready task of a consistent graph has all its dependencies completed.
pub proof fn lemma_ready_means_deps_completed(g: TaskGraphView, j: int)
    requires
        g.consistent(),
        0 <= j < g.tasks.len(),
        g.states[j] == TaskState::Ready,
    ensures
        forall|m: int| 0 <= m < g.deps[j].len() ==> g.states[#[trigger] g.deps[j][m] as int] == TaskState::Completed,
{
    assert(g.pending[j] == incomplete_count(g.deps[j], g.states));
    lemma_count_zero(g.deps[j], g.states);
}


/// A task that depends on itself lies on a cycle.
proof fn lemma_self_edge_cycle(adj: Seq<Seq<usize>>, k: usize)
    requires
        k < adj.len(),
        adj[k as int].contains(k),
    ensures
        on_cycle(rel_of(adj), k),
{
    let w = seq![k, k];
    assert(walk_step(rel_of(adj), w, 0));
    assert(is_walk(rel_of(adj), w));
}

/// Completing a task that was not completed keeps the counts consistent.
pub proof fn lemma_complete_keeps_consistent(g: TaskGraphView, k: int)
    requires
        g.wf(),
        g.consistent(),
        0 <= k < g.tasks.len(),
        g.states[k] != TaskState::Completed,
    ensures
        g.completed(k).consistent(),
{
    let h = g.completed(k);
    let n = g.tasks.len();
    assert forall|x: int| 0 <= x < n implies (#[trigger] h.states[x] == TaskState::Completed) == (x == k || g.states[x] == TaskState::Completed) by {}
    assert forall|j: int| 0 <= j < n implies {
        &&& #[trigger] h.pending[j] == incomplete_count(h.deps[j], h.states)
        &&& h.states[j] == TaskState::Ready ==> h.pending[j] == 0
        &&& h.states[j] == TaskState::Pending ==> h.pending[j] > 0
    } by {
        assert(g.pending[j] == incomplete_count(g.deps[j], g.states));
        assert forall|m: int| 0 <= m < g.deps[j].len() implies #[trigger] g.deps[j][m] < n by {}
        if g.dependents[k].contains(j as usize) {
            assert(g.deps[j].contains(k as usize));
            if j == k {
                lemma_self_edge_cycle(g.deps, k as usize);
            }
            assert(j != k);
            assert forall|i: int| 0 <= i < g.deps[j].len() && g.deps[j][i] != k as usize implies (g.states[#[trigger] g.deps[j][i] as int] == TaskState::Completed) == (h.states[g.deps[j][i] as int] == TaskState::Completed) by {
                assert(g.deps[j][i] < n);
            }
            lemma_count_flip(g.deps[j], g.states, h.states, k as usize);
            lemma_count_zero(g.deps[j], g.states);
            let x = choose|x: int| 0 <= x < g.deps[j].len() && g.deps[j][x] == k as usize;
            assert(g.states[g.deps[j][x] as int] != TaskState::Completed);
        } else {
            if g.deps[j].contains(k as usize) {
                assert(g.dependents[k].contains(j as usize));
            }
            assert forall|i: int| 0 <= i < g.deps[j].len() implies (g.states[#[trigger] g.deps[j][i] as int] == TaskState::Completed) == (h.states[g.deps[j][i] as int] == TaskState::Completed) by {
                assert(g.deps[j][i] < n);
                assert(g.deps[j][i] != k);
            }
            lemma_count_same(g.deps[j], g.states, h.states);
        }
    }
}

/// A graph as built, with every task waiting on all its dependencies, has consistent counts.
pub proof fn lemma_initial_consistent(g: TaskGraphView)
    requires
        g.wf(),
        g.initial(),
    ensures
        g.consistent(),
        forall|i: int| 0 <= i < g.tasks.len() ==> #[trigger] g.states[i] != TaskState::Running && g.states[i] != TaskState::Completed,
{
    let n = g.tasks.len();
    assert forall|i: int| 0 <= i < n implies #[trigger] g.states[i] != TaskState::Running && g.states[i] != TaskState::Completed by {
        assert(g.pending[i] == g.deps[i].len());
    }
    assert forall|j: int| 0 <= j < n implies {
        &&& #[trigger] g.pending[j] == incomplete_count(g.deps[j], g.states)
        &&& g.states[j] == TaskState::Ready ==> g.pending[j] == 0
        &&& g.states[j] == TaskState::Pending ==> g.pending[j] > 0
    } by {
        assert(g.pending[j] == g.deps[j].len());
        assert forall|i: int| 0 <= i < g.deps[j].len() implies g.states[#[trigger] g.deps[j][i] as int] != TaskState::Completed by {
            let x = g.deps[j][i] as int;
            assert(g.deps[j][i] < n);
            assert(g.pending[x] == g.deps[x].len());
        }
        lemma_count_all_incomplete(g.deps[j], g.states);
    }
}

/// In a consistent graph, completing a task that was not completed makes ready exactly the
/// waiting tasks that depend on it and whose dependencies are then all completed.
pub proof fn lemma_unblocked_exact(g: TaskGraphView, k: int)
    requires
        g.wf(),
        g.consistent(),
        0 <= k < g.tasks.len(),
        g.states[k] != TaskState::Completed,
    ensures
        forall|j: int|
            0 <= j < g.tasks.len() ==> (#[trigger] g.unblocked_by(k, j as usize) <==> (g.states[j] == TaskState::Pending
                && g.deps[j].contains(k as usize) && deps_completed(g.completed(k), j))),
{
    let h = g.completed(k);
    let n = g.tasks.len();
    assert forall|j: int| 0 <= j < n implies (#[trigger] g.unblocked_by(k, j as usize) <==> (g.states[j] == TaskState::Pending
        && g.deps[j].contains(k as usize) && deps_completed(h, j))) by {
        assert(g.pending[j] == incomplete_count(g.deps[j], g.states));
        assert forall|m: int| 0 <= m < g.deps[j].len() implies #[trigger] g.deps[j][m] < n by {}
        if g.deps[j].contains(k as usize) {
            assert(g.dependents[k].contains(j as usize));
            if j == k {
                lemma_self_edge_cycle(g.deps, k as usize);
            }
            assert forall|i: int| 0 <= i < g.deps[j].len() && g.deps[j][i] != k as usize implies (g.states[#[trigger] g.deps[j][i] as int] == TaskState::Completed) == (h.states[g.deps[j][i] as int] == TaskState::Completed) by {
                assert(g.deps[j][i] < n);
                let x = g.deps[j][i] as int;
                if g.unblocked_by(k, x as usize) {
                    assert(g.states[x] == TaskState::Pending);
                }
            }
            lemma_count_flip(g.deps[j], g.states, h.states, k as usize);
            lemma_count_zero(g.deps[j], h.states);
        } else {
            assert(!g.dependents[k].contains(j as usize));
        }
    }
}

/// The tasks that completing task `k` makes ready, among its first `m` dependents, are
/// listed once each: exactly those dependents that it unblocks.
pub proof fn lemma_unblocked_prefix_contents(g: TaskGraphView, k: int, m: int)
    requires
        g.wf(),
        0 <= k < g.tasks.len(),
        0 <= m <= g.dependents[k].len(),
    ensures
        g.unblocked_prefix(k, m).no_duplicates(),
        forall|j: int|
            0 <= j < g.tasks.len() ==> (#[trigger] g.unblocked_prefix(k, m).contains(g.tasks[j]) <==> (
            g.dependents[k].take(m).contains(j as usize) && g.unblocked_by(k, j as usize))),
    decreases m,
{
    let n = g.tasks.len();
    if m == 0 {
        assert forall|j: int| 0 <= j < n implies !(#[trigger] g.unblocked_prefix(k, m).contains(g.tasks[j])) && !g.dependents[k].take(m).contains(j as usize) by {}
    } else {
        lemma_unblocked_prefix_contents(g, k, m - 1);
        let d = g.dependents[k];
        let x = d[m - 1];
        assert(x < n);
        assert(d.take(m) =~= d.take(m - 1).push(x));
        let p = g.unblocked_prefix(k, m - 1);
        assert(!d.take(m - 1).contains(x)) by {
            assert(d.no_duplicates());
            if d.take(m - 1).contains(x) {
                let y = choose|y: int| 0 <= y < m - 1 && #[trigger] d.take(m - 1)[y] == x;
                assert(d.take(m - 1)[y] == d[y]);
                assert(d[y] == d[m - 1]);
            }
        }
        let q = g.unblocked_prefix(k, m);
        let hit = dec(g.pending[x as int]) == 0 && g.states[x as int] == TaskState::Pending;
        assert(hit ==> q == p.push(g.tasks[x as int]));
        assert(!hit ==> q == p);
        if dec(g.pending[x as int]) == 0 && g.states[x as int] == TaskState::Pending {
            assert(g.unblocked_by(k, x));
            assert(!p.contains(g.tasks[x as int])) by {
                if p.contains(g.tasks[x as int]) {
                    assert(p.contains(g.tasks[x as int]) == (d.take(m - 1).contains(x) && g.unblocked_by(k, x)));
                }
            }
        }
        assert forall|j: int| 0 <= j < n implies (#[trigger] g.unblocked_prefix(k, m).contains(g.tasks[j]) <==> (
            d.take(m).contains(j as usize) && g.unblocked_by(k, j as usize))) by {
            assert(p.contains(g.tasks[j]) == (d.take(m - 1).contains(j as usize) && g.unblocked_by(k, j as usize)));
            if hit {
                if q.contains(g.tasks[j]) {
                    let y = choose|y: int| 0 <= y < q.len() && #[trigger] q[y] == g.tasks[j];
                    if y < p.len() {
                        assert(p[y] == q[y]);
                    }
                }
                if p.contains(g.tasks[j]) {
                    let y = choose|y: int| 0 <= y < p.len() && #[trigger] p[y] == g.tasks[j];
                    assert(q[y] == p[y]);
                }
                if j == x as int {
                    assert(q[p.len() as int] == g.tasks[j]);
                }
            }
            if j != x as int {
                assert(g.tasks[j] != g.tasks[x as int]);
                assert(d.take(m).contains(j as usize) == d.take(m - 1).contains(j as usize)) by {
                    if d.take(m).contains(j as usize) {
                        let y = choose|y: int| 0 <= y < m && #[trigger] d.take(m)[y] == j as usize;
                        assert(y != m - 1);
                        assert(d.take(m - 1)[y] == j as usize);
                    }
                    if d.take(m - 1).contains(j as usize) {
                        let y = choose|y: int| 0 <= y < m - 1 && #[trigger] d.take(m - 1)[y] == j as usize;
                        assert(d.take(m)[y] == j as usize);
                    }
                }
            } else {
                assert(d.take(m)[m - 1] == x);
                assert(g.dependents[k].contains(x)) by {
                    assert(d[m - 1] == x);
                }
            }
        }
    }
}

/// Starting a task that was not completed keeps the counts consistent.
pub proof fn lemma_running_keeps_consistent(g: TaskGraphView, k: int)
    requires
        g.wf(),
        g.consistent(),
        0 <= k < g.tasks.len(),
        g.states[k] != TaskState::Completed,
    ensures
        g.running(k).consistent(),
{
    let h = g.running(k);
    let n = g.tasks.len();
    assert forall|j: int| 0 <= j < n implies {
        &&& #[trigger] h.pending[j] == incomplete_count(h.deps[j], h.states)
        &&& h.states[j] == TaskState::Ready ==> h.pending[j] == 0
        &&& h.states[j] == TaskState::Pending ==> h.pending[j] > 0
    } by {
        assert(g.pending[j] == incomplete_count(g.deps[j], g.states));
        assert forall|i: int| 0 <= i < g.deps[j].len() implies (g.states[#[trigger] g.deps[j][i] as int] == TaskState::Completed) == (h.states[g.deps[j][i] as int] == TaskState::Completed) by {
            assert(g.deps[j][i] < n);
        }
        lemma_count_same(g.deps[j], g.states, h.states);
    }
}

/// A sequence longer than `n` of numbers below `n` repeats one.
proof fn lemma_pigeonhole(w: Seq<usize>, n: usize)
    requires
        w.len() > n,
        forall|i: int| 0 <= i < w.len() ==> #[trigger] w[i] < n,
    ensures
        !w.no_duplicates(),
{
    if w.no_duplicates() {
        w.unique_seq_to_set();
        let r = Set::new(|i: usize| 0 <= i < n);
        <usize as vstd::set_lib::FiniteRange>::range_properties(0, n);
        assert(w.to_set().subset_of(r));
        vstd::set_lib::lemma_len_subset(w.to_set(), r);
    }
}

/// In a consistent graph where no task is ready or running, a task that is not completed
/// waits on a dependency that is not completed either: so walks of every length follow
/// dependencies through tasks not completed.
proof fn lemma_stuck_walk(g: TaskGraphView, j: usize, m: nat) -> (w: Seq<usize>)
    requires
        g.wf(),
        g.consistent(),
        forall|i: int|
            0 <= i < g.tasks.len() ==> #[trigger] g.states[i] != TaskState::Ready && g.states[i] != TaskState::Running,
        j < g.tasks.len(),
        g.states[j as int] != TaskState::Completed,
        m >= 1,
    ensures
        w.len() == m,
        is_walk(rel_of(g.deps), w),
        forall|i: int| 0 <= i < w.len() ==> #[trigger] w[i] < g.tasks.len() && g.states[w[i] as int] != TaskState::Completed,
    decreases m,
{
    if m == 1 {
        let w = seq![j];
        assert(is_walk(rel_of(g.deps), w));
        w
    } else {
        let w0 = lemma_stuck_walk(g, j, (m - 1) as nat);
        let u = w0.last();
        assert(w0[w0.len() - 1] == u);
        assert(g.states[u as int] != TaskState::Ready);
        assert(g.pending[u as int] == incomplete_count(g.deps[u as int], g.states));
        lemma_count_zero(g.deps[u as int], g.states);
        let i = choose|i: int| 0 <= i < g.deps[u as int].len() && g.states[#[trigger] g.deps[u as int][i] as int] != TaskState::Completed;
        let d = g.deps[u as int][i];
        assert(d < g.tasks.len());
        let w = w0.push(d);
        assert forall|k: int| 0 <= k < w.len() - 1 implies #[trigger] walk_step(rel_of(g.deps), w, k) by {
            if k < w0.len() - 1 {
                assert(walk_step(rel_of(g.deps), w0, k));
            } else {
                assert(g.deps[u as int].contains(d));
            }
        }
        assert forall|k: int| 0 <= k < w.len() implies #[trigger] w[k] < g.tasks.len() && g.states[w[k] as int] != TaskState::Completed by {
            if k < w0.len() {
                assert(w[k] == w0[k]);
            }
        }
        w
    }
}

/// A consistent graph with no task ready and none running has every task completed: the
/// tasks cannot wait on each other in a circle.
pub proof fn lemma_idle_means_all_completed(g: TaskGraphView)
    requires
        g.wf(),
        g.consistent(),
        forall|i: int|
            0 <= i < g.tasks.len() ==> #[trigger] g.states[i] != TaskState::Ready && g.states[i] != TaskState::Running,
    ensures
        forall|i: int| 0 <= i < g.tasks.len() ==> #[trigger] g.states[i] == TaskState::Completed,
{
    let n = g.tasks.len();
    assert forall|j: int| 0 <= j < n implies #[trigger] g.states[j] == TaskState::Completed by {
        if g.states[j] != TaskState::Completed {
            let w = lemma_stuck_walk(g, j as usize, (n + 1) as nat);
            lemma_pigeonhole(w, n as usize);
            let (a, b) = choose|a: int, b: int| 0 <= a < w.len() && 0 <= b < w.len() && a != b && w[a] == w[b];
            let lo = if a < b {
                a
            } else {
                b
            };
            let hi = if a < b {
                b
            } else {
                a
            };
            let c = w.subrange(lo, hi + 1);
            assert forall|k: int| 0 <= k < c.len() - 1 implies #[trigger] walk_step(rel_of(g.deps), c, k) by {
                assert(walk_step(rel_of(g.deps), w, lo + k));
            }
            assert(is_walk(rel_of(g.deps), c));
            assert(c[0] == w[lo] && c.last() == w[hi]);
            assert(on_cycle(rel_of(g.deps), w[lo]));
            assert(w[lo] < n);
        }
    }
}

/// Starting ready tasks keeps the counts consistent.
pub proof fn lemma_start_keeps_consistent(g: TaskGraphView, m: nat)
    requires
        g.wf(),
        g.consistent(),
    ensures
        g.start_first(m).consistent(),
{
    let h = g.start_first(m);
    let n = g.tasks.len();
    assert forall|j: int| 0 <= j < n implies {
        &&& #[trigger] h.pending[j] == incomplete_count(h.deps[j], h.states)
        &&& h.states[j] == TaskState::Ready ==> h.pending[j] == 0
        &&& h.states[j] == TaskState::Pending ==> h.pending[j] > 0
    } by {
        assert(g.pending[j] == incomplete_count(g.deps[j], g.states));
        assert forall|i: int| 0 <= i < g.deps[j].len() implies (g.states[#[trigger] g.deps[j][i] as int]
            == TaskState::Completed) == (h.states[g.deps[j][i] as int] == TaskState::Completed) by {
            assert(g.deps[j][i] < n);
        }
        lemma_count_same(g.deps[j], g.states, h.states);
    }
}

proof fn lemma_ready_prefix_len(g: TaskGraphView, i: int)
    requires
        0 <= i <= g.states.len(),
        g.tasks.len() == g.states.len(),
    ensures
        g.ready_prefix(i).len() <= i,
        i < g.states.len() ==> g.ready_prefix(i + 1).len() == g.ready_prefix(i).len() + if g.states[i]
            == TaskState::Ready {
            1int
        } else {
            0int
        },
    decreases i,
{
    if i > 0 {
        lemma_ready_prefix_len(g, i - 1);
    }
}

/// When none of the first `k` tasks counts as ready, none of them is.
pub proof fn lemma_ready_prefix_empty(g: TaskGraphView, k: int)
    requires
        0 <= k <= g.states.len(),
        g.tasks.len() == g.states.len(),
        g.ready_prefix(k).len() == 0,
    ensures
        forall|i: int| 0 <= i < k ==> #[trigger] g.states[i] != TaskState::Ready,
    decreases k,
{
    if k > 0 {
        lemma_ready_prefix_len(g, k - 1);
        lemma_ready_prefix_empty(g, k - 1);
    }
}

/// The ready tasks among the first `i` are listed once each, and a task is listed exactly
/// when it is among them and ready.
pub proof fn lemma_ready_prefix_contents(g: TaskGraphView, i: int)
    requires
        0 <= i <= g.states.len(),
        g.tasks.len() == g.states.len(),
        g.tasks.no_duplicates(),
    ensures
        g.ready_prefix(i).no_duplicates(),
        forall|j: int|
            0 <= j < g.tasks.len() ==> (#[trigger] g.ready_prefix(i).contains(g.tasks[j]) <==> (j < i && g.states[j]
                == TaskState::Ready)),
    decreases i,
{
    if i > 0 {
        lemma_ready_prefix_contents(g, i - 1);
        let p = g.ready_prefix(i - 1);
        let q = g.ready_prefix(i);
        let hit = g.states[i - 1] == TaskState::Ready;
        assert(hit ==> q == p.push(g.tasks[i - 1]));
        assert(!hit ==> q == p);
        assert forall|j: int| 0 <= j < g.tasks.len() implies (#[trigger] q.contains(g.tasks[j]) <==> (j < i
            && g.states[j] == TaskState::Ready)) by {
            assert(p.contains(g.tasks[j]) == (j < i - 1 && g.states[j] == TaskState::Ready));
            if j != i - 1 {
                assert(g.tasks[j] != g.tasks[i - 1]);
            }
            if hit {
                if q.contains(g.tasks[j]) {
                    let y = choose|y: int| 0 <= y < q.len() && #[trigger] q[y] == g.tasks[j];
                    if y < p.len() {
                        assert(p[y] == q[y]);
                    }
                }
                if p.contains(g.tasks[j]) {
                    let y = choose|y: int| 0 <= y < p.len() && #[trigger] p[y] == g.tasks[j];
                    assert(q[y] == p[y]);
                }
                if j == i - 1 {
                    assert(q[p.len() as int] == g.tasks[j]);
                }
            }
        }
        if hit {
            assert(!p.contains(g.tasks[i - 1]));
        }
    }
}

impl TaskGraph {
    /// Start the first `m` ready tasks, in index order: mark them running and return them.
    pub(crate) fn start_ready(&mut self, m: usize) -> (r: Vec<usize>)
        ensures
            final(self)@ == old(self)@.start_first(m as nat),
            old(self)@.consistent() ==> final(self)@.consistent(),
            r@.len() == (if old(self)@.ready_prefix(old(self)@.tasks.len() as int).len() < m {
                old(self)@.ready_prefix(old(self)@.tasks.len() as int).len()
            } else {
                m as nat
            }),
            forall|j: int| 0 <= j < r.len() ==> #[trigger] r@[j] < old(self)@.tasks.len()
                && old(self)@.states[r@[j] as int] == TaskState::Ready,
            r@.no_duplicates(),
            forall|i: int|
                0 <= i < old(self)@.tasks.len() ==> (#[trigger] r@.contains(i as usize) <==> (old(self)@.states[i]
                    == TaskState::Ready && old(self)@.ready_prefix(i).len() < m)),
            r@.map_values(|i: usize| old(self)@.tasks[i as int]) == old(self)@.ready_prefix(
                old(self)@.tasks.len() as int,
            ).take(r@.len() as int),
    {
        proof {
            use_type_invariant(&*self);
        }
        let ghost g0 = self@;
        let n = self.tasks.len();
        let mut states = self.states.clone();
        let mut out: Vec<usize> = Vec::new();
        let mut i: usize = 0;
        proof {
            assert(states@ =~= g0.states);
        }
        while i < n
            invariant
                g0 == self@,
                g0.wf(),
                n == g0.tasks.len(),
                i <= n,
                states.len() == n,
                out.len() <= m,
                out.len() == (if g0.ready_prefix(i as int).len() < m {
                    g0.ready_prefix(i as int).len()
                } else {
                    m as nat
                }),
                forall|j: int| 0 <= j < out.len() ==> #[trigger] out@[j] < i,
                forall|a: int, b: int| 0 <= a < b < out.len() ==> out@[a] < out@[b],
                forall|x: int| 0 <= x < n ==> #[trigger] states@[x] == if x < i && g0.states[x] == TaskState::Ready
                    && g0.ready_prefix(x).len() < m {
                    TaskState::Running
                } else {
                    g0.states[x]
                },
                forall|x: int|
                    0 <= x < i ==> (#[trigger] out@.contains(x as usize) <==> (g0.states[x] == TaskState::Ready
                        && g0.ready_prefix(x).len() < m)),
                out@.map_values(|k: usize| g0.tasks[k as int]) =~= g0.ready_prefix(i as int).take(out.len() as int),
            decreases n - i,
        {
            proof {
                lemma_ready_prefix_len(g0, i as int);
            }
            let ghost old_out = out@;
            if self.states[i] == TaskState::Ready && out.len() < m {
                states.set(i, TaskState::Running);
                out.push(i);
                proof {
                    assert(old_out.map_values(|k: usize| g0.tasks[k as int]) =~= g0.ready_prefix(i as int));
                    assert(out@.map_values(|k: usize| g0.tasks[k as int]) =~= old_out.map_values(
                        |k: usize| g0.tasks[k as int],
                    ).push(g0.tasks[i as int]));
                    assert(g0.ready_prefix(i + 1) == g0.ready_prefix(i as int).push(g0.tasks[i as int]));
                }
            } else {
                proof {
                    if g0.states[i as int] == TaskState::Ready {
                        assert(g0.ready_prefix(i + 1) == g0.ready_prefix(i as int).push(g0.tasks[i as int]));
                        assert(g0.ready_prefix(i + 1).take(out.len() as int) =~= g0.ready_prefix(i as int).take(
                            out.len() as int,
                        ));
                    } else {
                        assert(g0.ready_prefix(i + 1) == g0.ready_prefix(i as int));
                    }
                }
            }
            proof {
                assert forall|x: int|
                    0 <= x < i + 1 implies (#[trigger] out@.contains(x as usize) <==> (g0.states[x] == TaskState::Ready
                        && g0.ready_prefix(x).len() < m)) by {
                    if x < i {
                        if out@.contains(x as usize) && !old_out.contains(x as usize) {
                            assert(out@[out.len() - 1] == i);
                        }
                        if old_out.contains(x as usize) {
                            let j = choose|j: int| 0 <= j < old_out.len() && old_out[j] == x as usize;
                            assert(out@[j] == x as usize);
                        }
                    } else {
                        if out@.contains(x as usize) && out@ == old_out {
                            let j = choose|j: int| 0 <= j < out.len() && out@[j] == x as usize;
                        }
                        if out@ != old_out {
                            assert(out@[out.len() - 1] == i);
                        }
                    }
                }
            }
            i = i + 1;
        }
        self.states = states;
        proof {
            assert(self@.states =~= g0.start_first(m as nat).states);
            if g0.consistent() {
                lemma_start_keeps_consistent(g0, m as nat);
            }
            assert(g0.ready_prefix(n as int).take(out.len() as int) =~= out@.map_values(|k: usize| g0.tasks[k as int]));
            assert forall|j: int| 0 <= j < out.len() implies #[trigger] out@[j] < g0.tasks.len() && g0.states[out@[j] as int]
                == TaskState::Ready by {
                let x = out@[j] as int;
                assert(out@.contains(x as usize));
            }
        }
        out
    }

    /// A graph with no tasks.
    pub(crate) fn empty() -> (r: TaskGraph)
        ensures
            r@.tasks.len() == 0,
            r@.states.len() == 0,
    {
        let g = TaskGraph {
            tasks: Vec::new(),
            dependencies: Vec::new(),
            dependents: Vec::new(),
            states: Vec::new(),
            pending_deps: Vec::new(),
        };
        proof {
            assert(g@.tasks =~= Seq::<TaskKey>::empty());
            assert(g@.deps =~= Seq::<Seq<usize>>::empty());
            assert(g@.dependents =~= Seq::<Seq<usize>>::empty());
        }
        g
    }

    /// The task at index `i`.
    pub(crate) fn task_at(&self, i: usize) -> (r: TaskId)
        requires
            i < self@.tasks.len(),
        ensures
            r@ == self@.tasks[i as int],
    {
        self.tasks[i].clone()
    }

    /// The index of the task `task_id`, if the graph has it.
    pub(crate) fn find_task(&self, task_id: &TaskId) -> (r: Option<usize>)
        ensures
            r is Some <==> self@.tasks.contains(task_id@),
            r matches Some(i) ==> i < self@.tasks.len() && self@.tasks[i as int] == task_id@ && i == self@.index_of(task_id@),
    {
        proof {
            use_type_invariant(self);
        }
        let mut i: usize = 0;
        while i < self.tasks.len()
            invariant
                i <= self.tasks.len(),
                self@.wf(),
                forall|j: int| 0 <= j < i ==> self@.tasks[j] != task_id@,
            decreases self.tasks.len() - i,
        {
            if self.tasks[i].same(task_id) {
                proof {
                    let c = self@.index_of(task_id@);
                    assert(self@.tasks[i as int] == task_id@);
                    assert(self@.tasks[c] == self@.tasks[i as int]);
                }
                return Some(i);
            }
            i = i + 1;
        }
        None
    }

    /// Get all tasks that are ready to execute, in index order.
    pub fn ready_tasks(&self) -> (r: Vec<TaskId>)
        ensures
            task_ids_view(r@) == self@.ready_prefix(self@.tasks.len() as int),
            task_ids_view(r@).no_duplicates(),
            forall|j: int|
                0 <= j < self@.tasks.len() ==> (#[trigger] task_ids_view(r@).contains(self@.tasks[j]) <==> self@.states[j]
                    == TaskState::Ready),
    {
        proof {
            use_type_invariant(self);
            lemma_ready_prefix_contents(self@, self@.tasks.len() as int);
        }
        let mut out: Vec<TaskId> = Vec::new();
        let mut i: usize = 0;
        while i < self.tasks.len()
            invariant
                i <= self.tasks.len(),
                self@.wf(),
                task_ids_view(out@) == self@.ready_prefix(i as int),
            decreases self.tasks.len() - i,
        {
            if self.states[i] == TaskState::Ready {
                let ghost old_out = out@;
                out.push(self.tasks[i].clone());
                proof {
                    assert(task_ids_view(out@) =~= task_ids_view(old_out).push(self@.tasks[i as int]));
                }
            }
            i = i + 1;
        }
        out
    }

    /// Mark a task as complete and return the tasks that became ready. A task that is
    /// already completed is left as it is, and nothing becomes ready.
    pub fn mark_complete(&mut self, task_id: &TaskId) -> (r: Result<Vec<TaskId>, TaskGraphError>)
        ensures
            r is Ok <==> old(self)@.tasks.contains(task_id@),
            r matches Ok(newly) ==> {
                let k = old(self)@.index_of(task_id@);
                &&& old(self)@.states[k] == TaskState::Completed ==> final(self)@ == old(self)@ && newly@.len() == 0
                &&& old(self)@.states[k] != TaskState::Completed ==> {
                    &&& final(self)@ == old(self)@.completed(k)
                    &&& task_ids_view(newly@) == old(self)@.unblocked_prefix(k, old(self)@.dependents[k].len() as int)
                }
                &&& old(self)@.consistent() ==> final(self)@.consistent()
                &&& old(self)@.consistent() && old(self)@.states[k] != TaskState::Completed ==> {
                    &&& task_ids_view(newly@).no_duplicates()
                    &&& forall|j: int|
                        0 <= j < old(self)@.tasks.len() ==> (#[trigger] task_ids_view(newly@).contains(old(self)@.tasks[j]) <==> (
                        old(self)@.states[j] == TaskState::Pending && old(self)@.deps[j].contains(k as usize)
                            && deps_completed(final(self)@, j)))
                    &&& forall|j: int|
                        0 <= j < old(self)@.tasks.len() && #[trigger] task_ids_view(newly@).contains(old(self)@.tasks[j])
                            ==> final(self)@.states[j] == TaskState::Ready
                }
            },
            r matches Err(e) ==> final(self)@ == old(self)@ && (e matches TaskGraphError::TaskNotFound { project, target } && project@ == task_id@.0 && target@ == task_id@.1),
    {
        proof {
            use_type_invariant(&*self);
        }
        let k = match self.find_task(task_id) {
            Some(k) => k,
            None => {
                return Err(
                    TaskGraphError::TaskNotFound {
                        project: task_id.project().to_string(),
                        target: task_id.target().to_string(),
                    },
                );
            },
        };
        if self.states[k] == TaskState::Completed {
            return Ok(Vec::new());
        }
        let ghost g0 = self@;
        proof {
            if old(self)@.consistent() {
                lemma_complete_keeps_consistent(g0, k as int);
            }
            if g0.dependents[k as int].contains(k) {
                lemma_self_edge_cycle(g0.deps, k);
            }
        }
        let dk = &self.dependents[k];
        proof {
            assert(dk@ == g0.dependents[k as int]);
        }
        let mut states = self.states.clone();
        let mut pending = self.pending_deps.clone();
        proof {
            assert(states@ =~= g0.states);
            assert(pending@ =~= g0.pending);
        }
        states.set(k, TaskState::Completed);
        let mut newly: Vec<TaskId> = Vec::new();
        let mut m: usize = 0;
        while m < dk.len()
            invariant
                g0 == self@,
                g0.wf(),
                k < g0.tasks.len(),
                !g0.dependents[k as int].contains(k),
                dk@ == g0.dependents[k as int],
                m <= dk.len(),
                states.len() == g0.states.len(),
                pending.len() == g0.pending.len(),
                forall|x: int| 0 <= x < states.len() ==> #[trigger] states@[x] == if x == k {
                    TaskState::Completed
                } else if dk@.take(m as int).contains(x as usize) && g0.unblocked_by(k as int, x as usize) {
                    TaskState::Ready
                } else {
                    g0.states[x]
                },
                forall|x: int| 0 <= x < pending.len() ==> #[trigger] pending@[x] == if dk@.take(m as int).contains(x as usize) {
                    dec(g0.pending[x])
                } else {
                    g0.pending[x]
                },
                task_ids_view(newly@) == g0.unblocked_prefix(k as int, m as int),
            decreases dk.len() - m,
        {
            let j = dk[m];
            let ghost t0 = dk@.take(m as int);
            let ghost t1 = dk@.take(m + 1);
            proof {
                assert(g0.dependents[k as int][m as int] < g0.tasks.len());
                assert(t1 =~= t0.push(j));
                assert(!t0.contains(j)) by {
                    if t0.contains(j) {
                        let y = choose|y: int| 0 <= y < m && t0[y] == j;
                        assert(g0.dependents[k as int].no_duplicates());
                        assert(dk@[y] == dk@[m as int]);
                    }
                }
                assert(j != k);
            }
            let c = pending[j];
            let nc = if c == 0 {
                0
            } else {
                c - 1
            };
            pending.set(j, nc);
            let ghost old_states = states@;
            let ghost old_newly = newly@;
            if nc == 0 && states[j] == TaskState::Pending {
                states.set(j, TaskState::Ready);
                newly.push(self.tasks[j].clone());
                proof {
                    assert(task_ids_view(newly@) =~= task_ids_view(old_newly).push(g0.tasks[j as int]));
                }
            }
            proof {
                assert forall|x: int| 0 <= x < states.len() implies #[trigger] states@[x] == if x == k {
                    TaskState::Completed
                } else if t1.contains(x as usize) && g0.unblocked_by(k as int, x as usize) {
                    TaskState::Ready
                } else {
                    g0.states[x]
                } by {
                    if x != j {
                        assert(old_states[x] == states@[x]);
                        if t1.contains(x as usize) {
                            let y = choose|y: int| 0 <= y < m + 1 && t1[y] == x as usize;
                            assert(t0[y] == x as usize);
                        }
                    } else {
                        assert(t1.contains(j)) by {
                            assert(t1[m as int] == j);
                        }
                        assert(g0.dependents[k as int].contains(j));
                    }
                }
                assert forall|x: int| 0 <= x < pending.len() implies #[trigger] pending@[x] == if t1.contains(x as usize) {
                    dec(g0.pending[x])
                } else {
                    g0.pending[x]
                } by {
                    if x != j {
                        if t1.contains(x as usize) {
                            let y = choose|y: int| 0 <= y < m + 1 && t1[y] == x as usize;
                            assert(t0[y] == x as usize);
                        }
                    } else {
                        assert(t1[m as int] == j);
                    }
                }
            }
            m = m + 1;
        }
        proof {
            assert(dk@.take(dk@.len() as int) =~= dk@);
            let h = g0.completed(k as int);
            assert(states@ =~= h.states);
            assert(pending@ =~= h.pending);
            let full = g0.dependents[k as int].len() as int;
            lemma_unblocked_prefix_contents(g0, k as int, full);
            assert(g0.dependents[k as int].take(full) =~= g0.dependents[k as int]);
            if old(self)@.consistent() {
                lemma_unblocked_exact(g0, k as int);
            }
        }
        self.states = states;
        self.pending_deps = pending;
        Ok(newly)
    }

    /// Mark a task as running.
    pub fn mark_running(&mut self, task_id: &TaskId) -> (r: Result<(), TaskGraphError>)
        ensures
            r is Ok <==> old(self)@.tasks.contains(task_id@),
            r is Ok ==> {
                let k = old(self)@.index_of(task_id@);
                &&& final(self)@ == old(self)@.running(k)
                &&& (old(self)@.consistent() && old(self)@.states[k] != TaskState::Completed ==> final(self)@.consistent())
            },
            r matches Err(e) ==> final(self)@ == old(self)@ && (e matches TaskGraphError::TaskNotFound { project, target } && project@ == task_id@.0 && target@ == task_id@.1),
    {
        proof {
            use_type_invariant(&*self);
        }
        let k = match self.find_task(task_id) {
            Some(k) => k,
            None => {
                return Err(
                    TaskGraphError::TaskNotFound {
                        project: task_id.project().to_string(),
                        target: task_id.target().to_string(),
                    },
                );
            },
        };
        proof {
            if old(self)@.consistent() && self@.states[k as int] != TaskState::Completed {
                lemma_running_keeps_consistent(self@, k as int);
            }
        }
        let ghost g0 = self@;
        let mut states = self.states.clone();
        proof {
            assert(states@ =~= g0.states);
        }
        states.set(k, TaskState::Running);
        self.states = states;
        proof {
            assert(self@.states =~= g0.running(k as int).states);
        }
        Ok(())
    }

    /// Get the state of a task.
    pub fn state(&self, task_id: &TaskId) -> (r: Option<TaskState>)
        ensures
            r is Some <==> self@.tasks.contains(task_id@),
            r matches Some(st) ==> st == self@.states[self@.index_of(task_id@)],
    {
        proof {
            use_type_invariant(self);
        }
        match self.find_task(task_id) {
            Some(i) => Some(self.states[i]),
            None => None,
        }
    }

    /// Get all tasks in the graph.
    pub fn tasks(&self) -> (r: &Vec<TaskId>)
        ensures
            task_ids_view(r@) == self@.tasks,
    {
        &self.tasks
    }

    /// The tasks that the task `task_id` depends on directly.
    pub fn dependencies_of(&self, task_id: &TaskId) -> (r: Option<Vec<TaskId>>)
        ensures
            r is Some <==> self@.tasks.contains(task_id@),
            r matches Some(ds) ==> task_ids_view(ds@) == self@.deps[self@.index_of(task_id@)].map_values(|x: usize| self@.tasks[x as int]),
    {
        proof {
            use_type_invariant(self);
        }
        match self.find_task(task_id) {
            Some(i) => {
                let row = &self.dependencies[i];
                let ghost g = self@;
                proof {
                    assert(row@ == g.deps[i as int]);
                }
                let mut out: Vec<TaskId> = Vec::new();
                let mut m: usize = 0;
                while m < row.len()
                    invariant
                        g == self@,
                        g.wf(),
                        i < g.tasks.len(),
                        row@ == g.deps[i as int],
                        m <= row.len(),
                        task_ids_view(out@) =~= row@.take(m as int).map_values(|x: usize| g.tasks[x as int]),
                    decreases row.len() - m,
                {
                    assert(g.deps[i as int][m as int] < g.tasks.len());
                    let ghost old_out = out@;
                    out.push(self.tasks[row[m]].clone());
                    proof {
                        assert(task_ids_view(out@) =~= task_ids_view(old_out).push(g.tasks[row@[m as int] as int]));
                        assert(row@.take(m + 1) =~= row@.take(m as int).push(row@[m as int]));
                    }
                    m = m + 1;
                }
                proof {
                    assert(row@.take(row@.len() as int) =~= row@);
                }
                Some(out)
            },
            None => None,
        }
    }

    /// Get the number of tasks in the graph.
    pub fn len(&self) -> (r: usize)
        ensures
            r == self@.tasks.len(),
            self@.wf(),
    {
        proof {
            use_type_invariant(self);
        }
        self.tasks.len()
    }

    /// Returns true if the graph has no tasks.
    pub fn is_empty(&self) -> (r: bool)
        ensures
            r == (self@.tasks.len() == 0),
    {
        self.tasks.len() == 0
    }

    /// Check if all tasks are completed.
    pub fn all_completed(&self) -> (r: bool)
        ensures
            r == forall|i: int| 0 <= i < self@.states.len() ==> self@.states[i] == TaskState::Completed,
    {
        let mut i: usize = 0;
        while i < self.states.len()
            invariant
                i <= self.states.len(),
                forall|j: int| 0 <= j < i ==> self@.states[j] == TaskState::Completed,
            decreases self.states.len() - i,
        {
            if self.states[i] != TaskState::Completed {
                return false;
            }
            i = i + 1;
        }
        true
    }
}

} // verus!
