//! The decisions of the parallel task runner: which tasks start, how a finished task is
//! recorded, when a run stops, and what a run adds up to. Spawning the commands and
//! waiting for them is the caller's part: it asks for a batch of tasks to start, reports
//! each task that finishes, and repeats until nothing is running.

use vstd::prelude::*;

use std::time::Duration;

use crate::graph::{ProjectGraph, TaskGraph, TaskId, TaskState};
use crate::graph::project::{has_name, name_index};
use crate::graph::task::{TaskGraphView, TaskKey, deps_completed, task_ids_view};

verus! {

/// Controls behavior when a task fails.
#[derive(Debug, Clone, Copy, PartialEq, Eq, Structural)]
pub enum RunMode {
    /// Stop scheduling new tasks after first failure, but wait for running tasks.
    FailFast,
    /// Continue executing tasks even after failures.
    Continue,
}

impl Default for RunMode {
    fn default() -> (r: Self)
        ensures
            r == RunMode::FailFast,
    {
        RunMode::FailFast
    }
}

/// `Clone::clone` on `std::time::Duration`: a copy of the same span of time.
pub assume_specification[ <std::time::Duration as std::clone::Clone>::clone ](
    d: &std::time::Duration,
) -> (r: std::time::Duration)
    ensures
        r == *d,
;

/// Result of a single task execution.
#[derive(Debug, Clone)]
pub struct TaskResult {
    /// The task that was executed.
    pub task_id: TaskId,
    /// Whether the task succeeded.
    pub success: bool,
    /// Exit code, if the process exited normally.
    pub exit_code: Option<i32>,
    /// Duration of the task execution.
    pub duration: Duration,
}

/// Aggregate result of running all tasks.
#[derive(Debug, Clone)]
pub struct RunResult {
    /// Number of tasks that succeeded.
    pub success_count: usize,
    /// Number of tasks that failed.
    pub failure_count: usize,
    /// Number of tasks that were skipped (due to fail-fast).
    pub skipped_count: usize,
    /// Individual task results in completion order.
    pub task_results: Vec<TaskResult>,
    /// Total duration of the run.
    pub total_duration: Duration,
}

impl RunResult {
    /// Returns true if all executed tasks succeeded.
    pub fn is_success(&self) -> (r: bool)
        ensures
            r == (self.failure_count == 0),
    {
        self.failure_count == 0
    }
}

/// A task runner's settings as plain values.
pub struct TaskRunnerView {
    pub concurrency: usize,
    pub run_mode: RunMode,
    pub working_dir: Seq<char>,
}

/// Parallel task execution engine.
#[derive(Debug)]
pub struct TaskRunner {
    /// Maximum number of concurrent tasks.
    concurrency: usize,
    /// Behavior when a task fails.
    run_mode: RunMode,
    /// Working directory for tasks (workspace root).
    working_dir: String,
}

impl TaskRunner {
    #[verifier::type_invariant]
    spec fn type_inv(self) -> bool {
        self.concurrency >= 1
    }
}

impl View for TaskRunner {
    type V = TaskRunnerView;

    closed spec fn view(&self) -> TaskRunnerView {
        TaskRunnerView { concurrency: self.concurrency, run_mode: self.run_mode, working_dir: self.working_dir@ }
    }
}

/// Task `i` is started and in state `st`.
pub open spec fn counted(started: Seq<bool>, states: Seq<TaskState>, st: TaskState, i: int) -> bool {
    started[i] && states[i] == st
}

/// Among `started` tasks, how many are in state `st`.
pub open spec fn tally(started: Seq<bool>, states: Seq<TaskState>, st: TaskState) -> nat
    decreases started.len(),
{
    if started.len() == 0 {
        0
    } else {
        tally(started.drop_last(), states, st) + if counted(started, states, st, started.len() - 1) {
            1nat
        } else {
            0nat
        }
    }
}

proof fn lemma_tally_same(a: Seq<bool>, sa: Seq<TaskState>, b: Seq<bool>, sb: Seq<TaskState>, st: TaskState)
    requires
        a.len() == b.len(),
        forall|i: int| 0 <= i < a.len() ==> #[trigger] counted(a, sa, st, i) == counted(b, sb, st, i),
    ensures
        tally(a, sa, st) == tally(b, sb, st),
    decreases a.len(),
{
    if a.len() > 0 {
        assert forall|i: int| 0 <= i < a.drop_last().len() implies #[trigger] counted(a.drop_last(), sa, st, i)
            == counted(b.drop_last(), sb, st, i) by {
            assert(counted(a, sa, st, i) == counted(b, sb, st, i));
        }
        lemma_tally_same(a.drop_last(), sa, b.drop_last(), sb, st);
        assert(counted(a, sa, st, a.len() - 1) == counted(b, sb, st, a.len() - 1));
    }
}

/// Changing one entry from not counted to counted adds one.
proof fn lemma_tally_flip(
    a: Seq<bool>,
    sa: Seq<TaskState>,
    b: Seq<bool>,
    sb: Seq<TaskState>,
    st: TaskState,
    k: int,
)
    requires
        a.len() == b.len(),
        0 <= k < a.len(),
        !counted(a, sa, st, k),
        counted(b, sb, st, k),
        forall|i: int| 0 <= i < a.len() && i != k ==> #[trigger] counted(a, sa, st, i) == counted(b, sb, st, i),
    ensures
        tally(b, sb, st) == tally(a, sa, st) + 1,
    decreases a.len(),
{
    if k == a.len() - 1 {
        assert forall|i: int| 0 <= i < a.drop_last().len() implies #[trigger] counted(a.drop_last(), sa, st, i)
            == counted(b.drop_last(), sb, st, i) by {
            assert(counted(a, sa, st, i) == counted(b, sb, st, i));
        }
        lemma_tally_same(a.drop_last(), sa, b.drop_last(), sb, st);
    } else {
        assert forall|i: int| 0 <= i < a.drop_last().len() && i != k implies #[trigger] counted(a.drop_last(), sa, st, i)
            == counted(b.drop_last(), sb, st, i) by {
            assert(counted(a, sa, st, i) == counted(b, sb, st, i));
        }
        lemma_tally_flip(a.drop_last(), sa, b.drop_last(), sb, st, k);
        assert(counted(a, sa, st, a.len() - 1) == counted(b, sb, st, a.len() - 1));
    }
}

/// Running and completed tasks together are no more than all tasks.
proof fn lemma_tally_bound(started: Seq<bool>, states: Seq<TaskState>)
    ensures
        tally(started, states, TaskState::Running) + tally(started, states, TaskState::Completed) <= started.len(),
    decreases started.len(),
{
    if started.len() > 0 {
        lemma_tally_bound(started.drop_last(), states);
    }
}

/// A counted entry makes the tally positive.
proof fn lemma_tally_positive(started: Seq<bool>, states: Seq<TaskState>, st: TaskState, k: int)
    requires
        0 <= k < started.len(),
        started[k],
        states[k] == st,
    ensures
        tally(started, states, st) >= 1,
    decreases started.len(),
{
    if k < started.len() - 1 {
        lemma_tally_positive(started.drop_last(), states, st, k);
    }
}

proof fn lemma_tally_none(n: nat, states: Seq<TaskState>, st: TaskState)
    ensures
        tally(Seq::new(n, |i: int| false), states, st) == 0,
    decreases n,
{
    if n > 0 {
        assert(Seq::new(n, |i: int| false).drop_last() =~= Seq::new((n - 1) as nat, |i: int| false));
        lemma_tally_none((n - 1) as nat, states, st);
    }
}

/// With nothing counted, no entry counts.
proof fn lemma_tally_zero(started: Seq<bool>, states: Seq<TaskState>, st: TaskState)
    requires
        tally(started, states, st) == 0,
    ensures
        forall|i: int| 0 <= i < started.len() ==> !#[trigger] counted(started, states, st, i),
{
    assert forall|i: int| 0 <= i < started.len() implies !#[trigger] counted(started, states, st, i) by {
        if counted(started, states, st, i) {
            lemma_tally_positive(started, states, st, i);
        }
    }
}

/// When every entry counts, the tally is the length.
proof fn lemma_tally_all(started: Seq<bool>, states: Seq<TaskState>, st: TaskState)
    requires
        forall|i: int| 0 <= i < started.len() ==> #[trigger] counted(started, states, st, i),
    ensures
        tally(started, states, st) == started.len(),
    decreases started.len(),
{
    if started.len() > 0 {
        assert forall|i: int| 0 <= i < started.drop_last().len() implies #[trigger] counted(
            started.drop_last(),
            states,
            st,
            i,
        ) by {
            assert(counted(started, states, st, i));
        }
        lemma_tally_all(started.drop_last(), states, st);
        assert(counted(started, states, st, started.len() - 1));
    }
}

/// The tasks that the results `rs` are for, in order.
pub open spec fn result_keys(rs: Seq<TaskResult>) -> Seq<TaskKey> {
    rs.map_values(|x: TaskResult| x.task_id@)
}

/// How many of the results `rs` are successes.
pub open spec fn successes(rs: Seq<TaskResult>) -> nat
    decreases rs.len(),
{
    if rs.len() == 0 {
        0
    } else {
        successes(rs.drop_last()) + if rs.last().success {
            1nat
        } else {
            0nat
        }
    }
}

/// Task `key` is listed in `keys` before position `p`.
pub open spec fn listed_before(keys: Seq<TaskKey>, p: int, key: TaskKey) -> bool {
    exists|q: int| 0 <= q < p && #[trigger] keys[q] == key
}

/// Every task that the task listed at position `p` of `keys` depends on is listed before it.
pub open spec fn deps_listed_before(g: TaskGraphView, keys: Seq<TaskKey>, p: int) -> bool {
    forall|m: int|
        0 <= m < g.deps[g.index_of(keys[p])].len() ==> listed_before(
            keys,
            p,
            g.tasks[#[trigger] g.deps[g.index_of(keys[p])][m] as int],
        )
}

/// Whether the tasks a listed task depends on come before it does not change with the task
/// states, nor with what is listed after it.
proof fn lemma_deps_listed_same(g0: TaskGraphView, g1: TaskGraphView, keys0: Seq<TaskKey>, keys1: Seq<TaskKey>, p: int)
    requires
        g0.tasks == g1.tasks,
        g0.deps == g1.deps,
        0 <= p < keys0.len(),
        p < keys1.len(),
        forall|q: int| 0 <= q <= p ==> #[trigger] keys1[q] == keys0[q],
        deps_listed_before(g0, keys0, p),
    ensures
        deps_listed_before(g1, keys1, p),
{
    let c = g0.index_of(keys0[p]);
    assert(keys1[p] == keys0[p]);
    assert(g1.index_of(keys1[p]) == c);
    assert forall|m: int| 0 <= m < g1.deps[g1.index_of(keys1[p])].len() implies listed_before(
        keys1,
        p,
        g1.tasks[#[trigger] g1.deps[g1.index_of(keys1[p])][m] as int],
    ) by {
        let x = g0.tasks[g0.deps[c][m] as int];
        assert(listed_before(keys0, p, x));
        let q = choose|q: int| 0 <= q < p && #[trigger] keys0[q] == x;
        assert(keys1[q] == keys0[q]);
    }
}

/// A scheduler's state as plain values.
pub struct SchedulerView {
    /// The task graph, with the state of each task.
    pub graph: TaskGraphView,
    /// For each task, whether this scheduler started it.
    pub started: Seq<bool>,
    pub concurrency: usize,
    pub run_mode: RunMode,
    /// Tasks started and not yet reported finished.
    pub running: usize,
    pub success_count: usize,
    pub failure_count: usize,
    /// The results of the tasks that finished, in the order they finished.
    pub results: Seq<TaskResult>,
}

impl SchedulerView {
    /// No new task starts: a task failed and the run mode is fail-fast.
    pub open spec fn stopped(self) -> bool {
        self.run_mode == RunMode::FailFast && self.failure_count > 0
    }

    /// The result at position `j` is for a task of the graph that this scheduler started and
    /// that completed.
    pub open spec fn recorded_at(self, j: int) -> bool {
        let key = result_keys(self.results)[j];
        &&& self.graph.tasks.contains(key)
        &&& self.started[self.graph.index_of(key)]
        &&& self.graph.states[self.graph.index_of(key)] == TaskState::Completed
    }

    /// The counters agree with the graph: the running count is the number of started tasks
    /// that run, the finished counts add up to the started tasks that completed, and no
    /// more tasks run than the concurrency allows. The results list each started task that
    /// completed, once, and the successes among them are the success count.
    pub open spec fn inv(self) -> bool {
        &&& self.started.len() == self.graph.states.len()
        &&& self.graph.states.len() == self.graph.tasks.len()
        &&& forall|i: int|
            0 <= i < self.started.len() && #[trigger] self.started[i] ==> self.graph.states[i] == TaskState::Running
                || self.graph.states[i] == TaskState::Completed
        &&& self.running == tally(self.started, self.graph.states, TaskState::Running)
        &&& self.success_count + self.failure_count == tally(self.started, self.graph.states, TaskState::Completed)
        &&& 1 <= self.concurrency
        &&& self.running <= self.concurrency
        &&& self.results.len() == self.success_count + self.failure_count
        &&& self.success_count == successes(self.results)
        &&& result_keys(self.results).no_duplicates()
        &&& forall|j: int| 0 <= j < self.results.len() ==> #[trigger] self.recorded_at(j)
        &&& forall|i: int|
            0 <= i < self.started.len() && self.started[i] && self.graph.states[i] == TaskState::Completed
                ==> result_keys(self.results).contains(#[trigger] self.graph.tasks[i])
    }

    /// The run keeps to the dependencies: the graph's counts are consistent, every task that
    /// runs or completed was started here, a running task's dependencies are all completed,
    /// and each result comes after the results of the tasks its task depends on. A run begun
    /// on a graph just built is orderly, and stays so.
    pub open spec fn orderly(self) -> bool {
        &&& self.graph.consistent()
        &&& forall|i: int|
            0 <= i < self.graph.tasks.len() && (#[trigger] self.graph.states[i] == TaskState::Running
                || self.graph.states[i] == TaskState::Completed) ==> self.started[i]
        &&& forall|i: int|
            0 <= i < self.graph.tasks.len() && #[trigger] self.graph.states[i] == TaskState::Running ==> deps_completed(
                self.graph,
                i,
            )
        &&& forall|p: int| 0 <= p < self.results.len() ==> #[trigger] deps_listed_before(self.graph, result_keys(self.results), p)
    }
}

/// A run in progress: the task graph, the runner's counters and the results so far.
pub struct Scheduler {
    graph: TaskGraph,
    started: Vec<bool>,
    concurrency: usize,
    run_mode: RunMode,
    running: usize,
    success_count: usize,
    failure_count: usize,
    results: Vec<TaskResult>,
}

impl View for Scheduler {
    type V = SchedulerView;

    closed spec fn view(&self) -> SchedulerView {
        SchedulerView {
            graph: self.graph@,
            started: self.started@,
            concurrency: self.concurrency,
            run_mode: self.run_mode,
            running: self.running,
            success_count: self.success_count,
            failure_count: self.failure_count,
            results: self.results@,
        }
    }
}

impl Scheduler {
    #[verifier::type_invariant]
    spec fn type_inv(self) -> bool {
        self@.inv()
    }

    /// A scheduler with nothing to run, to stand in while a scheduler is taken apart.
    fn placeholder() -> (r: Scheduler) {
        let graph = TaskGraph::empty();
        proof {
            lemma_tally_none(0, graph@.states, TaskState::Running);
            lemma_tally_none(0, graph@.states, TaskState::Completed);
            assert(Seq::new(0, |i: int| false) =~= Seq::<bool>::empty());
        }
        Scheduler {
            graph,
            started: Vec::new(),
            concurrency: 1,
            run_mode: RunMode::FailFast,
            running: 0,
            success_count: 0,
            failure_count: 0,
            results: Vec::new(),
        }
    }
}

impl TaskRunner {
    /// Create a new task runner with the given concurrency limit (at least one).
    pub fn new(concurrency: usize, working_dir: String) -> (r: Self)
        ensures
            r@ == (TaskRunnerView {
                concurrency: if concurrency < 1 {
                    1
                } else {
                    concurrency
                },
                run_mode: RunMode::FailFast,
                working_dir: working_dir@,
            }),
    {
        TaskRunner {
            concurrency: if concurrency < 1 {
                1
            } else {
                concurrency
            },
            run_mode: RunMode::default(),
            working_dir,
        }
    }

    /// Set the run mode (fail-fast or continue).
    pub fn with_run_mode(self, mode: RunMode) -> (r: Self)
        ensures
            r@ == (TaskRunnerView { run_mode: mode, ..self@ }),
    {
        proof {
            use_type_invariant(&self);
        }
        TaskRunner { concurrency: self.concurrency, run_mode: mode, working_dir: self.working_dir }
    }

    /// Maximum number of concurrent tasks.
    pub fn concurrency(&self) -> (r: usize)
        ensures
            r == self@.concurrency,
            r >= 1,
    {
        proof {
            use_type_invariant(self);
        }
        self.concurrency
    }

    /// Behavior when a task fails.
    pub fn run_mode(&self) -> (r: RunMode)
        ensures
            r == self@.run_mode,
    {
        self.run_mode
    }

    /// Working directory for tasks.
    pub fn working_dir(&self) -> (r: &str)
        ensures
            r@ == self@.working_dir,
    {
        self.working_dir.as_str()
    }

    /// Begin running the tasks of `task_graph`: nothing started, nothing counted, no results.
    pub fn start(&self, task_graph: TaskGraph) -> (r: Scheduler)
        ensures
            r@.graph == task_graph@,
            r@.started == Seq::new(task_graph@.tasks.len(), |i: int| false),
            r@.concurrency == self@.concurrency,
            r@.run_mode == self@.run_mode,
            r@.running == 0,
            r@.success_count == 0,
            r@.failure_count == 0,
            r@.results.len() == 0,
            r@.inv(),
            task_graph@.initial() ==> r@.orderly(),
    {
        proof {
            use_type_invariant(self);
        }
        let n = task_graph.len();
        let mut started: Vec<bool> = Vec::new();
        let mut i: usize = 0;
        while i < n
            invariant
                i <= n,
                started@ == Seq::new(i as nat, |k: int| false),
            decreases n - i,
        {
            started.push(false);
            i = i + 1;
            assert(started@ =~= Seq::new(i as nat, |k: int| false));
        }
        proof {
            lemma_tally_none(n as nat, task_graph@.states, TaskState::Running);
            lemma_tally_none(n as nat, task_graph@.states, TaskState::Completed);
            if task_graph@.initial() {
                crate::graph::task::lemma_initial_consistent(task_graph@);
            }
        }
        let results: Vec<TaskResult> = Vec::new();
        proof {
            assert(result_keys(results@) =~= Seq::<TaskKey>::empty());
        }
        Scheduler {
            graph: task_graph,
            started,
            concurrency: self.concurrency,
            run_mode: self.run_mode,
            running: 0,
            success_count: 0,
            failure_count: 0,
            results,
        }
    }
}

impl Scheduler {
    /// Start tasks: unless the run has stopped, the ready tasks in index order, as many as
    /// the concurrency leaves room for. Each is marked running and returned.
    pub fn next_batch(&mut self) -> (r: Vec<TaskId>)
        ensures
            old(self)@.stopped() ==> final(self)@ == old(self)@ && r.len() == 0,
            !old(self)@.stopped() ==> {
                let g = old(self)@.graph;
                let room = (old(self)@.concurrency - old(self)@.running) as nat;
                let ready = g.ready_prefix(g.tasks.len() as int);
                &&& r@.len() == (if ready.len() < room {
                    ready.len()
                } else {
                    room
                })
                &&& task_ids_view(r@) == ready.take(r@.len() as int)
                &&& final(self)@.graph == g.start_first(room)
                &&& final(self)@.running == old(self)@.running + r@.len()
                &&& final(self)@.success_count == old(self)@.success_count
                &&& final(self)@.failure_count == old(self)@.failure_count
            },
            forall|j: int|
                0 <= j < r.len() ==> old(self)@.graph.tasks.contains(#[trigger] r@[j]@) && old(self)@.graph.states[old(
                    self,
                )@.graph.index_of(r@[j]@)] == TaskState::Ready && !old(self)@.started[old(self)@.graph.index_of(
                    r@[j]@,
                )],
            old(self)@.graph.consistent() ==> forall|j: int|
                0 <= j < r.len() ==> deps_completed(old(self)@.graph, old(self)@.graph.index_of(#[trigger] r@[j]@)),
            old(self)@.graph.consistent() ==> final(self)@.graph.consistent(),
            old(self)@.orderly() ==> final(self)@.orderly(),
            final(self)@.results == old(self)@.results,
            final(self)@.concurrency == old(self)@.concurrency,
            final(self)@.run_mode == old(self)@.run_mode,
            final(self)@.inv(),
    {
        proof {
            use_type_invariant(&*self);
        }
        if self.run_mode == RunMode::FailFast && self.failure_count > 0 {
            return Vec::new();
        }
        let ghost s0 = self@;
        let mut taken = Scheduler::placeholder();
        core::mem::swap(&mut taken, self);
        let Scheduler { mut graph, mut started, concurrency, run_mode, running, success_count, failure_count, results } =
            taken;
        let ghost g0 = graph@;
        // `len` also tells that the graph is well formed.
        let _ = graph.len();
        let room = concurrency - running;
        let picked = graph.start_ready(room);
        let ghost g1 = graph@;
        let ghost st0 = started@;
        proof {
            assert forall|i: int| 0 <= i < st0.len() implies #[trigger] counted(st0, g0.states, TaskState::Running, i)
                == counted(st0, g1.states, TaskState::Running, i) by {
                if st0[i] {
                    assert(g0.states[i] != TaskState::Ready);
                }
            }
            lemma_tally_same(st0, g0.states, st0, g1.states, TaskState::Running);
            assert forall|i: int| 0 <= i < st0.len() implies #[trigger] counted(st0, g0.states, TaskState::Completed, i)
                == counted(st0, g1.states, TaskState::Completed, i) by {}
            lemma_tally_same(st0, g0.states, st0, g1.states, TaskState::Completed);
        }
        let mut out: Vec<TaskId> = Vec::new();
        let mut j: usize = 0;
        while j < picked.len()
            invariant
                g1 == graph@,
                g1 == g0.start_first(room as nat),
                g0.wf(),
                st0.len() == g0.tasks.len(),
                forall|i: int| 0 <= i < st0.len() && #[trigger] st0[i] ==> g0.states[i] != TaskState::Ready,
                picked@.no_duplicates(),
                picked@.len() <= room,
                forall|q: int| 0 <= q < picked.len() ==> #[trigger] picked@[q] < g0.tasks.len()
                    && g0.states[picked@[q] as int] == TaskState::Ready,
                forall|i: int|
                    0 <= i < g0.tasks.len() ==> (#[trigger] picked@.contains(i as usize) <==> (g0.states[i]
                        == TaskState::Ready && g0.ready_prefix(i).len() < room)),
                j <= picked.len(),
                started.len() == st0.len(),
                forall|i: int|
                    0 <= i < st0.len() ==> #[trigger] started@[i] == (st0[i] || picked@.take(j as int).contains(
                        i as usize,
                    )),
                tally(started@, g1.states, TaskState::Running) == s0.running + j,
                tally(started@, g1.states, TaskState::Completed) == s0.success_count + s0.failure_count,
                task_ids_view(out@) == picked@.take(j as int).map_values(|i: usize| g0.tasks[i as int]),
                s0.running + room == s0.concurrency,
            decreases picked.len() - j,
        {
            let k = picked[j];
            let ghost t0 = picked@.take(j as int);
            let ghost t1 = picked@.take(j + 1);
            let ghost before = started@;
            proof {
                assert(t1 =~= t0.push(k));
                assert(!t0.contains(k)) by {
                    if t0.contains(k) {
                        let q = choose|q: int| 0 <= q < j && t0[q] == k;
                        assert(picked@[q] == picked@[j as int]);
                    }
                }
                assert(!st0[k as int]);
                assert(picked@.contains(k)) by {
                    assert(picked@[j as int] == k);
                }
                let ki = k as int;
                assert(picked@.contains(ki as usize));
                assert(g1.states[k as int] == TaskState::Running);
            }
            started.set(k, true);
            proof {
                assert forall|i: int| 0 <= i < st0.len() && i != k implies #[trigger] counted(before, g1.states, TaskState::Running, i)
                    == counted(started@, g1.states, TaskState::Running, i) by {
                    if i != k as int {
                        if t1.contains(i as usize) {
                            let q = choose|q: int| 0 <= q < j + 1 && t1[q] == i as usize;
                            assert(q != j);
                            assert(t0[q] == i as usize);
                        }
                    }
                }
                lemma_tally_flip(before, g1.states, started@, g1.states, TaskState::Running, k as int);
                assert forall|i: int| 0 <= i < st0.len() implies #[trigger] counted(before, g1.states, TaskState::Completed, i)
                    == counted(started@, g1.states, TaskState::Completed, i) by {}
                lemma_tally_same(before, g1.states, started@, g1.states, TaskState::Completed);
                assert forall|i: int| 0 <= i < st0.len() implies #[trigger] started@[i] == (st0[i] || t1.contains(i as usize)) by {
                    if i == k as int {
                        assert(t1[j as int] == k);
                    } else {
                        if t1.contains(i as usize) {
                            let q = choose|q: int| 0 <= q < j + 1 && t1[q] == i as usize;
                            assert(t0[q] == i as usize);
                        }
                        if t0.contains(i as usize) {
                            let q = choose|q: int| 0 <= q < j && t0[q] == i as usize;
                            assert(t1[q] == i as usize);
                        }
                    }
                }
            }
            let id = graph.task_at(k);
            let ghost old_out = out@;
            out.push(id);
            proof {
                assert(task_ids_view(out@) =~= task_ids_view(old_out).push(g0.tasks[k as int]));
                assert(t1.map_values(|i: usize| g0.tasks[i as int]) =~= picked@.take(
                    j as int,
                ).map_values(|i: usize| g0.tasks[i as int]).push(g0.tasks[k as int]));
            }
            j = j + 1;
        }
        let new_running = running + picked.len();
        proof {
            assert(picked@.take(picked.len() as int) =~= picked@);
            lemma_tally_bound(started@, g1.states);
            assert forall|i: int|
                0 <= i < started@.len() && #[trigger] started@[i] implies g1.states[i] == TaskState::Running
                || g1.states[i] == TaskState::Completed by {
                if !st0[i] {
                    assert(picked@.contains(i as usize));
                }
            }
            assert forall|q: int| 0 <= q < out.len() implies g0.tasks.contains(#[trigger] out@[q]@)
                && g0.states[g0.index_of(out@[q]@)] == TaskState::Ready && !st0[g0.index_of(out@[q]@)] by {
                assert(task_ids_view(out@)[q] == out@[q]@);
                let i = picked@[q] as int;
                assert(0 <= i < g0.tasks.len() && g0.tasks[i] == out@[q]@ && g0.states[i] == TaskState::Ready);
                let c = g0.index_of(out@[q]@);
                assert(g0.tasks[c] == g0.tasks[i]);
            }
            if g0.consistent() {
                assert forall|q: int| 0 <= q < out.len() implies deps_completed(g0, g0.index_of(#[trigger] out@[q]@)) by {
                    let c = g0.index_of(out@[q]@);
                    assert(g0.tasks.contains(out@[q]@));
                    crate::graph::task::lemma_ready_means_deps_completed(g0, c);
                }
            }
            // The results are untouched: completed tasks stay completed and started.
            assert(g1.tasks == g0.tasks);
            assert forall|q: int|
                #![trigger result_keys(results@)[q]]
                0 <= q < results@.len() implies g1.tasks.contains(result_keys(results@)[q])
                    && started@[g1.index_of(result_keys(results@)[q])]
                    && g1.states[g1.index_of(result_keys(results@)[q])] == TaskState::Completed by {
                assert(s0.recorded_at(q));
                let c = g0.index_of(result_keys(results@)[q]);
                assert(st0[c]);
            }
            assert forall|i: int|
                0 <= i < started@.len() && started@[i] && g1.states[i] == TaskState::Completed implies result_keys(
                results@,
            ).contains(#[trigger] g1.tasks[i]) by {
                assert(g0.states[i] == TaskState::Completed);
                if !st0[i] {
                    assert(picked@.contains(i as usize));
                }
                assert(st0[i]);
                assert(g0.tasks[i] == g1.tasks[i]);
            }
            if s0.orderly() {
                let s1 = SchedulerView { graph: g1, started: started@, running: new_running, ..s0 };
                assert forall|i: int|
                    0 <= i < g1.tasks.len() && (#[trigger] g1.states[i] == TaskState::Running || g1.states[i]
                        == TaskState::Completed) implies started@[i] by {
                    if g0.states[i] == TaskState::Ready {
                        assert(picked@.contains(i as usize));
                    } else {
                        assert(g0.states[i] == TaskState::Running || g0.states[i] == TaskState::Completed);
                        assert(st0[i]);
                    }
                }
                assert forall|i: int|
                    0 <= i < g1.tasks.len() && #[trigger] g1.states[i] == TaskState::Running implies deps_completed(g1, i) by {
                    if g0.states[i] == TaskState::Ready {
                        crate::graph::task::lemma_ready_means_deps_completed(g0, i);
                    }
                    assert forall|m: int| 0 <= m < g1.deps[i].len() implies g1.states[#[trigger] g1.deps[i][m] as int]
                        == TaskState::Completed by {
                        assert(g0.states[g0.deps[i][m] as int] == TaskState::Completed);
                    }
                }
                assert forall|p: int| 0 <= p < results@.len() implies #[trigger] deps_listed_before(g1, result_keys(results@), p) by {
                    assert(deps_listed_before(g0, result_keys(results@), p));
                    lemma_deps_listed_same(g0, g1, result_keys(results@), result_keys(results@), p);
                }
                assert(s1.orderly());
            }
        }
        *self = Scheduler {
            graph,
            started,
            concurrency,
            run_mode,
            running: new_running,
            success_count,
            failure_count,
            results,
        };
        out
    }

    /// Record the result of a task that finished, successfully or not. Only a task that this
    /// scheduler started and that is still running is recorded; the answer says whether it was.
    /// Recording it completes it in the graph, which makes ready the tasks it was the last to
    /// hold back, and adds the result to the list.
    pub fn complete(&mut self, result: TaskResult) -> (r: bool)
        ensures
            r == (old(self)@.graph.tasks.contains(result.task_id@) && old(self)@.started[old(self)@.graph.index_of(
                result.task_id@,
            )] && old(self)@.graph.states[old(self)@.graph.index_of(result.task_id@)] == TaskState::Running),
            !r ==> final(self)@ == old(self)@,
            r ==> {
                let k = old(self)@.graph.index_of(result.task_id@);
                &&& final(self)@.graph == old(self)@.graph.completed(k)
                &&& final(self)@.started == old(self)@.started
                &&& final(self)@.running == old(self)@.running - 1
                &&& final(self)@.success_count == old(self)@.success_count + if result.success {
                    1int
                } else {
                    0int
                }
                &&& final(self)@.failure_count == old(self)@.failure_count + if result.success {
                    0int
                } else {
                    1int
                }
                &&& final(self)@.results == old(self)@.results.push(result)
            },
            old(self)@.graph.consistent() ==> final(self)@.graph.consistent(),
            old(self)@.orderly() ==> final(self)@.orderly(),
            final(self)@.concurrency == old(self)@.concurrency,
            final(self)@.run_mode == old(self)@.run_mode,
            final(self)@.inv(),
    {
        proof {
            use_type_invariant(&*self);
        }
        let ghost s0 = self@;
        // `len` also tells that the graph is well formed.
        let _ = self.graph.len();
        let k = match self.graph.find_task(&result.task_id) {
            Some(k) => k,
            None => {
                return false;
            },
        };
        if !self.started[k] {
            return false;
        }
        match self.graph.state(&result.task_id) {
            Some(TaskState::Running) => {},
            _ => {
                return false;
            },
        }
        let mut taken = Scheduler::placeholder();
        core::mem::swap(&mut taken, self);
        let Scheduler {
            mut graph,
            started,
            concurrency,
            run_mode,
            running,
            success_count,
            failure_count,
            mut results,
        } = taken;
        let ghost gv0 = graph@;
        let ghost key = result.task_id@;
        proof {
            lemma_tally_positive(s0.started, gv0.states, TaskState::Running, k as int);
            lemma_tally_bound(s0.started, gv0.states);
        }
        let res = graph.mark_complete(&result.task_id);
        let ghost gv1 = graph@;
        proof {
            assert(res is Ok);
            assert(gv1 == gv0.completed(k as int));
            let st = s0.started;
            assert forall|i: int| 0 <= i < st.len() && i != k implies #[trigger] counted(st, gv1.states, TaskState::Running, i)
                == counted(st, gv0.states, TaskState::Running, i) by {
                if gv0.unblocked_by(k as int, i as usize) {
                    assert(gv0.states[i] == TaskState::Pending);
                }
            }
            lemma_tally_flip(st, gv1.states, st, gv0.states, TaskState::Running, k as int);
            assert forall|i: int| 0 <= i < st.len() && i != k implies #[trigger] counted(st, gv0.states, TaskState::Completed, i)
                == counted(st, gv1.states, TaskState::Completed, i) by {
                if gv0.unblocked_by(k as int, i as usize) {
                    assert(gv0.states[i] == TaskState::Pending);
                }
            }
            lemma_tally_flip(st, gv0.states, st, gv1.states, TaskState::Completed, k as int);
            assert forall|i: int|
                0 <= i < st.len() && #[trigger] st[i] implies gv1.states[i] == TaskState::Running || gv1.states[i]
                == TaskState::Completed by {
                if i != k && gv0.unblocked_by(k as int, i as usize) {
                    assert(gv0.states[i] == TaskState::Pending);
                }
            }
        }
        let success = result.success;
        let ghost old_results = results@;
        results.push(result);
        let (sc, fc) = if success {
            (success_count + 1, failure_count)
        } else {
            (success_count, failure_count + 1)
        };
        proof {
            let ks0 = result_keys(old_results);
            let ks1 = result_keys(results@);
            assert(ks1 =~= ks0.push(key));
            assert(results@.drop_last() =~= old_results);
            assert(gv0.tasks[k as int] == key);
            // A task listed among the results had completed, so it is not the running task `k`.
            assert(!ks0.contains(key)) by {
                if ks0.contains(key) {
                    let q = choose|q: int| 0 <= q < ks0.len() && ks0[q] == key;
                    assert(s0.recorded_at(q));
                    let c = gv0.index_of(key);
                    assert(gv0.tasks[c] == gv0.tasks[k as int]);
                }
            }
            assert forall|q: int|
                #![trigger ks1[q]]
                0 <= q < results@.len() implies gv1.tasks.contains(ks1[q]) && started@[gv1.index_of(ks1[q])]
                    && gv1.states[gv1.index_of(ks1[q])] == TaskState::Completed by {
                if q < old_results.len() {
                    assert(s0.recorded_at(q));
                    assert(ks1[q] == ks0[q]);
                } else {
                    assert(ks1[q] == key);
                    let c = gv0.index_of(key);
                    assert(gv0.tasks[c] == gv0.tasks[k as int]);
                }
            }
            assert forall|i: int|
                0 <= i < started@.len() && started@[i] && gv1.states[i] == TaskState::Completed implies ks1.contains(
                #[trigger] gv1.tasks[i],
            ) by {
                if i == k as int {
                    assert(ks1[ks0.len() as int] == key);
                } else {
                    if gv0.unblocked_by(k as int, i as usize) {
                        assert(gv0.states[i] == TaskState::Pending);
                    }
                    assert(gv0.states[i] == TaskState::Completed);
                    assert(ks0.contains(gv0.tasks[i]));
                    let q = choose|q: int| 0 <= q < ks0.len() && ks0[q] == gv0.tasks[i];
                    assert(ks1[q] == ks0[q]);
                }
            }
            if s0.orderly() {
                assert forall|i: int|
                    0 <= i < gv1.tasks.len() && (#[trigger] gv1.states[i] == TaskState::Running || gv1.states[i]
                        == TaskState::Completed) implies started@[i] by {
                    if i != k as int && gv0.unblocked_by(k as int, i as usize) {
                        assert(gv0.states[i] == TaskState::Pending);
                    }
                }
                assert forall|i: int|
                    0 <= i < gv1.tasks.len() && #[trigger] gv1.states[i] == TaskState::Running implies deps_completed(gv1, i) by {
                    if gv0.unblocked_by(k as int, i as usize) {
                        assert(gv0.states[i] == TaskState::Pending);
                    }
                    assert(gv0.states[i] == TaskState::Running);
                    assert forall|m: int| 0 <= m < gv1.deps[i].len() implies gv1.states[#[trigger] gv1.deps[i][m] as int]
                        == TaskState::Completed by {
                        assert(gv0.states[gv0.deps[i][m] as int] == TaskState::Completed);
                    }
                }
                assert forall|p: int| 0 <= p < results@.len() implies #[trigger] deps_listed_before(gv1, ks1, p) by {
                    if p < old_results.len() {
                        assert(deps_listed_before(gv0, ks0, p));
                        assert forall|q: int| 0 <= q <= p implies #[trigger] ks1[q] == ks0[q] by {}
                        lemma_deps_listed_same(gv0, gv1, ks0, ks1, p);
                    } else {
                        assert(ks1[p] == key);
                        let c = gv1.index_of(key);
                        assert(gv0.tasks[c] == gv0.tasks[k as int]);
                        assert(c == k);
                        assert(deps_completed(gv0, k as int));
                        assert forall|m: int| 0 <= m < gv1.deps[gv1.index_of(ks1[p])].len() implies listed_before(
                            ks1,
                            p,
                            gv1.tasks[#[trigger] gv1.deps[gv1.index_of(ks1[p])][m] as int],
                        ) by {
                            let d = gv0.deps[k as int][m] as int;
                            assert(gv0.deps[k as int][m] < gv0.tasks.len());
                            assert(gv0.states[d] == TaskState::Completed);
                            assert(s0.started[d]);
                            assert(ks0.contains(gv0.tasks[d]));
                            let q = choose|q: int| 0 <= q < ks0.len() && ks0[q] == gv0.tasks[d];
                            assert(ks1[q] == ks0[q]);
                            assert(listed_before(ks1, p, gv1.tasks[gv1.deps[c][m] as int]));
                        }
                    }
                }
            }
        }
        *self = Scheduler {
            graph,
            started,
            concurrency,
            run_mode,
            running: running - 1,
            success_count: sc,
            failure_count: fc,
            results,
        };
        true
    }

    /// Whether no started task is still running.
    pub fn is_idle(&self) -> (r: bool)
        ensures
            r == (self@.running == 0),
    {
        self.running == 0
    }

    /// Whether the run has stopped starting tasks.
    pub fn is_stopped(&self) -> (r: bool)
        ensures
            r == self@.stopped(),
    {
        self.run_mode == RunMode::FailFast && self.failure_count > 0
    }

    /// The task graph with the current state of each task.
    pub fn graph(&self) -> (r: &TaskGraph)
        ensures
            r@ == self@.graph,
    {
        &self.graph
    }

    /// The results recorded so far, in the order the tasks finished.
    pub fn results(&self) -> (r: &Vec<TaskResult>)
        ensures
            r@ == self@.results,
    {
        &self.results
    }

    /// The totals of the run: the tasks that succeeded, that failed, and the rest, skipped;
    /// and the result of each task that ran, once each, in the order they finished.
    pub fn finish(self, total_duration: Duration) -> (r: RunResult)
        ensures
            r.success_count == self@.success_count,
            r.failure_count == self@.failure_count,
            r.success_count + r.failure_count + r.skipped_count == self@.graph.tasks.len(),
            r.task_results@ == self@.results,
            r.task_results.len() == r.success_count + r.failure_count,
            r.success_count == successes(r.task_results@),
            result_keys(r.task_results@).no_duplicates(),
            forall|j: int|
                0 <= j < r.task_results.len() ==> self@.graph.tasks.contains(#[trigger] result_keys(r.task_results@)[j]),
            self@.orderly() ==> forall|p: int|
                0 <= p < r.task_results.len() ==> #[trigger] deps_listed_before(self@.graph, result_keys(r.task_results@), p),
            r.total_duration == total_duration,
    {
        proof {
            use_type_invariant(&self);
            lemma_tally_bound(self@.started, self@.graph.states);
            assert forall|j: int| 0 <= j < self@.results.len() implies self@.graph.tasks.contains(#[trigger] result_keys(self@.results)[j]) by {
                assert(self@.recorded_at(j));
            }
        }
        let total = self.graph.len();
        let Scheduler { success_count, failure_count, results, .. } = self;
        let done = success_count + failure_count;
        RunResult { success_count, failure_count, skipped_count: total - done, task_results: results, total_duration }
    }
}

/// A run that has nothing running and nothing ready to start has completed every task: every
/// task is counted as succeeded or failed, nothing is skipped, and the results list every
/// task once. This holds of an orderly run, as is one begun on a graph just built.
pub proof fn lemma_idle_run_completed_all(s: SchedulerView)
    requires
        s.inv(),
        s.graph.wf(),
        s.orderly(),
        s.running == 0,
        s.graph.ready_prefix(s.graph.tasks.len() as int).len() == 0,
    ensures
        forall|i: int| 0 <= i < s.graph.tasks.len() ==> #[trigger] s.graph.states[i] == TaskState::Completed,
        s.success_count + s.failure_count == s.graph.tasks.len(),
        result_keys(s.results).len() == s.graph.tasks.len(),
        forall|i: int| 0 <= i < s.graph.tasks.len() ==> result_keys(s.results).contains(#[trigger] s.graph.tasks[i]),
{
    let g = s.graph;
    let n = g.tasks.len();
    crate::graph::task::lemma_ready_prefix_empty(g, n as int);
    lemma_tally_zero(s.started, g.states, TaskState::Running);
    assert forall|i: int| 0 <= i < n implies #[trigger] g.states[i] != TaskState::Ready && g.states[i]
        != TaskState::Running by {
        if g.states[i] == TaskState::Running {
            assert(s.started[i]);
            assert(counted(s.started, g.states, TaskState::Running, i));
        }
    }
    crate::graph::task::lemma_idle_means_all_completed(g);
    assert forall|i: int| 0 <= i < s.started.len() implies #[trigger] counted(
        s.started,
        g.states,
        TaskState::Completed,
        i,
    ) by {
        assert(g.states[i] == TaskState::Completed);
        assert(s.started[i]);
    }
    lemma_tally_all(s.started, g.states, TaskState::Completed);
    assert forall|i: int| 0 <= i < n implies result_keys(s.results).contains(#[trigger] g.tasks[i]) by {
        assert(g.states[i] == TaskState::Completed);
        assert(s.started[i]);
    }
}

/// The command of the task `task_id` and the root of its project, to run it in.
pub fn task_command(project_graph: &ProjectGraph, task_id: &TaskId) -> (r: Option<(String, String)>)
    ensures
        r is Some <==> has_name(project_graph@.projects, task_id@.0) && project_graph@.projects[name_index(
            project_graph@.projects,
            task_id@.0,
        )].has_target(task_id@.1),
        r matches Some(cr) ==> {
            let p = project_graph@.projects[name_index(project_graph@.projects, task_id@.0)];
            &&& cr.0@ == p.target_config(task_id@.1).command
            &&& cr.1@ == p.root
        },
{
    match project_graph.get(task_id.project()) {
        Some(project) => match project.target(task_id.target()) {
            Some(target) => Some((target.command().to_owned(), project.root().to_owned())),
            None => None,
        },
        None => None,
    }
}

} // verus!
