//! What `guild run` and `guild affected` decide before any task runs: the target, the
//! projects in scope, the project graph over them and the task graph to execute, and how a
//! finished run is summed up. Finding the workspace, reading files and asking git are the
//! caller's part.

use vstd::prelude::*;

use crate::affected::{AffectedResult, collect_upstream_projects, is_upstream, select_projects};
use crate::config::{ProjectConfig, ProjectName, TargetName};
use crate::config::project::ProjectConfigView;
use crate::config::types::{name_rejection, names_view, valid_name};
use crate::error::{ParseErrorView, parse_error_text};
use crate::graph::{ProjectGraph, TaskGraph};
use crate::graph::dag::acyclic;
use crate::graph::project::{ProjectGraphView, all_deps_known, configs_view, has_name, index_projects, project_rel};
use crate::graph::task::{
    TaskGraphView, TaskKey, closure_acyclic, closure_has_missing, in_closure, task_dep,
};
use crate::runner::RunResult;

verus! {

/// Errors of `guild run`.
#[derive(Debug, Clone)]
pub enum RunnerError {
    /// The target, or the project to scope to, is not a valid name.
    InvalidTarget { target: String, reason: String },
    /// No workspace was found from `path`.
    WorkspaceNotFound { path: String, reason: String },
    /// The configuration at `path` could not be loaded.
    ConfigError { path: String, reason: String },
    /// A project or task graph could not be built.
    GraphError { reason: String },
    /// The project to scope to is not a project of the workspace.
    ProjectNotFound { name: String },
}

/// Errors of `guild affected`.
#[derive(Debug, Clone)]
pub enum AffectedError {
    /// `path` is not inside a git repository.
    NotAGitRepo { path: String },
    /// Git failed.
    Git { message: String },
    /// The base branch is neither a local nor an `origin` branch.
    BaseBranchNotFound { branch: String },
    /// The target is not a valid name.
    InvalidTarget { target: String, reason: String },
    /// No workspace was found from `path`.
    WorkspaceNotFound { path: String, reason: String },
    /// The configuration at `path` could not be loaded.
    ConfigError { path: String, reason: String },
    /// A project or task graph could not be built.
    GraphError { reason: String },
}

/// The projects `ps` make a project graph: every dependency is known and none is circular.
pub open spec fn graph_buildable(ps: Seq<ProjectConfigView>) -> bool {
    all_deps_known(ps) && acyclic(project_rel(ps), ps.len())
}

/// Building the tasks of target `t` over the project graph `pg` fails: a local dependency
/// names a missing target, or the tasks depend on each other in a circle.
pub open spec fn tasks_fail(pg: ProjectGraphView, t: Seq<char>) -> bool {
    closure_has_missing(pg, t) || !closure_acyclic(pg, t)
}

/// `g` is the task graph of target `t` over the project graph `pg`, as built and not yet run.
pub open spec fn task_graph_of(g: TaskGraphView, pg: ProjectGraphView, t: Seq<char>) -> bool {
    &&& g.wf()
    &&& forall|k: TaskKey| #[trigger] g.tasks.contains(k) <==> in_closure(pg, t, k)
    &&& forall|i: usize, x: usize|
        i < g.tasks.len() && x < g.tasks.len() ==> (#[trigger] g.deps[i as int].contains(x) <==> task_dep(
            pg,
            g.tasks[i as int],
            g.tasks[x as int],
        ))
    &&& g.initial()
    &&& g.consistent()
}

/// The projects to run when scoped to the project named `start`: it and every project it
/// depends on, in their order in `all`.
pub open spec fn scoped_projects(all: Seq<ProjectConfigView>, start: Seq<char>) -> Seq<ProjectConfigView> {
    all.filter(|p: ProjectConfigView| p.name == start || is_upstream(index_projects(all), start, p.name))
}

/// Building tasks over the projects `ps` fails: they make no project graph, or they do and
/// the tasks of `t` over it cannot be built.
pub open spec fn build_fails(ps: Seq<ProjectConfigView>, t: Seq<char>) -> bool {
    ||| !graph_buildable(index_projects(ps))
    ||| exists|pg: ProjectGraphView| #[trigger] pg.wf() && pg.projects == index_projects(ps) && tasks_fail(pg, t)
}

/// What `guild run` executes: the project graph in scope, and the task graph of the target.
pub struct RunPlan {
    /// The projects in scope.
    pub project_graph: ProjectGraph,
    /// The tasks to run.
    pub task_graph: TaskGraph,
    /// The project the run is scoped to, if any.
    pub scoped_project: Option<ProjectName>,
}

/// Parses the target of `guild run`.
pub fn parse_run_target(target: &str) -> (r: Result<TargetName, RunnerError>)
    ensures
        r is Ok <==> valid_name(target@),
        r matches Ok(t) ==> t@ == target@,
        r matches Err(e) ==> e matches RunnerError::InvalidTarget { target: t, reason } && t@ == target@
            && reason@ == parse_error_text(ParseErrorView::TargetName { value: target@, reason: name_rejection(target@) }),
{
    match TargetName::new(target) {
        Ok(t) => Ok(t),
        Err(e) => Err(RunnerError::InvalidTarget { target: target.to_owned(), reason: e.message() }),
    }
}

/// Parses the target of `guild affected`.
pub fn parse_affected_target(target: &str) -> (r: Result<TargetName, AffectedError>)
    ensures
        r is Ok <==> valid_name(target@),
        r matches Ok(t) ==> t@ == target@,
        r matches Err(e) ==> e matches AffectedError::InvalidTarget { target: t, reason } && t@ == target@
            && reason@ == parse_error_text(ParseErrorView::TargetName { value: target@, reason: name_rejection(target@) }),
{
    match TargetName::new(target) {
        Ok(t) => Ok(t),
        Err(e) => Err(AffectedError::InvalidTarget { target: target.to_owned(), reason: e.message() }),
    }
}

/// A copy of a list of project configurations.
fn clone_configs(v: &Vec<ProjectConfig>) -> (r: Vec<ProjectConfig>)
    ensures
        configs_view(r@) == configs_view(v@),
{
    let mut out: Vec<ProjectConfig> = Vec::new();
    let mut i: usize = 0;
    while i < v.len()
        invariant
            i <= v.len(),
            configs_view(out@) =~= configs_view(v@).take(i as int),
        decreases v.len() - i,
    {
        let ghost old_out = out@;
        out.push(v[i].clone());
        proof {
            assert(configs_view(out@) =~= configs_view(old_out).push(v@[i as int]@));
            assert(configs_view(v@).take(i + 1) =~= configs_view(v@).take(i as int).push(v@[i as int]@));
        }
        i = i + 1;
    }
    proof {
        assert(configs_view(v@).take(v.len() as int) =~= configs_view(v@));
    }
    out
}

/// The task graph of `target` over `graph`, with a failure reported as a graph error of `guild run`.
fn run_tasks(graph: &ProjectGraph, target: &TargetName) -> (r: Result<TaskGraph, RunnerError>)
    ensures
        r matches Ok(g) ==> task_graph_of(g@, graph@, target@),
        r matches Err(e) ==> e is GraphError && graph@.wf() && tasks_fail(graph@, target@),
{
    // `len` also tells that the graph is well formed.
    let _ = graph.len();
    match TaskGraph::build(graph, target) {
        Ok(g) => Ok(g),
        Err(e) => Err(RunnerError::GraphError { reason: e.message() }),
    }
}

/// Decide what `guild run` executes for `target` over the discovered `projects`: nothing when
/// there are no projects; else the graph of all projects, or, scoped to the project named
/// `project`, of it and the projects it depends on, with the task graph of the target.
pub fn plan_run(projects: Vec<ProjectConfig>, target: &TargetName, project: Option<&str>) -> (r: Result<
    Option<RunPlan>,
    RunnerError,
>)
    ensures
        ({
            let all = configs_view(projects@);
            let full = index_projects(all);
            &&& (r matches Ok(None)) <==> all.len() == 0
            &&& all.len() > 0 && !graph_buildable(full) ==> (r matches Err(RunnerError::GraphError { .. }))
            &&& all.len() > 0 && graph_buildable(full) ==> match project {
                None => match r {
                    Ok(Some(plan)) => plan.project_graph@.projects == full && plan.scoped_project is None
                        && task_graph_of(plan.task_graph@, plan.project_graph@, target@),
                    Ok(None) => false,
                    Err(e) => e is GraphError && build_fails(all, target@),
                },
                Some(name) => if !valid_name(name@) {
                    &&& r matches Err(RunnerError::InvalidTarget { target: t, reason })
                    &&& t@ == name@
                    &&& reason@ == parse_error_text(
                        ParseErrorView::ProjectName { value: name@, reason: name_rejection(name@) },
                    )
                } else if !has_name(full, name@) {
                    &&& r matches Err(RunnerError::ProjectNotFound { name: n })
                    &&& n@ == name@
                } else {
                    match r {
                        Ok(Some(plan)) => {
                            &&& plan.project_graph@.projects == index_projects(scoped_projects(all, name@))
                            &&& plan.scoped_project matches Some(s) && s@ == name@
                            &&& task_graph_of(plan.task_graph@, plan.project_graph@, target@)
                        },
                        Ok(None) => false,
                        Err(e) => e is GraphError && build_fails(scoped_projects(all, name@), target@),
                    }
                },
            }
        }),
{
    let ghost all = configs_view(projects@);
    if projects.len() == 0 {
        return Ok(None);
    }
    let full_graph = match ProjectGraph::build(clone_configs(&projects)) {
        Ok(g) => g,
        Err(e) => {
            return Err(RunnerError::GraphError { reason: e.message() });
        },
    };
    match project {
        None => {
            let tasks = run_tasks(&full_graph, target);
            match tasks {
                Ok(task_graph) => Ok(Some(RunPlan { project_graph: full_graph, task_graph, scoped_project: None })),
                Err(e) => {
                    proof {
                        assert(build_fails(all, target@)) by {
                            assert(full_graph@.wf());
                        }
                    }
                    Err(e)
                },
            }
        },
        Some(name) => {
            let pname = match ProjectName::new(name) {
                Ok(n) => n,
                Err(e) => {
                    return Err(RunnerError::InvalidTarget { target: name.to_owned(), reason: e.message() });
                },
            };
            if full_graph.get(&pname).is_none() {
                return Err(RunnerError::ProjectNotFound { name: pname.to_string() });
            }
            let required = collect_upstream_projects(&full_graph, &pname);
            let filtered = select_projects(&projects, &required);
            proof {
                let f1 = |p: ProjectConfigView| names_view(required@).contains(p.name);
                let f2 = |p: ProjectConfigView| p.name == name@ || is_upstream(index_projects(all), name@, p.name);
                assert(f1 =~= f2);
            }
            let scoped_graph = match ProjectGraph::build(filtered) {
                Ok(g) => g,
                Err(e) => {
                    return Err(RunnerError::GraphError { reason: e.message() });
                },
            };
            match run_tasks(&scoped_graph, target) {
                Ok(task_graph) => Ok(
                    Some(RunPlan { project_graph: scoped_graph, task_graph, scoped_project: Some(pname) }),
                ),
                Err(e) => {
                    proof {
                        assert(build_fails(scoped_projects(all, name@), target@)) by {
                            assert(scoped_graph@.wf());
                        }
                    }
                    Err(e)
                },
            }
        },
    }
}

/// What `guild affected` executes: the affected projects, their project graph, and the task
/// graph of the target over it.
pub struct AffectedPlan {
    pub affected: AffectedResult,
    pub project_graph: ProjectGraph,
    pub task_graph: TaskGraph,
}

/// The projects of `all` that `affected` names, in their order.
pub open spec fn affected_projects(all: Seq<ProjectConfigView>, affected: Seq<Seq<char>>) -> Seq<ProjectConfigView> {
    all.filter(|p: ProjectConfigView| affected.contains(p.name))
}

/// The names of the projects `ps`, in order.
pub open spec fn project_names(ps: Seq<ProjectConfigView>) -> Seq<Seq<char>> {
    ps.map_values(|p: ProjectConfigView| p.name)
}

/// Project `p`, depending only on the projects that `names` lists.
pub open spec fn keep_deps(p: ProjectConfigView, names: Seq<Seq<char>>) -> ProjectConfigView {
    ProjectConfigView { depends_on: p.depends_on.filter(|d: Seq<char>| names.contains(d)), ..p }
}

/// The projects `ps`, each depending only on projects among `ps`: a dependency on a project
/// outside them is left out.
pub open spec fn within(ps: Seq<ProjectConfigView>) -> Seq<ProjectConfigView> {
    ps.map_values(|p: ProjectConfigView| keep_deps(p, project_names(ps)))
}

/// Projects that depend only on one another leave no dependency unknown.
pub proof fn lemma_within_deps_known(ps: Seq<ProjectConfigView>)
    ensures
        all_deps_known(index_projects(within(ps))),
{
    broadcast use vstd::seq_lib::group_filter_ensures;
    let w = within(ps);
    let idx = index_projects(w);
    crate::graph::project::lemma_index_projects_members(w);
    assert forall|i: int, d: Seq<char>| 0 <= i < idx.len() && #[trigger] idx[i].depends_on.contains(d) implies has_name(idx, d) by {
        assert(w.contains(idx[i]));
        let j = choose|j: int| 0 <= j < w.len() && w[j] == idx[i];
        let pred = |x: Seq<char>| project_names(ps).contains(x);
        let f = ps[j].depends_on.filter(pred);
        assert(w[j].depends_on == f);
        let m = choose|m: int| 0 <= m < f.len() && f[m] == d;
        assert(pred(f[m]));
        let y = choose|y: int| 0 <= y < project_names(ps).len() && project_names(ps)[y] == d;
        assert(w[y].name == d);
        assert(has_name(w, d));
    }
}

/// The names of the projects `ps`, in order.
fn names_of(ps: &Vec<ProjectConfig>) -> (r: Vec<ProjectName>)
    ensures
        names_view(r@) == project_names(configs_view(ps@)),
{
    let mut out: Vec<ProjectName> = Vec::new();
    let mut i: usize = 0;
    while i < ps.len()
        invariant
            i <= ps.len(),
            names_view(out@) =~= project_names(configs_view(ps@)).take(i as int),
        decreases ps.len() - i,
    {
        let ghost old_out = out@;
        out.push(ps[i].name().clone());
        proof {
            assert(names_view(out@) =~= names_view(old_out).push(ps@[i as int]@.name));
        }
        i = i + 1;
    }
    out
}

/// The projects `ps`, each depending only on projects among them.
fn restrict_to(ps: &Vec<ProjectConfig>) -> (r: Vec<ProjectConfig>)
    ensures
        configs_view(r@) == within(configs_view(ps@)),
{
    let names = names_of(ps);
    let mut out: Vec<ProjectConfig> = Vec::new();
    let mut i: usize = 0;
    while i < ps.len()
        invariant
            i <= ps.len(),
            names_view(names@) == project_names(configs_view(ps@)),
            configs_view(out@) =~= within(configs_view(ps@)).take(i as int),
        decreases ps.len() - i,
    {
        let ghost old_out = out@;
        out.push(ps[i].keep_depends_on(&names));
        proof {
            assert(configs_view(out@) =~= configs_view(old_out).push(within(configs_view(ps@))[i as int]));
        }
        i = i + 1;
    }
    out
}

/// Decide what `guild affected` executes for `target`: nothing when no project is affected;
/// else the graph of the affected projects among `projects`, with the task graph of the
/// target over it. A dependency of an affected project on a project that is not affected is
/// left out: that project is not run.
pub fn plan_affected(projects: &Vec<ProjectConfig>, affected: AffectedResult, target: &TargetName) -> (r: Result<
    Option<AffectedPlan>,
    AffectedError,
>)
    ensures
        ({
            let sel = within(affected_projects(configs_view(projects@), names_view(affected.all@)));
            &&& (r matches Ok(None)) <==> affected.all@.len() == 0
            &&& all_deps_known(index_projects(sel))
            &&& affected.all@.len() > 0 ==> match r {
                Ok(Some(plan)) => {
                    &&& plan.affected == affected
                    &&& plan.project_graph@.projects == index_projects(sel)
                    &&& task_graph_of(plan.task_graph@, plan.project_graph@, target@)
                },
                Ok(None) => false,
                Err(e) => e is GraphError && build_fails(sel, target@),
            }
        }),
{
    proof {
        lemma_within_deps_known(affected_projects(configs_view(projects@), names_view(affected.all@)));
    }
    if affected.all.len() == 0 {
        return Ok(None);
    }
    let filtered = select_projects(projects, &affected.all);
    let inside = restrict_to(&filtered);
    let graph = match ProjectGraph::build(inside) {
        Ok(g) => g,
        Err(e) => {
            return Err(AffectedError::GraphError { reason: e.message() });
        },
    };
    // `len` also tells that the graph is well formed.
    let _ = graph.len();
    match TaskGraph::build(&graph, target) {
        Ok(task_graph) => Ok(Some(AffectedPlan { affected, project_graph: graph, task_graph })),
        Err(e) => {
            proof {
                assert(graph@.wf());
            }
            Err(AffectedError::GraphError { reason: e.message() })
        },
    }
}

/// How a finished run is summed up.
#[derive(Debug, Clone, Copy, PartialEq, Eq, Structural)]
pub enum RunSummary {
    /// No task failed and none ran.
    NothingRan,
    /// Every task that ran succeeded.
    Succeeded { count: usize },
    /// Some task failed; the counts of each outcome.
    Failed { succeeded: usize, failed: usize, skipped: usize },
}

/// Sum up a finished run.
pub fn summarize(result: &RunResult) -> (r: RunSummary)
    ensures
        r == (if result.failure_count == 0 {
            if result.success_count == 0 {
                RunSummary::NothingRan
            } else {
                RunSummary::Succeeded { count: result.success_count }
            }
        } else {
            RunSummary::Failed {
                succeeded: result.success_count,
                failed: result.failure_count,
                skipped: result.skipped_count,
            }
        }),
{
    if result.is_success() {
        if result.success_count == 0 {
            RunSummary::NothingRan
        } else {
            RunSummary::Succeeded { count: result.success_count }
        }
    } else {
        RunSummary::Failed {
            succeeded: result.success_count,
            failed: result.failure_count,
            skipped: result.skipped_count,
        }
    }
}

/// The message for a command that is not implemented yet.
pub fn not_implemented_message(command: &str) -> (r: String)
    ensures
        r@ == "'"@ + command@ + "' is not yet implemented"@,
{
    let mut m = "'".to_owned();
    m.append(command);
    m.append("' is not yet implemented");
    m
}

} // verus!
