use std::time::Duration;

use guild_cli::commands::{
    not_implemented_message, parse_run_target, plan_affected, plan_run, summarize, RunSummary, RunnerError,
};
use guild_cli::config::project::TargetSection;
use guild_cli::{
    compute_affected, task_command, ProjectConfig, ProjectGraph, RunMode, RunResult, TaskId, TaskResult, TaskRunner,
};

fn make_project(name: &str, deps: &[&str], targets: &[(&str, &[&str])]) -> ProjectConfig {
    let sections = targets
        .iter()
        .map(|(t, d)| TargetSection {
            name: t.to_string(),
            command: format!("echo {t}"),
            depends_on: d.iter().map(|s| s.to_string()).collect(),
            inputs: vec![],
            outputs: vec![],
        })
        .collect();
    let deps: Vec<String> = deps.iter().map(|s| s.to_string()).collect();
    ProjectConfig::from_parts(name, vec![], &deps, sections, format!("/tmp/{name}")).unwrap()
}

fn diamond() -> Vec<ProjectConfig> {
    vec![
        make_project("app", &["lib-a", "lib-b"], &[("build", &["^build"])]),
        make_project("lib-a", &["core"], &[("build", &["^build"])]),
        make_project("lib-b", &["core"], &[("build", &["^build"])]),
        make_project("core", &[], &[("build", &[])]),
    ]
}

fn ids(v: &[TaskId]) -> Vec<String> {
    v.iter().map(|t| t.to_string()).collect()
}

fn done(task: &str, success: bool) -> TaskResult {
    TaskResult {
        task_id: task.parse_task(),
        success,
        exit_code: Some(if success { 0 } else { 1 }),
        duration: Duration::ZERO,
    }
}

fn result_ids(r: &RunResult) -> Vec<String> {
    r.task_results.iter().map(|t| t.task_id.to_string()).collect()
}

#[test]
fn runner_settings() {
    let runner = TaskRunner::new(0, "/w".to_string());
    assert_eq!(runner.concurrency(), 1);
    assert_eq!(runner.run_mode(), RunMode::FailFast);
    assert_eq!(runner.working_dir(), "/w");
    let runner = TaskRunner::new(8, "/w".to_string()).with_run_mode(RunMode::Continue);
    assert_eq!(runner.concurrency(), 8);
    assert_eq!(runner.run_mode(), RunMode::Continue);
    assert_eq!(RunMode::default(), RunMode::FailFast);
}

#[test]
fn scheduler_runs_in_dependency_order() {
    let plan = plan_run(diamond(), &"build".parse().unwrap(), None).unwrap().unwrap();
    let runner = TaskRunner::new(4, "/w".to_string());
    let mut s = runner.start(plan.task_graph);
    assert_eq!(ids(&s.next_batch()), vec!["core:build"]);
    assert!(s.next_batch().is_empty());
    assert!(s.complete(done("core:build", true)));
    assert_eq!(ids(&s.next_batch()), vec!["lib-a:build", "lib-b:build"]);
    assert!(s.complete(done("lib-b:build", true)));
    assert!(s.next_batch().is_empty());
    assert!(s.complete(done("lib-a:build", true)));
    assert_eq!(ids(&s.next_batch()), vec!["app:build"]);
    assert!(!s.is_idle());
    assert!(s.complete(done("app:build", true)));
    assert!(s.is_idle());
    assert!(s.graph().all_completed());
    let result = s.finish(Duration::ZERO);
    assert_eq!((result.success_count, result.failure_count, result.skipped_count), (4, 0, 0));
    assert!(result.is_success());
    assert_eq!(result_ids(&result), vec!["core:build", "lib-b:build", "lib-a:build", "app:build"]);
}

#[test]
fn scheduler_respects_concurrency() {
    let projects = vec![
        make_project("a", &[], &[("build", &[])]),
        make_project("b", &[], &[("build", &[])]),
        make_project("c", &[], &[("build", &[])]),
    ];
    let plan = plan_run(projects, &"build".parse().unwrap(), None).unwrap().unwrap();
    let mut s = TaskRunner::new(2, "/w".to_string()).start(plan.task_graph);
    assert_eq!(ids(&s.next_batch()), vec!["a:build", "b:build"]);
    assert!(s.next_batch().is_empty());
    assert!(s.complete(done("b:build", true)));
    assert_eq!(ids(&s.next_batch()), vec!["c:build"]);
}

#[test]
fn fail_fast_stops_starting_tasks() {
    let projects = vec![
        make_project("a", &[], &[("build", &[])]),
        make_project("b", &[], &[("build", &[])]),
        make_project("c", &["a"], &[("build", &["^build"])]),
    ];
    let plan = plan_run(projects, &"build".parse().unwrap(), None).unwrap().unwrap();
    let mut s = TaskRunner::new(1, "/w".to_string()).start(plan.task_graph);
    assert_eq!(ids(&s.next_batch()), vec!["a:build"]);
    assert!(s.complete(done("a:build", false)));
    assert!(s.is_stopped());
    assert!(s.next_batch().is_empty());
    let result = s.finish(Duration::ZERO);
    assert_eq!((result.success_count, result.failure_count, result.skipped_count), (0, 1, 2));
    assert!(!result.is_success());
    assert_eq!(result_ids(&result), vec!["a:build"]);
    assert!(!result.task_results[0].success);
}

#[test]
fn continue_mode_keeps_going() {
    let projects = vec![
        make_project("a", &[], &[("build", &[])]),
        make_project("b", &[], &[("build", &[])]),
    ];
    let plan = plan_run(projects, &"build".parse().unwrap(), None).unwrap().unwrap();
    let runner = TaskRunner::new(1, "/w".to_string()).with_run_mode(RunMode::Continue);
    let mut s = runner.start(plan.task_graph);
    assert_eq!(ids(&s.next_batch()), vec!["a:build"]);
    assert!(s.complete(done("a:build", false)));
    assert!(!s.is_stopped());
    assert_eq!(ids(&s.next_batch()), vec!["b:build"]);
    assert!(s.complete(done("b:build", true)));
    let result = s.finish(Duration::ZERO);
    assert_eq!((result.success_count, result.failure_count, result.skipped_count), (1, 1, 0));
    assert_eq!(result_ids(&result), vec!["a:build", "b:build"]);
}

#[test]
fn completion_of_unstarted_task_is_ignored() {
    let plan = plan_run(diamond(), &"build".parse().unwrap(), None).unwrap().unwrap();
    let mut s = TaskRunner::new(4, "/w".to_string()).start(plan.task_graph);
    assert!(!s.complete(done("app:build", true)));
    assert!(!s.complete(done("nope:build", true)));
    assert_eq!(ids(&s.next_batch()), vec!["core:build"]);
    assert!(s.complete(done("core:build", true)));
    assert!(!s.complete(done("core:build", true)));
    assert_eq!(s.results().len(), 1);
}

#[test]
fn scoped_run_lists_the_project_and_its_dependencies() {
    let projects = vec![
        make_project("my-app", &["my-lib"], &[("build", &["^build"])]),
        make_project("my-lib", &[], &[("build", &[])]),
        make_project("other", &[], &[("build", &[])]),
    ];
    let plan = plan_run(projects, &"build".parse().unwrap(), Some("my-app")).unwrap().unwrap();
    let mut s = TaskRunner::new(4, "/w".to_string()).start(plan.task_graph);
    loop {
        let batch = s.next_batch();
        if batch.is_empty() && s.is_idle() {
            break;
        }
        for t in batch {
            assert!(s.complete(TaskResult { task_id: t, success: true, exit_code: Some(0), duration: Duration::ZERO }));
        }
    }
    let result = s.finish(Duration::ZERO);
    assert_eq!((result.success_count, result.failure_count, result.skipped_count), (2, 0, 0));
    assert_eq!(result_ids(&result), vec!["my-lib:build", "my-app:build"]);
}

#[test]
fn empty_run_result() {
    let result = RunResult {
        success_count: 0,
        failure_count: 0,
        skipped_count: 0,
        task_results: vec![],
        total_duration: Duration::ZERO,
    };
    assert!(result.is_success());
    assert_eq!(summarize(&result), RunSummary::NothingRan);
    let failed = RunResult { success_count: 2, failure_count: 1, skipped_count: 3, ..result.clone() };
    assert_eq!(summarize(&failed), RunSummary::Failed { succeeded: 2, failed: 1, skipped: 3 });
    let ok = RunResult { success_count: 2, ..result };
    assert_eq!(summarize(&ok), RunSummary::Succeeded { count: 2 });
}

#[test]
fn plans_scope_to_upstream_projects() {
    let mut projects = diamond();
    projects.push(make_project("other", &[], &[("build", &[])]));
    let plan = plan_run(projects.clone(), &"build".parse().unwrap(), Some("lib-a")).unwrap().unwrap();
    assert_eq!(plan.project_graph.len(), 2);
    assert_eq!(plan.task_graph.len(), 2);
    assert_eq!(plan.scoped_project.unwrap().as_str(), "lib-a");
    match plan_run(projects.clone(), &"build".parse().unwrap(), Some("ghost")) {
        Err(RunnerError::ProjectNotFound { name }) => assert_eq!(name, "ghost"),
        _ => panic!("expected ProjectNotFound"),
    }
    match plan_run(projects.clone(), &"build".parse().unwrap(), Some("Bad Name")) {
        Err(RunnerError::InvalidTarget { target, .. }) => assert_eq!(target, "Bad Name"),
        _ => panic!("expected InvalidTarget"),
    }
    assert!(plan_run(vec![], &"build".parse().unwrap(), None).unwrap().is_none());
    let bad = vec![make_project("x", &[], &[("build", &["missing"])])];
    assert!(matches!(plan_run(bad, &"build".parse().unwrap(), None), Err(RunnerError::GraphError { .. })));
}

#[test]
fn run_target_must_be_a_name() {
    assert!(parse_run_target("build").is_ok());
    match parse_run_target("") {
        Err(RunnerError::InvalidTarget { target, reason }) => {
            assert_eq!(target, "");
            assert_eq!(reason, "invalid target name '': must not be empty");
        }
        _ => panic!("expected InvalidTarget"),
    }
}

#[test]
fn affected_plan_covers_dependents() {
    let projects = vec![
        make_project("app", &["lib"], &[("build", &["^build"])]),
        make_project("lib", &[], &[("build", &[])]),
        make_project("other", &[], &[("build", &[])]),
    ];
    let graph = ProjectGraph::build(projects.clone()).unwrap();
    let affected = compute_affected(&vec!["/tmp/lib/src.rs".to_string()], &projects, &graph);
    let plan = plan_affected(&projects, affected, &"build".parse().unwrap()).unwrap().unwrap();
    assert_eq!(plan.project_graph.len(), 2);
    assert_eq!(plan.task_graph.len(), 2);
    let none = compute_affected(&vec!["/elsewhere".to_string()], &projects, &graph);
    assert!(plan_affected(&projects, none, &"build".parse().unwrap()).unwrap().is_none());
}

#[test]
fn commands_of_tasks() {
    let graph = ProjectGraph::build(diamond()).unwrap();
    assert_eq!(
        task_command(&graph, &"core:build".parse_task()),
        Some(("echo build".to_string(), "/tmp/core".to_string()))
    );
    assert_eq!(task_command(&graph, &"core:test".parse_task()), None);
    assert_eq!(not_implemented_message("dev"), "'dev' is not yet implemented");
}

trait ParseTask {
    fn parse_task(&self) -> TaskId;
}

impl ParseTask for str {
    fn parse_task(&self) -> TaskId {
        let (p, t) = self.split_once(':').unwrap();
        TaskId::new(p.parse().unwrap(), t.parse().unwrap())
    }
}
