use guild_cli::config::project::TargetSection;
use guild_cli::{ProjectConfig, ProjectGraph, ProjectName, TargetName, TaskGraph, TaskGraphError, TaskId, TaskState};

fn strings(items: &[&str]) -> Vec<String> {
    items.iter().map(|s| s.to_string()).collect()
}

/// A project with an `echo` command for each target.
fn make_project(name: &str, deps: &[&str], targets: &[(&str, &[&str])]) -> ProjectConfig {
    let sections = targets
        .iter()
        .map(|(target_name, target_deps)| TargetSection {
            name: target_name.to_string(),
            command: format!("echo {target_name}"),
            depends_on: strings(target_deps),
            inputs: vec![],
            outputs: vec![],
        })
        .collect();
    ProjectConfig::from_parts(name, vec![], &strings(deps), sections, format!("/tmp/{name}")).unwrap()
}

/// A project with a single `build` target.
fn make_simple_project(name: &str, deps: &[&str]) -> ProjectConfig {
    make_project(name, deps, &[("build", &[])])
}

fn tname(s: &str) -> TargetName {
    s.parse().unwrap()
}

fn pname(s: &str) -> ProjectName {
    s.parse().unwrap()
}

#[test]
fn test_build_simple_graph() {
    let projects = vec![make_simple_project("app", &["lib"]), make_simple_project("lib", &[])];
    let graph = ProjectGraph::build(projects).unwrap();
    assert_eq!(graph.len(), 2);
}

#[test]
fn test_topological_order() {
    let projects = vec![make_simple_project("app", &["lib"]), make_simple_project("lib", &[])];
    let graph = ProjectGraph::build(projects).unwrap();
    let order = graph.topological_order().unwrap();
    let names: Vec<&str> = order.iter().map(|n| n.as_str()).collect();
    let lib_idx = names.iter().position(|&n| n == "lib").unwrap();
    let app_idx = names.iter().position(|&n| n == "app").unwrap();
    assert!(lib_idx < app_idx);
}

#[test]
fn test_cycle_detection() {
    let projects = vec![make_simple_project("a", &["b"]), make_simple_project("b", &["a"])];
    assert!(ProjectGraph::build(projects).is_err());
}

#[test]
fn test_unknown_dependency() {
    let projects = vec![make_simple_project("app", &["nonexistent"])];
    assert!(ProjectGraph::build(projects).is_err());
}

#[test]
fn project_test_empty_graph() {
    let graph = ProjectGraph::build(vec![]).unwrap();
    assert!(graph.is_empty());
}

#[test]
fn project_test_diamond_dependency() {
    let projects = vec![
        make_simple_project("app", &["lib-a", "lib-b"]),
        make_simple_project("lib-a", &["core"]),
        make_simple_project("lib-b", &["core"]),
        make_simple_project("core", &[]),
    ];
    let graph = ProjectGraph::build(projects).unwrap();
    let order = graph.topological_order().unwrap();
    let names: Vec<&str> = order.iter().map(|n| n.as_str()).collect();
    let core_idx = names.iter().position(|&n| n == "core").unwrap();
    let app_idx = names.iter().position(|&n| n == "app").unwrap();
    assert!(core_idx < app_idx);
}

#[test]
fn test_build_simple_task_graph() {
    let projects = vec![make_project("app", &[], &[("build", &[])]), make_project("lib", &[], &[("build", &[])])];
    let project_graph = ProjectGraph::build(projects).unwrap();
    let task_graph = TaskGraph::build(&project_graph, &tname("build")).unwrap();

    assert_eq!(task_graph.len(), 2);
}

#[test]
fn test_local_dependency_resolution() {
    let projects = vec![make_project("app", &[], &[("build", &[]), ("test", &["build"])])];
    let project_graph = ProjectGraph::build(projects).unwrap();
    let task_graph = TaskGraph::build(&project_graph, &tname("test")).unwrap();

    assert_eq!(task_graph.len(), 2);

    let test_task = TaskId::new(pname("app"), tname("test"));
    let build_task = TaskId::new(pname("app"), tname("build"));

    let deps = task_graph.dependencies_of(&test_task).unwrap();
    assert!(deps.contains(&build_task));
}

#[test]
fn test_upstream_dependency_resolution() {
    let projects = vec![
        make_project("app", &["lib"], &[("build", &["^build"])]),
        make_project("lib", &[], &[("build", &[])]),
    ];
    let project_graph = ProjectGraph::build(projects).unwrap();
    let task_graph = TaskGraph::build(&project_graph, &tname("build")).unwrap();

    assert_eq!(task_graph.len(), 2);

    let app_build = TaskId::new(pname("app"), tname("build"));
    let lib_build = TaskId::new(pname("lib"), tname("build"));

    let deps = task_graph.dependencies_of(&app_build).unwrap();
    assert!(deps.contains(&lib_build));
}

#[test]
fn test_upstream_fans_out_to_all_deps() {
    let projects = vec![
        make_project("app", &["lib-a", "lib-b"], &[("build", &["^build"])]),
        make_project("lib-a", &[], &[("build", &[])]),
        make_project("lib-b", &[], &[("build", &[])]),
    ];
    let project_graph = ProjectGraph::build(projects).unwrap();
    let task_graph = TaskGraph::build(&project_graph, &tname("build")).unwrap();

    assert_eq!(task_graph.len(), 3);

    let app_build = TaskId::new(pname("app"), tname("build"));
    let lib_a_build = TaskId::new(pname("lib-a"), tname("build"));
    let lib_b_build = TaskId::new(pname("lib-b"), tname("build"));

    let deps = task_graph.dependencies_of(&app_build).unwrap();
    assert!(deps.contains(&lib_a_build));
    assert!(deps.contains(&lib_b_build));
}

#[test]
fn test_ready_tasks_initial() {
    let projects = vec![
        make_project("app", &["lib"], &[("build", &["^build"])]),
        make_project("lib", &[], &[("build", &[])]),
    ];
    let project_graph = ProjectGraph::build(projects).unwrap();
    let task_graph = TaskGraph::build(&project_graph, &tname("build")).unwrap();

    let ready = task_graph.ready_tasks();
    assert_eq!(ready.len(), 1);
    assert_eq!(ready[0].project().as_str(), "lib");
    assert_eq!(ready[0].target().as_str(), "build");
}

#[test]
fn test_mark_complete_unblocks_dependents() {
    let projects = vec![
        make_project("app", &["lib"], &[("build", &["^build"])]),
        make_project("lib", &[], &[("build", &[])]),
    ];
    let project_graph = ProjectGraph::build(projects).unwrap();
    let mut task_graph = TaskGraph::build(&project_graph, &tname("build")).unwrap();

    let lib_build = TaskId::new(pname("lib"), tname("build"));
    let app_build = TaskId::new(pname("app"), tname("build"));

    assert_eq!(task_graph.state(&lib_build), Some(TaskState::Ready));
    assert_eq!(task_graph.state(&app_build), Some(TaskState::Pending));

    let newly_ready = task_graph.mark_complete(&lib_build).unwrap();

    assert_eq!(newly_ready.len(), 1);
    assert_eq!(newly_ready[0], app_build);
    assert_eq!(task_graph.state(&app_build), Some(TaskState::Ready));
}

#[test]
fn test_cycle_detection_at_target_level() {
    let projects = vec![make_project("app", &[], &[("build", &["test"]), ("test", &["build"])])];
    let project_graph = ProjectGraph::build(projects).unwrap();
    let result = TaskGraph::build(&project_graph, &tname("build"));

    assert!(result.is_err());
    match result.unwrap_err() {
        TaskGraphError::CycleDetected { .. } => {}
        e => panic!("Expected CycleDetected error, got {:?}", e),
    }
}

#[test]
fn test_unknown_local_target_error() {
    let projects = vec![make_project("app", &[], &[("build", &["nonexistent"])])];
    let project_graph = ProjectGraph::build(projects).unwrap();
    let result = TaskGraph::build(&project_graph, &tname("build"));

    assert!(result.is_err());
    match result.unwrap_err() {
        TaskGraphError::UnknownTarget { target, .. } => {
            assert_eq!(target, "nonexistent");
        }
        e => panic!("Expected UnknownTarget error, got {:?}", e),
    }
}

#[test]
fn test_empty_graph_when_no_projects_have_target() {
    let projects = vec![make_project("app", &[], &[("lint", &[])])];
    let project_graph = ProjectGraph::build(projects).unwrap();
    let task_graph = TaskGraph::build(&project_graph, &tname("build")).unwrap();

    assert!(task_graph.is_empty());
}

#[test]
fn test_all_completed() {
    let projects = vec![make_project("app", &[], &[("build", &[])])];
    let project_graph = ProjectGraph::build(projects).unwrap();
    let mut task_graph = TaskGraph::build(&project_graph, &tname("build")).unwrap();

    assert!(!task_graph.all_completed());

    let app_build = TaskId::new(pname("app"), tname("build"));
    task_graph.mark_complete(&app_build).unwrap();

    assert!(task_graph.all_completed());
}

#[test]
fn test_mark_running() {
    let projects = vec![make_project("app", &[], &[("build", &[])])];
    let project_graph = ProjectGraph::build(projects).unwrap();
    let mut task_graph = TaskGraph::build(&project_graph, &tname("build")).unwrap();

    let app_build = TaskId::new(pname("app"), tname("build"));
    task_graph.mark_running(&app_build).unwrap();

    assert_eq!(task_graph.state(&app_build), Some(TaskState::Running));
}

#[test]
fn test_task_not_found_error() {
    let projects = vec![make_project("app", &[], &[("build", &[])])];
    let project_graph = ProjectGraph::build(projects).unwrap();
    let mut task_graph = TaskGraph::build(&project_graph, &tname("build")).unwrap();

    let nonexistent = TaskId::new(pname("app"), tname("nonexistent"));
    let result = task_graph.mark_complete(&nonexistent);

    assert!(result.is_err());
    match result.unwrap_err() {
        TaskGraphError::TaskNotFound { .. } => {}
        e => panic!("Expected TaskNotFound error, got {:?}", e),
    }
}

#[test]
fn task_test_diamond_dependency() {
    let projects = vec![
        make_project("app", &["lib-a", "lib-b"], &[("build", &["^build"])]),
        make_project("lib-a", &["core"], &[("build", &["^build"])]),
        make_project("lib-b", &["core"], &[("build", &["^build"])]),
        make_project("core", &[], &[("build", &[])]),
    ];
    let project_graph = ProjectGraph::build(projects).unwrap();
    let mut task_graph = TaskGraph::build(&project_graph, &tname("build")).unwrap();

    assert_eq!(task_graph.len(), 4);

    let ready = task_graph.ready_tasks();
    assert_eq!(ready.len(), 1);
    assert_eq!(ready[0].project().as_str(), "core");

    let core_build = TaskId::new(pname("core"), tname("build"));
    let newly_ready = task_graph.mark_complete(&core_build).unwrap();
    assert_eq!(newly_ready.len(), 2);

    let lib_a_build = TaskId::new(pname("lib-a"), tname("build"));
    let lib_b_build = TaskId::new(pname("lib-b"), tname("build"));
    task_graph.mark_complete(&lib_a_build).unwrap();
    let newly_ready = task_graph.mark_complete(&lib_b_build).unwrap();

    assert_eq!(newly_ready.len(), 1);
    assert_eq!(newly_ready[0].project().as_str(), "app");
}

#[test]
fn test_task_id_display() {
    let task = TaskId::new(pname("my-app"), tname("build"));
    assert_eq!(task.to_string(), "my-app:build");
}

#[test]
fn graph_lookups() {
    let projects = vec![make_simple_project("app", &["lib"]), make_simple_project("lib", &[])];
    let graph = ProjectGraph::build(projects).unwrap();
    assert_eq!(graph.get(&pname("lib")).unwrap().name().as_str(), "lib");
    assert!(graph.get(&pname("missing")).is_none());
    let deps = graph.dependencies(&pname("app")).unwrap();
    assert_eq!(deps.len(), 1);
    assert_eq!(deps[0].as_str(), "lib");
    assert!(graph.dependencies(&pname("lib")).unwrap().is_empty());
    let names: Vec<String> = graph.project_names().iter().map(|n| n.to_string()).collect();
    assert_eq!(names, vec!["app".to_string(), "lib".to_string()]);
}

#[test]
fn later_project_with_same_name_replaces_earlier() {
    let projects = vec![make_simple_project("app", &["lib"]), make_simple_project("lib", &[]), make_simple_project("app", &[])];
    let graph = ProjectGraph::build(projects).unwrap();
    assert_eq!(graph.len(), 2);
    assert!(graph.dependencies(&pname("app")).unwrap().is_empty());
}

#[test]
fn graph_error_texts() {
    match ProjectGraph::build(vec![make_simple_project("app", &["ghost"])]) {
        Err(e) => assert_eq!(e.message(), "unknown project 'ghost' referenced in depends_on of 'app'"),
        Ok(_) => panic!("accepted an unknown dependency"),
    }
    match ProjectGraph::build(vec![make_simple_project("a", &["a"])]) {
        Err(e) => assert_eq!(e.message(), "cycle detected in project dependencies: a"),
        Ok(_) => panic!("accepted a cycle"),
    }
}

#[test]
fn marking_tasks_keeps_states() {
    let projects = vec![
        make_project("app", &["lib"], &[("build", &["^build"]), ("test", &["build"])]),
        make_project("lib", &[], &[("build", &[])]),
    ];
    let project_graph = ProjectGraph::build(projects).unwrap();
    let mut task_graph = TaskGraph::build(&project_graph, &tname("test")).unwrap();
    assert_eq!(task_graph.len(), 3);
    let lib_build = TaskId::new(pname("lib"), tname("build"));
    let app_build = TaskId::new(pname("app"), tname("build"));
    let app_test = TaskId::new(pname("app"), tname("test"));
    assert_eq!(task_graph.state(&app_test), Some(TaskState::Pending));
    task_graph.mark_running(&lib_build).unwrap();
    assert!(task_graph.ready_tasks().is_empty());
    assert_eq!(task_graph.mark_complete(&lib_build).unwrap(), vec![app_build.clone()]);
    assert_eq!(task_graph.mark_complete(&app_build).unwrap(), vec![app_test.clone()]);
    assert!(!task_graph.all_completed());
    task_graph.mark_complete(&app_test).unwrap();
    assert!(task_graph.all_completed());
    assert!(task_graph.state(&TaskId::new(pname("app"), tname("lint"))).is_none());
    assert!(task_graph.mark_running(&TaskId::new(pname("x"), tname("y"))).is_err());
}

#[test]
fn completing_a_task_twice_changes_nothing() {
    let projects = vec![
        make_project("app", &["lib-a", "lib-b"], &[("build", &["^build"])]),
        make_project("lib-a", &[], &[("build", &[])]),
        make_project("lib-b", &[], &[("build", &[])]),
    ];
    let project_graph = ProjectGraph::build(projects).unwrap();
    let mut task_graph = TaskGraph::build(&project_graph, &tname("build")).unwrap();
    let lib_a = TaskId::new(pname("lib-a"), tname("build"));
    let app = TaskId::new(pname("app"), tname("build"));

    assert!(task_graph.mark_complete(&lib_a).unwrap().is_empty());
    assert_eq!(task_graph.state(&app), Some(TaskState::Pending));
    assert!(task_graph.mark_complete(&lib_a).unwrap().is_empty());
    assert_eq!(task_graph.state(&app), Some(TaskState::Pending));
    assert_eq!(task_graph.state(&lib_a), Some(TaskState::Completed));
}
