use guild_cli::affected::changed_paths;
use guild_cli::config::project::TargetSection;
use guild_cli::{
    collect_upstream_projects, compute_affected, expand_to_dependents, map_files_to_projects, ProjectConfig,
    ProjectGraph, ProjectName,
};

fn make_project(name: &str, root: &str, deps: &[&str]) -> ProjectConfig {
    let deps: Vec<String> = deps.iter().map(|d| d.to_string()).collect();
    let build = TargetSection {
        name: "build".to_string(),
        command: "echo build".to_string(),
        depends_on: vec![],
        inputs: vec![],
        outputs: vec![],
    };
    ProjectConfig::from_parts(name, vec![], &deps, vec![build], root.to_string()).unwrap()
}

fn names(v: &[&str]) -> Vec<ProjectName> {
    v.iter().map(|s| s.parse().unwrap()).collect()
}

fn files(v: &[&str]) -> Vec<String> {
    v.iter().map(|s| s.to_string()).collect()
}

#[test]
fn test_map_files_to_projects() {
    let projects = vec![
        make_project("app", "/workspace/apps/app", &[]),
        make_project("lib", "/workspace/libs/lib", &[]),
    ];

    let changed_files = files(&[
        "/workspace/apps/app/src/main.rs",
        "/workspace/libs/lib/src/lib.rs",
        "/workspace/README.md",
    ]);

    let affected = map_files_to_projects(&changed_files, &projects);

    assert_eq!(affected.len(), 2);
    assert!(affected.contains(&"app".parse().unwrap()));
    assert!(affected.contains(&"lib".parse().unwrap()));
}

#[test]
fn test_map_files_single_project() {
    let projects = vec![
        make_project("app", "/workspace/apps/app", &[]),
        make_project("lib", "/workspace/libs/lib", &[]),
    ];

    let changed_files = files(&["/workspace/apps/app/src/main.rs"]);

    let affected = map_files_to_projects(&changed_files, &projects);

    assert_eq!(affected.len(), 1);
    assert!(affected.contains(&"app".parse().unwrap()));
}

#[test]
fn test_map_files_no_projects() {
    let projects = vec![
        make_project("app", "/workspace/apps/app", &[]),
        make_project("lib", "/workspace/libs/lib", &[]),
    ];

    let changed_files = files(&["/workspace/README.md"]);

    let affected = map_files_to_projects(&changed_files, &projects);

    assert!(affected.is_empty());
}

#[test]
fn test_expand_to_dependents() {
    let projects = vec![
        make_project("app", "/workspace/apps/app", &["lib"]),
        make_project("lib", "/workspace/libs/lib", &[]),
    ];
    let graph = ProjectGraph::build(projects).unwrap();

    let changed = names(&["lib"]);
    let dependents = expand_to_dependents(&changed, &graph);

    assert_eq!(dependents.len(), 1);
    assert!(dependents.contains(&"app".parse().unwrap()));
}

#[test]
fn test_expand_to_dependents_transitive() {
    let projects = vec![
        make_project("app", "/workspace/apps/app", &["lib-a"]),
        make_project("lib-a", "/workspace/libs/lib-a", &["core"]),
        make_project("core", "/workspace/libs/core", &[]),
    ];
    let graph = ProjectGraph::build(projects).unwrap();

    let changed = names(&["core"]);
    let dependents = expand_to_dependents(&changed, &graph);

    assert_eq!(dependents.len(), 2);
    assert!(dependents.contains(&"lib-a".parse().unwrap()));
    assert!(dependents.contains(&"app".parse().unwrap()));
}

#[test]
fn test_expand_to_dependents_diamond() {
    let projects = vec![
        make_project("app", "/workspace/apps/app", &["lib-a", "lib-b"]),
        make_project("lib-a", "/workspace/libs/lib-a", &["core"]),
        make_project("lib-b", "/workspace/libs/lib-b", &["core"]),
        make_project("core", "/workspace/libs/core", &[]),
    ];
    let graph = ProjectGraph::build(projects).unwrap();

    let changed = names(&["core"]);
    let dependents = expand_to_dependents(&changed, &graph);

    assert_eq!(dependents.len(), 3);
    assert!(dependents.contains(&"lib-a".parse().unwrap()));
    assert!(dependents.contains(&"lib-b".parse().unwrap()));
    assert!(dependents.contains(&"app".parse().unwrap()));
}

#[test]
fn test_expand_no_dependents() {
    let projects = vec![
        make_project("app", "/workspace/apps/app", &["lib"]),
        make_project("lib", "/workspace/libs/lib", &[]),
    ];
    let graph = ProjectGraph::build(projects).unwrap();

    let changed = names(&["app"]);
    let dependents = expand_to_dependents(&changed, &graph);

    assert!(dependents.is_empty());
}

#[test]
fn test_compute_affected() {
    let projects = vec![
        make_project("app", "/workspace/apps/app", &["lib"]),
        make_project("lib", "/workspace/libs/lib", &[]),
    ];
    let graph = ProjectGraph::build(projects.clone()).unwrap();

    let changed_files = files(&["/workspace/libs/lib/src/lib.rs"]);

    let result = compute_affected(&changed_files, &projects, &graph);

    assert_eq!(result.changed.len(), 1);
    assert!(result.changed.contains(&"lib".parse().unwrap()));

    assert_eq!(result.dependents.len(), 1);
    assert!(result.dependents.contains(&"app".parse().unwrap()));

    assert_eq!(result.all.len(), 2);
    assert!(result.all.contains(&"lib".parse().unwrap()));
    assert!(result.all.contains(&"app".parse().unwrap()));
}

#[test]
fn files_match_whole_path_components_only() {
    let projects = vec![make_project("app", "/workspace/apps/app", &[])];
    let affected = map_files_to_projects(&files(&["/workspace/apps/application/main.rs"]), &projects);
    assert!(affected.is_empty());
    let affected = map_files_to_projects(&files(&["/workspace/apps/app"]), &projects);
    assert_eq!(affected, names(&["app"]));
}

#[test]
fn file_goes_to_every_project_holding_it_and_names_are_not_repeated() {
    let projects = vec![
        make_project("outer", "/workspace/apps", &[]),
        make_project("inner", "/workspace/apps/inner", &[]),
        make_project("other", "/workspace/other", &[]),
    ];
    let affected = map_files_to_projects(
        &files(&["/workspace/apps/inner/a.rs", "/workspace/apps/inner/b.rs"]),
        &projects,
    );
    assert_eq!(affected, names(&["outer", "inner"]));
    let affected = map_files_to_projects(&files(&["/workspace/apps/top.rs"]), &projects);
    assert_eq!(affected, names(&["outer"]));
}

#[test]
fn changed_projects_are_not_their_own_dependents() {
    let projects = vec![
        make_project("app", "/w/app", &["lib"]),
        make_project("lib", "/w/lib", &["core"]),
        make_project("core", "/w/core", &[]),
    ];
    let graph = ProjectGraph::build(projects.clone()).unwrap();
    let dependents = expand_to_dependents(&names(&["core", "lib"]), &graph);
    assert_eq!(dependents, names(&["app"]));
    let result = compute_affected(&files(&["/w/core/x", "/w/lib/y"]), &projects, &graph);
    assert_eq!(result.all.len(), 3);
    assert!(expand_to_dependents(&names(&["unknown"]), &graph).is_empty());
}

#[test]
fn upstream_projects_of_a_project() {
    let projects = vec![
        make_project("app", "/w/app", &["lib-a", "lib-b"]),
        make_project("lib-a", "/w/lib-a", &["core"]),
        make_project("lib-b", "/w/lib-b", &[]),
        make_project("core", "/w/core", &[]),
        make_project("other", "/w/other", &[]),
    ];
    let graph = ProjectGraph::build(projects).unwrap();
    let mut up: Vec<String> =
        collect_upstream_projects(&graph, &"lib-a".parse().unwrap()).iter().map(|n| n.to_string()).collect();
    up.sort();
    assert_eq!(up, vec!["core".to_string(), "lib-a".to_string()]);
    assert_eq!(collect_upstream_projects(&graph, &"app".parse().unwrap()).len(), 4);
    assert_eq!(collect_upstream_projects(&graph, &"ghost".parse().unwrap()), names(&["ghost"]));
}

#[test]
fn changed_paths_join_and_deduplicate() {
    let paths = changed_paths("/repo", &files(&["a/b.rs", "c.rs", "a/b.rs"]));
    assert_eq!(paths, files(&["/repo/a/b.rs", "/repo/c.rs"]));
}

#[test]
fn affected_project_runs_without_its_unaffected_dependency() {
    let projects = vec![
        make_project("my-app", "/workspace/my-app", &["my-lib"]),
        make_project("my-lib", "/workspace/my-lib", &[]),
    ];
    let graph = ProjectGraph::build(projects.clone()).unwrap();
    let changed_files = files(&["/workspace/my-app/src/main.rs"]);
    let affected = compute_affected(&changed_files, &projects, &graph);
    assert_eq!(affected.all, names(&["my-app"]));

    let target: guild_cli::TargetName = "build".parse().unwrap();
    let plan = guild_cli::commands::plan_affected(&projects, affected, &target).unwrap().unwrap();
    assert_eq!(plan.project_graph.len(), 1);
    assert_eq!(plan.task_graph.len(), 1);
    let only = &plan.task_graph.tasks()[0];
    assert_eq!(only.project().as_str(), "my-app");
    assert_eq!(only.target().as_str(), "build");
    assert_eq!(plan.project_graph.dependencies(&"my-app".parse().unwrap()).unwrap(), Vec::<ProjectName>::new());
}
