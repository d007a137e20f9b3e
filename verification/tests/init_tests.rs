use guild_cli::init::{
    confirm_prompt, detect_go_project, detect_node_project, detect_python_project, detect_rust_project,
    generate_project_toml, generate_workspace_patterns, generate_workspace_toml, infer_tags_from_path, init_action,
    init_files, is_affirmative, is_skipped_dir, manifest_kind, sanitize_project_name, DetectedProject,
    DetectedTarget, InitAction, NodeManifest, ProjectType, PythonManifest, RustManifest,
};

fn strings(items: &[&str]) -> Vec<String> {
    items.iter().map(|s| s.to_string()).collect()
}

fn target_names(p: &DetectedProject) -> Vec<String> {
    p.targets.iter().map(|(n, _)| n.clone()).collect()
}

fn project(name: &str, relative_path: &str, absolute_path: &str, project_type: ProjectType) -> DetectedProject {
    DetectedProject {
        name: name.to_string(),
        relative_path: relative_path.to_string(),
        absolute_path: absolute_path.to_string(),
        project_type,
        targets: vec![],
        tags: vec![],
    }
}

#[test]
fn test_generate_workspace_patterns() {
    let projects = vec![
        project("web", "apps/web", "/tmp/apps/web", ProjectType::Node),
        project("core", "libs/core", "/tmp/libs/core", ProjectType::Rust),
    ];

    let patterns = generate_workspace_patterns(&projects);
    assert_eq!(patterns, vec!["apps/*", "libs/*"]);
}

#[test]
fn test_generate_workspace_toml() {
    let toml = generate_workspace_toml("my-monorepo", &vec!["apps/*".to_string(), "libs/*".to_string()]);
    assert!(toml.contains("[workspace]"));
    assert!(toml.contains("name = \"my-monorepo\""));
    assert!(toml.contains("projects = [\"apps/*\", \"libs/*\"]"));
}

#[test]
fn test_generate_project_toml() {
    let targets = vec![(
        "build".to_string(),
        DetectedTarget { command: "npm run build".to_string(), depends_on: vec!["^build".to_string()] },
    )];

    let project = DetectedProject {
        name: "my-app".to_string(),
        relative_path: "apps/my-app".to_string(),
        absolute_path: "/tmp/apps/my-app".to_string(),
        project_type: ProjectType::Node,
        targets,
        tags: vec!["node".to_string(), "app".to_string()],
    };

    let toml = generate_project_toml(&project);
    assert!(toml.contains("[project]"));
    assert!(toml.contains("name = \"my-app\""));
    assert!(toml.contains("tags = [\"node\", \"app\"]"));
    assert!(toml.contains("[targets.build]"));
    assert!(toml.contains("command = \"npm run build\""));
    assert!(toml.contains("depends_on = [\"^build\"]"));
}

#[test]
fn test_sanitize_project_name() {
    assert_eq!(sanitize_project_name("My App"), "my-app");
    assert_eq!(sanitize_project_name("@scope/pkg"), "scope-pkg");
    assert_eq!(sanitize_project_name("my_lib-v2"), "my_lib-v2");
    assert_eq!(sanitize_project_name("UPPERCASE"), "uppercase");
}

#[test]
fn test_detect_node_project() {
    // apps/my-app/package.json: {"name": "@scope/my-app", "scripts": {"build": "tsc", "test": "jest"}}
    let manifest = NodeManifest { name: Some("@scope/my-app".to_string()), scripts: strings(&["build", "test"]) };
    let p = detect_node_project(&manifest, Some("my-app"), "apps/my-app", "/tmp/apps/my-app").unwrap();
    assert_eq!(p.name, "scope-my-app");
    assert_eq!(target_names(&p), vec!["build", "test"]);
    assert_eq!(p.targets[0].1.depends_on, vec!["^build"]);
    assert_eq!(p.targets[1].1.command, "npm run test");
    assert_eq!(p.targets[1].1.depends_on, vec!["build"]);
    assert_eq!(p.tags, vec!["node", "app"]);
}

#[test]
fn test_detect_rust_project() {
    // libs/my-lib/Cargo.toml: [package] name = "my-lib"
    let manifest = RustManifest { package_name: Some("my-lib".to_string()) };
    let p = detect_rust_project(&manifest, "libs/my-lib", "/tmp/libs/my-lib").unwrap();
    assert_eq!(p.name, "my-lib");
    assert_eq!(target_names(&p), vec!["build", "lint", "test"]);
    assert_eq!(p.targets[1].1.command, "cargo clippy -- -D warnings");
    assert_eq!(p.tags, vec!["rust", "lib"]);
}

#[test]
fn test_skip_workspace_only_cargo_toml() {
    // A Cargo.toml with only [workspace] has no package.
    let manifest = RustManifest { package_name: None };
    assert!(detect_rust_project(&manifest, "libs/my-lib", "/tmp/libs/my-lib").is_none());
}

#[test]
fn test_detect_go_project() {
    let content = "module github.com/example/api\n\ngo 1.21\n";
    let p = detect_go_project(content, Some("api"), "services/api", "/tmp/services/api").unwrap();
    assert_eq!(p.name, "api");
    assert_eq!(target_names(&p), vec!["build", "lint", "test"]);
    assert_eq!(p.targets[0].1.command, "go build ./...");
    assert_eq!(p.tags, vec!["go"]);
}

#[test]
fn test_detect_python_project() {
    // packages/my-pkg/pyproject.toml: [project] name = "my-pkg"
    let manifest = PythonManifest { project_name: Some("my-pkg".to_string()), poetry_name: None };
    let p = detect_python_project(&manifest, Some("my-pkg"), "packages/my-pkg", "/tmp/packages/my-pkg").unwrap();
    assert_eq!(p.name, "my-pkg");
    assert_eq!(target_names(&p), vec!["lint", "test"]);
    assert_eq!(p.tags, vec!["python", "lib"]);
}

#[test]
fn manifests_at_the_root_are_not_projects() {
    let manifest = NodeManifest { name: Some("root".to_string()), scripts: vec![] };
    assert!(detect_node_project(&manifest, Some("ws"), "", "/tmp/ws").is_none());
    assert!(detect_go_project("module x\n", None, "", "/tmp").is_none());
}

#[test]
fn node_targets_from_scripts() {
    let manifest = NodeManifest {
        name: None,
        scripts: strings(&["typecheck", "type-check", "start", "dev", "lint", "test"]),
    };
    let p = detect_node_project(&manifest, Some("My Web"), "web", "/tmp/web").unwrap();
    assert_eq!(p.name, "my-web");
    assert_eq!(target_names(&p), vec!["dev", "lint", "start", "test", "typecheck"]);
    assert!(p.targets[3].1.depends_on.is_empty());
    assert_eq!(p.targets[4].1.command, "npm run type-check");
    let unnamed = detect_node_project(&NodeManifest { name: None, scripts: vec![] }, None, "x", "/x").unwrap();
    assert_eq!(unnamed.name, "unnamed");
    assert!(unnamed.targets.is_empty());
}

#[test]
fn go_module_name_edge_cases() {
    let p = detect_go_project("// comment\r\nmodule   example.com/Foo/My-Svc  \r\n", Some("dir"), "svc", "/svc").unwrap();
    assert_eq!(p.name, "my-svc");
    let p = detect_go_project("go 1.21\n", Some("fallback"), "svc", "/svc").unwrap();
    assert_eq!(p.name, "fallback");
}

#[test]
fn python_falls_back_to_poetry_then_directory() {
    let m = PythonManifest { project_name: None, poetry_name: Some("Poetry Pkg".to_string()) };
    assert_eq!(detect_python_project(&m, Some("d"), "p", "/p").unwrap().name, "poetry-pkg");
    let m = PythonManifest { project_name: None, poetry_name: None };
    assert_eq!(detect_python_project(&m, Some("dir_name"), "p", "/p").unwrap().name, "dir_name");
}

#[test]
fn tags_from_path() {
    let mut tags = vec!["x".to_string()];
    infer_tags_from_path("Apps/Web", &mut tags);
    assert_eq!(tags, vec!["x", "app"]);
    let mut tags = vec![];
    infer_tags_from_path("packages/ui", &mut tags);
    assert_eq!(tags, vec!["lib"]);
    let mut tags = vec![];
    infer_tags_from_path("services/api", &mut tags);
    assert!(tags.is_empty());
}

#[test]
fn sanitize_trims_and_drops() {
    assert_eq!(sanitize_project_name("--a.b!c--"), "abc");
    assert_eq!(sanitize_project_name("@@@"), "");
    assert_eq!(sanitize_project_name("Ünïcode Name"), "ncode-name");
}

#[test]
fn patterns_are_sorted_and_distinct() {
    let projects = vec![
        project("b", "libs/b", "/t/libs/b", ProjectType::Rust),
        project("a", "apps/a", "/t/apps/a", ProjectType::Node),
        project("c", "libs/c", "/t/libs/c", ProjectType::Go),
    ];
    assert_eq!(generate_workspace_patterns(&projects), vec!["apps/*", "libs/*"]);
    assert!(generate_workspace_patterns(&vec![]).is_empty());
}

#[test]
fn exact_toml_texts() {
    assert_eq!(
        generate_workspace_toml("ws", &strings(&["apps/*"])),
        "[workspace]\nname = \"ws\"\nprojects = [\"apps/*\"]\n"
    );
    assert_eq!(generate_workspace_toml("ws", &vec![]), "[workspace]\nname = \"ws\"\nprojects = []\n");
    let p = detect_rust_project(&RustManifest { package_name: Some("core".to_string()) }, "libs/core", "/w/libs/core")
        .unwrap();
    assert_eq!(
        generate_project_toml(&p),
        "[project]\nname = \"core\"\ntags = [\"rust\", \"lib\"]\n\n[targets.build]\ncommand = \"cargo build\"\ndepends_on = [\"^build\"]\n\n[targets.lint]\ncommand = \"cargo clippy -- -D warnings\"\n\n[targets.test]\ncommand = \"cargo test\"\ndepends_on = [\"build\"]\n"
    );
}

#[test]
fn init_plan_and_decisions() {
    let p = detect_rust_project(&RustManifest { package_name: Some("core".to_string()) }, "libs/core", "/w/libs/core")
        .unwrap();
    let files = init_files("/w", "ws", &vec![p.clone()]);
    assert_eq!(files.len(), 2);
    assert_eq!(files[0].0, "/w/guild.toml");
    assert_eq!(files[0].1, "[workspace]\nname = \"ws\"\nprojects = [\"libs/*\"]\n");
    assert_eq!(files[1].0, "/w/libs/core/guild.toml");
    assert_eq!(files[1].1, generate_project_toml(&p));
    assert_eq!(init_action(true, true), InitAction::Skip);
    assert_eq!(init_action(false, true), InitAction::Write);
    assert_eq!(init_action(false, false), InitAction::Ask);
}

#[test]
fn confirmation_answers() {
    assert!(is_affirmative("y\n"));
    assert!(is_affirmative("  YES \r\n"));
    assert!(is_affirmative("Yes"));
    assert!(!is_affirmative("no"));
    assert!(!is_affirmative(""));
    assert!(!is_affirmative("yess"));
}

#[test]
fn confirmation_prompt_text() {
    assert_eq!(confirm_prompt("Create x?", "a\nb\n"), "\nCreate x?\n---\n  a\n  b\n---\n[y/n] ");
    assert_eq!(confirm_prompt("Q", "a\r\n\nb"), "\nQ\n---\n  a\n  \n  b\n---\n[y/n] ");
}

#[test]
fn detection_skips_and_kinds() {
    assert!(is_skipped_dir("node_modules"));
    assert!(is_skipped_dir(".venv"));
    assert!(!is_skipped_dir("src"));
    assert_eq!(manifest_kind("Cargo.toml"), Some(ProjectType::Rust));
    assert_eq!(manifest_kind("go.mod"), Some(ProjectType::Go));
    assert_eq!(manifest_kind("README.md"), None);
    assert_eq!(ProjectType::Python.as_str(), "python");
}

#[test]
fn init_result_records_written_and_skipped_files() {
    let mut r = guild_cli::InitResult::new();
    r.record("/w/guild.toml".to_string(), true);
    r.record("/w/app/guild.toml".to_string(), false);
    r.record("/w/lib/guild.toml".to_string(), true);
    assert_eq!(r.written, vec!["/w/guild.toml".to_string(), "/w/lib/guild.toml".to_string()]);
    assert_eq!(r.skipped, vec!["/w/app/guild.toml".to_string()]);
}

#[test]
fn sanitized_names_are_valid_and_stable() {
    for raw in ["  --@Scope/My Pkg!--  ", "A_b-C 9", "---", "x"] {
        let once = sanitize_project_name(raw);
        assert_eq!(sanitize_project_name(&once), once);
        assert!(!once.starts_with('-') && !once.ends_with('-'));
        if !once.is_empty() {
            assert!(once.parse::<guild_cli::ProjectName>().is_ok());
        }
    }
    assert_eq!(sanitize_project_name("---"), "");
}

#[test]
fn project_at_the_root_gives_no_pattern() {
    let projects = vec![
        project("root", "", "/tmp", ProjectType::Rust),
        project("core", "libs/core", "/tmp/libs/core", ProjectType::Rust),
    ];
    assert_eq!(generate_workspace_patterns(&projects), vec!["libs/*".to_string()]);
}

#[test]
fn init_run_skips_existing_files_and_records_each_once() {
    let files = vec![
        ("/w/guild.toml".to_string(), "[workspace]".to_string()),
        ("/w/app/guild.toml".to_string(), "[project]".to_string()),
        ("/w/lib/guild.toml".to_string(), "[project]".to_string()),
    ];
    let mut run = guild_cli::init::InitRun::new(files);
    assert_eq!(run.current(), Some(("/w/guild.toml".to_string(), "[workspace]".to_string())));
    assert!(!run.settle(true, true, false));
    assert!(run.settle(false, true, false));
    assert!(!run.settle(false, false, false));
    assert_eq!(run.current(), None);
    assert!(!run.settle(false, true, true));
    let r = run.finish();
    assert_eq!(r.written, vec!["/w/app/guild.toml".to_string()]);
    assert_eq!(r.skipped, vec!["/w/guild.toml".to_string(), "/w/lib/guild.toml".to_string()]);
}
