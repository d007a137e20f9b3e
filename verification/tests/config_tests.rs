use std::str::FromStr;

use guild_cli::config::project::TargetSection;
use guild_cli::{ConfigError, DependsOn, ParseError, ProjectConfig, ProjectName, TargetName, WorkspaceConfig};

fn strings(items: &[&str]) -> Vec<String> {
    items.iter().map(|s| s.to_string()).collect()
}

fn section(name: &str, command: &str, depends_on: &[&str], inputs: &[&str], outputs: &[&str]) -> TargetSection {
    TargetSection {
        name: name.to_string(),
        command: command.to_string(),
        depends_on: strings(depends_on),
        inputs: strings(inputs),
        outputs: strings(outputs),
    }
}

fn pname(s: &str) -> ProjectName {
    s.parse().unwrap()
}

fn tname(s: &str) -> TargetName {
    s.parse().unwrap()
}

fn dep(s: &str) -> DependsOn {
    s.parse().unwrap()
}

#[test]
fn test_parse_project_config() {
    // [project] name = "my-app", tags = ["app", "typescript"], depends_on = ["shared-lib"]
    // [targets.build] command = "npm run build", depends_on = ["^build"]
    // [targets.test] command = "npm test", depends_on = ["build"]
    // [targets.lint] command = "npm run lint"
    let config = ProjectConfig::from_parts(
        "my-app",
        strings(&["app", "typescript"]),
        &strings(&["shared-lib"]),
        vec![
            section("build", "npm run build", &["^build"], &[], &[]),
            section("test", "npm test", &["build"], &[], &[]),
            section("lint", "npm run lint", &[], &[], &[]),
        ],
        "/tmp/my-app".to_string(),
    )
    .unwrap();
    assert_eq!(config.name().as_str(), "my-app");
    assert_eq!(config.tags(), &["app", "typescript"]);
    assert_eq!(config.depends_on().len(), 1);
    assert_eq!(config.depends_on()[0].as_str(), "shared-lib");
    assert_eq!(config.targets().len(), 3);

    let build = config.target(&"build".parse::<TargetName>().unwrap()).unwrap();
    assert_eq!(build.command(), "npm run build");
    assert_eq!(build.depends_on().len(), 1);
    assert!(build.depends_on()[0].is_upstream());
}

#[test]
fn test_parse_minimal_project() {
    let config = ProjectConfig::from_parts("minimal", vec![], &vec![], vec![], "/tmp/minimal".to_string()).unwrap();
    assert_eq!(config.name().as_str(), "minimal");
    assert!(config.tags().is_empty());
    assert!(config.depends_on().is_empty());
    assert!(config.targets().is_empty());
}

#[test]
fn test_parse_project_invalid_name() {
    assert!(ProjectConfig::from_parts("My App", vec![], &vec![], vec![], "/tmp".to_string()).is_err());
}

#[test]
fn test_target_with_inputs_outputs() {
    let config = ProjectConfig::from_parts(
        "my-app",
        vec![],
        &vec![],
        vec![section(
            "build",
            "cargo build",
            &[],
            &["src/**/*.rs", "Cargo.toml"],
            &["target/release/my-app"],
        )],
        "/tmp/my-app".to_string(),
    )
    .unwrap();
    let build = config.target(&"build".parse::<TargetName>().unwrap()).unwrap();
    assert_eq!(build.inputs(), &["src/**/*.rs", "Cargo.toml"]);
    assert_eq!(build.outputs(), &["target/release/my-app"]);
}

#[test]
fn test_project_name_valid() {
    assert_eq!(pname("my-app").as_str(), "my-app");
    assert_eq!(pname("lib_utils").as_str(), "lib_utils");
    assert_eq!(pname("app123").as_str(), "app123");
}

#[test]
fn test_project_name_empty_rejected() {
    assert!(ProjectName::new("").is_err());
}

#[test]
fn test_project_name_uppercase_rejected() {
    assert!(ProjectName::new("MyApp").is_err());
}

#[test]
fn test_project_name_display_roundtrip() {
    let name = pname("my-app");
    let roundtrip: ProjectName = name.to_string().parse().unwrap();
    assert_eq!(name, roundtrip);
}

#[test]
fn test_target_name_valid() {
    assert_eq!(tname("build").as_str(), "build");
    assert_eq!(tname("test").as_str(), "test");
    assert_eq!(tname("type-check").as_str(), "type-check");
}

#[test]
fn test_target_name_empty_rejected() {
    assert!(TargetName::new("").is_err());
}

#[test]
fn test_target_name_display_roundtrip() {
    let name = tname("build");
    let roundtrip: TargetName = name.to_string().parse().unwrap();
    assert_eq!(name, roundtrip);
}

#[test]
fn test_depends_on_local() {
    let d = dep("build");
    assert!(!d.is_upstream());
    assert_eq!(d.target_name().as_str(), "build");
    assert_eq!(d.to_string(), "build");
}

#[test]
fn test_depends_on_upstream() {
    let d = dep("^build");
    assert!(d.is_upstream());
    assert_eq!(d.target_name().as_str(), "build");
    assert_eq!(d.to_string(), "^build");
}

#[test]
fn test_depends_on_empty_rejected() {
    assert!(DependsOn::from_str("").is_err());
}

#[test]
fn test_depends_on_display_roundtrip() {
    let local = dep("test");
    assert_eq!(local, local.to_string().parse().unwrap());

    let upstream = dep("^build");
    assert_eq!(upstream, upstream.to_string().parse().unwrap());
}

#[test]
fn test_parse_workspace_config() {
    // [workspace] name = "my-monorepo", projects = ["apps/*", "libs/*"]
    let config = WorkspaceConfig::from_fields(
        Some("my-monorepo".to_string()),
        Some(strings(&["apps/*", "libs/*"])),
        "/tmp".to_string(),
    )
    .unwrap();
    assert_eq!(config.name(), "my-monorepo");
    assert_eq!(config.project_patterns(), &["apps/*", "libs/*"]);
    assert_eq!(config.root(), "/tmp");
}

#[test]
fn test_parse_workspace_missing_name() {
    // [workspace] projects = ["apps/*"]
    assert!(WorkspaceConfig::from_fields(None, Some(strings(&["apps/*"])), "/tmp".to_string()).is_err());
}

#[test]
fn test_parse_workspace_missing_projects() {
    // [workspace] name = "test"
    assert!(WorkspaceConfig::from_fields(Some("test".to_string()), None, "/tmp".to_string()).is_err());
}

#[test]
fn workspace_missing_field_names_the_file() {
    match WorkspaceConfig::from_fields(None, None, "/tmp/ws".to_string()) {
        Err(ConfigError::ParseToml { path, message }) => {
            assert_eq!(path, "/tmp/ws/guild.toml");
            assert_eq!(message, "missing field `name`");
        }
        other => panic!("unexpected {:?}", other),
    }
}

#[test]
fn name_rejections_give_reasons() {
    match ProjectName::new("") {
        Err(ParseError::ProjectName { value, reason }) => {
            assert_eq!(value, "");
            assert_eq!(reason, "must not be empty");
        }
        other => panic!("unexpected {:?}", other),
    }
    match TargetName::new("Build") {
        Err(e) => assert_eq!(
            e.message(),
            "invalid target name 'Build': must contain only lowercase alphanumeric characters, hyphens, and underscores"
        ),
        Ok(_) => panic!("accepted an upper-case name"),
    }
    assert!(DependsOn::from_str("^").is_err());
    assert!(DependsOn::from_str("^Build").is_err());
}

#[test]
fn project_config_rejects_bad_dependency_and_target() {
    assert!(ProjectConfig::from_parts("app", vec![], &strings(&["Lib"]), vec![], "/tmp".to_string()).is_err());
    assert!(ProjectConfig::from_parts(
        "app",
        vec![],
        &vec![],
        vec![section("Build", "x", &[], &[], &[])],
        "/tmp".to_string()
    )
    .is_err());
    assert!(ProjectConfig::from_parts(
        "app",
        vec![],
        &vec![],
        vec![section("build", "x", &[""], &[], &[])],
        "/tmp".to_string()
    )
    .is_err());
}

#[test]
fn later_target_section_replaces_earlier() {
    let config = ProjectConfig::from_parts(
        "app",
        vec![],
        &vec![],
        vec![section("build", "first", &[], &[], &[]), section("build", "second", &[], &[], &[])],
        "/tmp/app".to_string(),
    )
    .unwrap();
    assert_eq!(config.targets().len(), 1);
    assert_eq!(config.target(&tname("build")).unwrap().command(), "second");
    assert!(config.has_target(&tname("build")));
    assert!(!config.has_target(&tname("test")));
    assert_eq!(config.root(), "/tmp/app");
}

#[test]
fn config_error_messages() {
    let e = ConfigError::ReadFile { path: "/x/guild.toml".to_string(), message: "denied".to_string() };
    assert_eq!(e.message(), "failed to read '/x/guild.toml': denied");
    let e = ConfigError::WorkspaceNotFound { path: "/x".to_string() };
    assert_eq!(e.message(), "no guild.toml found in '/x' or any parent directory");
}
