//! Verified core of a polyglot monorepo orchestrator: validated names and configurations,
//! project and task dependency graphs, affected-project detection, the scheduling decisions
//! of the task runner, input hashing for the task cache, and scaffolding of `guild.toml` files.

pub mod affected;
pub mod cache;
pub mod commands;
pub mod config;
mod error;
pub mod graph;
pub mod init;
pub mod paths;
pub mod runner;
pub mod text;

pub use affected::{
    AffectedResult, collect_upstream_projects, compute_affected, expand_to_dependents, map_files_to_projects,
};
pub use cache::{Cache, CacheEntry, CacheStats};
pub use commands::{AffectedError, RunnerError};
pub use config::{DependsOn, ProjectConfig, ProjectName, TargetConfig, TargetName, WorkspaceConfig};
pub use error::{ConfigError, GraphError, ParseError, TaskGraphError};
pub use graph::{ProjectGraph, TaskGraph, TaskId, TaskState};
pub use init::{
    DetectedProject, DetectedTarget, InitResult, ProjectType, generate_project_toml, generate_workspace_patterns,
    generate_workspace_toml,
};
pub use runner::{RunMode, RunResult, Scheduler, TaskResult, TaskRunner, task_command};
pub use text::{str_contains, string_eq};
