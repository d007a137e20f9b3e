//! The workspace configuration read from the root `guild.toml`.

use vstd::prelude::*;

use crate::config::project::{clone_strings, strings_view};
use crate::error::ConfigError;
use crate::paths::{join_path, joined_path};

verus! {

/// A workspace configuration as plain values.
pub struct WorkspaceConfigView {
    pub name: Seq<char>,
    pub project_patterns: Seq<Seq<char>>,
    pub root: Seq<char>,
}

/// A workspace configuration parsed from the root `guild.toml`.
#[derive(Debug)]
pub struct WorkspaceConfig {
    /// Workspace name.
    name: String,
    /// Glob patterns for discovering project directories.
    project_patterns: Vec<String>,
    /// Path to the workspace root directory.
    root: String,
}

impl View for WorkspaceConfig {
    type V = WorkspaceConfigView;

    closed spec fn view(&self) -> WorkspaceConfigView {
        WorkspaceConfigView {
            name: self.name@,
            project_patterns: strings_view(self.project_patterns@),
            root: self.root@,
        }
    }
}

impl Clone for WorkspaceConfig {
    fn clone(&self) -> (r: Self)
        ensures
            r@ == self@,
    {
        WorkspaceConfig {
            name: self.name.clone(),
            project_patterns: clone_strings(&self.project_patterns),
            root: self.root.clone(),
        }
    }
}

impl WorkspaceConfig {
    /// The workspace read from `[workspace]`: its name and project patterns,
    /// rooted at the directory that holds the file.
    pub fn new(name: String, project_patterns: Vec<String>, root: String) -> (r: Self)
        ensures
            r@ == (WorkspaceConfigView {
                name: name@,
                project_patterns: strings_view(project_patterns@),
                root: root@,
            }),
    {
        WorkspaceConfig { name, project_patterns, root }
    }

    /// The workspace from the fields read from `[workspace]`, rooted at `root`; a field
    /// that is missing makes the file invalid (`name` is looked for first).
    pub fn from_fields(name: Option<String>, projects: Option<Vec<String>>, root: String) -> (r: Result<
        Self,
        ConfigError,
    >)
        ensures
            r is Ok <==> name is Some && projects is Some,
            r matches Ok(w) ==> w@ == (WorkspaceConfigView {
                name: name.unwrap()@,
                project_patterns: strings_view(projects.unwrap()@),
                root: root@,
            }),
            r matches Err(e) ==> e matches ConfigError::ParseToml { path, message } && path@ == joined_path(
                root@,
                "guild.toml"@,
            ) && message@ == if name is None {
                "missing field `name`"@
            } else {
                "missing field `projects`"@
            },
    {
        match (name, projects) {
            (Some(n), Some(p)) => Ok(WorkspaceConfig { name: n, project_patterns: p, root }),
            (None, _) => Err(
                ConfigError::ParseToml {
                    path: join_path(root.as_str(), "guild.toml"),
                    message: "missing field `name`".to_owned(),
                },
            ),
            (Some(_), None) => Err(
                ConfigError::ParseToml {
                    path: join_path(root.as_str(), "guild.toml"),
                    message: "missing field `projects`".to_owned(),
                },
            ),
        }
    }

    pub fn name(&self) -> (r: &str)
        ensures
            r@ == self@.name,
    {
        self.name.as_str()
    }

    pub fn project_patterns(&self) -> (r: &Vec<String>)
        ensures
            strings_view(r@) == self@.project_patterns,
    {
        &self.project_patterns
    }

    pub fn root(&self) -> (r: &str)
        ensures
            r@ == self@.root,
    {
        self.root.as_str()
    }
}

} // verus!
