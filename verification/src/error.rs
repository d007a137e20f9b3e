//! Error types of the library, each with a view over plain values and a
//! `message` method that renders it as text.

use vstd::prelude::*;

verus! {

/// What went wrong when a configuration value was parsed into a domain type.
#[derive(Debug, Clone, PartialEq, Eq)]
pub enum ParseError {
    /// An invalid project name.
    ProjectName { value: String, reason: String },
    /// An invalid target name.
    TargetName { value: String, reason: String },
    /// An invalid entry of a target's `depends_on` list.
    DependsOn { value: String, reason: String },
}

/// A `ParseError` with its strings taken as character sequences.
pub enum ParseErrorView {
    ProjectName { value: Seq<char>, reason: Seq<char> },
    TargetName { value: Seq<char>, reason: Seq<char> },
    DependsOn { value: Seq<char>, reason: Seq<char> },
}

impl View for ParseError {
    type V = ParseErrorView;

    open spec fn view(&self) -> ParseErrorView {
        match self {
            ParseError::ProjectName { value, reason } => ParseErrorView::ProjectName {
                value: value@,
                reason: reason@,
            },
            ParseError::TargetName { value, reason } => ParseErrorView::TargetName {
                value: value@,
                reason: reason@,
            },
            ParseError::DependsOn { value, reason } => ParseErrorView::DependsOn {
                value: value@,
                reason: reason@,
            },
        }
    }
}

/// Builds `a + b + c` as one string.
fn join3(a: &str, b: &str, c: &str) -> (r: String)
    ensures
        r@ == a@ + b@ + c@,
{
    let mut s = a.to_owned();
    s.append(b);
    s.append(c);
    s
}

/// Builds `a + b + c + d` as one string.
fn join4(a: &str, b: &str, c: &str, d: &str) -> (r: String)
    ensures
        r@ == a@ + b@ + c@ + d@,
{
    let mut s = join3(a, b, c);
    s.append(d);
    s
}

/// Builds `a + b + c + d + e` as one string.
fn join5(a: &str, b: &str, c: &str, d: &str, e: &str) -> (r: String)
    ensures
        r@ == a@ + b@ + c@ + d@ + e@,
{
    let mut s = join3(a, b, c);
    s.append(d);
    s.append(e);
    s
}

/// The text of a parse error.
pub open spec fn parse_error_text(e: ParseErrorView) -> Seq<char> {
    match e {
        ParseErrorView::ProjectName { value, reason } => "invalid project name '"@ + value + "': "@ + reason,
        ParseErrorView::TargetName { value, reason } => "invalid target name '"@ + value + "': "@ + reason,
        ParseErrorView::DependsOn { value, reason } => "invalid depends_on '"@ + value + "': "@ + reason,
    }
}

impl ParseError {
    /// The error as text (what `Display` writes).
    pub fn message(&self) -> (r: String)
        ensures
            r@ == parse_error_text(self@),
    {
        match self {
            ParseError::ProjectName { value, reason } => join4("invalid project name '", value.as_str(), "': ", reason.as_str()),
            ParseError::TargetName { value, reason } => join4("invalid target name '", value.as_str(), "': ", reason.as_str()),
            ParseError::DependsOn { value, reason } => join4("invalid depends_on '", value.as_str(), "': ", reason.as_str()),
        }
    }
}

/// Errors from loading and processing configuration files.
#[derive(Debug, Clone)]
pub enum ConfigError {
    /// A value of the file is invalid.
    Parse(ParseError),
    /// The file could not be read.
    ReadFile { path: String, message: String },
    /// The file is not valid TOML of the expected shape.
    ParseToml { path: String, message: String },
    /// No workspace `guild.toml` was found from `path` upwards.
    WorkspaceNotFound { path: String },
}

/// The text of a configuration error.
pub open spec fn config_error_text(e: ConfigError) -> Seq<char> {
    match e {
        ConfigError::Parse(p) => parse_error_text(p@),
        ConfigError::ReadFile { path, message } => "failed to read '"@ + path@ + "': "@ + message@,
        ConfigError::ParseToml { path, message } => "failed to parse '"@ + path@ + "': "@ + message@,
        ConfigError::WorkspaceNotFound { path } => "no guild.toml found in '"@ + path@
            + "' or any parent directory"@,
    }
}

impl ConfigError {
    /// The error as text (what `Display` writes).
    pub fn message(&self) -> (r: String)
        ensures
            r@ == config_error_text(*self),
    {
        match self {
            ConfigError::Parse(p) => p.message(),
            ConfigError::ReadFile { path, message } => join4("failed to read '", path.as_str(), "': ", message.as_str()),
            ConfigError::ParseToml { path, message } => join4("failed to parse '", path.as_str(), "': ", message.as_str()),
            ConfigError::WorkspaceNotFound { path } => join3(
                "no guild.toml found in '",
                path.as_str(),
                "' or any parent directory",
            ),
        }
    }
}

/// Errors from building and validating the project dependency graph.
#[derive(Debug, Clone)]
pub enum GraphError {
    /// The configuration could not be loaded.
    Config(ConfigError),
    /// The project dependencies form a cycle through the project `cycle`.
    CycleDetected { cycle: String },
    /// Project `referenced_by` depends on `name`, which is not a project of the workspace.
    UnknownProject { name: String, referenced_by: String },
}

/// The text of a project graph error.
pub open spec fn graph_error_text(e: GraphError) -> Seq<char> {
    match e {
        GraphError::Config(c) => config_error_text(c),
        GraphError::CycleDetected { cycle } => "cycle detected in project dependencies: "@ + cycle@,
        GraphError::UnknownProject { name, referenced_by } => "unknown project '"@ + name@
            + "' referenced in depends_on of '"@ + referenced_by@ + "'"@,
    }
}

impl GraphError {
    /// The error as text (what `Display` writes).
    pub fn message(&self) -> (r: String)
        ensures
            r@ == graph_error_text(*self),
    {
        match self {
            GraphError::Config(c) => c.message(),
            GraphError::CycleDetected { cycle } => {
                let mut m = "cycle detected in project dependencies: ".to_owned();
                m.append(cycle.as_str());
                m
            },
            GraphError::UnknownProject { name, referenced_by } => join5(
                "unknown project '",
                name.as_str(),
                "' referenced in depends_on of '",
                referenced_by.as_str(),
                "'",
            ),
        }
    }
}

/// Errors from building and driving the task graph.
#[derive(Debug, Clone)]
pub enum TaskGraphError {
    /// Target `referencing_target` of `project` depends on its local target `target`,
    /// which the project does not have.
    UnknownTarget { target: String, project: String, referencing_target: String },
    /// The task dependencies form a cycle through the task `project:target`.
    CycleDetected { project: String, target: String },
    /// The task `project:target` is not in the graph.
    TaskNotFound { project: String, target: String },
}

/// The text of a task graph error.
pub open spec fn task_graph_error_text(e: TaskGraphError) -> Seq<char> {
    match e {
        TaskGraphError::UnknownTarget { target, project, referencing_target } => "unknown target '"@ + target@
            + "' in depends_on of '"@ + project@ + ":"@ + referencing_target@ + "'"@,
        TaskGraphError::CycleDetected { project, target } => "cycle detected in task dependencies at '"@ + project@
            + ":"@ + target@ + "'"@,
        TaskGraphError::TaskNotFound { project, target } => "task '"@ + project@ + ":"@ + target@ + "' not found"@,
    }
}

impl TaskGraphError {
    /// The error as text (what `Display` writes).
    pub fn message(&self) -> (r: String)
        ensures
            r@ == task_graph_error_text(*self),
    {
        match self {
            TaskGraphError::UnknownTarget { target, project, referencing_target } => {
                let head = join5("unknown target '", target.as_str(), "' in depends_on of '", project.as_str(), ":");
                join3(head.as_str(), referencing_target.as_str(), "'")
            },
            TaskGraphError::CycleDetected { project, target } => join5(
                "cycle detected in task dependencies at '",
                project.as_str(),
                ":",
                target.as_str(),
                "'",
            ),
            TaskGraphError::TaskNotFound { project, target } => join5(
                "task '",
                project.as_str(),
                ":",
                target.as_str(),
                "' not found",
            ),
        }
    }
}

} // verus!
