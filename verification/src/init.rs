//! Scaffolding of `guild.toml` files for `guild init`: projects detected from their
//! manifests (`package.json`, `Cargo.toml`, `go.mod`, `pyproject.toml`), the project glob
//! patterns of the workspace, and the text of the files to write.

use vstd::prelude::*;

use std::path::Path;

use crate::config::project::strings_view;
use crate::config::types::{is_name_char, valid_name};
use crate::paths::{join_path, joined_path};
use crate::text::{
    ascii_lower, eq_ignore_ascii_case, insert_sorted, lines_of, push_char, seq_contains_run,
    split_lines, str_contains, str_eq_ignore_ascii_case, str_starts_with, strictly_sorted, trim,
    trim_dashes, trimmed, trimmed_dashes, lemma_trim_shape, lemma_trim_fixed,
};

verus! {

/// The type of project detected from its manifest.
#[derive(Debug, Clone, Copy, PartialEq, Eq, Structural)]
pub enum ProjectType {
    Node,
    Rust,
    Go,
    Python,
}

/// The name of a project type.
pub open spec fn project_type_name(t: ProjectType) -> Seq<char> {
    match t {
        ProjectType::Node => "node"@,
        ProjectType::Rust => "rust"@,
        ProjectType::Go => "go"@,
        ProjectType::Python => "python"@,
    }
}

impl ProjectType {
    pub fn as_str(&self) -> (r: &'static str)
        ensures
            r@ == project_type_name(*self),
    {
        match self {
            ProjectType::Node => "node",
            ProjectType::Rust => "rust",
            ProjectType::Go => "go",
            ProjectType::Python => "python",
        }
    }
}

/// A detected target for a project.
#[derive(Debug, Clone)]
pub struct DetectedTarget {
    pub command: String,
    pub depends_on: Vec<String>,
}

/// A detected target as plain values.
pub struct DetectedTargetView {
    pub command: Seq<char>,
    pub depends_on: Seq<Seq<char>>,
}

impl View for DetectedTarget {
    type V = DetectedTargetView;

    open spec fn view(&self) -> DetectedTargetView {
        DetectedTargetView { command: self.command@, depends_on: strings_view(self.depends_on@) }
    }
}

/// Represents a detected project manifest.
#[derive(Debug, Clone)]
pub struct DetectedProject {
    /// Project name extracted from the manifest.
    pub name: String,
    /// Relative path from workspace root to the project directory.
    pub relative_path: String,
    /// Absolute path to the project directory.
    pub absolute_path: String,
    /// The type of project (Node, Rust, Go, Python).
    pub project_type: ProjectType,
    /// Detected targets for this project, by name in increasing order, each name once.
    pub targets: Vec<(String, DetectedTarget)>,
    /// Tags for this project based on its type and location.
    pub tags: Vec<String>,
}

/// A detected project as plain values.
pub struct DetectedProjectView {
    pub name: Seq<char>,
    pub relative_path: Seq<char>,
    pub absolute_path: Seq<char>,
    pub project_type: ProjectType,
    pub targets: Seq<(Seq<char>, DetectedTargetView)>,
    pub tags: Seq<Seq<char>>,
}

/// The views of named detected targets.
pub open spec fn detected_targets_view(v: Seq<(String, DetectedTarget)>) -> Seq<(Seq<char>, DetectedTargetView)> {
    v.map_values(|t: (String, DetectedTarget)| (t.0@, t.1@))
}

impl View for DetectedProject {
    type V = DetectedProjectView;

    open spec fn view(&self) -> DetectedProjectView {
        DetectedProjectView {
            name: self.name@,
            relative_path: self.relative_path@,
            absolute_path: self.absolute_path@,
            project_type: self.project_type,
            targets: detected_targets_view(self.targets@),
            tags: strings_view(self.tags@),
        }
    }
}

/// Result of running `guild init`.
#[derive(Debug)]
pub struct InitResult {
    /// Files that were written.
    pub written: Vec<String>,
    /// Files that were skipped because they already exist or were declined.
    pub skipped: Vec<String>,
}

impl InitResult {
    /// Nothing written and nothing skipped yet.
    pub fn new() -> (r: Self)
        ensures
            r.written@.len() == 0,
            r.skipped@.len() == 0,
    {
        InitResult { written: Vec::new(), skipped: Vec::new() }
    }

    /// Record what became of the file at `path`: written, or skipped.
    pub fn record(&mut self, path: String, written: bool)
        ensures
            written ==> final(self).written@ == old(self).written@.push(path) && final(self).skipped@ == old(
                self,
            ).skipped@,
            !written ==> final(self).skipped@ == old(self).skipped@.push(path) && final(self).written@ == old(
                self,
            ).written@,
    {
        if written {
            self.written.push(path);
        } else {
            self.skipped.push(path);
        }
    }
}

/// What a `package.json` holds that detection reads: the package name and the names of
/// its scripts.
#[derive(Debug, Clone)]
pub struct NodeManifest {
    pub name: Option<String>,
    pub scripts: Vec<String>,
}

/// What a `Cargo.toml` holds that detection reads: the name of its `[package]`, if it has one.
#[derive(Debug, Clone)]
pub struct RustManifest {
    pub package_name: Option<String>,
}

/// What a `pyproject.toml` holds that detection reads: `project.name` and `tool.poetry.name`.
#[derive(Debug, Clone)]
pub struct PythonManifest {
    pub project_name: Option<String>,
    pub poetry_name: Option<String>,
}

/// An ASCII letter or digit.
pub open spec fn is_ascii_alnum(c: char) -> bool {
    ||| ('a' <= c && c <= 'z')
    ||| ('A' <= c && c <= 'Z')
    ||| ('0' <= c && c <= '9')
}

/// What a character of a name becomes in a project name: ASCII letters in lower case,
/// digits, `-` and `_` stay, a space, `/` or `@` becomes `-`, anything else is dropped.
pub open spec fn sanitize_char(c: char) -> Option<char> {
    if is_ascii_alnum(c) {
        Some(ascii_lower(c))
    } else if c == '-' || c == '_' {
        Some(c)
    } else if c == ' ' || c == '/' || c == '@' {
        Some('-')
    } else {
        None
    }
}

/// The characters of `s`, each as `sanitize_char` maps it.
pub open spec fn sanitize_map(s: Seq<char>) -> Seq<char>
    decreases s.len(),
{
    if s.len() == 0 {
        Seq::empty()
    } else {
        match sanitize_char(s.last()) {
            Some(c) => sanitize_map(s.drop_last()).push(c),
            None => sanitize_map(s.drop_last()),
        }
    }
}

/// A name made a valid project name: mapped character by character, then without `-` at
/// either end.
pub open spec fn sanitized(s: Seq<char>) -> Seq<char> {
    trimmed_dashes(sanitize_map(s))
}

/// Mapping keeps only characters of project names.
proof fn lemma_sanitize_map_name_chars(s: Seq<char>)
    ensures
        forall|k: int| 0 <= k < sanitize_map(s).len() ==> is_name_char(#[trigger] sanitize_map(s)[k]),
    decreases s.len(),
{
    if s.len() > 0 {
        lemma_sanitize_map_name_chars(s.drop_last());
        let t = sanitize_map(s.drop_last());
        match sanitize_char(s.last()) {
            Some(c) => {
                assert(is_name_char(c));
                assert forall|k: int| 0 <= k < t.push(c).len() implies is_name_char(#[trigger] t.push(c)[k]) by {
                    if k < t.len() {
                        assert(t.push(c)[k] == t[k]);
                    }
                }
            },
            None => {},
        }
    }
}

/// Mapping leaves a text of project-name characters as it is.
proof fn lemma_sanitize_map_identity(s: Seq<char>)
    requires
        forall|k: int| 0 <= k < s.len() ==> is_name_char(#[trigger] s[k]),
    ensures
        sanitize_map(s) == s,
    decreases s.len(),
{
    if s.len() > 0 {
        assert forall|k: int| 0 <= k < s.drop_last().len() implies is_name_char(#[trigger] s.drop_last()[k]) by {
            assert(s.drop_last()[k] == s[k]);
        }
        lemma_sanitize_map_identity(s.drop_last());
        assert(is_name_char(s[s.len() - 1]));
        assert(sanitize_char(s.last()) == Some(s.last()));
        assert(s.drop_last().push(s.last()) =~= s);
    }
}

/// A sanitized name holds only lowercase letters, digits, `-` and `_`; it neither starts nor
/// ends with `-`; when it is not empty it is a valid project name; and sanitizing it again
/// leaves it as it is.
pub proof fn lemma_sanitized_is_name(s: Seq<char>)
    ensures
        forall|k: int| 0 <= k < sanitized(s).len() ==> is_name_char(#[trigger] sanitized(s)[k]),
        sanitized(s).len() > 0 ==> sanitized(s)[0] != '-' && sanitized(s).last() != '-',
        sanitized(s).len() > 0 ==> valid_name(sanitized(s)),
        sanitized(sanitized(s)) == sanitized(s),
{
    let m = sanitize_map(s);
    let p = |c: char| c == '-';
    lemma_sanitize_map_name_chars(s);
    let (a, b) = lemma_trim_shape(m, p);
    let r = sanitized(s);
    assert(r == m.subrange(a, b));
    assert forall|k: int| 0 <= k < r.len() implies is_name_char(#[trigger] r[k]) by {
        assert(r[k] == m[a + k]);
    }
    if r.len() > 0 {
        assert(r[0] == m[a]);
        assert(r.last() == m[b - 1]);
    }
    lemma_sanitize_map_identity(r);
    lemma_trim_fixed(r, p);
}

fn sanitize_char_exec(c: char) -> (r: Option<char>)
    ensures
        r == sanitize_char(c),
{
    if ('a' <= c && c <= 'z') || ('A' <= c && c <= 'Z') || ('0' <= c && c <= '9') {
        Some(crate::text::to_ascii_lower(c))
    } else if c == '-' || c == '_' {
        Some(c)
    } else if c == ' ' || c == '/' || c == '@' {
        Some('-')
    } else {
        None
    }
}

/// Sanitize a name to be a valid project name (lowercase, no special chars).
pub fn sanitize_project_name(name: &str) -> (r: String)
    ensures
        r@ == sanitized(name@),
        forall|k: int| 0 <= k < r@.len() ==> is_name_char(#[trigger] r@[k]),
        r@.len() > 0 ==> r@[0] != '-' && r@.last() != '-' && valid_name(r@),
        sanitized(r@) == r@,
{
    proof {
        lemma_sanitized_is_name(name@);
    }
    let n = name.unicode_len();
    let mut out = String::new();
    let mut i: usize = 0;
    proof {
        assert(name@.take(0) =~= Seq::<char>::empty());
    }
    while i < n
        invariant
            n == name@.len(),
            i <= n,
            out@ == sanitize_map(name@.take(i as int)),
        decreases n - i,
    {
        let c = name.get_char(i);
        proof {
            assert(name@.take(i + 1).drop_last() =~= name@.take(i as int));
            assert(name@.take(i + 1).last() == c);
        }
        match sanitize_char_exec(c) {
            Some(d) => push_char(&mut out, d),
            None => {},
        }
        i = i + 1;
    }
    proof {
        assert(name@.take(n as int) =~= name@);
    }
    trim_dashes(out.as_str()).to_owned()
}

/// The lower case of `s`, as `str::to_lowercase` gives it.
pub uninterp spec fn lowercase(s: Seq<char>) -> Seq<char>;

/// `str::to_lowercase`: the lower case of `s`, by the Unicode rules. The result is claimed
/// to depend on `s` alone; which string it is, is not stated.
#[verifier::external_body]
fn to_lowercase(s: &str) -> (r: String)
    ensures
        r@ == lowercase(s@),
{
    s.to_lowercase()
}

/// The tag a project's location gives it: `app` when its lower-case path contains `app`,
/// else `lib` when it contains `lib` or `package`.
pub open spec fn path_tag(lower: Seq<char>) -> Seq<Seq<char>> {
    if seq_contains_run(lower, "app"@) {
        seq!["app"@]
    } else if seq_contains_run(lower, "lib"@) || seq_contains_run(lower, "package"@) {
        seq!["lib"@]
    } else {
        Seq::empty()
    }
}

/// Infer tags from a project's relative path.
pub fn infer_tags_from_path(path: &str, tags: &mut Vec<String>)
    ensures
        strings_view(final(tags)@) == strings_view(old(tags)@) + path_tag(lowercase(path@)),
{
    let lower = to_lowercase(path);
    let ghost t0 = strings_view(tags@);
    if str_contains(lower.as_str(), "app") {
        tags.push("app".to_owned());
        proof {
            assert(strings_view(tags@) =~= t0 + seq!["app"@]);
        }
    } else if str_contains(lower.as_str(), "lib") || str_contains(lower.as_str(), "package") {
        tags.push("lib".to_owned());
        proof {
            assert(strings_view(tags@) =~= t0 + seq!["lib"@]);
        }
    } else {
        proof {
            assert(strings_view(tags@) =~= t0 + Seq::<Seq<char>>::empty());
        }
    }
}

/// The tags of a project of type `t` at `relative_path`: its type, then the tag its path gives.
pub open spec fn project_tags(t: ProjectType, relative_path: Seq<char>) -> Seq<Seq<char>> {
    seq![project_type_name(t)] + path_tag(lowercase(relative_path))
}

fn tags_for(t: ProjectType, relative_path: &str) -> (r: Vec<String>)
    ensures
        strings_view(r@) == project_tags(t, relative_path@),
{
    let mut tags: Vec<String> = Vec::new();
    tags.push(t.as_str().to_owned());
    proof {
        assert(strings_view(tags@) =~= seq![project_type_name(t)]);
    }
    infer_tags_from_path(relative_path, &mut tags);
    tags
}

/// The name of a project whose manifest names none: its directory's name, made valid, or
/// `unnamed` when the directory has no name.
pub open spec fn fallback_name(dir_name: Option<Seq<char>>) -> Seq<char> {
    match dir_name {
        Some(d) => sanitized(d),
        None => "unnamed"@,
    }
}

fn fallback_name_exec(dir_name: Option<&str>) -> (r: String)
    ensures
        r@ == fallback_name(
            match dir_name {
                Some(d) => Some(d@),
                None => None,
            },
        ),
{
    match dir_name {
        Some(d) => sanitize_project_name(d),
        None => "unnamed".to_owned(),
    }
}

/// Whether `v` lists the string `x`.
fn listed(v: &Vec<String>, x: &str) -> (r: bool)
    ensures
        r == strings_view(v@).contains(x@),
{
    let mut i: usize = 0;
    while i < v.len()
        invariant
            i <= v.len(),
            forall|j: int| 0 <= j < i ==> strings_view(v@)[j] != x@,
        decreases v.len() - i,
    {
        let same = v[i].as_str().unicode_len() == x.unicode_len() && str_starts_with(v[i].as_str(), x);
        if same {
            proof {
                assert(v@[i as int]@.take(x@.len() as int) =~= v@[i as int]@);
                assert(strings_view(v@)[i as int] == x@);
            }
            return true;
        }
        proof {
            if v@[i as int]@ == x@ {
                assert(v@[i as int]@.take(x@.len() as int) =~= x@);
            }
        }
        i = i + 1;
    }
    false
}

/// A target with a command and dependencies.
pub open spec fn target_view(command: Seq<char>, deps: Seq<Seq<char>>) -> DetectedTargetView {
    DetectedTargetView { command, depends_on: deps }
}

/// The single-entry list holding `(name, t)` when `present`, else the empty list.
pub open spec fn entry_if(present: bool, name: Seq<char>, t: DetectedTargetView) -> Seq<(Seq<char>, DetectedTargetView)> {
    if present {
        seq![(name, t)]
    } else {
        Seq::empty()
    }
}

/// The targets a Node project gets from its script names, by target name: `build` (after the
/// upstream builds), `dev`, `lint`, `start`, `test` (after the local build when there is one)
/// and `typecheck` (from `type-check`, else from `typecheck`), each run with `npm run`.
pub open spec fn node_targets(scripts: Seq<Seq<char>>) -> Seq<(Seq<char>, DetectedTargetView)> {
    let has_build = scripts.contains("build"@);
    entry_if(has_build, "build"@, target_view("npm run build"@, seq!["^build"@])) + entry_if(
        scripts.contains("dev"@),
        "dev"@,
        target_view("npm run dev"@, Seq::empty()),
    ) + entry_if(scripts.contains("lint"@), "lint"@, target_view("npm run lint"@, Seq::empty())) + entry_if(
        scripts.contains("start"@),
        "start"@,
        target_view("npm run start"@, Seq::empty()),
    ) + entry_if(
        scripts.contains("test"@),
        "test"@,
        target_view(
            "npm run test"@,
            if has_build {
                seq!["build"@]
            } else {
                Seq::empty()
            },
        ),
    ) + entry_if(
        scripts.contains("type-check"@) || scripts.contains("typecheck"@),
        "typecheck"@,
        target_view(
            if scripts.contains("type-check"@) {
                "npm run type-check"@
            } else {
                "npm run typecheck"@
            },
            Seq::empty(),
        ),
    )
}

/// `command` is `npm run` with one of the script names `scripts`.
pub open spec fn runs_script(command: Seq<char>, scripts: Seq<Seq<char>>) -> bool {
    exists|sc: Seq<char>| #[trigger] scripts.contains(sc) && command == "npm run "@ + sc
}

/// Every target of `ts` runs `npm run` with one of the script names `scripts`.
pub open spec fn runs_listed_scripts(ts: Seq<(Seq<char>, DetectedTargetView)>, scripts: Seq<Seq<char>>) -> bool {
    forall|i: int| 0 <= i < ts.len() ==> runs_script(#[trigger] ts[i].1.command, scripts)
}

proof fn lemma_runs_listed_concat(a: Seq<(Seq<char>, DetectedTargetView)>, b: Seq<(Seq<char>, DetectedTargetView)>, scripts: Seq<Seq<char>>)
    requires
        runs_listed_scripts(a, scripts),
        runs_listed_scripts(b, scripts),
    ensures
        runs_listed_scripts(a + b, scripts),
{
    assert forall|i: int| 0 <= i < (a + b).len() implies runs_script(#[trigger] (a + b)[i].1.command, scripts) by {
        if i < a.len() {
            assert((a + b)[i] == a[i]);
            assert(runs_script(a[i].1.command, scripts));
        } else {
            assert((a + b)[i] == b[i - a.len()]);
            assert(runs_script(b[i - a.len()].1.command, scripts));
        }
    }
}

proof fn lemma_runs_listed_entry(
    present: bool,
    name: Seq<char>,
    t: DetectedTargetView,
    sc: Seq<char>,
    scripts: Seq<Seq<char>>,
)
    requires
        present ==> scripts.contains(sc) && t.command == "npm run "@ + sc,
    ensures
        runs_listed_scripts(entry_if(present, name, t), scripts),
{
    if present {
        assert(entry_if(present, name, t)[0] == (name, t));
        assert(runs_script(t.command, scripts));
    }
}

/// A Node project's targets each run a script that its `package.json` lists: the command of
/// every detected target is `npm run <script>` for one of the manifest's script names (so the
/// `typecheck` target runs `type-check` only when that script exists, else `typecheck`).
pub proof fn lemma_node_targets_run_listed_scripts(scripts: Seq<Seq<char>>)
    ensures
        runs_listed_scripts(node_targets(scripts), scripts),
{
    reveal_strlit("npm run ");
    reveal_strlit("npm run build");
    reveal_strlit("npm run dev");
    reveal_strlit("npm run lint");
    reveal_strlit("npm run start");
    reveal_strlit("npm run test");
    reveal_strlit("npm run type-check");
    reveal_strlit("npm run typecheck");
    reveal_strlit("build");
    reveal_strlit("dev");
    reveal_strlit("lint");
    reveal_strlit("start");
    reveal_strlit("test");
    reveal_strlit("type-check");
    reveal_strlit("typecheck");
    let has_build = scripts.contains("build"@);
    let e1 = entry_if(has_build, "build"@, target_view("npm run build"@, seq!["^build"@]));
    let e2 = entry_if(scripts.contains("dev"@), "dev"@, target_view("npm run dev"@, Seq::empty()));
    let e3 = entry_if(scripts.contains("lint"@), "lint"@, target_view("npm run lint"@, Seq::empty()));
    let e4 = entry_if(scripts.contains("start"@), "start"@, target_view("npm run start"@, Seq::empty()));
    let e5 = entry_if(
        scripts.contains("test"@),
        "test"@,
        target_view(
            "npm run test"@,
            if has_build {
                seq!["build"@]
            } else {
                Seq::empty()
            },
        ),
    );
    let tc = if scripts.contains("type-check"@) {
        "type-check"@
    } else {
        "typecheck"@
    };
    let e6 = entry_if(
        scripts.contains("type-check"@) || scripts.contains("typecheck"@),
        "typecheck"@,
        target_view(
            if scripts.contains("type-check"@) {
                "npm run type-check"@
            } else {
                "npm run typecheck"@
            },
            Seq::empty(),
        ),
    );
    assert("npm run build"@ =~= "npm run "@ + "build"@);
    assert("npm run dev"@ =~= "npm run "@ + "dev"@);
    assert("npm run lint"@ =~= "npm run "@ + "lint"@);
    assert("npm run start"@ =~= "npm run "@ + "start"@);
    assert("npm run test"@ =~= "npm run "@ + "test"@);
    assert("npm run type-check"@ =~= "npm run "@ + "type-check"@);
    assert("npm run typecheck"@ =~= "npm run "@ + "typecheck"@);
    lemma_runs_listed_entry(has_build, "build"@, target_view("npm run build"@, seq!["^build"@]), "build"@, scripts);
    lemma_runs_listed_entry(scripts.contains("dev"@), "dev"@, target_view("npm run dev"@, Seq::empty()), "dev"@, scripts);
    lemma_runs_listed_entry(scripts.contains("lint"@), "lint"@, target_view("npm run lint"@, Seq::empty()), "lint"@, scripts);
    lemma_runs_listed_entry(scripts.contains("start"@), "start"@, target_view("npm run start"@, Seq::empty()), "start"@, scripts);
    lemma_runs_listed_entry(
        scripts.contains("test"@),
        "test"@,
        target_view(
            "npm run test"@,
            if has_build {
                seq!["build"@]
            } else {
                Seq::empty()
            },
        ),
        "test"@,
        scripts,
    );
    lemma_runs_listed_entry(
        scripts.contains("type-check"@) || scripts.contains("typecheck"@),
        "typecheck"@,
        target_view(
            if scripts.contains("type-check"@) {
                "npm run type-check"@
            } else {
                "npm run typecheck"@
            },
            Seq::empty(),
        ),
        tc,
        scripts,
    );
    lemma_runs_listed_concat(e1, e2, scripts);
    lemma_runs_listed_concat(e1 + e2, e3, scripts);
    lemma_runs_listed_concat(e1 + e2 + e3, e4, scripts);
    lemma_runs_listed_concat(e1 + e2 + e3 + e4, e5, scripts);
    lemma_runs_listed_concat(e1 + e2 + e3 + e4 + e5, e6, scripts);
    assert(node_targets(scripts) == e1 + e2 + e3 + e4 + e5 + e6);
}

/// The targets of a Rust project: `build` after the upstream builds, `lint`, and `test`
/// after the local build.
pub open spec fn rust_targets() -> Seq<(Seq<char>, DetectedTargetView)> {
    seq![
        ("build"@, target_view("cargo build"@, seq!["^build"@])),
        ("lint"@, target_view("cargo clippy -- -D warnings"@, Seq::empty())),
        ("test"@, target_view("cargo test"@, seq!["build"@])),
    ]
}

/// The targets of a Go project: `build` after the upstream builds, `lint`, and `test` after
/// the local build.
pub open spec fn go_targets() -> Seq<(Seq<char>, DetectedTargetView)> {
    seq![
        ("build"@, target_view("go build ./..."@, seq!["^build"@])),
        ("lint"@, target_view("golangci-lint run"@, Seq::empty())),
        ("test"@, target_view("go test ./..."@, seq!["build"@])),
    ]
}

/// The targets of a Python project: `lint` and `test`.
pub open spec fn python_targets() -> Seq<(Seq<char>, DetectedTargetView)> {
    seq![("lint"@, target_view("ruff check ."@, Seq::empty())), ("test"@, target_view("pytest"@, Seq::empty()))]
}

fn make_target(command: &str, dep: Option<&str>) -> (r: DetectedTarget)
    ensures
        r@.command == command@,
        r@.depends_on == match dep {
            Some(d) => seq![d@],
            None => Seq::empty(),
        },
{
    let mut depends_on: Vec<String> = Vec::new();
    match dep {
        Some(d) => {
            depends_on.push(d.to_owned());
            proof {
                assert(strings_view(depends_on@) =~= seq![d@]);
            }
        },
        None => {
            proof {
                assert(strings_view(depends_on@) =~= Seq::<Seq<char>>::empty());
            }
        },
    }
    DetectedTarget { command: command.to_owned(), depends_on }
}

fn push_target(targets: &mut Vec<(String, DetectedTarget)>, name: &str, t: DetectedTarget)
    ensures
        detected_targets_view(final(targets)@) == detected_targets_view(old(targets)@).push((name@, t@)),
{
    let ghost old_t = detected_targets_view(targets@);
    targets.push((name.to_owned(), t));
    proof {
        assert(detected_targets_view(targets@) =~= old_t.push((name@, t@)));
    }
}

/// The project found at `relative_path`, unless that is the workspace root itself.
fn make_project(
    name: String,
    relative_path: &str,
    absolute_path: &str,
    project_type: ProjectType,
    targets: Vec<(String, DetectedTarget)>,
) -> (r: DetectedProject)
    ensures
        r@ == (DetectedProjectView {
            name: name@,
            relative_path: relative_path@,
            absolute_path: absolute_path@,
            project_type,
            targets: detected_targets_view(targets@),
            tags: project_tags(project_type, relative_path@),
        }),
{
    let tags = tags_for(project_type, relative_path);
    DetectedProject {
        name,
        relative_path: relative_path.to_owned(),
        absolute_path: absolute_path.to_owned(),
        project_type,
        targets,
        tags,
    }
}

/// The view of an optional string.
pub open spec fn opt_view(o: Option<String>) -> Option<Seq<char>> {
    match o {
        Some(s) => Some(s@),
        None => None,
    }
}

/// The view of an optional string slice.
pub open spec fn opt_str_view(o: Option<&str>) -> Option<Seq<char>> {
    match o {
        Some(s) => Some(s@),
        None => None,
    }
}

/// The project a detector reports: none at the workspace root, else the project with its
/// name, location, type, targets and tags.
pub open spec fn detected(
    name: Seq<char>,
    relative_path: Seq<char>,
    absolute_path: Seq<char>,
    t: ProjectType,
    targets: Seq<(Seq<char>, DetectedTargetView)>,
) -> Option<DetectedProjectView> {
    if relative_path.len() == 0 {
        None
    } else {
        Some(
            DetectedProjectView {
                name,
                relative_path,
                absolute_path,
                project_type: t,
                targets,
                tags: project_tags(t, relative_path),
            },
        )
    }
}

/// The view of an optional detected project.
pub open spec fn detected_opt_view(r: Option<DetectedProject>) -> Option<DetectedProjectView> {
    match r {
        Some(p) => Some(p@),
        None => None,
    }
}

/// Detect a Node.js project from what its `package.json` holds. The project sits at
/// `relative_path` below the workspace root (none when that is the root itself); `dir_name`
/// is the name of its directory.
pub fn detect_node_project(
    manifest: &NodeManifest,
    dir_name: Option<&str>,
    relative_path: &str,
    absolute_path: &str,
) -> (r: Option<DetectedProject>)
    ensures
        detected_opt_view(r) == detected(
            match opt_view(manifest.name) {
                Some(n) => sanitized(n),
                None => fallback_name(opt_str_view(dir_name)),
            },
            relative_path@,
            absolute_path@,
            ProjectType::Node,
            node_targets(strings_view(manifest.scripts@)),
        ),
{
    let name = match &manifest.name {
        Some(n) => sanitize_project_name(n.as_str()),
        None => fallback_name_exec(dir_name),
    };
    let ghost sc = strings_view(manifest.scripts@);
    let scripts = &manifest.scripts;
    let has_build = listed(scripts, "build");
    let mut targets: Vec<(String, DetectedTarget)> = Vec::new();
    if has_build {
        push_target(&mut targets, "build", make_target("npm run build", Some("^build")));
    }
    if listed(scripts, "dev") {
        push_target(&mut targets, "dev", make_target("npm run dev", None));
    }
    if listed(scripts, "lint") {
        push_target(&mut targets, "lint", make_target("npm run lint", None));
    }
    if listed(scripts, "start") {
        push_target(&mut targets, "start", make_target("npm run start", None));
    }
    if listed(scripts, "test") {
        if has_build {
            push_target(&mut targets, "test", make_target("npm run test", Some("build")));
        } else {
            push_target(&mut targets, "test", make_target("npm run test", None));
        }
    }
    if listed(scripts, "type-check") {
        push_target(&mut targets, "typecheck", make_target("npm run type-check", None));
    } else if listed(scripts, "typecheck") {
        push_target(&mut targets, "typecheck", make_target("npm run typecheck", None));
    }
    proof {
        assert(detected_targets_view(targets@) =~= node_targets(sc));
    }
    if relative_path.unicode_len() == 0 {
        return None;
    }
    Some(make_project(name, relative_path, absolute_path, ProjectType::Node, targets))
}

/// Detect a Rust project from what its `Cargo.toml` holds: none for a manifest without
/// `[package]` (a workspace-only manifest) or at the workspace root.
pub fn detect_rust_project(manifest: &RustManifest, relative_path: &str, absolute_path: &str) -> (r: Option<
    DetectedProject,
>)
    ensures
        detected_opt_view(r) == match opt_view(manifest.package_name) {
            Some(n) => detected(sanitized(n), relative_path@, absolute_path@, ProjectType::Rust, rust_targets()),
            None => None,
        },
{
    let name = match &manifest.package_name {
        Some(n) => sanitize_project_name(n.as_str()),
        None => {
            return None;
        },
    };
    if relative_path.unicode_len() == 0 {
        return None;
    }
    let mut targets: Vec<(String, DetectedTarget)> = Vec::new();
    push_target(&mut targets, "build", make_target("cargo build", Some("^build")));
    push_target(&mut targets, "lint", make_target("cargo clippy -- -D warnings", None));
    push_target(&mut targets, "test", make_target("cargo test", Some("build")));
    proof {
        assert(detected_targets_view(targets@) =~= rust_targets());
    }
    Some(make_project(name, relative_path, absolute_path, ProjectType::Rust, targets))
}

/// The first line of `lines` that starts with `module `.
pub open spec fn module_line(lines: Seq<Seq<char>>) -> Option<Seq<char>>
    decreases lines.len(),
{
    if lines.len() == 0 {
        None
    } else if lines[0].len() >= 7 && lines[0].take(7) == "module "@ {
        Some(lines[0])
    } else {
        module_line(lines.drop_first())
    }
}

/// What follows the last `/` of `s`, or all of `s` when it has none.
pub open spec fn after_last_slash(s: Seq<char>) -> Seq<char>
    decreases s.len(),
{
    if s.len() == 0 {
        s
    } else if s.last() == '/' {
        Seq::empty()
    } else {
        after_last_slash(s.drop_last()).push(s.last())
    }
}

/// The project name a `go.mod` gives: from its first `module ` line, the last `/`-separated
/// part of the module path, made a valid name.
pub open spec fn go_module_name(content: Seq<char>) -> Option<Seq<char>> {
    match module_line(lines_of(content)) {
        Some(line) => Some(sanitized(after_last_slash(trimmed(line.skip(7))))),
        None => None,
    }
}

fn after_last_slash_exec(s: &str) -> (r: &str)
    ensures
        r@ == after_last_slash(s@),
{
    let n = s.unicode_len();
    let mut k: usize = n;
    proof {
        assert(s@.skip(n as int) =~= Seq::<char>::empty());
        assert(s@.take(n as int) =~= s@);
    }
    while k > 0 && s.get_char(k - 1) != '/'
        invariant
            n == s@.len(),
            k <= n,
            after_last_slash(s@) == after_last_slash(s@.take(k as int)) + s@.skip(k as int),
        decreases k,
    {
        proof {
            let t = s@.take(k as int);
            assert(t.drop_last() =~= s@.take(k - 1));
            assert(t.last() == s@[k - 1]);
            assert(s@.skip(k - 1) =~= seq![s@[k - 1]] + s@.skip(k as int));
            assert(after_last_slash(t) == after_last_slash(s@.take(k - 1)).push(s@[k - 1]));
            assert(after_last_slash(s@.take(k - 1)).push(s@[k - 1]) + s@.skip(k as int) =~= after_last_slash(
                s@.take(k - 1),
            ) + s@.skip(k - 1));
        }
        k = k - 1;
    }
    proof {
        if k > 0 {
            let t = s@.take(k as int);
            assert(t.last() == '/');
        }
        assert(after_last_slash(s@.take(k as int)) =~= Seq::<char>::empty());
        assert(s@.skip(k as int) =~= s@.subrange(k as int, n as int));
    }
    s.substring_char(k, n)
}

/// The project name the `module` line of a `go.mod` gives, if it has one.
pub fn go_module_name_exec(content: &str) -> (r: Option<String>)
    ensures
        opt_view(r) == go_module_name(content@),
{
    let lines = split_lines(content);
    let ghost ls = strings_view(lines@);
    let mut i: usize = 0;
    proof {
        assert(ls.skip(0) =~= ls);
    }
    while i < lines.len()
        invariant
            ls == strings_view(lines@),
            ls == lines_of(content@),
            i <= lines.len(),
            module_line(ls) == module_line(ls.skip(i as int)),
        decreases lines.len() - i,
    {
        let line = lines[i].as_str();
        proof {
            assert(ls.skip(i as int)[0] == line@);
            assert(ls.skip(i as int).drop_first() =~= ls.skip(i + 1));
        }
        if str_starts_with(line, "module ") {
            proof {
                reveal_strlit("module ");
            }
            let rest = line.substring_char(7, line.unicode_len());
            proof {
                assert(rest@ =~= line@.skip(7));
            }
            let name = sanitize_project_name(after_last_slash_exec(trim(rest)));
            return Some(name);
        }
        proof {
            reveal_strlit("module ");
        }
        i = i + 1;
    }
    None
}

/// Detect a Go project from the text of its `go.mod`: named after its module, else after
/// its directory.
pub fn detect_go_project(content: &str, dir_name: Option<&str>, relative_path: &str, absolute_path: &str) -> (r:
    Option<DetectedProject>)
    ensures
        detected_opt_view(r) == detected(
            match go_module_name(content@) {
                Some(n) => n,
                None => fallback_name(opt_str_view(dir_name)),
            },
            relative_path@,
            absolute_path@,
            ProjectType::Go,
            go_targets(),
        ),
{
    let name = match go_module_name_exec(content) {
        Some(n) => n,
        None => fallback_name_exec(dir_name),
    };
    if relative_path.unicode_len() == 0 {
        return None;
    }
    let mut targets: Vec<(String, DetectedTarget)> = Vec::new();
    push_target(&mut targets, "build", make_target("go build ./...", Some("^build")));
    push_target(&mut targets, "lint", make_target("golangci-lint run", None));
    push_target(&mut targets, "test", make_target("go test ./...", Some("build")));
    proof {
        assert(detected_targets_view(targets@) =~= go_targets());
    }
    Some(make_project(name, relative_path, absolute_path, ProjectType::Go, targets))
}

/// Detect a Python project from what its `pyproject.toml` holds: named after
/// `project.name`, else `tool.poetry.name`, else its directory.
pub fn detect_python_project(
    manifest: &PythonManifest,
    dir_name: Option<&str>,
    relative_path: &str,
    absolute_path: &str,
) -> (r: Option<DetectedProject>)
    ensures
        detected_opt_view(r) == detected(
            match opt_view(manifest.project_name) {
                Some(n) => sanitized(n),
                None => match opt_view(manifest.poetry_name) {
                    Some(n) => sanitized(n),
                    None => fallback_name(opt_str_view(dir_name)),
                },
            },
            relative_path@,
            absolute_path@,
            ProjectType::Python,
            python_targets(),
        ),
{
    let name = match &manifest.project_name {
        Some(n) => sanitize_project_name(n.as_str()),
        None => match &manifest.poetry_name {
            Some(n) => sanitize_project_name(n.as_str()),
            None => fallback_name_exec(dir_name),
        },
    };
    if relative_path.unicode_len() == 0 {
        return None;
    }
    let mut targets: Vec<(String, DetectedTarget)> = Vec::new();
    push_target(&mut targets, "lint", make_target("ruff check .", None));
    push_target(&mut targets, "test", make_target("pytest", None));
    proof {
        assert(detected_targets_view(targets@) =~= python_targets());
    }
    Some(make_project(name, relative_path, absolute_path, ProjectType::Python, targets))
}

/// The first component of `path`, as `Path::components` reads it.
pub uninterp spec fn first_path_component(path: Seq<char>) -> Option<Seq<char>>;

/// `std::path::Path::components`: the first component of `path`, if it has one; an empty
/// path has none. The result is claimed to depend on `path` alone; which component it is
/// otherwise, is not stated.
#[verifier::external_body]
fn first_component(path: &str) -> (r: Option<String>)
    ensures
        opt_view(r) == first_path_component(path@),
        path@.len() == 0 ==> r is None,
{
    match Path::new(path).components().next() {
        Some(c) => Some(c.as_os_str().to_string_lossy().into_owned()),
        None => None,
    }
}

/// The glob pattern `<dir>/*` for a project whose path starts with directory `dir`.
pub open spec fn pattern_of(p: DetectedProjectView) -> Option<Seq<char>> {
    match first_path_component(p.relative_path) {
        Some(d) => Some(d + "/*"@),
        None => None,
    }
}

/// Generate workspace glob patterns from detected projects: `<dir>/*` for the first
/// directory of each project's path, each once, in increasing order.
pub fn generate_workspace_patterns(projects: &Vec<DetectedProject>) -> (r: Vec<String>)
    ensures
        strictly_sorted(strings_view(r@)),
        forall|s: Seq<char>|
            #[trigger] strings_view(r@).contains(s) <==> exists|i: int|
                0 <= i < projects.len() && pattern_of(#[trigger] projects@[i]@) == Some(s),
        forall|i: int|
            0 <= i < projects.len() && (#[trigger] projects@[i]@).relative_path.len() == 0 ==> pattern_of(
                projects@[i]@,
            ) is None,
{
    let mut out: Vec<String> = Vec::new();
    let mut i: usize = 0;
    while i < projects.len()
        invariant
            i <= projects.len(),
            strictly_sorted(strings_view(out@)),
            forall|k: int|
                0 <= k < i && (#[trigger] projects@[k]@).relative_path.len() == 0 ==> pattern_of(projects@[k]@) is None,
            forall|s: Seq<char>|
                #[trigger] strings_view(out@).contains(s) <==> exists|k: int|
                    0 <= k < i && pattern_of(#[trigger] projects@[k]@) == Some(s),
        decreases projects.len() - i,
    {
        let ghost before = strings_view(out@);
        match first_component(projects[i].relative_path.as_str()) {
            Some(d) => {
                let mut pat = d;
                pat.append("/*");
                proof {
                    assert(pattern_of(projects@[i as int]@) == Some(pat@));
                }
                insert_sorted(&mut out, pat);
                proof {
                    assert forall|s: Seq<char>| #[trigger]
                        strings_view(out@).contains(s) <==> exists|k: int|
                            0 <= k < i + 1 && pattern_of(#[trigger] projects@[k]@) == Some(s) by {
                        assert(strings_view(out@).to_set().contains(s) == strings_view(out@).contains(s));
                        assert(before.to_set().contains(s) == before.contains(s));
                        if strings_view(out@).contains(s) && !before.contains(s) {
                            assert(s == pat@);
                        }
                        if exists|k: int| 0 <= k < i + 1 && pattern_of(#[trigger] projects@[k]@) == Some(s) {
                            let k = choose|k: int| 0 <= k < i + 1 && pattern_of(#[trigger] projects@[k]@) == Some(s);
                            if k == i {
                                assert(s == pat@);
                            } else {
                                assert(before.contains(s));
                            }
                        }
                    }
                }
            },
            None => {
                proof {
                    assert forall|s: Seq<char>| #[trigger]
                        strings_view(out@).contains(s) <==> exists|k: int|
                            0 <= k < i + 1 && pattern_of(#[trigger] projects@[k]@) == Some(s) by {
                        if exists|k: int| 0 <= k < i + 1 && pattern_of(#[trigger] projects@[k]@) == Some(s) {
                            let k = choose|k: int| 0 <= k < i + 1 && pattern_of(#[trigger] projects@[k]@) == Some(s);
                            assert(k != i);
                        }
                    }
                }
            },
        }
        i = i + 1;
    }
    out
}

/// The strings of `items`, each in double quotes, separated by `, `.
pub open spec fn quoted_list(items: Seq<Seq<char>>) -> Seq<char>
    decreases items.len(),
{
    if items.len() == 0 {
        Seq::empty()
    } else {
        quoted_list(items.drop_last()) + (if items.len() > 1 {
            ", "@
        } else {
            Seq::empty()
        }) + "\""@ + items.last() + "\""@
    }
}

/// A list of no items is empty text, and one item is that item in double quotes.
pub proof fn lemma_quoted_list_small(x: Seq<char>)
    ensures
        quoted_list(Seq::empty()) == Seq::<char>::empty(),
        quoted_list(seq![x]) == "\""@ + x + "\""@,
{
    let one = seq![x];
    assert(one.drop_last() =~= Seq::<Seq<char>>::empty());
    assert(quoted_list(one.drop_last()) == Seq::<char>::empty());
    assert(one.last() == x);
    assert(quoted_list(one) == quoted_list(one.drop_last()) + Seq::<char>::empty() + "\""@ + x + "\""@);
    assert(quoted_list(one) =~= "\""@ + x + "\""@);
}

/// Two non-empty lists one after the other are quoted as the first, `, `, then the second:
/// consecutive items are always separated by exactly `, `.
pub proof fn lemma_quoted_list_concat(a: Seq<Seq<char>>, b: Seq<Seq<char>>)
    requires
        a.len() > 0,
        b.len() > 0,
    ensures
        quoted_list(a + b) == quoted_list(a) + ", "@ + quoted_list(b),
    decreases b.len(),
{
    let z = b.last();
    let q = "\""@ + z + "\""@;
    assert((a + b).drop_last() =~= a + b.drop_last());
    assert((a + b).last() == z);
    if b.len() == 1 {
        assert(b.drop_last() =~= Seq::<Seq<char>>::empty());
        assert(a + b.drop_last() =~= a);
        assert(quoted_list(a + b) == quoted_list(a) + ", "@ + "\""@ + z + "\""@);
        lemma_quoted_list_small(z);
        assert(b =~= seq![z]);
        assert(quoted_list(a + b) =~= quoted_list(a) + ", "@ + quoted_list(b));
    } else {
        lemma_quoted_list_concat(a, b.drop_last());
        assert(quoted_list(a + b) == quoted_list(a + b.drop_last()) + ", "@ + "\""@ + z + "\""@);
        assert(quoted_list(b) == quoted_list(b.drop_last()) + ", "@ + "\""@ + z + "\""@);
        assert(quoted_list(a + b) =~= quoted_list(a) + ", "@ + quoted_list(b));
    }
}

fn quoted_list_exec(items: &Vec<String>) -> (r: String)
    ensures
        r@ == quoted_list(strings_view(items@)),
{
    let ghost sv = strings_view(items@);
    let mut out = String::new();
    let mut i: usize = 0;
    proof {
        assert(sv.take(0) =~= Seq::<Seq<char>>::empty());
    }
    while i < items.len()
        invariant
            sv == strings_view(items@),
            i <= items.len(),
            out@ == quoted_list(sv.take(i as int)),
        decreases items.len() - i,
    {
        proof {
            assert(sv.take(i + 1).drop_last() =~= sv.take(i as int));
            assert(sv.take(i + 1).last() == items@[i as int]@);
        }
        if i > 0 {
            out.append(", ");
        }
        out.append("\"");
        out.append(items[i].as_str());
        out.append("\"");
        proof {
            assert(out@ =~= quoted_list(sv.take(i + 1)));
        }
        i = i + 1;
    }
    proof {
        assert(sv.take(items.len() as int) =~= sv);
    }
    out
}

/// The root `guild.toml` of a workspace named `name` with project patterns `patterns`.
pub open spec fn workspace_toml(name: Seq<char>, patterns: Seq<Seq<char>>) -> Seq<char> {
    "[workspace]\n"@ + "name = \""@ + name + "\"\n"@ + "projects = ["@ + quoted_list(patterns) + "]\n"@
}

/// Generate the root guild.toml content.
pub fn generate_workspace_toml(name: &str, patterns: &Vec<String>) -> (r: String)
    ensures
        r@ == workspace_toml(name@, strings_view(patterns@)),
{
    let mut toml = String::new();
    toml.append("[workspace]\n");
    toml.append("name = \"");
    toml.append(name);
    toml.append("\"\n");
    toml.append("projects = [");
    let list = quoted_list_exec(patterns);
    toml.append(list.as_str());
    toml.append("]\n");
    proof {
        assert(toml@ =~= workspace_toml(name@, strings_view(patterns@)));
    }
    toml
}

/// The `[targets.<name>]` section of a target.
pub open spec fn target_section(name: Seq<char>, t: DetectedTargetView) -> Seq<char> {
    "\n[targets."@ + name + "]\n"@ + "command = \""@ + t.command + "\"\n"@ + if t.depends_on.len() > 0 {
        "depends_on = ["@ + quoted_list(t.depends_on) + "]\n"@
    } else {
        Seq::empty()
    }
}

/// The sections of the targets, one after the other.
pub open spec fn target_sections(ts: Seq<(Seq<char>, DetectedTargetView)>) -> Seq<char>
    decreases ts.len(),
{
    if ts.len() == 0 {
        Seq::empty()
    } else {
        target_sections(ts.drop_last()) + target_section(ts.last().0, ts.last().1)
    }
}

/// The `guild.toml` of a detected project: its `[project]` section (with tags when it has
/// any), then a section for each target in order.
pub open spec fn project_toml(p: DetectedProjectView) -> Seq<char> {
    "[project]\n"@ + "name = \""@ + p.name + "\"\n"@ + (if p.tags.len() > 0 {
        "tags = ["@ + quoted_list(p.tags) + "]\n"@
    } else {
        Seq::empty()
    }) + target_sections(p.targets)
}

/// Generate a project guild.toml content.
pub fn generate_project_toml(project: &DetectedProject) -> (r: String)
    ensures
        r@ == project_toml(project@),
{
    let ghost tv = detected_targets_view(project.targets@);
    let mut toml = String::new();
    toml.append("[project]\n");
    toml.append("name = \"");
    toml.append(project.name.as_str());
    toml.append("\"\n");
    if project.tags.len() > 0 {
        toml.append("tags = [");
        let list = quoted_list_exec(&project.tags);
        toml.append(list.as_str());
        toml.append("]\n");
    }
    let ghost head = toml@;
    let mut i: usize = 0;
    proof {
        assert(tv.take(0) =~= Seq::<(Seq<char>, DetectedTargetView)>::empty());
        assert(toml@ =~= head + target_sections(tv.take(0)));
    }
    while i < project.targets.len()
        invariant
            tv == detected_targets_view(project.targets@),
            i <= project.targets.len(),
            toml@ == head + target_sections(tv.take(i as int)),
        decreases project.targets.len() - i,
    {
        let entry = &project.targets[i];
        proof {
            assert(tv.take(i + 1).drop_last() =~= tv.take(i as int));
            assert(tv.take(i + 1).last() == (entry.0@, entry.1@));
        }
        let ghost before = toml@;
        toml.append("\n[targets.");
        toml.append(entry.0.as_str());
        toml.append("]\n");
        toml.append("command = \"");
        toml.append(entry.1.command.as_str());
        toml.append("\"\n");
        if entry.1.depends_on.len() > 0 {
            toml.append("depends_on = [");
            let list = quoted_list_exec(&entry.1.depends_on);
            toml.append(list.as_str());
            toml.append("]\n");
        }
        proof {
            assert(toml@ =~= before + target_section(entry.0@, entry.1@));
            assert(toml@ =~= head + target_sections(tv.take(i + 1)));
        }
        i = i + 1;
    }
    proof {
        assert(tv.take(project.targets.len() as int) =~= tv);
        assert(toml@ =~= project_toml(project@));
    }
    toml
}

/// The files `guild init` writes, in order: the root `guild.toml` of the workspace, then the
/// `guild.toml` of each project, each with its content.
pub fn init_files(root: &str, workspace_name: &str, projects: &Vec<DetectedProject>) -> (r: Vec<(String, String)>)
    ensures
        r.len() == projects.len() + 1,
        r@[0].0@ == joined_path(root@, "guild.toml"@),
        exists|patterns: Seq<Seq<char>>|
            {
                &&& strictly_sorted(patterns)
                &&& forall|s: Seq<char>|
                    #[trigger] patterns.contains(s) <==> exists|i: int|
                        0 <= i < projects.len() && pattern_of(#[trigger] projects@[i]@) == Some(s)
                &&& r@[0].1@ == workspace_toml(workspace_name@, patterns)
            },
        forall|i: int|
            0 <= i < projects.len() ==> (#[trigger] r@[i + 1]).0@ == joined_path(projects@[i].absolute_path@, "guild.toml"@)
                && r@[i + 1].1@ == project_toml(projects@[i]@),
{
    let patterns = generate_workspace_patterns(projects);
    let mut files: Vec<(String, String)> = Vec::new();
    files.push((join_path(root, "guild.toml"), generate_workspace_toml(workspace_name, &patterns)));
    let mut i: usize = 0;
    while i < projects.len()
        invariant
            i <= projects.len(),
            files.len() == i + 1,
            files@[0].0@ == joined_path(root@, "guild.toml"@),
            files@[0].1@ == workspace_toml(workspace_name@, strings_view(patterns@)),
            forall|k: int|
                0 <= k < i ==> (#[trigger] files@[k + 1]).0@ == joined_path(projects@[k].absolute_path@, "guild.toml"@)
                    && files@[k + 1].1@ == project_toml(projects@[k]@),
        decreases projects.len() - i,
    {
        let p = &projects[i];
        files.push((join_path(p.absolute_path.as_str(), "guild.toml"), generate_project_toml(p)));
        i = i + 1;
    }
    files
}

/// The paths of the files, in order.
pub open spec fn file_paths(files: Seq<(String, String)>) -> Seq<Seq<char>> {
    files.map_values(|f: (String, String)| f.0@)
}

/// The paths among the first `outcomes.len()` of `paths` whose outcome is to be written.
pub open spec fn written_of(paths: Seq<Seq<char>>, outcomes: Seq<bool>) -> Seq<Seq<char>>
    decreases outcomes.len(),
{
    if outcomes.len() == 0 {
        Seq::empty()
    } else if outcomes.last() {
        written_of(paths, outcomes.drop_last()).push(paths[outcomes.len() - 1])
    } else {
        written_of(paths, outcomes.drop_last())
    }
}

/// The paths among the first `outcomes.len()` of `paths` whose outcome is to be skipped.
pub open spec fn skipped_of(paths: Seq<Seq<char>>, outcomes: Seq<bool>) -> Seq<Seq<char>>
    decreases outcomes.len(),
{
    if outcomes.len() == 0 {
        Seq::empty()
    } else if !outcomes.last() {
        skipped_of(paths, outcomes.drop_last()).push(paths[outcomes.len() - 1])
    } else {
        skipped_of(paths, outcomes.drop_last())
    }
}

/// Every file that was gone through is either written or skipped, once.
pub proof fn lemma_written_and_skipped(paths: Seq<Seq<char>>, outcomes: Seq<bool>)
    requires
        outcomes.len() <= paths.len(),
    ensures
        (written_of(paths, outcomes) + skipped_of(paths, outcomes)).to_multiset() == paths.take(
            outcomes.len() as int,
        ).to_multiset(),
    decreases outcomes.len(),
{
    broadcast use vstd::seq_lib::group_to_multiset_ensures;
    broadcast use vstd::seq_lib::lemma_multiset_commutative;

    if outcomes.len() == 0 {
        assert(paths.take(0) =~= Seq::<Seq<char>>::empty());
        assert(written_of(paths, outcomes) + skipped_of(paths, outcomes) =~= Seq::<Seq<char>>::empty());
    } else {
        let o = outcomes.drop_last();
        lemma_written_and_skipped(paths, o);
        let x = paths[outcomes.len() - 1];
        assert(paths.take(outcomes.len() as int) =~= paths.take(o.len() as int).push(x));
        let w = written_of(paths, o);
        let k = skipped_of(paths, o);
        assert((w + k).to_multiset() == w.to_multiset().add(k.to_multiset()));
        if outcomes.last() {
            assert((w.push(x) + k).to_multiset() == w.push(x).to_multiset().add(k.to_multiset()));
        } else {
            assert((w + k.push(x)).to_multiset() == w.to_multiset().add(k.push(x).to_multiset()));
        }
    }
}

/// The state of `guild init` going through the files it would create: the files, and for
/// those gone through so far, whether each existed and whether it was written.
pub struct InitRunView {
    pub paths: Seq<Seq<char>>,
    pub contents: Seq<Seq<char>>,
    pub existed: Seq<bool>,
    pub outcomes: Seq<bool>,
}

/// `guild init` going through the files it would create, one at a time: the caller says
/// whether each exists and, when the user was asked, whether they agreed; the run decides
/// whether it is written and records it.
pub struct InitRun {
    files: Vec<(String, String)>,
    existed: Vec<bool>,
    outcomes: Vec<bool>,
    result: InitResult,
}

impl View for InitRun {
    type V = InitRunView;

    closed spec fn view(&self) -> InitRunView {
        InitRunView {
            paths: file_paths(self.files@),
            contents: self.files@.map_values(|f: (String, String)| f.1@),
            existed: self.existed@,
            outcomes: self.outcomes@,
        }
    }
}

impl InitRun {
    #[verifier::type_invariant]
    spec fn type_inv(self) -> bool {
        &&& self.outcomes@.len() == self.existed@.len()
        &&& self.outcomes@.len() <= self.files@.len()
        &&& strings_view(self.result.written@) == written_of(file_paths(self.files@), self.outcomes@)
        &&& strings_view(self.result.skipped@) == skipped_of(file_paths(self.files@), self.outcomes@)
        &&& forall|i: int| 0 <= i < self.outcomes@.len() && #[trigger] self.existed@[i] ==> !self.outcomes@[i]
    }

    /// Begin going through `files`: none gone through yet.
    pub fn new(files: Vec<(String, String)>) -> (r: Self)
        ensures
            r@.paths == file_paths(files@),
            r@.contents == files@.map_values(|f: (String, String)| f.1@),
            r@.outcomes.len() == 0,
            r@.existed.len() == 0,
    {
        let result = InitResult::new();
        proof {
            assert(strings_view(result.written@) =~= Seq::<Seq<char>>::empty());
            assert(strings_view(result.skipped@) =~= Seq::<Seq<char>>::empty());
        }
        InitRun { files, existed: Vec::new(), outcomes: Vec::new(), result }
    }

    /// The next file to go through, with its content, if one is left.
    pub fn current(&self) -> (r: Option<(String, String)>)
        ensures
            r is Some <==> self@.outcomes.len() < self@.paths.len(),
            r matches Some(f) ==> f.0@ == self@.paths[self@.outcomes.len() as int] && f.1@
                == self@.contents[self@.outcomes.len() as int],
    {
        proof {
            use_type_invariant(self);
        }
        let i = self.outcomes.len();
        if i < self.files.len() {
            Some((self.files[i].0.clone(), self.files[i].1.clone()))
        } else {
            None
        }
    }

    /// Settle the next file: it is written when it does not exist and either `yes` was given
    /// or the user agreed (`confirmed`); else it is skipped. The answer says whether it is to be
    /// written. When no file is left, nothing changes and the answer is no.
    pub fn settle(&mut self, exists: bool, yes: bool, confirmed: bool) -> (r: bool)
        ensures
            old(self)@.outcomes.len() < old(self)@.paths.len() ==> {
                &&& r == (!exists && (yes || confirmed))
                &&& final(self)@.outcomes == old(self)@.outcomes.push(r)
                &&& final(self)@.existed == old(self)@.existed.push(exists)
                &&& final(self)@.paths == old(self)@.paths
                &&& final(self)@.contents == old(self)@.contents
            },
            old(self)@.outcomes.len() >= old(self)@.paths.len() ==> final(self)@ == old(self)@ && !r,
    {
        proof {
            use_type_invariant(&*self);
        }
        let i = self.outcomes.len();
        if i >= self.files.len() {
            return false;
        }
        let write = !exists && (yes || confirmed);
        let path = self.files[i].0.clone();
        let mut taken = InitRun::new(Vec::new());
        core::mem::swap(&mut taken, self);
        let InitRun { files, mut existed, mut outcomes, mut result } = taken;
        let ghost paths = file_paths(files@);
        let ghost o0 = outcomes@;
        let ghost e0 = existed@;
        let ghost w0 = result.written@;
        let ghost k0 = result.skipped@;
        let ghost pv = path@;
        result.record(path, write);
        outcomes.push(write);
        existed.push(exists);
        proof {
            assert(outcomes@.drop_last() =~= o0);
            assert(paths[i as int] == files@[i as int].0@);
            if write {
                assert(strings_view(result.written@) =~= strings_view(w0).push(pv));
            } else {
                assert(strings_view(result.skipped@) =~= strings_view(k0).push(pv));
            }
            assert forall|j: int| 0 <= j < outcomes@.len() && #[trigger] existed@[j] implies !outcomes@[j] by {
                if j < o0.len() {
                    assert(existed@[j] == e0[j]);
                }
            }
        }
        *self = InitRun { files, existed, outcomes, result };
        write
    }

    /// What the run did: the files written and those skipped, each in the order gone through.
    pub fn finish(self) -> (r: InitResult)
        ensures
            strings_view(r.written@) == written_of(self@.paths, self@.outcomes),
            strings_view(r.skipped@) == skipped_of(self@.paths, self@.outcomes),
            (strings_view(r.written@) + strings_view(r.skipped@)).to_multiset() == self@.paths.take(
                self@.outcomes.len() as int,
            ).to_multiset(),
            forall|i: int| 0 <= i < self@.outcomes.len() && #[trigger] self@.existed[i] ==> !self@.outcomes[i],
    {
        proof {
            use_type_invariant(&self);
            lemma_written_and_skipped(self@.paths, self@.outcomes);
        }
        let InitRun { result, .. } = self;
        result
    }
}

/// What `guild init` does with a file it would create.
#[derive(Debug, Clone, Copy, PartialEq, Eq, Structural)]
pub enum InitAction {
    /// The file exists already: leave it.
    Skip,
    /// Write the file.
    Write,
    /// Ask the user first.
    Ask,
}

/// What to do with a file: leave it when it exists, write it without asking when `yes`,
/// else ask.
pub fn init_action(exists: bool, yes: bool) -> (r: InitAction)
    ensures
        r == (if exists {
            InitAction::Skip
        } else if yes {
            InitAction::Write
        } else {
            InitAction::Ask
        }),
{
    if exists {
        InitAction::Skip
    } else if yes {
        InitAction::Write
    } else {
        InitAction::Ask
    }
}

/// The answer to a confirmation prompt agrees: `y` or `yes`, in any case, around white space.
pub open spec fn affirmative(response: Seq<char>) -> bool {
    eq_ignore_ascii_case(trimmed(response), "y"@) || eq_ignore_ascii_case(trimmed(response), "yes"@)
}

/// Whether the answer to a confirmation prompt agrees.
pub fn is_affirmative(response: &str) -> (r: bool)
    ensures
        r == affirmative(response@),
{
    let t = trim(response);
    str_eq_ignore_ascii_case(t, "y") || str_eq_ignore_ascii_case(t, "yes")
}

/// The text of a confirmation prompt: the question, then the content of the file between
/// `---` lines, each line indented by two spaces, then `[y/n] `.
pub open spec fn prompt_text(prompt: Seq<char>, content: Seq<char>) -> Seq<char> {
    "\n"@ + prompt + "\n"@ + "---\n"@ + indented_lines(lines_of(content)) + "---\n"@ + "[y/n] "@
}

/// Each line indented by two spaces and ended with a line feed.
pub open spec fn indented_lines(ls: Seq<Seq<char>>) -> Seq<char>
    decreases ls.len(),
{
    if ls.len() == 0 {
        Seq::empty()
    } else {
        indented_lines(ls.drop_last()) + "  "@ + ls.last() + "\n"@
    }
}

/// The text of a confirmation prompt for writing `content`.
pub fn confirm_prompt(prompt: &str, content: &str) -> (r: String)
    ensures
        r@ == prompt_text(prompt@, content@),
{
    let lines = split_lines(content);
    let ghost ls = strings_view(lines@);
    let mut out = String::new();
    out.append("\n");
    out.append(prompt);
    out.append("\n");
    out.append("---\n");
    let ghost head = out@;
    let mut i: usize = 0;
    proof {
        assert(ls.take(0) =~= Seq::<Seq<char>>::empty());
        assert(out@ =~= head + indented_lines(ls.take(0)));
    }
    while i < lines.len()
        invariant
            ls == strings_view(lines@),
            ls == lines_of(content@),
            i <= lines.len(),
            out@ == head + indented_lines(ls.take(i as int)),
        decreases lines.len() - i,
    {
        proof {
            assert(ls.take(i + 1).drop_last() =~= ls.take(i as int));
            assert(ls.take(i + 1).last() == lines@[i as int]@);
        }
        out.append("  ");
        out.append(lines[i].as_str());
        out.append("\n");
        proof {
            assert(out@ =~= head + indented_lines(ls.take(i + 1)));
        }
        i = i + 1;
    }
    out.append("---\n");
    out.append("[y/n] ");
    proof {
        assert(ls.take(lines.len() as int) =~= ls);
        assert(out@ =~= prompt_text(prompt@, content@));
    }
    out
}

/// Directories that project detection does not descend into.
pub open spec fn skipped_dir(name: Seq<char>) -> bool {
    ||| name == "node_modules"@
    ||| name == "target"@
    ||| name == ".git"@
    ||| name == "vendor"@
    ||| name == "__pycache__"@
    ||| name == ".venv"@
    ||| name == "venv"@
}

fn str_is(s: &str, t: &str) -> (r: bool)
    ensures
        r == (s@ == t@),
{
    let same = s.unicode_len() == t.unicode_len() && str_starts_with(s, t);
    proof {
        if same {
            assert(s@.take(t@.len() as int) =~= s@);
        }
        if s@ == t@ {
            assert(s@.take(t@.len() as int) =~= s@);
        }
    }
    same
}

/// Whether project detection skips the directory named `name`.
pub fn is_skipped_dir(name: &str) -> (r: bool)
    ensures
        r == skipped_dir(name@),
{
    str_is(name, "node_modules") || str_is(name, "target") || str_is(name, ".git") || str_is(name, "vendor")
        || str_is(name, "__pycache__") || str_is(name, ".venv") || str_is(name, "venv")
}

/// The project type a manifest file name announces.
pub open spec fn manifest_type(file_name: Seq<char>) -> Option<ProjectType> {
    if file_name == "package.json"@ {
        Some(ProjectType::Node)
    } else if file_name == "Cargo.toml"@ {
        Some(ProjectType::Rust)
    } else if file_name == "go.mod"@ {
        Some(ProjectType::Go)
    } else if file_name == "pyproject.toml"@ {
        Some(ProjectType::Python)
    } else {
        None
    }
}

/// The project type that the manifest named `file_name` describes, if it is one.
pub fn manifest_kind(file_name: &str) -> (r: Option<ProjectType>)
    ensures
        r == manifest_type(file_name@),
{
    if str_is(file_name, "package.json") {
        Some(ProjectType::Node)
    } else if str_is(file_name, "Cargo.toml") {
        Some(ProjectType::Rust)
    } else if str_is(file_name, "go.mod") {
        Some(ProjectType::Go)
    } else if str_is(file_name, "pyproject.toml") {
        Some(ProjectType::Python)
    } else {
        None
    }
}

} // verus!
