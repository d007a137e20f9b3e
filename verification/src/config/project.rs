//! Project and target configurations, validated from the plain values of a
//! project's `guild.toml`.

use vstd::prelude::*;

use crate::config::types::{
    DependsOn, DependsOnView, ProjectName, TargetName, depends_view, name_rejection, names_view,
    parse_depends_on, valid_name,
};
use crate::affected::name_listed;
use crate::error::{ParseError, ParseErrorView};

verus! {

/// The character sequences of a sequence of strings.
pub open spec fn strings_view(v: Seq<String>) -> Seq<Seq<char>> {
    v.map_values(|s: String| s@)
}

/// A target's configuration as plain values.
pub struct TargetConfigView {
    pub command: Seq<char>,
    pub depends_on: Seq<DependsOnView>,
    pub inputs: Seq<Seq<char>>,
    pub outputs: Seq<Seq<char>>,
}

/// A validated target configuration.
#[derive(Debug)]
pub struct TargetConfig {
    command: String,
    depends_on: Vec<DependsOn>,
    inputs: Vec<String>,
    outputs: Vec<String>,
}

impl View for TargetConfig {
    type V = TargetConfigView;

    closed spec fn view(&self) -> TargetConfigView {
        TargetConfigView {
            command: self.command@,
            depends_on: depends_view(self.depends_on@),
            inputs: strings_view(self.inputs@),
            outputs: strings_view(self.outputs@),
        }
    }
}

/// The `[targets.<name>]` section of a project's `guild.toml`, as read from the file.
#[derive(Debug, Clone)]
pub struct TargetSection {
    pub name: String,
    pub command: String,
    pub depends_on: Vec<String>,
    pub inputs: Vec<String>,
    pub outputs: Vec<String>,
}

/// A `TargetSection` as plain values.
pub struct TargetSectionView {
    pub name: Seq<char>,
    pub command: Seq<char>,
    pub depends_on: Seq<Seq<char>>,
    pub inputs: Seq<Seq<char>>,
    pub outputs: Seq<Seq<char>>,
}

impl View for TargetSection {
    type V = TargetSectionView;

    open spec fn view(&self) -> TargetSectionView {
        TargetSectionView {
            name: self.name@,
            command: self.command@,
            depends_on: strings_view(self.depends_on@),
            inputs: strings_view(self.inputs@),
            outputs: strings_view(self.outputs@),
        }
    }
}

/// The views of a sequence of target sections.
pub open spec fn sections_view(v: Seq<TargetSection>) -> Seq<TargetSectionView> {
    v.map_values(|t: TargetSection| t@)
}

/// Parses a `depends_on` list of a target, stopping at the first invalid entry.
pub open spec fn parse_depends_list(raw: Seq<Seq<char>>) -> Result<
    Seq<DependsOnView>,
    ParseErrorView,
>
    decreases raw.len(),
{
    if raw.len() == 0 {
        Ok(Seq::empty())
    } else {
        match parse_depends_list(raw.drop_last()) {
            Err(e) => Err(e),
            Ok(ds) => match parse_depends_on(raw.last()) {
                Ok(d) => Ok(ds.push(d)),
                Err(e) => Err(e),
            },
        }
    }
}

/// A target's `depends_on` list is read entry by entry: it is accepted exactly when every
/// entry is, and then it holds one reference per entry, in order, each as that entry reads;
/// else the error is that of the first entry that is not accepted.
pub proof fn lemma_depends_list_entrywise(raw: Seq<Seq<char>>)
    ensures
        (parse_depends_list(raw) is Ok) <==> forall|k: int| 0 <= k < raw.len() ==> #[trigger] parse_depends_on(raw[k]) is Ok,
        parse_depends_list(raw) matches Ok(ds) ==> ds.len() == raw.len() && forall|k: int|
            0 <= k < raw.len() ==> parse_depends_on(raw[k]) == Ok::<DependsOnView, ParseErrorView>(#[trigger] ds[k]),
        parse_depends_list(raw) matches Err(e) ==> exists|k: int|
            0 <= k < raw.len() && #[trigger] parse_depends_on(raw[k]) == Err::<DependsOnView, ParseErrorView>(e)
                && forall|j: int| 0 <= j < k ==> parse_depends_on(raw[j]) is Ok,
    decreases raw.len(),
{
    if raw.len() > 0 {
        let r0 = raw.drop_last();
        lemma_depends_list_entrywise(r0);
        let n = raw.len() - 1;
        assert forall|k: int| 0 <= k < r0.len() implies #[trigger] r0[k] == raw[k] by {}
        match parse_depends_list(r0) {
            Ok(ds) => {
                assert(forall|k: int| 0 <= k < r0.len() ==> parse_depends_on(#[trigger] r0[k]) is Ok);
                match parse_depends_on(raw.last()) {
                    Ok(d) => {
                        let ds1 = ds.push(d);
                        assert forall|k: int| 0 <= k < raw.len() implies parse_depends_on(raw[k]) == Ok::<
                            DependsOnView,
                            ParseErrorView,
                        >(#[trigger] ds1[k]) by {
                            if k < n {
                                assert(r0[k] == raw[k]);
                                assert(parse_depends_on(r0[k]) == Ok::<DependsOnView, ParseErrorView>(ds[k]));
                            }
                        }
                        assert forall|k: int| 0 <= k < raw.len() implies #[trigger] parse_depends_on(raw[k]) is Ok by {
                            assert(parse_depends_on(raw[k]) == Ok::<DependsOnView, ParseErrorView>(ds1[k]));
                        }
                    },
                    Err(e) => {
                        assert(parse_depends_on(raw[n]) == Err::<DependsOnView, ParseErrorView>(e));
                        assert forall|j: int| 0 <= j < n implies parse_depends_on(raw[j]) is Ok by {
                            assert(r0[j] == raw[j]);
                        }
                    },
                }
            },
            Err(e) => {
                let k = choose|k: int|
                    0 <= k < r0.len() && #[trigger] parse_depends_on(r0[k]) == Err::<DependsOnView, ParseErrorView>(e)
                        && forall|j: int| 0 <= j < k ==> parse_depends_on(r0[j]) is Ok;
                assert(r0[k] == raw[k]);
                assert forall|j: int| 0 <= j < k implies parse_depends_on(raw[j]) is Ok by {
                    assert(r0[j] == raw[j]);
                }
                assert(!(parse_depends_on(raw[k]) is Ok));
            },
        }
    }
}

/// A project's `depends_on` list is read entry by entry: it is accepted exactly when every
/// entry is a valid project name, and then it is the list itself; else the error rejects the
/// first invalid entry.
pub proof fn lemma_project_list_entrywise(raw: Seq<Seq<char>>)
    ensures
        (parse_project_list(raw) is Ok) <==> forall|k: int| 0 <= k < raw.len() ==> valid_name(#[trigger] raw[k]),
        parse_project_list(raw) matches Ok(ps) ==> ps == raw,
        parse_project_list(raw) matches Err(e) ==> exists|k: int|
            0 <= k < raw.len() && !valid_name(#[trigger] raw[k]) && e == (ParseErrorView::ProjectName {
                value: raw[k],
                reason: name_rejection(raw[k]),
            }) && forall|j: int| 0 <= j < k ==> valid_name(raw[j]),
    decreases raw.len(),
{
    if raw.len() > 0 {
        let r0 = raw.drop_last();
        lemma_project_list_entrywise(r0);
        let n = raw.len() - 1;
        assert forall|k: int| 0 <= k < r0.len() implies #[trigger] r0[k] == raw[k] by {}
        match parse_project_list(r0) {
            Ok(ps) => {
                if valid_name(raw.last()) {
                    assert(ps.push(raw.last()) =~= raw);
                    assert forall|k: int| 0 <= k < raw.len() implies valid_name(#[trigger] raw[k]) by {
                        if k < n {
                            assert(r0[k] == raw[k]);
                        }
                    }
                } else {
                    assert(!valid_name(raw[n]));
                    assert forall|j: int| 0 <= j < n implies valid_name(raw[j]) by {
                        assert(r0[j] == raw[j]);
                    }
                }
            },
            Err(e) => {
                let k = choose|k: int|
                    0 <= k < r0.len() && !valid_name(#[trigger] r0[k]) && e == (ParseErrorView::ProjectName {
                        value: r0[k],
                        reason: name_rejection(r0[k]),
                    }) && forall|j: int| 0 <= j < k ==> valid_name(r0[j]);
                assert(r0[k] == raw[k]);
                assert forall|j: int| 0 <= j < k implies valid_name(raw[j]) by {
                    assert(r0[j] == raw[j]);
                }
            },
        }
    }
}

/// Parses a project's `depends_on` list, stopping at the first invalid name.
pub open spec fn parse_project_list(raw: Seq<Seq<char>>) -> Result<Seq<Seq<char>>, ParseErrorView>
    decreases raw.len(),
{
    if raw.len() == 0 {
        Ok(Seq::empty())
    } else {
        match parse_project_list(raw.drop_last()) {
            Err(e) => Err(e),
            Ok(ps) => if valid_name(raw.last()) {
                Ok(ps.push(raw.last()))
            } else {
                Err(ParseErrorView::ProjectName { value: raw.last(), reason: name_rejection(raw.last()) })
            },
        }
    }
}

/// Whether `ts` holds a target named `name`.
pub open spec fn has_key(ts: Seq<(Seq<char>, TargetConfigView)>, name: Seq<char>) -> bool {
    exists|i: int| 0 <= i < ts.len() && ts[i].0 == name
}

/// No two targets share a name.
pub open spec fn distinct_keys(ts: Seq<(Seq<char>, TargetConfigView)>) -> bool {
    forall|i: int, j: int| 0 <= i < ts.len() && 0 <= j < ts.len() && i != j ==> ts[i].0 != ts[j].0
}

/// The index of the target named `name` (meaningful when there is one).
pub open spec fn key_index(ts: Seq<(Seq<char>, TargetConfigView)>, name: Seq<char>) -> int {
    choose|i: int| 0 <= i < ts.len() && ts[i].0 == name
}

/// Sets the target `name` to `cfg`: in place when it is already there, else at the end.
pub open spec fn upsert(ts: Seq<(Seq<char>, TargetConfigView)>, name: Seq<char>, cfg: TargetConfigView) -> Seq<
    (Seq<char>, TargetConfigView),
> {
    if has_key(ts, name) {
        ts.update(key_index(ts, name), (name, cfg))
    } else {
        ts.push((name, cfg))
    }
}

/// Parses the target sections in order; a later section with the same name replaces an earlier one.
pub open spec fn parse_targets(raw: Seq<TargetSectionView>) -> Result<
    Seq<(Seq<char>, TargetConfigView)>,
    ParseErrorView,
>
    decreases raw.len(),
{
    if raw.len() == 0 {
        Ok(Seq::empty())
    } else {
        match parse_targets(raw.drop_last()) {
            Err(e) => Err(e),
            Ok(ts) => {
                let t = raw.last();
                if !valid_name(t.name) {
                    Err(ParseErrorView::TargetName { value: t.name, reason: name_rejection(t.name) })
                } else {
                    match parse_depends_list(t.depends_on) {
                        Err(e) => Err(e),
                        Ok(ds) => Ok(
                            upsert(
                                ts,
                                t.name,
                                TargetConfigView {
                                    command: t.command,
                                    depends_on: ds,
                                    inputs: t.inputs,
                                    outputs: t.outputs,
                                },
                            ),
                        ),
                    }
                }
            },
        }
    }
}

/// A project's configuration as plain values.
pub struct ProjectConfigView {
    pub name: Seq<char>,
    pub tags: Seq<Seq<char>>,
    pub depends_on: Seq<Seq<char>>,
    pub targets: Seq<(Seq<char>, TargetConfigView)>,
    pub root: Seq<char>,
}

impl ProjectConfigView {
    /// Whether the project has a target named `t`.
    pub open spec fn has_target(self, t: Seq<char>) -> bool {
        has_key(self.targets, t)
    }

    /// The configuration of target `t` (meaningful when the project has it).
    pub open spec fn target_config(self, t: Seq<char>) -> TargetConfigView {
        self.targets[key_index(self.targets, t)].1
    }
}

/// How the values read from a project's `guild.toml` are validated: the name, then
/// the project's `depends_on`, then each target section in order.
pub open spec fn parse_project(
    name: Seq<char>,
    tags: Seq<Seq<char>>,
    depends_on: Seq<Seq<char>>,
    targets: Seq<TargetSectionView>,
    root: Seq<char>,
) -> Result<ProjectConfigView, ParseErrorView> {
    if !valid_name(name) {
        Err(ParseErrorView::ProjectName { value: name, reason: name_rejection(name) })
    } else {
        match parse_project_list(depends_on) {
            Err(e) => Err(e),
            Ok(ds) => match parse_targets(targets) {
                Err(e) => Err(e),
                Ok(ts) => Ok(
                    ProjectConfigView { name, tags, depends_on: ds, targets: ts, root },
                ),
            },
        }
    }
}

/// A validated project configuration parsed from a project's `guild.toml`.
#[derive(Debug)]
pub struct ProjectConfig {
    name: ProjectName,
    tags: Vec<String>,
    depends_on: Vec<ProjectName>,
    targets: Vec<(TargetName, TargetConfig)>,
    root: String,
}

/// The targets of a project as plain values.
pub open spec fn targets_view(ts: Seq<(TargetName, TargetConfig)>) -> Seq<(Seq<char>, TargetConfigView)> {
    ts.map_values(|p: (TargetName, TargetConfig)| (p.0@, p.1@))
}

impl View for ProjectConfig {
    type V = ProjectConfigView;

    closed spec fn view(&self) -> ProjectConfigView {
        ProjectConfigView {
            name: self.name@,
            tags: strings_view(self.tags@),
            depends_on: names_view(self.depends_on@),
            targets: targets_view(self.targets@),
            root: self.root@,
        }
    }
}

impl ProjectConfig {
    #[verifier::type_invariant]
    spec fn inv(self) -> bool {
        distinct_keys(targets_view(self.targets@))
    }
}

/// A copy of a vector of strings.
pub(crate) fn clone_strings(v: &Vec<String>) -> (r: Vec<String>)
    ensures
        strings_view(r@) == strings_view(v@),
{
    let mut out: Vec<String> = Vec::new();
    let mut i: usize = 0;
    while i < v.len()
        invariant
            i <= v.len(),
            strings_view(out@) =~= strings_view(v@).take(i as int),
        decreases v.len() - i,
    {
        let ghost old_out = out@;
        let c = v[i].clone();
        out.push(c);
        proof {
            assert(strings_view(out@) =~= strings_view(old_out).push(v@[i as int]@));
            assert(strings_view(v@).take(i + 1) =~= strings_view(v@).take(i as int).push(v@[i as int]@));
        }
        i = i + 1;
    }
    proof {
        assert(strings_view(v@).take(v@.len() as int) =~= strings_view(v@));
    }
    out
}

/// A copy of a vector of project names.
pub(crate) fn clone_names(v: &Vec<ProjectName>) -> (r: Vec<ProjectName>)
    ensures
        names_view(r@) == names_view(v@),
{
    let mut out: Vec<ProjectName> = Vec::new();
    let mut i: usize = 0;
    while i < v.len()
        invariant
            i <= v.len(),
            names_view(out@) =~= names_view(v@).take(i as int),
        decreases v.len() - i,
    {
        let ghost old_out = out@;
        let c = v[i].clone();
        out.push(c);
        proof {
            assert(names_view(out@) =~= names_view(old_out).push(v@[i as int]@));
            assert(names_view(v@).take(i + 1) =~= names_view(v@).take(i as int).push(v@[i as int]@));
        }
        i = i + 1;
    }
    proof {
        assert(names_view(v@).take(v@.len() as int) =~= names_view(v@));
    }
    out
}

fn clone_depends(v: &Vec<DependsOn>) -> (r: Vec<DependsOn>)
    ensures
        depends_view(r@) == depends_view(v@),
{
    let mut out: Vec<DependsOn> = Vec::new();
    let mut i: usize = 0;
    while i < v.len()
        invariant
            i <= v.len(),
            depends_view(out@) =~= depends_view(v@).take(i as int),
        decreases v.len() - i,
    {
        let ghost old_out = out@;
        let c = v[i].clone();
        out.push(c);
        proof {
            assert(depends_view(out@) =~= depends_view(old_out).push(v@[i as int]@));
            assert(depends_view(v@).take(i + 1) =~= depends_view(v@).take(i as int).push(v@[i as int]@));
        }
        i = i + 1;
    }
    proof {
        assert(depends_view(v@).take(v@.len() as int) =~= depends_view(v@));
    }
    out
}

impl Clone for TargetConfig {
    fn clone(&self) -> (r: Self)
        ensures
            r@ == self@,
    {
        TargetConfig {
            command: self.command.clone(),
            depends_on: clone_depends(&self.depends_on),
            inputs: clone_strings(&self.inputs),
            outputs: clone_strings(&self.outputs),
        }
    }
}

impl Clone for ProjectConfig {
    fn clone(&self) -> (r: Self)
        ensures
            r@ == self@,
    {
        proof {
            use_type_invariant(self);
        }
        let mut ts: Vec<(TargetName, TargetConfig)> = Vec::new();
        let mut i: usize = 0;
        while i < self.targets.len()
            invariant
                i <= self.targets.len(),
                distinct_keys(targets_view(self.targets@)),
                targets_view(ts@) =~= targets_view(self.targets@).take(i as int),
            decreases self.targets.len() - i,
        {
            let pair = (self.targets[i].0.clone(), self.targets[i].1.clone());
            let ghost old_ts = ts@;
            ts.push(pair);
            proof {
                let e = (self.targets@[i as int].0@, self.targets@[i as int].1@);
                assert(targets_view(ts@) =~= targets_view(old_ts).push(e));
                assert(targets_view(self.targets@).take(i + 1) =~= targets_view(self.targets@).take(
                    i as int,
                ).push(e));
            }
            i = i + 1;
        }
        proof {
            assert(targets_view(self.targets@).take(self.targets@.len() as int) =~= targets_view(
                self.targets@,
            ));
        }
        ProjectConfig {
            name: self.name.clone(),
            tags: clone_strings(&self.tags),
            depends_on: clone_names(&self.depends_on),
            targets: ts,
            root: self.root.clone(),
        }
    }
}

fn parse_depends_vec(raw: &Vec<String>) -> (r: Result<Vec<DependsOn>, ParseError>)
    ensures
        match r {
            Ok(ds) => parse_depends_list(strings_view(raw@)) == Ok::<
                Seq<DependsOnView>,
                ParseErrorView,
            >(depends_view(ds@)),
            Err(e) => parse_depends_list(strings_view(raw@)) == Err::<
                Seq<DependsOnView>,
                ParseErrorView,
            >(e@),
        },
{
    let mut out: Vec<DependsOn> = Vec::new();
    let mut i: usize = 0;
    proof {
        assert(strings_view(raw@).take(0) =~= Seq::<Seq<char>>::empty());
        assert(depends_view(out@) =~= Seq::<DependsOnView>::empty());
    }
    while i < raw.len()
        invariant
            i <= raw.len(),
            parse_depends_list(strings_view(raw@).take(i as int)) == Ok::<
                Seq<DependsOnView>,
                ParseErrorView,
            >(depends_view(out@)),
        decreases raw.len() - i,
    {
        let ghost pre = strings_view(raw@).take(i as int);
        let ghost next = strings_view(raw@).take(i + 1);
        proof {
            assert(next.drop_last() =~= pre);
            assert(next.last() == raw@[i as int]@);
        }
        match DependsOn::parse(raw[i].as_str()) {
            Ok(d) => {
                let ghost old_out = out@;
                out.push(d);
                proof {
                    assert(depends_view(out@) =~= depends_view(old_out).push(d@));
                }
            },
            Err(e) => {
                proof {
                    lemma_parse_depends_prefix_err(strings_view(raw@), (i + 1) as int);
                }
                return Err(e);
            },
        }
        i = i + 1;
    }
    proof {
        assert(strings_view(raw@).take(raw@.len() as int) =~= strings_view(raw@));
    }
    Ok(out)
}

proof fn lemma_parse_depends_prefix_err(raw: Seq<Seq<char>>, k: int)
    requires
        0 <= k <= raw.len(),
        parse_depends_list(raw.take(k)) is Err,
    ensures
        parse_depends_list(raw) == parse_depends_list(raw.take(k)),
    decreases raw.len() - k,
{
    if k < raw.len() {
        assert(raw.take(k + 1).drop_last() =~= raw.take(k));
        lemma_parse_depends_prefix_err(raw, k + 1);
    } else {
        assert(raw.take(k) =~= raw);
    }
}

proof fn lemma_parse_project_prefix_err(raw: Seq<Seq<char>>, k: int)
    requires
        0 <= k <= raw.len(),
        parse_project_list(raw.take(k)) is Err,
    ensures
        parse_project_list(raw) == parse_project_list(raw.take(k)),
    decreases raw.len() - k,
{
    if k < raw.len() {
        assert(raw.take(k + 1).drop_last() =~= raw.take(k));
        lemma_parse_project_prefix_err(raw, k + 1);
    } else {
        assert(raw.take(k) =~= raw);
    }
}

proof fn lemma_parse_targets_prefix_err(raw: Seq<TargetSectionView>, k: int)
    requires
        0 <= k <= raw.len(),
        parse_targets(raw.take(k)) is Err,
    ensures
        parse_targets(raw) == parse_targets(raw.take(k)),
    decreases raw.len() - k,
{
    if k < raw.len() {
        assert(raw.take(k + 1).drop_last() =~= raw.take(k));
        lemma_parse_targets_prefix_err(raw, k + 1);
    } else {
        assert(raw.take(k) =~= raw);
    }
}

fn parse_project_vec(raw: &Vec<String>) -> (r: Result<Vec<ProjectName>, ParseError>)
    ensures
        match r {
            Ok(ps) => parse_project_list(strings_view(raw@)) == Ok::<
                Seq<Seq<char>>,
                ParseErrorView,
            >(names_view(ps@)),
            Err(e) => parse_project_list(strings_view(raw@)) == Err::<
                Seq<Seq<char>>,
                ParseErrorView,
            >(e@),
        },
{
    let mut out: Vec<ProjectName> = Vec::new();
    let mut i: usize = 0;
    proof {
        assert(strings_view(raw@).take(0) =~= Seq::<Seq<char>>::empty());
        assert(names_view(out@) =~= Seq::<Seq<char>>::empty());
    }
    while i < raw.len()
        invariant
            i <= raw.len(),
            parse_project_list(strings_view(raw@).take(i as int)) == Ok::<
                Seq<Seq<char>>,
                ParseErrorView,
            >(names_view(out@)),
        decreases raw.len() - i,
    {
        let ghost pre = strings_view(raw@).take(i as int);
        let ghost next = strings_view(raw@).take(i + 1);
        proof {
            assert(next.drop_last() =~= pre);
            assert(next.last() == raw@[i as int]@);
        }
        match ProjectName::new(raw[i].as_str()) {
            Ok(p) => {
                let ghost old_out = out@;
                out.push(p);
                proof {
                    assert(names_view(out@) =~= names_view(old_out).push(p@));
                }
            },
            Err(e) => {
                proof {
                    lemma_parse_project_prefix_err(strings_view(raw@), (i + 1) as int);
                }
                return Err(e);
            },
        }
        i = i + 1;
    }
    proof {
        assert(strings_view(raw@).take(raw@.len() as int) =~= strings_view(raw@));
    }
    Ok(out)
}

/// Finds the target named `name` among `ts`.
fn find_target(ts: &Vec<(TargetName, TargetConfig)>, name: &TargetName) -> (r: Option<usize>)
    ensures
        match r {
            Some(i) => i < ts.len() && ts@[i as int].0@ == name@,
            None => !has_key(targets_view(ts@), name@),
        },
{
    let mut i: usize = 0;
    while i < ts.len()
        invariant
            i <= ts.len(),
            forall|j: int| 0 <= j < i ==> ts@[j].0@ != name@,
        decreases ts.len() - i,
    {
        if ts[i].0.same(name) {
            return Some(i);
        }
        i = i + 1;
    }
    proof {
        assert forall|j: int| 0 <= j < ts@.len() implies targets_view(ts@)[j].0 != name@ by {
            assert(ts@[j].0@ != name@);
        }
    }
    None
}

impl ProjectConfig {
    /// Validates the values read from a project's `guild.toml` (rooted at `root`).
    pub fn from_parts(
        name: &str,
        tags: Vec<String>,
        depends_on: &Vec<String>,
        targets: Vec<TargetSection>,
        root: String,
    ) -> (r: Result<Self, ParseError>)
        ensures
            match r {
                Ok(p) => parse_project(
                    name@,
                    strings_view(tags@),
                    strings_view(depends_on@),
                    sections_view(targets@),
                    root@,
                ) == Ok::<ProjectConfigView, ParseErrorView>(p@),
                Err(e) => parse_project(
                    name@,
                    strings_view(tags@),
                    strings_view(depends_on@),
                    sections_view(targets@),
                    root@,
                ) == Err::<ProjectConfigView, ParseErrorView>(e@),
            },
    {
        let pname = match ProjectName::new(name) {
            Ok(p) => p,
            Err(e) => return Err(e),
        };
        let deps = match parse_project_vec(depends_on) {
            Ok(d) => d,
            Err(e) => return Err(e),
        };
        let ghost raw = sections_view(targets@);
        let mut ts: Vec<(TargetName, TargetConfig)> = Vec::new();
        let mut i: usize = 0;
        proof {
            assert(raw.take(0) =~= Seq::<TargetSectionView>::empty());
            assert(targets_view(ts@) =~= Seq::<(Seq<char>, TargetConfigView)>::empty());
        }
        while i < targets.len()
            invariant
                i <= targets.len(),
                raw == sections_view(targets@),
                parse_targets(raw.take(i as int)) == Ok::<
                    Seq<(Seq<char>, TargetConfigView)>,
                    ParseErrorView,
                >(targets_view(ts@)),
                distinct_keys(targets_view(ts@)),
                valid_name(name@),
                pname@ == name@,
                parse_project_list(strings_view(depends_on@)) == Ok::<
                    Seq<Seq<char>>,
                    ParseErrorView,
                >(names_view(deps@)),
            decreases targets.len() - i,
        {
            let ghost pre = raw.take(i as int);
            let ghost next = raw.take(i + 1);
            proof {
                assert(next.drop_last() =~= pre);
                assert(next.last() == targets@[i as int]@);
            }
            let sec = &targets[i];
            let tname = match TargetName::new(sec.name.as_str()) {
                Ok(t) => t,
                Err(e) => {
                    proof {
                        assert(parse_targets(next) == Err::<Seq<(Seq<char>, TargetConfigView)>, ParseErrorView>(e@));
                        lemma_parse_targets_prefix_err(raw, (i + 1) as int);
                        assert(parse_targets(raw) == Err::<Seq<(Seq<char>, TargetConfigView)>, ParseErrorView>(e@));
                    }
                    return Err(e);
                },
            };
            let tdeps = match parse_depends_vec(&sec.depends_on) {
                Ok(d) => d,
                Err(e) => {
                    proof {
                        lemma_parse_targets_prefix_err(raw, (i + 1) as int);
                    }
                    return Err(e);
                },
            };
            let cfg = TargetConfig {
                command: sec.command.clone(),
                depends_on: tdeps,
                inputs: sec.inputs.clone(),
                outputs: sec.outputs.clone(),
            };
            let ghost old_ts = targets_view(ts@);
            let ghost cfg_v = cfg@;
            proof {
                assert(cfg_v == (TargetConfigView {
                    command: sec@.command,
                    depends_on: depends_view(tdeps@),
                    inputs: sec@.inputs,
                    outputs: sec@.outputs,
                }));
            }
            match find_target(&ts, &tname) {
                Some(k) => {
                    proof {
                        assert(has_key(old_ts, tname@)) by {
                            assert(old_ts[k as int].0 == tname@);
                        }
                        let kk = key_index(old_ts, tname@);
                        assert(old_ts[kk].0 == old_ts[k as int].0);
                        assert(kk == k as int);
                    }
                    ts.set(k, (tname, cfg));
                    proof {
                        assert(targets_view(ts@) =~= old_ts.update(k as int, (sec@.name, cfg_v)));
                    }
                },
                None => {
                    ts.push((tname, cfg));
                    proof {
                        assert(targets_view(ts@) =~= old_ts.push((sec@.name, cfg_v)));
                    }
                },
            }
            i = i + 1;
        }
        proof {
            assert(raw.take(targets@.len() as int) =~= raw);
        }
        Ok(ProjectConfig { name: pname, tags, depends_on: deps, targets: ts, root })
    }

    pub fn name(&self) -> (r: &ProjectName)
        ensures
            r@ == self@.name,
    {
        &self.name
    }

    /// The same project, depending only on those of its dependencies that `keep` lists.
    pub fn keep_depends_on(&self, keep: &Vec<ProjectName>) -> (r: ProjectConfig)
        ensures
            r@ == (ProjectConfigView {
                depends_on: self@.depends_on.filter(|d: Seq<char>| names_view(keep@).contains(d)),
                ..self@
            }),
    {
        let ghost pred = |d: Seq<char>| names_view(keep@).contains(d);
        let ghost ds = self@.depends_on;
        let mut out: Vec<ProjectName> = Vec::new();
        let mut i: usize = 0;
        while i < self.depends_on.len()
            invariant
                ds == names_view(self.depends_on@),
                pred == (|d: Seq<char>| names_view(keep@).contains(d)),
                i <= self.depends_on.len(),
                names_view(out@) =~= ds.take(i as int).filter(pred),
            decreases self.depends_on.len() - i,
        {
            proof {
                assert(ds.take(i + 1).drop_last() =~= ds.take(i as int));
                assert(ds.take(i + 1).last() == ds[i as int]);
                reveal(Seq::filter);
                assert(ds.take(i + 1).filter(pred) == (if pred(ds[i as int]) {
                    ds.take(i as int).filter(pred).push(ds[i as int])
                } else {
                    ds.take(i as int).filter(pred)
                }));
            }
            let ghost old_out = out@;
            if name_listed(keep, &self.depends_on[i]) {
                out.push(self.depends_on[i].clone());
                proof {
                    assert(names_view(out@) =~= names_view(old_out).push(ds[i as int]));
                }
            }
            i = i + 1;
        }
        proof {
            assert(ds.take(ds.len() as int) =~= ds);
        }
        let mut r = self.clone();
        proof {
            use_type_invariant(&r);
        }
        r.depends_on = out;
        r
    }

    pub fn tags(&self) -> (r: &Vec<String>)
        ensures
            strings_view(r@) == self@.tags,
    {
        &self.tags
    }

    pub fn depends_on(&self) -> (r: &Vec<ProjectName>)
        ensures
            names_view(r@) == self@.depends_on,
    {
        &self.depends_on
    }

    /// The project's targets, each with its name; no two share a name.
    pub fn targets(&self) -> (r: &Vec<(TargetName, TargetConfig)>)
        ensures
            targets_view(r@) == self@.targets,
            distinct_keys(self@.targets),
    {
        proof {
            use_type_invariant(self);
        }
        &self.targets
    }

    /// The configuration of the target named `name`, if the project has one.
    pub fn target(&self, name: &TargetName) -> (r: Option<&TargetConfig>)
        ensures
            r is Some <==> self@.has_target(name@),
            r matches Some(c) ==> c@ == self@.target_config(name@),
    {
        proof {
            use_type_invariant(self);
        }
        match find_target(&self.targets, name) {
            Some(i) => {
                proof {
                    let tv = targets_view(self.targets@);
                    assert(tv[i as int].0 == name@);
                    let k = key_index(tv, name@);
                    assert(k == i as int);
                }
                Some(&self.targets[i].1)
            },
            None => None,
        }
    }

    /// The position of the target named `name` among the project's targets.
    pub fn target_index(&self, name: &TargetName) -> (r: Option<usize>)
        ensures
            r is None <==> !self@.has_target(name@),
            r matches Some(q) ==> q < self@.targets.len() && self@.targets[q as int].0 == name@,
            distinct_keys(self@.targets),
    {
        proof {
            use_type_invariant(self);
        }
        match find_target(&self.targets, name) {
            Some(i) => {
                proof {
                    assert(targets_view(self.targets@)[i as int].0 == name@);
                }
                Some(i)
            },
            None => None,
        }
    }

    /// Whether the project has a target named `name`.
    pub fn has_target(&self, name: &TargetName) -> (r: bool)
        ensures
            r == self@.has_target(name@),
    {
        match find_target(&self.targets, name) {
            Some(i) => {
                proof {
                    assert(targets_view(self.targets@)[i as int].0 == name@);
                }
                true
            },
            None => false,
        }
    }

    /// The project's root directory.
    pub fn root(&self) -> (r: &str)
        ensures
            r@ == self@.root,
    {
        self.root.as_str()
    }
}

impl TargetConfig {
    pub fn command(&self) -> (r: &str)
        ensures
            r@ == self@.command,
    {
        self.command.as_str()
    }

    pub fn depends_on(&self) -> (r: &Vec<DependsOn>)
        ensures
            depends_view(r@) == self@.depends_on,
    {
        &self.depends_on
    }

    pub fn inputs(&self) -> (r: &Vec<String>)
        ensures
            strings_view(r@) == self@.inputs,
    {
        &self.inputs
    }

    pub fn outputs(&self) -> (r: &Vec<String>)
        ensures
            strings_view(r@) == self@.outputs,
    {
        &self.outputs
    }
}

} // verus!
