//! Which projects a change affects: the projects that hold the changed files, and every
//! project that depends on one of those, directly or through other projects.

use vstd::prelude::*;

use crate::config::{ProjectConfig, ProjectName};
use crate::config::project::{ProjectConfigView, strings_view};
use crate::config::types::names_view;
use crate::graph::ProjectGraph;
use crate::graph::dag::{
    adj_of, edge, lemma_reaches_converse, reach_from, reached, reaches, rel_of, reverse_edges,
    well_formed,
};
use crate::graph::project::{ProjectGraphView, configs_view, depends_edge, project_rel};
use crate::paths::{join_path, joined_path, path_starts_with, starts_with_path};

verus! {

/// Some file of `files` lies under the root of the project `proj`.
pub open spec fn holds_changed(files: Seq<Seq<char>>, proj: ProjectConfigView) -> bool {
    exists|f: int| 0 <= f < files.len() && #[trigger] path_starts_with(files[f], proj.root)
}

/// Project `q` of `ps` is named `name` and holds one of `files`.
pub open spec fn holds_at(files: Seq<Seq<char>>, ps: Seq<ProjectConfigView>, q: int, name: Seq<char>) -> bool {
    ps[q].name == name && holds_changed(files, ps[q])
}

/// `name` names a project of `ps` whose root holds one of `files`.
pub open spec fn holds_some(files: Seq<Seq<char>>, ps: Seq<ProjectConfigView>, name: Seq<char>) -> bool {
    exists|q: int| 0 <= q < ps.len() && #[trigger] holds_at(files, ps, q, name)
}

/// Project `q` depends on project `c`, directly or through other projects.
pub open spec fn depends_transitively(ps: Seq<ProjectConfigView>, q: usize, c: usize) -> bool {
    &&& q < ps.len()
    &&& c < ps.len()
    &&& reaches(project_rel(ps), q, c)
}

/// `name` is not among `changed` and names a project that depends, directly or through other
/// projects, on a project named in `changed`.
pub open spec fn is_dependent(ps: Seq<ProjectConfigView>, changed: Seq<Seq<char>>, name: Seq<char>) -> bool {
    &&& !changed.contains(name)
    &&& exists|q: usize, c: usize|
        #[trigger] depends_transitively(ps, q, c) && ps[q as int].name == name && changed.contains(ps[c as int].name)
}

/// `name` names a project that the project named `start` depends on, directly or through
/// other projects.
pub open spec fn is_upstream(ps: Seq<ProjectConfigView>, start: Seq<char>, name: Seq<char>) -> bool {
    exists|p: usize, q: usize|
        #[trigger] depends_transitively(ps, p, q) && ps[p as int].name == start && ps[q as int].name == name
}

proof fn lemma_push_contains(s: Seq<Seq<char>>, x: Seq<char>, y: Seq<char>)
    ensures
        s.push(x).contains(y) <==> (s.contains(y) || y == x),
{
    if s.push(x).contains(y) && y != x {
        let j = choose|j: int| 0 <= j < s.push(x).len() && s.push(x)[j] == y;
        assert(s[j] == y);
    }
    if s.contains(y) {
        let j = choose|j: int| 0 <= j < s.len() && s[j] == y;
        assert(s.push(x)[j] == y);
    }
    if y == x {
        assert(s.push(x)[s.len() as int] == y);
    }
}

/// Whether `v` lists the name `n`.
pub fn name_listed(v: &Vec<ProjectName>, n: &ProjectName) -> (r: bool)
    ensures
        r == names_view(v@).contains(n@),
{
    let mut i: usize = 0;
    while i < v.len()
        invariant
            i <= v.len(),
            forall|j: int| 0 <= j < i ==> names_view(v@)[j] != n@,
        decreases v.len() - i,
    {
        if v[i].same(n) {
            proof {
                assert(names_view(v@)[i as int] == n@);
            }
            return true;
        }
        i = i + 1;
    }
    false
}

/// Whether some file of `files` lies under the directory `root`.
fn any_under(files: &Vec<String>, root: &str) -> (r: bool)
    ensures
        r == exists|f: int| 0 <= f < files.len() && #[trigger] path_starts_with(strings_view(files@)[f], root@),
{
    let ghost fs = strings_view(files@);
    let mut f: usize = 0;
    while f < files.len()
        invariant
            fs == strings_view(files@),
            f <= files.len(),
            forall|g: int| 0 <= g < f ==> !#[trigger] path_starts_with(fs[g], root@),
        decreases files.len() - f,
    {
        if starts_with_path(files[f].as_str(), root) {
            proof {
                assert(path_starts_with(fs[f as int], root@));
            }
            return true;
        }
        f = f + 1;
    }
    false
}

/// Map changed files to the projects that contain them: every project whose root holds one
/// of the files, in the order of `projects`, each name once.
pub fn map_files_to_projects(changed_files: &Vec<String>, projects: &Vec<ProjectConfig>) -> (r: Vec<
    ProjectName,
>)
    ensures
        names_view(r@).no_duplicates(),
        forall|name: Seq<char>|
            #[trigger] names_view(r@).contains(name) <==> holds_some(
                strings_view(changed_files@),
                configs_view(projects@),
                name,
            ),
{
    let ghost ps = configs_view(projects@);
    let ghost fs = strings_view(changed_files@);
    let mut out: Vec<ProjectName> = Vec::new();
    let mut p: usize = 0;
    while p < projects.len()
        invariant
            ps == configs_view(projects@),
            fs == strings_view(changed_files@),
            p <= projects.len(),
            names_view(out@).no_duplicates(),
            forall|name: Seq<char>|
                #[trigger] names_view(out@).contains(name) <==> exists|q: int|
                    0 <= q < p && #[trigger] holds_at(fs, ps, q, name),
        decreases projects.len() - p,
    {
        let project = &projects[p];
        let hit = any_under(changed_files, project.root());
        let name = project.name();
        let ghost old_out = out@;
        proof {
            assert(hit == holds_changed(fs, ps[p as int]));
        }
        let listed = name_listed(&out, name);
        if hit && !listed {
            out.push(name.clone());
            proof {
                assert(names_view(out@) =~= names_view(old_out).push(name@));
                assert forall|a: int, b: int|
                    0 <= a < names_view(out@).len() && 0 <= b < names_view(out@).len() && a != b implies names_view(
                    out@,
                )[a] != names_view(out@)[b] by {
                    if a == old_out.len() {
                        assert(names_view(old_out).contains(names_view(out@)[b]));
                    } else if b == old_out.len() {
                        assert(names_view(old_out).contains(names_view(out@)[a]));
                    }
                }
            }
        }
        proof {
            assert forall|nm: Seq<char>|
                #[trigger] names_view(out@).contains(nm) <==> exists|q: int|
                    0 <= q < p + 1 && #[trigger] holds_at(fs, ps, q, nm) by {
                if hit && !listed {
                    lemma_push_contains(names_view(old_out), name@, nm);
                }
                if names_view(old_out).contains(nm) {
                    let q = choose|q: int| 0 <= q < p && #[trigger] holds_at(fs, ps, q, nm);
                }
                if names_view(out@).contains(nm) && !names_view(old_out).contains(nm) {
                    assert(nm == name@);
                    assert(holds_at(fs, ps, p as int, nm));
                }
                if exists|q: int| 0 <= q < p + 1 && #[trigger] holds_at(fs, ps, q, nm) {
                    let q = choose|q: int| 0 <= q < p + 1 && #[trigger] holds_at(fs, ps, q, nm);
                    if q == p {
                        assert(nm == name@);
                        if !listed {
                            assert(names_view(out@).contains(nm)) by {
                                assert(names_view(out@)[old_out.len() as int] == nm);
                            }
                        }
                    } else {
                        assert(names_view(old_out).contains(nm));
                        if hit && !listed {
                            lemma_push_contains(names_view(old_out), name@, nm);
                        }
                    }
                }
            }
        }
        p = p + 1;
    }
    out
}

/// Along the reversed edges of a graph, a walk leads from `c` to `q` exactly when `q` depends
/// on `c`, directly or through other projects.
proof fn lemma_reversed_reach(g: ProjectGraphView, rev: Seq<Seq<usize>>, c: usize, q: usize)
    requires
        g.wf(),
        rev.len() == g.edges.len(),
        well_formed(rev),
        forall|i: usize, x: usize|
            i < g.edges.len() && x < g.edges.len() ==> (#[trigger] g.edges[i as int].contains(x)
                <==> #[trigger] rev[x as int].contains(i)),
    ensures
        reaches(rel_of(rev), c, q) <==> reaches(project_rel(g.projects), q, c),
{
    let n = g.edges.len();
    let fwd = rel_of(rev);
    let bwd = project_rel(g.projects);
    assert forall|a: usize, b: usize| #[trigger] fwd(a, b) == bwd(b, a) by {
        if a < n && b < n {
            assert(edge(g.edges, b, a) <==> depends_edge(g.projects, b, a));
        } else if a < n && rev[a as int].contains(b) {
            let k = choose|k: int| 0 <= k < rev[a as int].len() && rev[a as int][k] == b;
            assert(rev[a as int][k] < n);
        }
    }
    assert forall|a: usize, b: usize| #[trigger] bwd(a, b) == fwd(b, a) by {
        assert(fwd(b, a) == bwd(a, b));
    }
    if reaches(fwd, c, q) {
        lemma_reaches_converse(fwd, bwd, c, q);
    }
    if reaches(bwd, q, c) {
        lemma_reaches_converse(bwd, fwd, q, c);
    }
}

/// Expand the set of changed projects to every project that depends on one of them,
/// directly or through other projects. The changed projects themselves are left out.
pub fn expand_to_dependents(changed: &Vec<ProjectName>, graph: &ProjectGraph) -> (r: Vec<ProjectName>)
    ensures
        names_view(r@).no_duplicates(),
        forall|name: Seq<char>|
            #[trigger] names_view(r@).contains(name) <==> is_dependent(graph@.projects, names_view(changed@), name),
{
    let ghost g = graph@;
    let ghost ch = names_view(changed@);
    let edges = graph.edge_lists();
    let n = graph.len();
    let rev = reverse_edges(edges);
    let mut seeds: Vec<usize> = Vec::new();
    let mut i: usize = 0;
    while i < changed.len()
        invariant
            g == graph@,
            g.wf(),
            n == g.projects.len(),
            ch == names_view(changed@),
            i <= changed.len(),
            forall|j: int| 0 <= j < seeds.len() ==> #[trigger] seeds@[j] < n,
            forall|k: usize|
                k < n ==> (#[trigger] seeds@.contains(k) <==> ch.take(i as int).contains(g.projects[k as int].name)),
        decreases changed.len() - i,
    {
        let ghost old_seeds = seeds@;
        proof {
            assert(ch.take(i + 1) =~= ch.take(i as int).push(changed@[i as int]@));
        }
        match graph.index_of(&changed[i]) {
            Some(k) => {
                seeds.push(k);
                proof {
                    assert forall|k2: usize|
                        k2 < n implies (#[trigger] seeds@.contains(k2) <==> ch.take(i + 1).contains(
                            g.projects[k2 as int].name,
                        )) by {
                        if k2 == k {
                            assert(seeds@[seeds.len() - 1] == k);
                            assert(ch.take(i + 1)[i as int] == g.projects[k as int].name);
                        } else {
                            if old_seeds.contains(k2) {
                                let j = choose|j: int| 0 <= j < old_seeds.len() && old_seeds[j] == k2;
                                assert(seeds@[j] == k2);
                            }
                            if seeds@.contains(k2) {
                                let j = choose|j: int| 0 <= j < seeds.len() && seeds@[j] == k2;
                                assert(j < old_seeds.len());
                                assert(old_seeds[j] == k2);
                            }
                            if ch.take(i + 1).contains(g.projects[k2 as int].name) && !ch.take(i as int).contains(
                                g.projects[k2 as int].name,
                            ) {
                                assert(g.projects[k2 as int].name == g.projects[k as int].name);
                            }
                        }
                    }
                }
            },
            None => {
                proof {
                    assert forall|k2: usize|
                        k2 < n implies (#[trigger] seeds@.contains(k2) <==> ch.take(i + 1).contains(
                            g.projects[k2 as int].name,
                        )) by {
                        if ch.take(i + 1).contains(g.projects[k2 as int].name) && !ch.take(i as int).contains(
                            g.projects[k2 as int].name,
                        ) {
                            assert(g.projects[k2 as int].name == changed@[i as int]@);
                        }
                    }
                }
            },
        }
        i = i + 1;
    }
    proof {
        assert(ch.take(changed.len() as int) =~= ch);
    }
    let marked = reach_from(&rev, &seeds);
    let mut out: Vec<ProjectName> = Vec::new();
    let mut k: usize = 0;
    while k < n
        invariant
            g == graph@,
            g.wf(),
            n == g.projects.len(),
            ch == names_view(changed@),
            marked.len() == n,
            k <= n,
            names_view(out@).no_duplicates(),
            forall|nm: Seq<char>|
                #[trigger] names_view(out@).contains(nm) <==> exists|k2: usize|
                    k2 < k && #[trigger] marked@[k2 as int] && !ch.contains(g.projects[k2 as int].name)
                        && g.projects[k2 as int].name == nm,
        decreases n - k,
    {
        let project = graph.project_at(k);
        if marked[k] && !name_listed(changed, project.name()) {
            let ghost old_out = out@;
            out.push(project.name().clone());
            proof {
                assert(names_view(out@) =~= names_view(old_out).push(g.projects[k as int].name));
                assert(!names_view(old_out).contains(g.projects[k as int].name)) by {
                    if names_view(old_out).contains(g.projects[k as int].name) {
                        let k2 = choose|k2: usize|
                            k2 < k && #[trigger] marked@[k2 as int] && !ch.contains(g.projects[k2 as int].name)
                                && g.projects[k2 as int].name == g.projects[k as int].name;
                    }
                }
                assert forall|a: int, b: int|
                    0 <= a < names_view(out@).len() && 0 <= b < names_view(out@).len() && a != b implies names_view(
                    out@,
                )[a] != names_view(out@)[b] by {
                    if a == old_out.len() {
                        assert(names_view(old_out).contains(names_view(out@)[b]));
                    } else if b == old_out.len() {
                        assert(names_view(old_out).contains(names_view(out@)[a]));
                    }
                }
                assert forall|nm: Seq<char>|
                    #[trigger] names_view(out@).contains(nm) <==> exists|k2: usize|
                        k2 < k + 1 && #[trigger] marked@[k2 as int] && !ch.contains(g.projects[k2 as int].name)
                            && g.projects[k2 as int].name == nm by {
                    lemma_push_contains(names_view(old_out), g.projects[k as int].name, nm);
                    if exists|k2: usize|
                        k2 < k + 1 && #[trigger] marked@[k2 as int] && !ch.contains(g.projects[k2 as int].name)
                            && g.projects[k2 as int].name == nm {
                        let k2 = choose|k2: usize|
                            k2 < k + 1 && #[trigger] marked@[k2 as int] && !ch.contains(g.projects[k2 as int].name)
                                && g.projects[k2 as int].name == nm;
                        if k2 < k {
                            assert(names_view(old_out).contains(nm));
                        }
                    }
                }
            }
        }
        k = k + 1;
    }
    proof {
        let rg = adj_of(&rev);
        assert forall|nm: Seq<char>| #[trigger]
            names_view(out@).contains(nm) <==> is_dependent(g.projects, ch, nm) by {
            if names_view(out@).contains(nm) {
                let k2 = choose|k2: usize|
                    k2 < n && #[trigger] marked@[k2 as int] && !ch.contains(g.projects[k2 as int].name)
                        && g.projects[k2 as int].name == nm;
                assert(reached(rg, seeds@, k2));
                assert(!seeds@.contains(k2));
                let s = choose|s: usize| #[trigger] seeds@.contains(s) && reaches(rel_of(rg), s, k2);
                let j = choose|j: int| 0 <= j < seeds.len() && seeds@[j] == s;
                assert(s < n);
                lemma_reversed_reach(g, rg, s, k2);
                assert(depends_transitively(g.projects, k2, s));
            }
            if is_dependent(g.projects, ch, nm) {
                let (q, c) = choose|q: usize, c: usize|
                    #[trigger] depends_transitively(g.projects, q, c) && g.projects[q as int].name == nm && ch.contains(
                        g.projects[c as int].name,
                    );
                assert(seeds@.contains(c));
                lemma_reversed_reach(g, rg, c, q);
                assert(reached(rg, seeds@, q));
                assert(marked@[q as int]);
            }
        }
    }
    out
}

/// The changed files of a repository rooted at `repo_root`, from the paths, relative to the
/// root, that its diffs name: each path under the root, each once.
pub fn changed_paths(repo_root: &str, delta_paths: &Vec<String>) -> (r: Vec<String>)
    ensures
        strings_view(r@).no_duplicates(),
        forall|s: Seq<char>|
            #[trigger] strings_view(r@).contains(s) <==> exists|i: int|
                0 <= i < delta_paths.len() && s == joined_path(repo_root@, #[trigger] delta_paths@[i]@),
{
    let mut out: Vec<String> = Vec::new();
    let mut i: usize = 0;
    while i < delta_paths.len()
        invariant
            i <= delta_paths.len(),
            strings_view(out@).no_duplicates(),
            forall|s: Seq<char>|
                #[trigger] strings_view(out@).contains(s) <==> exists|k: int|
                    0 <= k < i && s == joined_path(repo_root@, #[trigger] delta_paths@[k]@),
        decreases delta_paths.len() - i,
    {
        let full = join_path(repo_root, delta_paths[i].as_str());
        let ghost before = strings_view(out@);
        let mut seen = false;
        let mut k: usize = 0;
        while k < out.len()
            invariant
                k <= out.len(),
                before == strings_view(out@),
                seen == exists|q: int| 0 <= q < k && before[q] == full@,
            decreases out.len() - k,
        {
            if crate::text::string_eq(&out[k], &full) {
                seen = true;
            }
            proof {
                if before[k as int] == full@ {
                    assert(exists|q: int| 0 <= q < k + 1 && before[q] == full@);
                }
                if exists|q: int| 0 <= q < k + 1 && before[q] == full@ {
                    let q = choose|q: int| 0 <= q < k + 1 && before[q] == full@;
                }
            }
            k = k + 1;
        }
        if !seen {
            out.push(full);
            proof {
                assert(strings_view(out@) =~= before.push(full@));
                assert(!before.contains(full@));
                assert forall|a: int, b: int|
                    0 <= a < strings_view(out@).len() && 0 <= b < strings_view(out@).len() && a != b implies strings_view(
                    out@,
                )[a] != strings_view(out@)[b] by {
                    if a == before.len() {
                        assert(before.contains(strings_view(out@)[b]));
                    } else if b == before.len() {
                        assert(before.contains(strings_view(out@)[a]));
                    }
                }
            }
        }
        proof {
            assert forall|s: Seq<char>|
                #[trigger] strings_view(out@).contains(s) <==> exists|k2: int|
                    0 <= k2 < i + 1 && s == joined_path(repo_root@, #[trigger] delta_paths@[k2]@) by {
                if !seen {
                    lemma_push_contains(before, full@, s);
                } else {
                    let q = choose|q: int| 0 <= q < before.len() && before[q] == full@;
                    assert(before.contains(full@));
                }
                if exists|k2: int| 0 <= k2 < i + 1 && s == joined_path(repo_root@, #[trigger] delta_paths@[k2]@) {
                    let k2 = choose|k2: int| 0 <= k2 < i + 1 && s == joined_path(repo_root@, #[trigger] delta_paths@[k2]@);
                    if k2 < i {
                        assert(before.contains(s));
                    }
                }
            }
        }
        i = i + 1;
    }
    out
}

/// Result of affected project detection.
#[derive(Debug)]
pub struct AffectedResult {
    /// Projects that have changed files.
    pub changed: Vec<ProjectName>,
    /// Projects that transitively depend on changed projects.
    pub dependents: Vec<ProjectName>,
    /// All affected projects: the changed ones, then their dependents.
    pub all: Vec<ProjectName>,
}

/// Compute the full set of affected projects: the projects holding the changed files, and
/// the projects that depend on those.
pub fn compute_affected(
    changed_files: &Vec<String>,
    projects: &Vec<ProjectConfig>,
    graph: &ProjectGraph,
) -> (r: AffectedResult)
    ensures
        names_view(r.changed@).no_duplicates(),
        forall|name: Seq<char>|
            #[trigger] names_view(r.changed@).contains(name) <==> holds_some(
                strings_view(changed_files@),
                configs_view(projects@),
                name,
            ),
        names_view(r.dependents@).no_duplicates(),
        forall|name: Seq<char>|
            #[trigger] names_view(r.dependents@).contains(name) <==> is_dependent(
                graph@.projects,
                names_view(r.changed@),
                name,
            ),
        names_view(r.all@) == names_view(r.changed@) + names_view(r.dependents@),
        names_view(r.all@).no_duplicates(),
{
    let changed = map_files_to_projects(changed_files, projects);
    let dependents = expand_to_dependents(&changed, graph);
    let mut all: Vec<ProjectName> = Vec::new();
    let mut i: usize = 0;
    while i < changed.len()
        invariant
            i <= changed.len(),
            names_view(all@) =~= names_view(changed@).take(i as int),
        decreases changed.len() - i,
    {
        let ghost old_all = all@;
        all.push(changed[i].clone());
        proof {
            assert(names_view(all@) =~= names_view(old_all).push(changed@[i as int]@));
            assert(names_view(changed@).take(i + 1) =~= names_view(changed@).take(i as int).push(
                changed@[i as int]@,
            ));
        }
        i = i + 1;
    }
    let mut j: usize = 0;
    while j < dependents.len()
        invariant
            j <= dependents.len(),
            names_view(all@) =~= names_view(changed@) + names_view(dependents@).take(j as int),
        decreases dependents.len() - j,
    {
        let ghost old_all = all@;
        all.push(dependents[j].clone());
        proof {
            assert(names_view(all@) =~= names_view(old_all).push(dependents@[j as int]@));
            assert(names_view(dependents@).take(j + 1) =~= names_view(dependents@).take(j as int).push(
                dependents@[j as int]@,
            ));
        }
        j = j + 1;
    }
    proof {
        let a = names_view(changed@);
        let b = names_view(dependents@);
        assert(b.take(b.len() as int) =~= b);
        assert forall|x: int, y: int|
            0 <= x < (a + b).len() && 0 <= y < (a + b).len() && x != y implies (a + b)[x] != (a + b)[y] by {
            if x < a.len() && y >= a.len() {
                assert(b.contains((a + b)[y]));
                assert(a.contains((a + b)[x]));
            } else if y < a.len() && x >= a.len() {
                assert(b.contains((a + b)[x]));
                assert(a.contains((a + b)[y]));
            } else if x >= a.len() && y >= a.len() {
                assert(b[x - a.len()] != b[y - a.len()]);
            }
        }
    }
    AffectedResult { changed, dependents, all }
}

/// Collect a project and every project it depends on, directly or through others.
pub fn collect_upstream_projects(graph: &ProjectGraph, start: &ProjectName) -> (r: Vec<ProjectName>)
    ensures
        names_view(r@).no_duplicates(),
        forall|name: Seq<char>|
            #[trigger] names_view(r@).contains(name) <==> (name == start@ || is_upstream(graph@.projects, start@, name)),
{
    let ghost g = graph@;
    let edges = graph.edge_lists();
    let n = graph.len();
    match graph.index_of(start) {
        None => {
            let mut out: Vec<ProjectName> = Vec::new();
            out.push(start.clone());
            proof {
                assert(names_view(out@) =~= seq![start@]);
                assert forall|name: Seq<char>| #[trigger]
                    names_view(out@).contains(name) <==> (name == start@ || is_upstream(g.projects, start@, name)) by {
                    if is_upstream(g.projects, start@, name) {
                        let (p, q) = choose|p: usize, q: usize|
                            #[trigger] depends_transitively(g.projects, p, q) && g.projects[p as int].name == start@
                                && g.projects[q as int].name == name;
                    }
                    if name == start@ {
                        assert(names_view(out@)[0] == name);
                    }
                }
            }
            out
        },
        Some(s) => {
            let mut seeds: Vec<usize> = Vec::new();
            seeds.push(s);
            let marked = reach_from(edges, &seeds);
            proof {
                assert(rel_of(g.edges) =~= project_rel(g.projects));
                assert(seeds@ =~= seq![s]);
            }
            let mut out: Vec<ProjectName> = Vec::new();
            let mut k: usize = 0;
            while k < n
                invariant
                    g == graph@,
                    g.wf(),
                    n == g.projects.len(),
                    marked.len() == n,
                    k <= n,
                    names_view(out@).no_duplicates(),
                    forall|nm: Seq<char>|
                        #[trigger] names_view(out@).contains(nm) <==> exists|k2: usize|
                            k2 < k && #[trigger] marked@[k2 as int] && g.projects[k2 as int].name == nm,
                decreases n - k,
            {
                if marked[k] {
                    let project = graph.project_at(k);
                    let ghost old_out = out@;
                    out.push(project.name().clone());
                    proof {
                        assert(names_view(out@) =~= names_view(old_out).push(g.projects[k as int].name));
                        assert(!names_view(old_out).contains(g.projects[k as int].name)) by {
                            if names_view(old_out).contains(g.projects[k as int].name) {
                                let k2 = choose|k2: usize|
                                    k2 < k && #[trigger] marked@[k2 as int] && g.projects[k2 as int].name
                                        == g.projects[k as int].name;
                            }
                        }
                        assert forall|a: int, b: int|
                            0 <= a < names_view(out@).len() && 0 <= b < names_view(out@).len() && a != b implies names_view(
                            out@,
                        )[a] != names_view(out@)[b] by {
                            if a == old_out.len() {
                                assert(names_view(old_out).contains(names_view(out@)[b]));
                            } else if b == old_out.len() {
                                assert(names_view(old_out).contains(names_view(out@)[a]));
                            }
                        }
                        assert forall|nm: Seq<char>|
                            #[trigger] names_view(out@).contains(nm) <==> exists|k2: usize|
                                k2 < k + 1 && #[trigger] marked@[k2 as int] && g.projects[k2 as int].name == nm by {
                            lemma_push_contains(names_view(old_out), g.projects[k as int].name, nm);
                            if exists|k2: usize|
                                k2 < k + 1 && #[trigger] marked@[k2 as int] && g.projects[k2 as int].name == nm {
                                let k2 = choose|k2: usize|
                                    k2 < k + 1 && #[trigger] marked@[k2 as int] && g.projects[k2 as int].name == nm;
                                if k2 < k {
                                    assert(names_view(old_out).contains(nm));
                                }
                            }
                        }
                    }
                }
                k = k + 1;
            }
            proof {
                assert forall|nm: Seq<char>| #[trigger]
                    names_view(out@).contains(nm) <==> (nm == start@ || is_upstream(g.projects, start@, nm)) by {
                    if nm == start@ {
                        assert(seeds@.contains(s)) by {
                            assert(seeds@[0] == s);
                        }
                        assert(reached(g.edges, seeds@, s));
                        assert(marked@[s as int]);
                    }
                    if names_view(out@).contains(nm) && nm != start@ {
                        let k2 = choose|k2: usize| k2 < n && #[trigger] marked@[k2 as int] && g.projects[k2 as int].name == nm;
                        assert(reached(g.edges, seeds@, k2));
                        if seeds@.contains(k2) {
                            assert(seeds@[0] == k2);
                        }
                        let s2 = choose|s2: usize| #[trigger] seeds@.contains(s2) && reaches(rel_of(g.edges), s2, k2);
                        assert(seeds@[0] == s2);
                        assert(depends_transitively(g.projects, s, k2));
                    }
                    if is_upstream(g.projects, start@, nm) {
                        let (p, q) = choose|p: usize, q: usize|
                            #[trigger] depends_transitively(g.projects, p, q) && g.projects[p as int].name == start@
                                && g.projects[q as int].name == nm;
                        assert(g.projects[p as int].name == g.projects[s as int].name);
                        assert(p == s);
                        assert(seeds@.contains(s)) by {
                            assert(seeds@[0] == s);
                        }
                        assert(reached(g.edges, seeds@, q));
                        assert(marked@[q as int]);
                    }
                }
            }
            out
        },
    }
}

/// The projects of `projects` whose names `keep` lists, in their order.
pub fn select_projects(projects: &Vec<ProjectConfig>, keep: &Vec<ProjectName>) -> (r: Vec<ProjectConfig>)
    ensures
        configs_view(r@) == configs_view(projects@).filter(
            |p: ProjectConfigView| names_view(keep@).contains(p.name),
        ),
{
    let ghost pred = |p: ProjectConfigView| names_view(keep@).contains(p.name);
    let ghost ps = configs_view(projects@);
    let mut out: Vec<ProjectConfig> = Vec::new();
    let mut i: usize = 0;
    while i < projects.len()
        invariant
            ps == configs_view(projects@),
            pred == (|p: ProjectConfigView| names_view(keep@).contains(p.name)),
            i <= projects.len(),
            configs_view(out@) =~= ps.take(i as int).filter(pred),
        decreases projects.len() - i,
    {
        let ghost old_out = out@;
        proof {
            assert(ps.take(i + 1).drop_last() =~= ps.take(i as int));
            assert(ps.take(i + 1).last() == ps[i as int]);
        }
        proof {
            reveal(Seq::filter);
            assert(ps.take(i + 1).filter(pred) == (if pred(ps[i as int]) {
                ps.take(i as int).filter(pred).push(ps[i as int])
            } else {
                ps.take(i as int).filter(pred)
            }));
        }
        if name_listed(keep, projects[i].name()) {
            out.push(projects[i].clone());
            proof {
                assert(configs_view(out@) =~= configs_view(old_out).push(ps[i as int]));
            }
        }
        i = i + 1;
    }
    proof {
        assert(ps.take(projects.len() as int) =~= ps);
    }
    out
}

} // verus!
