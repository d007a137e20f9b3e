//! The project dependency graph: projects indexed by name, with an edge from each
//! project to every project it depends on, validated to be acyclic.

use vstd::prelude::*;

use crate::config::{ProjectConfig, ProjectName};
use crate::config::project::{ProjectConfigView, distinct_keys};
use crate::config::types::names_view;
use crate::error::GraphError;
use crate::graph::dag::{
    acyclic, adj_of, contains_index, edge, is_topo_order, on_cycle, rel_of, topo_sort, well_formed,
};

verus! {

/// The views of a sequence of project configurations.
pub open spec fn configs_view(v: Seq<ProjectConfig>) -> Seq<ProjectConfigView> {
    v.map_values(|p: ProjectConfig| p@)
}

/// Some project of `ps` is named `name`.
pub open spec fn has_name(ps: Seq<ProjectConfigView>, name: Seq<char>) -> bool {
    exists|i: int| 0 <= i < ps.len() && ps[i].name == name
}

/// The index of the project named `name` (meaningful when there is one).
pub open spec fn name_index(ps: Seq<ProjectConfigView>, name: Seq<char>) -> int {
    choose|i: int| 0 <= i < ps.len() && ps[i].name == name
}

/// No two projects share a name.
pub open spec fn distinct_names(ps: Seq<ProjectConfigView>) -> bool {
    forall|i: int, j: int| 0 <= i < ps.len() && 0 <= j < ps.len() && i != j ==> ps[i].name != ps[j].name
}

/// Adds `p`, replacing the project of the same name in place if there is one.
pub open spec fn upsert_project(ps: Seq<ProjectConfigView>, p: ProjectConfigView) -> Seq<ProjectConfigView> {
    if has_name(ps, p.name) {
        ps.update(name_index(ps, p.name), p)
    } else {
        ps.push(p)
    }
}

/// The projects indexed by name: a later project with the same name replaces an earlier one.
pub open spec fn index_projects(s: Seq<ProjectConfigView>) -> Seq<ProjectConfigView>
    decreases s.len(),
{
    if s.len() == 0 {
        Seq::empty()
    } else {
        upsert_project(index_projects(s.drop_last()), s.last())
    }
}

/// Projects that already have distinct names are indexed as they are, in their order.
pub proof fn lemma_index_distinct(s: Seq<ProjectConfigView>)
    requires
        distinct_names(s),
    ensures
        index_projects(s) == s,
    decreases s.len(),
{
    if s.len() > 0 {
        let t = s.drop_last();
        assert(distinct_names(t)) by {
            assert forall|i: int, j: int| 0 <= i < t.len() && 0 <= j < t.len() && i != j implies t[i].name != t[j].name by {
                assert(t[i] == s[i] && t[j] == s[j]);
            }
        }
        lemma_index_distinct(t);
        assert(!has_name(t, s.last().name)) by {
            if has_name(t, s.last().name) {
                let i = choose|i: int| 0 <= i < t.len() && t[i].name == s.last().name;
                assert(t[i] == s[i]);
            }
        }
        assert(t.push(s.last()) =~= s);
    }
}

/// Indexing projects by name keeps the same names, and keeps only projects it was given.
pub proof fn lemma_index_projects_members(s: Seq<ProjectConfigView>)
    ensures
        forall|n: Seq<char>| #[trigger] has_name(index_projects(s), n) <==> has_name(s, n),
        forall|i: int| 0 <= i < index_projects(s).len() ==> s.contains(#[trigger] index_projects(s)[i]),
    decreases s.len(),
{
    if s.len() > 0 {
        let t = s.drop_last();
        let p = s.last();
        lemma_index_projects_members(t);
        let ps = index_projects(t);
        let q = index_projects(s);
        assert(q == upsert_project(ps, p));
        assert forall|i: int| 0 <= i < q.len() implies s.contains(#[trigger] q[i]) by {
            if q[i] == p {
                assert(s[s.len() - 1] == p);
            } else {
                if has_name(ps, p.name) {
                    assert(q[i] == ps[i]);
                } else {
                    assert(i < ps.len());
                    assert(q[i] == ps[i]);
                }
                assert(t.contains(ps[i]));
                let j = choose|j: int| 0 <= j < t.len() && t[j] == ps[i];
                assert(s[j] == t[j]);
            }
        }
        assert forall|n: Seq<char>| #[trigger] has_name(q, n) <==> has_name(s, n) by {
            if has_name(s, n) {
                let j = choose|j: int| 0 <= j < s.len() && s[j].name == n;
                if j == s.len() - 1 {
                    if has_name(ps, p.name) {
                        let x = name_index(ps, p.name);
                        assert(q[x].name == n);
                    } else {
                        assert(q[ps.len() as int].name == n);
                    }
                } else {
                    assert(t[j].name == n);
                    assert(has_name(ps, n));
                    let y = choose|y: int| 0 <= y < ps.len() && ps[y].name == n;
                    if has_name(ps, p.name) {
                        let x = name_index(ps, p.name);
                        if y == x {
                            assert(q[x].name == p.name);
                            assert(ps[x].name == p.name);
                        } else {
                            assert(q[y].name == n);
                        }
                    } else {
                        assert(q[y].name == n);
                    }
                }
            }
            if has_name(q, n) {
                let y = choose|y: int| 0 <= y < q.len() && q[y].name == n;
                assert(s.contains(q[y]));
                let j = choose|j: int| 0 <= j < s.len() && s[j] == q[y];
                assert(s[j].name == n);
            }
        }
    }
}

/// Project `u` depends on project `v`.
pub open spec fn depends_edge(ps: Seq<ProjectConfigView>, u: usize, v: usize) -> bool {
    u < ps.len() && v < ps.len() && ps[u as int].depends_on.contains(ps[v as int].name)
}

/// The dependency relation between the projects of `ps`, by index.
pub open spec fn project_rel(ps: Seq<ProjectConfigView>) -> spec_fn(usize, usize) -> bool {
    |u: usize, v: usize| depends_edge(ps, u, v)
}

/// Every project that some project depends on is one of `ps`.
pub open spec fn all_deps_known(ps: Seq<ProjectConfigView>) -> bool {
    forall|i: int, d: Seq<char>| 0 <= i < ps.len() && #[trigger] ps[i].depends_on.contains(d) ==> has_name(ps, d)
}

/// Project `by` depends on `name`, which is not one of `ps`.
pub open spec fn unknown_reference(ps: Seq<ProjectConfigView>, name: Seq<char>, by: Seq<char>) -> bool {
    exists|i: int| 0 <= i < ps.len() && ps[i].name == by && ps[i].depends_on.contains(name) && !has_name(ps, name)
}

/// A project graph as plain values: the projects, and for each the indices of those it depends on.
pub struct ProjectGraphView {
    pub projects: Seq<ProjectConfigView>,
    pub edges: Seq<Seq<usize>>,
}

impl ProjectGraphView {
    /// The names of the projects, in index order.
    pub open spec fn names(self) -> Seq<Seq<char>> {
        self.projects.map_values(|p: ProjectConfigView| p.name)
    }

    /// The graph is consistent: distinct names, edges exactly the declared dependencies, no cycle.
    pub open spec fn wf(self) -> bool {
        &&& distinct_names(self.projects)
        &&& self.edges.len() == self.projects.len()
        &&& well_formed(self.edges)
        &&& forall|u: int| 0 <= u < self.edges.len() ==> #[trigger] self.edges[u].no_duplicates()
        &&& forall|u: usize, v: usize| edge(self.edges, u, v) <==> depends_edge(self.projects, u, v)
        &&& all_deps_known(self.projects)
        &&& acyclic(project_rel(self.projects), self.projects.len())
        &&& forall|p: int| 0 <= p < self.projects.len() ==> #[trigger] distinct_keys(self.projects[p].targets)
    }
}

/// A directed acyclic graph of project dependencies.
#[derive(Debug)]
pub struct ProjectGraph {
    /// The projects, no two with the same name.
    projects: Vec<ProjectConfig>,
    /// Adjacency lists: for each project, the indices of the projects it depends on.
    edges: Vec<Vec<usize>>,
}

impl View for ProjectGraph {
    type V = ProjectGraphView;

    closed spec fn view(&self) -> ProjectGraphView {
        ProjectGraphView { projects: configs_view(self.projects@), edges: adj_of(&self.edges) }
    }
}

impl ProjectGraph {
    #[verifier::type_invariant]
    spec fn inv(self) -> bool {
        self@.wf()
    }
}

/// Finds the project named `name` among `ps`.
fn find_project(ps: &Vec<ProjectConfig>, name: &ProjectName) -> (r: Option<usize>)
    ensures
        match r {
            Some(i) => i < ps.len() && configs_view(ps@)[i as int].name == name@,
            None => !has_name(configs_view(ps@), name@),
        },
{
    let mut i: usize = 0;
    while i < ps.len()
        invariant
            i <= ps.len(),
            forall|j: int| 0 <= j < i ==> configs_view(ps@)[j].name != name@,
        decreases ps.len() - i,
    {
        if ps[i].name().same(name) {
            return Some(i);
        }
        i = i + 1;
    }
    None
}

impl ProjectGraph {
    /// Builds the project dependency graph from discovered projects.
    ///
    /// Validates that every dependency names a known project and that no cycle exists.
    pub fn build(projects: Vec<ProjectConfig>) -> (r: Result<ProjectGraph, GraphError>)
        ensures
            ({
                let ps = index_projects(configs_view(projects@));
                &&& distinct_names(configs_view(projects@)) ==> ps == configs_view(projects@)
                &&& r matches Ok(g) ==> g@.projects == ps && g@.wf()
                &&& r is Ok <==> all_deps_known(ps) && acyclic(project_rel(ps), ps.len())
                &&& r matches Err(e) ==> match e {
                    GraphError::UnknownProject { name, referenced_by } => unknown_reference(
                        ps,
                        name@,
                        referenced_by@,
                    ),
                    GraphError::CycleDetected { cycle } => all_deps_known(ps) && exists|u: usize|
                        u < ps.len() && ps[u as int].name == cycle@ && on_cycle(project_rel(ps), u),
                    GraphError::Config(_) => false,
                }
            }),
    {
        let ghost input = configs_view(projects@);
        proof {
            if distinct_names(input) {
                lemma_index_distinct(input);
            }
        }
        let mut rest = projects;
        let mut list: Vec<ProjectConfig> = Vec::new();
        let ghost mut k: int = 0;
        proof {
            assert(input.take(0) =~= Seq::<ProjectConfigView>::empty());
            assert(configs_view(list@) =~= Seq::<ProjectConfigView>::empty());
        }
        while rest.len() > 0
            invariant
                0 <= k <= input.len(),
                configs_view(rest@) =~= input.skip(k),
                configs_view(list@) == index_projects(input.take(k)),
                distinct_names(configs_view(list@)),
                input == configs_view(projects@),
                distinct_names(input) ==> index_projects(input) == input,
            decreases rest.len(),
        {
            proof {
                assert(rest@.len() == configs_view(rest@).len());
            }
            let ghost old_rest = rest@;
            let p = rest.remove(0);
            proof {
                assert(rest@ =~= old_rest.skip(1));
                assert forall|x: int| 0 <= x < configs_view(rest@).len() implies configs_view(rest@)[x] == input.skip(k + 1)[x] by {
                    assert(configs_view(old_rest)[x + 1] == input.skip(k)[x + 1]);
                }
                assert(configs_view(rest@) =~= input.skip(k + 1));
                assert(input.take(k + 1).drop_last() =~= input.take(k));
                assert(input[k] == p@) by {
                    assert(input.skip(k)[0] == input[k]);
                }
            }
            let ghost old_list = configs_view(list@);
            match find_project(&list, p.name()) {
                Some(j) => {
                    proof {
                        assert(has_name(old_list, p@.name));
                        let jj = name_index(old_list, p@.name);
                        assert(old_list[jj].name == old_list[j as int].name);
                    }
                    list.set(j, p);
                    proof {
                        assert(configs_view(list@) =~= old_list.update(j as int, input[k]));
                    }
                },
                None => {
                    list.push(p);
                    proof {
                        assert(configs_view(list@) =~= old_list.push(input[k]));
                    }
                },
            }
            proof {
                k = k + 1;
            }
        }
        proof {
            assert(input.take(k) =~= input);
        }
        let ghost ps = configs_view(list@);
        // Resolve the declared dependencies into edges.
        let n = list.len();
        let mut edges: Vec<Vec<usize>> = Vec::new();
        let mut i: usize = 0;
        while i < n
            invariant
                n == list.len(),
                ps == configs_view(list@),
                ps == index_projects(input),
                input == configs_view(projects@),
                distinct_names(input) ==> index_projects(input) == input,
                distinct_names(ps),
                i <= n,
                edges.len() == i,
                forall|u: int, m: int| 0 <= u < i && 0 <= m < edges@[u]@.len() ==> #[trigger] edges@[u]@[m] < n,
                forall|u: int| 0 <= u < i ==> #[trigger] edges@[u]@.no_duplicates(),
                forall|u: int, v: usize| 0 <= u < i ==> (#[trigger] edges@[u]@.contains(v) <==> depends_edge(ps, u as usize, v)),
                forall|u: int, d: Seq<char>| 0 <= u < i && #[trigger] ps[u].depends_on.contains(d) ==> has_name(ps, d),
            decreases n - i,
        {
            let deps = list[i].depends_on();
            let mut row: Vec<usize> = Vec::new();
            let mut m: usize = 0;
            while m < deps.len()
                invariant
                    n == list.len(),
                    ps == configs_view(list@),
                    ps == index_projects(input),
                    input == configs_view(projects@),
                    distinct_names(input) ==> index_projects(input) == input,
                distinct_names(input) ==> index_projects(input) == input,
                    distinct_names(ps),
                    i < n,
                    names_view(deps@) == ps[i as int].depends_on,
                    m <= deps.len(),
                    forall|x: int| 0 <= x < row@.len() ==> #[trigger] row@[x] < n,
                    row@.no_duplicates(),
                    forall|v: usize| #[trigger] row@.contains(v) <==> (v < n && names_view(deps@).take(m as int).contains(ps[v as int].name)),
                    forall|d: Seq<char>| #[trigger] names_view(deps@).take(m as int).contains(d) ==> has_name(ps, d),
                decreases deps.len() - m,
            {
                let ghost pre = names_view(deps@).take(m as int);
                let ghost next = names_view(deps@).take(m + 1);
                proof {
                    assert(next =~= pre.push(deps@[m as int]@));
                }
                match find_project(&list, &deps[m]) {
                    None => {
                        proof {
                            assert(ps[i as int].depends_on.contains(deps@[m as int]@)) by {
                                assert(ps[i as int].depends_on[m as int] == deps@[m as int]@);
                            }
                            assert(!all_deps_known(ps));
                            assert(unknown_reference(ps, deps@[m as int]@, ps[i as int].name));
                        }
                        return Err(
                            GraphError::UnknownProject {
                                name: deps[m].to_string(),
                                referenced_by: list[i].name().to_string(),
                            },
                        );
                    },
                    Some(j) => {
                        let ghost old_row = row@;
                        if !contains_index(&row, j) {
                            row.push(j);
                            proof {
                                assert forall|a: int, b: int| 0 <= a < row@.len() && 0 <= b < row@.len() && a != b implies row@[a] != row@[b] by {
                                    if a == old_row.len() {
                                        assert(old_row.contains(row@[b]));
                                    } else if b == old_row.len() {
                                        assert(old_row.contains(row@[a]));
                                    }
                                }
                            }
                        }
                        proof {
                            assert forall|v: usize| #[trigger] row@.contains(v) <==> (v < n && next.contains(ps[v as int].name)) by {
                                if row@.contains(v) && v != j {
                                    assert(old_row.contains(v)) by {
                                        let x = choose|x: int| 0 <= x < row@.len() && row@[x] == v;
                                        if x == old_row.len() {
                                            assert(row@[x] == j);
                                        } else {
                                            assert(old_row[x] == v);
                                        }
                                    }
                                    let y = choose|y: int| 0 <= y < pre.len() && pre[y] == ps[v as int].name;
                                    assert(next[y] == ps[v as int].name);
                                }
                                if v == j {
                                    assert(next[m as int] == ps[v as int].name);
                                    if !old_row.contains(j) {
                                        assert(row@[row@.len() - 1] == j);
                                    }
                                }
                                if v < n && next.contains(ps[v as int].name) {
                                    let y = choose|y: int| 0 <= y < next.len() && next[y] == ps[v as int].name;
                                    if y < m {
                                        assert(pre[y] == ps[v as int].name);
                                        assert(old_row.contains(v));
                                        let x = choose|x: int| 0 <= x < old_row.len() && old_row[x] == v;
                                        assert(row@[x] == v);
                                    } else {
                                        assert(ps[v as int].name == ps[j as int].name);
                                        assert(v == j);
                                    }
                                }
                            }
                            assert forall|d: Seq<char>| #[trigger] next.contains(d) implies has_name(ps, d) by {
                                let y = choose|y: int| 0 <= y < next.len() && next[y] == d;
                                if y < m {
                                    assert(pre[y] == d);
                                    assert(pre.contains(d));
                                } else {
                                    assert(ps[j as int].name == d);
                                }
                            }
                        }
                    },
                }
                m = m + 1;
            }
            proof {
                assert(names_view(deps@).take(deps@.len() as int) =~= names_view(deps@));
            }
            let ghost old_edges = edges@;
            edges.push(row);
            proof {
                assert(edges@[i as int] == row);
                assert forall|u: int, v: usize| 0 <= u < i + 1 implies (#[trigger] edges@[u]@.contains(v) <==> depends_edge(ps, u as usize, v)) by {
                    if u < i {
                        assert(edges@[u] == old_edges[u]);
                    }
                }
                assert forall|u: int, d: Seq<char>| 0 <= u < i + 1 && #[trigger] ps[u].depends_on.contains(d) implies has_name(ps, d) by {
                    if u == i {
                        assert(names_view(deps@).contains(d));
                    }
                }
            }
            i = i + 1;
        }
        // Each project's targets have distinct names; `targets` states it of each in turn.
        let mut c: usize = 0;
        while c < n
            invariant
                n == list.len(),
                ps == configs_view(list@),
                c <= n,
                forall|p: int| 0 <= p < c ==> #[trigger] distinct_keys(ps[p].targets),
            decreases n - c,
        {
            let _ = list[c].targets();
            c = c + 1;
        }
        let ghost g = adj_of(&edges);
        proof {
            assert(well_formed(g)) by {
                assert forall|u: int, x: int| 0 <= u < g.len() && 0 <= x < g[u].len() implies #[trigger] g[u][x] < g.len() by {
                    assert(g[u] == edges@[u]@);
                }
            }
            assert forall|u: usize, v: usize| edge(g, u, v) <==> depends_edge(ps, u, v) by {
                if u < n {
                    assert(g[u as int] == edges@[u as int]@);
                }
            }
            assert(rel_of(g) =~= project_rel(ps));
        }
        match topo_sort(&edges) {
            Ok(_) => {
                let graph = ProjectGraph { projects: list, edges };
                proof {
                    assert forall|u: int| 0 <= u < g.len() implies #[trigger] g[u].no_duplicates() by {
                        assert(g[u] == edges@[u]@);
                    }
                }
                Ok(graph)
            },
            Err(u) => {
                proof {
                    assert(ps[u as int].name == list@[u as int]@.name);
                }
                Err(GraphError::CycleDetected { cycle: list[u].name().to_string() })
            },
        }
    }
}


/// The names of the projects at the given indices.
pub open spec fn names_at(g: ProjectGraphView, idx: Seq<usize>) -> Seq<Seq<char>> {
    idx.map_values(|v: usize| g.projects[v as int].name)
}

/// Listed by name, a topological order of the projects names every project once, and each
/// project after every project it depends on.
pub proof fn lemma_topo_order_names(g: ProjectGraphView, order: Seq<usize>)
    requires
        g.wf(),
        g.projects.len() <= usize::MAX,
        is_topo_order(g.edges, order),
    ensures
        names_at(g, order).len() == g.projects.len(),
        names_at(g, order).no_duplicates(),
        forall|i: int| 0 <= i < g.projects.len() ==> names_at(g, order).contains(#[trigger] g.projects[i].name),
        forall|a: int, b: int|
            0 <= a < order.len() && 0 <= b < order.len() && #[trigger] g.projects[name_index(
                g.projects,
                names_at(g, order)[a],
            )].depends_on.contains(#[trigger] names_at(g, order)[b]) ==> b < a,
{
    let ns = names_at(g, order);
    let n = g.projects.len();
    assert forall|a: int, b: int| 0 <= a < ns.len() && 0 <= b < ns.len() && a != b implies ns[a] != ns[b] by {
        assert(order[a] != order[b]);
        assert(order[a] < n && order[b] < n);
    }
    assert forall|i: int| 0 <= i < n implies ns.contains(#[trigger] g.projects[i].name) by {
        assert(order.contains(i as usize));
        let j = choose|j: int| 0 <= j < order.len() && order[j] == i as usize;
        assert(ns[j] == g.projects[i].name);
    }
    assert forall|a: int, b: int|
        0 <= a < order.len() && 0 <= b < order.len() && #[trigger] g.projects[name_index(g.projects, ns[a])].depends_on.contains(
            #[trigger] ns[b],
        ) implies b < a by {
        let u = order[a];
        let v = order[b];
        assert(u < n && v < n);
        let c = name_index(g.projects, ns[a]);
        assert(has_name(g.projects, ns[a])) by {
            assert(g.projects[u as int].name == ns[a]);
        }
        assert(g.projects[c].name == g.projects[u as int].name);
        assert(c == u as int);
        assert(depends_edge(g.projects, u, v));
        assert(edge(g.edges, u, v));
        assert(g.edges[order[a] as int].contains(v));
        let j = choose|j: int| 0 <= j < a && order[j] == v;
        assert(j == b);
    }
}

impl ProjectGraph {
    /// The index of the project named `name`, if there is one.
    pub(crate) fn index_of(&self, name: &ProjectName) -> (r: Option<usize>)
        ensures
            r is Some <==> has_name(self@.projects, name@),
            r matches Some(i) ==> i < self@.projects.len() && self@.projects[i as int].name == name@,
    {
        find_project(&self.projects, name)
    }

    /// The project at index `i`.
    pub(crate) fn project_at(&self, i: usize) -> (r: &ProjectConfig)
        requires
            i < self@.projects.len(),
        ensures
            r@ == self@.projects[i as int],
    {
        &self.projects[i]
    }

    /// The indices of the projects that project `i` depends on.
    pub(crate) fn deps_at(&self, i: usize) -> (r: &Vec<usize>)
        requires
            i < self@.projects.len(),
        ensures
            r@ == self@.edges[i as int],
            self@.wf(),
    {
        proof {
            use_type_invariant(self);
        }
        &self.edges[i]
    }

    /// The adjacency lists: for each project, the indices of the projects it depends on.
    pub(crate) fn edge_lists(&self) -> (r: &Vec<Vec<usize>>)
        ensures
            adj_of(r) == self@.edges,
            self@.wf(),
    {
        proof {
            use_type_invariant(self);
        }
        &self.edges
    }

    /// Returns all projects in topological order (dependencies before dependents).
    pub fn topological_order(&self) -> (r: Result<Vec<ProjectName>, GraphError>)
        ensures
            r is Ok,
            r matches Ok(o) ==> exists|order: Seq<usize>|
                is_topo_order(self@.edges, order) && names_view(o@) == names_at(self@, order),
            r matches Ok(o) ==> {
                &&& names_view(o@).len() == self@.projects.len()
                &&& names_view(o@).no_duplicates()
                &&& forall|i: int| 0 <= i < self@.projects.len() ==> names_view(o@).contains(#[trigger] self@.projects[i].name)
                &&& forall|a: int, b: int|
                    0 <= a < o.len() && 0 <= b < o.len() && #[trigger] self@.projects[name_index(
                        self@.projects,
                        names_view(o@)[a],
                    )].depends_on.contains(#[trigger] names_view(o@)[b]) ==> b < a
            },
    {
        proof {
            use_type_invariant(self);
        }
        let _ = self.projects.len();
        let ghost g = adj_of(&self.edges);
        match topo_sort(&self.edges) {
            Ok(order) => {
                let mut out: Vec<ProjectName> = Vec::new();
                let mut i: usize = 0;
                while i < order.len()
                    invariant
                        self@.wf(),
                        g == self@.edges,
                        is_topo_order(g, order@),
                        i <= order.len(),
                        names_view(out@) =~= names_at(self@, order@.take(i as int)),
                    decreases order.len() - i,
                {
                    let ghost old_out = out@;
                    let name = self.projects[order[i]].name().clone();
                    out.push(name);
                    proof {
                        assert(names_view(out@) =~= names_view(old_out).push(name@));
                        assert(order@.take(i + 1) =~= order@.take(i as int).push(order@[i as int]));
                        assert(names_at(self@, order@.take(i + 1)) =~= names_at(self@, order@.take(i as int)).push(name@));
                    }
                    i = i + 1;
                }
                proof {
                    assert(order@.take(order@.len() as int) =~= order@);
                    lemma_topo_order_names(self@, order@);
                }
                Ok(out)
            },
            Err(u) => {
                proof {
                    assert(rel_of(g) =~= project_rel(self@.projects));
                    assert(on_cycle(project_rel(self@.projects), u));
                }
                Err(GraphError::CycleDetected { cycle: self.projects[u].name().to_string() })
            },
        }
    }

    /// The configuration of the project named `name`.
    pub fn get(&self, name: &ProjectName) -> (r: Option<&ProjectConfig>)
        ensures
            r is Some <==> has_name(self@.projects, name@),
            r matches Some(p) ==> p@.name == name@ && p@ == self@.projects[name_index(self@.projects, name@)],
    {
        proof {
            use_type_invariant(self);
        }
        match find_project(&self.projects, name) {
            Some(i) => {
                proof {
                    let k = name_index(self@.projects, name@);
                    assert(self@.projects[k].name == self@.projects[i as int].name);
                }
                Some(&self.projects[i])
            },
            None => None,
        }
    }

    /// All project names, in index order.
    pub fn project_names(&self) -> (r: Vec<ProjectName>)
        ensures
            names_view(r@) == self@.names(),
    {
        let mut out: Vec<ProjectName> = Vec::new();
        let mut i: usize = 0;
        while i < self.projects.len()
            invariant
                i <= self.projects.len(),
                names_view(out@) =~= self@.names().take(i as int),
            decreases self.projects.len() - i,
        {
            let ghost old_out = out@;
            let name = self.projects[i].name().clone();
            out.push(name);
            proof {
                assert(names_view(out@) =~= names_view(old_out).push(name@));
                assert(self@.names().take(i + 1) =~= self@.names().take(i as int).push(name@));
            }
            i = i + 1;
        }
        proof {
            assert(self@.names().take(self.projects.len() as int) =~= self@.names());
        }
        out
    }

    /// The names of the projects that the project `name` depends on directly.
    pub fn dependencies(&self, name: &ProjectName) -> (r: Option<Vec<ProjectName>>)
        ensures
            r is Some <==> has_name(self@.projects, name@),
            r matches Some(ds) ==> names_view(ds@) == names_at(
                self@,
                self@.edges[name_index(self@.projects, name@)],
            ),
    {
        proof {
            use_type_invariant(self);
        }
        match find_project(&self.projects, name) {
            Some(i) => {
                proof {
                    let k = name_index(self@.projects, name@);
                    assert(self@.projects[k].name == self@.projects[i as int].name);
                }
                let row = &self.edges[i];
                let ghost g = adj_of(&self.edges);
                proof {
                    assert(row@ == g[i as int]);
                }
                let mut out: Vec<ProjectName> = Vec::new();
                let mut m: usize = 0;
                while m < row.len()
                    invariant
                        self@.wf(),
                        g == self@.edges,
                        i < self@.projects.len(),
                        row@ == g[i as int],
                        m <= row.len(),
                        names_view(out@) =~= names_at(self@, row@.take(m as int)),
                    decreases row.len() - m,
                {
                    assert(g[i as int][m as int] < g.len());
                    let ghost old_out = out@;
                    let dep = self.projects[row[m]].name().clone();
                    out.push(dep);
                    proof {
                        assert(names_view(out@) =~= names_view(old_out).push(dep@));
                        assert(row@.take(m + 1) =~= row@.take(m as int).push(row@[m as int]));
                        assert(names_at(self@, row@.take(m + 1)) =~= names_at(self@, row@.take(m as int)).push(dep@));
                    }
                    m = m + 1;
                }
                proof {
                    assert(row@.take(row@.len() as int) =~= row@);
                }
                Some(out)
            },
            None => None,
        }
    }

    /// Get the number of projects in the graph.
    pub fn len(&self) -> (r: usize)
        ensures
            r == self@.projects.len(),
            self@.wf(),
    {
        proof {
            use_type_invariant(self);
        }
        self.projects.len()
    }

    /// Returns true if the graph has no projects.
    pub fn is_empty(&self) -> (r: bool)
        ensures
            r == (self@.projects.len() == 0),
    {
        self.projects.len() == 0
    }
}

} // verus!
