//! Directed graphs over the nodes `0..n`, given as adjacency lists, and a
//! topological sort that either orders every node after the nodes it points to
//! or names a node that lies on a cycle.

use vstd::prelude::*;

verus! {

/// The adjacency lists of a vector of vectors, as sequences.
pub open spec fn adj_of(adj: &Vec<Vec<usize>>) -> Seq<Seq<usize>> {
    Seq::new(adj@.len(), |i: int| adj@[i]@)
}

/// Every listed neighbour is a node of the graph.
pub open spec fn well_formed(adj: Seq<Seq<usize>>) -> bool {
    forall|u: int, k: int|
        0 <= u < adj.len() && 0 <= k < adj[u].len() ==> #[trigger] adj[u][k] < adj.len()
}

/// `u` points to `v`.
pub open spec fn edge(adj: Seq<Seq<usize>>, u: usize, v: usize) -> bool {
    u < adj.len() && adj[u as int].contains(v)
}

/// The edge relation of an adjacency list.
pub open spec fn rel_of(adj: Seq<Seq<usize>>) -> spec_fn(usize, usize) -> bool {
    |u: usize, v: usize| edge(adj, u, v)
}

/// Step `i` of `w` follows the relation `rel`.
pub open spec fn walk_step<A>(rel: spec_fn(A, A) -> bool, w: Seq<A>, i: int) -> bool {
    rel(w[i], w[i + 1])
}

/// `w` is a non-empty walk along `rel`.
pub open spec fn is_walk<A>(rel: spec_fn(A, A) -> bool, w: Seq<A>) -> bool {
    &&& w.len() >= 1
    &&& forall|i: int| 0 <= i < w.len() - 1 ==> #[trigger] walk_step(rel, w, i)
}

/// A walk of at least one step along `rel` leads from `u` to `v`.
pub open spec fn reaches<A>(rel: spec_fn(A, A) -> bool, u: A, v: A) -> bool {
    exists|w: Seq<A>|
        #![trigger is_walk(rel, w)]
        is_walk(rel, w) && w.len() >= 2 && w[0] == u && w.last() == v
}

/// `u` lies on a cycle of `rel`.
pub open spec fn on_cycle<A>(rel: spec_fn(A, A) -> bool, u: A) -> bool {
    reaches(rel, u, u)
}

/// No node below `n` lies on a cycle of `rel`.
pub open spec fn acyclic(rel: spec_fn(usize, usize) -> bool, n: nat) -> bool {
    forall|u: usize| u < n ==> !#[trigger] on_cycle(rel, u)
}

/// `order` lists every node exactly once, each after all the nodes it points to.
pub open spec fn is_topo_order(adj: Seq<Seq<usize>>, order: Seq<usize>) -> bool {
    &&& order.len() == adj.len()
    &&& order.no_duplicates()
    &&& forall|i: int| 0 <= i < order.len() ==> #[trigger] order[i] < adj.len()
    &&& forall|v: usize| v < adj.len() ==> #[trigger] order.contains(v)
    &&& deps_first(adj, order)
}

/// Every node of `order` comes after the nodes it points to.
pub open spec fn deps_first(adj: Seq<Seq<usize>>, order: Seq<usize>) -> bool {
    forall|i: int, v: usize|
        #![trigger order[i], adj[order[i] as int].contains(v)]
        0 <= i < order.len() && adj[order[i] as int].contains(v) ==> exists|j: int|
            0 <= j < i && order[j] == v
}

/// Number of `true` entries.
pub open spec fn count_true(s: Seq<bool>) -> nat
    decreases s.len(),
{
    if s.len() == 0 {
        0
    } else {
        count_true(s.drop_last()) + if s.last() {
            1nat
        } else {
            0nat
        }
    }
}

proof fn lemma_count_le(s: Seq<bool>)
    ensures
        count_true(s) <= s.len(),
    decreases s.len(),
{
    if s.len() > 0 {
        lemma_count_le(s.drop_last());
    }
}

proof fn lemma_count_set(s: Seq<bool>, i: int)
    requires
        0 <= i < s.len(),
        !s[i],
    ensures
        count_true(s.update(i, true)) == count_true(s) + 1,
    decreases s.len(),
{
    let t = s.update(i, true);
    if i == s.len() - 1 {
        assert(t.drop_last() =~= s.drop_last());
    } else {
        assert(t.drop_last() =~= s.drop_last().update(i, true));
        lemma_count_set(s.drop_last(), i);
    }
}

proof fn lemma_count_has_false(s: Seq<bool>)
    requires
        count_true(s) < s.len(),
    ensures
        exists|i: int| 0 <= i < s.len() && !s[i],
    decreases s.len(),
{
    if s.last() {
        lemma_count_has_false(s.drop_last());
        let i = choose|i: int| 0 <= i < s.drop_last().len() && !s.drop_last()[i];
        assert(!s[i]);
    } else {
        assert(!s[s.len() - 1]);
    }
}

proof fn lemma_all_false_count(n: nat)
    ensures
        count_true(Seq::new(n, |i: int| false)) == 0,
    decreases n,
{
    if n > 0 {
        assert(Seq::new(n, |i: int| false).drop_last() =~= Seq::new((n - 1) as nat, |i: int| false));
        lemma_all_false_count((n - 1) as nat);
    }
}

/// The position of `v` in `order`.
pub open spec fn position(order: Seq<usize>, v: usize) -> int {
    choose|i: int| 0 <= i < order.len() && order[i] == v
}

proof fn lemma_position(order: Seq<usize>, i: int)
    requires
        order.no_duplicates(),
        0 <= i < order.len(),
    ensures
        position(order, order[i]) == i,
{
    let v = order[i];
    assert(exists|j: int| 0 <= j < order.len() && order[j] == v);
    let p = position(order, v);
    assert(order[p] == order[i]);
}

proof fn lemma_walk_descends(adj: Seq<Seq<usize>>, order: Seq<usize>, w: Seq<usize>)
    requires
        is_topo_order(adj, order),
        is_walk(rel_of(adj), w),
        w.len() >= 2,
    ensures
        position(order, w.last()) < position(order, w[0]),
    decreases w.len(),
{
    let n = w.len();
    let u = w[n - 2];
    let v = w[n - 1];
    assert(walk_step(rel_of(adj), w, n - 2));
    assert(order.contains(u));
    let pu = choose|i: int| 0 <= i < order.len() && order[i] == u;
    lemma_position(order, pu);
    assert(adj[order[pu] as int].contains(v));
    let j = choose|j: int| 0 <= j < pu && order[j] == v;
    lemma_position(order, j);
    if n > 2 {
        let w2 = w.drop_last();
        assert forall|i: int| 0 <= i < w2.len() - 1 implies #[trigger] walk_step(rel_of(adj), w2, i) by {
            assert(walk_step(rel_of(adj), w, i));
        }
        lemma_walk_descends(adj, order, w2);
    }
}

/// A graph with a topological order has no cycle.
pub proof fn lemma_topo_order_acyclic(adj: Seq<Seq<usize>>, order: Seq<usize>)
    requires
        is_topo_order(adj, order),
    ensures
        acyclic(rel_of(adj), adj.len()),
{
    assert forall|u: usize| u < adj.len() implies !#[trigger] on_cycle(rel_of(adj), u) by {
        if on_cycle(rel_of(adj), u) {
            let w = choose|w: Seq<usize>|
                #![trigger is_walk(rel_of(adj), w)]
                is_walk(rel_of(adj), w) && w.len() >= 2 && w[0] == u && w.last() == u;
            lemma_walk_descends(adj, order, w);
        }
    }
}

/// A graph with a node on a cycle has no topological order.
pub proof fn lemma_cycle_no_topo_order(adj: Seq<Seq<usize>>, u: usize, order: Seq<usize>)
    requires
        u < adj.len(),
        on_cycle(rel_of(adj), u),
    ensures
        !is_topo_order(adj, order),
{
    if is_topo_order(adj, order) {
        lemma_topo_order_acyclic(adj, order);
    }
}

/// Whether `v` lists `x`.
pub fn contains_index(v: &Vec<usize>, x: usize) -> (r: bool)
    ensures
        r == v@.contains(x),
{
    let mut i: usize = 0;
    while i < v.len()
        invariant
            i <= v.len(),
            forall|j: int| 0 <= j < i ==> v@[j] != x,
        decreases v.len() - i,
    {
        if v[i] == x {
            return true;
        }
        i = i + 1;
    }
    false
}

fn falses(n: usize) -> (r: Vec<bool>)
    ensures
        r@ == Seq::new(n as nat, |i: int| false),
{
    let mut r: Vec<bool> = Vec::new();
    let mut i: usize = 0;
    while i < n
        invariant
            i <= n,
            r@ == Seq::new(i as nat, |k: int| false),
        decreases n - i,
    {
        r.push(false);
        i = i + 1;
        assert(r@ =~= Seq::new(i as nat, |k: int| false));
    }
    r
}

/// Whether every node `adj[u]` points to is marked.
fn all_marked(adj: &Vec<Vec<usize>>, u: usize, marked: &Vec<bool>) -> (r: bool)
    requires
        well_formed(adj_of(adj)),
        u < adj.len(),
        marked.len() == adj.len(),
    ensures
        r == forall|k: int| 0 <= k < adj@[u as int].len() ==> marked@[#[trigger] adj@[u as int]@[k] as int],
{
    let deps = &adj[u];
    let mut k: usize = 0;
    while k < deps.len()
        invariant
            well_formed(adj_of(adj)),
            u < adj.len(),
            marked.len() == adj.len(),
            deps@ == adj@[u as int]@,
            k <= deps.len(),
            forall|j: int| 0 <= j < k ==> marked@[#[trigger] deps@[j] as int],
        decreases deps.len() - k,
    {
        assert(adj_of(adj)[u as int][k as int] < adj.len());
        if !marked[deps[k]] {
            return false;
        }
        k = k + 1;
    }
    true
}

/// Orders the nodes so that each comes after every node it points to, or, when
/// no such order exists, returns a node that lies on a cycle.
pub fn topo_sort(adj: &Vec<Vec<usize>>) -> (r: Result<Vec<usize>, usize>)
    requires
        well_formed(adj_of(adj)),
    ensures
        r matches Ok(order) ==> is_topo_order(adj_of(adj), order@),
        r matches Err(u) ==> u < adj.len() && on_cycle(rel_of(adj_of(adj)), u),
        r is Ok <==> acyclic(rel_of(adj_of(adj)), adj.len() as nat),
{
    let ghost g = adj_of(adj);
    let n = adj.len();
    let mut placed = falses(n);
    let mut order: Vec<usize> = Vec::new();
    proof {
        lemma_all_false_count(n as nat);
    }
    while order.len() < n
        invariant
            g == adj_of(adj),
            well_formed(g),
            n == adj.len(),
            placed.len() == n,
            order.len() <= n,
            count_true(placed@) == order.len(),
            forall|v: usize| v < n ==> (placed@[v as int] <==> #[trigger] order@.contains(v)),
            order@.no_duplicates(),
            forall|i: int| 0 <= i < order.len() ==> #[trigger] order@[i] < n,
            deps_first(g, order@),
        decreases n - order.len(),
    {
        let before = order.len();
        let mut u: usize = 0;
        while u < n
            invariant
                g == adj_of(adj),
                well_formed(g),
                n == adj.len(),
                placed.len() == n,
                before <= order.len() <= n,
                u <= n,
                count_true(placed@) == order.len(),
                forall|v: usize| v < n ==> (placed@[v as int] <==> #[trigger] order@.contains(v)),
                order@.no_duplicates(),
                forall|i: int| 0 <= i < order.len() ==> #[trigger] order@[i] < n,
                deps_first(g, order@),
                order.len() == before ==> forall|w: usize|
                    w < u && !placed@[w as int] ==> exists|k: int|
                        0 <= k < g[w as int].len() && !#[trigger] placed@[g[w as int][k] as int],
            decreases n - u,
        {
            if !placed[u] {
                if all_marked(adj, u, &placed) {
                    proof {
                        lemma_count_set(placed@, u as int);
                        lemma_count_le(placed@.update(u as int, true));
                        assert forall|v: usize| #[trigger] g[u as int].contains(v) implies exists|j: int|
                            0 <= j < order@.len() && order@[j] == v by {
                            let k = choose|k: int| 0 <= k < g[u as int].len() && g[u as int][k] == v;
                            assert(placed@[adj@[u as int]@[k] as int]);
                            assert(v < n);
                            assert(order@.contains(v));
                        }
                    }
                    let ghost old_order = order@;
                    placed.set(u, true);
                    order.push(u);
                    proof {
                        assert(order@ == old_order.push(u));
                        assert forall|i: int, v: usize|
                            #![trigger order@[i], g[order@[i] as int].contains(v)]
                            0 <= i < order@.len() && g[order@[i] as int].contains(v) implies exists|j: int|
                            0 <= j < i && order@[j] == v by {
                            if i < old_order.len() {
                                assert(old_order[i] == order@[i]);
                                let j = choose|j: int| 0 <= j < i && old_order[j] == v;
                                assert(order@[j] == v);
                            } else {
                                let j = choose|j: int| 0 <= j < old_order.len() && old_order[j] == v;
                                assert(order@[j] == v);
                            }
                        }
                        assert forall|v: usize| v < n implies (placed@[v as int] <==> #[trigger] order@.contains(v)) by {
                            if v == u {
                                assert(order@[order@.len() - 1] == u);
                            } else if placed@[v as int] {
                                assert(old_order.contains(v));
                                let j = choose|j: int| 0 <= j < old_order.len() && old_order[j] == v;
                                assert(order@[j] == v);
                            } else if order@.contains(v) {
                                let j = choose|j: int| 0 <= j < order@.len() && order@[j] == v;
                                assert(j < old_order.len());
                                assert(old_order.contains(v));
                            }
                        }
                        assert forall|a: int, b: int| 0 <= a < order@.len() && 0 <= b < order@.len() && a != b implies order@[a] != order@[b] by {
                            if a == old_order.len() {
                                assert(old_order.contains(order@[b]));
                            } else if b == old_order.len() {
                                assert(old_order.contains(order@[a]));
                            }
                        }
                    }
                } else {
                    proof {
                        let k = choose|k: int| 0 <= k < adj@[u as int]@.len() && !placed@[adj@[u as int]@[k] as int];
                        assert(g[u as int][k] == adj@[u as int]@[k]);
                    }
                }
            }
            u = u + 1;
        }
        if order.len() == before {
            proof {
                lemma_count_has_false(placed@);
            }
            let r = find_cycle(adj, &placed);
            proof {
                assert(!acyclic(rel_of(g), n as nat)) by {
                    assert(on_cycle(rel_of(g), r));
                }
            }
            return Err(r);
        }
    }
    proof {
        assert forall|v: usize| v < n implies #[trigger] order@.contains(v) by {
            if !placed@[v as int] {
                lemma_count_set(placed@, v as int);
                lemma_count_le(placed@.update(v as int, true));
            }
        }
        lemma_topo_order_acyclic(g, order@);
    }
    Ok(order)
}

/// Given marks under which every unmarked node points to some unmarked node,
/// walks from an unmarked node until the walk repeats a node, which then lies on a cycle.
fn find_cycle(adj: &Vec<Vec<usize>>, placed: &Vec<bool>) -> (r: usize)
    requires
        well_formed(adj_of(adj)),
        placed.len() == adj.len(),
        exists|i: int| 0 <= i < placed.len() && !placed@[i],
        forall|w: usize|
            w < adj.len() && !placed@[w as int] ==> exists|k: int|
                0 <= k < adj_of(adj)[w as int].len() && !#[trigger] placed@[adj_of(adj)[w as int][k] as int],
    ensures
        r < adj.len(),
        on_cycle(rel_of(adj_of(adj)), r),
{
    let ghost g = adj_of(adj);
    let n = adj.len();
    let mut start: usize = 0;
    while start < n && placed[start]
        invariant
            n == placed.len(),
            start <= n,
            forall|i: int| 0 <= i < start ==> placed@[i],
            exists|i: int| 0 <= i < placed.len() && !placed@[i],
        decreases n - start,
    {
        start = start + 1;
    }
    let mut on_path = falses(n);
    proof {
        lemma_all_false_count(n as nat);
        lemma_count_set(on_path@, start as int);
    }
    on_path.set(start, true);
    let mut path: Vec<usize> = Vec::new();
    path.push(start);
    proof {
        lemma_count_le(on_path@);
        assert forall|v: usize| v < n implies (on_path@[v as int] <==> #[trigger] path@.contains(v)) by {
            if v == start {
                assert(path@[0] == start);
            }
        }
    }
    loop
        invariant
            g == adj_of(adj),
            well_formed(g),
            n == adj.len(),
            placed.len() == n,
            on_path.len() == n,
            forall|w: usize|
                w < n && !placed@[w as int] ==> exists|k: int|
                    0 <= k < g[w as int].len() && !#[trigger] placed@[g[w as int][k] as int],
            is_walk(rel_of(g), path@),
            path.len() <= n,
            count_true(on_path@) == path.len(),
            path@.no_duplicates(),
            forall|i: int| 0 <= i < path.len() ==> #[trigger] path@[i] < n && !placed@[path@[i] as int],
            forall|v: usize| v < n ==> (on_path@[v as int] <==> #[trigger] path@.contains(v)),
        decreases n - path.len(),
    {
        let cur = path[path.len() - 1];
        let deps = &adj[cur];
        proof {
            assert(deps@ == g[cur as int]);
        }
        let mut k: usize = 0;
        while k < deps.len() && placed[deps[k]]
            invariant
                well_formed(g),
                g == adj_of(adj),
                cur < n,
                n == adj.len(),
                placed.len() == n,
                deps@ == g[cur as int],
                k <= deps.len(),
                forall|j: int| 0 <= j < k ==> placed@[#[trigger] deps@[j] as int],
                exists|j: int| 0 <= j < deps@.len() && !#[trigger] placed@[deps@[j] as int],
            decreases deps.len() - k,
        {
            assert(g[cur as int][k as int] < n);
            k = k + 1;
        }
        let d = deps[k];
        proof {
            assert(g[cur as int][k as int] < n);
            assert(g[cur as int].contains(d));
        }
        if on_path[d] {
            proof {
                assert(path@.contains(d));
                let p = choose|p: int| 0 <= p < path@.len() && path@[p] == d;
                let w = path@.subrange(p, path@.len() as int).push(d);
                assert(w[0] == d);
                assert forall|i: int| 0 <= i < w.len() - 1 implies #[trigger] walk_step(rel_of(g), w, i) by {
                    if i < w.len() - 2 {
                        assert(walk_step(rel_of(g), path@, p + i));
                    }
                }
                assert(is_walk(rel_of(g), w));
            }
            return d;
        }
        let ghost old_path = path@;
        proof {
            lemma_count_set(on_path@, d as int);
            lemma_count_le(on_path@.update(d as int, true));
        }
        on_path.set(d, true);
        path.push(d);
        proof {
            assert(path@ == old_path.push(d));
            assert forall|i: int| 0 <= i < path@.len() - 1 implies #[trigger] walk_step(rel_of(g), path@, i) by {
                if i < old_path.len() - 1 {
                    assert(walk_step(rel_of(g), old_path, i));
                }
            }
            assert forall|v: usize| v < n implies (on_path@[v as int] <==> #[trigger] path@.contains(v)) by {
                if v == d {
                    assert(path@[path@.len() - 1] == d);
                } else if on_path@[v as int] {
                    assert(old_path.contains(v));
                    let j = choose|j: int| 0 <= j < old_path.len() && old_path[j] == v;
                    assert(path@[j] == v);
                } else if path@.contains(v) {
                    let j = choose|j: int| 0 <= j < path@.len() && path@[j] == v;
                    assert(old_path.contains(v));
                }
            }
            assert forall|a: int, b: int| 0 <= a < path@.len() && 0 <= b < path@.len() && a != b implies path@[a] != path@[b] by {
                if a == old_path.len() {
                    assert(old_path.contains(path@[b]));
                } else if b == old_path.len() {
                    assert(old_path.contains(path@[a]));
                }
            }
        }
    }
}

/// `v` is one of `seeds`, or a walk along `adj` leads to it from one of them.
pub open spec fn reached(adj: Seq<Seq<usize>>, seeds: Seq<usize>, v: usize) -> bool {
    ||| seeds.contains(v)
    ||| exists|s: usize| #[trigger] seeds.contains(s) && reaches(rel_of(adj), s, v)
}

/// Every node that `u` points to is marked.
pub open spec fn closed_at(adj: Seq<Seq<usize>>, marked: Seq<bool>, u: usize) -> bool {
    forall|k: int| 0 <= k < adj[u as int].len() ==> marked[#[trigger] adj[u as int][k] as int]
}

/// What is reached from the seeds is still reached one edge further.
proof fn lemma_reached_step(adj: Seq<Seq<usize>>, seeds: Seq<usize>, u: usize, v: usize)
    requires
        reached(adj, seeds, u),
        edge(adj, u, v),
    ensures
        reached(adj, seeds, v),
{
    let rel = rel_of(adj);
    if seeds.contains(u) {
        let w = seq![u, v];
        assert(walk_step(rel, w, 0));
        assert(is_walk(rel, w));
        assert(reaches(rel, u, v));
    } else {
        let s = choose|s: usize| #[trigger] seeds.contains(s) && reaches(rel, s, u);
        let w = choose|w: Seq<usize>|
            #![trigger is_walk(rel, w)]
            is_walk(rel, w) && w.len() >= 2 && w[0] == s && w.last() == u;
        let w2 = w.push(v);
        assert forall|i: int| 0 <= i < w2.len() - 1 implies #[trigger] walk_step(rel, w2, i) by {
            if i < w.len() - 1 {
                assert(walk_step(rel, w, i));
            }
        }
        assert(is_walk(rel, w2));
        assert(reaches(rel, s, v));
    }
}

/// A set of marked nodes closed under the edges holds the end of every walk that starts in it.
proof fn lemma_closed_walk(adj: Seq<Seq<usize>>, marked: Seq<bool>, w: Seq<usize>)
    requires
        well_formed(adj),
        marked.len() == adj.len(),
        is_walk(rel_of(adj), w),
        w[0] < adj.len(),
        marked[w[0] as int],
        forall|u: usize| u < adj.len() && marked[u as int] ==> #[trigger] closed_at(adj, marked, u),
    ensures
        marked[w.last() as int],
    decreases w.len(),
{
    let rel = rel_of(adj);
    if w.len() > 1 {
        let w2 = w.drop_last();
        assert forall|i: int| 0 <= i < w2.len() - 1 implies #[trigger] walk_step(rel, w2, i) by {
            assert(walk_step(rel, w, i));
        }
        lemma_closed_walk(adj, marked, w2);
        let u = w[w.len() - 2];
        assert(walk_step(rel, w, w.len() - 2));
        assert(closed_at(adj, marked, u));
        let k = choose|k: int| 0 <= k < adj[u as int].len() && adj[u as int][k] == w.last();
        assert(marked[adj[u as int][k] as int]);
    }
}

/// Marks every node that is one of `seeds` or that a walk along `adj` leads to from one of them.
pub fn reach_from(adj: &Vec<Vec<usize>>, seeds: &Vec<usize>) -> (r: Vec<bool>)
    requires
        well_formed(adj_of(adj)),
        forall|i: int| 0 <= i < seeds.len() ==> #[trigger] seeds@[i] < adj.len(),
    ensures
        r.len() == adj.len(),
        forall|v: usize| v < adj.len() ==> (r@[v as int] <==> #[trigger] reached(adj_of(adj), seeds@, v)),
{
    let ghost g = adj_of(adj);
    let n = adj.len();
    let mut marked = falses(n);
    let mut stack: Vec<usize> = Vec::new();
    proof {
        lemma_all_false_count(n as nat);
    }
    let mut i: usize = 0;
    while i < seeds.len()
        invariant
            g == adj_of(adj),
            n == adj.len(),
            forall|j: int| 0 <= j < seeds.len() ==> #[trigger] seeds@[j] < n,
            i <= seeds.len(),
            marked.len() == n,
            count_true(marked@) == stack.len(),
            stack@.no_duplicates(),
            forall|j: int| 0 <= j < stack.len() ==> #[trigger] stack@[j] < n && marked@[stack@[j] as int],
            forall|v: usize| v < n && marked@[v as int] ==> #[trigger] stack@.contains(v),
            forall|v: usize| v < n && marked@[v as int] ==> #[trigger] reached(g, seeds@, v),
            forall|j: int| 0 <= j < i ==> marked@[#[trigger] seeds@[j] as int],
        decreases seeds.len() - i,
    {
        let s = seeds[i];
        if !marked[s] {
            proof {
                lemma_count_set(marked@, s as int);
                assert(seeds@.contains(s)) by {
                    assert(seeds@[i as int] == s);
                }
            }
            let ghost old_stack = stack@;
            let ghost old_marked = marked@;
            marked.set(s, true);
            stack.push(s);
            proof {
                assert forall|v: usize| v < n && marked@[v as int] implies #[trigger] stack@.contains(v) by {
                    if v == s {
                        assert(stack@[stack.len() - 1] == s);
                    } else {
                        assert(old_marked[v as int]);
                        assert(old_stack.contains(v));
                        let j = choose|j: int| 0 <= j < old_stack.len() && old_stack[j] == v;
                        assert(stack@[j] == v);
                    }
                }
                assert forall|a: int, b: int| 0 <= a < stack.len() && 0 <= b < stack.len() && a != b implies stack@[a] != stack@[b] by {
                    if a == old_stack.len() {
                        assert(marked@[old_stack[b] as int]);
                    } else if b == old_stack.len() {
                        assert(marked@[old_stack[a] as int]);
                    }
                }
            }
        }
        i = i + 1;
    }
    proof {
        lemma_count_le(marked@);
    }
    while stack.len() > 0
        invariant
            g == adj_of(adj),
            well_formed(g),
            n == adj.len(),
            forall|j: int| 0 <= j < seeds.len() ==> #[trigger] seeds@[j] < n,
            marked.len() == n,
            count_true(marked@) <= n,
            stack@.no_duplicates(),
            forall|j: int| 0 <= j < stack.len() ==> #[trigger] stack@[j] < n && marked@[stack@[j] as int],
            forall|v: usize| v < n && marked@[v as int] ==> #[trigger] reached(g, seeds@, v),
            forall|j: int| 0 <= j < seeds.len() ==> marked@[#[trigger] seeds@[j] as int],
            forall|u: usize| u < n && marked@[u as int] && !stack@.contains(u) ==> #[trigger] closed_at(g, marked@, u),
        decreases (n - count_true(marked@)) * 2 + stack.len(),
    {
        let ghost m0 = (n - count_true(marked@)) * 2 + stack.len();
        let ghost s0 = stack@;
        let u = stack.pop().unwrap();
        proof {
            assert(s0 =~= stack@.push(u));
            assert(u < n && marked@[u as int]);
            assert(!stack@.contains(u)) by {
                if stack@.contains(u) {
                    let j = choose|j: int| 0 <= j < stack.len() && stack@[j] == u;
                    assert(stack@.push(u)[j] == stack@.push(u)[stack.len() as int]);
                }
            }
            assert forall|w: usize| w < n && w != u && marked@[w as int] && !stack@.contains(w) implies #[trigger] closed_at(g, marked@, w) by {
                if s0.contains(w) {
                    let j = choose|j: int| 0 <= j < s0.len() && s0[j] == w;
                    assert(j < stack.len());
                    assert(stack@[j] == w);
                }
            }
        }
        let row = &adj[u];
        proof {
            assert(row@ == g[u as int]);
        }
        let mut k: usize = 0;
        while k < row.len()
            invariant
                g == adj_of(adj),
                well_formed(g),
                n == adj.len(),
                forall|j: int| 0 <= j < seeds.len() ==> #[trigger] seeds@[j] < n,
                u < n,
                row@ == g[u as int],
                k <= row.len(),
                marked.len() == n,
                marked@[u as int],
                !stack@.contains(u),
                count_true(marked@) <= n,
                (n - count_true(marked@)) * 2 + stack.len() < m0,
                stack@.no_duplicates(),
                forall|j: int| 0 <= j < stack.len() ==> #[trigger] stack@[j] < n && marked@[stack@[j] as int],
                forall|v: usize| v < n && marked@[v as int] ==> #[trigger] reached(g, seeds@, v),
                forall|j: int| 0 <= j < seeds.len() ==> marked@[#[trigger] seeds@[j] as int],
                forall|w: usize| w < n && w != u && marked@[w as int] && !stack@.contains(w) ==> #[trigger] closed_at(g, marked@, w),
                forall|j: int| 0 <= j < k ==> marked@[#[trigger] row@[j] as int],
            decreases row.len() - k,
        {
            let v = row[k];
            proof {
                assert(g[u as int][k as int] < n);
            }
            if !marked[v] {
                proof {
                    assert(edge(g, u, v)) by {
                        assert(g[u as int][k as int] == v);
                    }
                    lemma_reached_step(g, seeds@, u, v);
                    lemma_count_set(marked@, v as int);
                    lemma_count_le(marked@.update(v as int, true));
                }
                let ghost old_stack = stack@;
                let ghost old_marked = marked@;
                marked.set(v, true);
                stack.push(v);
                proof {
                    assert forall|a: int, b: int| 0 <= a < stack.len() && 0 <= b < stack.len() && a != b implies stack@[a] != stack@[b] by {
                        if a == old_stack.len() {
                            assert(old_marked[old_stack[b] as int]);
                        } else if b == old_stack.len() {
                            assert(old_marked[old_stack[a] as int]);
                        }
                    }
                    assert(!stack@.contains(u)) by {
                        if stack@.contains(u) {
                            let j = choose|j: int| 0 <= j < stack.len() && stack@[j] == u;
                            if j < old_stack.len() {
                                assert(old_stack[j] == u);
                            }
                        }
                    }
                    assert forall|w: usize| w < n && w != u && marked@[w as int] && !stack@.contains(w) implies #[trigger] closed_at(g, marked@, w) by {
                        assert(w != v) by {
                            assert(stack@[stack.len() - 1] == v);
                        }
                        assert(!old_stack.contains(w)) by {
                            if old_stack.contains(w) {
                                let j = choose|j: int| 0 <= j < old_stack.len() && old_stack[j] == w;
                                assert(stack@[j] == w);
                            }
                        }
                        assert(closed_at(g, old_marked, w));
                    }
                }
            }
            k = k + 1;
        }
    }
    proof {
        assert forall|v: usize| v < n implies (marked@[v as int] <==> #[trigger] reached(g, seeds@, v)) by {
            if reached(g, seeds@, v) && !marked@[v as int] {
                if seeds@.contains(v) {
                    let j = choose|j: int| 0 <= j < seeds.len() && seeds@[j] == v;
                    assert(marked@[seeds@[j] as int]);
                } else {
                    let s = choose|s: usize| #[trigger] seeds@.contains(s) && reaches(rel_of(g), s, v);
                    let w = choose|w: Seq<usize>|
                        #![trigger is_walk(rel_of(g), w)]
                        is_walk(rel_of(g), w) && w.len() >= 2 && w[0] == s && w.last() == v;
                    let j = choose|j: int| 0 <= j < seeds.len() && seeds@[j] == s;
                    assert(marked@[seeds@[j] as int]);
                    lemma_closed_walk(g, marked@, w);
                }
            }
        }
    }
    marked
}

/// The reversed adjacency lists: `r[x]` lists every `i` whose list `deps[i]` holds `x`, each once.
pub fn reverse_edges(deps: &Vec<Vec<usize>>) -> (r: Vec<Vec<usize>>)
    requires
        well_formed(adj_of(deps)),
    ensures
        r.len() == deps.len(),
        well_formed(adj_of(&r)),
        forall|x: int| 0 <= x < r.len() ==> #[trigger] adj_of(&r)[x].no_duplicates(),
        forall|i: usize, x: usize|
            i < deps.len() && x < deps.len() ==> (#[trigger] adj_of(deps)[i as int].contains(x) <==> #[trigger] adj_of(&r)[x as int].contains(i)),
{
    let n = deps.len();
    let mut r: Vec<Vec<usize>> = Vec::new();
    let mut x: usize = 0;
    while x < n
        invariant
            n == deps.len(),
            x <= n,
            r.len() == x,
            forall|y: int, k: int| 0 <= y < x && 0 <= k < r@[y]@.len() ==> #[trigger] r@[y]@[k] < n,
            forall|y: int| 0 <= y < x ==> #[trigger] r@[y]@.no_duplicates(),
            forall|i: usize, y: usize| i < n && y < x ==> (#[trigger] adj_of(deps)[i as int].contains(y) <==> #[trigger] r@[y as int]@.contains(i)),
        decreases n - x,
    {
        let mut row: Vec<usize> = Vec::new();
        let mut i: usize = 0;
        while i < n
            invariant
                n == deps.len(),
                x < n,
                i <= n,
                forall|k: int| 0 <= k < row@.len() ==> #[trigger] row@[k] < i,
                row@.no_duplicates(),
                forall|j: usize| j < i ==> (#[trigger] adj_of(deps)[j as int].contains(x) <==> row@.contains(j)),
            decreases n - i,
        {
            proof {
                assert(adj_of(deps)[i as int] == deps@[i as int]@);
            }
            if contains_index(&deps[i], x) {
                let ghost old_row = row@;
                row.push(i);
                proof {
                    assert forall|a: int, b: int| 0 <= a < row@.len() && 0 <= b < row@.len() && a != b implies row@[a] != row@[b] by {
                        if a == old_row.len() {
                            assert(row@[b] < i);
                        } else if b == old_row.len() {
                            assert(row@[a] < i);
                        }
                    }
                    assert forall|j: usize| j < i + 1 implies (#[trigger] adj_of(deps)[j as int].contains(x) <==> row@.contains(j)) by {
                        if j < i {
                            if old_row.contains(j) {
                                let a = choose|a: int| 0 <= a < old_row.len() && old_row[a] == j;
                                assert(row@[a] == j);
                            }
                            if row@.contains(j) {
                                let a = choose|a: int| 0 <= a < row@.len() && row@[a] == j;
                                if a == old_row.len() {
                                    assert(row@[a] == i);
                                } else {
                                    assert(old_row[a] == j);
                                }
                            }
                        } else {
                            assert(row@[old_row.len() as int] == i);
                        }
                    }
                }
            } else {
                proof {
                    assert forall|j: usize| j < i + 1 implies (#[trigger] adj_of(deps)[j as int].contains(x) <==> row@.contains(j)) by {
                        if j == i && row@.contains(j) {
                            let a = choose|a: int| 0 <= a < row@.len() && row@[a] == j;
                            assert(row@[a] < i);
                        }
                    }
                }
            }
            i = i + 1;
        }
        let ghost old_r = r@;
        r.push(row);
        proof {
            assert forall|i2: usize, y: usize| i2 < n && y < x + 1 implies (#[trigger] adj_of(deps)[i2 as int].contains(y) <==> #[trigger] r@[y as int]@.contains(i2)) by {
                if y < x {
                    assert(r@[y as int] == old_r[y as int]);
                }
            }
            assert forall|y: int, k: int| 0 <= y < x + 1 && 0 <= k < r@[y]@.len() implies #[trigger] r@[y]@[k] < n by {
                if y < x {
                    assert(r@[y] == old_r[y]);
                }
            }
            assert forall|y: int| 0 <= y < x + 1 implies #[trigger] r@[y]@.no_duplicates() by {
                if y < x {
                    assert(r@[y] == old_r[y]);
                }
            }
        }
        x = x + 1;
    }
    proof {
        let g = adj_of(&r);
        assert forall|u: int, k: int| 0 <= u < g.len() && 0 <= k < g[u].len() implies #[trigger] g[u][k] < g.len() by {
            assert(g[u] == r@[u]@);
        }
        assert forall|x2: int| 0 <= x2 < r.len() implies #[trigger] adj_of(&r)[x2].no_duplicates() by {
            assert(g[x2] == r@[x2]@);
        }
        assert forall|i2: usize, y: usize| i2 < deps.len() && y < deps.len() implies (#[trigger] adj_of(deps)[i2 as int].contains(y) <==> #[trigger] adj_of(&r)[y as int].contains(i2)) by {
            assert(g[y as int] == r@[y as int]@);
        }
    }
    r
}

/// Read backwards, a walk along one relation is a walk along its converse.
pub proof fn lemma_reaches_converse(
    fwd: spec_fn(usize, usize) -> bool,
    bwd: spec_fn(usize, usize) -> bool,
    u: usize,
    v: usize,
)
    requires
        forall|a: usize, b: usize| #[trigger] fwd(a, b) == bwd(b, a),
        reaches(fwd, u, v),
    ensures
        reaches(bwd, v, u),
{
    let w = choose|w: Seq<usize>|
        #![trigger is_walk(fwd, w)]
        is_walk(fwd, w) && w.len() >= 2 && w[0] == u && w.last() == v;
    let n = w.len();
    let r = Seq::new(n, |i: int| w[n - 1 - i]);
    assert forall|i: int| 0 <= i < r.len() - 1 implies #[trigger] walk_step(bwd, r, i) by {
        let j = n - 2 - i;
        assert(walk_step(fwd, w, j));
        assert(fwd(w[j], w[j + 1]) == bwd(w[j + 1], w[j]));
    }
    assert(is_walk(bwd, r));
    assert(r[0] == v);
    assert(r.last() == u);
}

} // verus!
