//! Directed graphs over the nodes `0..n`: reachability and cycle groups.
use vstd::prelude::*;

verus! {

/// `(u, v)` is one of the edges.
pub open spec fn is_edge(edges: Seq<(usize, usize)>, u: int, v: int) -> bool {
    exists|k: int| 0 <= k < edges.len() && edges[k].0 as int == u && edges[k].1 as int == v
}

/// `path` follows edges from its first node to its last.
pub open spec fn is_path(edges: Seq<(usize, usize)>, path: Seq<int>) -> bool {
    &&& path.len() >= 1
    &&& forall|k: int| 0 <= k < path.len() - 1 ==> is_edge(edges, #[trigger] path[k], path[k + 1])
}

/// There is a path (possibly empty) from `u` to `v`.
pub open spec fn reaches(edges: Seq<(usize, usize)>, u: int, v: int) -> bool {
    exists|path: Seq<int>| #[trigger] is_path(edges, path) && path[0] == u && path.last() == v
}

/// `u` and `v` reach one another.
pub open spec fn mutually_reachable(edges: Seq<(usize, usize)>, u: int, v: int) -> bool {
    reaches(edges, u, v) && reaches(edges, v, u)
}

/// `u` lies on a directed cycle of at least one edge.
pub open spec fn on_cycle(edges: Seq<(usize, usize)>, u: int) -> bool {
    exists|w: int| is_edge(edges, u, w) && reaches(edges, w, u)
}

/// Every edge joins two of the nodes `0..n`.
pub open spec fn edges_within(edges: Seq<(usize, usize)>, n: nat) -> bool {
    forall|k: int| 0 <= k < edges.len() ==> (#[trigger] edges[k]).0 < n && edges[k].1 < n
}

/// Some group holds the node `v`.
pub open spec fn holds_node(groups: Seq<Vec<usize>>, v: int) -> bool {
    exists|c: int, i: int|
        0 <= c < groups.len() && 0 <= i < groups[c]@.len() && #[trigger] groups[c]@[i] == v
}

/// Some start node reaches `v`.
pub open spec fn reached_from(edges: Seq<(usize, usize)>, starts: Seq<usize>, v: int) -> bool {
    exists|i: int| 0 <= i < starts.len() && reaches(edges, starts[i] as int, v)
}

pub proof fn lemma_reaches_self(edges: Seq<(usize, usize)>, u: int)
    ensures
        reaches(edges, u, u),
{
    let p = seq![u];
    assert(is_path(edges, p) && p[0] == u && p.last() == u);
}

pub proof fn lemma_edge_reaches(edges: Seq<(usize, usize)>, u: int, v: int)
    requires
        is_edge(edges, u, v),
    ensures
        reaches(edges, u, v),
{
    let p = seq![u, v];
    assert(is_path(edges, p) && p[0] == u && p.last() == v);
}

pub proof fn lemma_reaches_transitive(edges: Seq<(usize, usize)>, u: int, v: int, w: int)
    requires
        reaches(edges, u, v),
        reaches(edges, v, w),
    ensures
        reaches(edges, u, w),
{
    let p = choose|p: Seq<int>| is_path(edges, p) && p[0] == u && p.last() == v;
    let q = choose|q: Seq<int>| is_path(edges, q) && q[0] == v && q.last() == w;
    let r = p + q.drop_first();
    assert forall|k: int| 0 <= k < r.len() - 1 implies is_edge(edges, #[trigger] r[k], r[k + 1]) by {
        if k < p.len() - 1 {
            assert(r[k] == p[k] && r[k + 1] == p[k + 1]);
        } else {
            let j = k - (p.len() - 1);
            assert(r[k] == q[j]);
            assert(r[k + 1] == q[j + 1]);
        }
    }
    if q.len() == 1 {
        assert(r.last() == p.last());
    } else {
        assert(r.last() == q.last());
    }
    assert(is_path(edges, r));
}

/// A path between two different nodes starts with an edge.
pub proof fn lemma_reaches_first_step(edges: Seq<(usize, usize)>, u: int, v: int)
    requires
        reaches(edges, u, v),
        u != v,
    ensures
        exists|w: int| is_edge(edges, u, w) && reaches(edges, w, v),
{
    let p = choose|p: Seq<int>| is_path(edges, p) && p[0] == u && p.last() == v;
    assert(p.len() >= 2);
    let q = p.drop_first();
    assert(is_edge(edges, p[0], p[1]));
    assert forall|k: int| 0 <= k < q.len() - 1 implies is_edge(edges, #[trigger] q[k], q[k + 1]) by {
        assert(q[k] == p[k + 1]);
        assert(is_edge(edges, p[k + 1], p[k + 2]));
    }
    assert(is_path(edges, q) && q[0] == p[1] && q.last() == v);
    assert(reaches(edges, p[1], v));
}

/// A set of nodes closed under edges and holding `u` holds everything `u` reaches.
pub proof fn lemma_closed_holds_reachable(
    edges: Seq<(usize, usize)>,
    held: Seq<bool>,
    u: int,
    v: int,
)
    requires
        0 <= u < held.len(),
        held[u],
        reaches(edges, u, v),
        edges_within(edges, held.len()),
        forall|a: int, b: int|
            0 <= a < held.len() && #[trigger] held[a] && is_edge(edges, a, b) ==> 0 <= b < held.len()
                && #[trigger] held[b],
    ensures
        0 <= v < held.len() && held[v],
{
    let p = choose|p: Seq<int>| is_path(edges, p) && p[0] == u && p.last() == v;
    lemma_closed_holds_path(edges, held, p, 0);
}

proof fn lemma_closed_holds_path(edges: Seq<(usize, usize)>, held: Seq<bool>, p: Seq<int>, k: int)
    requires
        is_path(edges, p),
        0 <= k < p.len(),
        0 <= p[k] < held.len(),
        held[p[k]],
        edges_within(edges, held.len()),
        forall|a: int, b: int|
            0 <= a < held.len() && #[trigger] held[a] && is_edge(edges, a, b) ==> 0 <= b < held.len()
                && #[trigger] held[b],
    ensures
        0 <= p.last() < held.len() && held[p.last()],
    decreases p.len() - k,
{
    if k < p.len() - 1 {
        assert(is_edge(edges, p[k], p[k + 1]));
        lemma_closed_holds_path(edges, held, p, k + 1);
    }
}

/// `sccs` partitions the nodes `0..node_count` into groups of mutually reachable nodes.
pub open spec fn components_of(node_count: nat, edges: Seq<(usize, usize)>, sccs: Seq<Vec<usize>>) -> bool {
    &&& forall|c: int| 0 <= c < sccs.len() ==> (#[trigger] sccs[c])@.len() > 0
    &&& forall|c: int, i: int|
        0 <= c < sccs.len() && 0 <= i < sccs[c]@.len() ==> #[trigger] sccs[c]@[i] < node_count
    &&& forall|v: int| 0 <= v < node_count ==> #[trigger] holds_node(sccs, v)
    &&& forall|c: int, i: int, d: int, j: int|
        0 <= c < sccs.len() && 0 <= i < sccs[c]@.len() && 0 <= d < sccs.len() && 0 <= j
            < sccs[d]@.len() && #[trigger] sccs[c]@[i] == #[trigger] sccs[d]@[j] ==> c == d && i == j
    &&& forall|c: int, i: int, d: int, j: int|
        0 <= c < sccs.len() && 0 <= i < sccs[c]@.len() && 0 <= d < sccs.len() && 0 <= j
            < sccs[d]@.len() ==> (mutually_reachable(
            edges,
            #[trigger] sccs[c]@[i] as int,
            #[trigger] sccs[d]@[j] as int,
        ) <==> c == d)
}

/// The directed graph type of `petgraph`, with `usize` node indices.
#[verifier::external_type_specification]
#[verifier::external_body]
#[verifier::reject_recursive_types(N)]
#[verifier::reject_recursive_types(E)]
#[verifier::reject_recursive_types(Ty)]
#[verifier::reject_recursive_types(Ix)]
pub struct ExGraph<N, E, Ty, Ix>(petgraph::graph::Graph<N, E, Ty, Ix>);

/// The marker type of directed `petgraph` graphs.
#[verifier::external_type_specification]
#[verifier::external_body]
pub struct ExDirected(petgraph::Directed);

/// The number of nodes of a `petgraph` graph (its nodes are `0..graph_order(g)`).
pub uninterp spec fn graph_order(g: petgraph::graph::Graph<(), (), petgraph::Directed, usize>) -> nat;

/// The edges of a `petgraph` graph, in the order they were added.
pub uninterp spec fn graph_edges(g: petgraph::graph::Graph<(), (), petgraph::Directed, usize>) -> Seq<(usize, usize)>;

/// `petgraph::graph::Graph::default`: a graph without nodes or edges.
#[verifier::external_body]
fn empty_graph() -> (g: petgraph::graph::Graph<(), (), petgraph::Directed, usize>)
    ensures
        graph_order(g) == 0,
        graph_edges(g) == Seq::<(usize, usize)>::empty(),
{
    petgraph::graph::Graph::default()
}

/// `petgraph::graph::Graph::add_node`: appends the node `graph_order(g)`. With `usize`
/// indices the node limit never applies.
#[verifier::external_body]
fn add_graph_node(g: &mut petgraph::graph::Graph<(), (), petgraph::Directed, usize>)
    ensures
        graph_order(*final(g)) == graph_order(*old(g)) + 1,
        graph_edges(*final(g)) == graph_edges(*old(g)),
{
    g.add_node(());
}

/// `petgraph::graph::Graph::add_edge`: appends the edge `(a, b)` between existing nodes
/// (it panics on others, which `requires` rules out).
#[verifier::external_body]
fn add_graph_edge(g: &mut petgraph::graph::Graph<(), (), petgraph::Directed, usize>, a: usize, b: usize)
    requires
        a < graph_order(*old(g)),
        b < graph_order(*old(g)),
    ensures
        graph_order(*final(g)) == graph_order(*old(g)),
        graph_edges(*final(g)) == graph_edges(*old(g)).push((a, b)),
{
    g.add_edge(petgraph::graph::NodeIndex::new(a), petgraph::graph::NodeIndex::new(b), ());
}

/// `petgraph::algo::kosaraju_scc`: the strongly connected components, each node's
/// index as a `usize`. Every node lies in exactly one component, and two nodes share a
/// component exactly when each reaches the other. The order of the components, and of
/// the nodes within one, is left unsaid.
#[verifier::external_body]
fn strongly_connected(g: &petgraph::graph::Graph<(), (), petgraph::Directed, usize>) -> (sccs: Vec<Vec<usize>>)
    ensures
        components_of(graph_order(*g), graph_edges(*g), sccs@),
{
    petgraph::algo::kosaraju_scc(g).into_iter().map(
        |component| component.into_iter().map(|node| node.index()).collect(),
    ).collect()
}

/// The strongly connected components of the graph on `0..node_count`.
fn kosaraju_components(node_count: usize, edges: &Vec<(usize, usize)>) -> (sccs: Vec<Vec<usize>>)
    requires
        edges_within(edges@, node_count as nat),
    ensures
        components_of(node_count as nat, edges@, sccs@),
{
    let mut g = empty_graph();
    let mut i: usize = 0;
    while i < node_count
        invariant
            i <= node_count,
            graph_order(g) == i,
            graph_edges(g) == Seq::<(usize, usize)>::empty(),
        decreases node_count - i,
    {
        add_graph_node(&mut g);
        i = i + 1;
    }
    let mut k: usize = 0;
    while k < edges.len()
        invariant
            k <= edges@.len(),
            edges_within(edges@, node_count as nat),
            graph_order(g) == node_count,
            graph_edges(g) == edges@.subrange(0, k as int),
        decreases edges@.len() - k,
    {
        let (a, b) = edges[k];
        proof {
            assert(edges@[k as int] == (a, b));
        }
        add_graph_edge(&mut g, a, b);
        k = k + 1;
        assert(graph_edges(g) =~= edges@.subrange(0, k as int));
    }
    assert(edges@.subrange(0, edges@.len() as int) =~= edges@);
    strongly_connected(&g)
}

/// For each node, whether it has an edge to itself.
fn self_loops(node_count: usize, edges: &Vec<(usize, usize)>) -> (looped: Vec<bool>)
    requires
        edges_within(edges@, node_count as nat),
    ensures
        looped@.len() == node_count,
        forall|v: int| 0 <= v < node_count ==> (#[trigger] looped@[v] <==> is_edge(edges@, v, v)),
{
    let mut looped: Vec<bool> = Vec::new();
    let mut i: usize = 0;
    while i < node_count
        invariant
            i <= node_count,
            looped@.len() == i,
            forall|v: int| 0 <= v < i ==> !#[trigger] looped@[v],
        decreases node_count - i,
    {
        looped.push(false);
        i = i + 1;
    }
    let mut k: usize = 0;
    while k < edges.len()
        invariant
            k <= edges.len(),
            looped@.len() == node_count,
            edges_within(edges@, node_count as nat),
            forall|v: int|
                0 <= v < node_count ==> (#[trigger] looped@[v] <==> exists|j: int|
                    0 <= j < k && edges@[j].0 as int == v && edges@[j].1 as int == v),
        decreases edges.len() - k,
    {
        let (a, b) = edges[k];
        if a == b {
            looped.set(a, true);
        }
        proof {
            assert forall|v: int| 0 <= v < node_count implies (#[trigger] looped@[v] <==> exists|
                j: int,
            | 0 <= j < k + 1 && edges@[j].0 as int == v && edges@[j].1 as int == v) by {
                if looped@[v] && !(exists|j: int|
                    0 <= j < k && edges@[j].0 as int == v && edges@[j].1 as int == v) {
                    assert(edges@[k as int].0 as int == v && edges@[k as int].1 as int == v);
                }
            }
        }
        k = k + 1;
    }
    looped
}

/// The cycle groups: the strongly connected components that contain a cycle,
/// that is, those with two or more nodes or with a node that imports itself.
pub fn cycle_groups(node_count: usize, edges: &Vec<(usize, usize)>) -> (groups: Vec<Vec<usize>>)
    requires
        edges_within(edges@, node_count as nat),
    ensures
        forall|g: int| 0 <= g < groups@.len() ==> (#[trigger] groups@[g])@.len() > 0,
        forall|g: int, i: int|
            0 <= g < groups@.len() && 0 <= i < groups@[g]@.len() ==> #[trigger] groups@[g]@[i]
                < node_count && on_cycle(edges@, groups@[g]@[i] as int),
        forall|v: int| 0 <= v < node_count && on_cycle(edges@, v) ==> #[trigger] holds_node(groups@, v),
        forall|g: int, i: int, h: int, j: int|
            0 <= g < groups@.len() && 0 <= i < groups@[g]@.len() && 0 <= h < groups@.len() && 0
                <= j < groups@[h]@.len() && #[trigger] groups@[g]@[i] == #[trigger] groups@[h]@[j]
                ==> g == h && i == j,
        forall|g: int, i: int, h: int, j: int|
            0 <= g < groups@.len() && 0 <= i < groups@[g]@.len() && 0 <= h < groups@.len() && 0
                <= j < groups@[h]@.len() ==> (mutually_reachable(
                edges@,
                #[trigger] groups@[g]@[i] as int,
                #[trigger] groups@[h]@[j] as int,
            ) <==> g == h),
{
    let sccs = kosaraju_components(node_count, edges);
    let looped = self_loops(node_count, edges);
    let mut groups: Vec<Vec<usize>> = Vec::new();
    let ghost mut origin: Seq<int> = Seq::empty();
    let mut c: usize = 0;
    while c < sccs.len()
        invariant
            c <= sccs@.len(),
            looped@.len() == node_count,
            forall|v: int|
                0 <= v < node_count ==> (#[trigger] looped@[v] <==> is_edge(edges@, v, v)),
            origin.len() == groups@.len(),
            forall|g: int| 0 <= g < groups@.len() ==> 0 <= #[trigger] origin[g] < c,
            forall|g: int, h: int|
                0 <= g < h < groups@.len() ==> #[trigger] origin[g] < #[trigger] origin[h],
            forall|g: int| 0 <= g < groups@.len() ==> (#[trigger] groups@[g])@ == sccs@[origin[g]]@,
            forall|g: int|
                0 <= g < groups@.len() ==> (#[trigger] groups@[g])@.len() > 1 || is_edge(
                    edges@,
                    groups@[g]@[0] as int,
                    groups@[g]@[0] as int,
                ),
            forall|d: int|
                0 <= d < c && (sccs@[d]@.len() > 1 || is_edge(
                    edges@,
                    sccs@[d]@[0] as int,
                    sccs@[d]@[0] as int,
                )) ==> exists|g: int| 0 <= g < groups@.len() && #[trigger] origin[g] == d,
            forall|v: int| 0 <= v < node_count ==> #[trigger] holds_node(sccs@, v),
            forall|d: int, i: int, e: int, j: int|
                0 <= d < sccs@.len() && 0 <= i < sccs@[d]@.len() && 0 <= e < sccs@.len() && 0
                    <= j < sccs@[e]@.len() && #[trigger] sccs@[d]@[i] == #[trigger] sccs@[e]@[j]
                    ==> d == e && i == j,
            forall|d: int, i: int, e: int, j: int|
                0 <= d < sccs@.len() && 0 <= i < sccs@[d]@.len() && 0 <= e < sccs@.len() && 0
                    <= j < sccs@[e]@.len() ==> (mutually_reachable(
                    edges@,
                    #[trigger] sccs@[d]@[i] as int,
                    #[trigger] sccs@[e]@[j] as int,
                ) <==> d == e),
            edges_within(edges@, node_count as nat),
            forall|d: int| 0 <= d < sccs@.len() ==> (#[trigger] sccs@[d])@.len() > 0,
            forall|d: int, i: int|
                0 <= d < sccs@.len() && 0 <= i < sccs@[d]@.len() ==> #[trigger] sccs@[d]@[i]
                    < node_count,
        decreases sccs@.len() - c,
    {
        let component = &sccs[c];
        let keep = component.len() > 1 || looped[component[0]];
        let ghost old_origin = origin;
        if keep {
            groups.push(sccs[c].clone());
            proof {
                assert(groups@.last()@ == sccs@[c as int]@);
                origin = origin.push(c as int);
                assert(origin[origin.len() - 1] == c);
            }
        }
        proof {
            assert forall|d: int|
                0 <= d < c + 1 && (sccs@[d]@.len() > 1 || is_edge(
                    edges@,
                    sccs@[d]@[0] as int,
                    sccs@[d]@[0] as int,
                )) implies exists|g: int| 0 <= g < groups@.len() && #[trigger] origin[g] == d by {
                if d < c {
                    let g = choose|g: int| 0 <= g < old_origin.len() && #[trigger] old_origin[g] == d;
                    assert(origin[g] == d);
                } else {
                    assert(origin[origin.len() - 1] == d);
                }
            }
        }
        c = c + 1;
    }
    proof {
        assert forall|g: int, i: int|
            0 <= g < groups@.len() && 0 <= i < groups@[g]@.len() implies #[trigger] groups@[g]@[i]
            < node_count && on_cycle(edges@, groups@[g]@[i] as int) by {
            let d = origin[g];
            let v = sccs@[d]@[i] as int;
            if sccs@[d]@.len() > 1 {
                let j: int = if i == 0 { 1 } else { 0 };
                let w = sccs@[d]@[j] as int;
                assert(mutually_reachable(edges@, sccs@[d]@[i] as int, sccs@[d]@[j] as int));
                assert(v != w);
                lemma_reaches_first_step(edges@, v, w);
                let x = choose|x: int| is_edge(edges@, v, x) && reaches(edges@, x, w);
                lemma_reaches_transitive(edges@, x, w, v);
            } else {
                assert(i == 0);
                lemma_reaches_self(edges@, v);
            }
        }
        assert forall|v: int| 0 <= v < node_count && on_cycle(edges@, v) implies #[trigger] holds_node(
            groups@,
            v,
        ) by {
            assert(holds_node(sccs@, v));
            let (d, i) = choose|d: int, i: int|
                0 <= d < sccs@.len() && 0 <= i < sccs@[d]@.len() && #[trigger] sccs@[d]@[i] == v;
            let w = choose|w: int| is_edge(edges@, v, w) && reaches(edges@, w, v);
            let k = choose|k: int|
                0 <= k < edges@.len() && edges@[k].0 as int == v && edges@[k].1 as int == w;
            assert(edges@[k].1 < node_count);
            assert(holds_node(sccs@, w));
            let (e, j) = choose|e: int, j: int|
                0 <= e < sccs@.len() && 0 <= j < sccs@[e]@.len() && #[trigger] sccs@[e]@[j] == w;
            lemma_edge_reaches(edges@, v, w);
            assert(mutually_reachable(edges@, sccs@[d]@[i] as int, sccs@[e]@[j] as int));
            assert(e == d);
            if w == v {
                if sccs@[d]@.len() <= 1 {
                    assert(i == 0);
                }
            } else {
                assert(j != i);
                assert(sccs@[d]@.len() > 1);
            }
            let g = choose|g: int| 0 <= g < groups@.len() && #[trigger] origin[g] == d;
            assert(groups@[g]@[i] == v);
        }
        assert forall|g: int, i: int, h: int, j: int|
            0 <= g < groups@.len() && 0 <= i < groups@[g]@.len() && 0 <= h < groups@.len() && 0
                <= j < groups@[h]@.len() && #[trigger] groups@[g]@[i] == #[trigger] groups@[h]@[j]
                implies g == h && i == j by {
            assert(sccs@[origin[g]]@[i] == sccs@[origin[h]]@[j]);
            if g < h {
                assert(origin[g] < origin[h]);
            } else if h < g {
                assert(origin[h] < origin[g]);
            }
        }
        assert forall|g: int, i: int, h: int, j: int|
            0 <= g < groups@.len() && 0 <= i < groups@[g]@.len() && 0 <= h < groups@.len() && 0
                <= j < groups@[h]@.len() implies (mutually_reachable(
            edges@,
            #[trigger] groups@[g]@[i] as int,
            #[trigger] groups@[h]@[j] as int,
        ) <==> g == h) by {
            assert(mutually_reachable(edges@, sccs@[origin[g]]@[i] as int, sccs@[origin[h]]@[j] as int)
                <==> origin[g] == origin[h]);
            if g < h {
                assert(origin[g] < origin[h]);
            } else if h < g {
                assert(origin[h] < origin[g]);
            }
        }
    }
    groups
}

/// The number of `false` entries.
pub open spec fn count_false(s: Seq<bool>) -> nat
    decreases s.len(),
{
    if s.len() == 0 {
        0
    } else {
        count_false(s.drop_last()) + if s.last() {
            0nat
        } else {
            1nat
        }
    }
}

proof fn lemma_count_false_mark(s: Seq<bool>, i: int)
    requires
        0 <= i < s.len(),
        !s[i],
    ensures
        count_false(s.update(i, true)) + 1 == count_false(s),
    decreases s.len(),
{
    if i == s.len() - 1 {
        assert(s.update(i, true).drop_last() =~= s.drop_last());
    } else {
        lemma_count_false_mark(s.drop_last(), i);
        assert(s.update(i, true).drop_last() =~= s.drop_last().update(i, true));
    }
}

proof fn lemma_reached_step(
    edges: Seq<(usize, usize)>,
    starts: Seq<usize>,
    u: int,
    w: int,
)
    requires
        reached_from(edges, starts, u),
        is_edge(edges, u, w),
    ensures
        reached_from(edges, starts, w),
{
    let i = choose|i: int| 0 <= i < starts.len() && reaches(edges, starts[i] as int, u);
    lemma_edge_reaches(edges, u, w);
    lemma_reaches_transitive(edges, starts[i] as int, u, w);
}

/// For each node, the nodes its edges lead to.
pub fn successors(node_count: usize, edges: &Vec<(usize, usize)>) -> (adj: Vec<Vec<usize>>)
    requires
        edges_within(edges@, node_count as nat),
    ensures
        adj@.len() == node_count,
        forall|u: int, j: int|
            0 <= u < node_count && 0 <= j < adj@[u]@.len() ==> #[trigger] adj@[u]@[j] < node_count
                && is_edge(edges@, u, adj@[u]@[j] as int),
        forall|u: int, v: int|
            0 <= u < node_count && #[trigger] is_edge(edges@, u, v) ==> adj@[u]@.contains(
                v as usize,
            ),
{
    let mut adj: Vec<Vec<usize>> = Vec::new();
    let mut i: usize = 0;
    while i < node_count
        invariant
            i <= node_count,
            adj@.len() == i,
            forall|u: int| 0 <= u < i ==> (#[trigger] adj@[u])@.len() == 0,
        decreases node_count - i,
    {
        adj.push(Vec::new());
        i = i + 1;
    }
    let mut k: usize = 0;
    while k < edges.len()
        invariant
            k <= edges.len(),
            adj@.len() == node_count,
            edges_within(edges@, node_count as nat),
            forall|u: int, j: int|
                0 <= u < node_count && 0 <= j < adj@[u]@.len() ==> #[trigger] adj@[u]@[j]
                    < node_count && is_edge(edges@, u, adj@[u]@[j] as int),
            forall|m: int|
                0 <= m < k ==> adj@[(#[trigger] edges@[m]).0 as int]@.contains(edges@[m].1),
        decreases edges.len() - k,
    {
        let (a, b) = edges[k];
        let mut row = adj[a].clone();
        let ghost old_row = adj@[a as int]@;
        assert(row@ =~= old_row);
        row.push(b);
        adj.set(a, row);
        proof {
            assert(adj@[a as int]@.last() == b);
            assert(is_edge(edges@, a as int, b as int));
            assert forall|m: int|
                0 <= m < k + 1 implies adj@[(#[trigger] edges@[m]).0 as int]@.contains(
                edges@[m].1,
            ) by {
                if m < k && edges@[m].0 == a {
                    let j = choose|j: int| 0 <= j < old_row.len() && old_row[j] == edges@[m].1;
                    assert(adj@[a as int]@[j] == edges@[m].1);
                } else if m == k {
                    assert(adj@[a as int]@[old_row.len() as int] == b);
                }
            }
        }
        k = k + 1;
    }
    proof {
        assert forall|u: int, v: int|
            0 <= u < node_count && #[trigger] is_edge(edges@, u, v) implies adj@[u]@.contains(
            v as usize,
        ) by {
            let m = choose|m: int|
                0 <= m < edges@.len() && edges@[m].0 as int == u && edges@[m].1 as int == v;
            assert(adj@[(edges@[m]).0 as int]@.contains(edges@[m].1));
        }
    }
    adj
}

/// The nodes that some start node reaches, as a membership table.
pub fn reachable_from(node_count: usize, edges: &Vec<(usize, usize)>, starts: &Vec<usize>) -> (reached:
    Vec<bool>)
    requires
        edges_within(edges@, node_count as nat),
        forall|i: int| 0 <= i < starts@.len() ==> #[trigger] starts@[i] < node_count,
    ensures
        reached@.len() == node_count,
        forall|v: int|
            0 <= v < node_count ==> (#[trigger] reached@[v] <==> reached_from(edges@, starts@, v)),
{
    let adj = successors(node_count, edges);
    let mut reached: Vec<bool> = Vec::new();
    let mut i: usize = 0;
    while i < node_count
        invariant
            i <= node_count,
            reached@.len() == i,
            forall|v: int| 0 <= v < i ==> !#[trigger] reached@[v],
            count_false(reached@) == i,
        decreases node_count - i,
    {
        let ghost before = reached@;
        reached.push(false);
        proof {
            assert(reached@.drop_last() =~= before);
        }
        i = i + 1;
    }
    let mut unreached: usize = node_count;
    let mut pending: Vec<usize> = Vec::new();
    let mut s: usize = 0;
    while s < starts.len()
        invariant
            s <= starts@.len(),
            reached@.len() == node_count,
            forall|i: int| 0 <= i < starts@.len() ==> #[trigger] starts@[i] < node_count,
            unreached == count_false(reached@),
            forall|v: int| 0 <= v < node_count && #[trigger] reached@[v] ==> reached_from(edges@, starts@, v),
            forall|k: int| 0 <= k < pending@.len() ==> #[trigger] pending@[k] < node_count && reached@[pending@[k] as int],
            forall|i: int| 0 <= i < s ==> #[trigger] reached@[starts@[i] as int],
            forall|a: int| 0 <= a < node_count && #[trigger] reached@[a] ==> pending@.contains(a as usize),
        decreases starts@.len() - s,
    {
        let v = starts[s];
        proof {
            lemma_reaches_self(edges@, v as int);
        }
        let ghost before = reached@;
        let ghost pending_before = pending@;
        if !reached[v] {
            proof {
                lemma_count_false_mark(reached@, v as int);
            }
            reached.set(v, true);
            unreached = unreached - 1;
            pending.push(v);
            proof {
                assert forall|a: int|
                    0 <= a < node_count && #[trigger] reached@[a] implies pending@.contains(
                    a as usize,
                ) by {
                    if a == v {
                        assert(pending@[pending@.len() - 1] == v);
                    } else {
                        let k = choose|k: int|
                            0 <= k < pending_before.len() && pending_before[k] == a as usize;
                        assert(pending@[k] == a as usize);
                    }
                }
            }
        }
        proof {
            assert forall|x: int| 0 <= x < s + 1 implies #[trigger] reached@[starts@[x] as int] by {
                if x < s {
                    assert(before[starts@[x] as int]);
                }
            }
        }
        s = s + 1;
    }
    while pending.len() > 0
        invariant
            reached@.len() == node_count,
            adj@.len() == node_count,
            edges_within(edges@, node_count as nat),
            forall|u: int, j: int|
                0 <= u < node_count && 0 <= j < adj@[u]@.len() ==> #[trigger] adj@[u]@[j]
                    < node_count && is_edge(edges@, u, adj@[u]@[j] as int),
            forall|u: int, v: int|
                0 <= u < node_count && #[trigger] is_edge(edges@, u, v) ==> adj@[u]@.contains(
                    v as usize,
                ),
            unreached == count_false(reached@),
            forall|v: int| 0 <= v < node_count && #[trigger] reached@[v] ==> reached_from(edges@, starts@, v),
            forall|k: int| 0 <= k < pending@.len() ==> #[trigger] pending@[k] < node_count && reached@[pending@[k] as int],
            forall|i: int| 0 <= i < starts@.len() ==> #[trigger] reached@[starts@[i] as int],
            forall|i: int| 0 <= i < starts@.len() ==> #[trigger] starts@[i] < node_count,
            forall|a: int, b: int|
                0 <= a < node_count && #[trigger] reached@[a] && !pending@.contains(a as usize)
                    && is_edge(edges@, a, b) ==> 0 <= b < node_count && #[trigger] reached@[b],
        decreases unreached, pending@.len(),
    {
        let ghost pending_full = pending@;
        let u = pending.pop().unwrap();
        let ghost unreached_before = unreached;
        let ghost pending_base = pending@;
        proof {
            assert(pending_full =~= pending_base.push(u));
            assert forall|a: int, b: int|
                0 <= a < node_count && a != u && #[trigger] reached@[a] && !pending@.contains(
                    a as usize,
                ) && is_edge(edges@, a, b) implies 0 <= b < node_count && #[trigger] reached@[b] by {
                if pending_full.contains(a as usize) {
                    let k = choose|k: int| 0 <= k < pending_full.len() && pending_full[k] == a as usize;
                    assert(k < pending_base.len());
                    assert(pending@[k] == a as usize);
                }
            }
        }
        let mut j: usize = 0;
        let row_len = adj[u].len();
        while j < row_len
            invariant
                u < node_count,
                reached@[u as int],
                row_len == adj@[u as int]@.len(),
                j <= row_len,
                reached@.len() == node_count,
                adj@.len() == node_count,
                edges_within(edges@, node_count as nat),
                forall|u2: int, j2: int|
                    0 <= u2 < node_count && 0 <= j2 < adj@[u2]@.len() ==> #[trigger] adj@[u2]@[j2]
                        < node_count && is_edge(edges@, u2, adj@[u2]@[j2] as int),
                unreached == count_false(reached@),
                unreached + pending@.len() == unreached_before + pending_base.len(),
                pending@.len() >= pending_base.len(),
                pending@.subrange(0, pending_base.len() as int) == pending_base,
                forall|v: int| 0 <= v < node_count && #[trigger] reached@[v] ==> reached_from(edges@, starts@, v),
                forall|k: int| 0 <= k < pending@.len() ==> #[trigger] pending@[k] < node_count && reached@[pending@[k] as int],
                forall|i: int| 0 <= i < starts@.len() ==> #[trigger] reached@[starts@[i] as int],
                forall|i: int| 0 <= i < starts@.len() ==> #[trigger] starts@[i] < node_count,
                forall|k: int| 0 <= k < j ==> #[trigger] reached@[adj@[u as int]@[k] as int],
                forall|a: int, b: int|
                    0 <= a < node_count && a != u && #[trigger] reached@[a] && !pending@.contains(a as usize)
                        && is_edge(edges@, a, b) ==> 0 <= b < node_count && #[trigger] reached@[b],
            decreases row_len - j,
        {
            let w = adj[u][j];
            let ghost before = reached@;
            let ghost pending_before = pending@;
            if !reached[w] {
                proof {
                    lemma_count_false_mark(reached@, w as int);
                    lemma_reached_step(edges@, starts@, u as int, w as int);
                }
                reached.set(w, true);
                unreached = unreached - 1;
                pending.push(w);
                proof {
                    assert(pending@.subrange(0, pending_base.len() as int) =~= pending_before.subrange(
                        0,
                        pending_base.len() as int,
                    ));
                }
            }
            proof {
                assert forall|x: int| 0 <= x < node_count && before[x] implies #[trigger] reached@[x] by {
                }
                assert forall|x: int| 0 <= x < starts@.len() implies #[trigger] reached@[starts@[x] as int] by {
                    assert(before[starts@[x] as int]);
                }
                assert forall|k: int| 0 <= k < j + 1 implies #[trigger] reached@[adj@[u as int]@[k] as int] by {
                    if k < j {
                        assert(before[adj@[u as int]@[k] as int]);
                    }
                }
                assert forall|k: int| 0 <= k < pending@.len() implies #[trigger] pending@[k] < node_count && reached@[pending@[k] as int] by {
                    if k < pending_before.len() {
                        assert(pending_before[k] == pending@[k]);
                        assert(before[pending_before[k] as int]);
                    }
                }
                assert forall|a: int, b: int|
                    0 <= a < node_count && a != u && #[trigger] reached@[a] && !pending@.contains(a as usize)
                        && is_edge(edges@, a, b) implies 0 <= b < node_count && #[trigger] reached@[b] by {
                    if pending_before.contains(a as usize) {
                        let k = choose|k: int| 0 <= k < pending_before.len() && pending_before[k] == a as usize;
                        assert(pending@[k] == a as usize);
                    }
                    if a != w {
                        assert(before[a]);
                    } else {
                        assert(pending@[pending@.len() - 1] == w || before[a]);
                    }
                    assert(before[b]);
                }
                assert forall|v: int| 0 <= v < node_count && #[trigger] reached@[v] implies reached_from(edges@, starts@, v) by {
                    if v != w {
                        assert(before[v]);
                    }
                }
            }
            j = j + 1;
        }
        proof {
            assert forall|a: int, b: int|
                0 <= a < node_count && #[trigger] reached@[a] && !pending@.contains(a as usize)
                    && is_edge(edges@, a, b) implies 0 <= b < node_count && #[trigger] reached@[b] by {
                if a == u {
                    assert(adj@[a]@.contains(b as usize));
                    let k = choose|k: int| 0 <= k < adj@[a]@.len() && adj@[a]@[k] == b as usize;
                    assert(reached@[adj@[u as int]@[k] as int]);
                }
            }
        }
    }
    proof {
        assert forall|v: int| 0 <= v < node_count && reached_from(edges@, starts@, v) implies #[trigger] reached@[v] by {
            let i = choose|i: int| 0 <= i < starts@.len() && reaches(edges@, starts@[i] as int, v);
            lemma_closed_holds_reachable(edges@, reached@, starts@[i] as int, v);
        }
    }
    reached
}

} // verus!
