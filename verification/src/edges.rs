//! Import edges: the graph of resolved imports and its named, ordered form.
use vstd::prelude::*;
use crate::graph::{edges_within, is_edge};
use crate::order::{distinct, ranks_names, sort_pairs, pair_lt};
use crate::report::{names_an_edge, DependencyEdge, edge_names, import_pairs, name_pair_lt, target_views, texts};

verus! {

pub proof fn lemma_import_pairs(targets: Seq<Seq<usize>>, u: int, v: int)
    requires
        targets.len() <= usize::MAX,
    ensures
        is_edge(import_pairs(targets), u, v) <==> 0 <= u < targets.len() && 0 <= v
            && v <= usize::MAX && targets[u].contains(v as usize),
    decreases targets.len(),
{
    if targets.len() > 0 {
        let i = (targets.len() - 1) as usize;
        let prev = import_pairs(targets.drop_last());
        let row = targets.last().map_values(|t: usize| (i, t));
        lemma_import_pairs(targets.drop_last(), u, v);
        let all = import_pairs(targets);
        assert(all == prev + row);
        if is_edge(all, u, v) {
            let k = choose|k: int| 0 <= k < all.len() && all[k].0 as int == u && all[k].1 as int == v;
            if k < prev.len() {
                assert(prev[k] == all[k]);
                assert(is_edge(prev, u, v));
                assert(targets.drop_last()[u] == targets[u]);
            } else {
                let j = k - prev.len();
                assert(row[j] == all[k]);
                assert(targets.last()[j] == v);
            }
        }
        if 0 <= u < targets.len() && 0 <= v && v <= usize::MAX && targets[u].contains(v as usize) {
            if u < targets.len() - 1 {
                assert(targets.drop_last()[u] == targets[u]);
                let k = choose|k: int| 0 <= k < prev.len() && prev[k].0 as int == u && prev[k].1 as int == v;
                assert(all[k] == prev[k]);
            } else {
                let j = choose|j: int| 0 <= j < targets[u].len() && targets[u][j] == v as usize;
                assert(all[prev.len() + j] == row[j]);
            }
        }
    }
}

/// The import graph as a list of index pairs.
pub fn import_edges(targets: &Vec<Vec<usize>>) -> (edges: Vec<(usize, usize)>)
    ensures
        edges@ == import_pairs(target_views(targets@)),
{
    let ghost tv = target_views(targets@);
    let mut edges: Vec<(usize, usize)> = Vec::new();
    let mut i: usize = 0;
    while i < targets.len()
        invariant
            i <= targets@.len(),
            tv == target_views(targets@),
            edges@ == import_pairs(tv.subrange(0, i as int)),
        decreases targets@.len() - i,
    {
        let row = &targets[i];
        let mut j: usize = 0;
        let ghost base = edges@;
        while j < row.len()
            invariant
                i < targets@.len(),
                row@ == tv[i as int],
                j <= row@.len(),
                edges@ == base + row@.subrange(0, j as int).map_values(|t: usize| (i, t)),
            decreases row@.len() - j,
        {
            edges.push((i, row[j]));
            j = j + 1;
            assert(edges@ =~= base + row@.subrange(0, j as int).map_values(|t: usize| (i, t)));
        }
        proof {
            let next = tv.subrange(0, i + 1);
            assert(next.drop_last() =~= tv.subrange(0, i as int));
            assert(next.last() == row@);
            assert(row@.subrange(0, row@.len() as int) =~= row@);
        }
        i = i + 1;
    }
    assert(tv.subrange(0, targets@.len() as int) =~= tv);
    edges
}

/// The import edges named by module, sorted by name and without repeats.
pub fn named_edges(n: usize, nodes: &Vec<String>, rank: &Vec<usize>, pairs: &Vec<(usize, usize)>) -> (edges: Vec<DependencyEdge>)
    requires
        n == nodes@.len(),
        distinct(texts(nodes@)),
        ranks_names(rank@, texts(nodes@)),
        edges_within(pairs@, n as nat),
    ensures
        forall|q: int|
            0 <= q < edges@.len() ==> #[trigger] names_an_edge(pairs@, nodes@, edge_names(edges@[q])),
        forall|u: int, v: int|
            #[trigger] is_edge(pairs@, u, v) ==> exists|q: int|
                0 <= q < edges@.len() && edge_names(edges@[q]) == (nodes@[u]@, nodes@[v]@),
        forall|q: int, l: int|
            0 <= q < l < edges@.len() ==> name_pair_lt(
                edge_names(#[trigger] edges@[q]),
                edge_names(#[trigger] edges@[l]),
            ),
{
    let ghost names = texts(nodes@);
    let sorted = sort_pairs(pairs, rank);
    let mut edges: Vec<DependencyEdge> = Vec::new();
    let mut k: usize = 0;
    while k < sorted.len()
        invariant
            k <= sorted@.len(),
            n == nodes@.len(),
            forall|q: int|
                0 <= q < sorted@.len() ==> (#[trigger] sorted@[q]).0 < n && sorted@[q].1 < n,
            edges@.len() == k,
            forall|q: int|
                0 <= q < k ==> #[trigger] edge_names(edges@[q]) == (
                    nodes@[sorted@[q].0 as int]@,
                    nodes@[sorted@[q].1 as int]@,
                ),
        decreases sorted@.len() - k,
    {
        let (a, b) = sorted[k];
        edges.push(DependencyEdge { from: nodes[a].clone(), to: nodes[b].clone() });
        k = k + 1;
    }
    proof {
        assert forall|q: int|
            0 <= q < edges@.len() implies #[trigger] names_an_edge(pairs@, nodes@, edge_names(edges@[q])) by {
            let p = sorted@[q];
            assert(sorted@.contains(p));
            assert(pairs@.contains(p));
            let x = choose|x: int| 0 <= x < pairs@.len() && pairs@[x] == p;
            assert(is_edge(pairs@, p.0 as int, p.1 as int));
            let u = p.0 as int;
            let v = p.1 as int;
            assert(is_edge(pairs@, u, v) && 0 <= u < n && 0 <= v < n && edge_names(edges@[q]) == (nodes@[u]@, nodes@[v]@));
        }
        assert forall|u: int, v: int|
            #[trigger] is_edge(pairs@, u, v) implies exists|q: int|
            0 <= q < edges@.len() && edge_names(edges@[q]) == (nodes@[u]@, nodes@[v]@) by {
            let x = choose|x: int|
                0 <= x < pairs@.len() && pairs@[x].0 as int == u && pairs@[x].1 as int == v;
            assert(pairs@.contains(pairs@[x]));
            assert(sorted@.contains(pairs@[x]));
            let q = choose|q: int| 0 <= q < sorted@.len() && sorted@[q] == pairs@[x];
            assert(edge_names(edges@[q]) == (nodes@[u]@, nodes@[v]@));
        }
        assert forall|q: int, l: int|
            0 <= q < l < edges@.len() implies name_pair_lt(
            edge_names(#[trigger] edges@[q]),
            edge_names(#[trigger] edges@[l]),
        ) by {
            let p1 = sorted@[q];
            let p2 = sorted@[l];
            assert(pair_lt(rank@, p1, p2));
            assert(names[p1.0 as int] == nodes@[p1.0 as int]@);
            assert(names[p2.0 as int] == nodes@[p2.0 as int]@);
            assert(names[p1.1 as int] == nodes@[p1.1 as int]@);
            assert(names[p2.1 as int] == nodes@[p2.1 as int]@);
            if rank@[p1.0 as int] == rank@[p2.0 as int] {
                assert(p1.0 == p2.0);
            }
        }
    }
    edges
}

} // verus!
