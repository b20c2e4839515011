//! The dependency report, assembled from resolved imports.
use vstd::prelude::*;
use crate::graph::{is_edge, lemma_reaches_self, mutually_reachable, on_cycle};
use crate::order::{distinct, name_ranks};
use crate::text::{chars_of, lemma_seq_lt_irreflexive, seq_lt};
use crate::report::{AnalysisReport, DependencyEdge, Diagnostic, edge_names, import_pairs, listed_in, name_pair_lt, names_an_edge, names_an_import, names_cyclic_module, names_lt, target_views, targets_within, texts};
use crate::edges::{import_edges, lemma_import_pairs, named_edges};
use crate::cycles::{named_cycles, ranked_groups};

verus! {

/// Builds the report from the scanned modules (in scan order), their line counts, for
/// each module the modules its imports resolved to, and the diagnostics of the scan.
pub fn build_report(
    files_scanned: usize,
    nodes: Vec<String>,
    lines: Vec<usize>,
    targets: Vec<Vec<usize>>,
    diagnostics: Vec<Diagnostic>,
) -> (report: AnalysisReport)
    requires
        nodes@.len() == lines@.len(),
        nodes@.len() == targets@.len(),
        distinct(texts(nodes@)),
        targets_within(targets@, nodes@.len()),
    ensures
        report.files_scanned == files_scanned,
        report.source_files == nodes@.len(),
        texts(report.nodes@) == texts(nodes@),
        report.diagnostics@ == diagnostics@,
        report.lines@.len() == nodes@.len(),
        forall|i: int|
            0 <= i < nodes@.len() ==> (#[trigger] report.lines@[i]).0@ == nodes@[i]@
                && report.lines@[i].1 == lines@[i],
        report.dependencies == report.edges@.len(),
        // each edge is an import, and each import is an edge
        forall|k: int|
            0 <= k < report.edges@.len() ==> #[trigger] names_an_import(
                targets@,
                nodes@,
                edge_names(report.edges@[k]),
            ),
        forall|i: int, t: usize|
            0 <= i < nodes@.len() && #[trigger] targets@[i]@.contains(t) ==> exists|k: int|
                0 <= k < report.edges@.len() && edge_names(report.edges@[k]) == (
                    nodes@[i]@,
                    nodes@[t as int]@,
                ),
        // sorted by (from, to), hence without repeats
        forall|k: int, l: int|
            0 <= k < l < report.edges@.len() ==> name_pair_lt(
                edge_names(#[trigger] report.edges@[k]),
                edge_names(#[trigger] report.edges@[l]),
            ),
        // the cycle groups: exactly the modules on a cycle, grouped by mutual reachability
        forall|m: int, j: int|
            0 <= m < report.cycles@.len() && 0 <= j < report.cycles@[m]@.len()
                ==> names_cyclic_module(
                import_pairs(target_views(targets@)),
                nodes@,
                (#[trigger] report.cycles@[m]@[j])@,
            ),
        forall|i: int|
            0 <= i < nodes@.len() && on_cycle(import_pairs(target_views(targets@)), i)
                ==> #[trigger] listed_in(report.cycles@, nodes@[i]@),
        forall|m: int, j: int, h: int, l: int, a: int, b: int|
            #![trigger report.cycles@[m]@[j], report.cycles@[h]@[l], nodes@[a], nodes@[b]]
            0 <= m < report.cycles@.len() && 0 <= j < report.cycles@[m]@.len() && 0 <= h
                < report.cycles@.len() && 0 <= l < report.cycles@[h]@.len() && 0 <= a
                < nodes@.len() && 0 <= b < nodes@.len() && (report.cycles@[m]@[j])@ == nodes@[a]@
                && (report.cycles@[h]@[l])@ == nodes@[b]@ ==> (mutually_reachable(
                import_pairs(target_views(targets@)),
                a,
                b,
            ) <==> m == h),
        // each group is sorted, and the groups are sorted
        forall|m: int| 0 <= m < report.cycles@.len() ==> (#[trigger] report.cycles@[m])@.len() > 0,
        forall|m: int, j: int, l: int|
            0 <= m < report.cycles@.len() && 0 <= j < l < report.cycles@[m]@.len() ==> seq_lt(
                (#[trigger] report.cycles@[m]@[j])@,
                (#[trigger] report.cycles@[m]@[l])@,
            ),
        forall|m: int, h: int|
            0 <= m < h < report.cycles@.len() ==> names_lt(
                texts((#[trigger] report.cycles@[m])@),
                texts((#[trigger] report.cycles@[h])@),
            ),
{
    let n = nodes.len();
    let ghost names = texts(nodes@);
    let ghost tv = target_views(targets@);
    let mut chars: Vec<Vec<char>> = Vec::new();
    let mut i: usize = 0;
    while i < n
        invariant
            n == nodes@.len(),
            i <= n,
            chars@.len() == i,
            forall|k: int| 0 <= k < i ==> (#[trigger] chars@[k])@ == nodes@[k]@,
        decreases n - i,
    {
        chars.push(chars_of(nodes[i].as_str()));
        i = i + 1;
    }
    proof {
        assert(chars@.map_values(|v: Vec<char>| v@) =~= names);
    }
    let rank = name_ranks(&chars);
    let pairs = import_edges(&targets);
    proof {
        assert forall|k: int| 0 <= k < pairs@.len() implies (#[trigger] pairs@[k]).0 < n
            && pairs@[k].1 < n by {
            lemma_import_pairs(tv, pairs@[k].0 as int, pairs@[k].1 as int);
            assert(is_edge(pairs@, pairs@[k].0 as int, pairs@[k].1 as int));
            let t = pairs@[k].1;
            let u = pairs@[k].0 as int;
            let j = choose|j: int| 0 <= j < tv[u].len() && tv[u][j] == t;
            assert(targets@[u]@[j] < n);
        }
    }
    let edges = named_edges(n, &nodes, &rank, &pairs);
    let ordered = ranked_groups(n, &rank, &pairs);
    let cycles = named_cycles(n, &nodes, &rank, &pairs, &ordered);
    proof {
        assert forall|q: int| 0 <= q < edges@.len() implies #[trigger] names_an_import(
            targets@,
            nodes@,
            edge_names(edges@[q]),
        ) by {
            assert(names_an_edge(pairs@, nodes@, edge_names(edges@[q])));
            let (u, v) = choose|u: int, v: int|
                #![trigger is_edge(pairs@, u, v)]
                is_edge(pairs@, u, v) && 0 <= u < nodes@.len() && 0 <= v < nodes@.len()
                    && edge_names(edges@[q]) == (nodes@[u]@, nodes@[v]@);
            lemma_import_pairs(tv, u, v);
            assert(tv[u] == targets@[u]@);
            assert(nodes@[u] == nodes@[u] && nodes@[v] == nodes@[v]);
        }
        assert forall|i: int, t: usize|
            0 <= i < nodes@.len() && #[trigger] targets@[i]@.contains(t) implies exists|q: int|
            0 <= q < edges@.len() && edge_names(edges@[q]) == (nodes@[i]@, nodes@[t as int]@) by {
            assert(tv[i] == targets@[i]@);
            lemma_import_pairs(tv, i, t as int);
            assert(is_edge(pairs@, i, t as int));
        }
    }
    let mut line_pairs: Vec<(String, usize)> = Vec::new();
    i = 0;
    while i < n
        invariant
            n == nodes@.len(),
            n == lines@.len(),
            i <= n,
            line_pairs@.len() == i,
            forall|k: int|
                0 <= k < i ==> (#[trigger] line_pairs@[k]).0@ == nodes@[k]@ && line_pairs@[k].1
                    == lines@[k],
        decreases n - i,
    {
        line_pairs.push((nodes[i].clone(), lines[i]));
        i = i + 1;
    }
    let dependencies = edges.len();
    AnalysisReport {
        files_scanned,
        source_files: n,
        dependencies,
        cycles,
        nodes,
        edges,
        lines: line_pairs,
        diagnostics,
    }
}

/// Edges that increase by (importing, imported) name hold each such pair once, however
/// often the import is written.
pub proof fn lemma_edges_once(edges: Seq<DependencyEdge>)
    requires
        forall|k: int, l: int|
            0 <= k < l < edges.len() ==> name_pair_lt(edge_names(#[trigger] edges[k]), edge_names(#[trigger] edges[l])),
    ensures
        forall|k: int, l: int| 0 <= k < l < edges.len() ==> edge_names(#[trigger] edges[k]) != edge_names(#[trigger] edges[l]),
{
    assert forall|k: int, l: int| 0 <= k < l < edges.len() implies edge_names(#[trigger] edges[k]) != edge_names(#[trigger] edges[l]) by {
        lemma_seq_lt_irreflexive(edges[k].from@);
        lemma_seq_lt_irreflexive(edges[k].to@);
    }
}

/// Each edge that names an import joins two of the scanned modules.
pub proof fn lemma_edges_join_modules(targets: Seq<Vec<usize>>, nodes: Seq<String>, edges: Seq<DependencyEdge>)
    requires
        forall|k: int| 0 <= k < edges.len() ==> #[trigger] names_an_import(targets, nodes, edge_names(edges[k])),
    ensures
        forall|k: int| 0 <= k < edges.len() ==> texts(nodes).contains((#[trigger] edges[k]).from@) && texts(nodes).contains(edges[k].to@),
{
    assert forall|k: int| 0 <= k < edges.len() implies texts(nodes).contains((#[trigger] edges[k]).from@) && texts(nodes).contains(edges[k].to@) by {
        assert(names_an_import(targets, nodes, edge_names(edges[k])));
        let (i, t) = choose|i: int, t: int| 0 <= i < nodes.len() && 0 <= t < nodes.len() && i < targets.len() && targets[i]@.contains(t as usize) && edge_names(edges[k]) == (nodes[i]@, nodes[t]@);
        assert(texts(nodes)[i] == edges[k].from@);
        assert(texts(nodes)[t] == edges[k].to@);
    }
}

/// Cycle groups that are the mutual-reachability classes of the modules on a cycle are
/// pairwise disjoint: no module is listed in two groups.
pub proof fn lemma_cycle_groups_disjoint(pairs: Seq<(usize, usize)>, nodes: Seq<String>, cycles: Seq<Vec<String>>)
    requires
        forall|m: int, j: int|
            0 <= m < cycles.len() && 0 <= j < cycles[m]@.len() ==> names_cyclic_module(pairs, nodes, (#[trigger] cycles[m]@[j])@),
        forall|m: int, j: int, h: int, l: int, a: int, b: int|
            #![trigger cycles[m]@[j], cycles[h]@[l], nodes[a], nodes[b]]
            0 <= m < cycles.len() && 0 <= j < cycles[m]@.len() && 0 <= h < cycles.len() && 0 <= l < cycles[h]@.len()
                && 0 <= a < nodes.len() && 0 <= b < nodes.len() && (cycles[m]@[j])@ == nodes[a]@
                && (cycles[h]@[l])@ == nodes[b]@ ==> (mutually_reachable(pairs, a, b) <==> m == h),
    ensures
        forall|m: int, j: int, h: int, l: int|
            0 <= m < cycles.len() && 0 <= j < cycles[m]@.len() && 0 <= h < cycles.len() && 0 <= l < cycles[h]@.len()
                && (#[trigger] cycles[m]@[j])@ == (#[trigger] cycles[h]@[l])@ ==> m == h,
{
    assert forall|m: int, j: int, h: int, l: int|
        0 <= m < cycles.len() && 0 <= j < cycles[m]@.len() && 0 <= h < cycles.len() && 0 <= l < cycles[h]@.len()
            && (#[trigger] cycles[m]@[j])@ == (#[trigger] cycles[h]@[l])@ implies m == h by {
        assert(names_cyclic_module(pairs, nodes, cycles[m]@[j]@));
        let a = choose|a: int| 0 <= a < nodes.len() && nodes[a]@ == cycles[m]@[j]@ && on_cycle(pairs, a);
        lemma_reaches_self(pairs, a);
        assert(nodes[a] == nodes[a]);
    }
}

} // verus!
