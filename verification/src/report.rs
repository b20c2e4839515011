//! The dependency report and its mathematical reading.
use vstd::prelude::*;
use crate::graph::{is_edge, on_cycle};
use crate::text::seq_lt;

verus! {

/// One import from module `from` of module `to`.
#[derive(Debug)]
pub struct DependencyEdge {
    pub from: String,
    pub to: String,
}

/// A problem found while analysing one file.
#[derive(Debug)]
pub struct Diagnostic {
    pub code: String,
    pub file: String,
    pub line: Option<usize>,
    pub column: Option<usize>,
    pub message: String,
}

/// The dependency graph of a project.
#[derive(Debug)]
pub struct AnalysisReport {
    pub files_scanned: usize,
    pub source_files: usize,
    pub dependencies: usize,
    pub cycles: Vec<Vec<String>>,
    pub nodes: Vec<String>,
    pub edges: Vec<DependencyEdge>,
    pub lines: Vec<(String, usize)>,
    pub diagnostics: Vec<Diagnostic>,
}

impl Default for AnalysisReport {
    fn default() -> (r: Self)
        ensures
            r.files_scanned == 0,
            r.source_files == 0,
            r.dependencies == 0,
            r.cycles@.len() == 0,
            r.nodes@.len() == 0,
            r.edges@.len() == 0,
            r.lines@.len() == 0,
            r.diagnostics@.len() == 0,
    {
        AnalysisReport {
            files_scanned: 0,
            source_files: 0,
            dependencies: 0,
            cycles: Vec::new(),
            nodes: Vec::new(),
            edges: Vec::new(),
            lines: Vec::new(),
            diagnostics: Vec::new(),
        }
    }
}

/// The character views of a list of strings.
pub open spec fn texts(v: Seq<String>) -> Seq<Seq<char>> {
    v.map_values(|s: String| s@)
}

/// What a diagnostic says, as text.
pub open spec fn diagnostic_view(d: Diagnostic) -> (Seq<char>, Seq<char>, Option<usize>, Option<usize>, Seq<char>) {
    (d.code@, d.file@, d.line, d.column, d.message@)
}

/// The texts of a list of diagnostics.
pub open spec fn diagnostic_views(ds: Seq<Diagnostic>) -> Seq<(Seq<char>, Seq<char>, Option<usize>, Option<usize>, Seq<char>)> {
    ds.map_values(|d: Diagnostic| diagnostic_view(d))
}

/// Copies of the diagnostics.
pub fn copy_diagnostics(ds: &Vec<Diagnostic>) -> (r: Vec<Diagnostic>)
    ensures
        diagnostic_views(r@) == diagnostic_views(ds@),
{
    let mut r: Vec<Diagnostic> = Vec::new();
    let mut i: usize = 0;
    while i < ds.len()
        invariant
            i <= ds@.len(),
            r@.len() == i,
            forall|k: int| 0 <= k < i ==> diagnostic_view(#[trigger] r@[k]) == diagnostic_view(ds@[k]),
        decreases ds@.len() - i,
    {
        let d = &ds[i];
        r.push(Diagnostic {
            code: d.code.clone(),
            file: d.file.clone(),
            line: d.line,
            column: d.column,
            message: d.message.clone(),
        });
        i = i + 1;
    }
    assert(diagnostic_views(r@) =~= diagnostic_views(ds@));
    r
}

/// The names of an edge's endpoints.
pub open spec fn edge_names(e: DependencyEdge) -> (Seq<char>, Seq<char>) {
    (e.from@, e.to@)
}

/// Lexicographic order of name pairs.
pub open spec fn name_pair_lt(a: (Seq<char>, Seq<char>), b: (Seq<char>, Seq<char>)) -> bool {
    seq_lt(a.0, b.0) || (a.0 == b.0 && seq_lt(a.1, b.1))
}

/// Lexicographic order of name lists.
pub open spec fn names_lt(a: Seq<Seq<char>>, b: Seq<Seq<char>>) -> bool
    decreases a.len(),
{
    if a.len() == 0 {
        b.len() > 0
    } else if b.len() == 0 {
        false
    } else if a[0] != b[0] {
        seq_lt(a[0], b[0])
    } else {
        names_lt(a.drop_first(), b.drop_first())
    }
}

/// The import graph: an edge `(i, t)` for each target `t` of module `i`, in order.
pub open spec fn import_pairs(targets: Seq<Seq<usize>>) -> Seq<(usize, usize)>
    decreases targets.len(),
{
    if targets.len() == 0 {
        Seq::empty()
    } else {
        let i = (targets.len() - 1) as usize;
        import_pairs(targets.drop_last()) + targets.last().map_values(|t: usize| (i, t))
    }
}

/// The target lists' views.
pub open spec fn target_views(targets: Seq<Vec<usize>>) -> Seq<Seq<usize>> {
    targets.map_values(|v: Vec<usize>| v@)
}

/// The name pair of some edge of the graph.
pub open spec fn names_an_edge(
    pairs: Seq<(usize, usize)>,
    nodes: Seq<String>,
    names: (Seq<char>, Seq<char>),
) -> bool {
    exists|u: int, v: int|
        #![trigger is_edge(pairs, u, v)]
        is_edge(pairs, u, v) && 0 <= u < nodes.len() && 0 <= v < nodes.len() && names == (
            nodes[u]@,
            nodes[v]@,
        )
}

/// The name of a module that lies on a cycle of the graph.
pub open spec fn names_cyclic_module(
    pairs: Seq<(usize, usize)>,
    nodes: Seq<String>,
    name: Seq<char>,
) -> bool {
    exists|i: int| #![trigger nodes[i]] 0 <= i < nodes.len() && nodes[i]@ == name && on_cycle(pairs, i)
}

/// Some group lists `name`.
pub open spec fn listed_in(groups: Seq<Vec<String>>, name: Seq<char>) -> bool {
    exists|m: int, j: int|
        #![trigger groups[m]@[j]]
        0 <= m < groups.len() && 0 <= j < groups[m]@.len() && groups[m]@[j]@ == name
}

/// The name pair of an import: module `i` imports module `t`.
pub open spec fn names_an_import(
    targets: Seq<Vec<usize>>,
    nodes: Seq<String>,
    names: (Seq<char>, Seq<char>),
) -> bool {
    exists|i: int, t: int|
        #![trigger nodes[i], nodes[t]]
        0 <= i < nodes.len() && 0 <= t < nodes.len() && i < targets.len() && targets[i]@.contains(
            t as usize,
        ) && names == (nodes[i]@, nodes[t]@)
}

/// Every target names one of the `n` modules.
pub open spec fn targets_within(targets: Seq<Vec<usize>>, n: nat) -> bool {
    forall|i: int, j: int|
        0 <= i < targets.len() && 0 <= j < targets[i]@.len() ==> #[trigger] targets[i]@[j] < n
}

} // verus!
