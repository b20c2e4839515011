//! The branch impact of a change set: which source files changed, which dependencies
//! and cycle groups came and went against the merge base, and which modules the changes
//! reach.
use vstd::prelude::*;
use crate::report::{copy_diagnostics, diagnostic_views, edge_names, texts, AnalysisReport, DependencyEdge, Diagnostic};
use crate::config::copy_strings;
use crate::graph::count_false;
use crate::order::{distinct, lemma_push_contains};
use crate::text::{chars_equal, chars_less, chars_of, concat, decimal, decimal_chars, has_prefix, lemma_seq_lt_asymmetric, lemma_seq_lt_transitive, lit, seq_lt, slice, split, split_on, starts_with, string_of};

verus! {

/// The branch impact report.
#[derive(Debug)]
pub struct DiffReport {
    pub base: String,
    pub merge_base: String,
    pub changed_source_files: Vec<String>,
    pub deleted_source_files: Vec<String>,
    pub added_dependencies: Vec<String>,
    pub removed_dependencies: Vec<String>,
    pub added_edges: Vec<DependencyEdge>,
    pub removed_edges: Vec<DependencyEdge>,
    pub new_cycles: Vec<Vec<String>>,
    pub affected_modules: Vec<String>,
    pub affected_dependencies: usize,
    pub cycles_in_current_tree: usize,
    pub diagnostics: Vec<Diagnostic>,
    pub base_diagnostics: Vec<Diagnostic>,
    pub analysis_complete: bool,
    pub next_steps: Vec<String>,
}

/// `s` without one trailing carriage return.
pub open spec fn strip_cr(s: Seq<char>) -> Seq<char> {
    if s.len() > 0 && s.last() == '\r' {
        s.drop_last()
    } else {
        s
    }
}

/// The lines of a text as `str::lines` gives them: split at line feeds, a carriage
/// return before a line feed dropped, no empty last line after a final line feed.
pub open spec fn text_lines(s: Seq<char>) -> Seq<Seq<char>> {
    let parts = split_on(s, '\n');
    let ended = parts.drop_last().map_values(|p: Seq<char>| strip_cr(p));
    if parts.last().len() == 0 {
        ended
    } else {
        ended.push(parts.last())
    }
}

/// `perm` is a permutation of `0..n`.
pub open spec fn permutes(perm: Seq<usize>, n: nat) -> bool {
    &&& perm.len() == n
    &&& forall|k: int| 0 <= k < perm.len() ==> #[trigger] perm[k] < n
    &&& forall|x: usize| x < n ==> #[trigger] perm.contains(x)
}

/// `r` holds the texts of `s` rearranged into character order.
pub open spec fn sorted_texts_of(s: Seq<Seq<char>>, r: Seq<Seq<char>>) -> bool {
    &&& exists|perm: Seq<usize>|
        #[trigger] permutes(perm, s.len()) && forall|k: int| 0 <= k < r.len() ==> #[trigger] r[k] == s[perm[k] as int]
    &&& forall|i: int, j: int| 0 <= i < j < r.len() ==> !seq_lt(#[trigger] r[j], #[trigger] r[i])
}

/// The scanned modules among the changed paths, in node order.
pub open spec fn changed_modules(changed: Seq<Seq<char>>, nodes: Seq<Seq<char>>) -> Seq<Seq<char>> {
    nodes.filter(|n: Seq<char>| changed.contains(n))
}

/// The path a `git status --porcelain` line names: the text after the two status
/// letters and a space, and for a rename the new path after ` -> `.
pub open spec fn status_path(line: Seq<char>) -> Option<Seq<char>> {
    if line.len() <= 3 {
        None
    } else {
        let rest = line.skip(3);
        match crate::parser::first_from(rest, " -> "@, 0) {
            Some(i) => Some(rest.skip(i + 4)),
            None => Some(rest),
        }
    }
}

/// The paths that status lines name, in order.
pub open spec fn status_paths(lines: Seq<Seq<char>>) -> Seq<Seq<char>>
    decreases lines.len(),
{
    if lines.len() == 0 {
        Seq::empty()
    } else {
        status_paths(lines.drop_last()) + match status_path(lines.last()) {
            Some(p) => seq![p],
            None => Seq::empty(),
        }
    }
}

/// The repository paths under the analysed directory (`prefix`, as
/// `git rev-parse --show-prefix` prints it), relative to that directory, in order.
pub open spec fn under_prefix(paths: Seq<Seq<char>>, prefix: Seq<char>) -> Seq<Seq<char>>
    decreases paths.len(),
{
    if paths.len() == 0 {
        Seq::empty()
    } else {
        under_prefix(paths.drop_last(), prefix) + if has_prefix(paths.last(), prefix) {
            seq![paths.last().skip(prefix.len() as int)]
        } else {
            Seq::empty()
        }
    }
}

/// The changed paths relative to the analysed directory: those `git diff --name-only`
/// lists against the merge base (committed, staged and unstaged changes, deletions
/// too), then those `git status --porcelain` lists (which adds untracked files).
pub open spec fn changed_paths_of(diff_out: Seq<char>, status_out: Seq<char>, prefix: Seq<char>) -> Seq<Seq<char>> {
    under_prefix(text_lines(diff_out) + status_paths(text_lines(status_out)), prefix)
}

/// The names of a list of edges.
pub open spec fn edge_pairs(es: Seq<DependencyEdge>) -> Seq<(Seq<char>, Seq<char>)> {
    es.map_values(|e: DependencyEdge| edge_names(e))
}

/// The names in `a` that `b` lacks, in order.
pub open spec fn missing_names(a: Seq<Seq<char>>, b: Seq<Seq<char>>) -> Seq<Seq<char>> {
    a.filter(|n: Seq<char>| !b.contains(n))
}

/// The edges of `a` that `b` lacks, in order.
pub open spec fn missing_edges(a: Seq<(Seq<char>, Seq<char>)>, b: Seq<(Seq<char>, Seq<char>)>) -> Seq<(Seq<char>, Seq<char>)> {
    a.filter(|p: (Seq<char>, Seq<char>)| !b.contains(p))
}

/// The readable label of an edge.
pub open spec fn edge_label(p: (Seq<char>, Seq<char>)) -> Seq<char> {
    p.0 + " -> "@ + p.1
}

/// The member names of each cycle group.
pub open spec fn group_texts(g: Seq<Vec<String>>) -> Seq<Seq<Seq<char>>> {
    g.map_values(|v: Vec<String>| texts(v@))
}

/// The names in `s` and every module that imports one of them.
pub open spec fn importers_step(s: Set<Seq<char>>, edges: Seq<(Seq<char>, Seq<char>)>) -> Set<Seq<char>> {
    s.union(Set::new(|u: Seq<char>| exists|k: int| 0 <= k < edges.len() && (#[trigger] edges[k]).0 == u && s.contains(edges[k].1)))
}

/// The modules that reach one of `seeds` in at most `n` import steps.
pub open spec fn importers_within(seeds: Set<Seq<char>>, edges: Seq<(Seq<char>, Seq<char>)>, n: nat) -> Set<Seq<char>>
    decreases n,
{
    if n == 0 {
        seeds
    } else {
        importers_step(importers_within(seeds, edges, (n - 1) as nat), edges)
    }
}

/// `u` is one of `seeds` or imports one of them, directly or through other modules.
pub open spec fn affected_by(seeds: Set<Seq<char>>, edges: Seq<(Seq<char>, Seq<char>)>, u: Seq<char>) -> bool {
    exists|n: nat| #[trigger] importers_within(seeds, edges, n).contains(u)
}

/// Where the impact of a branch starts: its changed source files and the importing end
/// of each edge that it added or removed.
pub open spec fn impact_seeds(changed: Seq<Seq<char>>, edge_changes: Seq<(Seq<char>, Seq<char>)>) -> Set<Seq<char>> {
    Set::new(|u: Seq<char>| changed.contains(u) || exists|k: int| 0 <= k < edge_changes.len() && (#[trigger] edge_changes[k]).0 == u)
}

/// The source files of both snapshots: those of the working tree, then the deleted ones.
pub open spec fn all_sources(previous: AnalysisReport, current: AnalysisReport) -> Seq<Seq<char>> {
    texts(current.nodes@) + missing_names(texts(previous.nodes@), texts(current.nodes@))
}

/// The edges of both snapshots: those of the working tree, then the removed ones.
pub open spec fn all_edges(previous: AnalysisReport, current: AnalysisReport) -> Seq<(Seq<char>, Seq<char>)> {
    edge_pairs(current.edges@) + missing_edges(edge_pairs(previous.edges@), edge_pairs(current.edges@))
}

/// The edges that a branch added, then those it removed.
pub open spec fn edge_changes(previous: AnalysisReport, current: AnalysisReport) -> Seq<(Seq<char>, Seq<char>)> {
    missing_edges(edge_pairs(current.edges@), edge_pairs(previous.edges@)) + missing_edges(edge_pairs(previous.edges@), edge_pairs(current.edges@))
}

/// The modules that the changes reach in either snapshot, in source order.
pub open spec fn affected_sources(changed: Seq<Seq<char>>, previous: AnalysisReport, current: AnalysisReport) -> Seq<Seq<char>> {
    let seeds = impact_seeds(changed_modules(changed, all_sources(previous, current)), edge_changes(previous, current));
    all_sources(previous, current).filter(|u: Seq<char>| affected_by(seeds, all_edges(previous, current), u))
}

/// The edges of either snapshot with an end among the affected modules.
pub open spec fn affected_edges(changed: Seq<Seq<char>>, previous: AnalysisReport, current: AnalysisReport) -> Seq<(Seq<char>, Seq<char>)> {
    let seeds = impact_seeds(changed_modules(changed, all_sources(previous, current)), edge_changes(previous, current));
    let edges = all_edges(previous, current);
    edges.filter(|p: (Seq<char>, Seq<char>)| affected_by(seeds, edges, p.0) || affected_by(seeds, edges, p.1))
}

/// The suggested review steps for a branch: untangling new cycle groups, reviewing the
/// changed imports, testing the affected modules; a note when nothing changed.
pub open spec fn next_steps_of(new_cycles: nat, added: nat, removed: nat, affected: nat) -> Seq<Seq<char>> {
    let steps = (if new_cycles > 0 {
        seq!["Untangle "@ + decimal(new_cycles) + " new cycle group(s) before merging."@]
    } else {
        Seq::empty()
    }) + (if added + removed > 0 {
        seq!["Review "@ + decimal(added) + " added and "@ + decimal(removed) + " removed import(s)."@]
    } else {
        Seq::empty()
    }) + (if affected > 0 {
        seq!["Test the "@ + decimal(affected) + " affected module(s)."@]
    } else {
        Seq::empty()
    });
    if steps.len() == 0 {
        seq!["No dependency changes to review."@]
    } else {
        steps
    }
}

/// The error for a failed `git diff`.
pub fn diff_failure(base: &str, stderr: &str) -> (r: String)
    ensures
        r@ == "git diff failed for base '"@ + base@ + "': "@ + stderr@,
{
    let mut r = concat("git diff failed for base '", base);
    r.append("': ");
    r.append(stderr);
    r
}

/// The lines of a text.
pub fn lines_of(s: &str) -> (r: Vec<String>)
    ensures
        texts(r@) == text_lines(s@),
{
    let c = chars_of(s);
    let parts = split(&c, '\n');
    let ghost ps = split_on(s@, '\n');
    proof {
        crate::text::lemma_split_nonempty(s@, '\n');
    }
    let mut r: Vec<String> = Vec::new();
    let mut i: usize = 0;
    while i < parts.len() - 1
        invariant
            i + 1 <= parts@.len(),
            c@ == s@,
            ps == split_on(s@, '\n'),
            parts@.len() == ps.len(),
            forall|k: int| 0 <= k < parts@.len() ==> #[trigger] parts@[k]@ == ps[k],
            texts(r@) == ps.subrange(0, i as int).map_values(|p: Seq<char>| strip_cr(p)),
        decreases parts@.len() - i,
    {
        let part = &parts[i];
        let line = if part.len() > 0 && part[part.len() - 1] == '\r' {
            slice(part, 0, part.len() - 1)
        } else {
            crate::text::copy(part)
        };
        assert(line@ == strip_cr(ps[i as int]));
        let ghost before = texts(r@);
        r.push(string_of(&line));
        assert(texts(r@) =~= before.push(strip_cr(ps[i as int])));
        i = i + 1;
        assert(texts(r@) =~= ps.subrange(0, i as int).map_values(|p: Seq<char>| strip_cr(p)));
    }
    assert(ps.subrange(0, i as int) =~= ps.drop_last());
    let last = &parts[parts.len() - 1];
    if last.len() > 0 {
        let ghost before = texts(r@);
        r.push(string_of(last));
        assert(texts(r@) =~= before.push(ps.last()));
    }
    r
}

/// The path of a status line.
fn status_path_of(line: &Vec<char>) -> (r: Option<Vec<char>>)
    ensures
        match r {
            Some(v) => status_path(line@) == Some(v@),
            None => status_path(line@) is None,
        },
{
    if line.len() <= 3 {
        return None;
    }
    let rest = slice(line, 3, line.len());
    assert(rest@ =~= line@.skip(3));
    let arrow = lit(" -> ");
    let found = crate::text::find(&rest, &arrow);
    proof {
        reveal_strlit(" -> ");
        match found {
            Some(i) => crate::parser::lemma_first_from(rest@, " -> "@, 0, i as int),
            None => crate::parser::lemma_first_from_none(rest@, " -> "@, 0),
        }
    }
    match found {
        Some(i) => {
            let r = slice(&rest, i + 4, rest.len());
            assert(r@ =~= rest@.skip(i + 4));
            Some(r)
        },
        None => Some(rest),
    }
}

/// The changed paths relative to the analysed directory, from the output of
/// `git diff --name-only <merge base>`, of `git status --porcelain` and of
/// `git rev-parse --show-prefix`.
pub fn changed_paths(diff_out: &str, status_out: &str, prefix: &str) -> (r: Vec<String>)
    ensures
        texts(r@) == changed_paths_of(diff_out@, status_out@, prefix@),
{
    let diff_lines = lines_of(diff_out);
    let status_lines = lines_of(status_out);
    let mut all: Vec<String> = Vec::new();
    let mut i: usize = 0;
    while i < diff_lines.len()
        invariant
            i <= diff_lines@.len(),
            texts(all@) == texts(diff_lines@).subrange(0, i as int),
        decreases diff_lines@.len() - i,
    {
        let ghost before = texts(all@);
        let line = diff_lines[i].clone();
        all.push(line);
        assert(texts(all@) =~= before.push(diff_lines@[i as int]@));
        i = i + 1;
        assert(texts(all@) =~= texts(diff_lines@).subrange(0, i as int));
    }
    assert(texts(diff_lines@).subrange(0, diff_lines@.len() as int) =~= texts(diff_lines@));
    let ghost head = texts(all@);
    let ghost sl = texts(status_lines@);
    let mut j: usize = 0;
    while j < status_lines.len()
        invariant
            j <= status_lines@.len(),
            sl == texts(status_lines@),
            texts(all@) == head + status_paths(sl.subrange(0, j as int)),
        decreases status_lines@.len() - j,
    {
        proof {
            assert(sl.subrange(0, j + 1).drop_last() =~= sl.subrange(0, j as int));
        }
        let ghost before = texts(all@);
        match status_path_of(&chars_of(status_lines[j].as_str())) {
            Some(p) => {
                all.push(string_of(&p));
                assert(texts(all@) =~= before.push(p@));
            },
            None => {},
        }
        j = j + 1;
        assert(texts(all@) =~= head + status_paths(sl.subrange(0, j as int)));
    }
    assert(sl.subrange(0, sl.len() as int) =~= sl);
    let ghost whole = texts(all@);
    let pre = chars_of(prefix);
    let mut r: Vec<String> = Vec::new();
    let mut k: usize = 0;
    while k < all.len()
        invariant
            k <= all@.len(),
            whole == texts(all@),
            pre@ == prefix@,
            texts(r@) == under_prefix(whole.subrange(0, k as int), prefix@),
        decreases all@.len() - k,
    {
        proof {
            assert(whole.subrange(0, k + 1).drop_last() =~= whole.subrange(0, k as int));
        }
        let c = chars_of(all[k].as_str());
        let ghost before = texts(r@);
        if starts_with(&c, &pre) {
            let rel = slice(&c, pre.len(), c.len());
            r.push(string_of(&rel));
            assert(texts(r@) =~= before.push(whole[k as int].skip(prefix@.len() as int)));
        }
        k = k + 1;
        assert(texts(r@) =~= under_prefix(whole.subrange(0, k as int), prefix@));
    }
    assert(whole.subrange(0, whole.len() as int) =~= whole);
    r
}

/// Whether `x` is one of `names`.
fn listed(names: &Vec<String>, x: &String) -> (r: bool)
    ensures
        r == texts(names@).contains(x@),
{
    let xs = chars_of(x.as_str());
    let mut i: usize = 0;
    while i < names.len()
        invariant
            i <= names@.len(),
            xs@ == x@,
            forall|k: int| 0 <= k < i ==> names@[k]@ != x@,
        decreases names@.len() - i,
    {
        if chars_equal(&chars_of(names[i].as_str()), &xs) {
            assert(texts(names@)[i as int] == x@);
            return true;
        }
        i = i + 1;
    }
    proof {
        if texts(names@).contains(x@) {
            let k = choose|k: int| 0 <= k < texts(names@).len() && texts(names@)[k] == x@;
            assert(names@[k]@ == x@);
        }
    }
    false
}

/// Sorts texts into character order, keeping repeats.
fn sort_texts(v: &Vec<String>) -> (r: Vec<String>)
    ensures
        sorted_texts_of(texts(v@), texts(r@)),
{
    let ghost tv = texts(v@);
    let mut keys: Vec<Vec<char>> = Vec::new();
    let mut i: usize = 0;
    while i < v.len()
        invariant
            i <= v@.len(),
            keys@.len() == i,
            forall|k: int| 0 <= k < i ==> (#[trigger] keys@[k])@ == v@[k]@,
        decreases v@.len() - i,
    {
        keys.push(chars_of(v[i].as_str()));
        i = i + 1;
    }
    let mut perm: Vec<usize> = Vec::new();
    let mut i: usize = 0;
    while i < keys.len()
        invariant
            i <= keys@.len(),
            keys@.len() == v@.len(),
            tv == texts(v@),
            forall|k: int| 0 <= k < keys@.len() ==> (#[trigger] keys@[k])@ == tv[k],
            perm@.len() == i,
            forall|k: int| 0 <= k < perm@.len() ==> #[trigger] perm@[k] < i,
            forall|x: usize| x < i ==> #[trigger] perm@.contains(x),
            forall|a: int, b: int| 0 <= a < b < perm@.len() ==> !seq_lt(tv[#[trigger] perm@[b] as int], tv[#[trigger] perm@[a] as int]),
        decreases keys@.len() - i,
    {
        let mut p: usize = 0;
        while p < perm.len() && !chars_less(&keys[i], &keys[perm[p]])
            invariant
                p <= perm@.len(),
                i < keys@.len(),
                keys@.len() == v@.len(),
                forall|k: int| 0 <= k < keys@.len() ==> (#[trigger] keys@[k])@ == tv[k],
                forall|k: int| 0 <= k < perm@.len() ==> #[trigger] perm@[k] < i,
                forall|k: int| 0 <= k < p ==> !seq_lt(tv[i as int], tv[#[trigger] perm@[k] as int]),
            decreases perm@.len() - p,
        {
            p = p + 1;
        }
        let ghost before = perm@;
        perm.insert(p, i);
        proof {
            assert forall|a: int, b: int| 0 <= a < b < perm@.len() implies !seq_lt(tv[#[trigger] perm@[b] as int], tv[#[trigger] perm@[a] as int]) by {
                if b == p {
                    assert(perm@[a] == before[a]);
                } else if a == p {
                    assert(perm@[b] == before[b - 1]);
                    let o = before[p as int];
                    let w = before[b - 1];
                    assert(seq_lt(tv[i as int], tv[o as int]));
                    if b - 1 == p {
                        lemma_seq_lt_asymmetric(tv[i as int], tv[o as int]);
                    } else {
                        assert(!seq_lt(tv[w as int], tv[o as int]));
                        if seq_lt(tv[w as int], tv[i as int]) {
                            lemma_seq_lt_transitive(tv[w as int], tv[i as int], tv[o as int]);
                        }
                    }
                } else if a < p && b > p {
                    assert(perm@[b] == before[b - 1]);
                    assert(perm@[a] == before[a]);
                } else if a < p {
                    assert(perm@[b] == before[b]);
                    assert(perm@[a] == before[a]);
                } else {
                    assert(perm@[b] == before[b - 1]);
                    assert(perm@[a] == before[a - 1]);
                }
            }
            assert forall|x: usize| x < i + 1 implies #[trigger] perm@.contains(x) by {
                if x == i {
                    assert(perm@[p as int] == x);
                } else {
                    assert(before.contains(x));
                    let k = choose|k: int| 0 <= k < before.len() && before[k] == x;
                    if k < p {
                        assert(perm@[k] == x);
                    } else {
                        assert(perm@[k + 1] == x);
                    }
                }
            }
        }
        i = i + 1;
    }
    let mut r: Vec<String> = Vec::new();
    let mut k: usize = 0;
    while k < perm.len()
        invariant
            k <= perm@.len(),
            perm@.len() == v@.len(),
            tv == texts(v@),
            forall|q: int| 0 <= q < perm@.len() ==> #[trigger] perm@[q] < v@.len(),
            r@.len() == k,
            forall|q: int| 0 <= q < k ==> (#[trigger] r@[q])@ == tv[perm@[q] as int],
        decreases perm@.len() - k,
    {
        r.push(v[perm[k]].clone());
        k = k + 1;
    }
    proof {
        let tr = texts(r@);
        assert(permutes(perm@, tv.len()));
        assert forall|k: int| 0 <= k < tr.len() implies #[trigger] tr[k] == tv[perm@[k] as int] by {}
        assert forall|a: int, b: int| 0 <= a < b < tr.len() implies !seq_lt(#[trigger] tr[b], #[trigger] tr[a]) by {
            assert(tr[a] == tv[perm@[a] as int] && tr[b] == tv[perm@[b] as int]);
        }
    }
    r
}

proof fn lemma_count_false_le(a: Seq<bool>, b: Seq<bool>)
    requires
        a.len() == b.len(),
        forall|i: int| 0 <= i < a.len() && a[i] ==> b[i],
    ensures
        count_false(b) <= count_false(a),
    decreases a.len(),
{
    if a.len() > 0 {
        assert forall|i: int| 0 <= i < a.len() - 1 && a.drop_last()[i] implies b.drop_last()[i] by {
            assert(a.drop_last()[i] == a[i] && b.drop_last()[i] == b[i]);
        }
        lemma_count_false_le(a.drop_last(), b.drop_last());
    }
}

proof fn lemma_count_false_less(a: Seq<bool>, b: Seq<bool>, w: int)
    requires
        a.len() == b.len(),
        forall|i: int| 0 <= i < a.len() && a[i] ==> b[i],
        0 <= w < a.len(),
        !a[w],
        b[w],
    ensures
        count_false(b) < count_false(a),
    decreases a.len(),
{
    assert forall|i: int| 0 <= i < a.len() - 1 && a.drop_last()[i] implies b.drop_last()[i] by {
        assert(a.drop_last()[i] == a[i] && b.drop_last()[i] == b[i]);
    }
    if w == a.len() - 1 {
        lemma_count_false_le(a.drop_last(), b.drop_last());
    } else {
        assert(a.drop_last()[w] == a[w] && b.drop_last()[w] == b[w]);
        lemma_count_false_less(a.drop_last(), b.drop_last(), w);
    }
}

proof fn lemma_step_monotone(a: Set<Seq<char>>, b: Set<Seq<char>>, e: Seq<(Seq<char>, Seq<char>)>)
    requires
        a.subset_of(b),
    ensures
        importers_step(a, e).subset_of(importers_step(b, e)),
{
    assert forall|x: Seq<char>| importers_step(a, e).contains(x) implies importers_step(b, e).contains(x) by {
        if !a.contains(x) {
            let j = choose|j: int| 0 <= j < e.len() && (#[trigger] e[j]).0 == x && a.contains(e[j].1);
            assert(b.contains(e[j].1));
        }
    }
}

proof fn lemma_within_grows(s: Set<Seq<char>>, e: Seq<(Seq<char>, Seq<char>)>, a: nat, b: nat)
    requires
        a <= b,
    ensures
        importers_within(s, e, a).subset_of(importers_within(s, e, b)),
    decreases b - a,
{
    if a < b {
        lemma_within_grows(s, e, a, (b - 1) as nat);
    }
}

proof fn lemma_within_fixed(s: Set<Seq<char>>, e: Seq<(Seq<char>, Seq<char>)>, k: nat, n: nat)
    requires
        importers_step(importers_within(s, e, k), e) == importers_within(s, e, k),
    ensures
        importers_within(s, e, n).subset_of(importers_within(s, e, k)),
    decreases n,
{
    if n <= k {
        lemma_within_grows(s, e, n, k);
    } else {
        lemma_within_fixed(s, e, k, (n - 1) as nat);
        lemma_step_monotone(importers_within(s, e, (n - 1) as nat), importers_within(s, e, k), e);
    }
}

/// The names in `a` that `b` lacks, in order.
fn missing(a: &Vec<String>, b: &Vec<String>) -> (r: Vec<String>)
    ensures
        texts(r@) == missing_names(texts(a@), texts(b@)),
{
    let ghost ta = texts(a@);
    let ghost tb = texts(b@);
    let ghost pred = |n: Seq<char>| !tb.contains(n);
    let mut r: Vec<String> = Vec::new();
    let mut i: usize = 0;
    while i < a.len()
        invariant
            i <= a@.len(),
            ta == texts(a@),
            tb == texts(b@),
            pred == (|n: Seq<char>| !tb.contains(n)),
            texts(r@) == ta.subrange(0, i as int).filter(pred),
        decreases a@.len() - i,
    {
        proof {
            assert(ta.subrange(0, i + 1).drop_last() =~= ta.subrange(0, i as int));
            reveal_with_fuel(Seq::filter, 1);
        }
        if !listed(b, &a[i]) {
            let ghost before = texts(r@);
            r.push(a[i].clone());
            assert(texts(r@) =~= before.push(a@[i as int]@));
        }
        i = i + 1;
    }
    assert(ta.subrange(0, ta.len() as int) =~= ta);
    r
}

/// Whether two edges join the same modules.
fn same_edge(a: &DependencyEdge, b: &DependencyEdge) -> (r: bool)
    ensures
        r == (edge_names(*a) == edge_names(*b)),
{
    chars_equal(&chars_of(a.from.as_str()), &chars_of(b.from.as_str())) && chars_equal(
        &chars_of(a.to.as_str()),
        &chars_of(b.to.as_str()),
    )
}

/// Whether `es` holds an edge joining the modules that `x` joins.
fn edge_listed(es: &Vec<DependencyEdge>, x: &DependencyEdge) -> (r: bool)
    ensures
        r == edge_pairs(es@).contains(edge_names(*x)),
{
    let mut i: usize = 0;
    while i < es.len()
        invariant
            i <= es@.len(),
            forall|k: int| 0 <= k < i ==> edge_names(es@[k]) != edge_names(*x),
        decreases es@.len() - i,
    {
        if same_edge(&es[i], x) {
            assert(edge_pairs(es@)[i as int] == edge_names(*x));
            return true;
        }
        i = i + 1;
    }
    proof {
        if edge_pairs(es@).contains(edge_names(*x)) {
            let k = choose|k: int| 0 <= k < edge_pairs(es@).len() && edge_pairs(es@)[k] == edge_names(*x);
            assert(edge_names(es@[k]) == edge_names(*x));
        }
    }
    false
}

/// A copy of an edge.
fn copy_edge(e: &DependencyEdge) -> (r: DependencyEdge)
    ensures
        edge_names(r) == edge_names(*e),
{
    DependencyEdge { from: e.from.clone(), to: e.to.clone() }
}

/// Copies of the edges.
fn copy_edges(es: &Vec<DependencyEdge>) -> (r: Vec<DependencyEdge>)
    ensures
        edge_pairs(r@) == edge_pairs(es@),
{
    let mut r: Vec<DependencyEdge> = Vec::new();
    let mut i: usize = 0;
    while i < es.len()
        invariant
            i <= es@.len(),
            edge_pairs(r@) == edge_pairs(es@).subrange(0, i as int),
        decreases es@.len() - i,
    {
        let ghost before = edge_pairs(r@);
        r.push(copy_edge(&es[i]));
        assert(edge_pairs(r@) =~= before.push(edge_names(es@[i as int])));
        assert(edge_pairs(es@).subrange(0, i + 1) =~= edge_pairs(es@).subrange(0, i as int).push(edge_names(es@[i as int])));
        i = i + 1;
    }
    assert(edge_pairs(es@).subrange(0, es@.len() as int) =~= edge_pairs(es@));
    r
}

/// The edges of `a` that `b` lacks, in order.
fn missing_edge_list(a: &Vec<DependencyEdge>, b: &Vec<DependencyEdge>) -> (r: Vec<DependencyEdge>)
    ensures
        edge_pairs(r@) == missing_edges(edge_pairs(a@), edge_pairs(b@)),
{
    let ghost pa = edge_pairs(a@);
    let ghost pb = edge_pairs(b@);
    let ghost pred = |p: (Seq<char>, Seq<char>)| !pb.contains(p);
    let mut r: Vec<DependencyEdge> = Vec::new();
    let mut i: usize = 0;
    while i < a.len()
        invariant
            i <= a@.len(),
            pa == edge_pairs(a@),
            pb == edge_pairs(b@),
            pred == (|p: (Seq<char>, Seq<char>)| !pb.contains(p)),
            edge_pairs(r@) == pa.subrange(0, i as int).filter(pred),
        decreases a@.len() - i,
    {
        proof {
            assert(pa.subrange(0, i + 1).drop_last() =~= pa.subrange(0, i as int));
            reveal_with_fuel(Seq::filter, 1);
        }
        if !edge_listed(b, &a[i]) {
            let ghost before = edge_pairs(r@);
            r.push(copy_edge(&a[i]));
            assert(edge_pairs(r@) =~= before.push(pa[i as int]));
        }
        i = i + 1;
    }
    assert(pa.subrange(0, pa.len() as int) =~= pa);
    r
}

/// The readable labels of the edges.
fn edge_labels(es: &Vec<DependencyEdge>) -> (r: Vec<String>)
    ensures
        texts(r@) == edge_pairs(es@).map_values(|p: (Seq<char>, Seq<char>)| edge_label(p)),
{
    let mut r: Vec<String> = Vec::new();
    let mut i: usize = 0;
    while i < es.len()
        invariant
            i <= es@.len(),
            r@.len() == i,
            forall|k: int| 0 <= k < i ==> (#[trigger] r@[k])@ == edge_label(edge_names(es@[k])),
        decreases es@.len() - i,
    {
        let head = concat(es[i].from.as_str(), " -> ");
        r.push(concat(head.as_str(), es[i].to.as_str()));
        i = i + 1;
    }
    assert(texts(r@) =~= edge_pairs(es@).map_values(|p: (Seq<char>, Seq<char>)| edge_label(p)));
    r
}

/// Whether two name lists read alike.
fn same_names(a: &Vec<String>, b: &Vec<String>) -> (r: bool)
    ensures
        r == (texts(a@) == texts(b@)),
{
    if a.len() != b.len() {
        assert(texts(a@).len() != texts(b@).len());
        return false;
    }
    let mut i: usize = 0;
    while i < a.len()
        invariant
            i <= a@.len(),
            a@.len() == b@.len(),
            forall|k: int| 0 <= k < i ==> a@[k]@ == b@[k]@,
        decreases a@.len() - i,
    {
        if !chars_equal(&chars_of(a[i].as_str()), &chars_of(b[i].as_str())) {
            assert(texts(a@)[i as int] != texts(b@)[i as int]);
            return false;
        }
        i = i + 1;
    }
    assert(texts(a@) =~= texts(b@));
    true
}

/// Whether `gs` holds a group of the members of `g`.
fn group_listed(gs: &Vec<Vec<String>>, g: &Vec<String>) -> (r: bool)
    ensures
        r == group_texts(gs@).contains(texts(g@)),
{
    let mut i: usize = 0;
    while i < gs.len()
        invariant
            i <= gs@.len(),
            forall|k: int| 0 <= k < i ==> texts(gs@[k]@) != texts(g@),
        decreases gs@.len() - i,
    {
        if same_names(&gs[i], g) {
            assert(group_texts(gs@)[i as int] == texts(g@));
            return true;
        }
        i = i + 1;
    }
    proof {
        if group_texts(gs@).contains(texts(g@)) {
            let k = choose|k: int| 0 <= k < group_texts(gs@).len() && group_texts(gs@)[k] == texts(g@);
            assert(texts(gs@[k]@) == texts(g@));
        }
    }
    false
}

/// The groups of `a` that `b` lacks, in order.
fn missing_groups(a: &Vec<Vec<String>>, b: &Vec<Vec<String>>) -> (r: Vec<Vec<String>>)
    ensures
        group_texts(r@) == group_texts(a@).filter(|g: Seq<Seq<char>>| !group_texts(b@).contains(g)),
{
    let ghost ga = group_texts(a@);
    let ghost gb = group_texts(b@);
    let ghost pred = |g: Seq<Seq<char>>| !gb.contains(g);
    let mut r: Vec<Vec<String>> = Vec::new();
    let mut i: usize = 0;
    while i < a.len()
        invariant
            i <= a@.len(),
            ga == group_texts(a@),
            gb == group_texts(b@),
            pred == (|g: Seq<Seq<char>>| !gb.contains(g)),
            group_texts(r@) == ga.subrange(0, i as int).filter(pred),
        decreases a@.len() - i,
    {
        proof {
            assert(ga.subrange(0, i + 1).drop_last() =~= ga.subrange(0, i as int));
            reveal_with_fuel(Seq::filter, 1);
        }
        if !group_listed(b, &a[i]) {
            let ghost before = group_texts(r@);
            r.push(copy_strings(&a[i]));
            assert(group_texts(r@) =~= before.push(ga[i as int]));
        }
        i = i + 1;
    }
    assert(ga.subrange(0, ga.len() as int) =~= ga);
    r
}

/// The names of `nodes` that `changed` lists, in order.
fn among(changed: &Vec<String>, nodes: &Vec<String>) -> (r: Vec<String>)
    ensures
        texts(r@) == changed_modules(texts(changed@), texts(nodes@)),
{
    let ghost tn = texts(nodes@);
    let ghost ch = texts(changed@);
    let ghost pred = |p: Seq<char>| ch.contains(p);
    let mut r: Vec<String> = Vec::new();
    let mut i: usize = 0;
    while i < nodes.len()
        invariant
            i <= nodes@.len(),
            tn == texts(nodes@),
            ch == texts(changed@),
            pred == (|p: Seq<char>| ch.contains(p)),
            texts(r@) == tn.subrange(0, i as int).filter(pred),
        decreases nodes@.len() - i,
    {
        proof {
            assert(tn.subrange(0, i + 1).drop_last() =~= tn.subrange(0, i as int));
            reveal_with_fuel(Seq::filter, 1);
        }
        if listed(changed, &nodes[i]) {
            let ghost before = texts(r@);
            r.push(nodes[i].clone());
            assert(texts(r@) =~= before.push(nodes@[i as int]@));
        }
        i = i + 1;
    }
    assert(tn.subrange(0, tn.len() as int) =~= tn);
    r
}

/// The importing ends of the edges, in order.
fn importing_ends(es: &Vec<DependencyEdge>) -> (r: Vec<String>)
    ensures
        texts(r@) == edge_pairs(es@).map_values(|p: (Seq<char>, Seq<char>)| p.0),
{
    let mut r: Vec<String> = Vec::new();
    let mut i: usize = 0;
    while i < es.len()
        invariant
            i <= es@.len(),
            r@.len() == i,
            forall|k: int| 0 <= k < i ==> (#[trigger] r@[k])@ == es@[k].from@,
        decreases es@.len() - i,
    {
        r.push(es[i].from.clone());
        i = i + 1;
    }
    assert(texts(r@) =~= edge_pairs(es@).map_values(|p: (Seq<char>, Seq<char>)| p.0));
    r
}

/// Both ends of each edge.
fn edge_ends(es: &Vec<DependencyEdge>) -> (r: Vec<String>)
    ensures
        forall|k: int| 0 <= k < es@.len() ==> texts(r@).contains(es@[k].from@) && texts(r@).contains(es@[k].to@),
{
    let mut r: Vec<String> = Vec::new();
    let mut i: usize = 0;
    while i < es.len()
        invariant
            i <= es@.len(),
            r@.len() == 2 * i,
            forall|k: int| 0 <= k < i ==> r@[2 * k]@ == es@[k].from@ && r@[2 * k + 1]@ == es@[k].to@,
        decreases es@.len() - i,
    {
        r.push(es[i].from.clone());
        r.push(es[i].to.clone());
        i = i + 1;
    }
    assert forall|k: int| 0 <= k < es@.len() implies texts(r@).contains(es@[k].from@) && texts(r@).contains(es@[k].to@) by {
        assert(texts(r@)[2 * k] == es@[k].from@);
        assert(texts(r@)[2 * k + 1] == es@[k].to@);
    }
    r
}

/// Adds each name of `names` that `u` lacks.
fn add_names(u: &mut Vec<String>, names: &Vec<String>)
    requires
        distinct(texts(old(u)@)),
    ensures
        distinct(texts(final(u)@)),
        forall|x: Seq<char>| #[trigger] texts(final(u)@).contains(x) <==> (texts(old(u)@).contains(x) || texts(names@).contains(x)),
{
    let ghost start = texts(u@);
    let mut i: usize = 0;
    while i < names.len()
        invariant
            i <= names@.len(),
            distinct(texts(u@)),
            forall|x: Seq<char>| #[trigger] texts(u@).contains(x) <==> (start.contains(x) || texts(names@).subrange(0, i as int).contains(x)),
        decreases names@.len() - i,
    {
        let ghost before = texts(u@);
        let ghost n = names@[i as int]@;
        proof {
            assert(texts(names@).subrange(0, i + 1) =~= texts(names@).subrange(0, i as int).push(n));
            assert forall|x: Seq<char>| texts(names@).subrange(0, i + 1).contains(x) <==> (texts(names@).subrange(0, i as int).contains(x) || x == n) by {
                lemma_push_contains(texts(names@).subrange(0, i as int), n, x);
            }
        }
        let seen = listed(u, &names[i]);
        if !seen {
            u.push(names[i].clone());
            proof {
                assert(texts(u@) =~= before.push(n));
                assert forall|x: Seq<char>| texts(u@).contains(x) <==> (before.contains(x) || x == n) by {
                    lemma_push_contains(before, n, x);
                }
                assert forall|a: int, b: int| 0 <= a < texts(u@).len() && 0 <= b < texts(u@).len() && a != b implies texts(u@)[a] != texts(u@)[b] by {
                    if a == before.len() {
                        assert(before[b] == texts(u@)[b]);
                    } else if b == before.len() {
                        assert(before[a] == texts(u@)[a]);
                    }
                }
            }
        }
        proof {
            assert forall|x: Seq<char>| #[trigger] texts(u@).contains(x) <==> (start.contains(x) || texts(names@).subrange(0, i + 1).contains(x)) by {
                lemma_push_contains(texts(names@).subrange(0, i as int), n, x);
                if !seen {
                    lemma_push_contains(before, n, x);
                }
            }
        }
        i = i + 1;
    }
    assert(texts(names@).subrange(0, names@.len() as int) =~= texts(names@));
}

/// Where `x` stands in `u`.
fn position(u: &Vec<String>, x: &String) -> (r: usize)
    requires
        texts(u@).contains(x@),
    ensures
        r < u@.len(),
        u@[r as int]@ == x@,
{
    let xs = chars_of(x.as_str());
    let mut i: usize = 0;
    while i < u.len()
        invariant
            i <= u@.len(),
            xs@ == x@,
            forall|k: int| 0 <= k < i ==> u@[k]@ != x@,
        decreases u@.len() - i,
    {
        if chars_equal(&chars_of(u[i].as_str()), &xs) {
            return i;
        }
        i = i + 1;
    }
    proof {
        let k = choose|k: int| 0 <= k < texts(u@).len() && texts(u@)[k] == x@;
        assert(u@[k]@ == x@);
    }
    0
}

/// A copy of the marks.
fn copy_marks(m: &Vec<bool>) -> (r: Vec<bool>)
    ensures
        r@ == m@,
{
    let mut r: Vec<bool> = Vec::new();
    let mut i: usize = 0;
    while i < m.len()
        invariant
            i <= m@.len(),
            r@ == m@.subrange(0, i as int),
        decreases m@.len() - i,
    {
        r.push(m[i]);
        i = i + 1;
        assert(r@ =~= m@.subrange(0, i as int));
    }
    assert(m@.subrange(0, m@.len() as int) =~= m@);
    r
}

/// For each name of `u`, whether it is among `seeds` or imports one of them through
/// `edges`.
fn reached_marks(u: &Vec<String>, seeds: &Vec<String>, edges: &Vec<DependencyEdge>) -> (marks: Vec<bool>)
    requires
        distinct(texts(u@)),
        forall|x: Seq<char>| texts(seeds@).contains(x) ==> texts(u@).contains(x),
        forall|k: int| 0 <= k < edges@.len() ==> texts(u@).contains(#[trigger] edges@[k].from@) && texts(u@).contains(edges@[k].to@),
    ensures
        marks@.len() == u@.len(),
        forall|i: int| 0 <= i < u@.len() ==> (marks@[i] <==> affected_by(
            Set::new(|x: Seq<char>| texts(seeds@).contains(x)),
            edge_pairs(edges@),
            u@[i]@,
        )),
{
    let ghost e = edge_pairs(edges@);
    let ghost tu = texts(u@);
    let ghost s0 = Set::new(|x: Seq<char>| texts(seeds@).contains(x));
    assert forall|j: int| 0 <= j < edges@.len() implies tu.contains(#[trigger] edges@[j].from@) && tu.contains(edges@[j].to@) by {
        assert(texts(u@).contains(edges@[j].from@));
    }
    let mut pairs: Vec<(usize, usize)> = Vec::new();
    let mut k: usize = 0;
    while k < edges.len()
        invariant
            k <= edges@.len(),
            e == edge_pairs(edges@),
            tu == texts(u@),
            forall|j: int| 0 <= j < edges@.len() ==> tu.contains(#[trigger] edges@[j].from@) && tu.contains(edges@[j].to@),
            pairs@.len() == k,
            forall|j: int| 0 <= j < k ==> (#[trigger] pairs@[j]).0 < u@.len() && pairs@[j].1 < u@.len() && tu[pairs@[j].0 as int] == e[j].0 && tu[pairs@[j].1 as int] == e[j].1,
        decreases edges@.len() - k,
    {
        assert(tu.contains(edges@[k as int].from@));
        let f = position(u, &edges[k].from);
        let t = position(u, &edges[k].to);
        pairs.push((f, t));
        k = k + 1;
    }
    let mut marks: Vec<bool> = Vec::new();
    let mut i: usize = 0;
    while i < u.len()
        invariant
            i <= u@.len(),
            tu == texts(u@),
            s0 == Set::new(|x: Seq<char>| texts(seeds@).contains(x)),
            marks@.len() == i,
            forall|j: int| 0 <= j < i ==> (marks@[j] <==> s0.contains(tu[j])),
        decreases u@.len() - i,
    {
        assert(tu[i as int] == u@[i as int]@);
        marks.push(listed(seeds, &u[i]));
        i = i + 1;
    }
    let ghost mut n: nat = 0;
    loop
        invariant
            e == edge_pairs(edges@),
            tu == texts(u@),
            distinct(tu),
            forall|j: int| 0 <= j < edges@.len() ==> tu.contains(#[trigger] edges@[j].from@) && tu.contains(edges@[j].to@),
            pairs@.len() == e.len(),
            forall|j: int| 0 <= j < e.len() ==> (#[trigger] pairs@[j]).0 < u@.len() && pairs@[j].1 < u@.len() && tu[pairs@[j].0 as int] == e[j].0 && tu[pairs@[j].1 as int] == e[j].1,
            marks@.len() == u@.len(),
            forall|j: int| 0 <= j < u@.len() ==> (marks@[j] <==> importers_within(s0, e, n).contains(tu[j])),
            forall|x: Seq<char>| importers_within(s0, e, n).contains(x) ==> tu.contains(x),
        ensures
            marks@.len() == u@.len(),
            forall|j: int| 0 <= j < u@.len() ==> (marks@[j] <==> importers_within(s0, e, n).contains(tu[j])),
            importers_step(importers_within(s0, e, n), e) == importers_within(s0, e, n),
        decreases count_false(marks@),
    {
        let ghost cur = importers_within(s0, e, n);
        let mut next = copy_marks(&marks);
        let mut grew = false;
        let mut k: usize = 0;
        while k < pairs.len()
            invariant
                k <= pairs@.len(),
                e == edge_pairs(edges@),
                tu == texts(u@),
                pairs@.len() == e.len(),
                distinct(tu),
                forall|j: int| 0 <= j < e.len() ==> (#[trigger] pairs@[j]).0 < u@.len() && pairs@[j].1 < u@.len() && tu[pairs@[j].0 as int] == e[j].0 && tu[pairs@[j].1 as int] == e[j].1,
                marks@.len() == u@.len(),
                next@.len() == u@.len(),
                forall|j: int| 0 <= j < u@.len() ==> (marks@[j] <==> cur.contains(tu[j])),
                forall|j: int| 0 <= j < u@.len() ==> (next@[j] <==> (marks@[j] || exists|q: int| 0 <= q < k && (#[trigger] e[q]).0 == tu[j] && cur.contains(e[q].1))),
                !grew ==> next@ == marks@,
                grew ==> exists|w: int| 0 <= w < u@.len() && !marks@[w] && next@[w],
            decreases pairs@.len() - k,
        {
            let (f, t) = pairs[k];
            let ghost before = next@;
            if marks[t] && !next[f] {
                next.set(f, true);
                grew = true;
            }
            proof {
                assert forall|j: int| 0 <= j < u@.len() implies (next@[j] <==> (marks@[j] || exists|q: int| 0 <= q < k + 1 && (#[trigger] e[q]).0 == tu[j] && cur.contains(e[q].1))) by {
                    if j == f as int {
                        if marks@[t as int] {
                            assert(e[k as int].0 == tu[j] && cur.contains(e[k as int].1));
                        }
                    } else {
                        assert(tu[j] != tu[f as int]);
                        if exists|q: int| 0 <= q < k + 1 && (#[trigger] e[q]).0 == tu[j] && cur.contains(e[q].1) {
                            let q = choose|q: int| 0 <= q < k + 1 && (#[trigger] e[q]).0 == tu[j] && cur.contains(e[q].1);
                            assert(q != k);
                        }
                    }
                }
            }
            k = k + 1;
        }
        proof {
            assert forall|j: int| 0 <= j < u@.len() implies (next@[j] <==> importers_step(cur, e).contains(tu[j])) by {
                if importers_step(cur, e).contains(tu[j]) && !cur.contains(tu[j]) {
                    let q = choose|q: int| 0 <= q < e.len() && (#[trigger] e[q]).0 == tu[j] && cur.contains(e[q].1);
                }
            }
            assert forall|x: Seq<char>| importers_step(cur, e).contains(x) implies tu.contains(x) by {
                if !cur.contains(x) {
                    let q = choose|q: int| 0 <= q < e.len() && (#[trigger] e[q]).0 == x && cur.contains(e[q].1);
                    assert(e[q].0 == edges@[q].from@);
                    assert(tu.contains(edges@[q].from@));
                }
            }
        }
        if !grew {
            proof {
                assert forall|x: Seq<char>| importers_step(cur, e).contains(x) <==> cur.contains(x) by {
                    if importers_step(cur, e).contains(x) {
                        let j = choose|j: int| 0 <= j < tu.len() && tu[j] == x;
                        assert(next@[j] == marks@[j]);
                    }
                }
                assert(importers_step(cur, e) =~= cur);
            }
            break;
        }
        proof {
            let w = choose|w: int| 0 <= w < u@.len() && !marks@[w] && next@[w];
            lemma_count_false_less(marks@, next@, w);
        }
        marks = next;
        proof {
            n = n + 1;
        }
    }
    proof {
        assert forall|j: int| 0 <= j < u@.len() implies (marks@[j] <==> affected_by(s0, e, u@[j]@)) by {
            assert(tu[j] == u@[j]@);
            if affected_by(s0, e, u@[j]@) {
                let m = choose|m: nat| #[trigger] importers_within(s0, e, m).contains(u@[j]@);
                lemma_within_fixed(s0, e, n, m);
            }
            if marks@[j] {
                assert(importers_within(s0, e, n).contains(u@[j]@));
            }
        }
    }
    marks
}

/// The suggested review steps (see `next_steps_of`).
fn next_steps(new_cycles: usize, added: usize, removed: usize, affected: usize) -> (r: Vec<String>)
    ensures
        texts(r@) == next_steps_of(new_cycles as nat, added as nat, removed as nat, affected as nat),
{
    let mut r: Vec<String> = Vec::new();
    let ghost a: Seq<Seq<char>> = if new_cycles > 0 {
        seq!["Untangle "@ + decimal(new_cycles as nat) + " new cycle group(s) before merging."@]
    } else {
        Seq::empty()
    };
    let ghost b: Seq<Seq<char>> = if added + removed > 0 {
        seq!["Review "@ + decimal(added as nat) + " added and "@ + decimal(removed as nat) + " removed import(s)."@]
    } else {
        Seq::empty()
    };
    let ghost c: Seq<Seq<char>> = if affected > 0 {
        seq!["Test the "@ + decimal(affected as nat) + " affected module(s)."@]
    } else {
        Seq::empty()
    };
    if new_cycles > 0 {
        let head = concat("Untangle ", string_of(&decimal_chars(new_cycles)).as_str());
        r.push(concat(head.as_str(), " new cycle group(s) before merging."));
    }
    assert(texts(r@) =~= a);
    if added > 0 || removed > 0 {
        let t1 = concat("Review ", string_of(&decimal_chars(added)).as_str());
        let t2 = concat(t1.as_str(), " added and ");
        let t3 = concat(t2.as_str(), string_of(&decimal_chars(removed)).as_str());
        let ghost before = texts(r@);
        r.push(concat(t3.as_str(), " removed import(s)."));
        assert(texts(r@) =~= before.push(b[0]));
    }
    assert(texts(r@) =~= a + b);
    if affected > 0 {
        let head = concat("Test the ", string_of(&decimal_chars(affected)).as_str());
        let ghost before = texts(r@);
        r.push(concat(head.as_str(), " affected module(s)."));
        assert(texts(r@) =~= before.push(c[0]));
    }
    assert(texts(r@) =~= a + b + c);
    if r.len() == 0 {
        r.push(String::from_str("No dependency changes to review."));
        assert(texts(r@) =~= seq!["No dependency changes to review."@]);
    }
    r
}

/// What a branch changed, from the report of its merge base (`previous`), the report of
/// the working tree (`current`) and the changed paths relative to the analysed
/// directory: the changed source files of either snapshot (deleted ones too) in character
/// order, the deleted ones, the added and removed dependencies, the cycle groups that are
/// new, the modules that the changes reach in either graph (the changed files and the
/// importing end of each added or removed edge, and every module that imports one of
/// them, directly or through others) in character order, the number of edges of either
/// graph with an end among them, the number of current cycle groups, the diagnostics of
/// both snapshots and whether both are free of them.
pub fn diff_report(
    base: &str,
    merge_base: &str,
    changed: &Vec<String>,
    previous: &AnalysisReport,
    current: &AnalysisReport,
) -> (d: DiffReport)
    ensures
        d.base@ == base@,
        d.merge_base@ == merge_base@,
        sorted_texts_of(changed_modules(texts(changed@), all_sources(*previous, *current)), texts(d.changed_source_files@)),
        texts(d.deleted_source_files@) == missing_names(texts(previous.nodes@), texts(current.nodes@)),
        edge_pairs(d.added_edges@) == missing_edges(edge_pairs(current.edges@), edge_pairs(previous.edges@)),
        edge_pairs(d.removed_edges@) == missing_edges(edge_pairs(previous.edges@), edge_pairs(current.edges@)),
        texts(d.added_dependencies@) == edge_pairs(d.added_edges@).map_values(|p: (Seq<char>, Seq<char>)| edge_label(p)),
        texts(d.removed_dependencies@) == edge_pairs(d.removed_edges@).map_values(|p: (Seq<char>, Seq<char>)| edge_label(p)),
        group_texts(d.new_cycles@) == group_texts(current.cycles@).filter(
            |g: Seq<Seq<char>>| !group_texts(previous.cycles@).contains(g),
        ),
        sorted_texts_of(affected_sources(texts(changed@), *previous, *current), texts(d.affected_modules@)),
        d.affected_dependencies == affected_edges(texts(changed@), *previous, *current).len(),
        d.cycles_in_current_tree == current.cycles@.len(),
        diagnostic_views(d.diagnostics@) == diagnostic_views(current.diagnostics@),
        diagnostic_views(d.base_diagnostics@) == diagnostic_views(previous.diagnostics@),
        d.analysis_complete == (current.diagnostics@.len() == 0 && previous.diagnostics@.len() == 0),
        texts(d.next_steps@) == next_steps_of(
            d.new_cycles@.len(),
            d.added_edges@.len(),
            d.removed_edges@.len(),
            d.affected_modules@.len(),
        ),
{
    let ghost ch = texts(changed@);
    let deleted = missing(&previous.nodes, &current.nodes);
    let added_edges = missing_edge_list(&current.edges, &previous.edges);
    let removed_edges = missing_edge_list(&previous.edges, &current.edges);
    let mut sources = copy_strings(&current.nodes);
    let mut gone = copy_strings(&deleted);
    let ghost src_head = texts(sources@);
    sources.append(&mut gone);
    assert(texts(sources@) =~= all_sources(*previous, *current));
    let changed_sources = among(changed, &sources);
    let mut edges = copy_edges(&current.edges);
    let mut gone_edges = copy_edges(&removed_edges);
    let ghost edge_head = edge_pairs(edges@);
    edges.append(&mut gone_edges);
    assert(edge_pairs(edges@) =~= all_edges(*previous, *current));
    let ghost all = all_edges(*previous, *current);
    let mut seeds = copy_strings(&changed_sources);
    let mut added_ends = importing_ends(&added_edges);
    let mut removed_ends = importing_ends(&removed_edges);
    let ghost (sa, sb, sc) = (texts(seeds@), texts(added_ends@), texts(removed_ends@));
    seeds.append(&mut added_ends);
    seeds.append(&mut removed_ends);
    assert(texts(seeds@) =~= sa + sb + sc);
    let ghost changes = edge_changes(*previous, *current);
    let ghost seed_set = impact_seeds(changed_modules(ch, all_sources(*previous, *current)), changes);
    proof {
        let pa = edge_pairs(added_edges@);
        let pr = edge_pairs(removed_edges@);
        assert(changes =~= pa + pr);
        assert forall|x: Seq<char>| #[trigger] texts(seeds@).contains(x) <==> seed_set.contains(x) by {
            if texts(seeds@).contains(x) {
                let k = choose|k: int| 0 <= k < texts(seeds@).len() && texts(seeds@)[k] == x;
                if k < sa.len() {
                    assert(sa[k] == x);
                } else if k < sa.len() + sb.len() {
                    assert(changes[k - sa.len()] == pa[k - sa.len()]);
                } else {
                    assert(changes[k - sa.len()] == pr[k - sa.len() - sb.len()]);
                }
            }
            if seed_set.contains(x) {
                if sa.contains(x) {
                    let k = choose|k: int| 0 <= k < sa.len() && sa[k] == x;
                    assert(texts(seeds@)[k] == x);
                } else {
                    let k = choose|k: int| 0 <= k < changes.len() && (#[trigger] changes[k]).0 == x;
                    if k < pa.len() {
                        assert(texts(seeds@)[sa.len() + k] == x);
                    } else {
                        assert(texts(seeds@)[sa.len() + k] == x);
                    }
                }
            }
        }
        assert(Set::new(|x: Seq<char>| texts(seeds@).contains(x)) =~= seed_set);
    }
    let ends = edge_ends(&edges);
    let mut u: Vec<String> = Vec::new();
    assert(texts(u@) =~= Seq::<Seq<char>>::empty());
    add_names(&mut u, &sources);
    add_names(&mut u, &ends);
    add_names(&mut u, &seeds);
    proof {
        assert forall|k: int| 0 <= k < edges@.len() implies texts(u@).contains(#[trigger] edges@[k].from@) && texts(u@).contains(edges@[k].to@) by {
            assert(texts(ends@).contains(edges@[k].from@));
        }
    }
    let marks = reached_marks(&u, &seeds, &edges);
    let ghost hit = |x: Seq<char>| affected_by(seed_set, all, x);
    assert forall|x: Seq<char>| #[trigger] texts(sources@).contains(x) implies texts(u@).contains(x) by {}
    let mut affected: Vec<String> = Vec::new();
    let ghost ts = texts(sources@);
    let mut i: usize = 0;
    while i < sources.len()
        invariant
            i <= sources@.len(),
            ts == texts(sources@),
            marks@.len() == u@.len(),
            forall|x: Seq<char>| #[trigger] ts.contains(x) ==> texts(u@).contains(x),
            forall|j: int| 0 <= j < u@.len() ==> (marks@[j] <==> hit(u@[j]@)),
            hit == (|x: Seq<char>| affected_by(seed_set, all, x)),
            texts(affected@) == ts.subrange(0, i as int).filter(hit),
        decreases sources@.len() - i,
    {
        proof {
            assert(ts.subrange(0, i + 1).drop_last() =~= ts.subrange(0, i as int));
            reveal_with_fuel(Seq::filter, 1);
            assert(ts.contains(ts[i as int]));
        }
        let p = position(&u, &sources[i]);
        if marks[p] {
            let ghost before = texts(affected@);
            affected.push(sources[i].clone());
            assert(texts(affected@) =~= before.push(ts[i as int]));
        }
        i = i + 1;
    }
    assert(ts.subrange(0, ts.len() as int) =~= ts);
    let ghost touching = |p: (Seq<char>, Seq<char>)| hit(p.0) || hit(p.1);
    let mut count: usize = 0;
    let mut k: usize = 0;
    while k < edges.len()
        invariant
            k <= edges@.len(),
            all == edge_pairs(edges@),
            marks@.len() == u@.len(),
            forall|q: int| 0 <= q < edges@.len() ==> texts(u@).contains(#[trigger] edges@[q].from@) && texts(u@).contains(edges@[q].to@),
            forall|j: int| 0 <= j < u@.len() ==> (marks@[j] <==> hit(u@[j]@)),
            touching == (|p: (Seq<char>, Seq<char>)| hit(p.0) || hit(p.1)),
            count == all.subrange(0, k as int).filter(touching).len(),
            count <= k,
        decreases edges@.len() - k,
    {
        proof {
            assert(all.subrange(0, k + 1).drop_last() =~= all.subrange(0, k as int));
            reveal_with_fuel(Seq::filter, 1);
        }
        let f = position(&u, &edges[k].from);
        let t = position(&u, &edges[k].to);
        if marks[f] || marks[t] {
            count = count + 1;
        }
        k = k + 1;
    }
    assert(all.subrange(0, all.len() as int) =~= all);
    assert(touching =~= (|p: (Seq<char>, Seq<char>)| affected_by(seed_set, all, p.0) || affected_by(seed_set, all, p.1)));
    assert(affected_edges(ch, *previous, *current) == all.filter(touching));
    let added_dependencies = edge_labels(&added_edges);
    let removed_dependencies = edge_labels(&removed_edges);
    let new_cycles = missing_groups(&current.cycles, &previous.cycles);
    let affected_modules = sort_texts(&affected);
    let steps = next_steps(new_cycles.len(), added_edges.len(), removed_edges.len(), affected_modules.len());
    DiffReport {
        base: String::from_str(base),
        merge_base: String::from_str(merge_base),
        changed_source_files: sort_texts(&changed_sources),
        deleted_source_files: deleted,
        added_dependencies,
        removed_dependencies,
        added_edges,
        removed_edges,
        new_cycles,
        affected_modules,
        affected_dependencies: count,
        cycles_in_current_tree: current.cycles.len(),
        diagnostics: copy_diagnostics(&current.diagnostics),
        base_diagnostics: copy_diagnostics(&previous.diagnostics),
        analysis_complete: current.diagnostics.len() == 0 && previous.diagnostics.len() == 0,
        next_steps: steps,
    }
}

} // verus!
