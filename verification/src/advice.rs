//! Prioritised guidance built from a report, its metrics and its rule check.
use vstd::prelude::*;
use crate::metrics::{ArchitectureMetrics, ModuleComplexity};
use crate::report::{texts, AnalysisReport, DependencyEdge, Diagnostic};
use crate::rules::{RulesConfig, Violation};
use crate::text::{chars_equal, chars_of, contains, decimal, decimal_chars, has_infix, has_part, lit, some_part_is, split_on, string_of};

verus! {

/// One piece of advice, with the files and evidence behind it.
#[derive(Debug)]
pub struct Finding {
    pub kind: String,
    pub priority: String,
    pub title: String,
    pub why: String,
    pub action: String,
    pub files: Vec<String>,
    pub evidence: Vec<String>,
}

/// The guidance shown after an analysis.
#[derive(Debug)]
pub struct Guidance {
    pub summary: String,
    pub scope: String,
    pub boundaries: String,
    pub boundary_rule_count: usize,
    pub score_explanation: String,
    pub findings: Vec<Finding>,
    pub entry_points: Vec<String>,
}

/// What one finding says, as text.
pub struct FindingText {
    pub kind: Seq<char>,
    pub priority: Seq<char>,
    pub title: Seq<char>,
    pub why: Seq<char>,
    pub action: Seq<char>,
    pub files: Seq<Seq<char>>,
    pub evidence: Seq<Seq<char>>,
}

impl Finding {
    /// The finding's text.
    pub open spec fn text(self) -> FindingText {
        FindingText {
            kind: self.kind@,
            priority: self.priority@,
            title: self.title@,
            why: self.why@,
            action: self.action@,
            files: texts(self.files@),
            evidence: texts(self.evidence@),
        }
    }
}

/// The texts of a list of findings.
pub open spec fn finding_texts(f: Seq<Finding>) -> Seq<FindingText> {
    f.map_values(|x: Finding| x.text())
}

// ---------------------------------------------------------------- texts of findings

/// The finding for a project without source files.
pub open spec fn empty_finding() -> FindingText {
    FindingText {
        kind: "empty"@,
        priority: "fix first"@,
        title: "No supported source files found"@,
        why: "There is no source graph to evaluate."@,
        action: "Check the analysis directory and ignore rules. Oxarch scans JavaScript, TypeScript and Vue, not Rust or other backend languages."@,
        files: seq![],
        evidence: seq![],
    }
}

/// The title of a diagnostic's finding, by its code.
pub open spec fn diagnostic_title(code: Seq<char>) -> Seq<char> {
    if code == "unresolved_config"@ {
        "Restore shared TypeScript configuration"@
    } else if code == "parse_error"@ {
        "Fix a source parsing error"@
    } else {
        "Resolve an internal import"@
    }
}

/// The suggested action for a diagnostic, by its code.
pub open spec fn diagnostic_action(code: Seq<char>) -> Seq<char> {
    if code == "unresolved_config"@ {
        "Install dependencies in the package containing this config, or correct its extends value. Rerun Oxarch before trusting reachability or the score."@
    } else if code == "parse_error"@ {
        "Open the reported location and run your project's compiler or type checker. Fix invalid syntax, or verify parser support if the source is valid; rerun analysis."@
    } else {
        "Check the import spelling, file casing, path aliases and package exports. If a build generates this file, generate it first and rerun analysis."@
    }
}

/// `file`, or `file:line:column` when the line is known (column 1 when it is not).
pub open spec fn location(d: Diagnostic) -> Seq<char> {
    match d.line {
        None => d.file@,
        Some(line) => d.file@ + ":"@ + decimal(line as nat) + ":"@ + decimal(
            match d.column {
                Some(c) => c as nat,
                None => 1,
            },
        ),
    }
}

/// The finding for one diagnostic.
pub open spec fn diagnostic_finding(d: Diagnostic) -> FindingText {
    FindingText {
        kind: d.code@,
        priority: "fix first"@,
        title: diagnostic_title(d.code@),
        why: "This finding can leave dependencies out of the graph, making later conclusions incomplete."@,
        action: diagnostic_action(d.code@),
        files: seq![d.file@],
        evidence: seq![location(d) + ": "@ + d.message@],
    }
}

/// `from imports to`.
pub open spec fn imports_text(from: Seq<char>, to: Seq<char>) -> Seq<char> {
    from + " imports "@ + to
}

/// The finding for one boundary violation.
pub open spec fn violation_finding(v: Violation) -> FindingText {
    FindingText {
        kind: "boundary"@,
        priority: "fix"@,
        title: "A dependency crosses a configured boundary"@,
        why: v.message@,
        action: "Move the dependency behind an allowed service/interface, or revise the boundary rule if the architecture intentionally changed."@,
        files: seq![v.from@, v.to@],
        evidence: seq![imports_text(v.from@, v.to@)],
    }
}

/// The imports among the members of a cycle group, in edge order.
pub open spec fn cycle_evidence(edges: Seq<DependencyEdge>, members: Seq<Seq<char>>) -> Seq<Seq<char>>
    decreases edges.len(),
{
    if edges.len() == 0 {
        Seq::empty()
    } else {
        let prev = cycle_evidence(edges.drop_last(), members);
        let e = edges.last();
        if members.contains(e.from@) && members.contains(e.to@) {
            prev.push(imports_text(e.from@, e.to@))
        } else {
            prev
        }
    }
}

/// The finding for one cycle group.
pub open spec fn cycle_finding(members: Seq<Seq<char>>, edges: Seq<DependencyEdge>) -> FindingText {
    FindingText {
        kind: "cycle"@,
        priority: "review"@,
        title: "Untangle a cycle involving "@ + decimal(members.len()) + " module(s)"@,
        why: "These modules depend on one another, directly or indirectly. That can make changes and initialization harder to reason about; type-only imports also count."@,
        action: "Review the actual imports in the evidence. Move shared types or helpers into a lower-level module, or pass a dependency in. Rerun analysis to confirm the cycle is gone."@,
        files: members,
        evidence: cycle_evidence(edges, members),
    }
}

/// The finding for one large module.
pub open spec fn large_finding(m: ModuleComplexity) -> FindingText {
    FindingText {
        kind: "large_module"@,
        priority: "review"@,
        title: "Review responsibilities in "@ + m.module@,
        why: "This file exceeds the 300-line review threshold. Length alone does not establish a defect or excessive complexity."@,
        action: "Look for independent responsibilities that can be extracted and tested separately. Keep cohesive code together; do not split a file just to improve the score."@,
        files: seq![m.module@],
        evidence: seq![decimal(m.lines as nat) + " lines (threshold: 300)"@],
    }
}

/// A path that looks like a test or a script: a `scripts`, `tests`, `__tests__` or
/// `test` directory part, or `.test.` / `.spec.` in the name.
pub open spec fn is_tooling_path(p: Seq<char>) -> bool {
    ||| some_part_is(split_on(p, '/'), "scripts"@)
    ||| some_part_is(split_on(p, '/'), "tests"@)
    ||| some_part_is(split_on(p, '/'), "__tests__"@)
    ||| some_part_is(split_on(p, '/'), "test"@)
    ||| has_infix(p, ".test."@)
    ||| has_infix(p, ".spec."@)
}

/// Why reachability candidates are listed, by how reachability was decided.
pub open spec fn reach_why(heuristic: bool) -> Seq<char> {
    if heuristic {
        "These files have no incoming imports and do not match the filename entry-point heuristic. This does not prove they are unused."@
    } else {
        "No import path reaches these files from the analysis entry points. Scripts, tests and dynamically loaded modules can still be intentional."@
    }
}

/// The finding for the reachability candidates (`tooling` false) or for the possible
/// test and script entry points (`tooling` true).
pub open spec fn reach_finding(tooling: bool, files: Seq<Seq<char>>, heuristic: bool) -> FindingText {
    FindingText {
        kind: if tooling {
            "tooling"@
        } else {
            "reachability"@
        },
        priority: "verify"@,
        title: if tooling {
            "Confirm "@ + decimal(files.len()) + " possible test/script entry point(s)"@
        } else {
            "Verify "@ + decimal(files.len()) + " possibly unused module(s)"@
        },
        why: reach_why(heuristic),
        action: if tooling {
            "Check package scripts and the test runner. If these are intentional roots, add them alongside existing roots in oxarch.json entryPoints. Explicit entryPoints replaces automatic detection. Do not delete files based on this list."@
        } else {
            "Check runtime loading and framework conventions. Add intentional entry files alongside existing roots in oxarch.json entryPoints; only consider removal after verifying the files are unused."@
        },
        files: files,
        evidence: seq![],
    }
}

/// The unused-module candidates that do not look like tooling.
pub open spec fn plain_candidates(m: ArchitectureMetrics) -> Seq<Seq<char>> {
    texts(m.dead_candidates@).filter(|p: Seq<char>| !is_tooling_path(p))
}

/// The unused-module candidates that look like tooling.
pub open spec fn tooling_candidates(m: ArchitectureMetrics) -> Seq<Seq<char>> {
    texts(m.dead_candidates@).filter(|p: Seq<char>| is_tooling_path(p))
}

/// Reachability was decided by filename heuristics.
pub open spec fn is_heuristic(m: ArchitectureMetrics) -> bool {
    m.reachability_mode@ == "heuristic"@
}

/// The reachability findings: plain candidates first, then tooling, each only when present.
pub open spec fn reach_findings(m: ArchitectureMetrics) -> Seq<FindingText> {
    (if plain_candidates(m).len() > 0 {
        seq![reach_finding(false, plain_candidates(m), is_heuristic(m))]
    } else {
        Seq::empty()
    }) + (if tooling_candidates(m).len() > 0 {
        seq![reach_finding(true, tooling_candidates(m), is_heuristic(m))]
    } else {
        Seq::empty()
    })
}

/// All findings, in the order they are reported: setup, diagnostics, boundary
/// violations, cycles, large modules, reachability.
pub open spec fn expected_findings(
    a: AnalysisReport,
    m: ArchitectureMetrics,
    violations: Seq<Violation>,
) -> Seq<FindingText> {
    (if a.source_files == 0 {
        seq![empty_finding()]
    } else {
        Seq::empty()
    }) + a.diagnostics@.map_values(|d: Diagnostic| diagnostic_finding(d)) + violations.map_values(
        |v: Violation| violation_finding(v),
    ) + a.cycles@.map_values(|c: Vec<String>| cycle_finding(texts(c@), a.edges@))
        + m.large_modules@.map_values(|x: ModuleComplexity| large_finding(x)) + reach_findings(m)
}

/// How many findings come before the cycle findings: the setup finding, the
/// diagnostics and the boundary violations.
pub open spec fn kind_start(a: AnalysisReport, violations: Seq<Violation>) -> int {
    (if a.source_files == 0 { 1int } else { 0int }) + a.diagnostics@.len() + violations.len()
}

/// The kinds that findings other than diagnostics have.
pub open spec fn fixed_kind(k: Seq<char>) -> bool {
    k == "empty"@ || k == "boundary"@ || k == "cycle"@ || k == "large_module"@ || k == "reachability"@
        || k == "tooling"@
}

/// The kind of each finding, in order: `empty` for a project without source files, the
/// code of each diagnostic, `boundary` once per violation, `cycle` once per cycle group,
/// `large_module` once per large module, then `reachability` when some candidate does not
/// look like tooling and `tooling` when some candidate does. No finding is dropped.
pub proof fn lemma_finding_kinds(a: AnalysisReport, m: ArchitectureMetrics, violations: Seq<Violation>)
    ensures
        expected_findings(a, m, violations).map_values(|f: FindingText| f.kind) == (if a.source_files == 0 {
            seq!["empty"@]
        } else {
            Seq::empty()
        }) + a.diagnostics@.map_values(|d: Diagnostic| d.code@) + Seq::new(
            violations.len(),
            |i: int| "boundary"@,
        ) + Seq::new(a.cycles@.len(), |i: int| "cycle"@) + Seq::new(
            m.large_modules@.len(),
            |i: int| "large_module"@,
        ) + (if plain_candidates(m).len() > 0 {
            seq!["reachability"@]
        } else {
            Seq::empty()
        }) + (if tooling_candidates(m).len() > 0 {
            seq!["tooling"@]
        } else {
            Seq::empty()
        }),
{
    let e: Seq<FindingText> = if a.source_files == 0 { seq![empty_finding()] } else { Seq::empty() };
    let d = a.diagnostics@.map_values(|d: Diagnostic| diagnostic_finding(d));
    let v = violations.map_values(|v: Violation| violation_finding(v));
    let c = a.cycles@.map_values(|c: Vec<String>| cycle_finding(texts(c@), a.edges@));
    let l = m.large_modules@.map_values(|x: ModuleComplexity| large_finding(x));
    let r = reach_findings(m);
    let k = |f: FindingText| f.kind;
    assert(expected_findings(a, m, violations) == e + d + v + c + l + r);
    assert((e + d + v + c + l + r).map_values(k) =~= e.map_values(k) + d.map_values(k) + v.map_values(k)
        + c.map_values(k) + l.map_values(k) + r.map_values(k));
    assert(e.map_values(k) =~= (if a.source_files == 0 { seq!["empty"@] } else { Seq::<Seq<char>>::empty() }));
    assert(d.map_values(k) =~= a.diagnostics@.map_values(|d: Diagnostic| d.code@));
    assert(v.map_values(k) =~= Seq::new(violations.len(), |i: int| "boundary"@));
    assert(c.map_values(k) =~= Seq::new(a.cycles@.len(), |i: int| "cycle"@));
    assert(l.map_values(k) =~= Seq::new(m.large_modules@.len(), |i: int| "large_module"@));
    assert(r.map_values(k) =~= (if plain_candidates(m).len() > 0 { seq!["reachability"@] } else {
        Seq::<Seq<char>>::empty() }) + (if tooling_candidates(m).len() > 0 { seq!["tooling"@] } else {
        Seq::empty() }));
}

proof fn lemma_kind_at(a: AnalysisReport, m: ArchitectureMetrics, violations: Seq<Violation>, i: int)
    requires
        forall|i: int| 0 <= i < a.diagnostics@.len() ==> !fixed_kind(#[trigger] a.diagnostics@[i].code@),
        0 <= i < expected_findings(a, m, violations).len(),
    ensures
        expected_findings(a, m, violations)[i].kind == "cycle"@ <==> kind_start(a, violations) <= i < kind_start(a, violations) + a.cycles@.len(),
        expected_findings(a, m, violations)[i].kind == "large_module"@ <==> kind_start(a, violations) + a.cycles@.len() <= i < kind_start(a, violations) + a.cycles@.len() + m.large_modules@.len(),
        i < kind_start(a, violations) + a.cycles@.len() + m.large_modules@.len() ==> expected_findings(a, m, violations)[i].kind != "reachability"@ && expected_findings(a, m, violations)[i].kind != "tooling"@,
{
    reveal_strlit("empty");
    reveal_strlit("boundary");
    reveal_strlit("cycle");
    reveal_strlit("large_module");
    reveal_strlit("reachability");
    reveal_strlit("tooling");
    assert("empty"@[0] != "cycle"@[0] && "large_module"@[0] != "reachability"@[0]);
    let fs = expected_findings(a, m, violations);
    let e: Seq<FindingText> = if a.source_files == 0 { seq![empty_finding()] } else { Seq::empty() };
    let d = a.diagnostics@.map_values(|d: Diagnostic| diagnostic_finding(d));
    let v = violations.map_values(|v: Violation| violation_finding(v));
    let c = a.cycles@.map_values(|c: Vec<String>| cycle_finding(texts(c@), a.edges@));
    let l = m.large_modules@.map_values(|x: ModuleComplexity| large_finding(x));
    let r = reach_findings(m);
    assert(fs == e + d + v + c + l + r);
    let rp = reach_finding(false, plain_candidates(m), is_heuristic(m));
    let rt = reach_finding(true, tooling_candidates(m), is_heuristic(m));
    assert forall|j: int| 0 <= j < r.len() implies (r[j] == rp || r[j] == rt) by {}
    let c0 = (if a.source_files == 0 { 1int } else { 0int }) + a.diagnostics@.len() + violations.len();
    let l0 = c0 + c.len();
    let r0 = l0 + l.len();

        assert(c0 == e.len() + d.len() + v.len());
        if i < e.len() {
            assert(fs[i] == e[i]);
            assert(fs[i].kind == "empty"@);
        } else if i < e.len() + d.len() {
            assert(fs[i] == d[i - e.len()]);
            assert(fs[i].kind == a.diagnostics@[i - e.len()].code@);
            assert(!fixed_kind(a.diagnostics@[i - e.len()].code@));
        } else if i < c0 {
            assert(fs[i] == v[i - e.len() - d.len()]);
            assert(fs[i].kind == "boundary"@);
        } else if i < l0 {
            assert(fs[i] == c[i - c0]);
            assert(fs[i].kind == "cycle"@);
        } else if i < r0 {
            assert(fs[i] == l[i - l0]);
            assert(fs[i].kind == "large_module"@);
        } else {
            assert(fs[i] == r[i - r0]);
            assert(fs[i].kind == "reachability"@ || fs[i].kind == "tooling"@);
        }
    }

/// Where no diagnostic has one of the fixed kinds: the findings of kind `cycle` are one
/// per cycle group, in order, the `j`-th naming the group's members, with priority
/// `review`, a title that counts them and, as evidence, each import among them in edge
/// order; those of kind `large_module` are one per large module, in order, naming it with
/// its line count; the finding of kind `reachability`, present exactly when some
/// candidate does not look like tooling, lists those candidates in order, and the one of
/// kind `tooling`, present exactly when some candidate does, lists those; both have
/// priority `verify`, no evidence and a title that counts the files.
pub proof fn lemma_findings_by_kind(a: AnalysisReport, m: ArchitectureMetrics, violations: Seq<Violation>)
    requires
        forall|i: int| 0 <= i < a.diagnostics@.len() ==> !fixed_kind(#[trigger] a.diagnostics@[i].code@),
    ensures
        ({
            let fs = expected_findings(a, m, violations);
            let start = (if a.source_files == 0 { 1int } else { 0int }) + a.diagnostics@.len() + violations.len();
            &&& forall|i: int| 0 <= i < fs.len() ==> ((#[trigger] fs[i]).kind == "cycle"@ <==> start <= i < start + a.cycles@.len())
            &&& forall|j: int| 0 <= j < a.cycles@.len() ==> fs[start + j] == cycle_finding(texts(a.cycles@[j]@), a.edges@)
            &&& forall|i: int| 0 <= i < fs.len() ==> (fs[i].kind == "large_module"@ <==> start + a.cycles@.len() <= i
                < start + a.cycles@.len() + m.large_modules@.len())
            &&& forall|j: int| 0 <= j < m.large_modules@.len() ==> fs[start + a.cycles@.len() + j] == large_finding(m.large_modules@[j])
            &&& (exists|i: int| 0 <= i < fs.len() && fs[i].kind == "reachability"@) <==> plain_candidates(m).len() > 0
            &&& forall|i: int| 0 <= i < fs.len() && fs[i].kind == "reachability"@ ==> fs[i] == reach_finding(false, plain_candidates(m), is_heuristic(m))
            &&& (exists|i: int| 0 <= i < fs.len() && fs[i].kind == "tooling"@) <==> tooling_candidates(m).len() > 0
            &&& forall|i: int| 0 <= i < fs.len() && fs[i].kind == "tooling"@ ==> fs[i] == reach_finding(true, tooling_candidates(m), is_heuristic(m))
        }),
{
    reveal_strlit("empty");
    reveal_strlit("boundary");
    reveal_strlit("cycle");
    reveal_strlit("large_module");
    reveal_strlit("reachability");
    reveal_strlit("tooling");
    assert("empty"@[0] != "cycle"@[0] && "large_module"@[0] != "reachability"@[0]);
    let fs = expected_findings(a, m, violations);
    let e: Seq<FindingText> = if a.source_files == 0 { seq![empty_finding()] } else { Seq::empty() };
    let d = a.diagnostics@.map_values(|d: Diagnostic| diagnostic_finding(d));
    let v = violations.map_values(|v: Violation| violation_finding(v));
    let c = a.cycles@.map_values(|c: Vec<String>| cycle_finding(texts(c@), a.edges@));
    let l = m.large_modules@.map_values(|x: ModuleComplexity| large_finding(x));
    let r = reach_findings(m);
    assert(fs == e + d + v + c + l + r);
    let rp = reach_finding(false, plain_candidates(m), is_heuristic(m));
    let rt = reach_finding(true, tooling_candidates(m), is_heuristic(m));
    assert forall|j: int| 0 <= j < r.len() implies (r[j] == rp || r[j] == rt) && (r[j].kind == "reachability"@ <==> r[j] == rp) && (r[j].kind == "tooling"@ <==> r[j] == rt) by {
        assert(rp.kind == "reachability"@ && rt.kind == "tooling"@);
    }
    let start = (if a.source_files == 0 { 1int } else { 0int }) + a.diagnostics@.len() + violations.len();
    let c0 = start;
    let l0 = start + c.len();
    let r0 = l0 + l.len();
    assert forall|i: int| 0 <= i < fs.len() implies (fs[i].kind == "cycle"@ <==> c0 <= i < l0) && (fs[i].kind
        == "large_module"@ <==> l0 <= i < r0) && (i < r0 ==> fs[i].kind != "reachability"@ && fs[i].kind
        != "tooling"@) by {
        lemma_kind_at(a, m, violations, i);
    }
    assert forall|j: int| 0 <= j < a.cycles@.len() implies fs[start + j] == cycle_finding(texts(a.cycles@[j]@), a.edges@) by {
        assert(fs[start + j] == c[j]);
    }
    assert forall|j: int| 0 <= j < m.large_modules@.len() implies fs[l0 + j] == large_finding(m.large_modules@[j]) by {
        assert(fs[l0 + j] == l[j]);
    }
    assert forall|i: int| 0 <= i < fs.len() && fs[i].kind == "reachability"@ implies fs[i] == rp by {
        assert(fs[i] == r[i - r0]);
    }
    assert forall|i: int| 0 <= i < fs.len() && fs[i].kind == "tooling"@ implies fs[i] == rt by {
        assert(fs[i] == r[i - r0]);
    }
    if plain_candidates(m).len() > 0 {
        assert(fs[r0] == r[0]);
    }
    if tooling_candidates(m).len() > 0 {
        assert(fs[r0 + r.len() - 1] == r[r.len() - 1]);
    }
}

/// Each evidence line of a cycle finding names an import between two members of the
/// group, and each import between two members of the group has a line: an import that
/// leaves the group is never evidence, and none inside it is left out.
pub proof fn lemma_cycle_evidence_within(edges: Seq<DependencyEdge>, members: Seq<Seq<char>>)
    ensures
        forall|k: int| #![trigger cycle_evidence(edges, members)[k]] 0 <= k < cycle_evidence(edges, members).len() ==> exists|e: int|
            0 <= e < edges.len() && members.contains(#[trigger] edges[e].from@) && members.contains(edges[e].to@)
                && cycle_evidence(edges, members)[k] == edges[e].from@ + " imports "@ + edges[e].to@,
        forall|e: int|
            0 <= e < edges.len() && members.contains(#[trigger] edges[e].from@) && members.contains(edges[e].to@)
                ==> cycle_evidence(edges, members).contains(edges[e].from@ + " imports "@ + edges[e].to@),
    decreases edges.len(),
{
    if edges.len() > 0 {
        let d = edges.drop_last();
        lemma_cycle_evidence_within(d, members);
        let prev = cycle_evidence(d, members);
        let ev = cycle_evidence(edges, members);
        let last = edges.last();
        assert forall|k: int| #![trigger ev[k]] 0 <= k < ev.len() implies exists|e: int|
            0 <= e < edges.len() && members.contains(#[trigger] edges[e].from@) && members.contains(edges[e].to@)
                && ev[k] == edges[e].from@ + " imports "@ + edges[e].to@ by {
            if k < prev.len() {
                assert(ev[k] == prev[k]);
                let e = choose|e: int| 0 <= e < d.len() && members.contains(#[trigger] d[e].from@) && members.contains(d[e].to@)
                    && prev[k] == d[e].from@ + " imports "@ + d[e].to@;
                assert(d[e] == edges[e]);
            } else {
                assert(edges[edges.len() - 1] == last);
            }
        }
        assert forall|e: int|
            0 <= e < edges.len() && members.contains(#[trigger] edges[e].from@) && members.contains(edges[e].to@)
                implies ev.contains(edges[e].from@ + " imports "@ + edges[e].to@) by {
            if e < d.len() {
                assert(d[e] == edges[e]);
                let t = choose|t: int| 0 <= t < prev.len() && prev[t] == d[e].from@ + " imports "@ + d[e].to@;
                assert(ev[t] == prev[t]);
            } else {
                assert(ev[ev.len() - 1] == edges[e].from@ + " imports "@ + edges[e].to@);
            }
        }
    }
}

/// The evidence of a cycle finding follows the edges in order: it is the text of the
/// imports between members of the group, one line for each, in the order of the edges;
/// `idx` gives the edge behind each line.
pub proof fn lemma_cycle_evidence_in_edge_order(edges: Seq<DependencyEdge>, members: Seq<Seq<char>>) -> (idx: Seq<int>)
    ensures
        idx.len() == cycle_evidence(edges, members).len(),
        forall|k: int| 0 <= k < idx.len() ==> 0 <= #[trigger] idx[k] < edges.len() && members.contains(edges[idx[k]].from@)
            && members.contains(edges[idx[k]].to@) && cycle_evidence(edges, members)[k] == edges[idx[k]].from@
            + " imports "@ + edges[idx[k]].to@,
        forall|k: int, l: int| 0 <= k < l < idx.len() ==> #[trigger] idx[k] < #[trigger] idx[l],
        forall|e: int|
            0 <= e < edges.len() && members.contains(#[trigger] edges[e].from@) && members.contains(edges[e].to@) ==> idx.contains(e),
    decreases edges.len(),
{
    if edges.len() == 0 {
        Seq::empty()
    } else {
        let d = edges.drop_last();
        let prev = lemma_cycle_evidence_in_edge_order(d, members);
        let n = edges.len() - 1;
        let last = edges.last();
        let idx = if members.contains(last.from@) && members.contains(last.to@) { prev.push(n) } else { prev };
        assert forall|k: int| 0 <= k < idx.len() implies 0 <= #[trigger] idx[k] < edges.len() && members.contains(edges[idx[k]].from@)
            && members.contains(edges[idx[k]].to@) && cycle_evidence(edges, members)[k] == edges[idx[k]].from@
            + " imports "@ + edges[idx[k]].to@ by {
            if k < prev.len() {
                assert(idx[k] == prev[k]);
                assert(d[prev[k]] == edges[prev[k]]);
            }
        }
        assert forall|k: int, l: int| 0 <= k < l < idx.len() implies #[trigger] idx[k] < #[trigger] idx[l] by {
            if l < prev.len() {
                assert(idx[k] == prev[k] && idx[l] == prev[l]);
            } else {
                assert(idx[k] == prev[k]);
            }
        }
        assert forall|e: int|
            0 <= e < edges.len() && members.contains(#[trigger] edges[e].from@) && members.contains(edges[e].to@) implies idx.contains(e) by {
            if e < n {
                assert(d[e] == edges[e]);
                let t = choose|t: int| 0 <= t < prev.len() && prev[t] == e;
                assert(idx[t] == e);
            } else {
                assert(idx[idx.len() - 1] == e);
            }
        }
        idx
    }
}

/// A project without source files is told that analysis needs setup; one with analysis
/// problems is told to fix them first, with their count; a project with source files, no
/// problems, no cycle groups and no violations is told that there are none, never asked
/// to review cycles.
pub proof fn lemma_summary_cases(a: AnalysisReport, violations: Seq<Violation>, any_findings: bool)
    ensures
        a.source_files == 0 ==> summary_text(a, violations, any_findings) == "Analysis needs setup: no supported source files were found."@,
        a.source_files > 0 && a.diagnostics@.len() > 0 ==> summary_text(a, violations, any_findings) == "Fix "@ + decimal(
            a.diagnostics@.len(),
        ) + " analysis issue(s) first. The graph and score may be incomplete."@,
        a.source_files > 0 && a.diagnostics@.len() == 0 && a.cycles@.len() == 0 && violations.len() == 0 ==> summary_text(
            a,
            violations,
            any_findings,
        ) == if any_findings {
            "No cycles or configured-boundary violations found. The items below are review candidates, not confirmed defects."@
        } else {
            "No findings under the current checks. This does not replace tests or type checking."@
        },
{
}

/// When there are source files and no analysis problems, a project with a cycle group
/// or a boundary violation gets a summary that counts both; it is never told that there
/// are no cycles.
pub proof fn lemma_summary_reports_cycles(a: AnalysisReport, violations: Seq<Violation>, any_findings: bool)
    requires
        a.source_files > 0,
        a.diagnostics@.len() == 0,
        a.cycles@.len() > 0 || violations.len() > 0,
    ensures
        summary_text(a, violations, any_findings) == "Review "@ + decimal(a.cycles@.len()) + " cycle group(s) and "@
            + decimal(violations.len()) + " boundary violation(s), then the maintenance candidates below."@,
{
}

// ---------------------------------------------------------------- texts of the summary

/// The one-line summary.
pub open spec fn summary_text(
    a: AnalysisReport,
    violations: Seq<Violation>,
    any_findings: bool,
) -> Seq<char> {
    if a.source_files == 0 {
        "Analysis needs setup: no supported source files were found."@
    } else if a.diagnostics@.len() > 0 {
        "Fix "@ + decimal(a.diagnostics@.len()) + " analysis issue(s) first. The graph and score may be incomplete."@
    } else if violations.len() > 0 || a.cycles@.len() > 0 {
        "Review "@ + decimal(a.cycles@.len()) + " cycle group(s) and "@ + decimal(violations.len())
            + " boundary violation(s), then the maintenance candidates below."@
    } else if any_findings {
        "No cycles or configured-boundary violations found. The items below are review candidates, not confirmed defects."@
    } else {
        "No findings under the current checks. This does not replace tests or type checking."@
    }
}

/// How reachability was decided.
pub open spec fn scope_text(m: ArchitectureMetrics) -> Seq<char> {
    if is_heuristic(m) {
        "Reachability uses filename heuristics. Configure entryPoints for a graph-based check of your actual entry files."@
    } else {
        "Reachability follows imports from "@ + decimal(m.entry_points@.len()) + " "@ + (if m.reachability_mode@
            == "framework"@ {
            "automatically detected framework"@
        } else {
            "configured"@
        }) + " entry point(s). Tests, scripts and runtime-loaded files may need additional roots."@
    }
}

/// Which boundary rules were checked.
pub open spec fn boundaries_text(rule_count: nat, violation_count: nat) -> Seq<char> {
    if rule_count == 0 {
        "Boundaries not checked: no rules configured in oxarch.json."@
    } else {
        decimal(rule_count) + " boundary rule(s) checked; "@ + decimal(violation_count) + " violation(s)."@
    }
}

/// How the health score was reached.
pub open spec fn score_text(a: AnalysisReport, m: ArchitectureMetrics) -> Seq<char> {
    "Score: 100 - "@ + decimal(m.score_penalties.cycles as nat) + " for cycle members - "@ + decimal(
        m.score_penalties.unused_candidates as nat,
    ) + " for reachability candidates - "@ + decimal(m.score_penalties.large_modules as nat)
        + " for large files = "@ + decimal(m.health_score as nat)
        + "/100. This is a review signal, not a production-readiness grade."@ + (if a.diagnostics@.len()
        == 0 {
        ""@
    } else {
        " Analysis is incomplete."@
    })
}

// ---------------------------------------------------------------- building

/// The decimal notation of `n` as a string.
fn number(n: usize) -> (s: String)
    ensures
        s@ == decimal(n as nat),
{
    string_of(&decimal_chars(n))
}

/// The strings of a list, copied.
fn copy_all(v: &Vec<String>) -> (r: Vec<String>)
    ensures
        texts(r@) == texts(v@),
{
    let mut r: Vec<String> = Vec::new();
    let mut i: usize = 0;
    while i < v.len()
        invariant
            i <= v@.len(),
            r@.len() == i,
            forall|k: int| 0 <= k < i ==> (#[trigger] r@[k])@ == v@[k]@,
        decreases v@.len() - i,
    {
        r.push(v[i].clone());
        i = i + 1;
    }
    assert(texts(r@) =~= texts(v@));
    r
}

/// A finding made of its parts.
fn finding(
    kind: &str,
    priority: &str,
    title: String,
    why: &str,
    action: &str,
    files: Vec<String>,
    evidence: Vec<String>,
) -> (f: Finding)
    ensures
        f.text() == (FindingText {
            kind: kind@,
            priority: priority@,
            title: title@,
            why: why@,
            action: action@,
            files: texts(files@),
            evidence: texts(evidence@),
        }),
{
    Finding {
        kind: String::from_str(kind),
        priority: String::from_str(priority),
        title,
        why: String::from_str(why),
        action: String::from_str(action),
        files,
        evidence,
    }
}

/// Whether `s` is the text `t`.
fn is_text(s: &String, t: &str) -> (r: bool)
    ensures
        r == (s@ == t@),
{
    chars_equal(&chars_of(s.as_str()), &lit(t))
}

fn diagnostic_finding_of(d: &Diagnostic) -> (f: Finding)
    ensures
        f.text() == diagnostic_finding(*d),
{
    let (title, action) = if is_text(&d.code, "unresolved_config") {
        (
            "Restore shared TypeScript configuration",
            "Install dependencies in the package containing this config, or correct its extends value. Rerun Oxarch before trusting reachability or the score.",
        )
    } else if is_text(&d.code, "parse_error") {
        (
            "Fix a source parsing error",
            "Open the reported location and run your project's compiler or type checker. Fix invalid syntax, or verify parser support if the source is valid; rerun analysis.",
        )
    } else {
        (
            "Resolve an internal import",
            "Check the import spelling, file casing, path aliases and package exports. If a build generates this file, generate it first and rerun analysis.",
        )
    };
    let mut place = d.file.clone();
    match d.line {
        None => {},
        Some(line) => {
            place.append(":");
            place.append(number(line).as_str());
            place.append(":");
            let column = match d.column {
                Some(c) => c,
                None => 1,
            };
            place.append(number(column).as_str());
        },
    }
    assert(place@ == location(*d));
    let mut evidence_line = place;
    evidence_line.append(": ");
    evidence_line.append(d.message.as_str());
    let mut files = Vec::new();
    files.push(d.file.clone());
    let mut evidence = Vec::new();
    evidence.push(evidence_line);
    let f = finding(
        d.code.as_str(),
        "fix first",
        String::from_str(title),
        "This finding can leave dependencies out of the graph, making later conclusions incomplete.",
        action,
        files,
        evidence,
    );
    assert(texts(f.files@) =~= seq![d.file@]);
    assert(texts(f.evidence@) =~= seq![location(*d) + ": "@ + d.message@]);
    f
}

/// `from imports to` as a string.
fn imports_string(from: &String, to: &String) -> (s: String)
    ensures
        s@ == imports_text(from@, to@),
{
    let mut s = from.clone();
    s.append(" imports ");
    s.append(to.as_str());
    s
}

fn violation_finding_of(v: &Violation) -> (f: Finding)
    ensures
        f.text() == violation_finding(*v),
{
    let mut files = Vec::new();
    files.push(v.from.clone());
    files.push(v.to.clone());
    let mut evidence = Vec::new();
    evidence.push(imports_string(&v.from, &v.to));
    let f = finding(
        "boundary",
        "fix",
        String::from_str("A dependency crosses a configured boundary"),
        v.message.as_str(),
        "Move the dependency behind an allowed service/interface, or revise the boundary rule if the architecture intentionally changed.",
        files,
        evidence,
    );
    assert(texts(f.files@) =~= seq![v.from@, v.to@]);
    assert(texts(f.evidence@) =~= seq![imports_text(v.from@, v.to@)]);
    f
}

/// Whether `x` is one of `members`.
fn listed(members: &Vec<String>, x: &String) -> (r: bool)
    ensures
        r == texts(members@).contains(x@),
{
    let mut i: usize = 0;
    while i < members.len()
        invariant
            i <= members@.len(),
            forall|k: int| 0 <= k < i ==> members@[k]@ != x@,
        decreases members@.len() - i,
    {
        if chars_equal(&chars_of(members[i].as_str()), &chars_of(x.as_str())) {
            assert(texts(members@)[i as int] == x@);
            return true;
        }
        i = i + 1;
    }
    proof {
        if texts(members@).contains(x@) {
            let k = choose|k: int| 0 <= k < texts(members@).len() && texts(members@)[k] == x@;
            assert(members@[k]@ == x@);
        }
    }
    false
}

fn cycle_finding_of(members: &Vec<String>, edges: &Vec<DependencyEdge>) -> (f: Finding)
    ensures
        f.text() == cycle_finding(texts(members@), edges@),
{
    let ghost names = texts(members@);
    let mut evidence: Vec<String> = Vec::new();
    let mut i: usize = 0;
    while i < edges.len()
        invariant
            i <= edges@.len(),
            names == texts(members@),
            texts(evidence@) == cycle_evidence(edges@.subrange(0, i as int), names),
        decreases edges@.len() - i,
    {
        proof {
            assert(edges@.subrange(0, i + 1).drop_last() =~= edges@.subrange(0, i as int));
        }
        let e = &edges[i];
        if listed(members, &e.from) && listed(members, &e.to) {
            let line = imports_string(&e.from, &e.to);
            evidence.push(line);
            assert(texts(evidence@) =~= cycle_evidence(edges@.subrange(0, i as int), names).push(
                imports_text(e.from@, e.to@),
            ));
        }
        i = i + 1;
    }
    assert(edges@.subrange(0, edges@.len() as int) =~= edges@);
    let mut title = String::from_str("Untangle a cycle involving ");
    title.append(number(members.len()).as_str());
    title.append(" module(s)");
    finding(
        "cycle",
        "review",
        title,
        "These modules depend on one another, directly or indirectly. That can make changes and initialization harder to reason about; type-only imports also count.",
        "Review the actual imports in the evidence. Move shared types or helpers into a lower-level module, or pass a dependency in. Rerun analysis to confirm the cycle is gone.",
        copy_all(members),
        evidence,
    )
}

fn large_finding_of(m: &ModuleComplexity) -> (f: Finding)
    ensures
        f.text() == large_finding(*m),
{
    let mut title = String::from_str("Review responsibilities in ");
    title.append(m.module.as_str());
    let mut files = Vec::new();
    files.push(m.module.clone());
    let mut line = number(m.lines);
    line.append(" lines (threshold: 300)");
    let mut evidence = Vec::new();
    evidence.push(line);
    let f = finding(
        "large_module",
        "review",
        title,
        "This file exceeds the 300-line review threshold. Length alone does not establish a defect or excessive complexity.",
        "Look for independent responsibilities that can be extracted and tested separately. Keep cohesive code together; do not split a file just to improve the score.",
        files,
        evidence,
    );
    assert(texts(f.files@) =~= seq![m.module@]);
    assert(texts(f.evidence@) =~= seq![decimal(m.lines as nat) + " lines (threshold: 300)"@]);
    f
}

/// Whether a path looks like a test or a script.
pub fn is_tooling(path: &str) -> (r: bool)
    ensures
        r == is_tooling_path(path@),
{
    let p = chars_of(path);
    has_part(&p, '/', &lit("scripts")) || has_part(&p, '/', &lit("tests")) || has_part(
        &p,
        '/',
        &lit("__tests__"),
    ) || has_part(&p, '/', &lit("test")) || contains(&p, &lit(".test.")) || contains(
        &p,
        &lit(".spec."),
    )
}

/// The candidates that look like tooling (`tooling` true) or that do not.
fn split_candidates(v: &Vec<String>, tooling: bool) -> (r: Vec<String>)
    ensures
        tooling ==> texts(r@) == texts(v@).filter(|p: Seq<char>| is_tooling_path(p)),
        !tooling ==> texts(r@) == texts(v@).filter(|p: Seq<char>| !is_tooling_path(p)),
{
    let ghost pred: spec_fn(Seq<char>) -> bool = if tooling {
        |p: Seq<char>| is_tooling_path(p)
    } else {
        |p: Seq<char>| !is_tooling_path(p)
    };
    let mut r: Vec<String> = Vec::new();
    let mut i: usize = 0;
    while i < v.len()
        invariant
            i <= v@.len(),
            pred == (if tooling {
                |p: Seq<char>| is_tooling_path(p)
            } else {
                |p: Seq<char>| !is_tooling_path(p)
            }),
            texts(r@) == texts(v@).subrange(0, i as int).filter(pred),
        decreases v@.len() - i,
    {
        proof {
            let next = texts(v@).subrange(0, i + 1);
            assert(next.drop_last() =~= texts(v@).subrange(0, i as int));
            reveal_with_fuel(Seq::filter, 1);
        }
        if is_tooling(v[i].as_str()) == tooling {
            r.push(v[i].clone());
            assert(texts(r@) =~= texts(v@).subrange(0, i as int).filter(pred).push(v@[i as int]@));
        }
        i = i + 1;
    }
    assert(texts(v@).subrange(0, v@.len() as int) =~= texts(v@));
    r
}

fn reach_finding_of(tooling: bool, files: Vec<String>, heuristic: bool) -> (f: Finding)
    ensures
        f.text() == reach_finding(tooling, texts(files@), heuristic),
{
    let mut title = String::from_str(
        if tooling {
            "Confirm "
        } else {
            "Verify "
        },
    );
    title.append(number(files.len()).as_str());
    title.append(
        if tooling {
            " possible test/script entry point(s)"
        } else {
            " possibly unused module(s)"
        },
    );
    let why = if heuristic {
        "These files have no incoming imports and do not match the filename entry-point heuristic. This does not prove they are unused."
    } else {
        "No import path reaches these files from the analysis entry points. Scripts, tests and dynamically loaded modules can still be intentional."
    };
    let action = if tooling {
        "Check package scripts and the test runner. If these are intentional roots, add them alongside existing roots in oxarch.json entryPoints. Explicit entryPoints replaces automatic detection. Do not delete files based on this list."
    } else {
        "Check runtime loading and framework conventions. Add intentional entry files alongside existing roots in oxarch.json entryPoints; only consider removal after verifying the files are unused."
    };
    let f = finding(
        if tooling {
            "tooling"
        } else {
            "reachability"
        },
        "verify",
        title,
        why,
        action,
        files,
        Vec::new(),
    );
    assert(texts(f.evidence@) =~= Seq::<Seq<char>>::empty());
    f
}

fn push_diagnostics(findings: &mut Vec<Finding>, ds: &Vec<Diagnostic>)
    ensures
        finding_texts(final(findings)@) == finding_texts(old(findings)@) + ds@.map_values(
            |d: Diagnostic| diagnostic_finding(d),
        ),
{
    let ghost start = finding_texts(findings@);
    let mut i: usize = 0;
    while i < ds.len()
        invariant
            i <= ds@.len(),
            finding_texts(findings@) == start + ds@.subrange(0, i as int).map_values(
                |d: Diagnostic| diagnostic_finding(d),
            ),
        decreases ds@.len() - i,
    {
        let f = diagnostic_finding_of(&ds[i]);
        let ghost before = findings@;
        let ghost ft = f.text();
        findings.push(f);
        assert(finding_texts(findings@) =~= finding_texts(before).push(ft));
        i = i + 1;
        assert(finding_texts(findings@) =~= start + ds@.subrange(0, i as int).map_values(
            |d: Diagnostic| diagnostic_finding(d),
        ));
    }
    assert(ds@.subrange(0, ds@.len() as int) =~= ds@);
}

fn push_violations(findings: &mut Vec<Finding>, vs: &Vec<Violation>)
    ensures
        finding_texts(final(findings)@) == finding_texts(old(findings)@) + vs@.map_values(
            |v: Violation| violation_finding(v),
        ),
{
    let ghost start = finding_texts(findings@);
    let mut i: usize = 0;
    while i < vs.len()
        invariant
            i <= vs@.len(),
            finding_texts(findings@) == start + vs@.subrange(0, i as int).map_values(
                |v: Violation| violation_finding(v),
            ),
        decreases vs@.len() - i,
    {
        let f = violation_finding_of(&vs[i]);
        let ghost before = findings@;
        let ghost ft = f.text();
        findings.push(f);
        assert(finding_texts(findings@) =~= finding_texts(before).push(ft));
        i = i + 1;
        assert(finding_texts(findings@) =~= start + vs@.subrange(0, i as int).map_values(
            |v: Violation| violation_finding(v),
        ));
    }
    assert(vs@.subrange(0, vs@.len() as int) =~= vs@);
}

fn push_cycles(findings: &mut Vec<Finding>, cycles: &Vec<Vec<String>>, edges: &Vec<DependencyEdge>)
    ensures
        finding_texts(final(findings)@) == finding_texts(old(findings)@) + cycles@.map_values(
            |c: Vec<String>| cycle_finding(texts(c@), edges@),
        ),
{
    let ghost start = finding_texts(findings@);
    let mut i: usize = 0;
    while i < cycles.len()
        invariant
            i <= cycles@.len(),
            finding_texts(findings@) == start + cycles@.subrange(0, i as int).map_values(
                |c: Vec<String>| cycle_finding(texts(c@), edges@),
            ),
        decreases cycles@.len() - i,
    {
        let f = cycle_finding_of(&cycles[i], edges);
        let ghost before = findings@;
        let ghost ft = f.text();
        findings.push(f);
        assert(finding_texts(findings@) =~= finding_texts(before).push(ft));
        i = i + 1;
        assert(finding_texts(findings@) =~= start + cycles@.subrange(0, i as int).map_values(
            |c: Vec<String>| cycle_finding(texts(c@), edges@),
        ));
    }
    assert(cycles@.subrange(0, cycles@.len() as int) =~= cycles@);
}

fn push_large(findings: &mut Vec<Finding>, large: &Vec<ModuleComplexity>)
    ensures
        finding_texts(final(findings)@) == finding_texts(old(findings)@) + large@.map_values(
            |x: ModuleComplexity| large_finding(x),
        ),
{
    let ghost start = finding_texts(findings@);
    let mut i: usize = 0;
    while i < large.len()
        invariant
            i <= large@.len(),
            finding_texts(findings@) == start + large@.subrange(0, i as int).map_values(
                |x: ModuleComplexity| large_finding(x),
            ),
        decreases large@.len() - i,
    {
        let f = large_finding_of(&large[i]);
        let ghost before = findings@;
        let ghost ft = f.text();
        findings.push(f);
        assert(finding_texts(findings@) =~= finding_texts(before).push(ft));
        i = i + 1;
        assert(finding_texts(findings@) =~= start + large@.subrange(0, i as int).map_values(
            |x: ModuleComplexity| large_finding(x),
        ));
    }
    assert(large@.subrange(0, large@.len() as int) =~= large@);
}

fn push_reach(findings: &mut Vec<Finding>, m: &ArchitectureMetrics)
    ensures
        finding_texts(final(findings)@) == finding_texts(old(findings)@) + reach_findings(*m),
{
    let ghost start = finding_texts(findings@);
    let heuristic = is_text(&m.reachability_mode, "heuristic");
    let plain = split_candidates(&m.dead_candidates, false);
    let tooling = split_candidates(&m.dead_candidates, true);
    if plain.len() > 0 {
        let f = reach_finding_of(false, plain, heuristic);
        findings.push(f);
    }
    assert(finding_texts(findings@) =~= start + (if plain_candidates(*m).len() > 0 {
        seq![reach_finding(false, plain_candidates(*m), is_heuristic(*m))]
    } else {
        Seq::empty()
    }));
    let ghost middle = finding_texts(findings@);
    if tooling.len() > 0 {
        let f = reach_finding_of(true, tooling, heuristic);
        findings.push(f);
    }
    assert(finding_texts(findings@) =~= middle + (if tooling_candidates(*m).len() > 0 {
        seq![reach_finding(true, tooling_candidates(*m), is_heuristic(*m))]
    } else {
        Seq::empty()
    }));
}

fn summary_of(a: &AnalysisReport, violations: &Vec<Violation>, any_findings: bool) -> (s: String)
    ensures
        s@ == summary_text(*a, violations@, any_findings),
{
    if a.source_files == 0 {
        String::from_str("Analysis needs setup: no supported source files were found.")
    } else if a.diagnostics.len() > 0 {
        let mut s = String::from_str("Fix ");
        s.append(number(a.diagnostics.len()).as_str());
        s.append(" analysis issue(s) first. The graph and score may be incomplete.");
        s
    } else if violations.len() > 0 || a.cycles.len() > 0 {
        let mut s = String::from_str("Review ");
        s.append(number(a.cycles.len()).as_str());
        s.append(" cycle group(s) and ");
        s.append(number(violations.len()).as_str());
        s.append(" boundary violation(s), then the maintenance candidates below.");
        s
    } else if any_findings {
        String::from_str(
            "No cycles or configured-boundary violations found. The items below are review candidates, not confirmed defects.",
        )
    } else {
        String::from_str(
            "No findings under the current checks. This does not replace tests or type checking.",
        )
    }
}

fn scope_of(m: &ArchitectureMetrics) -> (s: String)
    ensures
        s@ == scope_text(*m),
{
    if is_text(&m.reachability_mode, "heuristic") {
        String::from_str(
            "Reachability uses filename heuristics. Configure entryPoints for a graph-based check of your actual entry files.",
        )
    } else {
        let mut s = String::from_str("Reachability follows imports from ");
        s.append(number(m.entry_points.len()).as_str());
        s.append(" ");
        s.append(
            if is_text(&m.reachability_mode, "framework") {
                "automatically detected framework"
            } else {
                "configured"
            },
        );
        s.append(" entry point(s). Tests, scripts and runtime-loaded files may need additional roots.");
        s
    }
}

fn boundaries_of(rule_count: usize, violation_count: usize) -> (s: String)
    ensures
        s@ == boundaries_text(rule_count as nat, violation_count as nat),
{
    if rule_count == 0 {
        String::from_str("Boundaries not checked: no rules configured in oxarch.json.")
    } else {
        let mut s = number(rule_count);
        s.append(" boundary rule(s) checked; ");
        s.append(number(violation_count).as_str());
        s.append(" violation(s).");
        s
    }
}

fn score_of(a: &AnalysisReport, m: &ArchitectureMetrics) -> (s: String)
    ensures
        s@ == score_text(*a, *m),
{
    let p = &m.score_penalties;
    let mut s = String::from_str("Score: 100 - ");
    s.append(number(p.cycles).as_str());
    s.append(" for cycle members - ");
    s.append(number(p.unused_candidates).as_str());
    s.append(" for reachability candidates - ");
    s.append(number(p.large_modules).as_str());
    s.append(" for large files = ");
    s.append(number(m.health_score as usize).as_str());
    s.append("/100. This is a review signal, not a production-readiness grade.");
    s.append(
        if a.diagnostics.len() == 0 {
            ""
        } else {
            " Analysis is incomplete."
        },
    );
    s
}

/// The guidance for a report: every finding in priority order, with the summary, the
/// reachability scope, the boundary check and the score explained.
pub fn build(
    a: &AnalysisReport,
    m: &ArchitectureMetrics,
    rules: &RulesConfig,
    violations: &Vec<Violation>,
) -> (g: Guidance)
    ensures
        finding_texts(g.findings@) == expected_findings(*a, *m, violations@),
        g.summary@ == summary_text(*a, violations@, expected_findings(*a, *m, violations@).len() > 0),
        g.scope@ == scope_text(*m),
        g.boundaries@ == boundaries_text(rules.boundaries@.len(), violations@.len()),
        g.boundary_rule_count == rules.boundaries@.len(),
        g.score_explanation@ == score_text(*a, *m),
        texts(g.entry_points@) == texts(m.entry_points@),
{
    let mut findings: Vec<Finding> = Vec::new();
    if a.source_files == 0 {
        findings.push(
            finding(
                "empty",
                "fix first",
                String::from_str("No supported source files found"),
                "There is no source graph to evaluate.",
                "Check the analysis directory and ignore rules. Oxarch scans JavaScript, TypeScript and Vue, not Rust or other backend languages.",
                Vec::new(),
                Vec::new(),
            ),
        );
        assert(texts(findings@[0].files@) =~= Seq::<Seq<char>>::empty());
        assert(texts(findings@[0].evidence@) =~= Seq::<Seq<char>>::empty());
    }
    let ghost setup = finding_texts(findings@);
    assert(setup =~= (if a.source_files == 0 {
        seq![empty_finding()]
    } else {
        Seq::empty()
    }));
    push_diagnostics(&mut findings, &a.diagnostics);
    push_violations(&mut findings, violations);
    push_cycles(&mut findings, &a.cycles, &a.edges);
    push_large(&mut findings, &m.large_modules);
    push_reach(&mut findings, m);
    assert(finding_texts(findings@) =~= expected_findings(*a, *m, violations@));
    let summary = summary_of(a, violations, findings.len() > 0);
    Guidance {
        summary,
        scope: scope_of(m),
        boundaries: boundaries_of(rules.boundaries.len(), violations.len()),
        boundary_rule_count: rules.boundaries.len(),
        score_explanation: score_of(a, m),
        findings,
        entry_points: copy_all(&m.entry_points),
    }
}

// ---------------------------------------------------------------- rendering

/// The number of findings, files and evidence lines shown without details.
pub open spec fn brief_findings() -> nat {
    5
}

/// `items` shown: all with details, else the first `limit`.
pub open spec fn shown(items: Seq<Seq<char>>, details: bool, limit: nat) -> Seq<Seq<char>> {
    if details || items.len() <= limit {
        items
    } else {
        items.subrange(0, limit as int)
    }
}

/// Each item after a prefix.
pub open spec fn prefixed_all(prefix: Seq<char>, items: Seq<Seq<char>>) -> Seq<Seq<char>> {
    items.map_values(|x: Seq<char>| prefix + x)
}

/// The note on hidden items, when some are hidden.
pub open spec fn more_note(items: Seq<Seq<char>>, details: bool, what: Seq<char>) -> Seq<Seq<char>> {
    if !details && items.len() > 4 {
        seq!["   ... "@ + decimal((items.len() - 4) as nat) + what]
    } else {
        Seq::empty()
    }
}

/// The lines of the finding numbered `index + 1`.
pub open spec fn finding_lines(index: nat, f: FindingText, details: bool) -> Seq<Seq<char>> {
    seq![""@, decimal(index + 1) + ". ["@ + f.priority + "] "@ + f.title, "   Why: "@ + f.why]
        + prefixed_all("   File: "@, shown(f.files, details, 4)) + more_note(
        f.files,
        details,
        " more files; use --details to see all."@,
    ) + prefixed_all("   Evidence: "@, shown(f.evidence, details, 4)) + more_note(
        f.evidence,
        details,
        " more evidence items; use --details to see all."@,
    ) + seq!["   Next: "@ + f.action]
}

/// The lines of a list of findings, numbered from one.
pub open spec fn findings_lines(fs: Seq<FindingText>, details: bool) -> Seq<Seq<char>>
    decreases fs.len(),
{
    if fs.len() == 0 {
        Seq::empty()
    } else {
        findings_lines(fs.drop_last(), details) + finding_lines(
            (fs.len() - 1) as nat,
            fs.last(),
            details,
        )
    }
}

/// The findings that the text lists: all with details, else the first five.
pub open spec fn listed_findings(fs: Seq<FindingText>, details: bool) -> Seq<FindingText> {
    if details || fs.len() <= brief_findings() {
        fs
    } else {
        fs.subrange(0, brief_findings() as int)
    }
}

/// Without details the text lists the first five findings, and of each finding the
/// first four files and the first four evidence items, with a note that counts the ones
/// left out; with details it lists everything and adds no such note.
pub proof fn lemma_render_limits(fs: Seq<FindingText>, items: Seq<Seq<char>>, what: Seq<char>)
    ensures
        listed_findings(fs, true) == fs,
        listed_findings(fs, false) == fs.take(if fs.len() < 5 { fs.len() as int } else { 5 }),
        shown(items, true, 4) == items,
        more_note(items, true, what).len() == 0,
        shown(items, false, 4) == items.take(if items.len() < 4 { items.len() as int } else { 4 }),
        items.len() <= 4 ==> more_note(items, false, what).len() == 0,
        items.len() > 4 ==> more_note(items, false, what) == seq!["   ... "@ + decimal((items.len() - 4) as nat) + what],
{
    assert(fs.take(fs.len() as int) =~= fs);
    assert(items.take(items.len() as int) =~= items);
}

/// The lines printed for guidance: the summary block, the entry points (with details),
/// the findings (the first five without details) and a note on hidden findings.
pub open spec fn guidance_lines(g: Guidance, details: bool) -> Seq<Seq<char>> {
    let fs = finding_texts(g.findings@);
    let listed = listed_findings(fs, details);
    seq![""@, g.summary@, g.scope@, g.boundaries@, g.score_explanation@] + (if details
        && g.entry_points@.len() > 0 {
        seq!["Entry points used:"@] + prefixed_all("  "@, texts(g.entry_points@))
    } else {
        Seq::empty()
    }) + findings_lines(listed, details) + (if !details && fs.len() > brief_findings() {
        seq![
            ""@,
            "Showing 5 of "@ + decimal(fs.len())
                + " findings. Use --details for all findings or --json for structured output."@,
        ]
    } else {
        Seq::empty()
    })
}

/// Appends the first `count` items, each after `prefix`.
fn append_prefixed(lines: &mut Vec<String>, prefix: &str, items: &Vec<String>, count: usize)
    requires
        count <= items@.len(),
    ensures
        texts(final(lines)@) == texts(old(lines)@) + prefixed_all(
            prefix@,
            texts(items@).subrange(0, count as int),
        ),
{
    let ghost start = texts(lines@);
    let mut i: usize = 0;
    while i < count
        invariant
            i <= count <= items@.len(),
            texts(lines@) == start + prefixed_all(prefix@, texts(items@).subrange(0, i as int)),
        decreases count - i,
    {
        let mut line = String::from_str(prefix);
        line.append(items[i].as_str());
        let ghost before = lines@;
        lines.push(line);
        assert(texts(lines@) =~= texts(before).push(prefix@ + items@[i as int]@));
        i = i + 1;
        assert(texts(lines@) =~= start + prefixed_all(prefix@, texts(items@).subrange(0, i as int)));
    }
}

/// Appends the note on hidden items, when some are hidden.
fn append_more(lines: &mut Vec<String>, items: &Vec<String>, details: bool, what: &str)
    ensures
        texts(final(lines)@) == texts(old(lines)@) + more_note(texts(items@), details, what@),
{
    let count = items.len();
    if !details && count > 4 {
        let mut line = String::from_str("   ... ");
        line.append(number(count - 4).as_str());
        line.append(what);
        lines.push(line);
    }
    assert(texts(lines@) =~= texts(old(lines)@) + more_note(texts(items@), details, what@));
}

fn render_finding(lines: &mut Vec<String>, index: usize, f: &Finding, details: bool)
    requires
        index < usize::MAX,
    ensures
        texts(final(lines)@) == texts(old(lines)@) + finding_lines(index as nat, f.text(), details),
{
    let ghost start = texts(lines@);
    lines.push(String::from_str(""));
    let mut head = number(index + 1);
    head.append(". [");
    head.append(f.priority.as_str());
    head.append("] ");
    head.append(f.title.as_str());
    lines.push(head);
    let mut why = String::from_str("   Why: ");
    why.append(f.why.as_str());
    lines.push(why);
    assert(texts(lines@) =~= start + seq![""@, decimal((index + 1) as nat) + ". ["@ + f.priority@ + "] "@ + f.title@, "   Why: "@ + f.why@]);
    let files = if details || f.files.len() <= 4 {
        f.files.len()
    } else {
        4
    };
    let ghost s1 = texts(lines@);
    append_prefixed(lines, "   File: ", &f.files, files);
    assert(texts(f.files@).subrange(0, files as int) =~= shown(texts(f.files@), details, 4));
    let ghost s2 = texts(lines@);
    append_more(lines, &f.files, details, " more files; use --details to see all.");
    let ghost s3 = texts(lines@);
    let evidence = if details || f.evidence.len() <= 4 {
        f.evidence.len()
    } else {
        4
    };
    append_prefixed(lines, "   Evidence: ", &f.evidence, evidence);
    assert(texts(f.evidence@).subrange(0, evidence as int) =~= shown(texts(f.evidence@), details, 4));
    let ghost s4 = texts(lines@);
    append_more(lines, &f.evidence, details, " more evidence items; use --details to see all.");
    let ghost s5 = texts(lines@);
    let mut next = String::from_str("   Next: ");
    next.append(f.action.as_str());
    lines.push(next);
    let ghost ft = f.text();
    assert(s2 == s1 + prefixed_all("   File: "@, shown(ft.files, details, 4)));
    assert(s4 == s3 + prefixed_all("   Evidence: "@, shown(ft.evidence, details, 4)));
    assert(texts(lines@) =~= s5.push("   Next: "@ + ft.action));
    assert(texts(lines@) =~= start + finding_lines(index as nat, ft, details));
}

/// The lines to print for the guidance, one string per line.
pub fn render(g: &Guidance, details: bool) -> (lines: Vec<String>)
    ensures
        texts(lines@) == guidance_lines(*g, details),
{
    let mut lines: Vec<String> = Vec::new();
    lines.push(String::from_str(""));
    lines.push(g.summary.clone());
    lines.push(g.scope.clone());
    lines.push(g.boundaries.clone());
    lines.push(g.score_explanation.clone());
    let ghost head = texts(lines@);
    assert(head =~= seq![""@, g.summary@, g.scope@, g.boundaries@, g.score_explanation@]);
    if details && g.entry_points.len() > 0 {
        lines.push(String::from_str("Entry points used:"));
        append_prefixed(&mut lines, "  ", &g.entry_points, g.entry_points.len());
        assert(texts(g.entry_points@).subrange(0, g.entry_points@.len() as int) =~= texts(g.entry_points@));
    }
    let ghost fs = finding_texts(g.findings@);
    let limit = if details || g.findings.len() <= 5 {
        g.findings.len()
    } else {
        5
    };
    let ghost before = texts(lines@);
    assert(before =~= head + (if details && g.entry_points@.len() > 0 {
        seq!["Entry points used:"@] + prefixed_all("  "@, texts(g.entry_points@))
    } else {
        Seq::empty()
    }));
    let mut i: usize = 0;
    while i < limit
        invariant
            i <= limit <= g.findings@.len(),
            fs == finding_texts(g.findings@),
            texts(lines@) == before + findings_lines(fs.subrange(0, i as int), details),
        decreases limit - i,
    {
        proof {
            let next = fs.subrange(0, i + 1);
            assert(next.drop_last() =~= fs.subrange(0, i as int));
            assert(next.last() == g.findings@[i as int].text());
        }
        render_finding(&mut lines, i, &g.findings[i], details);
        i = i + 1;
    }
    assert(fs.subrange(0, limit as int) == (if details || fs.len() <= brief_findings() {
        fs
    } else {
        fs.subrange(0, brief_findings() as int)
    }));
    if !details && g.findings.len() > 5 {
        lines.push(String::from_str(""));
        let mut note = String::from_str("Showing 5 of ");
        note.append(number(g.findings.len()).as_str());
        note.append(" findings. Use --details for all findings or --json for structured output.");
        lines.push(note);
    }
    assert(texts(lines@) =~= guidance_lines(*g, details));
    lines
}

} // verus!
