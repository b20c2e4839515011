//! The command line's decisions: the text summary, the failures of `check`, and the
//! report cache's key.
use vstd::prelude::*;
use crate::metrics::ArchitectureMetrics;
use crate::report::{texts, AnalysisReport, Diagnostic};
use crate::server::white;
use crate::text::{chars_equal, chars_of, concat, decimal, decimal_chars, slice, string_of};

verus! {

/// `s` without leading and trailing whitespace.
pub open spec fn trim_white(s: Seq<char>) -> Seq<char>
    decreases s.len(),
{
    if s.len() > 0 && white(s[0]) {
        trim_white(s.drop_first())
    } else if s.len() > 0 && white(s.last()) {
        trim_white(s.drop_last())
    } else {
        s
    }
}

/// A command's output without surrounding whitespace.
pub fn trimmed_output(s: &str) -> (r: String)
    ensures
        r@ == trim_white(s@),
{
    let c = chars_of(s);
    let mut a: usize = 0;
    let mut b: usize = c.len();
    assert(c@.subrange(0, b as int) =~= s@);
    while a < b && crate::cli::is_space(c[a])
        invariant
            a <= b <= c@.len(),
            c@ == s@,
            b == c@.len(),
            trim_white(s@) == trim_white(c@.subrange(a as int, b as int)),
        decreases b - a,
    {
        proof {
            assert(c@.subrange(a as int, b as int).drop_first() =~= c@.subrange(a + 1, b as int));
        }
        a = a + 1;
    }
    while a < b && crate::cli::is_space(c[b - 1])
        invariant
            a <= b <= c@.len(),
            c@ == s@,
            a == b || !white(c@[a as int]),
            trim_white(s@) == trim_white(c@.subrange(a as int, b as int)),
        decreases b - a,
    {
        proof {
            let t = c@.subrange(a as int, b as int);
            assert(t[0] == c@[a as int]);
            assert(t.drop_last() =~= c@.subrange(a as int, b - 1));
        }
        b = b - 1;
    }
    proof {
        let t = c@.subrange(a as int, b as int);
        if t.len() > 0 {
            assert(t[0] == c@[a as int]);
            assert(t.last() == c@[b - 1]);
        }
    }
    string_of(&slice(&c, a, b))
}

fn is_space(c: char) -> (r: bool)
    ensures
        r == white(c),
{
    ('\u{9}' <= c && c <= '\u{d}') || c == ' ' || c == '\u{85}' || c == '\u{a0}' || c == '\u{1680}'
        || ('\u{2000}' <= c && c <= '\u{200a}') || c == '\u{2028}' || c == '\u{2029}' || c
        == '\u{202f}' || c == '\u{205f}' || c == '\u{3000}'
}

/// The commit a report may be cached under: `HEAD`, but only in a clean work tree
/// (`git status --porcelain` printed nothing). Either command may have failed.
pub fn clean_head(status: Option<String>, head: Option<String>) -> (r: Option<String>)
    ensures
        r is Some <==> (status matches Some(s) && s@.len() == 0 && head is Some),
        r matches Some(h) ==> head matches Some(x) && h@ == x@,
{
    match status {
        None => None,
        Some(s) => {
            if s.as_str().is_empty() {
                head
            } else {
                None
            }
        },
    }
}

/// How many diagnostics have this code.
pub open spec fn code_count(ds: Seq<Diagnostic>, code: Seq<char>) -> nat
    decreases ds.len(),
{
    if ds.len() == 0 {
        0
    } else {
        code_count(ds.drop_last(), code) + if ds.last().code@ == code {
            1nat
        } else {
            0nat
        }
    }
}

/// The failure codes of `check`, in this order: `configuration` for an unresolved
/// shared config, `cycles` when cycle groups exist and are not allowed, `health` below the
/// threshold, `boundaries` when a boundary is crossed, `parse_errors` when a file could not
/// be parsed, `unresolved_imports` in strict mode when an import resolves to no file, and
/// `no_source_files` for a project without sources. `check` passes exactly when there is
/// none.
pub open spec fn failure_codes(
    a: AnalysisReport,
    violations: nat,
    allow_cycles: bool,
    health: nat,
    min_health: nat,
    strict: bool,
) -> Seq<Seq<char>> {
    (if code_count(a.diagnostics@, "unresolved_config"@) > 0 { seq!["configuration"@] } else { Seq::empty() })
        + (if !allow_cycles && a.cycles@.len() > 0 { seq!["cycles"@] } else { Seq::empty() })
        + (if health < min_health { seq!["health"@] } else { Seq::empty() })
        + (if violations > 0 { seq!["boundaries"@] } else { Seq::empty() })
        + (if code_count(a.diagnostics@, "parse_error"@) > 0 { seq!["parse_errors"@] } else { Seq::empty() })
        + (if strict && code_count(a.diagnostics@, "unresolved_import"@) > 0 { seq!["unresolved_imports"@] } else { Seq::empty() })
        + (if a.source_files == 0 { seq!["no_source_files"@] } else { Seq::empty() })
}

/// `check` passes exactly when the configuration resolved, cycles are absent or allowed,
/// the health reaches the threshold, no boundary is crossed, every file parsed, in strict
/// mode every import resolved, and there are source files.
pub proof fn lemma_check_passes(a: AnalysisReport, violations: nat, allow_cycles: bool, health: nat, min_health: nat, strict: bool)
    ensures
        failure_codes(a, violations, allow_cycles, health, min_health, strict).len() == 0 <==> (code_count(
            a.diagnostics@,
            "unresolved_config"@,
        ) == 0 && (allow_cycles || a.cycles@.len() == 0) && health >= min_health && violations == 0 && code_count(
            a.diagnostics@,
            "parse_error"@,
        ) == 0 && (!strict || code_count(a.diagnostics@, "unresolved_import"@) == 0) && a.source_files > 0),
{
}

/// Whether some diagnostic has this code.
fn has_code(ds: &Vec<Diagnostic>, code: &str) -> (r: bool)
    ensures
        r == (code_count(ds@, code@) > 0),
{
    let c = chars_of(code);
    let mut i: usize = 0;
    while i < ds.len()
        invariant
            i <= ds@.len(),
            c@ == code@,
            code_count(ds@.subrange(0, i as int), code@) == 0,
        decreases ds@.len() - i,
    {
        proof {
            assert(ds@.subrange(0, i + 1).drop_last() =~= ds@.subrange(0, i as int));
        }
        if chars_equal(&chars_of(ds[i].code.as_str()), &c) {
            proof {
                lemma_code_count_prefix(ds@, code@, i + 1);
            }
            return true;
        }
        i = i + 1;
    }
    assert(ds@.subrange(0, ds@.len() as int) =~= ds@);
    false
}

proof fn lemma_code_count_prefix(ds: Seq<Diagnostic>, code: Seq<char>, n: int)
    requires
        0 <= n <= ds.len(),
    ensures
        code_count(ds.subrange(0, n), code) <= code_count(ds, code),
    decreases ds.len(),
{
    if n < ds.len() {
        assert(ds.drop_last().subrange(0, n) =~= ds.subrange(0, n));
        lemma_code_count_prefix(ds.drop_last(), code, n);
    } else {
        assert(ds.subrange(0, n) =~= ds);
    }
}

/// Adds `code` when `failed`.
fn note_failure(r: &mut Vec<String>, failed: bool, code: &str)
    ensures
        texts(final(r)@) == texts(old(r)@) + if failed { seq![code@] } else { Seq::<Seq<char>>::empty() },
{
    let ghost before = texts(r@);
    if failed {
        r.push(String::from_str(code));
    }
    assert(texts(r@) =~= before + if failed { seq![code@] } else { Seq::<Seq<char>>::empty() });
}

/// The failure codes of `check` (see `failure_codes`).
pub fn check_failures(
    a: &AnalysisReport,
    violations: usize,
    allow_cycles: bool,
    health: u8,
    min_health: u8,
    strict: bool,
) -> (r: Vec<String>)
    ensures
        texts(r@) == failure_codes(*a, violations as nat, allow_cycles, health as nat, min_health as nat, strict),
{
    let mut r: Vec<String> = Vec::new();
    assert(texts(r@) =~= Seq::<Seq<char>>::empty());
    note_failure(&mut r, has_code(&a.diagnostics, "unresolved_config"), "configuration");
    note_failure(&mut r, !allow_cycles && a.cycles.len() > 0, "cycles");
    note_failure(&mut r, health < min_health, "health");
    note_failure(&mut r, violations > 0, "boundaries");
    note_failure(&mut r, has_code(&a.diagnostics, "parse_error"), "parse_errors");
    let unresolved = strict && has_code(&a.diagnostics, "unresolved_import");
    note_failure(&mut r, unresolved, "unresolved_imports");
    note_failure(&mut r, a.source_files == 0, "no_source_files");
    r
}

/// A cycle group written as `a -> b -> c`.
pub open spec fn arrow_joined(names: Seq<Seq<char>>) -> Seq<char>
    decreases names.len(),
{
    if names.len() == 0 {
        Seq::empty()
    } else if names.len() == 1 {
        names[0]
    } else {
        arrow_joined(names.drop_last()) + " -> "@ + names.last()
    }
}

/// The text summary of an analysis.
pub open spec fn summary_lines(path: Seq<char>, a: AnalysisReport, m: ArchitectureMetrics) -> Seq<Seq<char>> {
    seq![
        "Archlens \u{2014} "@ + path,
        "Files scanned:          "@ + decimal(a.files_scanned as nat),
        "Source files:           "@ + decimal(a.source_files as nat),
        "Dependencies:           "@ + decimal(a.dependencies as nat),
        "Circular dependencies:  "@ + decimal(a.cycles@.len()),
        "Orphan modules:         "@ + decimal(m.orphan_modules@.len()),
        "Architecture health:    "@ + decimal(m.health_score as nat) + "/100"@,
    ] + a.cycles@.map_values(|c: Vec<String>| "  \u{26a0} "@ + arrow_joined(texts(c@)))
}

fn labelled(label: &str, n: usize) -> (s: String)
    ensures
        s@ == label@ + decimal(n as nat),
{
    concat(label, string_of(&decimal_chars(n)).as_str())
}

fn arrows(names: &Vec<String>) -> (s: String)
    ensures
        s@ == arrow_joined(texts(names@)),
{
    let mut s = String::new();
    let mut i: usize = 0;
    while i < names.len()
        invariant
            i <= names@.len(),
            s@ == arrow_joined(texts(names@).subrange(0, i as int)),
        decreases names@.len() - i,
    {
        proof {
            assert(texts(names@).subrange(0, i + 1).drop_last() =~= texts(names@).subrange(0, i as int));
        }
        if i > 0 {
            s.append(" -> ");
        }
        s.append(names[i].as_str());
        i = i + 1;
        proof {
            if i == 1 {
                assert(s@ =~= texts(names@).subrange(0, 1)[0]);
            }
        }
    }
    assert(texts(names@).subrange(0, names@.len() as int) =~= texts(names@));
    s
}

/// The lines `analyze` prints.
pub fn analysis_lines(path: &str, a: &AnalysisReport, m: &ArchitectureMetrics) -> (lines: Vec<String>)
    ensures
        texts(lines@) == summary_lines(path@, *a, *m),
{
    let mut lines: Vec<String> = Vec::new();
    lines.push(concat("Archlens \u{2014} ", path));
    lines.push(labelled("Files scanned:          ", a.files_scanned));
    lines.push(labelled("Source files:           ", a.source_files));
    lines.push(labelled("Dependencies:           ", a.dependencies));
    lines.push(labelled("Circular dependencies:  ", a.cycles.len()));
    lines.push(labelled("Orphan modules:         ", m.orphan_modules.len()));
    let mut health = labelled("Architecture health:    ", m.health_score as usize);
    health.append("/100");
    lines.push(health);
    let ghost head = texts(lines@);
    let mut i: usize = 0;
    while i < a.cycles.len()
        invariant
            i <= a.cycles@.len(),
            texts(lines@) == head + a.cycles@.subrange(0, i as int).map_values(
                |c: Vec<String>| "  \u{26a0} "@ + arrow_joined(texts(c@)),
            ),
        decreases a.cycles@.len() - i,
    {
        let line = concat("  \u{26a0} ", arrows(&a.cycles[i]).as_str());
        let ghost before = texts(lines@);
        lines.push(line);
        assert(texts(lines@) =~= before.push("  \u{26a0} "@ + arrow_joined(texts(a.cycles@[i as int]@))));
        i = i + 1;
        assert(texts(lines@) =~= head + a.cycles@.subrange(0, i as int).map_values(
            |c: Vec<String>| "  \u{26a0} "@ + arrow_joined(texts(c@)),
        ));
    }
    assert(a.cycles@.subrange(0, a.cycles@.len() as int) =~= a.cycles@);
    assert(texts(lines@) =~= summary_lines(path@, *a, *m));
    lines
}

/// The text summary of `analyze`: the path, then the number of scanned files, of source
/// files, of dependencies, of cycle groups and of orphan modules, the health out of 100,
/// then one line per cycle group with its members joined by arrows.
pub proof fn lemma_summary_lines_report_counts(path: Seq<char>, a: AnalysisReport, m: ArchitectureMetrics)
    ensures
        summary_lines(path, a, m).len() == 7 + a.cycles@.len(),
        summary_lines(path, a, m)[1] == "Files scanned:          "@ + decimal(a.files_scanned as nat),
        summary_lines(path, a, m)[2] == "Source files:           "@ + decimal(a.source_files as nat),
        summary_lines(path, a, m)[3] == "Dependencies:           "@ + decimal(a.dependencies as nat),
        summary_lines(path, a, m)[4] == "Circular dependencies:  "@ + decimal(a.cycles@.len()),
        summary_lines(path, a, m)[5] == "Orphan modules:         "@ + decimal(m.orphan_modules@.len()),
        summary_lines(path, a, m)[6] == "Architecture health:    "@ + decimal(m.health_score as nat) + "/100"@,
        forall|j: int| 0 <= j < a.cycles@.len() ==> summary_lines(path, a, m)[7 + j] == "  \u{26a0} "@ + arrow_joined(
            texts(#[trigger] a.cycles@[j]@),
        ),
{
}

} // verus!
