use oxarch::advice::{build, is_tooling, render};
use oxarch::metrics::{calculate, ArchitectureMetrics, ModuleComplexity, ScorePenalties};
use oxarch::report::{AnalysisReport, DependencyEdge, Diagnostic};
use oxarch::rules::{BoundaryRule, RulesConfig, Violation};

fn metrics(dead: &[&str], mode: &str, entries: &[&str]) -> ArchitectureMetrics {
    ArchitectureMetrics {
        orphan_modules: vec![],
        dead_candidates: dead.iter().map(|s| s.to_string()).collect(),
        hubs: vec![],
        large_modules: vec![],
        health_score: 100,
        entry_points: entries.iter().map(|s| s.to_string()).collect(),
        reachability_mode: mode.into(),
        score_penalties: ScorePenalties { cycles: 0, unused_candidates: 0, large_modules: 0 },
    }
}

#[test]
fn empty_project_needs_setup() {
    let a = AnalysisReport::default();
    let m = metrics(&[], "heuristic", &[]);
    let g = build(&a, &m, &RulesConfig::default(), &vec![]);
    assert_eq!(g.summary, "Analysis needs setup: no supported source files were found.");
    assert_eq!(g.findings.len(), 1);
    assert_eq!(g.findings[0].kind, "empty");
    assert_eq!(g.findings[0].priority, "fix first");
    assert_eq!(g.boundaries, "Boundaries not checked: no rules configured in oxarch.json.");
    assert_eq!(g.boundary_rule_count, 0);
    assert_eq!(
        g.score_explanation,
        "Score: 100 - 0 for cycle members - 0 for reachability candidates - 0 for large files = 100/100. This is a review signal, not a production-readiness grade."
    );
}

#[test]
fn findings_come_in_priority_order() {
    let a = AnalysisReport {
        files_scanned: 3,
        source_files: 3,
        dependencies: 2,
        nodes: vec!["a.ts".into(), "b.ts".into(), "c.ts".into()],
        edges: vec![
            DependencyEdge { from: "a.ts".into(), to: "b.ts".into() },
            DependencyEdge { from: "b.ts".into(), to: "a.ts".into() },
        ],
        cycles: vec![vec!["a.ts".into(), "b.ts".into()]],
        diagnostics: vec![Diagnostic {
            code: "parse_error".into(),
            file: "c.ts".into(),
            line: Some(3),
            column: None,
            message: "unexpected token".into(),
        }],
        ..AnalysisReport::default()
    };
    let mut m = metrics(&["tests/x.test.ts", "c.ts"], "configured", &["a.ts"]);
    m.large_modules = vec![ModuleComplexity { module: "b.ts".into(), lines: 420 }];
    let rules = RulesConfig {
        boundaries: vec![BoundaryRule { from: "a".into(), disallow: "b".into(), message: None }],
        entry_points: vec![],
    };
    let violations = vec![Violation { from: "a.ts".into(), to: "b.ts".into(), message: "a may not depend on b".into() }];
    let g = build(&a, &m, &rules, &violations);
    let kinds: Vec<&str> = g.findings.iter().map(|f| f.kind.as_str()).collect();
    assert_eq!(kinds, vec!["parse_error", "boundary", "cycle", "large_module", "reachability", "tooling"]);
    assert_eq!(g.findings[0].title, "Fix a source parsing error");
    assert_eq!(g.findings[0].evidence, vec!["c.ts:3:1: unexpected token"]);
    assert_eq!(g.findings[1].evidence, vec!["a.ts imports b.ts"]);
    assert_eq!(g.findings[2].title, "Untangle a cycle involving 2 module(s)");
    assert_eq!(g.findings[2].evidence, vec!["a.ts imports b.ts", "b.ts imports a.ts"]);
    assert_eq!(g.findings[3].evidence, vec!["420 lines (threshold: 300)"]);
    assert_eq!(g.findings[4].files, vec!["c.ts"]);
    assert_eq!(g.findings[4].title, "Verify 1 possibly unused module(s)");
    assert_eq!(g.findings[5].title, "Confirm 1 possible test/script entry point(s)");
    assert_eq!(g.summary, "Fix 1 analysis issue(s) first. The graph and score may be incomplete.");
    assert_eq!(
        g.scope,
        "Reachability follows imports from 1 configured entry point(s). Tests, scripts and runtime-loaded files may need additional roots."
    );
    assert_eq!(g.boundaries, "1 boundary rule(s) checked; 1 violation(s).");
    assert!(g.score_explanation.ends_with(" Analysis is incomplete."));
    assert_eq!(g.entry_points, vec!["a.ts"]);
}

#[test]
fn clean_projects_get_the_reassuring_summaries() {
    let a = AnalysisReport {
        files_scanned: 1,
        source_files: 1,
        nodes: vec!["main.ts".into()],
        lines: vec![("main.ts".into(), 1)],
        ..AnalysisReport::default()
    };
    let m = calculate(&a, &RulesConfig::default()).unwrap();
    let g = build(&a, &m, &RulesConfig::default(), &vec![]);
    assert_eq!(g.summary, "No findings under the current checks. This does not replace tests or type checking.");
    assert_eq!(
        g.scope,
        "Reachability uses filename heuristics. Configure entryPoints for a graph-based check of your actual entry files."
    );
    let m = metrics(&["lib/unused.ts"], "heuristic", &[]);
    let g = build(&a, &m, &RulesConfig::default(), &vec![]);
    assert_eq!(
        g.summary,
        "No cycles or configured-boundary violations found. The items below are review candidates, not confirmed defects."
    );
}

#[test]
fn tooling_paths() {
    assert!(is_tooling("scripts/build.ts"));
    assert!(is_tooling("src/__tests__/a.ts"));
    assert!(is_tooling("src/a.test.ts"));
    assert!(is_tooling("src/a.spec.tsx"));
    assert!(is_tooling("test/a.ts"));
    assert!(!is_tooling("src/testing/a.ts"));
    assert!(!is_tooling("src/latest.ts"));
}

#[test]
fn brief_rendering_truncates_long_lists() {
    let a = AnalysisReport { files_scanned: 1, source_files: 1, ..AnalysisReport::default() };
    let dead: Vec<String> = (0..6).map(|i| format!("m{i}.ts")).collect();
    let mut m = metrics(&[], "heuristic", &["main.ts"]);
    m.dead_candidates = dead;
    m.large_modules = (0..6).map(|i| ModuleComplexity { module: format!("big{i}.ts"), lines: 300 }).collect();
    let g = build(&a, &m, &RulesConfig::default(), &vec![]);
    assert_eq!(g.findings.len(), 7);
    let brief = render(&g, false);
    assert_eq!(brief[0], "");
    assert_eq!(brief[1], g.summary);
    assert!(brief.iter().any(|l| l == "Showing 5 of 7 findings. Use --details for all findings or --json for structured output."));
    assert!(!brief.iter().any(|l| l.starts_with("Entry points used:")));
    assert!(!brief.iter().any(|l| l.contains("Verify 6 possibly unused")));
    let full = render(&g, true);
    assert!(full.iter().any(|l| l == "Entry points used:"));
    assert!(full.iter().any(|l| l == "  main.ts"));
    assert!(full.iter().any(|l| l == "6. [review] Review responsibilities in big5.ts"));
    assert!(full.iter().any(|l| l == "   File: m5.ts"));
    assert!(!full.iter().any(|l| l.starts_with("Showing ")));
}

#[test]
fn brief_rendering_hides_extra_files() {
    let a = AnalysisReport { files_scanned: 1, source_files: 1, ..AnalysisReport::default() };
    let m = metrics(&["a.ts", "b.ts", "c.ts", "d.ts", "e.ts", "f.ts"], "heuristic", &[]);
    let g = build(&a, &m, &RulesConfig::default(), &vec![]);
    let brief = render(&g, false);
    assert!(brief.iter().any(|l| l == "   ... 2 more files; use --details to see all."));
    assert_eq!(brief.iter().filter(|l| l.starts_with("   File: ")).count(), 4);
    assert!(brief.iter().any(|l| l == "1. [verify] Verify 6 possibly unused module(s)"));
}
