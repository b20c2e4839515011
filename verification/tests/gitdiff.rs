use oxarch::gitdiff::{changed_paths, diff_failure, diff_report, lines_of};
use oxarch::report::{AnalysisReport, DependencyEdge, Diagnostic};

fn strings(v: &[&str]) -> Vec<String> {
    v.iter().map(|s| s.to_string()).collect()
}

fn edge(from: &str, to: &str) -> DependencyEdge {
    DependencyEdge { from: from.into(), to: to.into() }
}

#[test]
fn changed_modules_and_affected_dependencies() {
    let report = AnalysisReport {
        nodes: strings(&["src/a.ts", "src/b.ts", "src/c.ts", "src/d.ts"]),
        edges: vec![edge("src/a.ts", "src/b.ts"), edge("src/c.ts", "src/a.ts"), edge("src/c.ts", "src/c.ts")],
        cycles: vec![vec!["src/c.ts".into()]],
        ..AnalysisReport::default()
    };
    let same = AnalysisReport { nodes: report.nodes.clone(), edges: report.edges.iter().map(|e| edge(&e.from, &e.to)).collect(), cycles: report.cycles.clone(), ..AnalysisReport::default() };
    let changed = strings(&["README.md", "src/b.ts", "src/a.ts", "src/gone.ts", "src/b.ts"]);
    let d = diff_report("main", "abc123", &changed, &same, &report);
    assert_eq!(d.base, "main");
    assert_eq!(d.merge_base, "abc123");
    assert_eq!(d.changed_source_files, vec!["src/a.ts", "src/b.ts"]);
    assert_eq!(d.affected_modules, vec!["src/a.ts", "src/b.ts", "src/c.ts"]);
    assert_eq!(d.affected_dependencies, 3);
    assert_eq!(d.cycles_in_current_tree, 1);
    assert!(d.deleted_source_files.is_empty() && d.added_edges.is_empty() && d.removed_edges.is_empty());
    assert!(d.new_cycles.is_empty());
    let none = diff_report("main", "abc123", &vec![], &same, &report);
    assert_eq!(none.next_steps, strings(&["No dependency changes to review."]));
    assert!(none.changed_source_files.is_empty());
    assert!(none.affected_modules.is_empty());
    assert_eq!(none.affected_dependencies, 0);
}

#[test]
fn branch_changes_against_the_merge_base() {
    let previous = AnalysisReport {
        nodes: strings(&["a.ts", "main.ts", "old.ts"]),
        edges: vec![edge("a.ts", "old.ts"), edge("main.ts", "a.ts")],
        ..AnalysisReport::default()
    };
    let current = AnalysisReport {
        nodes: strings(&["a.ts", "dirty.ts", "main.ts", "new.ts"]),
        edges: vec![edge("a.ts", "new.ts"), edge("main.ts", "a.ts"), edge("new.ts", "a.ts")],
        cycles: vec![strings(&["a.ts", "new.ts"])],
        ..AnalysisReport::default()
    };
    let changed = strings(&["a.ts", "old.ts", "new.ts", "a.ts", "dirty.ts"]);
    let d = diff_report("main", "1234", &changed, &previous, &current);
    assert_eq!(d.merge_base, "1234");
    assert_eq!(d.deleted_source_files, strings(&["old.ts"]));
    assert_eq!(d.changed_source_files, strings(&["a.ts", "dirty.ts", "new.ts", "old.ts"]));
    assert_eq!(d.removed_dependencies, strings(&["a.ts -> old.ts"]));
    assert_eq!(d.added_dependencies, strings(&["a.ts -> new.ts", "new.ts -> a.ts"]));
    assert_eq!(d.removed_edges.len(), 1);
    assert_eq!((d.removed_edges[0].from.as_str(), d.removed_edges[0].to.as_str()), ("a.ts", "old.ts"));
    assert_eq!(d.new_cycles, vec![strings(&["a.ts", "new.ts"])]);
    assert_eq!(d.affected_modules, strings(&["a.ts", "dirty.ts", "main.ts", "new.ts", "old.ts"]));
    assert_eq!(d.affected_dependencies, 4);
    assert_eq!(d.cycles_in_current_tree, 1);
    assert!(d.analysis_complete);
    assert!(d.diagnostics.is_empty() && d.base_diagnostics.is_empty());
    assert_eq!(
        d.next_steps,
        strings(&[
            "Untangle 1 new cycle group(s) before merging.",
            "Review 2 added and 1 removed import(s).",
            "Test the 5 affected module(s).",
        ])
    );
}

#[test]
fn diagnostics_of_both_snapshots_are_reported() {
    let previous = AnalysisReport {
        nodes: strings(&["a.ts"]),
        diagnostics: vec![Diagnostic {
            code: "unresolved_import".into(),
            file: "a.ts".into(),
            line: None,
            column: None,
            message: "cannot resolve import ./gone".into(),
        }],
        ..AnalysisReport::default()
    };
    let current = AnalysisReport { nodes: strings(&["a.ts"]), ..AnalysisReport::default() };
    let d = diff_report("main", "b", &vec![], &previous, &current);
    assert!(!d.analysis_complete);
    assert!(d.diagnostics.is_empty());
    assert_eq!(d.base_diagnostics.len(), 1);
    assert_eq!(d.base_diagnostics[0].message, "cannot resolve import ./gone");
}

#[test]
fn edge_changes_alone_seed_the_impact() {
    let previous = AnalysisReport {
        nodes: strings(&["app.ts", "lib.ts", "page.ts", "x.ts"]),
        edges: vec![edge("page.ts", "app.ts")],
        ..AnalysisReport::default()
    };
    let current = AnalysisReport {
        nodes: strings(&["app.ts", "lib.ts", "page.ts", "x.ts"]),
        edges: vec![edge("app.ts", "lib.ts"), edge("page.ts", "app.ts")],
        ..AnalysisReport::default()
    };
    let d = diff_report("main", "b", &vec![], &previous, &current);
    assert!(d.changed_source_files.is_empty());
    assert_eq!(d.added_dependencies, strings(&["app.ts -> lib.ts"]));
    assert_eq!(d.affected_modules, strings(&["app.ts", "page.ts"]));
    assert_eq!(d.affected_dependencies, 2);
}

#[test]
fn committed_dirty_untracked_and_nested_paths_are_merged() {
    let diff_out = "frontend/a.ts\nfrontend/old.ts\nbackend/x.rs\n";
    let status_out = " M frontend/a.ts\n?? frontend/new.ts\nR  frontend/p.ts -> frontend/q.ts\n?? other.ts\n";
    let paths = changed_paths(diff_out, status_out, "frontend/");
    assert_eq!(paths, strings(&["a.ts", "old.ts", "a.ts", "new.ts", "q.ts"]));
    let report = AnalysisReport {
        nodes: strings(&["a.ts", "new.ts", "q.ts", "z.ts"]),
        ..AnalysisReport::default()
    };
    let base = AnalysisReport { nodes: strings(&["a.ts", "old.ts"]), ..AnalysisReport::default() };
    let d = diff_report("main", "b", &paths, &base, &report);
    assert_eq!(d.changed_source_files, strings(&["a.ts", "new.ts", "old.ts", "q.ts"]));
    assert_eq!(d.deleted_source_files, strings(&["old.ts"]));
    assert_eq!(changed_paths("a.ts\n", "", ""), strings(&["a.ts"]));
}

#[test]
fn git_texts() {
    assert_eq!(diff_failure("nope", "fatal: bad revision"), "git diff failed for base 'nope': fatal: bad revision");
    assert_eq!(lines_of("a\r\nb\n\nc\r"), vec!["a", "b", "", "c\r"]);
    assert!(lines_of("").is_empty());
    assert_eq!(lines_of("\n"), vec![""]);
}
