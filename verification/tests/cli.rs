use oxarch::cli::{analysis_lines, check_failures, clean_head, trimmed_output};
use oxarch::report::Diagnostic;
use oxarch::metrics::calculate;
use oxarch::report::AnalysisReport;
use oxarch::rules::RulesConfig;

#[test]
fn check_fails_on_cycles_health_and_violations() {
    let cyclic = AnalysisReport { source_files: 2, cycles: vec![vec!["a.ts".into(), "b.ts".into()]], ..AnalysisReport::default() };
    assert_eq!(check_failures(&cyclic, 0, false, 90, 70, false), vec!["cycles"]);
    assert!(check_failures(&cyclic, 0, true, 90, 70, false).is_empty());
    let plain = AnalysisReport { source_files: 1, ..AnalysisReport::default() };
    assert_eq!(check_failures(&plain, 0, false, 69, 70, false), vec!["health"]);
    assert!(check_failures(&plain, 0, false, 70, 70, false).is_empty());
    assert_eq!(check_failures(&plain, 1, true, 100, 0, false), vec!["boundaries"]);
    assert_eq!(check_failures(&AnalysisReport::default(), 0, false, 100, 70, false), vec!["no_source_files"]);
}

#[test]
fn strict_checks_fail_on_unresolved_imports() {
    let diagnostic = |code: &str| Diagnostic {
        code: code.into(),
        file: "a.ts".into(),
        line: None,
        column: None,
        message: "m".into(),
    };
    let report = AnalysisReport {
        source_files: 1,
        cycles: vec![vec!["a.ts".into()]],
        diagnostics: vec![diagnostic("unresolved_import"), diagnostic("parse_error"), diagnostic("unresolved_config")],
        ..AnalysisReport::default()
    };
    assert_eq!(check_failures(&report, 2, false, 10, 70, false), vec!["configuration", "cycles", "health", "boundaries", "parse_errors"]);
    assert_eq!(
        check_failures(&report, 2, false, 10, 70, true),
        vec!["configuration", "cycles", "health", "boundaries", "parse_errors", "unresolved_imports"]
    );
}

#[test]
fn report_cache_is_keyed_by_a_clean_head() {
    assert_eq!(clean_head(Some(String::new()), Some("abc".into())).as_deref(), Some("abc"));
    assert_eq!(clean_head(Some(" M a.ts".into()), Some("abc".into())), None);
    assert_eq!(clean_head(None, Some("abc".into())), None);
    assert_eq!(clean_head(Some(String::new()), None), None);
    assert_eq!(trimmed_output("  abc123\n"), "abc123");
    assert_eq!(trimmed_output("\n\t "), "");
}

#[test]
fn analysis_summary_lines() {
    let a = AnalysisReport {
        files_scanned: 4,
        source_files: 2,
        dependencies: 2,
        nodes: vec!["a.ts".into(), "b.ts".into()],
        cycles: vec![vec!["a.ts".into(), "b.ts".into()]],
        ..AnalysisReport::default()
    };
    let m = calculate(&a, &RulesConfig::default()).unwrap();
    let lines = analysis_lines("./web", &a, &m);
    assert_eq!(lines[0], "Archlens \u{2014} ./web");
    assert_eq!(lines[1], "Files scanned:          4");
    assert_eq!(lines[4], "Circular dependencies:  1");
    assert_eq!(lines[6], format!("Architecture health:    {}/100", m.health_score));
    assert_eq!(lines[7], "  \u{26a0} a.ts -> b.ts");
    assert_eq!(lines.len(), 8);
}
