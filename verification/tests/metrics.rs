use oxarch::metrics::{calculate, counts_distinct, is_entrypoint, MetricsError};
use oxarch::report::{AnalysisReport, DependencyEdge};
use oxarch::rules::RulesConfig;

fn edge(a: &str, b: &str) -> DependencyEdge {
    DependencyEdge { from: a.into(), to: b.into() }
}

#[test]
fn identifies_orphans_and_hubs() {
    let mut nodes = vec!["hub.ts".to_string(), "orphan.ts".to_string()];
    let mut edges = Vec::new();
    for index in 0..5 {
        let leaf = format!("leaf{index}.ts");
        nodes.push(leaf.clone());
        edges.push(DependencyEdge {
            from: leaf,
            to: "hub.ts".into(),
        });
    }
    let report = AnalysisReport {
        files_scanned: nodes.len(),
        source_files: nodes.len(),
        dependencies: edges.len(),
        cycles: vec![],
        nodes,
        edges,
        lines: Vec::new(),
        ..AnalysisReport::default()
    };
    let metrics = calculate(&report, &RulesConfig::default()).unwrap();
    assert_eq!(metrics.orphan_modules, vec!["orphan.ts"]);
    assert_eq!(metrics.hubs[0].module, "hub.ts");
    assert_eq!(metrics.hubs[0].fan_in, 5);
}

#[test]
fn missing_entry_point_is_an_error() {
    let report = AnalysisReport {
        nodes: vec!["src/main.ts".into()],
        source_files: 1,
        files_scanned: 1,
        ..AnalysisReport::default()
    };
    let config = RulesConfig { boundaries: vec![], entry_points: vec!["./src/gone.ts".into()] };
    match calculate(&report, &config) {
        Err(MetricsError::MissingEntryPoint(e)) => {
            assert_eq!(e, "src/gone.ts");
            assert_eq!(
                MetricsError::MissingEntryPoint(e).message(),
                "entry point 'src/gone.ts' is missing, ignored, or not a supported source file"
            );
        }
        _ => panic!("expected a missing entry point"),
    }
}

#[test]
fn explicit_entry_points_follow_imports() {
    let report = AnalysisReport {
        nodes: vec!["src/a.ts".into(), "src/b.ts".into(), "src/c.ts".into(), "src/d.ts".into()],
        edges: vec![edge("src/a.ts", "src/b.ts"), edge("src/b.ts", "src/c.ts"), edge("src/d.ts", "src/a.ts")],
        source_files: 4,
        files_scanned: 4,
        dependencies: 3,
        ..AnalysisReport::default()
    };
    let config = RulesConfig {
        boundaries: vec![],
        entry_points: vec!["./src/a.ts".into(), "src/a.ts".into()],
    };
    let m = calculate(&report, &config).unwrap();
    assert_eq!(m.entry_points, vec!["src/a.ts"]);
    assert_eq!(m.reachability_mode, "explicit");
    assert_eq!(m.dead_candidates, vec!["src/d.ts"]);
    assert_eq!(m.health_score, 99);
}

#[test]
fn health_score_subtracts_capped_penalties() {
    let mut nodes = Vec::new();
    let mut lines = Vec::new();
    for i in 0..12 {
        nodes.push(format!("m{i:02}.ts"));
        lines.push((format!("m{i:02}.ts"), 300 + i));
    }
    let cycle: Vec<String> = nodes.iter().take(10).cloned().collect();
    let report = AnalysisReport {
        files_scanned: 12,
        source_files: 12,
        nodes: nodes.clone(),
        cycles: vec![cycle],
        lines,
        ..AnalysisReport::default()
    };
    let m = calculate(&report, &RulesConfig::default()).unwrap();
    // 10 cycle members: 45 (capped); 12 candidates: 12; 12 large files: 12.
    assert_eq!(m.score_penalties.cycles, 45);
    assert_eq!(m.score_penalties.unused_candidates, 12);
    assert_eq!(m.score_penalties.large_modules, 12);
    assert_eq!(m.health_score, 31);
    assert_eq!(m.large_modules[0].module, "m11.ts");
    assert_eq!(m.large_modules[0].lines, 311);
    assert_eq!(m.reachability_mode, "heuristic");
}

#[test]
fn heuristic_entry_names() {
    assert!(is_entrypoint("src/main.tsx"));
    assert!(is_entrypoint("index.js"));
    assert!(is_entrypoint("web/App.vue"));
    assert!(is_entrypoint("app.ts"));
    assert!(!is_entrypoint("src/domain.ts"));
    assert!(!is_entrypoint("main/util.ts"));
}

#[test]
fn line_counts_must_name_each_module_once() {
    let mut report = AnalysisReport {
        lines: vec![("a.ts".into(), 1), ("b.ts".into(), 2)],
        ..AnalysisReport::default()
    };
    assert!(counts_distinct(&report));
    report.lines.push(("a.ts".into(), 3));
    assert!(!counts_distinct(&report));
}

#[test]
fn declaration_files_are_never_unused_candidates() {
    let report = AnalysisReport {
        nodes: vec!["src/main.ts".into(), "src/global.d.ts".into(), "src/lonely.ts".into()],
        files_scanned: 3,
        source_files: 3,
        ..AnalysisReport::default()
    };
    let m = calculate(&report, &RulesConfig::default()).unwrap();
    assert_eq!(m.dead_candidates, vec!["src/lonely.ts"]);
    let config = RulesConfig { boundaries: vec![], entry_points: vec!["src/main.ts".into()] };
    let m = calculate(&report, &config).unwrap();
    assert_eq!(m.dead_candidates, vec!["src/lonely.ts"]);
}
