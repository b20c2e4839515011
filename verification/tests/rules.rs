use oxarch::report::{AnalysisReport, DependencyEdge};
use oxarch::rules::{evaluate, validate, BoundaryRule, RulesConfig, RulesError};

fn report(edges: Vec<(&str, &str)>) -> AnalysisReport {
    let mut nodes: Vec<String> = Vec::new();
    for (a, b) in &edges {
        for n in [a, b] {
            if !nodes.iter().any(|x| x == n) {
                nodes.push(n.to_string());
            }
        }
    }
    AnalysisReport {
        files_scanned: nodes.len(),
        source_files: nodes.len(),
        dependencies: edges.len(),
        cycles: vec![],
        nodes,
        edges: edges
            .into_iter()
            .map(|(a, b)| DependencyEdge { from: a.into(), to: b.into() })
            .collect(),
        ..AnalysisReport::default()
    }
}

#[test]
fn flags_boundary_violation() {
    let report = AnalysisReport {
        files_scanned: 2,
        source_files: 2,
        dependencies: 1,
        cycles: vec![],
        nodes: vec!["ui/a.ts".into(), "data/b.ts".into()],
        edges: vec![DependencyEdge {
            from: "ui/a.ts".into(),
            to: "data/b.ts".into(),
        }],
        lines: Vec::new(),
        ..AnalysisReport::default()
    };
    let config = RulesConfig {
        boundaries: vec![BoundaryRule {
            from: "ui/".into(),
            disallow: "data/".into(),
            message: None,
        }],
        ..RulesConfig::default()
    };
    assert_eq!(evaluate(&report, &config).len(), 1);
}

#[test]
fn violation_messages_default_and_custom() {
    let r = report(vec![("src/ui/a.ts", "src/data/b.ts"), ("src/ui/a.ts", "src/ui/c.ts")]);
    let config = RulesConfig {
        boundaries: vec![
            BoundaryRule { from: "src/ui/".into(), disallow: "src/data/".into(), message: None },
            BoundaryRule {
                from: "src/".into(),
                disallow: "src/data/".into(),
                message: Some("use the service layer".into()),
            },
        ],
        entry_points: vec![],
    };
    let v = evaluate(&r, &config);
    assert_eq!(v.len(), 2);
    assert_eq!(v[0].message, "src/ui/ may not depend on src/data/");
    assert_eq!(v[1].message, "use the service layer");
    assert_eq!(v[0].from, "src/ui/a.ts");
    assert_eq!(v[0].to, "src/data/b.ts");
}

#[test]
fn rejects_bad_entry_points_and_empty_prefixes() {
    for bad in ["", "/abs.ts", "a\\b.ts", "../up.ts", "src/../x.ts"] {
        let config = RulesConfig { boundaries: vec![], entry_points: vec![bad.into()] };
        match validate(&config) {
            Err(RulesError::InvalidEntryPoint(e)) => assert_eq!(e, bad),
            _ => panic!("entry {bad:?} should be refused"),
        }
    }
    let err = RulesError::InvalidEntryPoint("../x.ts".into());
    assert_eq!(
        err.message(),
        "entryPoints must be project-relative paths using forward slashes: ../x.ts"
    );
    let config = RulesConfig {
        boundaries: vec![BoundaryRule { from: "".into(), disallow: "x/".into(), message: None }],
        entry_points: vec!["./src/main.ts".into(), "src/a..b.ts".into()],
    };
    assert!(matches!(validate(&config), Err(RulesError::EmptyBoundaryPrefix)));
    assert_eq!(RulesError::EmptyBoundaryPrefix.message(), "boundary from/disallow prefixes cannot be empty");
    let ok = RulesConfig { boundaries: vec![], entry_points: vec!["src/main.ts".into()] };
    assert!(validate(&ok).is_ok());
}
