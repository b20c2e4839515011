use oxarch::analyzer::build_report;

fn names(v: &[&str]) -> Vec<String> {
    v.iter().map(|s| s.to_string()).collect()
}

#[test]
fn repeated_imports_make_one_edge_and_a_self_import_is_a_cycle() {
    let report = build_report(3, names(&["a.ts"]), vec![7], vec![vec![0, 0]], vec![]);
    assert_eq!(report.dependencies, 1);
    assert_eq!(report.edges.len(), 1);
    assert_eq!(report.edges[0].from, "a.ts");
    assert_eq!(report.edges[0].to, "a.ts");
    assert_eq!(report.cycles, vec![vec!["a.ts".to_string()]]);
    assert_eq!(report.files_scanned, 3);
    assert_eq!(report.source_files, 1);
    assert_eq!(report.lines, vec![("a.ts".to_string(), 7)]);
}

#[test]
fn edges_are_sorted_and_cycles_grouped() {
    // c -> a -> b -> a, d -> c, e isolated
    let nodes = names(&["c.ts", "a.ts", "b.ts", "d.ts", "e.ts"]);
    let targets = vec![vec![1], vec![2], vec![1], vec![0], vec![]];
    let report = build_report(5, nodes, vec![1, 2, 3, 4, 5], targets, vec![]);
    let pairs: Vec<(String, String)> =
        report.edges.iter().map(|e| (e.from.clone(), e.to.clone())).collect();
    assert_eq!(
        pairs,
        vec![
            ("a.ts".to_string(), "b.ts".to_string()),
            ("b.ts".to_string(), "a.ts".to_string()),
            ("c.ts".to_string(), "a.ts".to_string()),
            ("d.ts".to_string(), "c.ts".to_string()),
        ]
    );
    assert_eq!(report.cycles, vec![vec!["a.ts".to_string(), "b.ts".to_string()]]);
    assert_eq!(report.nodes, names(&["c.ts", "a.ts", "b.ts", "d.ts", "e.ts"]));
}

#[test]
fn separate_cycles_are_separate_groups_in_order() {
    let nodes = names(&["x.ts", "y.ts", "p.ts", "q.ts", "r.ts"]);
    // x <-> y ; p -> q -> r -> p
    let targets = vec![vec![1], vec![0], vec![3], vec![4], vec![2]];
    let report = build_report(5, nodes, vec![0; 5], targets, vec![]);
    assert_eq!(
        report.cycles,
        vec![names(&["p.ts", "q.ts", "r.ts"]), names(&["x.ts", "y.ts"])]
    );
    assert_eq!(report.dependencies, 5);
}
