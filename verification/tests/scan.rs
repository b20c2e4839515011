use oxarch::scan::{cache_unchanged, cached_or_parsed, import_targets, line_count, parse_source, sort_paths, source_files, ParsedSource};

fn strings(v: &[&str]) -> Vec<String> {
    v.iter().map(|s| s.to_string()).collect()
}

#[test]
fn paths_sort_component_by_component() {
    let sorted = sort_paths(&strings(&["/p/a-b.ts", "/p/a/b.ts", "/p/a.ts", "/p/B.ts"]));
    assert_eq!(sorted, strings(&["/p/B.ts", "/p/a/b.ts", "/p/a-b.ts", "/p/a.ts"]));
}

#[test]
fn only_source_modules_are_kept() {
    let files = strings(&["/p/z.vue", "/p/readme.md", "/p/a.ts", "/p/styles.css", "/p/lib/x.cjs"]);
    assert_eq!(source_files(&files), strings(&["/p/a.ts", "/p/lib/x.cjs", "/p/z.vue"]));
}

#[test]
fn lines_are_counted_like_str_lines() {
    assert_eq!(line_count(""), 0);
    assert_eq!(line_count("a"), 1);
    assert_eq!(line_count("a\n"), 1);
    assert_eq!(line_count("a\nb"), 2);
    assert_eq!(line_count("\n\n"), 2);
    assert_eq!(line_count("a\r\nb\r\n"), 2);
}

#[test]
fn unchanged_sources_reuse_the_cache() {
    let fresh = parse_source("/p/a.ts", "import './b';\nexport {};\n".into());
    assert_eq!(fresh.lines, 2);
    assert_eq!(fresh.imports, vec!["./b"]);
    let stale = ParsedSource { source: "old".into(), lines: 99, imports: strings(&["./gone"]) };
    let cache = vec![("a.ts".to_string(), fresh), ("b.ts".to_string(), stale)];
    let reused = cached_or_parsed(&cache, "a.ts", "/p/a.ts", "import './b';\nexport {};\n".into());
    assert_eq!(reused.imports, vec!["./b"]);
    let reparsed = cached_or_parsed(&cache, "b.ts", "/p/b.ts", "import './c';".into());
    assert_eq!(reparsed.lines, 1);
    assert_eq!(reparsed.imports, vec!["./c"]);
    let new = cached_or_parsed(&cache, "c.ts", "/p/c.ts", "".into());
    assert_eq!(new.lines, 0);
    assert!(new.imports.is_empty());
}

#[test]
fn cache_is_unchanged_only_for_the_same_sources() {
    let entry = |s: &str| ParsedSource { source: s.into(), lines: 1, imports: vec![] };
    let cache = vec![("a.ts".to_string(), entry("A")), ("b.ts".to_string(), entry("B"))];
    let same = vec![("b.ts".to_string(), entry("B")), ("a.ts".to_string(), entry("A"))];
    assert!(cache_unchanged(&cache, &same));
    let edited = vec![("a.ts".to_string(), entry("A2")), ("b.ts".to_string(), entry("B"))];
    assert!(!cache_unchanged(&cache, &edited));
    let deleted = vec![("a.ts".to_string(), entry("A"))];
    assert!(!cache_unchanged(&cache, &deleted));
}

#[test]
fn resolved_imports_become_module_positions() {
    let files = strings(&["/p/a.ts", "/p/b.ts", "/p/c.ts"]);
    let resolved = vec![
        vec![Some("/p/b.ts".to_string()), None, Some("/p/other.css".to_string()), Some("/p/c.ts".to_string())],
        vec![],
        vec![Some("/p/a.ts".to_string())],
    ];
    assert_eq!(import_targets(&files, &resolved), vec![vec![1, 2], vec![], vec![0]]);
}
