use oxarch::config::ResolverConfig;
use oxarch::diagnose::unresolved_diagnostics;
use oxarch::workspace::Workspaces;

fn module(name: &str, imports: &[(&str, Option<&str>)]) -> (String, Vec<(String, Option<String>)>) {
    (
        name.to_string(),
        imports.iter().map(|(s, r)| (s.to_string(), r.map(|t| t.to_string()))).collect(),
    )
}

#[test]
fn missing_relative_alias_and_package_imports_are_diagnosed() {
    let config = ResolverConfig {
        base_url: Some("/p".to_string()),
        paths: vec![("@app/*".to_string(), vec!["src/*".to_string()]), ("@exact".to_string(), vec!["x".to_string()])],
        paths_base: Some("/p".to_string()),
    };
    let mut workspaces = Workspaces::new();
    workspaces.insert("@acme/ui".to_string(), "/p/packages/ui".to_string());
    let modules = vec![
        module("main.ts", &[("./gone", None), ("./here", Some("/p/here.ts")), ("react", None), ("./style.css", None)]),
        module("b.ts", &[("@app/missing", None), ("@exact", None), ("@acme/ui/button", None), ("lodash/fp", None)]),
        module("c.ts", &[("./logo.svg?react", None), ("utils/x", None)]),
    ];
    let d = unresolved_diagnostics(&modules, &config, &workspaces);
    let got: Vec<(&str, &str, &str)> = d.iter().map(|x| (x.code.as_str(), x.file.as_str(), x.message.as_str())).collect();
    assert_eq!(
        got,
        vec![
            ("unresolved_import", "main.ts", "cannot resolve import ./gone"),
            ("unresolved_import", "b.ts", "cannot resolve import @app/missing"),
            ("unresolved_import", "b.ts", "cannot resolve import @exact"),
            ("unresolved_import", "b.ts", "cannot resolve import @acme/ui/button"),
        ]
    );
    assert!(d.iter().all(|x| x.line.is_none() && x.column.is_none()));
}

#[test]
fn resolved_and_external_imports_give_no_diagnostics() {
    let config = ResolverConfig { base_url: None, paths: vec![], paths_base: None };
    let modules = vec![module("a.ts", &[("./b", Some("/p/b.ts")), ("vue", None), ("./font.woff2", None)])];
    assert!(unresolved_diagnostics(&modules, &config, &Workspaces::new()).is_empty());
    assert!(unresolved_diagnostics(&vec![], &config, &Workspaces::new()).is_empty());
}
