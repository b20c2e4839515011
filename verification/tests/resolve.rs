use oxarch::config::{choose_configs, config_step, nearest_config, extends_base, extends_file, ConfigError, ConfigRead, ConfigStep, ResolverConfig, TsConfigFile};
use oxarch::resolve::{first_found, import_bases, is_skipped, is_source, probe_order, relative};
use oxarch::workspace::{skipped_in_search, Workspaces};

const EXTS: [&str; 7] = ["ts", "tsx", "js", "jsx", "vue", "mjs", "cjs"];

fn found_among(probes: &[String], existing: &[&str]) -> Option<String> {
    let flags: Vec<bool> = probes.iter().map(|p| existing.contains(&p.as_str())).collect();
    first_found(&probes.to_vec(), &flags)
}

#[test]
fn dotted_modules_probe_the_full_name_first() {
    for ext in EXTS {
        let base = format!("/p/module.{ext}");
        let target = format!("/p/module.{ext}.{ext}");
        let probes = probe_order(&base, false);
        assert_eq!(found_among(&probes, &[target.as_str()]), Some(target.clone()));
    }
}

#[test]
fn directories_resolve_to_their_index() {
    let probes = probe_order("/p/feature.module", true);
    assert_eq!(probes.len(), 15);
    assert_eq!(probes[0], "/p/feature.module");
    assert_eq!(probes[1], "/p/feature.module.ts");
    assert_eq!(probes[8], "/p/feature.module/index.ts");
    assert_eq!(
        found_among(&probes, &["/p/feature.module/index.ts"]),
        Some("/p/feature.module/index.ts".to_string())
    );
}

#[test]
fn explicit_files_and_emitted_javascript() {
    let probes = probe_order("/p/user.service.ts", false);
    assert_eq!(found_among(&probes, &["/p/user.service.ts"]), Some("/p/user.service.ts".to_string()));
    let probes = probe_order("/p/user.service.js", false);
    assert_eq!(probes.len(), 15);
    assert_eq!(probes[8], "/p/user.service.ts");
    assert_eq!(found_among(&probes, &["/p/user.service.ts"]), Some("/p/user.service.ts".to_string()));
    assert_eq!(
        found_among(&probes, &["/p/user.service.ts", "/p/user.service.js"]),
        Some("/p/user.service.js".to_string())
    );
}

#[test]
fn a_missing_dotted_module_finds_no_sibling() {
    let probes = probe_order("/p/user.service", false);
    assert!(probes.iter().all(|p| p.starts_with("/p/user.service")));
    assert_eq!(found_among(&probes, &["/p/user.ts"]), None);
}

#[test]
fn sources_relatives_and_skipped_directories() {
    assert!(is_source("src/a.tsx"));
    assert!(is_source("App.vue"));
    assert!(!is_source("styles.css"));
    assert!(!is_source(".ts"));
    assert_eq!(relative("/root/proj", "/root/proj/src/a.ts"), "src/a.ts");
    assert_eq!(relative("/root/proj", "/root/project/a.ts"), "/root/project/a.ts");
    assert_eq!(relative("/root/proj", "/root/proj"), "");
    assert!(is_skipped("node_modules"));
    assert!(is_skipped(".next"));
    assert!(!is_skipped("src"));
    assert!(skipped_in_search("node_modules"));
    assert!(skipped_in_search(".git"));
    assert!(!skipped_in_search("dist"));
}

fn aliases(list: &[(&str, &[&str])]) -> Vec<(String, Vec<String>)> {
    list.iter()
        .map(|(a, ts)| (a.to_string(), ts.iter().map(|t| t.to_string()).collect()))
        .collect()
}

#[test]
fn inherited_aliases_resolve_relative_to_their_config_and_prefer_exact_paths() {
    let chain = vec![
        TsConfigFile {
            path: "/proj/tsconfig.json".into(),
            extends: vec!["./config/tsconfig.base".into()],
            base_url: None,
            paths: None,
        },
        TsConfigFile {
            path: "/proj/config/tsconfig.base.json".into(),
            extends: vec![],
            base_url: None,
            paths: Some(aliases(&[
                ("@app/*", &["../source/*"]),
                ("@app/exact", &["../source/exact"]),
                ("@app/o*", &["../source/fallback"]),
            ])),
        },
    ];
    let config = ResolverConfig::load(&chain);
    assert_eq!(config.paths_base.as_deref(), Some("/proj/config"));
    assert_eq!(config.base_url, None);
    let ws = Workspaces::new();
    let bases = import_bases("/proj", "/proj/main.ts", "@app/exact", &config, &ws);
    assert_eq!(
        bases,
        vec!["/proj/config/../source/exact", "/proj/config/../source/exact"]
    );
    let bases = import_bases("/proj", "/proj/main.ts", "@app/other", &config, &ws);
    assert_eq!(bases, vec!["/proj/config/../source/fallback", "/proj/config/../source/other"]);
}

#[test]
fn relative_imports_only_look_next_to_their_file() {
    let config = ResolverConfig::load(&vec![]);
    let ws = Workspaces::new();
    assert_eq!(import_bases("/r", "/r/src/a.ts", "./b", &config, &ws), vec!["/r/src/./b"]);
    assert_eq!(import_bases("/r", "/r/src/a.ts", "../c", &config, &ws), vec!["/r/src/../c"]);
    assert!(import_bases("/r", "/r/src/a.ts", "react", &config, &ws).is_empty());
}

#[test]
fn base_url_and_workspace_packages() {
    let chain = vec![TsConfigFile {
        path: "/r/tsconfig.json".into(),
        extends: vec![],
        base_url: Some("src".into()),
        paths: Some(aliases(&[("~/*", &["lib/*"])])),
    }];
    let config = ResolverConfig::load(&chain);
    assert_eq!(config.base_url.as_deref(), Some("/r/src"));
    let mut ws = Workspaces::new();
    ws.insert("@acme/ui".into(), "/r/packages/old".into());
    ws.insert("@acme/ui".into(), "/r/packages/ui".into());
    ws.insert("@acme".into(), "/r/packages/acme".into());
    assert_eq!(ws.resolve("@acme/ui").as_deref(), Some("/r/packages/ui/src/index"));
    assert_eq!(ws.resolve("@acme/ui/button").as_deref(), Some("/r/packages/ui/src/button"));
    assert_eq!(ws.resolve("@acme/other").as_deref(), Some("/r/packages/acme/src/other"));
    assert_eq!(ws.resolve("@acmex"), None);
    let bases = import_bases("/r", "/r/src/a.ts", "~/util", &config, &ws);
    assert_eq!(bases, vec!["/r/src/lib/util", "/r/src/~/util"]);
    let bases = import_bases("/r", "/r/src/a.ts", "@acme/ui/button", &config, &ws);
    assert_eq!(bases, vec!["/r/src/@acme/ui/button", "/r/packages/ui/src/button"]);
}

#[test]
fn extends_chain_helpers() {
    assert_eq!(extends_base("/r/tsconfig.json", "./base").as_deref(), Some("/r/./base"));
    assert_eq!(extends_base("/r/tsconfig.json", "@tsconfig/node18"), None);
    assert_eq!(extends_file("/r/./base", false), "/r/./base.json");
    assert_eq!(extends_file("/r/./base.json", true), "/r/./base.json");
}

#[test]
fn nearest_config_wins_along_the_chain() {
    let mut chain = Vec::new();
    for i in 0..10 {
        chain.push(TsConfigFile {
            path: format!("/r/c{i}/tsconfig.json"),
            extends: vec![],
            base_url: if i == 9 { Some("deep".into()) } else { None },
            paths: None,
        });
    }
    assert_eq!(ResolverConfig::load(&chain).base_url.as_deref(), Some("/r/c9/deep"));
    chain[8].base_url = Some("eight".into());
    assert_eq!(ResolverConfig::load(&chain).base_url.as_deref(), Some("/r/c8/eight"));
    chain[0].base_url = Some(".".into());
    assert_eq!(ResolverConfig::load(&chain).base_url.as_deref(), Some("/r/c0/."));
}

fn parsed(extends: &[&str]) -> ConfigRead {
    ConfigRead::Parsed { extends: extends.iter().map(|e| e.to_string()).collect(), base_url: None, paths: None }
}

fn start(path: &str) -> Vec<(String, Vec<String>)> {
    vec![(path.to_string(), Vec::new())]
}

#[test]
fn config_chains_step_and_fail() {
    let mut chain = Vec::new();
    let mut pending = start("/r/tsconfig.json");
    assert!(matches!(config_step(&mut chain, &mut pending, "/r/tsconfig.json", ConfigRead::Missing), ConfigStep::Done));
    assert!(chain.is_empty() && pending.is_empty());
    let mut pending = start("/r/tsconfig.json");
    match config_step(&mut chain, &mut pending, "/r/tsconfig.json", parsed(&["./base"])) {
        ConfigStep::Next(t) => assert_eq!(t, "/r/./base"),
        other => panic!("unexpected {other:?}"),
    }
    assert_eq!(chain.len(), 1);
    assert_eq!(pending, vec![("/r/./base".to_string(), vec!["/r/tsconfig.json".to_string()])]);
    assert!(matches!(config_step(&mut chain, &mut pending, "/r/base.json", parsed(&["@scope/pkg"])), ConfigStep::Done));
    assert_eq!(chain.len(), 2);
    let mut deeper = vec![("/r/./gone".to_string(), vec!["/r/tsconfig.json".to_string()])];
    match config_step(&mut chain, &mut deeper, "/r/gone.json", ConfigRead::Missing) {
        ConfigStep::Fail(e) => assert_eq!(e.message(), "extended TypeScript config does not exist: /r/gone.json"),
        other => panic!("unexpected {other:?}"),
    }
    let mut bad = start("/r/bad.json");
    match config_step(&mut chain, &mut bad, "/r/bad.json", ConfigRead::Malformed) {
        ConfigStep::Fail(ConfigError::Malformed(p)) => assert_eq!(p, "/r/bad.json"),
        other => panic!("unexpected {other:?}"),
    }
    let mut again = vec![("/r/./tsconfig".to_string(), vec!["/r/tsconfig.json".to_string(), "/r/base.json".to_string()])];
    match config_step(&mut chain, &mut again, "/r/tsconfig.json", parsed(&[])) {
        ConfigStep::Fail(ConfigError::Cycle(p)) => assert_eq!(p, "/r/tsconfig.json"),
        other => panic!("unexpected {other:?}"),
    }
    assert_eq!(chain.len(), 2);
    let mut long = Vec::new();
    let mut pending = start("/r/c0.json");
    for i in 0..33 {
        let step = config_step(&mut long, &mut pending, &format!("/r/c{i}.json"), parsed(&["./next"]));
        assert!(matches!(step, ConfigStep::Next(_)));
    }
    assert!(matches!(config_step(&mut long, &mut pending, "/r/c33.json", parsed(&[])), ConfigStep::Fail(ConfigError::TooDeep)));
}

#[test]
fn later_extends_entries_are_read_first_and_applied_over_earlier_ones() {
    let mut chain = Vec::new();
    let mut pending = start("/r/tsconfig.json");
    match config_step(&mut chain, &mut pending, "/r/tsconfig.json", parsed(&["./a", "./b"])) {
        ConfigStep::Next(t) => assert_eq!(t, "/r/./b"),
        other => panic!("unexpected {other:?}"),
    }
    let read = ConfigRead::Parsed { extends: vec![], base_url: Some("from-b".into()), paths: None };
    match config_step(&mut chain, &mut pending, "/r/b.json", read) {
        ConfigStep::Next(t) => assert_eq!(t, "/r/./a"),
        other => panic!("unexpected {other:?}"),
    }
    let read = ConfigRead::Parsed { extends: vec![], base_url: Some("from-a".into()), paths: None };
    assert!(matches!(config_step(&mut chain, &mut pending, "/r/a.json", read), ConfigStep::Done));
    assert_eq!(ResolverConfig::load(&chain).base_url.as_deref(), Some("/r/from-b"));
}

#[test]
fn each_source_uses_its_nearest_config() {
    let found: Vec<String> = ["/r/tsconfig.json", "/r/web/jsconfig.json", "/r/web/tsconfig.json", "/r/docs/jsconfig.json", "/r/tsconfig.json.bak"]
        .iter()
        .map(|s| s.to_string())
        .collect();
    let used = choose_configs(&found);
    assert_eq!(used, vec!["/r/tsconfig.json", "/r/web/tsconfig.json", "/r/docs/jsconfig.json"]);
    assert_eq!(nearest_config(&used, "/r/web/src/a.ts"), Some(1));
    assert_eq!(nearest_config(&used, "/r/docs/x.js"), Some(2));
    assert_eq!(nearest_config(&used, "/r/main.ts"), Some(0));
    assert_eq!(nearest_config(&used, "/r/website/a.ts"), Some(0));
    assert_eq!(nearest_config(&used, "/other/a.ts"), None);
}
