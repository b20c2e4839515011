use oxarch::framework::{is_declaration, is_manifest, manifest_dependencies, manifest_from_text, Frameworks, PackageManifest};

fn manifest(path: &str, deps: &[&str], main: Option<&str>) -> PackageManifest {
    PackageManifest {
        path: path.into(),
        dependencies: deps.iter().map(|d| d.to_string()).collect(),
        main: main.map(|m| m.to_string()),
    }
}

#[test]
fn next_conventions() {
    let fw = Frameworks::discover(&vec![manifest("/w/package.json", &["next", "react"], None)]);
    assert!(fw.entrypoint("/w/app/page.tsx"));
    assert!(fw.entrypoint("/w/src/app/blog/[slug]/layout.ts"));
    assert!(!fw.entrypoint("/w/app/_private/page.tsx"));
    assert!(!fw.entrypoint("/w/app/helpers.ts"));
    assert!(!fw.entrypoint("/w/app/page.vue"));
    assert!(fw.entrypoint("/w/pages/index.tsx"));
    assert!(!fw.entrypoint("/w/pages/.hidden/x.tsx"));
    assert!(fw.entrypoint("/w/middleware.ts"));
    assert!(fw.entrypoint("/w/src/instrumentation.js"));
    assert!(!fw.entrypoint("/w/lib/middleware.ts"));
    assert!(fw.entrypoint("/w/next.config.mjs"));
    assert!(!fw.entrypoint("/w/app/page.d.ts"));
    assert!(!fw.entrypoint("/elsewhere/app/page.tsx"));
}

#[test]
fn expo_conventions() {
    let fw = Frameworks::discover(&vec![
        manifest("/m/package.json", &["expo", "expo-router"], Some("expo-router/entry")),
        manifest("/m/legacy/package.json", &["expo"], None),
        manifest("/m/custom/package.json", &["expo"], Some("./src/start.js")),
    ]);
    assert!(fw.entrypoint("/m/app/(tabs)/index.tsx"));
    assert!(fw.entrypoint("/m/legacy/App.tsx"));
    assert!(!fw.entrypoint("/m/legacy/app/home.tsx"));
    assert!(fw.entrypoint("/m/custom/src/start.js"));
    assert!(!fw.entrypoint("/m/custom/index.js"));
}

#[test]
fn the_deepest_package_owns_a_file() {
    let fw = Frameworks::discover(&vec![
        manifest("/r/package.json", &["next"], None),
        manifest("/r/apps/mobile/package.json", &["expo"], None),
    ]);
    // Owned by the Expo package, so Next.js conventions do not apply.
    assert!(!fw.entrypoint("/r/apps/mobile/app/page.tsx"));
    assert!(fw.entrypoint("/r/apps/mobile/index.ts"));
    assert!(fw.entrypoint("/r/app/page.tsx"));
}

#[test]
fn generated_next_type_imports() {
    let fw = Frameworks::discover(&vec![manifest("/w/package.json", &["next"], None)]);
    assert!(fw.generated_type_import("/w/next-env.d.ts", "./.next/types/routes.d.ts"));
    assert!(fw.generated_type_import("/w/next-env.d.ts", "./.next/dev/types/a.d.ts"));
    assert!(!fw.generated_type_import("/w/next-env.d.ts", "./.next/types/../x.d.ts"));
    assert!(!fw.generated_type_import("/w/next-env.d.ts", "./.next/types/routes.ts"));
    assert!(!fw.generated_type_import("/w/src/next-env.d.ts", "./.next/types/routes.d.ts"));
    let plain = Frameworks::discover(&vec![manifest("/w/package.json", &["react"], None)]);
    assert!(!plain.generated_type_import("/w/next-env.d.ts", "./.next/types/routes.d.ts"));
}

#[test]
fn declarations_and_manifests() {
    assert!(is_declaration("types/global.d.ts"));
    assert!(is_declaration("a.d.mts"));
    assert!(is_declaration("a.d.cts"));
    assert!(!is_declaration("a.ts"));
    assert!(is_manifest("/w/package.json"));
    assert!(!is_manifest("/w/package.json5"));
}

#[test]
fn dependency_fields_of_a_manifest() {
    let fields = vec![
        ("name".to_string(), vec![]),
        ("dependencies".to_string(), vec!["next".to_string(), "react".to_string()]),
        ("optionalDependencies".to_string(), vec!["fsevents".to_string()]),
        ("peerDependencies".to_string(), vec!["expo".to_string()]),
        ("devDependencies".to_string(), vec!["typescript".to_string()]),
    ];
    assert_eq!(manifest_dependencies(&fields), vec!["next", "react", "expo", "typescript"]);
}

#[test]
fn manifest_text_gives_dependencies_and_main() {
    let text = r#"{"dependencies": {"expo": "1", "next": "1"}, "main": "expo-router/entry", "name": "app", "peerDependencies": {"react": "1"}}"#;
    let m = manifest_from_text("/w/package.json".to_string(), text).expect("valid manifest");
    assert_eq!(m.path, "/w/package.json");
    assert_eq!(m.dependencies, vec!["expo", "next", "react"]);
    assert_eq!(m.main.as_deref(), Some("expo-router/entry"));
}

#[test]
fn manifest_text_that_is_not_json_is_refused() {
    assert!(manifest_from_text("/w/package.json".to_string(), "{ broken").is_none());
    assert!(manifest_from_text("/w/package.json".to_string(), "").is_none());
}

#[test]
fn manifest_text_without_object_fields() {
    let m = manifest_from_text("p/package.json".to_string(), "[1, 2]").expect("valid JSON");
    assert!(m.dependencies.is_empty());
    assert_eq!(m.main, None);
    let m = manifest_from_text("p/package.json".to_string(), r#"{"main": 3, "dependencies": []}"#).expect("valid JSON");
    assert!(m.dependencies.is_empty());
    assert_eq!(m.main, None);
}
