use oxarch::parser::{collect_imports, extract_vue_script, imports, literal_module, select_imports};

#[test]
fn parses_ts_imports_and_reexports() {
    let src = "import x from './x'; export { y } from './y'; export * from './z';";
    let got = imports("app.ts", src);
    assert_eq!(got, vec!["./x", "./y", "./z"]);
}

#[test]
fn parses_vue_script_setup() {
    let src = "<template><div /></template><script setup lang=\"ts\">import x from './x'</script>";
    assert_eq!(imports("App.vue", src), vec!["./x"]);
}

#[test]
fn comments_strings_and_local_exports_are_not_imports() {
    let src = "// import a from './a'\nconst s = \"import b from './b'\";\nexport const c = 1;\nexport { s };\nimport type { T } from './types';";
    assert_eq!(imports("mod.ts", src), vec!["./types"]);
}

#[test]
fn extracts_only_the_first_script_block() {
    let src = "<script>import a from './a'</script><script setup>import b from './b'</script>";
    assert_eq!(extract_vue_script(src).as_deref(), Some("import a from './a'"));
    assert_eq!(extract_vue_script("<template></template>"), None);
    assert_eq!(extract_vue_script("<script lang=\"ts\">unclosed"), None);
    assert_eq!(imports("Widget.vue", src), vec!["./a"]);
}

#[test]
fn vue_file_without_script_is_parsed_whole() {
    assert_eq!(imports("Plain.vue", "import z from './z'"), vec!["./z"]);
}

#[test]
fn only_import_and_re_export_statements_are_selected() {
    let stmts = vec![None, Some("./a".to_string()), Some("./b".to_string()), None, Some("./c".to_string())];
    assert_eq!(select_imports(&stmts), vec!["./a", "./b", "./c"]);
    assert!(select_imports(&vec![None]).is_empty());
}

#[test]
fn literal_dynamic_imports_are_imports() {
    let src = "import a from './a';\nconst b = () => import('./b');\nconst c = import(`./c`);\nimport(name);\nimport(`./${x}`);";
    assert_eq!(imports("lazy.ts", src), vec!["./a", "./b", "./c"]);
    assert_eq!(literal_module("'./x'").as_deref(), Some("./x"));
    assert_eq!(literal_module("\"./x\"").as_deref(), Some("./x"));
    assert_eq!(literal_module("name"), None);
    assert_eq!(literal_module("'a\\'b'"), None);
    assert_eq!(literal_module("'"), None);
}

#[test]
fn bare_require_calls_are_imports() {
    let src = ["// import './c'", "const s = 'import ./s';", "const m = import('./lazy');", "const c = require('./cjs');"].join("\n");
    assert_eq!(imports("a.ts", &src), vec!["./lazy", "./cjs"]);
}

#[test]
fn only_bare_literal_require_calls_count() {
    let src = "const a = require('./a');\nconst b = loader.require('./b');\nconst c = x?.require('./c');\nconst d = require(name);\nconst e = require(`./e`);\n// require('./f')\nconst g = 'require(\"./g\")';";
    assert_eq!(imports("r.js", src), vec!["./a", "./e"]);
}

#[test]
fn parsed_parts_are_combined_in_order() {
    let stmts = vec![Some("./a".to_string()), None];
    let requests = vec!["'./b'".to_string(), "name".to_string()];
    let tokens: Vec<String> = ["x", ".", "require", "(", "'./no'", ")", "require", "(", "\"./c\"", ")", ";"]
        .iter()
        .map(|t| t.to_string())
        .collect();
    assert_eq!(collect_imports(&stmts, &requests, &tokens), vec!["./a", "./b", "./c"]);
    assert!(collect_imports(&vec![], &vec![], &vec![]).is_empty());
}
