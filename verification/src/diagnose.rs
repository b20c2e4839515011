//! Diagnostics for imports that resolve to no file.
use vstd::prelude::*;
use crate::config::{ConfigText, ResolverConfig};
use crate::paths::{extension, extension_of};
use crate::report::Diagnostic;
use crate::resolve::{alias_suffix, alias_suffix_of, first_index, lemma_first_index, relative_import};
use crate::text::{chars_equal, chars_of, concat, lit, slice};
use crate::workspace::{names_package, opt_view, Workspaces};

verus! {

/// An import without its query suffix (from the first `?` on).
pub open spec fn without_query(spec: Seq<char>) -> Seq<char> {
    match first_index(spec, '?') {
        Some(i) => spec.subrange(0, i),
        None => spec,
    }
}

/// The extensions of common asset files: styles, images, fonts and media.
pub open spec fn asset_extension(e: Seq<char>) -> bool {
    ||| e == "css"@ || e == "scss"@ || e == "sass"@ || e == "less"@
    ||| e == "svg"@ || e == "png"@ || e == "jpg"@ || e == "jpeg"@ || e == "gif"@ || e == "webp"@ || e == "avif"@ || e == "ico"@
    ||| e == "woff"@ || e == "woff2"@ || e == "ttf"@ || e == "otf"@ || e == "eot"@
    ||| e == "mp3"@ || e == "mp4"@ || e == "webm"@ || e == "wav"@
}

/// An import of a common asset file.
pub open spec fn asset_import(spec: Seq<char>) -> bool {
    match extension(without_query(spec)) {
        Some(e) => asset_extension(e),
        None => false,
    }
}

/// A configured `paths` alias matches the import: it equals an exact alias, or starts
/// with the prefix of a wildcard alias.
pub open spec fn configured_alias(paths: Seq<(Seq<char>, Seq<Seq<char>>)>, spec: Seq<char>) -> bool {
    exists|k: int| 0 <= k < paths.len() && ((#[trigger] paths[k]).0 == spec || alias_suffix(paths[k].0, spec) is Some)
}

/// The import names a known internal package or a path inside one.
pub open spec fn internal_package(ws: Map<Seq<char>, Seq<char>>, spec: Seq<char>) -> bool {
    exists|n: Seq<char>| #[trigger] ws.dom().contains(n) && names_package(n, spec)
}

/// An import that, left unresolved, is diagnosed: a relative, configured-alias or
/// internal-package import that does not name a common asset. External package names and
/// bare `baseUrl` imports are not.
pub open spec fn diagnosed(spec: Seq<char>, cfg: ConfigText, ws: Map<Seq<char>, Seq<char>>) -> bool {
    !asset_import(spec) && (relative_import(spec) || configured_alias(cfg.paths, spec) || internal_package(ws, spec))
}

/// The imports of a module as text, each with what it resolved to.
pub open spec fn import_views(imports: Seq<(String, Option<String>)>) -> Seq<(Seq<char>, Option<Seq<char>>)> {
    imports.map_values(|p: (String, Option<String>)| (p.0@, opt_view(p.1)))
}

/// The modules as text, each with its imports.
pub open spec fn module_views(modules: Seq<(String, Vec<(String, Option<String>)>)>) -> Seq<(Seq<char>, Seq<(Seq<char>, Option<Seq<char>>)>)> {
    modules.map_values(|m: (String, Vec<(String, Option<String>)>)| (m.0@, import_views(m.1@)))
}

/// The imports that resolved to nothing and are diagnosed, in order.
pub open spec fn unresolved_specs(
    imports: Seq<(Seq<char>, Option<Seq<char>>)>,
    cfg: ConfigText,
    ws: Map<Seq<char>, Seq<char>>,
) -> Seq<Seq<char>>
    decreases imports.len(),
{
    if imports.len() == 0 {
        Seq::empty()
    } else {
        unresolved_specs(imports.drop_last(), cfg, ws) + if imports.last().1 is None && diagnosed(imports.last().0, cfg, ws) {
            seq![imports.last().0]
        } else {
            Seq::empty()
        }
    }
}

/// Each diagnosed unresolved import with its module, module by module.
pub open spec fn unresolved_pairs(
    modules: Seq<(Seq<char>, Seq<(Seq<char>, Option<Seq<char>>)>)>,
    cfg: ConfigText,
    ws: Map<Seq<char>, Seq<char>>,
) -> Seq<(Seq<char>, Seq<char>)>
    decreases modules.len(),
{
    if modules.len() == 0 {
        Seq::empty()
    } else {
        let m = modules.last();
        unresolved_pairs(modules.drop_last(), cfg, ws) + unresolved_specs(m.1, cfg, ws).map_values(
            |s: Seq<char>| (m.0, s),
        )
    }
}

/// The message of an unresolved import's diagnostic.
pub open spec fn unresolved_message(spec: Seq<char>) -> Seq<char> {
    "cannot resolve import "@ + spec
}

/// `d` is the diagnostic for the unresolved import `p.1` of module `p.0`, which has no
/// position.
pub open spec fn diagnoses(d: Diagnostic, p: (Seq<char>, Seq<char>)) -> bool {
    &&& d.code@ == "unresolved_import"@
    &&& d.file@ == p.0
    &&& d.line is None
    &&& d.column is None
    &&& d.message@ == unresolved_message(p.1)
}

/// The import up to its first `?`.
fn strip_query(s: &Vec<char>) -> (r: Vec<char>)
    ensures
        r@ == without_query(s@),
{
    let mut i: usize = 0;
    while i < s.len() && s[i] != '?'
        invariant
            i <= s@.len(),
            forall|j: int| 0 <= j < i ==> s@[j] != '?',
        decreases s@.len() - i,
    {
        i = i + 1;
    }
    proof {
        lemma_first_index(s@, '?', i as int);
    }
    if i < s.len() {
        slice(s, 0, i)
    } else {
        assert(s@.subrange(0, s@.len() as int) =~= s@);
        slice(s, 0, i)
    }
}

/// Whether the import names a common asset file.
fn is_asset(spec: &Vec<char>) -> (r: bool)
    ensures
        r == asset_import(spec@),
{
    match extension_of(&strip_query(spec)) {
        None => false,
        Some(e) => {
            let words = [
                "css", "scss", "sass", "less", "svg", "png", "jpg", "jpeg", "gif", "webp", "avif", "ico",
                "woff", "woff2", "ttf", "otf", "eot", "mp3", "mp4", "webm", "wav",
            ];
            let mut k: usize = 0;
            while k < 21
                invariant
                    k <= 21,
                    extension(without_query(spec@)) == Some(e@),
                    words@.len() == 21,
                    forall|j: int| 0 <= j < 21 ==> #[trigger] words@[j]@ == seq_words()[j],
                    forall|j: int| 0 <= j < k ==> e@ != seq_words()[j],
                decreases 21 - k,
            {
                if chars_equal(&e, &lit(words[k])) {
                    proof {
                        assert(e@ == seq_words()[k as int]);
                        lemma_asset_words(e@);
                    }
                    return true;
                }
                k = k + 1;
            }
            proof {
                lemma_asset_words(e@);
            }
            false
        },
    }
}

/// The asset extensions, in a list.
spec fn seq_words() -> Seq<Seq<char>> {
    seq!["css"@, "scss"@, "sass"@, "less"@, "svg"@, "png"@, "jpg"@, "jpeg"@, "gif"@, "webp"@, "avif"@, "ico"@,
        "woff"@, "woff2"@, "ttf"@, "otf"@, "eot"@, "mp3"@, "mp4"@, "webm"@, "wav"@]
}

proof fn lemma_asset_words(e: Seq<char>)
    ensures
        asset_extension(e) <==> exists|j: int| 0 <= j < 21 && e == #[trigger] seq_words()[j],
{
    if asset_extension(e) {
        let w = seq_words();
        if e == "css"@ { assert(e == w[0]); }
        else if e == "scss"@ { assert(e == w[1]); }
        else if e == "sass"@ { assert(e == w[2]); }
        else if e == "less"@ { assert(e == w[3]); }
        else if e == "svg"@ { assert(e == w[4]); }
        else if e == "png"@ { assert(e == w[5]); }
        else if e == "jpg"@ { assert(e == w[6]); }
        else if e == "jpeg"@ { assert(e == w[7]); }
        else if e == "gif"@ { assert(e == w[8]); }
        else if e == "webp"@ { assert(e == w[9]); }
        else if e == "avif"@ { assert(e == w[10]); }
        else if e == "ico"@ { assert(e == w[11]); }
        else if e == "woff"@ { assert(e == w[12]); }
        else if e == "woff2"@ { assert(e == w[13]); }
        else if e == "ttf"@ { assert(e == w[14]); }
        else if e == "otf"@ { assert(e == w[15]); }
        else if e == "eot"@ { assert(e == w[16]); }
        else if e == "mp3"@ { assert(e == w[17]); }
        else if e == "mp4"@ { assert(e == w[18]); }
        else if e == "webm"@ { assert(e == w[19]); }
        else { assert(e == w[20]); }
    }
}

/// Whether a configured alias matches the import.
fn alias_configured(paths: &Vec<(String, Vec<String>)>, spec: &Vec<char>, cfg: Ghost<ConfigText>) -> (r: bool)
    requires
        cfg@.paths == crate::config::alias_texts(paths@),
    ensures
        r == configured_alias(cfg@.paths, spec@),
{
    let ghost p = cfg@.paths;
    let mut k: usize = 0;
    while k < paths.len()
        invariant
            k <= paths@.len(),
            p == crate::config::alias_texts(paths@),
            p == cfg@.paths,
            forall|j: int| 0 <= j < k ==> !((#[trigger] p[j]).0 == spec@ || alias_suffix(p[j].0, spec@) is Some),
        decreases paths@.len() - k,
    {
        let alias = chars_of(paths[k].0.as_str());
        assert(p[k as int].0 == alias@);
        if chars_equal(&alias, spec) {
            assert(p[k as int].0 == spec@);
            return true;
        }
        if alias_suffix_of(&alias, spec).is_some() {
            assert(alias_suffix(p[k as int].0, spec@) is Some);
            return true;
        }
        k = k + 1;
    }
    false
}

/// Whether an import that resolved to nothing is diagnosed.
fn is_diagnosed(spec: &String, config: &ResolverConfig, workspaces: &Workspaces) -> (r: bool)
    ensures
        r == diagnosed(spec@, config.text(), workspaces@),
{
    let s = chars_of(spec.as_str());
    if is_asset(&s) {
        return false;
    }
    if s.len() > 0 && s[0] == '.' {
        return true;
    }
    if alias_configured(&config.paths, &s, Ghost(config.text())) {
        return true;
    }
    let r = workspaces.resolve(spec.as_str());
    proof {
        if r is None && internal_package(workspaces@, spec@) {
            let n = choose|n: Seq<char>| #[trigger] workspaces@.dom().contains(n) && names_package(n, spec@);
        }
    }
    r.is_some()
}

/// The diagnostics for the imports that resolved to no file and are diagnosed: for each
/// module (its name with each import and what it resolved to), in order, one diagnostic
/// of code `unresolved_import` per such import, without a position.
pub fn unresolved_diagnostics(
    modules: &Vec<(String, Vec<(String, Option<String>)>)>,
    config: &ResolverConfig,
    workspaces: &Workspaces,
) -> (d: Vec<Diagnostic>)
    ensures
        d@.len() == unresolved_pairs(module_views(modules@), config.text(), workspaces@).len(),
        forall|k: int| 0 <= k < d@.len() ==> diagnoses(#[trigger] d@[k], unresolved_pairs(module_views(modules@), config.text(), workspaces@)[k]),
{
    let ghost mv = module_views(modules@);
    let ghost cfg = config.text();
    let ghost ws = workspaces@;
    let mut d: Vec<Diagnostic> = Vec::new();
    let mut i: usize = 0;
    while i < modules.len()
        invariant
            i <= modules@.len(),
            mv == module_views(modules@),
            cfg == config.text(),
            ws == workspaces@,
            d@.len() == unresolved_pairs(mv.subrange(0, i as int), cfg, ws).len(),
            forall|k: int| 0 <= k < d@.len() ==> diagnoses(#[trigger] d@[k], unresolved_pairs(mv.subrange(0, i as int), cfg, ws)[k]),
        decreases modules@.len() - i,
    {
        let file = &modules[i].0;
        let imports = &modules[i].1;
        let ghost iv = import_views(imports@);
        let ghost head = unresolved_pairs(mv.subrange(0, i as int), cfg, ws);
        assert(mv[i as int] == (file@, iv));
        let mut j: usize = 0;
        while j < imports.len()
            invariant
                j <= imports@.len(),
                iv == import_views(imports@),
                cfg == config.text(),
                ws == workspaces@,
                d@.len() == head.len() + unresolved_specs(iv.subrange(0, j as int), cfg, ws).len(),
                forall|k: int| 0 <= k < d@.len() ==> diagnoses(#[trigger] d@[k], (head + unresolved_specs(iv.subrange(0, j as int), cfg, ws).map_values(|s: Seq<char>| (file@, s)))[k]),
            decreases imports@.len() - j,
        {
            let ghost before = unresolved_specs(iv.subrange(0, j as int), cfg, ws);
            proof {
                assert(iv.subrange(0, j + 1).drop_last() =~= iv.subrange(0, j as int));
                assert(iv.subrange(0, j + 1).last() == (imports@[j as int].0@, opt_view(imports@[j as int].1)));
            }
            let spec = &imports[j].0;
            if imports[j].1.is_none() && is_diagnosed(spec, config, workspaces) {
                let message = concat("cannot resolve import ", spec.as_str());
                let ghost d0 = d@;
                d.push(Diagnostic {
                    code: String::from_str("unresolved_import"),
                    file: file.clone(),
                    line: None,
                    column: None,
                    message,
                });
                proof {
                    let after = unresolved_specs(iv.subrange(0, j + 1), cfg, ws);
                    assert(after =~= before.push(spec@));
                    let whole = head + after.map_values(|s: Seq<char>| (file@, s));
                    let prior = head + before.map_values(|s: Seq<char>| (file@, s));
                    assert(whole =~= prior.push((file@, spec@)));
                    assert forall|k: int| 0 <= k < d@.len() implies diagnoses(#[trigger] d@[k], whole[k]) by {
                        if k < d0.len() {
                            assert(d@[k] == d0[k]);
                        }
                    }
                }
            } else {
                proof {
                    let after = unresolved_specs(iv.subrange(0, j + 1), cfg, ws);
                    assert(after =~= before);
                }
            }
            j = j + 1;
        }
        proof {
            assert(iv.subrange(0, imports@.len() as int) =~= iv);
            assert(mv.subrange(0, i + 1).drop_last() =~= mv.subrange(0, i as int));
            assert(mv.subrange(0, i + 1).last() == (file@, iv));
        }
        i = i + 1;
    }
    assert(mv.subrange(0, modules@.len() as int) =~= mv);
    d
}

} // verus!
