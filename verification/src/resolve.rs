//! Import resolution: the candidate bases of an import and the files probed for each.
use vstd::prelude::*;
use crate::config::{ConfigText, ResolverConfig};
use crate::framework::{relative_to, within};
use crate::metrics::texts_of;
use crate::paths::{extension, extension_of, join_path, parent_path, path_join, path_parent, replace_extension, with_extension};
use crate::report::texts;
use crate::text::{chars_equal, chars_less, chars_of, has_prefix, join, lemma_seq_lt_total, lemma_seq_lt_transitive, lit, seq_lt, slice, starts_with, string_of};
use crate::workspace::{opt_view, resolves_to, Workspaces};

verus! {

// ---------------------------------------------------------------- source files

/// The extensions of source modules, in the order they are probed.
pub open spec fn source_extensions() -> Seq<Seq<char>> {
    seq!["ts"@, "tsx"@, "js"@, "jsx"@, "vue"@, "mjs"@, "cjs"@]
}

/// A source module extension.
pub open spec fn source_extension(e: Seq<char>) -> bool {
    e == "ts"@ || e == "tsx"@ || e == "js"@ || e == "jsx"@ || e == "vue"@ || e == "mjs"@ || e
        == "cjs"@
}

/// A path with a source module extension.
pub open spec fn source_path(p: Seq<char>) -> bool {
    match extension(p) {
        Some(e) => source_extension(e),
        None => false,
    }
}

/// A path with the extension of emitted JavaScript.
pub open spec fn emitted_script(p: Seq<char>) -> bool {
    match extension(p) {
        Some(e) => e == "js"@ || e == "jsx"@ || e == "mjs"@ || e == "cjs"@,
        None => false,
    }
}

/// `path` relative to `root` when it lies inside it, else `path` itself.
pub open spec fn relative_path(root: Seq<char>, path: Seq<char>) -> Seq<char> {
    if within(root, path) {
        relative_to(path, root)
    } else {
        path
    }
}

/// The entry names that the scan skips, with everything under them (generated and
/// vendored directories).
pub open spec fn skipped_name(name: Seq<char>) -> bool {
    ||| name == "node_modules"@
    ||| name == ".git"@
    ||| name == "dist"@
    ||| name == "build"@
    ||| name == ".next"@
    ||| name == ".nuxt"@
    ||| name == "coverage"@
    ||| name == "target"@
}

/// The files probed for an import base, in order: the base itself, the base with each
/// source extension appended, the base with its emitted-JavaScript extension replaced
/// by each source extension, and (for a directory) its index module of each extension.
pub open spec fn probes(base: Seq<char>, is_dir: bool) -> Seq<Seq<char>> {
    seq![base] + source_extensions().map_values(|e: Seq<char>| base + "."@ + e) + (if emitted_script(
        base,
    ) {
        source_extensions().map_values(|e: Seq<char>| with_extension(base, e))
    } else {
        Seq::empty()
    }) + (if is_dir {
        source_extensions().map_values(|e: Seq<char>| path_join(base, "index."@ + e))
    } else {
        Seq::empty()
    })
}

/// `i` is the first position at which a file was found.
pub open spec fn first_found_at(found: Seq<bool>, i: int) -> bool {
    0 <= i < found.len() && found[i] && forall|j: int| 0 <= j < i ==> !found[j]
}

// ---------------------------------------------------------------- aliases

/// An import that starts with `.` is relative to its file.
pub open spec fn relative_import(spec: Seq<char>) -> bool {
    spec.len() > 0 && spec[0] == '.'
}

/// The position of the first `c` in `s`.
pub open spec fn first_index(s: Seq<char>, c: char) -> Option<int>
    decreases s.len(),
{
    if s.len() == 0 {
        None
    } else if s[0] == c {
        Some(0)
    } else {
        match first_index(s.drop_first(), c) {
            Some(i) => Some(i + 1),
            None => None,
        }
    }
}

/// The priority of an alias: exact aliases first (longer first), then wildcards by the
/// position of their `*` (later first).
pub open spec fn alias_key(alias: Seq<char>) -> u128 {
    match first_index(alias, '*') {
        Some(i) => i as u128,
        None => (0x1_0000_0000_0000_0000 + alias.len()) as u128,
    }
}

/// `a` is tried before `b`: higher priority first, then by name, then by position.
pub open spec fn alias_before(keys: Seq<u128>, names: Seq<Seq<char>>, a: usize, b: usize) -> bool {
    ||| keys[a as int] > keys[b as int]
    ||| keys[a as int] == keys[b as int] && seq_lt(names[a as int], names[b as int])
    ||| keys[a as int] == keys[b as int] && names[a as int] == names[b as int] && a < b
}

/// The names of a list of aliases.
pub open spec fn alias_names(p: Seq<(Seq<char>, Seq<Seq<char>>)>) -> Seq<Seq<char>> {
    p.map_values(|e: (Seq<char>, Seq<Seq<char>>)| e.0)
}

/// The priorities of a list of aliases.
pub open spec fn alias_keys(p: Seq<(Seq<char>, Seq<Seq<char>>)>) -> Seq<u128> {
    p.map_values(|e: (Seq<char>, Seq<Seq<char>>)| alias_key(e.0))
}

/// `order` lists every alias once, in the order they are tried.
pub open spec fn alias_sorted(p: Seq<(Seq<char>, Seq<Seq<char>>)>, order: Seq<usize>) -> bool {
    &&& order.len() == p.len()
    &&& forall|k: int| 0 <= k < order.len() ==> #[trigger] order[k] < p.len()
    &&& forall|x: usize| x < p.len() ==> #[trigger] order.contains(x)
    &&& forall|i: int, j: int|
        0 <= i < j < order.len() ==> alias_before(
            alias_keys(p),
            alias_names(p),
            #[trigger] order[i],
            #[trigger] order[j],
        )
}

/// What a wildcard alias (`prefix*`) captures of the import.
pub open spec fn alias_suffix(alias: Seq<char>, spec: Seq<char>) -> Option<Seq<char>> {
    if alias.len() > 0 && alias.last() == '*' && has_prefix(spec, alias.drop_last()) {
        Some(spec.skip(alias.len() - 1))
    } else {
        None
    }
}

/// `t` with every `*` replaced by `s`.
pub open spec fn replace_star(t: Seq<char>, s: Seq<char>) -> Seq<char>
    decreases t.len(),
{
    if t.len() == 0 {
        Seq::empty()
    } else {
        replace_star(t.drop_last(), s) + if t.last() == '*' {
            s
        } else {
            seq![t.last()]
        }
    }
}

/// The directory that alias targets are relative to.
pub open spec fn alias_base(root: Seq<char>, cfg: ConfigText) -> Seq<char> {
    match cfg.base_url {
        Some(b) => path_join(root, b),
        None => match cfg.paths_base {
            Some(p) => path_join(root, p),
            None => root,
        },
    }
}

/// The bases one alias gives for an import: each target, with the captured part in
/// place of its `*`, when the alias applies.
pub open spec fn alias_entry_bases(
    entry: (Seq<char>, Seq<Seq<char>>),
    spec: Seq<char>,
    base: Seq<char>,
) -> Seq<Seq<char>> {
    if alias_suffix(entry.0, spec) is Some || entry.0 == spec {
        entry.1.map_values(
            |t: Seq<char>|
                path_join(
                    base,
                    match alias_suffix(entry.0, spec) {
                        Some(s) => replace_star(t, s),
                        None => t,
                    },
                ),
        )
    } else {
        Seq::empty()
    }
}

/// The bases all aliases give, in the order they are tried.
pub open spec fn ordered_alias_bases(
    p: Seq<(Seq<char>, Seq<Seq<char>>)>,
    order: Seq<usize>,
    spec: Seq<char>,
    base: Seq<char>,
) -> Seq<Seq<char>>
    decreases order.len(),
{
    if order.len() == 0 {
        Seq::empty()
    } else {
        ordered_alias_bases(p, order.drop_last(), spec, base) + alias_entry_bases(
            p[order.last() as int],
            spec,
            base,
        )
    }
}

/// The base tried for a relative import: the import next to its file.
pub open spec fn relative_bases(source: Seq<char>, spec: Seq<char>) -> Seq<Seq<char>> {
    match path_parent(source) {
        Some(d) => seq![path_join(d, spec)],
        None => Seq::empty(),
    }
}

/// The bases tried for a bare import, in order: the alias targets, then the import under
/// `baseUrl`, then the workspace package it names.
pub open spec fn bare_bases(
    root: Seq<char>,
    spec: Seq<char>,
    cfg: ConfigText,
    order: Seq<usize>,
    package: Option<Seq<char>>,
) -> Seq<Seq<char>> {
    ordered_alias_bases(cfg.paths, order, spec, alias_base(root, cfg)) + (match cfg.base_url {
        Some(b) => seq![path_join(path_join(root, b), spec)],
        None => Seq::empty(),
    }) + (match package {
        Some(p) => seq![p],
        None => Seq::empty(),
    })
}

/// `bases` are the bases tried for a bare import.
pub open spec fn bare_bases_are(
    root: Seq<char>,
    spec: Seq<char>,
    cfg: ConfigText,
    ws: Map<Seq<char>, Seq<char>>,
    bases: Seq<Seq<char>>,
) -> bool {
    exists|order: Seq<usize>, package: Option<Seq<char>>|
        #![trigger bare_bases(root, spec, cfg, order, package)]
        alias_sorted(cfg.paths, order) && resolves_to(ws, spec, package) && bases == bare_bases(
            root,
            spec,
            cfg,
            order,
            package,
        )
}

/// Unless the base names emitted JavaScript, every file probed for it extends the base
/// itself: resolution never lands on a sibling file (`./user.service` never finds
/// `./user.ts`).
pub proof fn lemma_probes_extend_base(base: Seq<char>, is_dir: bool)
    requires
        !emitted_script(base),
    ensures
        forall|k: int| 0 <= k < probes(base, is_dir).len() ==> has_prefix(#[trigger] probes(base, is_dir)[k], base),
{
    let es = source_extensions();
    let a = seq![base];
    let b = es.map_values(|e: Seq<char>| base + "."@ + e);
    let d = if is_dir {
        es.map_values(|e: Seq<char>| path_join(base, "index."@ + e))
    } else {
        Seq::empty()
    };
    assert(probes(base, is_dir) =~= a + b + d);
    assert forall|k: int| 0 <= k < probes(base, is_dir).len() implies has_prefix(#[trigger] probes(base, is_dir)[k], base) by {
        let q = probes(base, is_dir)[k];
        if k == 0 {
            assert(q == base);
            assert(q.subrange(0, base.len() as int) =~= base);
        } else if k < 1 + b.len() {
            assert(q == base + "."@ + es[k - 1]);
            assert(q.subrange(0, base.len() as int) =~= base);
        } else {
            let e = es[k - 1 - b.len()];
            assert(q == path_join(base, "index."@ + e));
            reveal_strlit("index.");
            assert(("index."@ + e)[0] == 'i');
            assert(q.subrange(0, base.len() as int) =~= base);
        }
    }
}

proof fn lemma_first_index_bounds(s: Seq<char>, c: char)
    ensures
        first_index(s, c) matches Some(i) ==> 0 <= i < s.len() && s[i] == c,
        first_index(s, c) is None ==> !s.contains(c),
    decreases s.len(),
{
    if s.len() > 0 && s[0] != c {
        lemma_first_index_bounds(s.drop_first(), c);
        if first_index(s, c) is None && s.contains(c) {
            let k = choose|k: int| 0 <= k < s.len() && s[k] == c;
            assert(s.drop_first()[k - 1] == c);
        }
    }
}

/// Aliases without a wildcard are tried before every wildcard alias.
pub proof fn lemma_exact_aliases_first(p: Seq<(Seq<char>, Seq<Seq<char>>)>, order: Seq<usize>, i: int, j: int)
    requires
        alias_sorted(p, order),
        0 <= i < j < order.len(),
        forall|k: int| 0 <= k < p.len() ==> (#[trigger] p[k]).0.len() < 0x1_0000_0000_0000_0000,
    ensures
        !(p[order[i] as int].0.contains('*') && !p[order[j] as int].0.contains('*')),
{
    let a = p[order[i] as int].0;
    let b = p[order[j] as int].0;
    assert(alias_before(alias_keys(p), alias_names(p), order[i], order[j]));
    lemma_first_index_bounds(a, '*');
    lemma_first_index_bounds(b, '*');
    if a.contains('*') && !b.contains('*') {
        assert(alias_keys(p)[order[i] as int] == alias_key(a));
        assert(alias_keys(p)[order[j] as int] == alias_key(b));
        assert(alias_key(a) < 0x1_0000_0000_0000_0000);
        assert(alias_key(b) >= 0x1_0000_0000_0000_0000);
    }
}

// ---------------------------------------------------------------- executable

fn is_word(s: &Vec<char>, w: &str) -> (r: bool)
    ensures
        r == (s@ == w@),
{
    chars_equal(s, &lit(w))
}

/// Whether a path names a source module.
pub fn is_source(path: &str) -> (r: bool)
    ensures
        r == source_path(path@),
{
    match extension_of(&chars_of(path)) {
        Some(e) => is_word(&e, "ts") || is_word(&e, "tsx") || is_word(&e, "js") || is_word(&e, "jsx")
            || is_word(&e, "vue") || is_word(&e, "mjs") || is_word(&e, "cjs"),
        None => false,
    }
}

/// Whether the scan skips an entry of this name.
pub fn is_skipped(name: &str) -> (r: bool)
    ensures
        r == skipped_name(name@),
{
    let n = chars_of(name);
    is_word(&n, "node_modules") || is_word(&n, ".git") || is_word(&n, "dist") || is_word(&n, "build")
        || is_word(&n, ".next") || is_word(&n, ".nuxt") || is_word(&n, "coverage") || is_word(
        &n,
        "target",
    )
}

/// A path as reported: relative to the root when it lies inside it.
pub fn relative(root: &str, path: &str) -> (r: String)
    ensures
        r@ == relative_path(root@, path@),
{
    let d = chars_of(root);
    let f = chars_of(path);
    let inside = d.len() == 0 || chars_equal(&d, &f) || (starts_with(&f, &d) && f.len() > d.len() && (
    d[d.len() - 1] == '/' || f[d.len()] == '/'));
    if !inside {
        return String::from_str(path);
    }
    let rel = if d.len() == 0 {
        crate::text::copy(&f)
    } else if f.len() <= d.len() {
        Vec::new()
    } else if d[d.len() - 1] == '/' {
        slice(&f, d.len(), f.len())
    } else {
        slice(&f, d.len() + 1, f.len())
    };
    string_of(&rel)
}

/// The source extensions, as characters.
fn extension_list() -> (v: Vec<Vec<char>>)
    ensures
        texts_of(v@) == source_extensions(),
{
    let mut v: Vec<Vec<char>> = Vec::new();
    v.push(lit("ts"));
    v.push(lit("tsx"));
    v.push(lit("js"));
    v.push(lit("jsx"));
    v.push(lit("vue"));
    v.push(lit("mjs"));
    v.push(lit("cjs"));
    assert(texts_of(v@) =~= source_extensions());
    v
}

/// The files to probe for an import base, in order.
pub fn probe_order(base: &str, base_is_dir: bool) -> (r: Vec<String>)
    ensures
        texts(r@) == probes(base@, base_is_dir),
{
    let b = chars_of(base);
    let exts = extension_list();
    let ghost es = source_extensions();
    let mut r: Vec<String> = Vec::new();
    r.push(String::from_str(base));
    let mut dotted = crate::text::copy(&b);
    dotted.push('.');
    assert(dotted@ =~= b@ + "."@) by {
        reveal_strlit(".");
    }
    let mut i: usize = 0;
    while i < exts.len()
        invariant
            i <= exts@.len(),
            texts_of(exts@) == es,
            es == source_extensions(),
            dotted@ == base@ + "."@,
            texts(r@) == seq![base@] + es.subrange(0, i as int).map_values(
                |e: Seq<char>| base@ + "."@ + e,
            ),
        decreases exts@.len() - i,
    {
        let ghost before = texts(r@);
        r.push(string_of(&join(&dotted, &exts[i])));
        assert(texts(r@) =~= before.push(base@ + "."@ + es[i as int]));
        i = i + 1;
        assert(texts(r@) =~= seq![base@] + es.subrange(0, i as int).map_values(
            |e: Seq<char>| base@ + "."@ + e,
        ));
    }
    assert(es.subrange(0, 7) =~= es);
    let ghost first = texts(r@);
    let emitted = match extension_of(&b) {
        Some(e) => is_word(&e, "js") || is_word(&e, "jsx") || is_word(&e, "mjs") || is_word(&e, "cjs"),
        None => false,
    };
    if emitted {
        let mut j: usize = 0;
        while j < exts.len()
            invariant
                j <= exts@.len(),
                texts_of(exts@) == es,
                es == source_extensions(),
                b@ == base@,
                texts(r@) == first + es.subrange(0, j as int).map_values(
                    |e: Seq<char>| with_extension(base@, e),
                ),
            decreases exts@.len() - j,
        {
            let ghost before = texts(r@);
            r.push(string_of(&replace_extension(&b, &exts[j])));
            assert(texts(r@) =~= before.push(with_extension(base@, es[j as int])));
            j = j + 1;
            assert(texts(r@) =~= first + es.subrange(0, j as int).map_values(
                |e: Seq<char>| with_extension(base@, e),
            ));
        }
    }
    let ghost second = texts(r@);
    assert(second =~= first + (if emitted_script(base@) {
        es.map_values(|e: Seq<char>| with_extension(base@, e))
    } else {
        Seq::empty()
    }));
    if base_is_dir {
        let index = lit("index.");
        let mut j: usize = 0;
        while j < exts.len()
            invariant
                j <= exts@.len(),
                texts_of(exts@) == es,
                es == source_extensions(),
                b@ == base@,
                index@ == "index."@,
                texts(r@) == second + es.subrange(0, j as int).map_values(
                    |e: Seq<char>| path_join(base@, "index."@ + e),
                ),
            decreases exts@.len() - j,
        {
            let ghost before = texts(r@);
            r.push(string_of(&join_path(&b, &join(&index, &exts[j]))));
            assert(texts(r@) =~= before.push(path_join(base@, "index."@ + es[j as int])));
            j = j + 1;
            assert(texts(r@) =~= second + es.subrange(0, j as int).map_values(
                |e: Seq<char>| path_join(base@, "index."@ + e),
            ));
        }
    }
    assert(texts(r@) =~= probes(base@, base_is_dir));
    r
}

/// The first probed file that was found.
pub fn first_found(paths: &Vec<String>, found: &Vec<bool>) -> (r: Option<String>)
    requires
        paths@.len() == found@.len(),
    ensures
        r is None <==> forall|i: int| 0 <= i < found@.len() ==> !found@[i],
        r matches Some(s) ==> exists|i: int| #[trigger] first_found_at(found@, i) && s@ == paths@[i]@,
{
    let mut i: usize = 0;
    while i < found.len()
        invariant
            i <= found@.len(),
            paths@.len() == found@.len(),
            forall|j: int| 0 <= j < i ==> !found@[j],
        decreases found@.len() - i,
    {
        if found[i] {
            assert(first_found_at(found@, i as int));
            return Some(paths[i].clone());
        }
        i = i + 1;
    }
    None
}

pub(crate) proof fn lemma_first_index(s: Seq<char>, c: char, i: int)
    requires
        0 <= i <= s.len(),
        forall|j: int| 0 <= j < i ==> s[j] != c,
        i < s.len() ==> s[i] == c,
    ensures
        first_index(s, c) == if i < s.len() {
            Some(i)
        } else {
            None::<int>
        },
    decreases i,
{
    if i > 0 {
        let t = s.drop_first();
        assert forall|j: int| 0 <= j < i - 1 implies t[j] != c by {
            assert(t[j] == s[j + 1]);
        }
        if i < s.len() {
            assert(t[i - 1] == s[i]);
        }
        lemma_first_index(t, c, i - 1);
    }
}

/// The priority of an alias.
fn alias_key_of(name: &Vec<char>) -> (k: u128)
    ensures
        k == alias_key(name@),
{
    let mut i: usize = 0;
    while i < name.len()
        invariant
            i <= name@.len(),
            forall|j: int| 0 <= j < i ==> name@[j] != '*',
        decreases name@.len() - i,
    {
        if name[i] == '*' {
            proof {
                lemma_first_index(name@, '*', i as int);
            }
            return i as u128;
        }
        i = i + 1;
    }
    proof {
        lemma_first_index(name@, '*', name@.len() as int);
    }
    0x1_0000_0000_0000_0000u128 + name.len() as u128
}

/// The aliases' positions in the order they are tried.
fn alias_order(keys: &Vec<u128>, names: &Vec<Vec<char>>) -> (perm: Vec<usize>)
    requires
        keys@.len() == names@.len(),
    ensures
        perm@.len() == keys@.len(),
        forall|k: int| 0 <= k < perm@.len() ==> #[trigger] perm@[k] < keys@.len(),
        forall|x: usize| x < keys@.len() ==> #[trigger] perm@.contains(x),
        forall|i: int, j: int|
            0 <= i < j < perm@.len() ==> alias_before(
                keys@,
                texts_of(names@),
                #[trigger] perm@[i],
                #[trigger] perm@[j],
            ),
{
    let ghost tn = texts_of(names@);
    let mut perm: Vec<usize> = Vec::new();
    let mut i: usize = 0;
    while i < keys.len()
        invariant
            i <= keys@.len(),
            keys@.len() == names@.len(),
            tn == texts_of(names@),
            perm@.len() == i,
            forall|k: int| 0 <= k < perm@.len() ==> #[trigger] perm@[k] < i,
            forall|x: usize| x < i ==> #[trigger] perm@.contains(x),
            forall|a: int, b: int| 0 <= a < b < perm@.len() ==> alias_before(keys@, tn, #[trigger] perm@[a], #[trigger] perm@[b]),
        decreases keys@.len() - i,
    {
        let mut p: usize = 0;
        while p < perm.len() && (keys[perm[p]] > keys[i] || (keys[perm[p]] == keys[i] && (chars_less(&names[perm[p]], &names[i]) || chars_equal(&names[perm[p]], &names[i]))))
            invariant
                p <= perm@.len(),
                i < keys@.len(),
                keys@.len() == names@.len(),
                tn == texts_of(names@),
                forall|k: int| 0 <= k < perm@.len() ==> #[trigger] perm@[k] < i,
                forall|k: int| 0 <= k < p ==> alias_before(keys@, tn, #[trigger] perm@[k], i),
            decreases perm@.len() - p,
        {
            p = p + 1;
        }
        let ghost before = perm@;
        proof {
            if p < before.len() {
                let o = before[p as int];
                assert(o < i);
                lemma_seq_lt_total(tn[o as int], tn[i as int]);
                assert(alias_before(keys@, tn, i, o));
            }
        }
        perm.insert(p, i);
        proof {
            assert forall|a: int, b: int| 0 <= a < b < perm@.len() implies alias_before(keys@, tn, #[trigger] perm@[a], #[trigger] perm@[b]) by {
                if b == p {
                    assert(perm@[a] == before[a]);
                } else if a == p {
                    assert(perm@[b] == before[b - 1]);
                    if b - 1 > p {
                        let o = before[p as int];
                        let w = before[b - 1];
                        assert(alias_before(keys@, tn, o, w));
                        assert(alias_before(keys@, tn, i, o));
                        if keys@[i as int] == keys@[o as int] && keys@[o as int] == keys@[w as int] {
                            if tn[o as int] == tn[w as int] {
                                assert(seq_lt(tn[i as int], tn[w as int]));
                            } else {
                                lemma_seq_lt_transitive(tn[i as int], tn[o as int], tn[w as int]);
                            }
                        }
                    }
                } else if a < p && b > p {
                    assert(perm@[b] == before[b - 1]);
                    assert(perm@[a] == before[a]);
                } else if a < p {
                    assert(perm@[b] == before[b]);
                    assert(perm@[a] == before[a]);
                } else {
                    assert(perm@[b] == before[b - 1]);
                    assert(perm@[a] == before[a - 1]);
                }
            }
            assert forall|x: usize| x < i + 1 implies #[trigger] perm@.contains(x) by {
                if x == i {
                    assert(perm@[p as int] == x);
                } else {
                    assert(before.contains(x));
                    let k = choose|k: int| 0 <= k < before.len() && before[k] == x;
                    if k < p {
                        assert(perm@[k] == x);
                    } else {
                        assert(perm@[k + 1] == x);
                    }
                }
            }
        }
        i = i + 1;
    }
    perm
}

/// What a wildcard alias captures of the import.
pub(crate) fn alias_suffix_of(alias: &Vec<char>, spec: &Vec<char>) -> (r: Option<Vec<char>>)
    ensures
        match r {
            Some(v) => alias_suffix(alias@, spec@) == Some(v@),
            None => alias_suffix(alias@, spec@) is None,
        },
{
    if alias.len() > 0 && alias[alias.len() - 1] == '*' {
        let prefix = slice(alias, 0, alias.len() - 1);
        assert(prefix@ =~= alias@.drop_last());
        if starts_with(spec, &prefix) {
            return Some(slice(spec, prefix.len(), spec.len()));
        }
    }
    None
}

/// `t` with every `*` replaced by `s`.
fn replace_star_of(t: &Vec<char>, s: &Vec<char>) -> (r: Vec<char>)
    ensures
        r@ == replace_star(t@, s@),
{
    let mut r: Vec<char> = Vec::new();
    let mut i: usize = 0;
    while i < t.len()
        invariant
            i <= t@.len(),
            r@ == replace_star(t@.subrange(0, i as int), s@),
        decreases t@.len() - i,
    {
        proof {
            assert(t@.subrange(0, i + 1).drop_last() =~= t@.subrange(0, i as int));
        }
        if t[i] == '*' {
            r = join(&r, s);
        } else {
            r.push(t[i]);
        }
        i = i + 1;
        assert(r@ =~= replace_star(t@.subrange(0, i as int), s@));
    }
    assert(t@.subrange(0, t@.len() as int) =~= t@);
    r
}

/// Appends the bases one alias gives for an import.
fn push_alias_bases(
    out: &mut Vec<String>,
    entry: &(String, Vec<String>),
    spec: &Vec<char>,
    base: &Vec<char>,
)
    ensures
        texts(final(out)@) == texts(old(out)@) + alias_entry_bases(
            (entry.0@, texts(entry.1@)),
            spec@,
            base@,
        ),
{
    let ghost e = (entry.0@, texts(entry.1@));
    let name = chars_of(entry.0.as_str());
    let suffix = alias_suffix_of(&name, spec);
    if suffix.is_none() && !chars_equal(&name, spec) {
        assert(alias_entry_bases(e, spec@, base@) =~= Seq::<Seq<char>>::empty());
        assert(texts(out@) =~= texts(old(out)@) + Seq::<Seq<char>>::empty());
        return;
    }
    let ghost start = texts(out@);
    let ghost f = |t: Seq<char>|
        path_join(
            base@,
            match alias_suffix(e.0, spec@) {
                Some(s) => replace_star(t, s),
                None => t,
            },
        );
    let targets = &entry.1;
    let mut i: usize = 0;
    while i < targets.len()
        invariant
            i <= targets@.len(),
            e == (entry.0@, texts(entry.1@)),
            *targets == entry.1,
            name@ == entry.0@,
            match suffix {
                Some(v) => alias_suffix(name@, spec@) == Some(v@),
                None => alias_suffix(name@, spec@) is None,
            },
            f == (|t: Seq<char>|
                path_join(
                    base@,
                    match alias_suffix(e.0, spec@) {
                        Some(s) => replace_star(t, s),
                        None => t,
                    },
                )),
            texts(out@) == start + texts(targets@).subrange(0, i as int).map_values(f),
        decreases targets@.len() - i,
    {
        let t = chars_of(targets[i].as_str());
        let mapped = match &suffix {
            Some(v) => replace_star_of(&t, v),
            None => t,
        };
        let ghost before = texts(out@);
        out.push(string_of(&join_path(base, &mapped)));
        assert(texts(out@) =~= before.push(f(targets@[i as int]@)));
        i = i + 1;
        assert(texts(out@) =~= start + texts(targets@).subrange(0, i as int).map_values(f));
    }
    assert(texts(targets@).subrange(0, targets@.len() as int) =~= texts(targets@));
    assert(alias_entry_bases(e, spec@, base@) =~= texts(targets@).map_values(f));
}

/// The bases to try for an import, in order. For each, the caller probes the files of
/// `probe_order` and takes the first one found.
pub fn import_bases(
    root: &str,
    source: &str,
    spec: &str,
    config: &ResolverConfig,
    workspaces: &Workspaces,
) -> (r: Vec<String>)
    ensures
        relative_import(spec@) ==> texts(r@) == relative_bases(source@, spec@),
        !relative_import(spec@) ==> bare_bases_are(root@, spec@, config.text(), workspaces@, texts(r@)),
{
    let s = chars_of(spec);
    let mut r: Vec<String> = Vec::new();
    if s.len() > 0 && s[0] == '.' {
        match parent_path(&chars_of(source)) {
            Some(d) => r.push(string_of(&join_path(&d, &s))),
            None => {},
        }
        assert(texts(r@) =~= relative_bases(source@, spec@));
        return r;
    }
    let ghost cfg = config.text();
    let mut names: Vec<Vec<char>> = Vec::new();
    let mut keys: Vec<u128> = Vec::new();
    let mut i: usize = 0;
    while i < config.paths.len()
        invariant
            i <= config.paths@.len(),
            cfg == config.text(),
            names@.len() == i,
            keys@.len() == i,
            forall|k: int| 0 <= k < i ==> (#[trigger] names@[k])@ == alias_names(cfg.paths)[k],
            forall|k: int| 0 <= k < i ==> #[trigger] keys@[k] == alias_keys(cfg.paths)[k],
        decreases config.paths@.len() - i,
    {
        let n = chars_of(config.paths[i].0.as_str());
        let key = alias_key_of(&n);
        names.push(n);
        keys.push(key);
        i = i + 1;
    }
    assert(texts_of(names@) =~= alias_names(cfg.paths));
    assert(keys@ =~= alias_keys(cfg.paths));
    let order = alias_order(&keys, &names);
    let root_chars = chars_of(root);
    let base = match &config.base_url {
        Some(b) => join_path(&root_chars, &chars_of(b.as_str())),
        None => match &config.paths_base {
            Some(p) => join_path(&root_chars, &chars_of(p.as_str())),
            None => crate::text::copy(&root_chars),
        },
    };
    assert(base@ == alias_base(root@, cfg));
    let mut k: usize = 0;
    while k < order.len()
        invariant
            k <= order@.len(),
            order@.len() == config.paths@.len(),
            forall|q: int| 0 <= q < order@.len() ==> #[trigger] order@[q] < config.paths@.len(),
            cfg == config.text(),
            s@ == spec@,
            base@ == alias_base(root@, cfg),
            texts(r@) == ordered_alias_bases(cfg.paths, order@.subrange(0, k as int), spec@, base@),
        decreases order@.len() - k,
    {
        proof {
            assert(order@.subrange(0, k + 1).drop_last() =~= order@.subrange(0, k as int));
            assert(cfg.paths[order@[k as int] as int] == (
                config.paths@[order@[k as int] as int].0@,
                texts(config.paths@[order@[k as int] as int].1@),
            ));
        }
        push_alias_bases(&mut r, &config.paths[order[k]], &s, &base);
        k = k + 1;
    }
    assert(order@.subrange(0, order@.len() as int) =~= order@);
    let ghost aliased = texts(r@);
    match &config.base_url {
        Some(b) => {
            r.push(string_of(&join_path(&join_path(&root_chars, &chars_of(b.as_str())), &s)));
        },
        None => {},
    }
    let ghost with_base = texts(r@);
    let package = workspaces.resolve(spec);
    match &package {
        Some(p) => r.push(p.clone()),
        None => {},
    }
    proof {
        let o = order@;
        assert(alias_sorted(cfg.paths, o));
        assert(texts(r@) =~= bare_bases(root@, spec@, cfg, o, opt_view(package)));
    }
    r
}

} // verus!
