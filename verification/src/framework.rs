//! Framework conventions (Next.js, Expo) that make a file an entry point.
use vstd::prelude::*;
use crate::metrics::{stable_desc, stable_desc_order, trim_dot_slash, trimmed};
use crate::paths::{extension, extension_of, file_name, file_name_of, last_slash, lemma_last_slash, path_join, path_parent, find_last, join_path, parent_path};
use crate::report::texts;
use crate::workspace::opt_view;
use crate::text::{chars_equal, chars_of, ends_with, has_char, has_part, has_prefix, has_suffix, lit, slice, some_part_is, split, split_on, starts_with, string_of};

verus! {

/// A package manifest as read from disk: where it is, the names it depends on (in
/// `dependencies`, `devDependencies` or `peerDependencies`) and its `main` field when
/// that is a string.
#[derive(Debug)]
pub struct PackageManifest {
    pub path: String,
    pub dependencies: Vec<String>,
    pub main: Option<String>,
}

/// A package and the frameworks it uses.
#[derive(Debug)]
pub struct Package {
    pub directory: String,
    pub next: bool,
    pub expo: bool,
    pub router: bool,
    pub main: Option<String>,
}

/// The packages of a project, deepest directory first.
#[derive(Debug)]
pub struct Frameworks {
    packages: Vec<Package>,
}

// ---------------------------------------------------------------- paths

/// The number of components of a path: its non-empty `/` parts, and the root when it
/// is absolute.
pub open spec fn component_count(p: Seq<char>) -> nat {
    non_empty_parts(split_on(p, '/')) + if p.len() > 0 && p[0] == '/' {
        1nat
    } else {
        0nat
    }
}

/// How many of `parts` are not empty.
pub open spec fn non_empty_parts(parts: Seq<Seq<char>>) -> nat
    decreases parts.len(),
{
    if parts.len() == 0 {
        0
    } else {
        non_empty_parts(parts.drop_last()) + if parts.last().len() > 0 {
            1nat
        } else {
            0nat
        }
    }
}

/// `file` lies in directory `dir` (or is `dir`), comparing whole components.
pub open spec fn within(dir: Seq<char>, file: Seq<char>) -> bool {
    ||| dir.len() == 0
    ||| file == dir
    ||| has_prefix(file, dir) && file.len() > dir.len() && (dir.last() == '/' || file[dir.len() as int]
        == '/')
}

/// `file` relative to a directory that contains it.
pub open spec fn relative_to(file: Seq<char>, dir: Seq<char>) -> Seq<char> {
    if dir.len() == 0 {
        file
    } else if file.len() <= dir.len() {
        Seq::empty()
    } else if dir.last() == '/' {
        file.skip(dir.len() as int)
    } else {
        file.skip(dir.len() as int + 1)
    }
}

/// `s` with every backslash turned into a slash.
pub open spec fn forward_slashes(s: Seq<char>) -> Seq<char> {
    s.map_values(|c: char| if c == '\\' { '/' } else { c })
}

/// The file name without its extension.
pub open spec fn file_stem(p: Seq<char>) -> Seq<char> {
    let name = file_name(p);
    match extension(p) {
        None => name,
        Some(e) => name.subrange(0, name.len() - e.len() - 1),
    }
}

/// A declaration file: `.d.ts`, `.d.mts` or `.d.cts`.
pub open spec fn declaration_path(p: Seq<char>) -> bool {
    has_suffix(p, ".d.ts"@) || has_suffix(p, ".d.mts"@) || has_suffix(p, ".d.cts"@)
}

/// `s` without the prefix `p`, when it has it.
pub open spec fn strip_text(s: Seq<char>, p: Seq<char>) -> Option<Seq<char>> {
    if has_prefix(s, p) {
        Some(s.skip(p.len() as int))
    } else {
        None
    }
}

/// `s` without the first of two prefixes that it has.
pub open spec fn strip_either(s: Seq<char>, p: Seq<char>, q: Seq<char>) -> Option<Seq<char>> {
    match strip_text(s, p) {
        Some(r) => Some(r),
        None => strip_text(s, q),
    }
}

/// Some part begins with `c`.
pub open spec fn some_part_starts(parts: Seq<Seq<char>>, c: char) -> bool {
    exists|i: int| #![trigger parts[i]] 0 <= i < parts.len() && parts[i].len() > 0 && parts[i][0] == c
}

// ---------------------------------------------------------------- conventions

/// An extension of a plain script module: `ts`, `tsx`, `js` or `jsx`.
pub open spec fn standard_extension(p: Seq<char>) -> bool {
    match extension(p) {
        Some(e) => e == "ts"@ || e == "tsx"@ || e == "js"@ || e == "jsx"@,
        None => false,
    }
}

/// The special file names of the Next.js app router.
pub open spec fn app_router_stem(stem: Seq<char>) -> bool {
    ||| stem == "page"@
    ||| stem == "layout"@
    ||| stem == "template"@
    ||| stem == "loading"@
    ||| stem == "error"@
    ||| stem == "global-error"@
    ||| stem == "not-found"@
    ||| stem == "default"@
    ||| stem == "route"@
    ||| stem == "forbidden"@
    ||| stem == "unauthorized"@
    ||| stem == "sitemap"@
    ||| stem == "robots"@
    ||| stem == "manifest"@
    ||| stem == "icon"@
    ||| stem == "apple-icon"@
    ||| stem == "opengraph-image"@
    ||| stem == "twitter-image"@
}

/// The Next.js files that run outside the router.
pub open spec fn next_hook_stem(stem: Seq<char>) -> bool {
    stem == "middleware"@ || stem == "proxy"@ || stem == "instrumentation"@ || stem
        == "instrumentation-client"@
}

/// The path is at the package top, or directly in `src`.
pub open spec fn top_or_src(rel: Seq<char>) -> bool {
    match last_slash(rel) {
        None => true,
        Some(i) => rel.subrange(0, i) == "src"@,
    }
}

/// A Next.js entry point, given the package-relative path and the file's stem.
pub open spec fn next_entry(rel: Seq<char>, stem: Seq<char>, standard: bool) -> bool {
    ||| standard && match strip_either(rel, "app/"@, "src/app/"@) {
        Some(route) => !some_part_starts(split_on(route, '/'), '_') && app_router_stem(stem),
        None => false,
    }
    ||| standard && match strip_either(rel, "pages/"@, "src/pages/"@) {
        Some(route) => !some_part_starts(split_on(route, '/'), '.'),
        None => false,
    }
    ||| standard && top_or_src(rel) && next_hook_stem(stem)
    ||| !rel.contains('/') && (rel == "next.config.js"@ || rel == "next.config.mjs"@ || rel
        == "next.config.ts"@)
}

/// The default Expo entry files.
pub open spec fn expo_default_entry(rel: Seq<char>) -> bool {
    ||| rel == "index.ts"@
    ||| rel == "index.tsx"@
    ||| rel == "index.js"@
    ||| rel == "App.tsx"@
    ||| rel == "App.js"@
    ||| rel == "App.jsx"@
}

/// An Expo entry point: a router screen, or the package's `main` (the default entry
/// files when there is none).
pub open spec fn expo_entry(p: Package, rel: Seq<char>, standard: bool) -> bool {
    ||| p.router && standard && (has_prefix(rel, "app/"@) || has_prefix(rel, "src/app/"@))
    ||| match p.main {
        Some(m) => rel == trimmed(m@),
        None => expo_default_entry(rel),
    }
}

/// The first package (in order) whose directory holds `file`.
pub open spec fn first_owner(pkgs: Seq<Package>, file: Seq<char>) -> Option<Package>
    decreases pkgs.len(),
{
    if pkgs.len() == 0 {
        None
    } else if within(pkgs[0].directory@, file) {
        Some(pkgs[0])
    } else {
        first_owner(pkgs.drop_first(), file)
    }
}

/// Whether `file` is an entry point of package `p` by the conventions of its frameworks.
pub open spec fn package_entry(p: Package, file: Seq<char>) -> bool {
    let rel = forward_slashes(relative_to(file, p.directory@));
    !declaration_path(rel) && ((p.next && next_entry(rel, file_stem(file), standard_extension(file)))
        || (p.expo && expo_entry(p, rel, standard_extension(file))))
}

/// The owning package's frameworks make `file` an entry point.
pub open spec fn framework_entry(pkgs: Seq<Package>, file: Seq<char>) -> bool {
    match first_owner(pkgs, file) {
        None => false,
        Some(p) => package_entry(p, file),
    }
}

/// A type file that Next.js generates, imported from `next-env.d.ts`.
pub open spec fn generated_import(pkgs: Seq<Package>, file: Seq<char>, spec: Seq<char>) -> bool {
    match first_owner(pkgs, file) {
        None => false,
        Some(p) => {
            &&& p.next
            &&& file == path_join(p.directory@, "next-env.d.ts"@)
            &&& (has_prefix(spec, "./.next/types/"@) || has_prefix(spec, "./.next/dev/types/"@))
            &&& has_suffix(spec, ".d.ts"@)
            &&& !some_part_is(split_on(spec, '/'), ".."@)
        },
    }
}

/// `p` is the package that manifest `m` describes: its directory holds the manifest,
/// `next` and `expo` tell whether it depends on them, `router` whether it depends on
/// `expo-router` and starts at `expo-router/entry`.
pub open spec fn describes(m: PackageManifest, p: Package) -> bool {
    let deps = texts(m.dependencies@);
    &&& path_parent(m.path@) == Some(p.directory@)
    &&& p.next == deps.contains("next"@)
    &&& p.expo == deps.contains("expo"@)
    &&& p.router == (deps.contains("expo-router"@) && starts_at_router(m.main))
    &&& match (p.main, m.main) {
        (Some(a), Some(b)) => a@ == b@,
        (None, None) => true,
        _ => false,
    }
}

/// The `main` field is `expo-router/entry`.
pub open spec fn starts_at_router(main: Option<String>) -> bool {
    match main {
        Some(x) => x@ == "expo-router/entry"@,
        None => false,
    }
}

/// The depth of each manifest's directory.
pub open spec fn depth_keys(ms: Seq<PackageManifest>) -> Seq<u128> {
    ms.map_values(|m: PackageManifest| component_count(path_parent(m.path@).unwrap()) as u128)
}

/// `pkgs` describe the manifests deepest directory first, keeping their order on ties.
pub open spec fn deepest_first(ms: Seq<PackageManifest>, pkgs: Seq<Package>) -> bool {
    exists|perm: Seq<usize>|
        #![trigger stable_desc(depth_keys(ms), perm)]
        stable_desc(depth_keys(ms), perm) && pkgs.len() == perm.len() && forall|k: int|
            0 <= k < perm.len() ==> describes(ms[perm[k] as int], #[trigger] pkgs[k])
}

/// A manifest file name.
pub open spec fn manifest_path(p: Seq<char>) -> bool {
    file_name(p) == "package.json"@
}

proof fn lemma_first_owner_index(pkgs: Seq<Package>, file: Seq<char>)
    ensures
        first_owner(pkgs, file) matches Some(p) ==> exists|i: int|
            0 <= i < pkgs.len() && #[trigger] pkgs[i] == p && within(pkgs[i].directory@, file)
                && forall|j: int| 0 <= j < i ==> !within(pkgs[j].directory@, file),
        first_owner(pkgs, file) is None ==> forall|j: int| 0 <= j < pkgs.len() ==> !within(#[trigger] pkgs[j].directory@, file),
    decreases pkgs.len(),
{
    if pkgs.len() > 0 {
        let rest = pkgs.drop_first();
        lemma_first_owner_index(rest, file);
        if within(pkgs[0].directory@, file) {
            assert(pkgs[0] == pkgs[0]);
        } else {
            if let Some(p) = first_owner(rest, file) {
                let i = choose|i: int|
                    0 <= i < rest.len() && #[trigger] rest[i] == p && within(rest[i].directory@, file)
                        && forall|j: int| 0 <= j < i ==> !within(rest[j].directory@, file);
                assert(pkgs[i + 1] == p);
                assert forall|j: int| 0 <= j < i + 1 implies !within(pkgs[j].directory@, file) by {
                    if j > 0 {
                        assert(pkgs[j] == rest[j - 1]);
                    }
                }
            } else {
                assert forall|j: int| 0 <= j < pkgs.len() implies !within(#[trigger] pkgs[j].directory@, file) by {
                    if j > 0 {
                        assert(pkgs[j] == rest[j - 1]);
                    }
                }
            }
        }
    }
}

proof fn lemma_parts_bound(p: Seq<char>)
    ensures
        non_empty_parts(split_on(p, '/')) <= p.len(),
    decreases p.len(),
{
    crate::text::lemma_split_nonempty(p, '/');
    let cur = split_on(p, '/');
    if p.len() == 0 {
        assert(cur =~= seq![Seq::<char>::empty()]);
        assert(cur.drop_last() =~= Seq::<Seq<char>>::empty());
        assert(non_empty_parts(cur.drop_last()) == 0);
        assert(non_empty_parts(cur) == non_empty_parts(cur.drop_last()));
    } else {
        lemma_parts_bound(p.drop_last());
        crate::text::lemma_split_nonempty(p.drop_last(), '/');
        let prev = split_on(p.drop_last(), '/');
        assert(non_empty_parts(prev) == non_empty_parts(prev.drop_last()) + if prev.last().len() > 0 {
            1nat
        } else {
            0nat
        });
        if p.last() == '/' {
            assert(cur == prev.push(Seq::<char>::empty()));
            assert(cur.drop_last() =~= prev);
            assert(non_empty_parts(cur) == non_empty_parts(cur.drop_last()));
        } else {
            assert(cur == prev.update(prev.len() - 1, prev.last().push(p.last())));
            assert(cur.drop_last() =~= prev.drop_last());
            assert(cur.last().len() > 0);
            assert(non_empty_parts(cur) == non_empty_parts(cur.drop_last()) + 1);
        }
    }
}

/// A file belongs to the deepest package directory that holds it: the packages that
/// `discover` lists are searched deepest first.
pub proof fn lemma_owner_is_deepest(ms: Seq<PackageManifest>, pkgs: Seq<Package>, file: Seq<char>)
    requires
        deepest_first(ms, pkgs),
        forall|i: int| 0 <= i < ms.len() ==> (#[trigger] ms[i]).path@.len() < 0x1_0000_0000_0000_0000,
    ensures
        first_owner(pkgs, file) matches Some(owner) ==> forall|j: int|
            0 <= j < pkgs.len() && within(#[trigger] pkgs[j].directory@, file)
                ==> component_count(pkgs[j].directory@) <= component_count(owner.directory@),
{
    let perm = choose|perm: Seq<usize>|
        #![trigger stable_desc(depth_keys(ms), perm)]
        stable_desc(depth_keys(ms), perm) && pkgs.len() == perm.len() && forall|k: int|
            0 <= k < perm.len() ==> describes(ms[perm[k] as int], #[trigger] pkgs[k]);
    lemma_first_owner_index(pkgs, file);
    let keys = depth_keys(ms);
    assert forall|k: int| 0 <= k < pkgs.len() implies keys[perm[k] as int] == component_count(#[trigger] pkgs[k].directory@) by {
        let m = ms[perm[k] as int];
        assert(describes(m, pkgs[k]));
        let d = pkgs[k].directory@;
        assert(path_parent(m.path@) == Some(d));
        crate::paths::lemma_last_slash(m.path@);
        assert(d.len() <= m.path@.len());
        lemma_parts_bound(d);
    }
    if let Some(owner) = first_owner(pkgs, file) {
        let i = choose|i: int|
            0 <= i < pkgs.len() && #[trigger] pkgs[i] == owner && within(pkgs[i].directory@, file)
                && forall|j: int| 0 <= j < i ==> !within(pkgs[j].directory@, file);
        assert forall|j: int| 0 <= j < pkgs.len() && within(#[trigger] pkgs[j].directory@, file)
            implies component_count(pkgs[j].directory@) <= component_count(owner.directory@) by {
            if j != i {
                assert(i < j);
                assert(crate::metrics::desc_before(keys, perm[i], perm[j]));
                assert(keys[perm[i] as int] == component_count(pkgs[i].directory@));
                assert(keys[perm[j] as int] == component_count(pkgs[j].directory@));
            }
        }
    }
}

// ---------------------------------------------------------------- executable

/// Whether the file is a package manifest (`package.json`).
pub fn is_manifest(path: &str) -> (r: bool)
    ensures
        r == manifest_path(path@),
{
    chars_equal(&file_name_of(&chars_of(path)), &lit("package.json"))
}

/// Whether a path names a declaration file.
pub fn is_declaration(path: &str) -> (r: bool)
    ensures
        r == declaration_path(path@),
{
    let p = chars_of(path);
    ends_with(&p, &lit(".d.ts")) || ends_with(&p, &lit(".d.mts")) || ends_with(&p, &lit(".d.cts"))
}

fn count_non_empty(parts: &Vec<Vec<char>>, whole: Ghost<Seq<Seq<char>>>) -> (n: usize)
    requires
        parts@.len() == whole@.len(),
        forall|k: int| 0 <= k < parts@.len() ==> #[trigger] parts@[k]@ == whole@[k],
    ensures
        n == non_empty_parts(whole@),
{
    let mut n: usize = 0;
    let mut i: usize = 0;
    while i < parts.len()
        invariant
            i <= parts@.len(),
            parts@.len() == whole@.len(),
            forall|k: int| 0 <= k < parts@.len() ==> #[trigger] parts@[k]@ == whole@[k],
            n == non_empty_parts(whole@.subrange(0, i as int)),
            n <= i,
        decreases parts@.len() - i,
    {
        proof {
            assert(whole@.subrange(0, i + 1).drop_last() =~= whole@.subrange(0, i as int));
            assert(whole@.subrange(0, i + 1).last() == parts@[i as int]@);
        }
        if parts[i].len() > 0 {
            n = n + 1;
        }
        i = i + 1;
    }
    assert(whole@.subrange(0, parts@.len() as int) =~= whole@);
    n
}

fn component_count_of(p: &Vec<char>) -> (n: u128)
    ensures
        n == component_count(p@),
{
    let parts = split(p, '/');
    let n = count_non_empty(&parts, Ghost(split_on(p@, '/')));
    if p.len() > 0 && p[0] == '/' {
        n as u128 + 1
    } else {
        n as u128
    }
}

/// Whether any text is `word`.
fn any_is(items: &Vec<String>, word: &str) -> (r: bool)
    ensures
        r == texts(items@).contains(word@),
{
    let w = lit(word);
    let mut i: usize = 0;
    while i < items.len()
        invariant
            i <= items@.len(),
            w@ == word@,
            forall|k: int| 0 <= k < i ==> items@[k]@ != word@,
        decreases items@.len() - i,
    {
        if chars_equal(&chars_of(items[i].as_str()), &w) {
            assert(texts(items@)[i as int] == word@);
            return true;
        }
        i = i + 1;
    }
    proof {
        if texts(items@).contains(word@) {
            let k = choose|k: int| 0 <= k < texts(items@).len() && texts(items@)[k] == word@;
            assert(items@[k]@ == word@);
        }
    }
    false
}

fn package_from(m: &PackageManifest) -> (p: Package)
    requires
        manifest_path(m.path@),
    ensures
        describes(*m, p),
{
    let path = chars_of(m.path.as_str());
    let dir = match parent_path(&path) {
        Some(d) => d,
        None => {
            proof {
                assert(file_name(m.path@).len() > 0) by {
                    reveal_strlit("package.json");
                }
                crate::paths::lemma_last_slash(m.path@);
            }
            Vec::new()
        },
    };
    let router_main = match &m.main {
        Some(x) => chars_equal(&chars_of(x.as_str()), &lit("expo-router/entry")),
        None => false,
    };
    Package {
        directory: string_of(&dir),
        next: any_is(&m.dependencies, "next"),
        expo: any_is(&m.dependencies, "expo"),
        router: any_is(&m.dependencies, "expo-router") && router_main,
        main: match &m.main {
            Some(x) => Some(x.clone()),
            None => None,
        },
    }
}

impl Frameworks {
    /// The packages, in the order they are searched.
    pub closed spec fn packages(self) -> Seq<Package> {
        self.packages@
    }

    /// The packages of a project from its manifests: deepest directory first, in
    /// discovery order among equals.
    pub fn discover(manifests: &Vec<PackageManifest>) -> (f: Frameworks)
        requires
            forall|i: int| 0 <= i < manifests@.len() ==> manifest_path(#[trigger] manifests@[i].path@),
        ensures
            deepest_first(manifests@, f.packages()),
    {
        let mut keys: Vec<u128> = Vec::new();
        let mut i: usize = 0;
        while i < manifests.len()
            invariant
                i <= manifests@.len(),
                forall|i: int| 0 <= i < manifests@.len() ==> manifest_path(#[trigger] manifests@[i].path@),
                keys@ == depth_keys(manifests@).subrange(0, i as int),
            decreases manifests@.len() - i,
        {
            let p = package_from(&manifests[i]);
            let d = chars_of(p.directory.as_str());
            let n = component_count_of(&d);
            keys.push(n);
            i = i + 1;
            assert(keys@ =~= depth_keys(manifests@).subrange(0, i as int));
        }
        assert(keys@ =~= depth_keys(manifests@));
        let perm = stable_desc_order(&keys);
        let mut packages: Vec<Package> = Vec::new();
        let mut k: usize = 0;
        while k < perm.len()
            invariant
                k <= perm@.len(),
                stable_desc(keys@, perm@),
                keys@ == depth_keys(manifests@),
                forall|i: int| 0 <= i < manifests@.len() ==> manifest_path(#[trigger] manifests@[i].path@),
                packages@.len() == k,
                forall|q: int| 0 <= q < k ==> describes(manifests@[perm@[q] as int], #[trigger] packages@[q]),
            decreases perm@.len() - k,
        {
            let p = package_from(&manifests[perm[k]]);
            packages.push(p);
            k = k + 1;
        }
        let f = Frameworks { packages };
        assert(stable_desc(depth_keys(manifests@), perm@));
        f
    }

    /// The position of the first package holding `file`.
    fn owner(&self, file: &Vec<char>) -> (r: Option<usize>)
        ensures
            match r {
                None => first_owner(self.packages@, file@) is None,
                Some(i) => i < self.packages@.len() && first_owner(self.packages@, file@) == Some(
                    self.packages@[i as int],
                ),
            },
    {
        let mut i: usize = 0;
        assert(self.packages@.skip(0) =~= self.packages@);
        while i < self.packages.len()
            invariant
                i <= self.packages@.len(),
                first_owner(self.packages@, file@) == first_owner(self.packages@.skip(i as int), file@),
            decreases self.packages@.len() - i,
        {
            let dir = chars_of(self.packages[i].directory.as_str());
            proof {
                assert(self.packages@.skip(i as int)[0] == self.packages@[i as int]);
                assert(self.packages@.skip(i as int).drop_first() =~= self.packages@.skip(i + 1));
            }
            if contains_path(&dir, file) {
                return Some(i);
            }
            i = i + 1;
        }
        None
    }
}

/// Whether `file` lies in `dir`.
pub(crate) fn contains_path(dir: &Vec<char>, file: &Vec<char>) -> (r: bool)
    ensures
        r == within(dir@, file@),
{
    if dir.len() == 0 || chars_equal(dir, file) {
        return true;
    }
    starts_with(file, dir) && file.len() > dir.len() && (dir[dir.len() - 1] == '/' || file[dir.len()] == '/')
}

/// Whether `s` is the text `w`.
fn is_word(s: &Vec<char>, w: &str) -> (r: bool)
    ensures
        r == (s@ == w@),
{
    chars_equal(s, &lit(w))
}

fn relative_of(file: &Vec<char>, dir: &Vec<char>) -> (r: Vec<char>)
    ensures
        r@ == relative_to(file@, dir@),
{
    if dir.len() == 0 {
        crate::text::copy(file)
    } else if file.len() <= dir.len() {
        Vec::new()
    } else if dir[dir.len() - 1] == '/' {
        slice(file, dir.len(), file.len())
    } else {
        slice(file, dir.len() + 1, file.len())
    }
}

fn forward_of(s: &Vec<char>) -> (r: Vec<char>)
    ensures
        r@ == forward_slashes(s@),
{
    let mut r: Vec<char> = Vec::new();
    let mut i: usize = 0;
    while i < s.len()
        invariant
            i <= s@.len(),
            r@ == forward_slashes(s@.subrange(0, i as int)),
        decreases s@.len() - i,
    {
        r.push(if s[i] == '\\' { '/' } else { s[i] });
        i = i + 1;
        assert(r@ =~= forward_slashes(s@.subrange(0, i as int)));
    }
    assert(s@.subrange(0, s@.len() as int) =~= s@);
    r
}

fn stem_of(p: &Vec<char>) -> (r: Vec<char>)
    ensures
        r@ == file_stem(p@),
{
    let name = file_name_of(p);
    match extension_of(p) {
        None => name,
        Some(e) => {
            proof {
                crate::paths::lemma_last_dot(name@);
            }
            slice(&name, 0, name.len() - e.len() - 1)
        },
    }
}

fn standard_of(p: &Vec<char>) -> (r: bool)
    ensures
        r == standard_extension(p@),
{
    match extension_of(p) {
        Some(e) => is_word(&e, "ts") || is_word(&e, "tsx") || is_word(&e, "js") || is_word(&e, "jsx"),
        None => false,
    }
}

fn strip_of(s: &Vec<char>, p: &str) -> (r: Option<Vec<char>>)
    ensures
        match r {
            Some(v) => strip_text(s@, p@) == Some(v@),
            None => strip_text(s@, p@) is None,
        },
{
    let q = lit(p);
    if starts_with(s, &q) {
        Some(slice(s, q.len(), s.len()))
    } else {
        None
    }
}

fn strip_either_of(s: &Vec<char>, p: &str, q: &str) -> (r: Option<Vec<char>>)
    ensures
        match r {
            Some(v) => strip_either(s@, p@, q@) == Some(v@),
            None => strip_either(s@, p@, q@) is None,
        },
{
    match strip_of(s, p) {
        Some(v) => Some(v),
        None => strip_of(s, q),
    }
}

fn part_starts(s: &Vec<char>, c: char) -> (r: bool)
    ensures
        r == some_part_starts(split_on(s@, '/'), c),
{
    let parts = split(s, '/');
    let mut i: usize = 0;
    while i < parts.len()
        invariant
            i <= parts@.len(),
            parts@.len() == split_on(s@, '/').len(),
            forall|k: int| 0 <= k < parts@.len() ==> #[trigger] parts@[k]@ == split_on(s@, '/')[k],
            forall|k: int| 0 <= k < i ==> !(split_on(s@, '/')[k].len() > 0 && split_on(s@, '/')[k][0] == c),
        decreases parts@.len() - i,
    {
        if parts[i].len() > 0 && parts[i][0] == c {
            assert(split_on(s@, '/')[i as int].len() > 0);
            return true;
        }
        i = i + 1;
    }
    false
}

fn app_router_stem_of(stem: &Vec<char>) -> (r: bool)
    ensures
        r == app_router_stem(stem@),
{
    is_word(stem, "page") || is_word(stem, "layout") || is_word(stem, "template") || is_word(
        stem,
        "loading",
    ) || is_word(stem, "error") || is_word(stem, "global-error") || is_word(stem, "not-found")
        || is_word(stem, "default") || is_word(stem, "route") || is_word(stem, "forbidden")
        || is_word(stem, "unauthorized") || is_word(stem, "sitemap") || is_word(stem, "robots")
        || is_word(stem, "manifest") || is_word(stem, "icon") || is_word(stem, "apple-icon")
        || is_word(stem, "opengraph-image") || is_word(stem, "twitter-image")
}

fn top_or_src_of(rel: &Vec<char>) -> (r: bool)
    ensures
        r == top_or_src(rel@),
{
    let last = find_last(rel, '/');
    proof {
        crate::paths::lemma_last_slash_is(rel@, last);
    }
    match last {
        None => true,
        Some(i) => is_word(&slice(rel, 0, i), "src"),
    }
}

fn next_entry_of(rel: &Vec<char>, stem: &Vec<char>, standard: bool) -> (r: bool)
    ensures
        r == next_entry(rel@, stem@, standard),
{
    if standard {
        match strip_either_of(rel, "app/", "src/app/") {
            Some(route) => {
                if !part_starts(&route, '_') && app_router_stem_of(stem) {
                    return true;
                }
            },
            None => {},
        }
        match strip_either_of(rel, "pages/", "src/pages/") {
            Some(route) => {
                if !part_starts(&route, '.') {
                    return true;
                }
            },
            None => {},
        }
        if top_or_src_of(rel) && (is_word(stem, "middleware") || is_word(stem, "proxy") || is_word(
            stem,
            "instrumentation",
        ) || is_word(stem, "instrumentation-client")) {
            return true;
        }
    }
    !has_char(rel, '/') && (is_word(rel, "next.config.js") || is_word(rel, "next.config.mjs")
        || is_word(rel, "next.config.ts"))
}

fn expo_entry_of(p: &Package, rel: &Vec<char>, standard: bool) -> (r: bool)
    ensures
        r == expo_entry(*p, rel@, standard),
{
    if p.router && standard && (starts_with(rel, &lit("app/")) || starts_with(rel, &lit("src/app/"))) {
        return true;
    }
    match &p.main {
        Some(m) => chars_equal(rel, &trim_dot_slash(&chars_of(m.as_str()))),
        None => is_word(rel, "index.ts") || is_word(rel, "index.tsx") || is_word(rel, "index.js")
            || is_word(rel, "App.tsx") || is_word(rel, "App.js") || is_word(rel, "App.jsx"),
    }
}

impl Frameworks {
    /// Whether the conventions of the frameworks of the package that holds `file` make it
    /// an entry point.
    pub fn entrypoint(&self, file: &str) -> (r: bool)
        ensures
            r == framework_entry(self.packages(), file@),
    {
        let f = chars_of(file);
        let i = match self.owner(&f) {
            None => return false,
            Some(i) => i,
        };
        let p = &self.packages[i];
        let rel = forward_of(&relative_of(&f, &chars_of(p.directory.as_str())));
        if ends_with(&rel, &lit(".d.ts")) || ends_with(&rel, &lit(".d.mts")) || ends_with(
            &rel,
            &lit(".d.cts"),
        ) {
            return false;
        }
        let stem = stem_of(&f);
        let standard = standard_of(&f);
        (p.next && next_entry_of(&rel, &stem, standard)) || (p.expo && expo_entry_of(p, &rel, standard))
    }

    /// Whether `spec`, imported from `file`, is a type file that Next.js generates:
    /// `file` is the package's `next-env.d.ts` and `spec` a `.d.ts` file under
    /// `./.next/types/` or `./.next/dev/types/` without `..` parts.
    pub fn generated_type_import(&self, file: &str, spec: &str) -> (r: bool)
        ensures
            r == generated_import(self.packages(), file@, spec@),
    {
        let f = chars_of(file);
        let i = match self.owner(&f) {
            None => return false,
            Some(i) => i,
        };
        let p = &self.packages[i];
        if !p.next {
            return false;
        }
        let s = chars_of(spec);
        chars_equal(&f, &join_path(&chars_of(p.directory.as_str()), &lit("next-env.d.ts"))) && (
        starts_with(&s, &lit("./.next/types/")) || starts_with(&s, &lit("./.next/dev/types/")))
            && ends_with(&s, &lit(".d.ts")) && !has_part(&s, '/', &lit(".."))
    }
}

/// The manifest fields that list dependencies.
pub open spec fn dependency_field(name: Seq<char>) -> bool {
    name == "dependencies"@ || name == "devDependencies"@ || name == "peerDependencies"@
}

/// A manifest's object fields as text: each field's name with the keys of its object.
pub open spec fn fields_view(fields: Seq<(String, Vec<String>)>) -> Seq<(Seq<char>, Seq<Seq<char>>)> {
    fields.map_values(|f: (String, Vec<String>)| (f.0@, texts(f.1@)))
}

/// The names listed under the dependency fields, field by field in manifest order.
pub open spec fn field_dependencies(fields: Seq<(Seq<char>, Seq<Seq<char>>)>) -> Seq<Seq<char>>
    decreases fields.len(),
{
    if fields.len() == 0 {
        Seq::empty()
    } else {
        field_dependencies(fields.drop_last()) + if dependency_field(fields.last().0) {
            fields.last().1
        } else {
            Seq::empty()
        }
    }
}

/// The dependency names of a manifest, from its object fields (each field's name with
/// the keys of its object): those under `dependencies`, `devDependencies` and
/// `peerDependencies`, in order.
pub fn manifest_dependencies(fields: &Vec<(String, Vec<String>)>) -> (r: Vec<String>)
    ensures
        texts(r@) == field_dependencies(fields_view(fields@)),
{
    let ghost fv = fields_view(fields@);
    let mut r: Vec<String> = Vec::new();
    let mut i: usize = 0;
    while i < fields.len()
        invariant
            i <= fields@.len(),
            fv == fields_view(fields@),
            texts(r@) == field_dependencies(fv.subrange(0, i as int)),
        decreases fields@.len() - i,
    {
        proof {
            assert(fv.subrange(0, i + 1).drop_last() =~= fv.subrange(0, i as int));
            assert(fv.subrange(0, i + 1).last() == (fields@[i as int].0@, texts(fields@[i as int].1@)));
        }
        let name = chars_of(fields[i].0.as_str());
        if is_word(&name, "dependencies") || is_word(&name, "devDependencies") || is_word(&name, "peerDependencies") {
            let keys = &fields[i].1;
            let ghost start = texts(r@);
            let mut j: usize = 0;
            while j < keys.len()
                invariant
                    j <= keys@.len(),
                    texts(r@) == start + texts(keys@).subrange(0, j as int),
                decreases keys@.len() - j,
            {
                let ghost before = texts(r@);
                let k = keys[j].clone();
                r.push(k);
                assert(texts(r@) =~= before.push(keys@[j as int]@));
                j = j + 1;
                assert(texts(r@) =~= start + texts(keys@).subrange(0, j as int));
            }
            assert(texts(keys@).subrange(0, keys@.len() as int) =~= texts(keys@));
        }
        i = i + 1;
        assert(texts(r@) =~= field_dependencies(fv.subrange(0, i as int)));
    }
    assert(fv.subrange(0, fields@.len() as int) =~= fv);
    r
}

/// What a manifest's text holds as JSON: `None` when it is not JSON, else the fields of
/// its top-level object (each name with the keys of its value when that is an object, in
/// the parsed map's order; none when the top level is no object) and its `main` field
/// when that is a string.
pub uninterp spec fn manifest_json(text: Seq<char>) -> Option<(Seq<(Seq<char>, Seq<Seq<char>>)>, Option<Seq<char>>)>;

/// A parsed manifest as text.
pub open spec fn manifest_fields_view(r: Option<(Vec<(String, Vec<String>)>, Option<String>)>) -> Option<(Seq<(Seq<char>, Seq<Seq<char>>)>, Option<Seq<char>>)> {
    match r {
        Some((fields, main)) => Some((fields_view(fields@), opt_view(main))),
        None => None,
    }
}

/// Parses `text` with `serde_json::from_str` into a `serde_json::Value`: `None` when that
/// fails, else the top-level object's fields (each name with the keys of its value when
/// that is an object) and `value["main"].as_str()`. The result is named
/// `manifest_json(text)`.
#[verifier::external_body]
fn parse_manifest_json(text: &str) -> (r: Option<(Vec<(String, Vec<String>)>, Option<String>)>)
    ensures
        manifest_fields_view(r) == manifest_json(text@),
{
    let value: serde_json::Value = serde_json::from_str(text).ok()?;
    let keys = |v: &serde_json::Value| v.as_object().map(|o| o.keys().cloned().collect()).unwrap_or_default();
    let fields = match value.as_object() {
        Some(o) => o.iter().map(|(name, v)| (name.clone(), keys(v))).collect(),
        None => Vec::new(),
    };
    Some((fields, value["main"].as_str().map(str::to_owned)))
}

/// The manifest at `path` with text `text`: `None` when the text is not JSON, else its
/// dependency names and its `main` field.
pub fn manifest_from_text(path: String, text: &str) -> (r: Option<PackageManifest>)
    ensures
        (r is None) <==> (manifest_json(text@) is None),
        r matches Some(m) ==> m.path@ == path@ && texts(m.dependencies@) == field_dependencies(
            manifest_json(text@).unwrap().0,
        ) && opt_view(m.main) == manifest_json(text@).unwrap().1,
{
    match parse_manifest_json(text) {
        None => None,
        Some((fields, main)) => {
            let dependencies = manifest_dependencies(&fields);
            Some(PackageManifest { path, dependencies, main })
        },
    }
}

/// In a Next.js package, a file with a `ts`, `tsx`, `js` or `jsx` extension under `app/`
/// or `src/app/`, in no folder that starts with `_`, that is no declaration file, and
/// whose stem is one of the App Router's special names (`page`, `layout`, `template`,
/// `loading`, `error`, `global-error`, `not-found`, `default`, `route`, `forbidden`,
/// `unauthorized`, `sitemap`, `robots`, `manifest`, `icon`, `apple-icon`,
/// `opengraph-image`, `twitter-image`) is an entry point: route handlers and special
/// files are never unused-module candidates.
pub proof fn lemma_app_router_files_are_entries(
    pkgs: Seq<Package>,
    file: Seq<char>,
    p: Package,
    route: Seq<char>,
    ext: Seq<char>,
)
    requires
        first_owner(pkgs, file) == Some(p),
        p.next,
        forward_slashes(relative_to(file, p.directory@)) == "app/"@ + route
            || forward_slashes(relative_to(file, p.directory@)) == "src/app/"@ + route,
        !some_part_starts(split_on(route, '/'), '_'),
        !declaration_path(forward_slashes(relative_to(file, p.directory@))),
        extension(file) == Some(ext),
        ext == "ts"@ || ext == "tsx"@ || ext == "js"@ || ext == "jsx"@,
        ({
            let stem = file_stem(file);
            ||| stem == "page"@ || stem == "layout"@ || stem == "template"@ || stem == "loading"@
            ||| stem == "error"@ || stem == "global-error"@ || stem == "not-found"@ || stem == "default"@
            ||| stem == "route"@ || stem == "forbidden"@ || stem == "unauthorized"@ || stem == "sitemap"@
            ||| stem == "robots"@ || stem == "manifest"@ || stem == "icon"@ || stem == "apple-icon"@
            ||| stem == "opengraph-image"@ || stem == "twitter-image"@
        }),
    ensures
        framework_entry(pkgs, file),
{
    reveal_strlit("app/");
    reveal_strlit("src/app/");
    let rel = forward_slashes(relative_to(file, p.directory@));
    if rel == "app/"@ + route {
        assert(rel.subrange(0, 4) =~= "app/"@);
        assert(rel.skip(4) =~= route);
    } else {
        assert(rel[0] == 's');
        assert(!has_prefix(rel, "app/"@)) by {
            if has_prefix(rel, "app/"@) {
                assert(rel.subrange(0, 4)[0] == 'a');
            }
        }
        assert(rel.subrange(0, 8) =~= "src/app/"@);
        assert(rel.skip(8) =~= route);
    }
    assert(strip_either(rel, "app/"@, "src/app/"@) == Some(route));
    assert(standard_extension(file));
    assert(app_router_stem(file_stem(file)));
    assert(next_entry(rel, file_stem(file), standard_extension(file)));
}

/// In a Next.js package without Expo, a file under `app/` or `src/app/` inside a folder
/// that starts with `_` (an App Router private folder) is no entry point, whatever its
/// name, unless it is a middleware, proxy or instrumentation file.
pub proof fn lemma_private_app_folders_are_not_entries(pkgs: Seq<Package>, file: Seq<char>, p: Package, route: Seq<char>)
    requires
        first_owner(pkgs, file) == Some(p),
        p.next,
        !p.expo,
        forward_slashes(relative_to(file, p.directory@)) == "app/"@ + route
            || forward_slashes(relative_to(file, p.directory@)) == "src/app/"@ + route,
        some_part_starts(split_on(route, '/'), '_'),
        !next_hook_stem(file_stem(file)),
    ensures
        !framework_entry(pkgs, file),
{
    reveal_strlit("app/");
    reveal_strlit("src/app/");
    reveal_strlit("pages/");
    reveal_strlit("src/pages/");
    let rel = forward_slashes(relative_to(file, p.directory@));
    if rel == "app/"@ + route {
        assert(rel.subrange(0, 4) =~= "app/"@);
        assert(rel.skip(4) =~= route);
        assert(!has_prefix(rel, "pages/"@)) by {
            if has_prefix(rel, "pages/"@) {
                assert(rel.subrange(0, 6)[0] == 'p');
            }
        }
        assert(!has_prefix(rel, "src/pages/"@)) by {
            if has_prefix(rel, "src/pages/"@) {
                assert(rel.subrange(0, 10)[0] == 's');
            }
        }
        assert(rel[3] == '/');
    } else {
        assert(!has_prefix(rel, "app/"@)) by {
            if has_prefix(rel, "app/"@) {
                assert(rel.subrange(0, 4)[0] == 'a');
            }
        }
        assert(rel.subrange(0, 8) =~= "src/app/"@);
        assert(rel.skip(8) =~= route);
        assert(!has_prefix(rel, "pages/"@)) by {
            if has_prefix(rel, "pages/"@) {
                assert(rel.subrange(0, 6)[0] == 'p');
            }
        }
        assert(!has_prefix(rel, "src/pages/"@)) by {
            if has_prefix(rel, "src/pages/"@) {
                assert(rel.subrange(0, 10)[4] == 'p');
            }
        }
        assert(rel[3] == '/');
    }
    assert(strip_either(rel, "app/"@, "src/app/"@) == Some(route));
    assert(strip_either(rel, "pages/"@, "src/pages/"@) is None);
    assert(rel.contains('/'));
    assert(!next_entry(rel, file_stem(file), standard_extension(file)));
}

} // verus!
