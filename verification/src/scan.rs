//! The scan of a project: which files are modules, in what order, how each is parsed
//! (or taken from the parse cache), and which modules its imports reach.
use vstd::prelude::*;
use crate::order::{distinct, order_by_name};
use crate::parser::{imports, module_imports, parsed_text};
use crate::report::{targets_within, texts};
use crate::resolve::{is_source, source_path};
use crate::text::{chars_equal, chars_of, seq_lt};

verus! {

// ---------------------------------------------------------------- path order

/// A path with its separators lowered below every other character.
pub open spec fn lowered(p: Seq<char>) -> Seq<char> {
    p.map_values(|c: char| if c == '/' { '\0' } else { c })
}

/// Path order: component by component, each compared by its characters (the order of
/// `std::path::Path` on normalised paths).
pub open spec fn path_lt(a: Seq<char>, b: Seq<char>) -> bool {
    seq_lt(lowered(a), lowered(b))
}

/// The path holds no NUL character (no file system path does).
pub open spec fn nul_free(p: Seq<char>) -> bool {
    !p.contains('\0')
}

/// `r` holds the same texts as `s`, each once, in path order.
pub open spec fn sorted_paths_of(s: Seq<Seq<char>>, r: Seq<Seq<char>>) -> bool {
    &&& r.len() == s.len()
    &&& forall|i: int| 0 <= i < s.len() ==> r.contains(#[trigger] s[i])
    &&& forall|i: int| 0 <= i < r.len() ==> s.contains(#[trigger] r[i])
    &&& forall|i: int, j: int| 0 <= i < j < r.len() ==> path_lt(#[trigger] r[i], #[trigger] r[j])
}

proof fn lemma_lowered_injective(a: Seq<char>, b: Seq<char>)
    requires
        nul_free(a),
        nul_free(b),
        lowered(a) == lowered(b),
    ensures
        a == b,
{
    assert(a.len() == lowered(a).len());
    assert(b.len() == lowered(b).len());
    assert forall|i: int| 0 <= i < a.len() implies a[i] == b[i] by {
        assert(lowered(a)[i] == lowered(b)[i]);
        assert(lowered(a)[i] == if a[i] == '/' { '\0' } else { a[i] });
        assert(lowered(b)[i] == if b[i] == '/' { '\0' } else { b[i] });
        assert(a[i] != '\0') by {
            if a[i] == '\0' {
                assert(a.contains('\0'));
            }
        }
        assert(b[i] != '\0') by {
            if b[i] == '\0' {
                assert(b.contains('\0'));
            }
        }
    }
    assert(a =~= b);
}

fn lower(p: &Vec<char>) -> (r: Vec<char>)
    ensures
        r@ == lowered(p@),
{
    let mut r: Vec<char> = Vec::new();
    let mut i: usize = 0;
    while i < p.len()
        invariant
            i <= p@.len(),
            r@ == lowered(p@.subrange(0, i as int)),
        decreases p@.len() - i,
    {
        r.push(if p[i] == '/' { '\0' } else { p[i] });
        i = i + 1;
        assert(r@ =~= lowered(p@.subrange(0, i as int)));
    }
    assert(p@.subrange(0, p@.len() as int) =~= p@);
    r
}

/// Sorts distinct paths into path order.
pub fn sort_paths(paths: &Vec<String>) -> (r: Vec<String>)
    requires
        distinct(texts(paths@)),
        forall|i: int| 0 <= i < paths@.len() ==> nul_free(#[trigger] paths@[i]@),
    ensures
        sorted_paths_of(texts(paths@), texts(r@)),
{
    let ghost ps = texts(paths@);
    let mut keys: Vec<Vec<char>> = Vec::new();
    let mut i: usize = 0;
    while i < paths.len()
        invariant
            i <= paths@.len(),
            keys@.len() == i,
            forall|k: int| 0 <= k < i ==> (#[trigger] keys@[k])@ == lowered(paths@[k]@),
        decreases paths@.len() - i,
    {
        keys.push(lower(&chars_of(paths[i].as_str())));
        i = i + 1;
    }
    proof {
        let views = keys@.map_values(|v: Vec<char>| v@);
        assert forall|a: int, b: int| 0 <= a < views.len() && 0 <= b < views.len() && a != b implies views[a] != views[b] by {
            if views[a] == views[b] {
                lemma_lowered_injective(paths@[a]@, paths@[b]@);
                assert(ps[a] == ps[b]);
            }
        }
    }
    let order = order_by_name(&keys);
    let mut r: Vec<String> = Vec::new();
    let mut k: usize = 0;
    while k < order.len()
        invariant
            k <= order@.len(),
            order@.len() == paths@.len(),
            keys@.len() == paths@.len(),
            ps == texts(paths@),
            forall|q: int| 0 <= q < keys@.len() ==> (#[trigger] keys@[q])@ == lowered(paths@[q]@),
            forall|q: int| 0 <= q < order@.len() ==> #[trigger] order@[q] < paths@.len(),
            r@.len() == k,
            forall|q: int| 0 <= q < k ==> (#[trigger] r@[q])@ == paths@[order@[q] as int]@,
        decreases order@.len() - k,
    {
        r.push(paths[order[k]].clone());
        k = k + 1;
    }
    proof {
        let rs = texts(r@);
        assert forall|i: int| 0 <= i < ps.len() implies rs.contains(#[trigger] ps[i]) by {
            assert(order@.contains(i as usize));
            let q = choose|q: int| 0 <= q < order@.len() && order@[q] == i as usize;
            assert(rs[q] == ps[i]);
        }
        assert forall|i: int| 0 <= i < rs.len() implies ps.contains(#[trigger] rs[i]) by {
            assert(ps[order@[i] as int] == rs[i]);
        }
        assert forall|i: int, j: int| 0 <= i < j < rs.len() implies path_lt(#[trigger] rs[i], #[trigger] rs[j]) by {
            assert(seq_lt(keys@[order@[i] as int]@, keys@[order@[j] as int]@));
        }
    }
    r
}

/// The source modules among the files, in path order.
pub fn source_files(files: &Vec<String>) -> (r: Vec<String>)
    requires
        distinct(texts(files@)),
        forall|i: int| 0 <= i < files@.len() ==> nul_free(#[trigger] files@[i]@),
    ensures
        sorted_paths_of(texts(files@).filter(|p: Seq<char>| source_path(p)), texts(r@)),
{
    let ghost pred = |p: Seq<char>| source_path(p);
    let mut picked: Vec<String> = Vec::new();
    let mut i: usize = 0;
    while i < files.len()
        invariant
            i <= files@.len(),
            pred == (|p: Seq<char>| source_path(p)),
            texts(picked@) == texts(files@).subrange(0, i as int).filter(pred),
        decreases files@.len() - i,
    {
        proof {
            let next = texts(files@).subrange(0, i + 1);
            assert(next.drop_last() =~= texts(files@).subrange(0, i as int));
            reveal_with_fuel(Seq::filter, 1);
        }
        if is_source(files[i].as_str()) {
            let ghost before = texts(picked@);
            picked.push(files[i].clone());
            assert(texts(picked@) =~= before.push(files@[i as int]@));
        }
        i = i + 1;
    }
    assert(texts(files@).subrange(0, files@.len() as int) =~= texts(files@));
    let ghost all = texts(files@);
    let ghost chosen = all.filter(pred);
    proof {
        assert forall|a: int| 0 <= a < chosen.len() implies nul_free(#[trigger] chosen[a]) && all.contains(chosen[a]) by {
            all.lemma_filter_contains_rev(pred, chosen[a]);
            let k = choose|k: int| 0 <= k < all.len() && all[k] == chosen[a];
            assert(nul_free(files@[k]@));
        }
        lemma_filter_distinct(all, pred);
        assert forall|a: int| 0 <= a < picked@.len() implies nul_free(#[trigger] picked@[a]@) by {
            assert(texts(picked@)[a] == chosen[a]);
        }
    }
    sort_paths(&picked)
}

proof fn lemma_filter_distinct(s: Seq<Seq<char>>, pred: spec_fn(Seq<char>) -> bool)
    requires
        distinct(s),
    ensures
        distinct(s.filter(pred)),
    decreases s.len(),
{
    reveal_with_fuel(Seq::filter, 1);
    if s.len() > 0 {
        let d = s.drop_last();
        assert forall|i: int, j: int| 0 <= i < d.len() && 0 <= j < d.len() && i != j implies d[i] != d[j] by {
            assert(d[i] == s[i] && d[j] == s[j]);
        }
        lemma_filter_distinct(d, pred);
        let f = d.filter(pred);
        if pred(s.last()) {
            assert forall|i: int| 0 <= i < f.len() implies f[i] != s.last() by {
                d.lemma_filter_contains_rev(pred, f[i]);
                let k = choose|k: int| 0 <= k < d.len() && d[k] == f[i];
                assert(s[k] == f[i]);
            }
        }
    }
}

// ---------------------------------------------------------------- parsing

/// The number of lines of a text, as `str::lines` counts them: every line break ends a
/// line, and a last line without one counts too.
pub open spec fn lines_in(s: Seq<char>) -> nat {
    if s.len() == 0 {
        0
    } else {
        breaks(s) + if s.last() == '\n' {
            0nat
        } else {
            1nat
        }
    }
}

/// The number of line breaks in a text.
pub open spec fn breaks(s: Seq<char>) -> nat
    decreases s.len(),
{
    if s.len() == 0 {
        0
    } else {
        breaks(s.drop_last()) + if s.last() == '\n' {
            1nat
        } else {
            0nat
        }
    }
}

proof fn lemma_breaks_bound(s: Seq<char>)
    ensures
        breaks(s) <= s.len(),
    decreases s.len(),
{
    if s.len() > 0 {
        lemma_breaks_bound(s.drop_last());
    }
}

/// The number of lines of a text.
pub fn line_count(s: &str) -> (n: usize)
    ensures
        n == lines_in(s@),
{
    let c = chars_of(s);
    let mut n: usize = 0;
    let mut i: usize = 0;
    while i < c.len()
        invariant
            i <= c@.len(),
            c@ == s@,
            n == breaks(c@.subrange(0, i as int)),
            n <= i,
        decreases c@.len() - i,
    {
        proof {
            assert(c@.subrange(0, i + 1).drop_last() =~= c@.subrange(0, i as int));
        }
        if c[i] == '\n' {
            n = n + 1;
        }
        i = i + 1;
    }
    assert(c@.subrange(0, c@.len() as int) =~= c@);
    if c.len() > 0 && c[c.len() - 1] != '\n' {
        proof {
            lemma_breaks_bound(c@.drop_last());
        }
        n + 1
    } else {
        n
    }
}

/// A module's source text with its line count and import specifiers.
#[derive(Debug)]
pub struct ParsedSource {
    pub source: String,
    pub lines: usize,
    pub imports: Vec<String>,
}

/// A parsed source as text.
pub open spec fn parsed_view(p: ParsedSource) -> (Seq<char>, nat, Seq<Seq<char>>) {
    (p.source@, p.lines as nat, texts(p.imports@))
}

/// What parsing the module `path` with text `source` gives.
pub open spec fn fresh_parse(path: Seq<char>, source: Seq<char>) -> (Seq<char>, nat, Seq<Seq<char>>) {
    (source, lines_in(source), module_imports(path, parsed_text(path, source)))
}

/// Parses a module.
pub fn parse_source(path: &str, source: String) -> (p: ParsedSource)
    ensures
        parsed_view(p) == fresh_parse(path@, source@),
{
    let lines = line_count(source.as_str());
    let found = imports(path, source.as_str());
    ParsedSource { source, lines, imports: found }
}

/// `i` is the first cache entry under `key`.
pub open spec fn first_entry(cache: Seq<(String, ParsedSource)>, key: Seq<char>, i: int) -> bool {
    0 <= i < cache.len() && cache[i].0@ == key && forall|j: int| 0 <= j < i ==> cache[j].0@ != key
}

/// The cached parse of `key` can stand for `source`: its entry holds the same text.
pub open spec fn reusable(cache: Seq<(String, ParsedSource)>, key: Seq<char>, source: Seq<char>) -> bool {
    exists|i: int| #[trigger] first_entry(cache, key, i) && cache[i].1.source@ == source
}

/// The first cache entry under `key`.
fn lookup(cache: &Vec<(String, ParsedSource)>, key: &str) -> (r: Option<usize>)
    ensures
        match r {
            Some(i) => first_entry(cache@, key@, i as int),
            None => forall|j: int| 0 <= j < cache@.len() ==> cache@[j].0@ != key@,
        },
{
    let k = chars_of(key);
    let mut i: usize = 0;
    while i < cache.len()
        invariant
            i <= cache@.len(),
            k@ == key@,
            forall|j: int| 0 <= j < i ==> cache@[j].0@ != key@,
        decreases cache@.len() - i,
    {
        if chars_equal(&chars_of(cache[i].0.as_str()), &k) {
            return Some(i);
        }
        i = i + 1;
    }
    None
}

/// A copy of a parsed source.
fn copy_parsed(p: &ParsedSource) -> (r: ParsedSource)
    ensures
        parsed_view(r) == parsed_view(*p),
{
    let mut found: Vec<String> = Vec::new();
    let mut i: usize = 0;
    while i < p.imports.len()
        invariant
            i <= p.imports@.len(),
            found@.len() == i,
            forall|k: int| 0 <= k < i ==> (#[trigger] found@[k])@ == p.imports@[k]@,
        decreases p.imports@.len() - i,
    {
        found.push(p.imports[i].clone());
        i = i + 1;
    }
    assert(texts(found@) =~= texts(p.imports@));
    ParsedSource { source: p.source.clone(), lines: p.lines, imports: found }
}

/// The parse of a module: the cached one when its entry under `key` holds the same
/// text, else a fresh parse.
pub open spec fn parse_outcome(
    cache: Seq<(String, ParsedSource)>,
    key: Seq<char>,
    path: Seq<char>,
    source: Seq<char>,
    v: (Seq<char>, nat, Seq<Seq<char>>),
) -> bool {
    &&& reusable(cache, key, source) ==> exists|i: int|
        #[trigger] first_entry(cache, key, i) && v == parsed_view(cache[i].1)
    &&& !reusable(cache, key, source) ==> v == fresh_parse(path, source)
}

/// When the cache entry under `key` was itself parsed from `path`, using the cache gives
/// exactly what parsing afresh gives: the cache never changes what analysis sees.
pub proof fn lemma_cache_transparent(
    cache: Seq<(String, ParsedSource)>,
    key: Seq<char>,
    path: Seq<char>,
    source: Seq<char>,
    v: (Seq<char>, nat, Seq<Seq<char>>),
)
    requires
        forall|i: int| #[trigger] first_entry(cache, key, i) ==> parsed_view(cache[i].1) == fresh_parse(path, cache[i].1.source@),
        parse_outcome(cache, key, path, source, v),
    ensures
        v == fresh_parse(path, source),
{
    if reusable(cache, key, source) {
        let i = choose|i: int| #[trigger] first_entry(cache, key, i) && v == parsed_view(cache[i].1);
        assert(first_entry(cache, key, i));
        let j = choose|j: int| #[trigger] first_entry(cache, key, j) && cache[j].1.source@ == source;
        assert(!(j < i) && !(i < j));
    }
}

/// The parse of a module: the cached one when its entry holds the same text, else a
/// fresh parse.
pub fn cached_or_parsed(
    cache: &Vec<(String, ParsedSource)>,
    key: &str,
    path: &str,
    source: String,
) -> (p: ParsedSource)
    ensures
        parse_outcome(cache@, key@, path@, source@, parsed_view(p)),
{
    match lookup(cache, key) {
        Some(i) => {
            if chars_equal(&chars_of(cache[i].1.source.as_str()), &chars_of(source.as_str())) {
                let r = copy_parsed(&cache[i].1);
                assert(first_entry(cache@, key@, i as int));
                return r;
            }
            proof {
                assert forall|j: int| #[trigger] first_entry(cache@, key@, j) implies cache@[j].1.source@ != source@ by {
                    assert(!(j < i) && !(i < j));
                }
            }
        },
        None => {},
    }
    parse_source(path, source)
}

/// Every module parsed now has a cache entry with the same text, and the cache holds
/// no other entries.
pub open spec fn cache_matches(cache: Seq<(String, ParsedSource)>, parsed: Seq<(String, ParsedSource)>) -> bool {
    parsed.len() == cache.len() && forall|k: int|
        0 <= k < parsed.len() ==> #[trigger] reusable(cache, parsed[k].0@, parsed[k].1.source@)
}

/// Whether the cache already holds what was parsed now, so that it need not be written.
pub fn cache_unchanged(cache: &Vec<(String, ParsedSource)>, parsed: &Vec<(String, ParsedSource)>) -> (r: bool)
    ensures
        r == cache_matches(cache@, parsed@),
{
    if parsed.len() != cache.len() {
        return false;
    }
    let mut k: usize = 0;
    while k < parsed.len()
        invariant
            k <= parsed@.len(),
            parsed@.len() == cache@.len(),
            forall|q: int| 0 <= q < k ==> #[trigger] reusable(cache@, parsed@[q].0@, parsed@[q].1.source@),
        decreases parsed@.len() - k,
    {
        let ok = match lookup(cache, parsed[k].0.as_str()) {
            Some(i) => {
                let same = chars_equal(&chars_of(cache[i].1.source.as_str()), &chars_of(parsed[k].1.source.as_str()));
                proof {
                    if same {
                        assert(first_entry(cache@, parsed@[k as int].0@, i as int));
                    } else {
                        assert forall|j: int| #[trigger] first_entry(cache@, parsed@[k as int].0@, j) implies cache@[j].1.source@ != parsed@[k as int].1.source@ by {
                            assert(!(j < i) && !(i < j));
                        }
                    }
                }
                same
            },
            None => false,
        };
        if !ok {
            assert(!reusable(cache@, parsed@[k as int].0@, parsed@[k as int].1.source@));
            return false;
        }
        k = k + 1;
    }
    true
}

// ---------------------------------------------------------------- graph

/// The position of `x` among `names`, counting from `i`.
pub open spec fn position_from(names: Seq<Seq<char>>, x: Seq<char>, i: int) -> Option<int>
    decreases names.len() - i,
{
    if i < 0 || i >= names.len() {
        None
    } else if names[i] == x {
        Some(i)
    } else {
        position_from(names, x, i + 1)
    }
}

/// The modules that resolved imports reach: for each import that resolved to one of the
/// modules, that module's position, in import order.
pub open spec fn reached_modules(names: Seq<Seq<char>>, resolved: Seq<Option<String>>) -> Seq<usize>
    decreases resolved.len(),
{
    if resolved.len() == 0 {
        Seq::empty()
    } else {
        reached_modules(names, resolved.drop_last()) + match resolved.last() {
            Some(t) => match position_from(names, t@, 0) {
                Some(i) => seq![i as usize],
                None => Seq::empty(),
            },
            None => Seq::empty(),
        }
    }
}

proof fn lemma_position_from(names: Seq<Seq<char>>, x: Seq<char>, k: int, i: int)
    requires
        0 <= k <= i <= names.len(),
        i < names.len() ==> names[i] == x,
        forall|j: int| k <= j < i ==> names[j] != x,
    ensures
        position_from(names, x, k) == if i < names.len() {
            Some(i)
        } else {
            None::<int>
        },
    decreases i - k,
{
    if k < i {
        lemma_position_from(names, x, k + 1, i);
    }
}

/// The position of `x` among the modules.
fn position(names: &Vec<String>, x: &String) -> (r: Option<usize>)
    ensures
        match r {
            Some(i) => i < names@.len() && position_from(texts(names@), x@, 0) == Some(i as int),
            None => position_from(texts(names@), x@, 0) is None,
        },
{
    let xs = chars_of(x.as_str());
    let mut i: usize = 0;
    while i < names.len()
        invariant
            i <= names@.len(),
            xs@ == x@,
            forall|j: int| 0 <= j < i ==> texts(names@)[j] != x@,
        decreases names@.len() - i,
    {
        if chars_equal(&chars_of(names[i].as_str()), &xs) {
            proof {
                lemma_position_from(texts(names@), x@, 0, i as int);
            }
            return Some(i);
        }
        i = i + 1;
    }
    proof {
        lemma_position_from(texts(names@), x@, 0, names@.len() as int);
    }
    None
}

/// For each module, the modules that its resolved imports reach.
pub fn import_targets(files: &Vec<String>, resolved: &Vec<Vec<Option<String>>>) -> (targets: Vec<Vec<usize>>)
    ensures
        targets@.len() == resolved@.len(),
        forall|i: int| 0 <= i < resolved@.len() ==> (#[trigger] targets@[i])@ == reached_modules(texts(files@), resolved@[i]@),
        targets_within(targets@, files@.len()),
{
    let mut targets: Vec<Vec<usize>> = Vec::new();
    let mut i: usize = 0;
    while i < resolved.len()
        invariant
            i <= resolved@.len(),
            targets@.len() == i,
            forall|q: int| 0 <= q < i ==> (#[trigger] targets@[q])@ == reached_modules(texts(files@), resolved@[q]@),
            forall|q: int, j: int| 0 <= q < i && 0 <= j < targets@[q]@.len() ==> #[trigger] targets@[q]@[j] < files@.len(),
        decreases resolved@.len() - i,
    {
        let row = &resolved[i];
        let mut reached: Vec<usize> = Vec::new();
        let mut j: usize = 0;
        while j < row.len()
            invariant
                j <= row@.len(),
                *row == resolved@[i as int],
                reached@ == reached_modules(texts(files@), row@.subrange(0, j as int)),
                forall|q: int| 0 <= q < reached@.len() ==> #[trigger] reached@[q] < files@.len(),
            decreases row@.len() - j,
        {
            proof {
                assert(row@.subrange(0, j + 1).drop_last() =~= row@.subrange(0, j as int));
            }
            match &row[j] {
                Some(t) => match position(files, t) {
                    Some(k) => {
                        reached.push(k);
                    },
                    None => {},
                },
                None => {},
            }
            j = j + 1;
            assert(reached@ =~= reached_modules(texts(files@), row@.subrange(0, j as int)));
        }
        assert(row@.subrange(0, row@.len() as int) =~= row@);
        targets.push(reached);
        i = i + 1;
    }
    targets
}

} // verus!
