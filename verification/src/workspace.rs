//! Internal workspace packages and how bare imports resolve into them.
use vstd::prelude::*;
use crate::paths::{join_path, path_join};
use crate::text::{chars_equal, chars_of, has_prefix, lit, matches_at, slice, string_of};

verus! {

/// The workspace packages of a project, by package name.
#[derive(Debug)]
pub struct Workspaces {
    packages: Vec<(String, String)>,
}

/// The package names and directories, in insertion order.
pub open spec fn entries_of(p: Seq<(String, String)>) -> Seq<(Seq<char>, Seq<char>)> {
    p.map_values(|e: (String, String)| (e.0@, e.1@))
}

/// The map from package name to directory that a list of distinct entries holds.
pub open spec fn map_of(e: Seq<(Seq<char>, Seq<char>)>) -> Map<Seq<char>, Seq<char>>
    decreases e.len(),
{
    if e.len() == 0 {
        Map::empty()
    } else {
        map_of(e.drop_last()).insert(e.last().0, e.last().1)
    }
}

/// No name occurs twice.
pub open spec fn names_distinct(e: Seq<(Seq<char>, Seq<char>)>) -> bool {
    forall|i: int, j: int| 0 <= i < j < e.len() ==> (#[trigger] e[i]).0 != (#[trigger] e[j]).0
}

/// The import `spec` names package `name` or a path inside it.
pub open spec fn names_package(name: Seq<char>, spec: Seq<char>) -> bool {
    spec == name || has_prefix(spec, name + "/"@)
}

/// `n` is the longest package name that `spec` names.
pub open spec fn best_package(m: Map<Seq<char>, Seq<char>>, spec: Seq<char>, n: Seq<char>) -> bool {
    &&& m.dom().contains(n)
    &&& names_package(n, spec)
    &&& forall|o: Seq<char>| #[trigger] m.dom().contains(o) && names_package(o, spec) ==> o.len() <= n.len()
}

/// `s` without its leading slashes.
pub open spec fn trim_slashes(s: Seq<char>) -> Seq<char>
    decreases s.len(),
{
    if s.len() > 0 && s[0] == '/' {
        trim_slashes(s.drop_first())
    } else {
        s
    }
}

/// Where an import into a package points: `src/index` for the package itself, else the
/// rest of the import under `src`.
pub open spec fn package_target(dir: Seq<char>, rest: Seq<char>) -> Seq<char> {
    if trim_slashes(rest).len() == 0 {
        path_join(dir, "src/index"@)
    } else {
        path_join(path_join(dir, "src"@), trim_slashes(rest))
    }
}

/// What an import resolves to among the packages.
pub open spec fn resolves_to(m: Map<Seq<char>, Seq<char>>, spec: Seq<char>, r: Option<Seq<char>>) -> bool {
    match r {
        None => forall|n: Seq<char>| #[trigger] m.dom().contains(n) ==> !names_package(n, spec),
        Some(p) => exists|n: Seq<char>|
            #![trigger best_package(m, spec, n)]
            best_package(m, spec, n) && p == package_target(m[n], spec.skip(n.len() as int)),
    }
}

proof fn lemma_map_of_push(e: Seq<(Seq<char>, Seq<char>)>, x: (Seq<char>, Seq<char>))
    ensures
        map_of(e.push(x)) == map_of(e).insert(x.0, x.1),
{
    assert(e.push(x).drop_last() =~= e);
}

proof fn lemma_map_of_entries(e: Seq<(Seq<char>, Seq<char>)>)
    requires
        names_distinct(e),
    ensures
        forall|n: Seq<char>| #[trigger] map_of(e).dom().contains(n) <==> exists|i: int|
            0 <= i < e.len() && e[i].0 == n,
        forall|i: int| 0 <= i < e.len() ==> map_of(e)[#[trigger] e[i].0] == e[i].1,
    decreases e.len(),
{
    if e.len() > 0 {
        let d = e.drop_last();
        assert forall|i: int, j: int| 0 <= i < j < d.len() implies (#[trigger] d[i]).0 != (#[trigger] d[j]).0 by {
            assert(d[i] == e[i] && d[j] == e[j]);
        }
        lemma_map_of_entries(d);
        assert(map_of(e) == map_of(d).insert(e.last().0, e.last().1));
        assert forall|n: Seq<char>| #[trigger] map_of(e).dom().contains(n) <==> exists|i: int|
            0 <= i < e.len() && e[i].0 == n by {
            if map_of(e).dom().contains(n) {
                if n == e.last().0 {
                    assert(e[e.len() - 1].0 == n);
                } else {
                    assert(map_of(d).dom().contains(n));
                    let i = choose|i: int| 0 <= i < d.len() && d[i].0 == n;
                    assert(d[i] == e[i]);
                    assert(e[i].0 == n);
                }
            }
            if exists|i: int| 0 <= i < e.len() && e[i].0 == n {
                let i = choose|i: int| 0 <= i < e.len() && e[i].0 == n;
                if i < d.len() {
                    assert(d[i] == e[i]);
                    assert(map_of(d).dom().contains(n));
                }
            }
        }
        assert forall|i: int| 0 <= i < e.len() implies map_of(e)[#[trigger] e[i].0] == e[i].1 by {
            if i < d.len() {
                assert(d[i] == e[i]);
                assert(e[i].0 != e.last().0);
            }
        }
    }
}

proof fn lemma_map_of_update(e: Seq<(Seq<char>, Seq<char>)>, i: int, dir: Seq<char>)
    requires
        names_distinct(e),
        0 <= i < e.len(),
    ensures
        map_of(e.update(i, (e[i].0, dir))) == map_of(e).insert(e[i].0, dir),
    decreases e.len(),
{
    let u = e.update(i, (e[i].0, dir));
    let d = e.drop_last();
    if i == e.len() - 1 {
        assert(u.drop_last() =~= d);
        assert(map_of(u) =~= map_of(e).insert(e[i].0, dir));
    } else {
        assert forall|a: int, b: int| 0 <= a < b < d.len() implies (#[trigger] d[a]).0 != (#[trigger] d[b]).0 by {
            assert(d[a] == e[a] && d[b] == e[b]);
        }
        lemma_map_of_update(d, i, dir);
        assert(u.drop_last() =~= d.update(i, (e[i].0, dir)));
        assert(e[i].0 != e.last().0);
        assert(map_of(u) =~= map_of(e).insert(e[i].0, dir));
    }
}

impl Workspaces {
    /// The packages by name.
    pub closed spec fn view(&self) -> Map<Seq<char>, Seq<char>> {
        map_of(entries_of(self.packages@))
    }

    /// Each name is held once.
    #[verifier::type_invariant]
    spec fn well_formed(self) -> bool {
        names_distinct(entries_of(self.packages@))
    }

    /// No packages.
    pub fn new() -> (w: Workspaces)
        ensures
            w@ == Map::<Seq<char>, Seq<char>>::empty(),
    {
        let w = Workspaces { packages: Vec::new() };
        assert(entries_of(w.packages@) =~= Seq::<(Seq<char>, Seq<char>)>::empty());
        w
    }

    /// Records that package `name` lives in `dir`; a later package of the same name
    /// replaces an earlier one.
    pub fn insert(&mut self, name: String, dir: String)
        ensures
            final(self)@ == old(self)@.insert(name@, dir@),
    {
        proof {
            use_type_invariant(&*self);
        }
        let mut packages: Vec<(String, String)> = Vec::new();
        std::mem::swap(&mut packages, &mut self.packages);
        let ghost e = entries_of(packages@);
        assert(e == entries_of(old(self).packages@));
        let n = chars_of(name.as_str());
        let mut i: usize = 0;
        let mut found = false;
        while i < packages.len()
            invariant_except_break
                !found,
            invariant
                i <= packages@.len(),
                e == entries_of(packages@),
                n@ == name@,
                forall|k: int| 0 <= k < i ==> packages@[k].0@ != name@,
            ensures
                i <= packages@.len(),
                found ==> i < packages@.len() && packages@[i as int].0@ == name@,
                !found ==> forall|k: int| 0 <= k < packages@.len() ==> packages@[k].0@ != name@,
            decreases packages@.len() - i,
        {
            if chars_equal(&chars_of(packages[i].0.as_str()), &n) {
                found = true;
                break;
            }
            i = i + 1;
        }
        if found {
            let old_name = packages[i].0.clone();
            packages.set(i, (old_name, dir));
            proof {
                assert(e[i as int].0 == name@);
                assert(entries_of(packages@) =~= e.update(i as int, (e[i as int].0, dir@)));
                lemma_map_of_update(e, i as int, dir@);
                assert forall|a: int, b: int| 0 <= a < b < entries_of(packages@).len() implies (#[trigger] entries_of(packages@)[a]).0 != (#[trigger] entries_of(packages@)[b]).0 by {
                    assert(entries_of(packages@)[a].0 == e[a].0);
                    assert(entries_of(packages@)[b].0 == e[b].0);
                }
            }
        } else {
            let ghost x = (name@, dir@);
            packages.push((name, dir));
            proof {
                assert(entries_of(packages@) =~= e.push(x));
                lemma_map_of_push(e, x);
                assert forall|a: int, b: int| 0 <= a < b < entries_of(packages@).len() implies (#[trigger] entries_of(packages@)[a]).0 != (#[trigger] entries_of(packages@)[b]).0 by {
                    if b == e.len() {
                        assert(entries_of(packages@)[a].0 == packages@[a].0@);
                    }
                }
            }
        }
        self.packages = packages;
    }

    /// Where a bare import points inside the workspace package with the longest name
    /// that it names; none when it names no package.
    pub fn resolve(&self, spec: &str) -> (r: Option<String>)
        ensures
            resolves_to(self@, spec@, opt_view(r)),
    {
        proof {
            use_type_invariant(self);
        }
        let ghost e = entries_of(self.packages@);
        proof {
            lemma_map_of_entries(e);
        }
        let s = chars_of(spec);
        let mut best: Option<usize> = None;
        let mut i: usize = 0;
        while i < self.packages.len()
            invariant
                i <= self.packages@.len(),
                e == entries_of(self.packages@),
                s@ == spec@,
                match best {
                    None => forall|k: int| 0 <= k < i ==> !names_package(e[k].0, spec@),
                    Some(b) => b < i && names_package(e[b as int].0, spec@) && forall|k: int|
                        0 <= k < i && names_package(e[k].0, spec@) ==> e[k].0.len() <= e[b as int].0.len(),
                },
            decreases self.packages@.len() - i,
        {
            let name = chars_of(self.packages[i].0.as_str());
            if names(&name, &s) {
                let longer = match best {
                    None => true,
                    Some(b) => self.packages[i].0.as_str().unicode_len() > self.packages[b].0.as_str().unicode_len(),
                };
                if longer {
                    best = Some(i);
                }
            }
            i = i + 1;
        }
        match best {
            None => {
                proof {
                    assert forall|n: Seq<char>| #[trigger] self@.dom().contains(n) implies !names_package(n, spec@) by {
                        let k = choose|k: int| 0 <= k < e.len() && e[k].0 == n;
                    }
                }
                None
            },
            Some(b) => {
                let name = chars_of(self.packages[b].0.as_str());
                let dir = chars_of(self.packages[b].1.as_str());
                let rest = slice(&s, name.len(), s.len());
                let suffix = trim_leading_slashes(&rest);
                let target = if suffix.len() == 0 {
                    join_path(&dir, &lit("src/index"))
                } else {
                    join_path(&join_path(&dir, &lit("src")), &suffix)
                };
                proof {
                    let n = e[b as int].0;
                    assert(self@[n] == e[b as int].1);
                    assert forall|o: Seq<char>| #[trigger] self@.dom().contains(o) && names_package(o, spec@) implies o.len() <= n.len() by {
                        let k = choose|k: int| 0 <= k < e.len() && e[k].0 == o;
                    }
                    assert(best_package(self@, spec@, n));
                    assert(rest@ =~= spec@.skip(n.len() as int));
                }
                Some(string_of(&target))
            },
        }
    }
}

/// The directory names that the search for workspace packages does not enter.
pub open spec fn workspace_skip(name: Seq<char>) -> bool {
    name == "node_modules"@ || name == "target"@ || name == ".git"@
}

/// Whether the search for workspace packages skips an entry of this name.
pub fn skipped_in_search(name: &str) -> (r: bool)
    ensures
        r == workspace_skip(name@),
{
    let n = chars_of(name);
    chars_equal(&n, &lit("node_modules")) || chars_equal(&n, &lit("target")) || chars_equal(&n, &lit(".git"))
}

/// The text of an optional string.
pub open spec fn opt_view(o: Option<String>) -> Option<Seq<char>> {
    match o {
        Some(s) => Some(s@),
        None => None,
    }
}

/// Whether `spec` names the package `name`.
fn names(name: &Vec<char>, spec: &Vec<char>) -> (r: bool)
    ensures
        r == names_package(name@, spec@),
{
    if chars_equal(name, spec) {
        return true;
    }
    let mut prefix = crate::text::copy(name);
    prefix.push('/');
    assert(prefix@ =~= name@ + "/"@) by {
        reveal_strlit("/");
    }
    matches_at(spec, &prefix, 0)
}

fn trim_leading_slashes(s: &Vec<char>) -> (r: Vec<char>)
    ensures
        r@ == trim_slashes(s@),
{
    let mut start: usize = 0;
    assert(s@.skip(0) =~= s@);
    while start < s.len() && s[start] == '/'
        invariant
            start <= s@.len(),
            trim_slashes(s@) == trim_slashes(s@.skip(start as int)),
        decreases s@.len() - start,
    {
        proof {
            assert(s@.skip(start as int).drop_first() =~= s@.skip(start + 1));
        }
        start = start + 1;
    }
    slice(s, start, s.len())
}

proof fn lemma_named_prefix(n: Seq<char>, spec: Seq<char>)
    requires
        names_package(n, spec),
    ensures
        n.len() <= spec.len(),
        n =~= spec.subrange(0, n.len() as int),
{
    if spec != n {
        let p = n + "/"@;
        assert(spec.subrange(0, p.len() as int) == p);
        assert(spec.subrange(0, n.len() as int) =~= spec.subrange(0, p.len() as int).subrange(0, n.len() as int));
        assert(p.subrange(0, n.len() as int) =~= n);
    }
}

/// Importing a package by its exact name leads to its `src/index`.
pub proof fn lemma_own_name_resolves(m: Map<Seq<char>, Seq<char>>, name: Seq<char>)
    requires
        m.dom().contains(name),
    ensures
        resolves_to(m, name, Some(path_join(m[name], "src/index"@))),
{
    assert forall|o: Seq<char>| #[trigger] m.dom().contains(o) && names_package(o, name) implies o.len() <= name.len() by {
        lemma_named_prefix(o, name);
    }
    assert(best_package(m, name, name));
    assert(name.skip(name.len() as int) =~= Seq::<char>::empty());
    assert(trim_slashes(Seq::<char>::empty()) == Seq::<char>::empty());
}

/// Two package names that an import both names, and that differ, differ in length.
pub proof fn lemma_best_package_unique(m: Map<Seq<char>, Seq<char>>, spec: Seq<char>, a: Seq<char>, b: Seq<char>)
    requires
        best_package(m, spec, a),
        best_package(m, spec, b),
    ensures
        a == b,
{
    assert(a.len() == b.len());
    lemma_named_prefix(a, spec);
    lemma_named_prefix(b, spec);
    assert(a =~= spec.subrange(0, a.len() as int));
    assert(b =~= spec.subrange(0, b.len() as int));
}

} // verus!
