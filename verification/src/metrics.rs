//! Architecture metrics: orphans, unreachable candidates, hubs, large modules, health.
use vstd::prelude::*;
use crate::framework::{declaration_path, is_declaration};
use crate::names::{count_edges, count_into, count_out_of, name_pairs, number_names, reached_by_name, reached_names};
use crate::order::distinct;
use crate::report::{listed_in, texts, AnalysisReport};
use crate::rules::RulesConfig;
use crate::text::{chars_equal, chars_less, chars_of, concat, has_prefix, lemma_seq_lt_asymmetric, lemma_seq_lt_irreflexive, lemma_seq_lt_total, lemma_seq_lt_transitive, lit, seq_lt, slice, split, split_on, starts_with, string_of};

verus! {

/// Fan-in and fan-out of one module.
#[derive(Debug)]
pub struct ModuleMetric {
    pub module: String,
    pub fan_in: usize,
    pub fan_out: usize,
}

/// The line count of one module.
#[derive(Debug)]
pub struct ModuleComplexity {
    pub module: String,
    pub lines: usize,
}

/// The deductions that make up the health score.
#[derive(Debug)]
pub struct ScorePenalties {
    pub cycles: usize,
    pub unused_candidates: usize,
    pub large_modules: usize,
}

/// The metrics of a report.
#[derive(Debug)]
pub struct ArchitectureMetrics {
    pub orphan_modules: Vec<String>,
    pub dead_candidates: Vec<String>,
    pub hubs: Vec<ModuleMetric>,
    pub large_modules: Vec<ModuleComplexity>,
    pub health_score: u8,
    pub entry_points: Vec<String>,
    pub reachability_mode: String,
    pub score_penalties: ScorePenalties,
}

/// Why metrics cannot be computed.
#[derive(Debug)]
pub enum MetricsError {
    /// A configured entry point that is not one of the scanned modules.
    MissingEntryPoint(String),
}

impl MetricsError {
    /// The explanation shown for the error.
    pub fn message(&self) -> (m: String)
        ensures
            m@ == match self {
                MetricsError::MissingEntryPoint(e) => "entry point '"@ + e@
                    + "' is missing, ignored, or not a supported source file"@,
            },
    {
        match self {
            MetricsError::MissingEntryPoint(e) => {
                let mut m = concat("entry point '", e.as_str());
                m.append("' is missing, ignored, or not a supported source file");
                m
            },
        }
    }
}

/// The lines of a module at which it counts as large.
pub open spec fn large_threshold() -> nat {
    300
}

/// The fan-in or fan-out at which a module counts as a hub.
pub open spec fn hub_threshold() -> nat {
    5
}

/// `s` without its leading `./` prefixes.
pub open spec fn trimmed(s: Seq<char>) -> Seq<char>
    decreases s.len(),
{
    if s.len() >= 2 && s[0] == '.' && s[1] == '/' {
        trimmed(s.skip(2))
    } else {
        s
    }
}

pub fn trim_dot_slash(s: &Vec<char>) -> (r: Vec<char>)
    ensures
        r@ == trimmed(s@),
{
    let mut start: usize = 0;
    assert(s@.skip(0) =~= s@);
    while start < s.len() && start + 1 < s.len() && s[start] == '.' && s[start + 1] == '/'
        invariant
            start <= s@.len(),
            trimmed(s@) == trimmed(s@.skip(start as int)),
        decreases s@.len() - start,
    {
        proof {
            assert(s@.skip(start as int).skip(2) =~= s@.skip(start + 2));
        }
        start = start + 2;
    }
    proof {
        assert(s@.skip(start as int).len() < 2 || s@.skip(start as int)[0] != '.' || s@.skip(
            start as int,
        )[1] != '/');
    }
    slice(s, start, s.len())
}

/// The file name (last `/` part) begins with `main.`, `index.`, `app.` or `App.`.
pub open spec fn heuristic_entry(path: Seq<char>) -> bool {
    let name = split_on(path, '/').last();
    has_prefix(name, "main."@) || has_prefix(name, "index."@) || has_prefix(name, "app."@)
        || has_prefix(name, "App."@)
}

pub fn is_entrypoint(path: &str) -> (r: bool)
    ensures
        r == heuristic_entry(path@),
{
    let c = chars_of(path);
    let parts = split(&c, '/');
    proof {
        crate::text::lemma_split_nonempty(c@, '/');
    }
    let name = &parts[parts.len() - 1];
    starts_with(name, &lit("main.")) || starts_with(name, &lit("index.")) || starts_with(
        name,
        &lit("app."),
    ) || starts_with(name, &lit("App."))
}

/// The distinct texts of `items`, in increasing order.
pub fn sorted_unique(items: &Vec<Vec<char>>) -> (r: Vec<Vec<char>>)
    ensures
        forall|x: Seq<char>| #[trigger] texts_of(r@).contains(x) <==> texts_of(items@).contains(x),
        forall|i: int, j: int|
            0 <= i < j < r@.len() ==> seq_lt((#[trigger] r@[i])@, (#[trigger] r@[j])@),
{
    let mut r: Vec<Vec<char>> = Vec::new();
    let mut i: usize = 0;
    while i < items.len()
        invariant
            i <= items@.len(),
            forall|x: Seq<char>| #[trigger] texts_of(r@).contains(x) <==> texts_of(items@.subrange(0, i as int)).contains(x),
            forall|a: int, b: int| 0 <= a < b < r@.len() ==> seq_lt((#[trigger] r@[a])@, (#[trigger] r@[b])@),
        decreases items@.len() - i,
    {
        let x = &items[i];
        let mut p: usize = 0;
        while p < r.len() && chars_less(&r[p], x)
            invariant
                p <= r@.len(),
                forall|k: int| 0 <= k < p ==> seq_lt((#[trigger] r@[k])@, x@),
            decreases r@.len() - p,
        {
            p = p + 1;
        }
        let ghost before = r@;
        proof {
            assert(texts_of(items@.subrange(0, i + 1)) =~= texts_of(items@.subrange(0, i as int)).push(x@));
            assert forall|y: Seq<char>| texts_of(items@.subrange(0, i + 1)).contains(y) <==> texts_of(items@.subrange(0, i as int)).contains(y) || y == x@ by {
                crate::order::lemma_push_contains(texts_of(items@.subrange(0, i as int)), x@, y);
            }
        }
        if p < r.len() && chars_equal(&r[p], x) {
            proof {
                assert(texts_of(r@)[p as int] == x@);
            }
        } else {
            proof {
                if p < before.len() {
                    lemma_seq_lt_total(before[p as int]@, x@);
                }
            }
            r.insert(p, crate::text::copy(x));
            proof {
                assert forall|a: int, b: int| 0 <= a < b < r@.len() implies seq_lt((#[trigger] r@[a])@, (#[trigger] r@[b])@) by {
                    if b == p {
                        assert(r@[a] == before[a]);
                    } else if a == p {
                        assert(r@[b] == before[b - 1]);
                        if b - 1 > p {
                            lemma_seq_lt_transitive(x@, before[p as int]@, before[b - 1]@);
                        }
                    } else if a < p && b > p {
                        assert(r@[b] == before[b - 1]);
                        assert(r@[a] == before[a]);
                    } else if a < p {
                        assert(r@[b] == before[b]);
                        assert(r@[a] == before[a]);
                    } else {
                        assert(r@[b] == before[b - 1]);
                        assert(r@[a] == before[a - 1]);
                    }
                }
                assert(texts_of(r@) =~= texts_of(before).insert(p as int, x@));
                assert forall|y: Seq<char>| texts_of(r@).contains(y) <==> texts_of(before).contains(y) || y == x@ by {
                    let tr = texts_of(r@);
                    let tb = texts_of(before);
                    if tr.contains(y) {
                        let k = choose|k: int| 0 <= k < tr.len() && tr[k] == y;
                        if k < p {
                            assert(tb[k] == y);
                        } else if k > p {
                            assert(tb[k - 1] == y);
                        }
                    }
                    if tb.contains(y) {
                        let k = choose|k: int| 0 <= k < tb.len() && tb[k] == y;
                        if k < p {
                            assert(tr[k] == y);
                        } else {
                            assert(tr[k + 1] == y);
                        }
                    }
                    if y == x@ {
                        assert(tr[p as int] == y);
                    }
                }
            }
        }
        proof {
            assert forall|y: Seq<char>| #[trigger] texts_of(r@).contains(y) <==> texts_of(items@.subrange(0, i + 1)).contains(y) by {
                assert(texts_of(before).contains(y) <==> texts_of(items@.subrange(0, i as int)).contains(y));
                if p < before.len() && before[p as int]@ == x@ {
                    assert(r@ == before);
                    assert(texts_of(before)[p as int] == x@);
                }
            }
        }
        i = i + 1;
    }
    assert(items@.subrange(0, items@.len() as int) =~= items@);
    r
}

/// The character views of a list of character vectors.
pub open spec fn texts_of(v: Seq<Vec<char>>) -> Seq<Seq<char>> {
    v.map_values(|c: Vec<char>| c@)
}

/// The indices of `items` whose flag is set, in order: `items.filter(pred)` by position.
fn select<T>(flags: &Vec<bool>, items: Ghost<Seq<T>>, pred: Ghost<spec_fn(T) -> bool>) -> (sel: Vec<usize>)
    requires
        flags@.len() == items@.len(),
        forall|i: int| 0 <= i < flags@.len() ==> #[trigger] flags@[i] == (pred@)(items@[i]),
    ensures
        forall|k: int| 0 <= k < sel@.len() ==> #[trigger] sel@[k] < items@.len(),
        forall|a: int, b: int| 0 <= a < b < sel@.len() ==> #[trigger] sel@[a] < #[trigger] sel@[b],
        sel@.map_values(|i: usize| items@[i as int]) == items@.filter(pred@),
{
    let mut sel: Vec<usize> = Vec::new();
    let mut i: usize = 0;
    while i < flags.len()
        invariant
            i <= flags@.len(),
            flags@.len() == items@.len(),
            forall|i: int| 0 <= i < flags@.len() ==> #[trigger] flags@[i] == (pred@)(items@[i]),
            forall|k: int| 0 <= k < sel@.len() ==> #[trigger] sel@[k] < i,
            forall|a: int, b: int| 0 <= a < b < sel@.len() ==> #[trigger] sel@[a] < #[trigger] sel@[b],
            sel@.map_values(|j: usize| items@[j as int]) == items@.subrange(0, i as int).filter(pred@),
        decreases flags@.len() - i,
    {
        proof {
            let next = items@.subrange(0, i + 1);
            assert(next.drop_last() =~= items@.subrange(0, i as int));
            reveal_with_fuel(Seq::filter, 1);
        }
        if flags[i] {
            sel.push(i);
            assert(sel@.map_values(|j: usize| items@[j as int]) =~= items@.subrange(0, i as int).filter(pred@).push(items@[i as int]));
        }
        i = i + 1;
    }
    assert(items@.subrange(0, flags@.len() as int) =~= items@);
    sel
}

/// `a` comes before `b` when sorting by descending key, keeping the original order on ties.
pub open spec fn desc_before(keys: Seq<u128>, a: usize, b: usize) -> bool {
    keys[a as int] > keys[b as int] || (keys[a as int] == keys[b as int] && a < b)
}

/// `perm` lists the indices of `keys` in descending key order, ties in index order.
pub open spec fn stable_desc(keys: Seq<u128>, perm: Seq<usize>) -> bool {
    &&& perm.len() == keys.len()
    &&& forall|k: int| 0 <= k < perm.len() ==> #[trigger] perm[k] < keys.len()
    &&& forall|x: usize| x < keys.len() ==> #[trigger] perm.contains(x)
    &&& forall|i: int, j: int| 0 <= i < j < perm.len() ==> desc_before(keys, #[trigger] perm[i], #[trigger] perm[j])
}

/// A stable sort by descending key, as a permutation of indices.
pub fn stable_desc_order(keys: &Vec<u128>) -> (perm: Vec<usize>)
    ensures
        stable_desc(keys@, perm@),
{
    let mut perm: Vec<usize> = Vec::new();
    let mut i: usize = 0;
    while i < keys.len()
        invariant
            i <= keys@.len(),
            perm@.len() == i,
            forall|k: int| 0 <= k < perm@.len() ==> #[trigger] perm@[k] < i,
            forall|x: usize| x < i ==> #[trigger] perm@.contains(x),
            forall|a: int, b: int| 0 <= a < b < perm@.len() ==> desc_before(keys@, #[trigger] perm@[a], #[trigger] perm@[b]),
        decreases keys@.len() - i,
    {
        let mut p: usize = 0;
        while p < perm.len() && keys[perm[p]] >= keys[i]
            invariant
                p <= perm@.len(),
                i < keys@.len(),
                forall|k: int| 0 <= k < perm@.len() ==> #[trigger] perm@[k] < i,
                forall|k: int| 0 <= k < p ==> keys@[#[trigger] perm@[k] as int] >= keys@[i as int],
            decreases perm@.len() - p,
        {
            p = p + 1;
        }
        let ghost before = perm@;
        perm.insert(p, i);
        proof {
            assert forall|a: int, b: int| 0 <= a < b < perm@.len() implies desc_before(keys@, #[trigger] perm@[a], #[trigger] perm@[b]) by {
                if b == p {
                    assert(perm@[a] == before[a]);
                } else if a == p {
                    assert(perm@[b] == before[b - 1]);
                    if b - 1 > p {
                        assert(desc_before(keys@, before[p as int], before[b - 1]));
                    }
                } else if a < p && b > p {
                    assert(perm@[b] == before[b - 1]);
                    assert(perm@[a] == before[a]);
                } else if a < p {
                    assert(perm@[b] == before[b]);
                    assert(perm@[a] == before[a]);
                } else {
                    assert(perm@[b] == before[b - 1]);
                    assert(perm@[a] == before[a - 1]);
                }
            }
            assert forall|x: usize| x < i + 1 implies #[trigger] perm@.contains(x) by {
                if x == i {
                    assert(perm@[p as int] == x);
                } else {
                    assert(before.contains(x));
                    let k = choose|k: int| 0 <= k < before.len() && before[k] == x;
                    if k < p {
                        assert(perm@[k] == x);
                    } else {
                        assert(perm@[k + 1] == x);
                    }
                }
            }
        }
        i = i + 1;
    }
    perm
}

/// `a` comes before `b` when sorting by descending line count, then by name.
pub open spec fn large_before(lines: Seq<usize>, names: Seq<Seq<char>>, a: usize, b: usize) -> bool {
    lines[a as int] > lines[b as int] || (lines[a as int] == lines[b as int] && seq_lt(
        names[a as int],
        names[b as int],
    ))
}

/// Indices in descending line order, ties by name.
fn large_order(lines: &Vec<usize>, names: &Vec<Vec<char>>) -> (perm: Vec<usize>)
    requires
        lines@.len() == names@.len(),
        distinct(texts_of(names@)),
    ensures
        perm@.len() == lines@.len(),
        forall|k: int| 0 <= k < perm@.len() ==> #[trigger] perm@[k] < lines@.len(),
        forall|x: usize| x < lines@.len() ==> #[trigger] perm@.contains(x),
        forall|i: int, j: int|
            0 <= i < j < perm@.len() ==> large_before(
                lines@,
                texts_of(names@),
                #[trigger] perm@[i],
                #[trigger] perm@[j],
            ),
{
    let ghost tn = texts_of(names@);
    let mut perm: Vec<usize> = Vec::new();
    let mut i: usize = 0;
    while i < lines.len()
        invariant
            i <= lines@.len(),
            lines@.len() == names@.len(),
            tn == texts_of(names@),
            distinct(tn),
            perm@.len() == i,
            forall|k: int| 0 <= k < perm@.len() ==> #[trigger] perm@[k] < i,
            forall|x: usize| x < i ==> #[trigger] perm@.contains(x),
            forall|a: int, b: int| 0 <= a < b < perm@.len() ==> large_before(lines@, tn, #[trigger] perm@[a], #[trigger] perm@[b]),
        decreases lines@.len() - i,
    {
        let mut p: usize = 0;
        while p < perm.len() && (lines[perm[p]] > lines[i] || (lines[perm[p]] == lines[i] && chars_less(&names[perm[p]], &names[i])))
            invariant
                p <= perm@.len(),
                i < lines@.len(),
                lines@.len() == names@.len(),
                tn == texts_of(names@),
                forall|k: int| 0 <= k < perm@.len() ==> #[trigger] perm@[k] < i,
                forall|k: int| 0 <= k < p ==> large_before(lines@, tn, #[trigger] perm@[k], i),
            decreases perm@.len() - p,
        {
            p = p + 1;
        }
        let ghost before = perm@;
        proof {
            if p < before.len() {
                let o = before[p as int];
                assert(o != i);
                assert(tn[o as int] != tn[i as int]);
                lemma_seq_lt_total(tn[o as int], tn[i as int]);
                assert(large_before(lines@, tn, i, o));
            }
        }
        perm.insert(p, i);
        proof {
            assert forall|a: int, b: int| 0 <= a < b < perm@.len() implies large_before(lines@, tn, #[trigger] perm@[a], #[trigger] perm@[b]) by {
                if b == p {
                    assert(perm@[a] == before[a]);
                } else if a == p {
                    assert(perm@[b] == before[b - 1]);
                    if b - 1 > p {
                        let o = before[p as int];
                        let w = before[b - 1];
                        assert(large_before(lines@, tn, o, w));
                        if lines@[i as int] == lines@[o as int] && lines@[o as int] == lines@[w as int] {
                            lemma_seq_lt_transitive(tn[i as int], tn[o as int], tn[w as int]);
                        }
                    }
                } else if a < p && b > p {
                    assert(perm@[b] == before[b - 1]);
                    assert(perm@[a] == before[a]);
                } else if a < p {
                    assert(perm@[b] == before[b]);
                    assert(perm@[a] == before[a]);
                } else {
                    assert(perm@[b] == before[b - 1]);
                    assert(perm@[a] == before[a - 1]);
                }
            }
            assert forall|x: usize| x < i + 1 implies #[trigger] perm@.contains(x) by {
                if x == i {
                    assert(perm@[p as int] == x);
                } else {
                    assert(before.contains(x));
                    let k = choose|k: int| 0 <= k < before.len() && before[k] == x;
                    if k < p {
                        assert(perm@[k] == x);
                    } else {
                        assert(perm@[k + 1] == x);
                    }
                }
            }
        }
        i = i + 1;
    }
    perm
}

/// `x` is one of the configured entry points, without its leading `./`.
pub open spec fn configured_entry(entries: Seq<String>, x: Seq<char>) -> bool {
    exists|i: int| #![trigger entries[i]] 0 <= i < entries.len() && trimmed(entries[i]@) == x
}

/// The configured entry points, trimmed, each once, in increasing order.
fn configured_entries(config: &RulesConfig) -> (r: Vec<Vec<char>>)
    ensures
        forall|x: Seq<char>| #[trigger] texts_of(r@).contains(x) <==> configured_entry(config.entry_points@, x),
        forall|i: int, j: int|
            0 <= i < j < r@.len() ==> seq_lt((#[trigger] r@[i])@, (#[trigger] r@[j])@),
{
    let mut trimmed_all: Vec<Vec<char>> = Vec::new();
    let mut i: usize = 0;
    while i < config.entry_points.len()
        invariant
            i <= config.entry_points@.len(),
            trimmed_all@.len() == i,
            forall|k: int| 0 <= k < i ==> (#[trigger] trimmed_all@[k])@ == trimmed(config.entry_points@[k]@),
        decreases config.entry_points@.len() - i,
    {
        let c = chars_of(config.entry_points[i].as_str());
        trimmed_all.push(trim_dot_slash(&c));
        i = i + 1;
    }
    let r = sorted_unique(&trimmed_all);
    proof {
        assert forall|x: Seq<char>| #[trigger] texts_of(r@).contains(x) <==> configured_entry(config.entry_points@, x) by {
            let t = texts_of(trimmed_all@);
            if t.contains(x) {
                let k = choose|k: int| 0 <= k < t.len() && t[k] == x;
                assert(trimmed(config.entry_points@[k]@) == x);
            }
            if configured_entry(config.entry_points@, x) {
                let k = choose|k: int| #![trigger config.entry_points@[k]] 0 <= k < config.entry_points@.len() && trimmed(config.entry_points@[k]@) == x;
                assert(t[k] == x);
            }
        }
    }
    r
}

/// The position of `x` among `items`.
fn position(items: &Vec<Vec<char>>, x: &Vec<char>) -> (r: Option<usize>)
    ensures
        r matches Some(i) ==> i < items@.len() && items@[i as int]@ == x@,
        r is None ==> !texts_of(items@).contains(x@),
{
    let mut i: usize = 0;
    while i < items.len()
        invariant
            i <= items@.len(),
            forall|k: int| 0 <= k < i ==> (#[trigger] items@[k])@ != x@,
        decreases items@.len() - i,
    {
        if chars_equal(&items[i], x) {
            return Some(i);
        }
        i = i + 1;
    }
    proof {
        if texts_of(items@).contains(x@) {
            let k = choose|k: int| 0 <= k < items@.len() && texts_of(items@)[k] == x@;
            assert(items@[k]@ == x@);
        }
    }
    None
}

/// The modules listed in some cycle group.
pub open spec fn cycle_members(cycles: Seq<Vec<String>>) -> Set<Seq<char>> {
    Set::new(|x: Seq<char>| listed_in(cycles, x))
}

/// The number of distinct modules over all cycle groups.
fn count_cycle_members(cycles: &Vec<Vec<String>>) -> (n: usize)
    ensures
        n == cycle_members(cycles@).len(),
        cycle_members(cycles@).finite(),
{
    let mut seen: Vec<Vec<char>> = Vec::new();
    let mut m: usize = 0;
    while m < cycles.len()
        invariant
            m <= cycles@.len(),
            distinct(texts_of(seen@)),
            forall|x: Seq<char>| #[trigger] texts_of(seen@).contains(x) <==> listed_in(cycles@.subrange(0, m as int), x),
        decreases cycles@.len() - m,
    {
        let group = &cycles[m];
        let mut j: usize = 0;
        while j < group.len()
            invariant
                m < cycles@.len(),
                group@ == cycles@[m as int]@,
                j <= group@.len(),
                distinct(texts_of(seen@)),
                forall|x: Seq<char>| #[trigger] texts_of(seen@).contains(x) <==> listed_in(cycles@.subrange(0, m as int), x)
                    || exists|q: int| #![trigger group@[q]] 0 <= q < j && group@[q]@ == x,
            decreases group@.len() - j,
        {
            let c = chars_of(group[j].as_str());
            let ghost before = texts_of(seen@);
            let found = position(&seen, &c);
            if found.is_none() {
                seen.push(c);
                proof {
                    let after = texts_of(seen@);
                    assert(after =~= before.push(group@[j as int]@));
                    assert forall|a: int, b: int| 0 <= a < after.len() && 0 <= b < after.len() && a != b implies after[a] != after[b] by {
                        if a < before.len() && b < before.len() {
                        } else if a < before.len() {
                            assert(before.contains(after[a]));
                        } else {
                            assert(before.contains(after[b]));
                        }
                    }
                }
            }
            proof {
                assert forall|x: Seq<char>| #[trigger] texts_of(seen@).contains(x) <==> listed_in(cycles@.subrange(0, m as int), x)
                    || exists|q: int| #![trigger group@[q]] 0 <= q < j + 1 && group@[q]@ == x by {
                    crate::order::lemma_push_contains(before, c@, x);
                    if x == c@ {
                        assert(group@[j as int]@ == x);
                    }
                    if exists|q: int| #![trigger group@[q]] 0 <= q < j + 1 && group@[q]@ == x {
                        let q = choose|q: int| #![trigger group@[q]] 0 <= q < j + 1 && group@[q]@ == x;
                        if q < j {
                        } else {
                            assert(x == c@);
                            if found.is_some() {
                                let i = found.unwrap();
                                assert(before[i as int] == x);
                            }
                        }
                    }
                    if found.is_none() {
                        assert(texts_of(seen@) == before.push(c@));
                    } else {
                        assert(texts_of(seen@) == before);
                    }
                }
            }
            j = j + 1;
        }
        proof {
            assert forall|x: Seq<char>| #[trigger] texts_of(seen@).contains(x) <==> listed_in(cycles@.subrange(0, m + 1), x) by {
                let prev = cycles@.subrange(0, m as int);
                let next = cycles@.subrange(0, m + 1);
                if listed_in(next, x) {
                    let (a, b) = choose|a: int, b: int| #![trigger next[a]@[b]] 0 <= a < next.len() && 0 <= b < next[a]@.len() && next[a]@[b]@ == x;
                    if a < m {
                        assert(prev[a] == next[a]);
                        assert(listed_in(prev, x));
                    } else {
                        assert(group@[b]@ == x);
                    }
                }
                if listed_in(prev, x) {
                    let (a, b) = choose|a: int, b: int| #![trigger prev[a]@[b]] 0 <= a < prev.len() && 0 <= b < prev[a]@.len() && prev[a]@[b]@ == x;
                    assert(next[a] == prev[a]);
                }
                if exists|q: int| #![trigger group@[q]] 0 <= q < group@.len() && group@[q]@ == x {
                    let q = choose|q: int| #![trigger group@[q]] 0 <= q < group@.len() && group@[q]@ == x;
                    assert(next[m as int]@[q]@ == x);
                }
            }
        }
        m = m + 1;
    }
    proof {
        assert(cycles@.subrange(0, cycles@.len() as int) =~= cycles@);
        let t = texts_of(seen@);
        assert(t.no_duplicates());
        t.unique_seq_to_set();
        assert(t.to_set() =~= cycle_members(cycles@));
        vstd::seq_lib::seq_to_set_is_finite(t);
    }
    seen.len()
}

/// A hub: many imports in or out.
pub open spec fn is_hub(g: Seq<(Seq<char>, Seq<char>)>, x: Seq<char>) -> bool {
    count_into(g, x) >= hub_threshold() || count_out_of(g, x) >= hub_threshold()
}

/// The hub ordering key: fan-in plus fan-out.
pub open spec fn hub_key(g: Seq<(Seq<char>, Seq<char>)>, x: Seq<char>) -> u128 {
    (count_into(g, x) + count_out_of(g, x)) as u128
}

/// The hub keys of the candidates.
pub open spec fn hub_keys(g: Seq<(Seq<char>, Seq<char>)>, cands: Seq<Seq<char>>) -> Seq<u128> {
    cands.map_values(|x: Seq<char>| hub_key(g, x))
}

/// `hubs` lists the hub modules among `nodes` with their counts, by descending
/// fan-in plus fan-out, ties in module order.
pub open spec fn hubs_ordered(
    g: Seq<(Seq<char>, Seq<char>)>,
    nodes: Seq<Seq<char>>,
    hubs: Seq<ModuleMetric>,
) -> bool {
    let cands = nodes.filter(|x: Seq<char>| is_hub(g, x));
    exists|perm: Seq<usize>|
        #[trigger] stable_desc(hub_keys(g, cands), perm) && hubs.len()
            == cands.len() && forall|k: int|
            0 <= k < hubs.len() ==> (#[trigger] hubs[k]).module@ == cands[perm[k] as int]
                && hubs[k].fan_in == count_into(g, cands[perm[k] as int]) && hubs[k].fan_out
                == count_out_of(g, cands[perm[k] as int])
}

fn hub_list(
    nodes: &Vec<String>,
    fan_in: &Vec<usize>,
    fan_out: &Vec<usize>,
    g: Ghost<Seq<(Seq<char>, Seq<char>)>>,
) -> (hubs: Vec<ModuleMetric>)
    requires
        fan_in@.len() == nodes@.len(),
        fan_out@.len() == nodes@.len(),
        forall|i: int| 0 <= i < nodes@.len() ==> #[trigger] fan_in@[i] == count_into(g@, nodes@[i]@),
        forall|i: int| 0 <= i < nodes@.len() ==> #[trigger] fan_out@[i] == count_out_of(g@, nodes@[i]@),
    ensures
        hubs_ordered(g@, texts(nodes@), hubs@),
{
    let ghost names = texts(nodes@);
    let ghost pred = |x: Seq<char>| is_hub(g@, x);
    let mut flags: Vec<bool> = Vec::new();
    let mut i: usize = 0;
    while i < nodes.len()
        invariant
            i <= nodes@.len(),
            names == texts(nodes@),
            pred == (|x: Seq<char>| is_hub(g@, x)),
            fan_in@.len() == nodes@.len(),
            fan_out@.len() == nodes@.len(),
            forall|i: int| 0 <= i < nodes@.len() ==> #[trigger] fan_in@[i] == count_into(g@, nodes@[i]@),
            forall|i: int| 0 <= i < nodes@.len() ==> #[trigger] fan_out@[i] == count_out_of(g@, nodes@[i]@),
            flags@.len() == i,
            forall|k: int| 0 <= k < i ==> #[trigger] flags@[k] == pred(names[k]),
        decreases nodes@.len() - i,
    {
        flags.push(fan_in[i] >= 5 || fan_out[i] >= 5);
        i = i + 1;
    }
    let sel = select::<Seq<char>>(&flags, Ghost(names), Ghost(pred));
    let ghost cands = names.filter(pred);
    let mut keys: Vec<u128> = Vec::new();
    let mut k: usize = 0;
    while k < sel.len()
        invariant
            k <= sel@.len(),
            names == texts(nodes@),
            forall|q: int| 0 <= q < sel@.len() ==> #[trigger] sel@[q] < names.len(),
            sel@.map_values(|j: usize| names[j as int]) == cands,
            fan_in@.len() == nodes@.len(),
            fan_out@.len() == nodes@.len(),
            forall|i: int| 0 <= i < nodes@.len() ==> #[trigger] fan_in@[i] == count_into(g@, nodes@[i]@),
            forall|i: int| 0 <= i < nodes@.len() ==> #[trigger] fan_out@[i] == count_out_of(g@, nodes@[i]@),
            keys@.len() == k,
            forall|q: int| 0 <= q < k ==> #[trigger] keys@[q] == hub_key(g@, cands[q]),
        decreases sel@.len() - k,
    {
        let j = sel[k];
        assert(cands[k as int] == names[j as int]);
        keys.push(fan_in[j] as u128 + fan_out[j] as u128);
        k = k + 1;
    }
    let perm = stable_desc_order(&keys);
    let mut hubs: Vec<ModuleMetric> = Vec::new();
    let mut m: usize = 0;
    while m < perm.len()
        invariant
            m <= perm@.len(),
            perm@.len() == keys@.len(),
            keys@.len() == sel@.len(),
            names == texts(nodes@),
            forall|q: int| 0 <= q < perm@.len() ==> #[trigger] perm@[q] < keys@.len(),
            forall|q: int| 0 <= q < sel@.len() ==> #[trigger] sel@[q] < names.len(),
            sel@.map_values(|j: usize| names[j as int]) == cands,
            fan_in@.len() == nodes@.len(),
            fan_out@.len() == nodes@.len(),
            forall|i: int| 0 <= i < nodes@.len() ==> #[trigger] fan_in@[i] == count_into(g@, nodes@[i]@),
            forall|i: int| 0 <= i < nodes@.len() ==> #[trigger] fan_out@[i] == count_out_of(g@, nodes@[i]@),
            hubs@.len() == m,
            forall|q: int| 0 <= q < m ==> (#[trigger] hubs@[q]).module@ == cands[perm@[q] as int]
                && hubs@[q].fan_in == count_into(g@, cands[perm@[q] as int]) && hubs@[q].fan_out
                == count_out_of(g@, cands[perm@[q] as int]),
        decreases perm@.len() - m,
    {
        let j = sel[perm[m]];
        assert(cands[perm@[m as int] as int] == names[j as int]);
        hubs.push(ModuleMetric { module: nodes[j].clone(), fan_in: fan_in[j], fan_out: fan_out[j] });
        m = m + 1;
    }
    proof {
        assert(keys@ =~= hub_keys(g@, cands));
        assert(pred == (|x: Seq<char>| is_hub(g@, x)));
        assert(stable_desc(hub_keys(g@, cands), perm@));
    }
    hubs
}

/// A large module entry: at least the threshold of lines.
pub open spec fn is_large(p: (String, usize)) -> bool {
    p.1 >= large_threshold()
}

/// `perm` orders the indices by descending count, then by name.
pub open spec fn large_perm(counts: Seq<usize>, names: Seq<Seq<char>>, perm: Seq<usize>) -> bool {
    &&& perm.len() == counts.len()
    &&& forall|k: int| 0 <= k < perm.len() ==> #[trigger] perm[k] < counts.len()
    &&& forall|x: usize| x < counts.len() ==> #[trigger] perm.contains(x)
    &&& forall|i: int, j: int|
        0 <= i < j < perm.len() ==> large_before(counts, names, #[trigger] perm[i], #[trigger] perm[j])
}

/// `large` lists the large modules of `lines` by descending line count, ties by name.
pub open spec fn large_ordered(lines: Seq<(String, usize)>, large: Seq<ModuleComplexity>) -> bool {
    let cands = lines.filter(|p: (String, usize)| is_large(p));
    let counts = cands.map_values(|p: (String, usize)| p.1);
    let names = cands.map_values(|p: (String, usize)| p.0@);
    exists|perm: Seq<usize>|
        #[trigger] large_perm(counts, names, perm) && large.len() == cands.len() && forall|k: int|
            0 <= k < large.len() ==> (#[trigger] large[k]).module@ == names[perm[k] as int]
                && large[k].lines == counts[perm[k] as int]
}

fn large_list(lines: &Vec<(String, usize)>) -> (large: Vec<ModuleComplexity>)
    requires
        distinct(lines@.map_values(|p: (String, usize)| p.0@)),
    ensures
        large_ordered(lines@, large@),
{
    let ghost pred = |p: (String, usize)| is_large(p);
    let mut flags: Vec<bool> = Vec::new();
    let mut i: usize = 0;
    while i < lines.len()
        invariant
            i <= lines@.len(),
            pred == (|p: (String, usize)| is_large(p)),
            flags@.len() == i,
            forall|k: int| 0 <= k < i ==> #[trigger] flags@[k] == pred(lines@[k]),
        decreases lines@.len() - i,
    {
        flags.push(lines[i].1 >= 300);
        i = i + 1;
    }
    let sel = select::<(String, usize)>(&flags, Ghost(lines@), Ghost(pred));
    let ghost cands = lines@.filter(pred);
    let ghost counts = cands.map_values(|p: (String, usize)| p.1);
    let ghost cnames = cands.map_values(|p: (String, usize)| p.0@);
    let mut counts_v: Vec<usize> = Vec::new();
    let mut names_v: Vec<Vec<char>> = Vec::new();
    let mut k: usize = 0;
    while k < sel.len()
        invariant
            k <= sel@.len(),
            forall|q: int| 0 <= q < sel@.len() ==> #[trigger] sel@[q] < lines@.len(),
            sel@.map_values(|j: usize| lines@[j as int]) == cands,
            counts == cands.map_values(|p: (String, usize)| p.1),
            cnames == cands.map_values(|p: (String, usize)| p.0@),
            counts_v@.len() == k,
            names_v@.len() == k,
            forall|q: int| 0 <= q < k ==> #[trigger] counts_v@[q] == counts[q],
            forall|q: int| 0 <= q < k ==> (#[trigger] names_v@[q])@ == cnames[q],
        decreases sel@.len() - k,
    {
        let j = sel[k];
        assert(cands[k as int] == lines@[j as int]);
        counts_v.push(lines[j].1);
        names_v.push(chars_of(lines[j].0.as_str()));
        k = k + 1;
    }
    proof {
        assert(counts_v@ =~= counts);
        assert(texts_of(names_v@) =~= cnames);
        let all = lines@.map_values(|p: (String, usize)| p.0@);
        assert forall|a: int, b: int| 0 <= a < cnames.len() && 0 <= b < cnames.len() && a != b implies cnames[a] != cnames[b] by {
            let sa = sel@[a];
            let sb = sel@[b];
            assert(cands[a] == lines@[sa as int] && cands[b] == lines@[sb as int]);
            assert(sa != sb);
            assert(all[sa as int] == cnames[a] && all[sb as int] == cnames[b]);
        }
    }
    let perm = large_order(&counts_v, &names_v);
    let mut large: Vec<ModuleComplexity> = Vec::new();
    let mut m: usize = 0;
    while m < perm.len()
        invariant
            m <= perm@.len(),
            perm@.len() == sel@.len(),
            forall|q: int| 0 <= q < perm@.len() ==> #[trigger] perm@[q] < sel@.len(),
            forall|q: int| 0 <= q < sel@.len() ==> #[trigger] sel@[q] < lines@.len(),
            sel@.map_values(|j: usize| lines@[j as int]) == cands,
            counts == cands.map_values(|p: (String, usize)| p.1),
            cnames == cands.map_values(|p: (String, usize)| p.0@),
            large@.len() == m,
            forall|q: int| 0 <= q < m ==> (#[trigger] large@[q]).module@ == cnames[perm@[q] as int]
                && large@[q].lines == counts[perm@[q] as int],
        decreases perm@.len() - m,
    {
        let j = sel[perm[m]];
        assert(cands[perm@[m as int] as int] == lines@[j as int]);
        large.push(ModuleComplexity { module: lines[j].0.clone(), lines: lines[j].1 });
        m = m + 1;
    }
    proof {
        assert(pred == (|p: (String, usize)| is_large(p)));
        assert(large_perm(counts, cnames, perm@));
    }
    large
}

/// A module with no import in or out.
pub open spec fn is_orphan(g: Seq<(Seq<char>, Seq<char>)>, x: Seq<char>) -> bool {
    count_into(g, x) == 0 && count_out_of(g, x) == 0
}

/// A module nothing imports whose file name does not look like an entry point;
/// declaration files are never candidates.
pub open spec fn heuristic_candidate(g: Seq<(Seq<char>, Seq<char>)>, x: Seq<char>) -> bool {
    count_into(g, x) == 0 && !heuristic_entry(x) && !declaration_path(x)
}

/// A module no entry point reaches, other than a declaration file.
pub open spec fn not_reached(
    g: Seq<(Seq<char>, Seq<char>)>,
    entries: Seq<Seq<char>>,
    x: Seq<char>,
) -> bool {
    !reached_by_name(g, entries, x) && !declaration_path(x)
}

/// The smaller of `a` and `b`.
pub open spec fn min_nat(a: nat, b: nat) -> nat {
    if a < b {
        a
    } else {
        b
    }
}

/// Everything `calculate` reports, given the report and the rules.
pub open spec fn metrics_of(report: AnalysisReport, config: RulesConfig, m: ArchitectureMetrics) -> bool {
    let g = name_pairs(report.edges@);
    let nodes = texts(report.nodes@);
    let entries = texts(m.entry_points@);
    let dead = if entries.len() > 0 {
        nodes.filter(|x: Seq<char>| not_reached(g, entries, x))
    } else {
        nodes.filter(|x: Seq<char>| heuristic_candidate(g, x))
    };
    &&& forall|x: Seq<char>| #[trigger] entries.contains(x) <==> configured_entry(config.entry_points@, x)
    &&& forall|i: int, j: int| 0 <= i < j < entries.len() ==> seq_lt(#[trigger] entries[i], #[trigger] entries[j])
    &&& texts(m.orphan_modules@) == nodes.filter(|x: Seq<char>| is_orphan(g, x))
    &&& m.reachability_mode@ == (if entries.len() > 0 { "explicit"@ } else { "heuristic"@ })
    &&& texts(m.dead_candidates@) == dead
    &&& hubs_ordered(g, nodes, m.hubs@)
    &&& large_ordered(report.lines@, m.large_modules@)
    &&& m.score_penalties.cycles == min_nat(5 * cycle_members(report.cycles@).len(), 45)
    &&& m.score_penalties.unused_candidates == min_nat(dead.len(), 20)
    &&& m.score_penalties.large_modules == min_nat(m.large_modules@.len(), 15)
    &&& m.health_score == 100 - (m.score_penalties.cycles + m.score_penalties.unused_candidates
        + m.score_penalties.large_modules)
}

/// The health score lies between 20 and 100, and it is 100 exactly when no module is on
/// a cycle, none is a reachability candidate and none is large.
pub proof fn lemma_health_bounds(report: AnalysisReport, config: RulesConfig, m: ArchitectureMetrics)
    requires
        metrics_of(report, config, m),
    ensures
        20 <= m.health_score <= 100,
        m.health_score == 100 <==> (cycle_members(report.cycles@).len() == 0
            && m.dead_candidates@.len() == 0 && m.large_modules@.len() == 0),
{
    assert(texts(m.dead_candidates@).len() == m.dead_candidates@.len());
}

/// The table position of each entry point, or the first entry point that is not a node.
fn entry_starts(
    entries: &Vec<Vec<char>>,
    node_chars: &Vec<Vec<char>>,
    node_pos: &Vec<usize>,
    table_len: usize,
) -> (r: Result<Vec<usize>, usize>)
    requires
        node_pos@.len() == node_chars@.len(),
        forall|i: int| 0 <= i < node_pos@.len() ==> #[trigger] node_pos@[i] < table_len,
    ensures
        r matches Ok(starts) ==> starts@.len() == entries@.len() && forall|k: int|
            0 <= k < starts@.len() ==> #[trigger] starts@[k] < table_len && exists|i: int|
                #![trigger node_pos@[i]]
                0 <= i < node_chars@.len() && node_pos@[i] == starts@[k] && node_chars@[i]@
                    == entries@[k]@,
        r matches Ok(starts) ==> forall|k: int| 0 <= k < entries@.len() ==> texts_of(node_chars@).contains(#[trigger] entries@[k]@),
        r matches Err(k) ==> k < entries@.len() && !texts_of(node_chars@).contains(entries@[k as int]@)
            && forall|j: int| 0 <= j < k ==> texts_of(node_chars@).contains(#[trigger] entries@[j]@),
{
    let mut starts: Vec<usize> = Vec::new();
    let mut k: usize = 0;
    while k < entries.len()
        invariant
            k <= entries@.len(),
            node_pos@.len() == node_chars@.len(),
            forall|i: int| 0 <= i < node_pos@.len() ==> #[trigger] node_pos@[i] < table_len,
            starts@.len() == k,
            forall|q: int|
                0 <= q < k ==> #[trigger] starts@[q] < table_len && exists|i: int|
                    #![trigger node_pos@[i]]
                    0 <= i < node_chars@.len() && node_pos@[i] == starts@[q] && node_chars@[i]@
                        == entries@[q]@,
            forall|j: int| 0 <= j < k ==> texts_of(node_chars@).contains(#[trigger] entries@[j]@),
        decreases entries@.len() - k,
    {
        match position(node_chars, &entries[k]) {
            None => {
                return Err(k);
            },
            Some(i) => {
                starts.push(node_pos[i]);
                proof {
                    assert(texts_of(node_chars@)[i as int] == entries@[k as int]@);
                    assert(node_pos@[i as int] == starts@[k as int]);
                }
            },
        }
        k = k + 1;
    }
    Ok(starts)
}

/// The strings of the given character vectors.
fn strings_of(v: &Vec<Vec<char>>) -> (r: Vec<String>)
    ensures
        texts(r@) == texts_of(v@),
{
    let mut r: Vec<String> = Vec::new();
    let mut i: usize = 0;
    while i < v.len()
        invariant
            i <= v@.len(),
            r@.len() == i,
            forall|k: int| 0 <= k < i ==> (#[trigger] r@[k])@ == v@[k]@,
        decreases v@.len() - i,
    {
        r.push(string_of(&v[i]));
        i = i + 1;
    }
    assert(texts(r@) =~= texts_of(v@));
    r
}

/// The nodes at the selected positions, as strings.
fn pick(nodes: &Vec<String>, sel: &Vec<usize>) -> (r: Vec<String>)
    requires
        forall|k: int| 0 <= k < sel@.len() ==> #[trigger] sel@[k] < nodes@.len(),
    ensures
        texts(r@) == sel@.map_values(|j: usize| texts(nodes@)[j as int]),
{
    let mut r: Vec<String> = Vec::new();
    let mut k: usize = 0;
    while k < sel.len()
        invariant
            k <= sel@.len(),
            forall|k: int| 0 <= k < sel@.len() ==> #[trigger] sel@[k] < nodes@.len(),
            r@.len() == k,
            forall|q: int| 0 <= q < k ==> (#[trigger] r@[q])@ == nodes@[sel@[q] as int]@,
        decreases sel@.len() - k,
    {
        r.push(nodes[sel[k]].clone());
        k = k + 1;
    }
    assert(texts(r@) =~= sel@.map_values(|j: usize| texts(nodes@)[j as int]));
    r
}

/// Whether each module has one line count at most, as `calculate` requires.
pub fn counts_distinct(report: &AnalysisReport) -> (r: bool)
    ensures
        r == distinct(report.lines@.map_values(|p: (String, usize)| p.0@)),
{
    let ghost names = report.lines@.map_values(|p: (String, usize)| p.0@);
    let mut i: usize = 0;
    while i < report.lines.len()
        invariant
            i <= report.lines@.len(),
            names == report.lines@.map_values(|p: (String, usize)| p.0@),
            forall|a: int, b: int| 0 <= a < i && 0 <= b < names.len() && a != b ==> names[a] != names[b],
        decreases report.lines@.len() - i,
    {
        let x = chars_of(report.lines[i].0.as_str());
        let mut j: usize = 0;
        while j < report.lines.len()
            invariant
                j <= report.lines@.len(),
                i < report.lines@.len(),
                x@ == names[i as int],
                names == report.lines@.map_values(|p: (String, usize)| p.0@),
                forall|b: int| 0 <= b < j && b != i ==> names[i as int] != names[b],
            decreases report.lines@.len() - j,
        {
            if j != i && chars_equal(&x, &chars_of(report.lines[j].0.as_str())) {
                assert(names[j as int] == names[i as int]);
                return false;
            }
            j = j + 1;
        }
        i = i + 1;
    }
    true
}

/// Computes the architecture metrics of a report under the project's rules.
pub fn calculate(report: &AnalysisReport, config: &RulesConfig) -> (r: Result<ArchitectureMetrics, MetricsError>)
    requires
        distinct(report.lines@.map_values(|p: (String, usize)| p.0@)),
    ensures
        r is Err <==> exists|x: Seq<char>|
            #[trigger] configured_entry(config.entry_points@, x) && !texts(report.nodes@).contains(x),
        r matches Err(MetricsError::MissingEntryPoint(e)) ==> configured_entry(config.entry_points@, e@)
            && !texts(report.nodes@).contains(e@) && forall|x: Seq<char>|
            #[trigger] configured_entry(config.entry_points@, x) && !texts(report.nodes@).contains(x)
                ==> !seq_lt(x, e@),
        r matches Ok(m) ==> metrics_of(*report, *config, m),
{
    let ghost g = name_pairs(report.edges@);
    let ghost nodes = texts(report.nodes@);
    let (table, node_pos, ig) = number_names(&report.nodes, &report.edges);
    let (inc_t, out_t) = count_edges(Ghost(g), &table, &ig);
    let n = report.nodes.len();
    let mut fan_in: Vec<usize> = Vec::new();
    let mut fan_out: Vec<usize> = Vec::new();
    let mut node_chars: Vec<Vec<char>> = Vec::new();
    let mut i: usize = 0;
    while i < n
        invariant
            n == report.nodes@.len(),
            i <= n,
            node_pos@.len() == n,
            inc_t@.len() == table@.len(),
            out_t@.len() == table@.len(),
            forall|j: int| 0 <= j < n ==> (#[trigger] node_pos@[j]) < table@.len() && table@[node_pos@[j] as int]@ == report.nodes@[j]@,
            forall|v: int| 0 <= v < table@.len() ==> #[trigger] inc_t@[v] == count_into(g, table@[v]@),
            forall|v: int| 0 <= v < table@.len() ==> #[trigger] out_t@[v] == count_out_of(g, table@[v]@),
            fan_in@.len() == i,
            fan_out@.len() == i,
            node_chars@.len() == i,
            forall|k: int| 0 <= k < i ==> #[trigger] fan_in@[k] == count_into(g, report.nodes@[k]@),
            forall|k: int| 0 <= k < i ==> #[trigger] fan_out@[k] == count_out_of(g, report.nodes@[k]@),
            forall|k: int| 0 <= k < i ==> (#[trigger] node_chars@[k])@ == report.nodes@[k]@,
        decreases n - i,
    {
        let p = node_pos[i];
        fan_in.push(inc_t[p]);
        fan_out.push(out_t[p]);
        node_chars.push(chars_of(report.nodes[i].as_str()));
        i = i + 1;
    }
    // orphans
    let ghost orphan_pred = |x: Seq<char>| is_orphan(g, x);
    let mut flags: Vec<bool> = Vec::new();
    i = 0;
    while i < n
        invariant
            n == report.nodes@.len(),
            i <= n,
            nodes == texts(report.nodes@),
            orphan_pred == (|x: Seq<char>| is_orphan(g, x)),
            fan_in@.len() == n,
            fan_out@.len() == n,
            forall|k: int| 0 <= k < n ==> #[trigger] fan_in@[k] == count_into(g, report.nodes@[k]@),
            forall|k: int| 0 <= k < n ==> #[trigger] fan_out@[k] == count_out_of(g, report.nodes@[k]@),
            flags@.len() == i,
            forall|k: int| 0 <= k < i ==> #[trigger] flags@[k] == orphan_pred(nodes[k]),
        decreases n - i,
    {
        flags.push(fan_in[i] == 0 && fan_out[i] == 0);
        i = i + 1;
    }
    let sel = select::<Seq<char>>(&flags, Ghost(nodes), Ghost(orphan_pred));
    let orphan_modules = pick(&report.nodes, &sel);
    // entry points
    let entries = configured_entries(config);
    let starts = match entry_starts(&entries, &node_chars, &node_pos, table.len()) {
        Err(k) => {
            proof {
                assert(texts_of(node_chars@) =~= nodes);
                let e = entries@[k as int]@;
                assert(texts_of(entries@)[k as int] == e);
                assert forall|x: Seq<char>|
                    #[trigger] configured_entry(config.entry_points@, x) && !nodes.contains(x) implies !seq_lt(x, e) by {
                    assert(texts_of(entries@).contains(x));
                    let j = choose|j: int| 0 <= j < entries@.len() && texts_of(entries@)[j] == x;
                    if j < k {
                        assert(texts_of(node_chars@).contains(entries@[j]@));
                    } else if j == k {
                        crate::text::lemma_seq_lt_irreflexive(e);
                    } else {
                        assert(seq_lt(entries@[k as int]@, entries@[j]@));
                        lemma_seq_lt_asymmetric(e, x);
                    }
                }
                assert(texts_of(entries@).contains(e));
                assert(configured_entry(config.entry_points@, e));
            }
            return Err(MetricsError::MissingEntryPoint(string_of(&entries[k])));
        },
        Ok(starts) => starts,
    };
    proof {
        assert(texts_of(node_chars@) =~= nodes);
        assert forall|x: Seq<char>| #[trigger] configured_entry(config.entry_points@, x) implies nodes.contains(x) by {
            assert(texts_of(entries@).contains(x));
            let j = choose|j: int| 0 <= j < entries@.len() && texts_of(entries@)[j] == x;
            assert(texts_of(node_chars@).contains(entries@[j]@));
        }
    }
    let entry_points = strings_of(&entries);
    let explicit = entries.len() > 0;
    // unreachable candidates
    let ghost entry_views = texts(entry_points@);
    let ghost dead_pred = if explicit {
        |x: Seq<char>| not_reached(g, entry_views, x)
    } else {
        |x: Seq<char>| heuristic_candidate(g, x)
    };
    let reached = if explicit {
        reached_names(Ghost(g), &table, &ig, &starts)
    } else {
        Vec::new()
    };
    proof {
        if explicit {
            assert forall|k: int| 0 <= k < starts@.len() implies table@[#[trigger] starts@[k] as int]@ == entry_views[k] by {
                let i = choose|i: int|
                    #![trigger node_pos@[i]]
                    0 <= i < node_chars@.len() && node_pos@[i] == starts@[k] && node_chars@[i]@
                        == entries@[k]@;
                assert(table@[node_pos@[i] as int]@ == report.nodes@[i]@);
            }
            assert(starts@.map_values(|s: usize| table@[s as int]@) =~= entry_views);
        }
    }
    let mut dflags: Vec<bool> = Vec::new();
    i = 0;
    while i < n
        invariant
            n == report.nodes@.len(),
            i <= n,
            nodes == texts(report.nodes@),
            explicit == (entry_views.len() > 0),
            dead_pred == (if explicit {
                |x: Seq<char>| not_reached(g, entry_views, x)
            } else {
                |x: Seq<char>| heuristic_candidate(g, x)
            }),
            explicit ==> reached@.len() == table@.len(),
            explicit ==> forall|v: int| 0 <= v < table@.len() ==> (#[trigger] reached@[v] <==> reached_by_name(
                g,
                entry_views,
                table@[v]@,
            )),
            node_pos@.len() == n,
            forall|j: int| 0 <= j < n ==> (#[trigger] node_pos@[j]) < table@.len() && table@[node_pos@[j] as int]@ == report.nodes@[j]@,
            fan_in@.len() == n,
            forall|k: int| 0 <= k < n ==> #[trigger] fan_in@[k] == count_into(g, report.nodes@[k]@),
            dflags@.len() == i,
            forall|k: int| 0 <= k < i ==> #[trigger] dflags@[k] == dead_pred(nodes[k]),
        decreases n - i,
    {
        if explicit {
            dflags.push(!reached[node_pos[i]] && !is_declaration(report.nodes[i].as_str()));
        } else {
            dflags.push(
                fan_in[i] == 0 && !is_entrypoint(report.nodes[i].as_str()) && !is_declaration(
                    report.nodes[i].as_str(),
                ),
            );
        }
        i = i + 1;
    }
    let dsel = select::<Seq<char>>(&dflags, Ghost(nodes), Ghost(dead_pred));
    let dead_candidates = pick(&report.nodes, &dsel);
    // hubs and large modules
    let hubs = hub_list(&report.nodes, &fan_in, &fan_out, Ghost(g));
    let large_modules = large_list(&report.lines);
    // the score
    let members = count_cycle_members(&report.cycles);
    let cycle_penalty: usize = if members >= 9 { 45 } else { members * 5 };
    let unused_penalty: usize = if dead_candidates.len() < 20 { dead_candidates.len() } else { 20 };
    let large_penalty: usize = if large_modules.len() < 15 { large_modules.len() } else { 15 };
    let health_score: u8 = (100 - (cycle_penalty + unused_penalty + large_penalty)) as u8;
    let reachability_mode = if explicit {
        String::from_str("explicit")
    } else {
        String::from_str("heuristic")
    };
    let m = ArchitectureMetrics {
        orphan_modules,
        dead_candidates,
        hubs,
        large_modules,
        health_score,
        entry_points,
        reachability_mode,
        score_penalties: ScorePenalties {
            cycles: cycle_penalty,
            unused_candidates: unused_penalty,
            large_modules: large_penalty,
        },
    };
    proof {
        assert(sel@.map_values(|j: usize| texts(report.nodes@)[j as int]) == nodes.filter(orphan_pred));
        assert(dsel@.map_values(|j: usize| texts(report.nodes@)[j as int]) == nodes.filter(dead_pred));
        assert(texts(m.dead_candidates@).len() == m.dead_candidates@.len());
    }
    Ok(m)
}

} // verus!
