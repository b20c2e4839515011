//! The import graph read by module name: reachability and fan-in/fan-out counts.
use vstd::prelude::*;
use crate::graph::{edges_within, is_edge, is_path, reached_from, reachable_from, reaches};
use crate::order::distinct;
use crate::report::{edge_names, DependencyEdge};
use crate::text::{chars_equal, chars_of};

verus! {

/// The edges as pairs of names.
pub open spec fn name_pairs(edges: Seq<DependencyEdge>) -> Seq<(Seq<char>, Seq<char>)> {
    edges.map_values(|e: DependencyEdge| edge_names(e))
}

/// Some edge leads from `a` to `b`.
pub open spec fn name_step(g: Seq<(Seq<char>, Seq<char>)>, a: Seq<char>, b: Seq<char>) -> bool {
    exists|k: int| #![trigger g[k]] 0 <= k < g.len() && g[k] == (a, b)
}

/// `p` follows edges from its first name to its last.
pub open spec fn name_walk(g: Seq<(Seq<char>, Seq<char>)>, p: Seq<Seq<char>>) -> bool {
    &&& p.len() >= 1
    &&& forall|k: int| 0 <= k < p.len() - 1 ==> name_step(g, #[trigger] p[k], p[k + 1])
}

/// Following imports from `a` leads to `b` (in zero or more steps).
pub open spec fn name_reaches(g: Seq<(Seq<char>, Seq<char>)>, a: Seq<char>, b: Seq<char>) -> bool {
    exists|p: Seq<Seq<char>>| #[trigger] name_walk(g, p) && p[0] == a && p.last() == b
}

/// Some start name reaches `x`.
pub open spec fn reached_by_name(
    g: Seq<(Seq<char>, Seq<char>)>,
    starts: Seq<Seq<char>>,
    x: Seq<char>,
) -> bool {
    exists|i: int| #![trigger starts[i]] 0 <= i < starts.len() && name_reaches(g, starts[i], x)
}

/// The number of edges into `x`.
pub open spec fn count_into(g: Seq<(Seq<char>, Seq<char>)>, x: Seq<char>) -> nat
    decreases g.len(),
{
    if g.len() == 0 {
        0
    } else {
        count_into(g.drop_last(), x) + if g.last().1 == x {
            1nat
        } else {
            0nat
        }
    }
}

/// The number of edges out of `x`.
pub open spec fn count_out_of(g: Seq<(Seq<char>, Seq<char>)>, x: Seq<char>) -> nat
    decreases g.len(),
{
    if g.len() == 0 {
        0
    } else {
        count_out_of(g.drop_last(), x) + if g.last().0 == x {
            1nat
        } else {
            0nat
        }
    }
}

proof fn lemma_count_bounded(g: Seq<(Seq<char>, Seq<char>)>, x: Seq<char>)
    ensures
        count_into(g, x) <= g.len(),
        count_out_of(g, x) <= g.len(),
    decreases g.len(),
{
    if g.len() > 0 {
        lemma_count_bounded(g.drop_last(), x);
    }
}

/// The name graph numbered through a table of distinct names.
pub open spec fn numbered(
    g: Seq<(Seq<char>, Seq<char>)>,
    table: Seq<Seq<char>>,
    ig: Seq<(usize, usize)>,
) -> bool {
    &&& distinct(table)
    &&& ig.len() == g.len()
    &&& edges_within(ig, table.len())
    &&& forall|k: int|
        0 <= k < ig.len() ==> table[(#[trigger] ig[k]).0 as int] == g[k].0 && table[ig[k].1 as int]
            == g[k].1
}

proof fn lemma_index_path_names(
    g: Seq<(Seq<char>, Seq<char>)>,
    table: Seq<Seq<char>>,
    ig: Seq<(usize, usize)>,
    p: Seq<int>,
)
    requires
        numbered(g, table, ig),
        is_path(ig, p),
        0 <= p[0] < table.len(),
    ensures
        forall|k: int| 0 <= k < p.len() ==> 0 <= #[trigger] p[k] < table.len(),
        name_walk(g, p.map_values(|u: int| table[u])),
{
    assert forall|k: int| 0 <= k < p.len() implies 0 <= #[trigger] p[k] < table.len() by {
        if k > 0 {
            assert(is_edge(ig, p[k - 1], p[k]));
            let e = choose|e: int| 0 <= e < ig.len() && ig[e].0 as int == p[k - 1] && ig[e].1 as int == p[k];
            assert(ig[e].1 < table.len());
        }
    }
    let q = p.map_values(|u: int| table[u]);
    assert forall|k: int| 0 <= k < q.len() - 1 implies name_step(g, #[trigger] q[k], q[k + 1]) by {
        assert(is_edge(ig, p[k], p[k + 1]));
        let e = choose|e: int| 0 <= e < ig.len() && ig[e].0 as int == p[k] && ig[e].1 as int == p[k + 1];
        assert(g[e] == (q[k], q[k + 1]));
    }
}

proof fn lemma_name_walk_index(
    g: Seq<(Seq<char>, Seq<char>)>,
    table: Seq<Seq<char>>,
    ig: Seq<(usize, usize)>,
    q: Seq<Seq<char>>,
    u: int,
)
    requires
        numbered(g, table, ig),
        name_walk(g, q),
        0 <= u < table.len(),
        table[u] == q[0],
    ensures
        exists|p: Seq<int>|
            #[trigger] is_path(ig, p) && p[0] == u && 0 <= p.last() < table.len() && table[p.last()]
                == q.last(),
{
    let p = Seq::new(
        q.len(),
        |k: int|
            if k == 0 {
                u
            } else {
                let e = choose|e: int| 0 <= e < g.len() && g[e] == (q[k - 1], q[k]);
                ig[e].1 as int
            },
    );
    assert forall|k: int| 0 <= k < p.len() implies 0 <= #[trigger] p[k] < table.len() && table[p[k]]
        == q[k] by {
        if k > 0 {
            assert(name_step(g, q[k - 1], q[k]));
            let e = choose|e: int| 0 <= e < g.len() && g[e] == (q[k - 1], q[k]);
            assert(ig[e].1 < table.len());
        }
    }
    assert forall|k: int| 0 <= k < p.len() - 1 implies is_edge(ig, #[trigger] p[k], p[k + 1]) by {
        assert(name_step(g, q[k], q[k + 1]));
        let e = choose|e: int| 0 <= e < g.len() && g[e] == (q[k], q[k + 1]);
        assert(p[k + 1] == ig[e].1 as int);
        assert(table[ig[e].0 as int] == q[k]);
        assert(table[p[k]] == q[k]);
        assert(ig[e].0 < table.len());
        assert(ig[e].0 as int == p[k]);
    }
    assert(is_path(ig, p));
}

/// Index reachability agrees with name reachability.
pub proof fn lemma_reaches_by_name(
    g: Seq<(Seq<char>, Seq<char>)>,
    table: Seq<Seq<char>>,
    ig: Seq<(usize, usize)>,
    u: int,
    v: int,
)
    requires
        numbered(g, table, ig),
        0 <= u < table.len(),
        0 <= v < table.len(),
    ensures
        reaches(ig, u, v) <==> name_reaches(g, table[u], table[v]),
{
    if reaches(ig, u, v) {
        let p = choose|p: Seq<int>| is_path(ig, p) && p[0] == u && p.last() == v;
        lemma_index_path_names(g, table, ig, p);
        let q = p.map_values(|w: int| table[w]);
        assert(name_walk(g, q) && q[0] == table[u] && q.last() == table[v]);
    }
    if name_reaches(g, table[u], table[v]) {
        let q = choose|q: Seq<Seq<char>>| name_walk(g, q) && q[0] == table[u] && q.last() == table[v];
        lemma_name_walk_index(g, table, ig, q, u);
        let p = choose|p: Seq<int>|
            #[trigger] is_path(ig, p) && p[0] == u && 0 <= p.last() < table.len() && table[p.last()]
                == q.last();
        assert(p.last() == v);
    }
}

/// The position of `x` in `table`, adding it at the end when missing.
fn intern(table: &mut Vec<Vec<char>>, x: &Vec<char>) -> (i: usize)
    requires
        distinct(old(table)@.map_values(|v: Vec<char>| v@)),
    ensures
        distinct(final(table)@.map_values(|v: Vec<char>| v@)),
        i < final(table)@.len(),
        final(table)@[i as int]@ == x@,
        old(table)@.len() <= final(table)@.len() <= old(table)@.len() + 1,
        forall|k: int| 0 <= k < old(table)@.len() ==> (#[trigger] final(table)@[k])@ == old(table)@[k]@,
{
    let mut k: usize = 0;
    while k < table.len()
        invariant
            k <= table@.len(),
            distinct(table@.map_values(|v: Vec<char>| v@)),
            forall|j: int| 0 <= j < k ==> (#[trigger] table@[j])@ != x@,
        decreases table@.len() - k,
    {
        if chars_equal(&table[k], x) {
            return k;
        }
        k = k + 1;
    }
    let ghost before = table@.map_values(|v: Vec<char>| v@);
    table.push(crate::text::copy(x));
    proof {
        let after = table@.map_values(|v: Vec<char>| v@);
        assert forall|a: int, b: int| 0 <= a < after.len() && 0 <= b < after.len() && a != b implies after[a] != after[b] by {
            if a < before.len() && b < before.len() {
                assert(after[a] == before[a] && after[b] == before[b]);
            } else if a < before.len() {
                assert(after[a] == table@[a]@);
            } else {
                assert(after[b] == table@[b]@);
            }
        }
    }
    table.len() - 1
}

/// The report's names numbered: the table starts with the nodes (each once), and
/// every edge endpoint is in it.
pub fn number_names(nodes: &Vec<String>, edges: &Vec<DependencyEdge>) -> (r: (Vec<Vec<char>>, Vec<usize>, Vec<(usize, usize)>))
    ensures
        numbered(name_pairs(edges@), r.0@.map_values(|v: Vec<char>| v@), r.2@),
        r.1@.len() == nodes@.len(),
        forall|i: int| 0 <= i < nodes@.len() ==> (#[trigger] r.1@[i]) < r.0@.len() && r.0@[r.1@[i] as int]@ == nodes@[i]@,
{
    let mut table: Vec<Vec<char>> = Vec::new();
    let mut node_pos: Vec<usize> = Vec::new();
    let mut i: usize = 0;
    while i < nodes.len()
        invariant
            i <= nodes@.len(),
            distinct(table@.map_values(|v: Vec<char>| v@)),
            node_pos@.len() == i,
            forall|j: int| 0 <= j < i ==> (#[trigger] node_pos@[j]) < table@.len() && table@[node_pos@[j] as int]@ == nodes@[j]@,
        decreases nodes@.len() - i,
    {
        let c = chars_of(nodes[i].as_str());
        let p = intern(&mut table, &c);
        node_pos.push(p);
        i = i + 1;
    }
    let ghost g = name_pairs(edges@);
    let mut ig: Vec<(usize, usize)> = Vec::new();
    let mut k: usize = 0;
    while k < edges.len()
        invariant
            k <= edges@.len(),
            g == name_pairs(edges@),
            distinct(table@.map_values(|v: Vec<char>| v@)),
            node_pos@.len() == nodes@.len(),
            forall|j: int| 0 <= j < nodes@.len() ==> (#[trigger] node_pos@[j]) < table@.len() && table@[node_pos@[j] as int]@ == nodes@[j]@,
            ig@.len() == k,
            forall|e: int| 0 <= e < k ==> (#[trigger] ig@[e]).0 < table@.len() && ig@[e].1 < table@.len()
                && table@[ig@[e].0 as int]@ == g[e].0 && table@[ig@[e].1 as int]@ == g[e].1,
        decreases edges@.len() - k,
    {
        let a = chars_of(edges[k].from.as_str());
        let b = chars_of(edges[k].to.as_str());
        let pa = intern(&mut table, &a);
        let pb = intern(&mut table, &b);
        ig.push((pa, pb));
        k = k + 1;
    }
    proof {
        let tv = table@.map_values(|v: Vec<char>| v@);
        assert forall|e: int| 0 <= e < ig@.len() implies tv[(#[trigger] ig@[e]).0 as int] == g[e].0 && tv[ig@[e].1 as int] == g[e].1 by {
        }
    }
    (table, node_pos, ig)
}

/// For each numbered name, whether some start name reaches it.
pub fn reached_names(
    g: Ghost<Seq<(Seq<char>, Seq<char>)>>,
    table: &Vec<Vec<char>>,
    ig: &Vec<(usize, usize)>,
    starts: &Vec<usize>,
) -> (reached: Vec<bool>)
    requires
        numbered(g@, table@.map_values(|v: Vec<char>| v@), ig@),
        forall|i: int| 0 <= i < starts@.len() ==> #[trigger] starts@[i] < table@.len(),
    ensures
        reached@.len() == table@.len(),
        forall|v: int|
            0 <= v < table@.len() ==> (#[trigger] reached@[v] <==> reached_by_name(
                g@,
                starts@.map_values(|s: usize| table@[s as int]@),
                table@[v]@,
            )),
{
    let reached = reachable_from(table.len(), ig, starts);
    proof {
        let tv = table@.map_values(|v: Vec<char>| v@);
        let sv = starts@.map_values(|s: usize| table@[s as int]@);
        assert forall|v: int| 0 <= v < table@.len() implies (#[trigger] reached@[v] <==> reached_by_name(
            g@,
            sv,
            table@[v]@,
        )) by {
            if reached@[v] {
                let i = choose|i: int| 0 <= i < starts@.len() && reaches(ig@, starts@[i] as int, v);
                lemma_reaches_by_name(g@, tv, ig@, starts@[i] as int, v);
                assert(sv[i] == tv[starts@[i] as int]);
            }
            if reached_by_name(g@, sv, table@[v]@) {
                let i = choose|i: int| #![trigger sv[i]] 0 <= i < sv.len() && name_reaches(g@, sv[i], table@[v]@);
                lemma_reaches_by_name(g@, tv, ig@, starts@[i] as int, v);
                assert(reached_from(ig@, starts@, v));
            }
        }
    }
    reached
}

/// For each numbered name, the number of edges into it and out of it.
pub fn count_edges(
    g: Ghost<Seq<(Seq<char>, Seq<char>)>>,
    table: &Vec<Vec<char>>,
    ig: &Vec<(usize, usize)>,
) -> (r: (Vec<usize>, Vec<usize>))
    requires
        numbered(g@, table@.map_values(|v: Vec<char>| v@), ig@),
    ensures
        r.0@.len() == table@.len(),
        r.1@.len() == table@.len(),
        forall|v: int| 0 <= v < table@.len() ==> #[trigger] r.0@[v] == count_into(g@, table@[v]@),
        forall|v: int| 0 <= v < table@.len() ==> #[trigger] r.1@[v] == count_out_of(g@, table@[v]@),
{
    let ghost tv = table@.map_values(|v: Vec<char>| v@);
    let mut incoming: Vec<usize> = Vec::new();
    let mut outgoing: Vec<usize> = Vec::new();
    let mut i: usize = 0;
    while i < table.len()
        invariant
            i <= table@.len(),
            incoming@.len() == i,
            outgoing@.len() == i,
            forall|v: int| 0 <= v < i ==> #[trigger] incoming@[v] == 0,
            forall|v: int| 0 <= v < i ==> #[trigger] outgoing@[v] == 0,
        decreases table@.len() - i,
    {
        incoming.push(0);
        outgoing.push(0);
        i = i + 1;
    }
    let mut k: usize = 0;
    assert(g@.subrange(0, 0) =~= Seq::<(Seq<char>, Seq<char>)>::empty());
    while k < ig.len()
        invariant
            k <= ig@.len(),
            tv == table@.map_values(|v: Vec<char>| v@),
            numbered(g@, tv, ig@),
            incoming@.len() == table@.len(),
            outgoing@.len() == table@.len(),
            forall|v: int| 0 <= v < table@.len() ==> #[trigger] incoming@[v] == count_into(g@.subrange(0, k as int), tv[v]),
            forall|v: int| 0 <= v < table@.len() ==> #[trigger] outgoing@[v] == count_out_of(g@.subrange(0, k as int), tv[v]),
        decreases ig@.len() - k,
    {
        let (a, b) = ig[k];
        proof {
            let sub = g@.subrange(0, k as int);
            lemma_count_bounded(sub, tv[a as int]);
            lemma_count_bounded(sub, tv[b as int]);
        }
        let ghost in_before = incoming@;
        let ghost out_before = outgoing@;
        incoming.set(b, incoming[b] + 1);
        outgoing.set(a, outgoing[a] + 1);
        proof {
            let next = g@.subrange(0, k + 1);
            assert(next.drop_last() =~= g@.subrange(0, k as int));
            assert(next.last() == g@[k as int]);
            assert forall|v: int| 0 <= v < table@.len() implies #[trigger] incoming@[v] == count_into(next, tv[v]) by {
                if v != b as int {
                    assert(tv[v] != tv[b as int]);
                    assert(incoming@[v] == in_before[v]);
                }
            }
            assert forall|v: int| 0 <= v < table@.len() implies #[trigger] outgoing@[v] == count_out_of(next, tv[v]) by {
                if v != a as int {
                    assert(tv[v] != tv[a as int]);
                    assert(outgoing@[v] == out_before[v]);
                }
            }
        }
        k = k + 1;
    }
    assert(g@.subrange(0, ig@.len() as int) =~= g@);
    (incoming, outgoing)
}

} // verus!
