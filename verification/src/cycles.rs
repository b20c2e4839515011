//! Cycle groups: strongly connected components with a cycle, named and ordered.
use vstd::prelude::*;
use crate::graph::{cycle_groups, edges_within, holds_node, mutually_reachable, on_cycle};
use crate::order::{distinct, increasing_by, ranks_names, sort_by_key};
use crate::text::{seq_lt, lemma_seq_lt_irreflexive};
use crate::report::{listed_in, names_cyclic_module, names_lt, texts};

verus! {

/// The facts about the cycle groups in index form.
#[verifier::opaque]
pub closed spec fn groups_ranked(ordered: Seq<Vec<usize>>, n: nat, pairs: Seq<(usize, usize)>, rank: Seq<usize>) -> bool {
    &&& forall|x: int| 0 <= x < ordered.len() ==> (#[trigger] ordered[x])@.len() > 0
    &&& forall|x: int, j: int|
            0 <= x < ordered.len() && 0 <= j < ordered[x]@.len() ==> #[trigger] ordered[x]@[j] < n
                && on_cycle(pairs, ordered[x]@[j] as int)
    &&& forall|v: int| 0 <= v < n && on_cycle(pairs, v) ==> #[trigger] holds_node(ordered, v)
    &&& forall|x: int, j: int, y: int, l: int|
            0 <= x < ordered.len() && 0 <= j < ordered[x]@.len() && 0 <= y < ordered.len() && 0
                <= l < ordered[y]@.len() ==> (mutually_reachable(
                pairs,
                #[trigger] ordered[x]@[j] as int,
                #[trigger] ordered[y]@[l] as int,
            ) <==> x == y)
    &&& forall|x: int| 0 <= x < ordered.len() ==> increasing_by((#[trigger] ordered[x])@, rank)
    &&& forall|x: int, y: int|
            0 <= x < y < ordered.len() ==> rank[(#[trigger] ordered[x])@[0] as int]
                < rank[(#[trigger] ordered[y])@[0] as int]
}

/// Each cycle name list names the nodes of the matching index group.
#[verifier::opaque]
pub closed spec fn names_follow(cycles: Seq<Vec<String>>, nodes: Seq<String>, ordered: Seq<Vec<usize>>) -> bool {
    &&& cycles.len() == ordered.len()
    &&& forall|x: int| 0 <= x < cycles.len() ==> (#[trigger] cycles[x])@.len() == ordered[x]@.len()
    &&& forall|x: int, j: int|
        0 <= x < cycles.len() && 0 <= j < cycles[x]@.len() ==> (#[trigger] cycles[x]@[j])@
            == nodes[ordered[x]@[j] as int]@
}

/// The cycle groups as node indices, each in name order, ordered by their first name.
pub fn ranked_groups(n: usize, rank: &Vec<usize>, pairs: &Vec<(usize, usize)>) -> (ordered: Vec<Vec<usize>>)
    requires
        rank@.len() == n,
        forall|a: int, b: int|
            0 <= a < n && 0 <= b < n && a != b ==> #[trigger] rank@[a] != #[trigger] rank@[b],
        edges_within(pairs@, n as nat),
    ensures
        groups_ranked(ordered@, n as nat, pairs@, rank@),
{
    let groups = cycle_groups(n, pairs);
    let mut ordered_groups: Vec<Vec<usize>> = Vec::new();
    let mut first_rank: Vec<usize> = Vec::new();
    let mut g: usize = 0;
    while g < groups.len()
        invariant
            g <= groups@.len(),
            rank@.len() == n,
            forall|a: int, b: int|
                0 <= a < n && 0 <= b < n && a != b ==> #[trigger] rank@[a] != #[trigger] rank@[b],
            ordered_groups@.len() == g,
            first_rank@.len() == g,
            forall|x: int| 0 <= x < groups@.len() ==> (#[trigger] groups@[x])@.len() > 0,
            forall|x: int, y: int|
                0 <= x < groups@.len() && 0 <= y < groups@[x]@.len() ==> #[trigger] groups@[x]@[y]
                    < n,
            forall|x: int, y: int, x2: int, y2: int|
                0 <= x < groups@.len() && 0 <= y < groups@[x]@.len() && 0 <= x2 < groups@.len()
                    && 0 <= y2 < groups@[x2]@.len() && #[trigger] groups@[x]@[y]
                    == #[trigger] groups@[x2]@[y2] ==> x == x2 && y == y2,
            forall|x: int|
                0 <= x < g ==> (#[trigger] ordered_groups@[x])@.len() == groups@[x]@.len()
                    && increasing_by(ordered_groups@[x]@, rank@) && forall|v: usize|
                    ordered_groups@[x]@.contains(v) <==> groups@[x]@.contains(v),
            forall|x: int| 0 <= x < g ==> #[trigger] first_rank@[x] == rank@[ordered_groups@[x]@[0] as int],
        decreases groups@.len() - g,
    {
        proof {
            assert forall|a: int, b: int|
                0 <= a < groups@[g as int]@.len() && 0 <= b < groups@[g as int]@.len() && a != b
                    implies groups@[g as int]@[a] != groups@[g as int]@[b] by {
            }
            assert forall|y: int| 0 <= y < groups@[g as int]@.len() implies #[trigger] groups@[g as int]@[y] < rank@.len() by {
            }
        }
        let sorted_group = sort_by_key(&groups[g], rank);
        proof {
            assert(groups@[g as int]@.contains(groups@[g as int]@[0]));
        }
        first_rank.push(rank[sorted_group[0]]);
        ordered_groups.push(sorted_group);
        g = g + 1;
    }
    proof {
        assert forall|x: int, y: int|
            0 <= x < first_rank@.len() && 0 <= y < first_rank@.len() && x != y implies #[trigger] first_rank@[x]
            != #[trigger] first_rank@[y] by {
            let vx = ordered_groups@[x]@[0];
            let vy = ordered_groups@[y]@[0];
            assert(ordered_groups@[x]@.contains(vx));
            assert(ordered_groups@[y]@.contains(vy));
            assert(groups@[x]@.contains(vx));
            assert(groups@[y]@.contains(vy));
            let ix = choose|ix: int| 0 <= ix < groups@[x]@.len() && groups@[x]@[ix] == vx;
            let iy = choose|iy: int| 0 <= iy < groups@[y]@.len() && groups@[y]@[iy] == vy;
            assert(groups@[x]@[ix] < n && groups@[y]@[iy] < n);
            if vx == vy {
                assert(groups@[x]@[ix] == groups@[y]@[iy]);
            }
        }
    }
    let mut group_ids: Vec<usize> = Vec::new();
    let mut c: usize = 0;
    while c < groups.len()
        invariant
            c <= groups@.len(),
            group_ids@.len() == c,
            forall|x: int| 0 <= x < c ==> #[trigger] group_ids@[x] == x,
        decreases groups@.len() - c,
    {
        group_ids.push(c);
        c = c + 1;
    }
    proof {
        assert forall|x: int, y: int| 0 <= x < group_ids@.len() && 0 <= y < group_ids@.len() && x != y implies group_ids@[x] != group_ids@[y] by {}
    }
    let group_order = sort_by_key(&group_ids, &first_rank);
    proof {
        assert forall|x: usize| x < groups@.len() implies #[trigger] group_order@.contains(x) by {
            assert(group_ids@[x as int] == x);
            assert(group_ids@.contains(x));
        }
        assert forall|x: int| 0 <= x < group_order@.len() implies #[trigger] group_order@[x] < groups@.len() by {
            assert(group_order@.contains(group_order@[x]));
            assert(group_ids@.contains(group_order@[x]));
        }
    }
    let mut ordered: Vec<Vec<usize>> = Vec::new();
    let mut m: usize = 0;
    while m < group_order.len()
        invariant
            m <= group_order@.len(),
            group_order@.len() == groups@.len(),
            ordered_groups@.len() == groups@.len(),
            forall|x: int| 0 <= x < group_order@.len() ==> #[trigger] group_order@[x] < groups@.len(),
            ordered@.len() == m,
            forall|x: int| 0 <= x < m ==> (#[trigger] ordered@[x])@ == ordered_groups@[group_order@[x] as int]@,
        decreases group_order@.len() - m,
    {
        ordered.push(ordered_groups[group_order[m]].clone());
        m = m + 1;
    }
    proof {
        assert forall|x: int| 0 <= x < ordered@.len() implies (#[trigger] ordered@[x])@.len() > 0 by {
            let gx = group_order@[x] as int;
            assert(groups@[gx]@.len() > 0);
        }
        assert forall|x: int, j: int|
            0 <= x < ordered@.len() && 0 <= j < ordered@[x]@.len() implies #[trigger] ordered@[x]@[j] < n
            && on_cycle(pairs@, ordered@[x]@[j] as int) by {
            let gx = group_order@[x] as int;
            let v = ordered_groups@[gx]@[j];
            assert(ordered@[x]@[j] == v);
            assert(ordered_groups@[gx]@.contains(v));
            assert(groups@[gx]@.contains(v));
            let y = choose|y: int| 0 <= y < groups@[gx]@.len() && groups@[gx]@[y] == v;
            assert(groups@[gx]@[y] < n && on_cycle(pairs@, groups@[gx]@[y] as int));
        }
        assert forall|v: int| 0 <= v < n && on_cycle(pairs@, v) implies #[trigger] holds_node(ordered@, v) by {
            assert(holds_node(groups@, v));
            let (gx, y) = choose|gx: int, y: int|
                0 <= gx < groups@.len() && 0 <= y < groups@[gx]@.len() && #[trigger] groups@[gx]@[y] == v;
            assert(groups@[gx]@.contains(v as usize));
            assert(ordered_groups@[gx]@.contains(v as usize));
            let j = choose|j: int| 0 <= j < ordered_groups@[gx]@.len() && ordered_groups@[gx]@[j] == v as usize;
            assert(group_order@.contains(gx as usize));
            let x = choose|x: int| 0 <= x < group_order@.len() && group_order@[x] == gx as usize;
            assert(ordered@[x]@[j] == v);
        }
        assert forall|x: int, j: int, h: int, l: int|
            0 <= x < ordered@.len() && 0 <= j < ordered@[x]@.len() && 0 <= h < ordered@.len() && 0
                <= l < ordered@[h]@.len() implies (mutually_reachable(
            pairs@,
            #[trigger] ordered@[x]@[j] as int,
            #[trigger] ordered@[h]@[l] as int,
        ) <==> x == h) by {
            let gx = group_order@[x] as int;
            let gh = group_order@[h] as int;
            let va = ordered_groups@[gx]@[j];
            let vb = ordered_groups@[gh]@[l];
            assert(ordered@[x]@[j] == va && ordered@[h]@[l] == vb);
            assert(ordered_groups@[gx]@.contains(va));
            assert(ordered_groups@[gh]@.contains(vb));
            assert(groups@[gx]@.contains(va));
            assert(groups@[gh]@.contains(vb));
            let ya = choose|y: int| 0 <= y < groups@[gx]@.len() && groups@[gx]@[y] == va;
            let yb = choose|y: int| 0 <= y < groups@[gh]@.len() && groups@[gh]@[y] == vb;
            assert(mutually_reachable(pairs@, groups@[gx]@[ya] as int, groups@[gh]@[yb] as int) <==> gx == gh);
            if x != h {
                if x < h {
                    assert(first_rank@[group_order@[x] as int] < first_rank@[group_order@[h] as int]);
                } else {
                    assert(first_rank@[group_order@[h] as int] < first_rank@[group_order@[x] as int]);
                }
            }
        }
        assert forall|x: int| 0 <= x < ordered@.len() implies increasing_by((#[trigger] ordered@[x])@, rank@) by {
            let gx = group_order@[x] as int;
            assert(ordered@[x]@ == ordered_groups@[gx]@);
        }
        assert forall|x: int, y: int|
            0 <= x < y < ordered@.len() implies rank@[(#[trigger] ordered@[x])@[0] as int]
            < rank@[(#[trigger] ordered@[y])@[0] as int] by {
            let gx = group_order@[x] as int;
            let gy = group_order@[y] as int;
            assert(first_rank@[gx] < first_rank@[gy]);
        }
    }
    proof {
        reveal(groups_ranked);
    }
    ordered
}

/// The cycle groups under module names.
pub fn named_cycles(
    n: usize,
    nodes: &Vec<String>,
    rank: &Vec<usize>,
    pairs: &Vec<(usize, usize)>,
    ordered: &Vec<Vec<usize>>,
) -> (cycles: Vec<Vec<String>>)
    requires
        n == nodes@.len(),
        distinct(texts(nodes@)),
        ranks_names(rank@, texts(nodes@)),
        groups_ranked(ordered@, n as nat, pairs@, rank@),
    ensures
        forall|m: int, j: int|
            0 <= m < cycles@.len() && 0 <= j < cycles@[m]@.len() ==> names_cyclic_module(pairs@, nodes@, (#[trigger] cycles@[m]@[j])@),
        forall|i: int|
            0 <= i < nodes@.len() && on_cycle(pairs@, i) ==> #[trigger] listed_in(cycles@, nodes@[i]@),
        forall|m: int, j: int, h: int, l: int, a: int, b: int|
            #![trigger cycles@[m]@[j], cycles@[h]@[l], nodes@[a], nodes@[b]]
            0 <= m < cycles@.len() && 0 <= j < cycles@[m]@.len() && 0 <= h
                < cycles@.len() && 0 <= l < cycles@[h]@.len() && 0 <= a
                < nodes@.len() && 0 <= b < nodes@.len() && (cycles@[m]@[j])@
                == nodes@[a]@ && (cycles@[h]@[l])@ == nodes@[b]@ ==> (
            mutually_reachable(pairs@, a, b) <==> m == h),
        forall|m: int| 0 <= m < cycles@.len() ==> (#[trigger] cycles@[m])@.len() > 0,
        forall|m: int, j: int, l: int|
            0 <= m < cycles@.len() && 0 <= j < l < cycles@[m]@.len() ==> seq_lt(
                (#[trigger] cycles@[m]@[j])@,
                (#[trigger] cycles@[m]@[l])@,
            ),
        forall|m: int, h: int|
            0 <= m < h < cycles@.len() ==> names_lt(
                texts((#[trigger] cycles@[m])@),
                texts((#[trigger] cycles@[h])@),
            ),
{
    proof {
        lemma_ranked_in_range(ordered@, n as nat, pairs@, rank@);
    }
    let mut cycles: Vec<Vec<String>> = Vec::new();
    let mut m: usize = 0;
    while m < ordered.len()
        invariant
            m <= ordered@.len(),
            n == nodes@.len(),
            forall|x: int, j: int|
                0 <= x < ordered@.len() && 0 <= j < ordered@[x]@.len() ==> #[trigger] ordered@[x]@[j] < n,
            cycles@.len() == m,
            forall|x: int| 0 <= x < m ==> (#[trigger] cycles@[x])@.len() == ordered@[x]@.len(),
            forall|x: int, j: int|
                0 <= x < m && 0 <= j < cycles@[x]@.len() ==> (#[trigger] cycles@[x]@[j])@
                    == nodes@[ordered@[x]@[j] as int]@,
        decreases ordered@.len() - m,
    {
        let members = &ordered[m];
        let mut names_of: Vec<String> = Vec::new();
        let mut j: usize = 0;
        while j < members.len()
            invariant
                j <= members@.len(),
                n == nodes@.len(),
                members@ == ordered@[m as int]@,
                forall|q: int| 0 <= q < members@.len() ==> #[trigger] members@[q] < n,
                names_of@.len() == j,
                forall|q: int| 0 <= q < j ==> (#[trigger] names_of@[q])@ == nodes@[members@[q] as int]@,
            decreases members@.len() - j,
        {
            names_of.push(nodes[members[j]].clone());
            j = j + 1;
        }
        cycles.push(names_of);
        m = m + 1;
    }
    proof {
        reveal(names_follow);
        assert(names_follow(cycles@, nodes@, ordered@));
        lemma_cycle_members(cycles@, nodes@, ordered@, pairs@, rank@);
        lemma_cycle_coverage(cycles@, nodes@, ordered@, pairs@, rank@);
        lemma_cycle_mutual(cycles@, nodes@, ordered@, pairs@, rank@);
        lemma_cycle_sorted(cycles@, nodes@, ordered@, pairs@, rank@);
    }
    cycles
}

proof fn lemma_ranked_in_range(ordered: Seq<Vec<usize>>, n: nat, pairs: Seq<(usize, usize)>, rank: Seq<usize>)
    requires
        groups_ranked(ordered, n, pairs, rank),
    ensures
        forall|x: int, j: int|
            0 <= x < ordered.len() && 0 <= j < ordered[x]@.len() ==> #[trigger] ordered[x]@[j] < n,
{
    reveal(groups_ranked);
}

proof fn lemma_cycle_members(
    cycles: Seq<Vec<String>>,
    nodes: Seq<String>,
    ordered: Seq<Vec<usize>>,
    pairs: Seq<(usize, usize)>,
    rank: Seq<usize>,
)
    requires
        groups_ranked(ordered, nodes.len(), pairs, rank),
        names_follow(cycles, nodes, ordered),
    ensures
        forall|m: int, j: int|
            0 <= m < cycles.len() && 0 <= j < cycles[m]@.len() ==> names_cyclic_module(pairs, nodes, (#[trigger] cycles[m]@[j])@),
        forall|m: int| 0 <= m < cycles.len() ==> (#[trigger] cycles[m])@.len() > 0,
{
    reveal(groups_ranked);
    reveal(names_follow);
    assert forall|x: int, j: int|
        0 <= x < cycles.len() && 0 <= j < cycles[x]@.len() implies names_cyclic_module(pairs, nodes, (#[trigger] cycles[x]@[j])@) by {
        let i = ordered[x]@[j] as int;
        assert(ordered[x]@[j] < nodes.len() && on_cycle(pairs, i));
        assert(nodes[i]@ == (cycles[x]@[j])@);
    }
    assert forall|m2: int| 0 <= m2 < cycles.len() implies (#[trigger] cycles[m2])@.len() > 0 by {
        assert(ordered[m2]@.len() > 0);
    }
}

proof fn lemma_cycle_coverage(
    cycles: Seq<Vec<String>>,
    nodes: Seq<String>,
    ordered: Seq<Vec<usize>>,
    pairs: Seq<(usize, usize)>,
    rank: Seq<usize>,
)
    requires
        groups_ranked(ordered, nodes.len(), pairs, rank),
        names_follow(cycles, nodes, ordered),
    ensures
        forall|i: int|
            0 <= i < nodes.len() && on_cycle(pairs, i) ==> #[trigger] listed_in(cycles, nodes[i]@),
{
    reveal(groups_ranked);
    reveal(names_follow);
    assert forall|i: int| 0 <= i < nodes.len() && on_cycle(pairs, i) implies #[trigger] listed_in(cycles, nodes[i]@) by {
        assert(holds_node(ordered, i));
        let (x, j) = choose|x: int, j: int|
            0 <= x < ordered.len() && 0 <= j < ordered[x]@.len() && #[trigger] ordered[x]@[j] == i;
        assert((cycles[x]@[j])@ == nodes[i]@);
    }
}

proof fn lemma_cycle_mutual(
    cycles: Seq<Vec<String>>,
    nodes: Seq<String>,
    ordered: Seq<Vec<usize>>,
    pairs: Seq<(usize, usize)>,
    rank: Seq<usize>,
)
    requires
        groups_ranked(ordered, nodes.len(), pairs, rank),
        names_follow(cycles, nodes, ordered),
        distinct(texts(nodes)),
    ensures
        forall|m: int, j: int, h: int, l: int, a: int, b: int|
            #![trigger cycles[m]@[j], cycles[h]@[l], nodes[a], nodes[b]]
            0 <= m < cycles.len() && 0 <= j < cycles[m]@.len() && 0 <= h
                < cycles.len() && 0 <= l < cycles[h]@.len() && 0 <= a
                < nodes.len() && 0 <= b < nodes.len() && (cycles[m]@[j])@
                == nodes[a]@ && (cycles[h]@[l])@ == nodes[b]@ ==> (
            mutually_reachable(pairs, a, b) <==> m == h),
{
    reveal(groups_ranked);
    reveal(names_follow);
    let names = texts(nodes);
    assert forall|x: int, j: int, h: int, l: int, a: int, b: int|
        #![trigger cycles[x]@[j], cycles[h]@[l], nodes[a], nodes[b]]
        0 <= x < cycles.len() && 0 <= j < cycles[x]@.len() && 0 <= h < cycles.len() && 0 <= l
            < cycles[h]@.len() && 0 <= a < nodes.len() && 0 <= b < nodes.len() && (
        cycles[x]@[j])@ == nodes[a]@ && (cycles[h]@[l])@ == nodes[b]@
            implies (mutually_reachable(pairs, a, b) <==> x == h) by {
        let va = ordered[x]@[j];
        let vb = ordered[h]@[l];
        assert(va < nodes.len() && vb < nodes.len());
        assert(names[va as int] == names[a]);
        assert(va as int == a);
        assert(names[vb as int] == names[b]);
        assert(vb as int == b);
    }
}

proof fn lemma_cycle_sorted(
    cycles: Seq<Vec<String>>,
    nodes: Seq<String>,
    ordered: Seq<Vec<usize>>,
    pairs: Seq<(usize, usize)>,
    rank: Seq<usize>,
)
    requires
        groups_ranked(ordered, nodes.len(), pairs, rank),
        names_follow(cycles, nodes, ordered),
        ranks_names(rank, texts(nodes)),
    ensures
        forall|m: int, j: int, l: int|
            0 <= m < cycles.len() && 0 <= j < l < cycles[m]@.len() ==> seq_lt(
                (#[trigger] cycles[m]@[j])@,
                (#[trigger] cycles[m]@[l])@,
            ),
        forall|m: int, h: int|
            0 <= m < h < cycles.len() ==> names_lt(
                texts((#[trigger] cycles[m])@),
                texts((#[trigger] cycles[h])@),
            ),
{
    reveal(groups_ranked);
    reveal(names_follow);
    let names = texts(nodes);
    assert forall|x: int, j: int, l: int|
        0 <= x < cycles.len() && 0 <= j < l < cycles[x]@.len() implies seq_lt(
        (#[trigger] cycles[x]@[j])@,
        (#[trigger] cycles[x]@[l])@,
    ) by {
        let vj = ordered[x]@[j];
        let vl = ordered[x]@[l];
        assert(increasing_by(ordered[x]@, rank));
        assert(rank[vj as int] < rank[vl as int]);
        assert(vj < nodes.len() && vl < nodes.len());
        assert(seq_lt(names[vj as int], names[vl as int]));
    }
    assert forall|x: int, h: int|
        0 <= x < h < cycles.len() implies names_lt(
        texts((#[trigger] cycles[x])@),
        texts((#[trigger] cycles[h])@),
    ) by {
        let vx = ordered[x]@[0];
        let vh = ordered[h]@[0];
        assert(ordered[x]@.len() > 0 && ordered[h]@.len() > 0);
        assert(rank[vx as int] < rank[vh as int]);
        assert(vx < nodes.len() && vh < nodes.len());
        assert(seq_lt(names[vx as int], names[vh as int]));
        let tx = texts(cycles[x]@);
        let th = texts(cycles[h]@);
        assert(tx[0] == names[vx as int]);
        assert(th[0] == names[vh as int]);
        lemma_seq_lt_irreflexive(tx[0]);
    }
}

} // verus!
