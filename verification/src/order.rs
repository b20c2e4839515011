//! Orderings: node indices ranked by name, and sorting by those ranks.
use vstd::prelude::*;
use crate::text::{chars_less, lemma_seq_lt_asymmetric, lemma_seq_lt_irreflexive, lemma_seq_lt_total, lemma_seq_lt_transitive, seq_lt};

verus! {

/// No two entries of `s` are equal.
pub open spec fn distinct<T>(s: Seq<T>) -> bool {
    forall|i: int, j: int| 0 <= i < s.len() && 0 <= j < s.len() && i != j ==> s[i] != s[j]
}

/// The entries of `s` strictly increase under `key`.
pub open spec fn increasing_by(s: Seq<usize>, key: Seq<usize>) -> bool {
    forall|i: int, j: int|
        0 <= i < j < s.len() ==> key[#[trigger] s[i] as int] < key[#[trigger] s[j] as int]
}

pub proof fn lemma_push_contains<T>(s: Seq<T>, x: T, y: T)
    ensures
        s.push(x).contains(y) <==> s.contains(y) || y == x,
{
    if s.push(x).contains(y) && y != x {
        let k = choose|k: int| 0 <= k < s.push(x).len() && s.push(x)[k] == y;
        assert(s[k] == y);
    }
    if s.contains(y) {
        let k = choose|k: int| 0 <= k < s.len() && s[k] == y;
        assert(s.push(x)[k] == y);
    }
    if y == x {
        assert(s.push(x)[s.len() as int] == y);
    }
}

/// Indices `0..names.len()` in increasing name order.
pub fn order_by_name(names: &Vec<Vec<char>>) -> (order: Vec<usize>)
    requires
        distinct(names@.map_values(|v: Vec<char>| v@)),
    ensures
        order@.len() == names@.len(),
        forall|k: int| 0 <= k < order@.len() ==> #[trigger] order@[k] < names@.len(),
        forall|i: usize| i < names@.len() ==> #[trigger] order@.contains(i),
        forall|k: int, l: int|
            0 <= k < l < order@.len() ==> seq_lt(
                names@[#[trigger] order@[k] as int]@,
                names@[#[trigger] order@[l] as int]@,
            ),
        distinct(order@),
{
    let ghost views = names@.map_values(|v: Vec<char>| v@);
    let mut order: Vec<usize> = Vec::new();
    let mut i: usize = 0;
    while i < names.len()
        invariant
            i <= names@.len(),
            views == names@.map_values(|v: Vec<char>| v@),
            distinct(views),
            order@.len() == i,
            forall|k: int| 0 <= k < order@.len() ==> #[trigger] order@[k] < i,
            forall|x: usize| x < i ==> #[trigger] order@.contains(x),
            forall|k: int, l: int|
                0 <= k < l < order@.len() ==> seq_lt(
                    names@[#[trigger] order@[k] as int]@,
                    names@[#[trigger] order@[l] as int]@,
                ),
        decreases names@.len() - i,
    {
        let mut p: usize = 0;
        while p < order.len() && chars_less(&names[order[p]], &names[i])
            invariant
                p <= order@.len(),
                i < names@.len(),
                forall|k: int| 0 <= k < order@.len() ==> #[trigger] order@[k] < i,
                forall|k: int| 0 <= k < p ==> seq_lt(names@[#[trigger] order@[k] as int]@, names@[i as int]@),
            decreases order@.len() - p,
        {
            p = p + 1;
        }
        let ghost before = order@;
        proof {
            if p < before.len() {
                let o = before[p as int] as int;
                assert(views[o] == names@[o]@ && views[i as int] == names@[i as int]@);
                assert(o != i);
                lemma_seq_lt_total(names@[o]@, names@[i as int]@);
            }
        }
        order.insert(p, i);
        proof {
            assert forall|k: int, l: int|
                0 <= k < l < order@.len() implies seq_lt(
                names@[#[trigger] order@[k] as int]@,
                names@[#[trigger] order@[l] as int]@,
            ) by {
                let xi = names@[i as int]@;
                if l == p {
                    assert(order@[k] == before[k]);
                } else if k == p {
                    let b = before[l - 1] as int;
                    assert(order@[l] == before[l - 1]);
                    if l - 1 > p {
                        lemma_seq_lt_transitive(xi, names@[before[p as int] as int]@, names@[b]@);
                    }
                } else if k < p && l > p {
                    assert(order@[l] == before[l - 1]);
                    assert(order@[k] == before[k]);
                    if l - 1 > k {
                    }
                } else if k < p {
                    assert(order@[l] == before[l]);
                    assert(order@[k] == before[k]);
                } else {
                    assert(order@[l] == before[l - 1]);
                    assert(order@[k] == before[k - 1]);
                }
            }
            assert forall|x: usize| x < i + 1 implies #[trigger] order@.contains(x) by {
                if x == i {
                    assert(order@[p as int] == x);
                } else {
                    assert(before.contains(x));
                    let k = choose|k: int| 0 <= k < before.len() && #[trigger] before[k] == x;
                    if k < p {
                        assert(order@[k] == x);
                    } else {
                        assert(order@[k + 1] == x);
                    }
                }
            }
        }
        i = i + 1;
    }
    assert forall|k: int, l: int| 0 <= k < order@.len() && 0 <= l < order@.len() && k != l implies order@[k] != order@[l] by {
        if k < l {
            lemma_seq_lt_irreflexive(names@[order@[k] as int]@);
        } else {
            lemma_seq_lt_irreflexive(names@[order@[l] as int]@);
        }
    }
    order
}

/// The position of each index in `order`: `rank[order[k]] == k`.
pub fn rank_of(order: &Vec<usize>) -> (rank: Vec<usize>)
    requires
        forall|k: int| 0 <= k < order@.len() ==> #[trigger] order@[k] < order@.len(),
        forall|i: usize| i < order@.len() ==> #[trigger] order@.contains(i),
        distinct(order@),
    ensures
        rank@.len() == order@.len(),
        forall|k: int| 0 <= k < order@.len() ==> rank@[#[trigger] order@[k] as int] == k,
        forall|i: int| 0 <= i < order@.len() ==> #[trigger] rank@[i] < order@.len() && order@[rank@[i] as int] == i,
{
    let n = order.len();
    let mut rank: Vec<usize> = Vec::new();
    let mut i: usize = 0;
    while i < n
        invariant
            n == order@.len(),
            i <= n,
            rank@.len() == i,
        decreases n - i,
    {
        rank.push(0);
        i = i + 1;
    }
    let mut k: usize = 0;
    while k < n
        invariant
            n == order@.len(),
            k <= n,
            rank@.len() == n,
            forall|k2: int| 0 <= k2 < order@.len() ==> #[trigger] order@[k2] < order@.len(),
            forall|j: int| 0 <= j < k ==> rank@[#[trigger] order@[j] as int] == j,
            distinct(order@),
        decreases n - k,
    {
        rank.set(order[k], k);
        proof {
            assert forall|j: int| 0 <= j < k + 1 implies rank@[#[trigger] order@[j] as int] == j by {
                if j < k {
                    assert(order@[j] != order@[k as int]);
                }
            }
        }
        k = k + 1;
    }
    proof {
        assert forall|i: int| 0 <= i < order@.len() implies #[trigger] rank@[i] < order@.len()
            && order@[rank@[i] as int] == i by {
            assert(order@.contains(i as usize));
            let k = choose|k: int| 0 <= k < order@.len() && #[trigger] order@[k] == i as usize;
            assert(rank@[order@[k] as int] == k);
        }
    }
    rank
}

/// The distinct `items` in increasing order of `key`, where `key` tells distinct
/// items apart.
pub fn sort_by_key(items: &Vec<usize>, key: &Vec<usize>) -> (sorted: Vec<usize>)
    requires
        forall|i: int| 0 <= i < items@.len() ==> #[trigger] items@[i] < key@.len(),
        forall|a: int, b: int|
            0 <= a < key@.len() && 0 <= b < key@.len() && a != b ==> #[trigger] key@[a]
                != #[trigger] key@[b],
    ensures
        forall|x: usize| sorted@.contains(x) <==> items@.contains(x),
        increasing_by(sorted@, key@),
        forall|k: int| 0 <= k < sorted@.len() ==> #[trigger] sorted@[k] < key@.len(),
        distinct(items@) ==> sorted@.len() == items@.len(),
{
    let mut sorted: Vec<usize> = Vec::new();
    let mut i: usize = 0;
    while i < items.len()
        invariant
            i <= items@.len(),
            forall|i: int| 0 <= i < items@.len() ==> #[trigger] items@[i] < key@.len(),
            forall|a: int, b: int|
                0 <= a < key@.len() && 0 <= b < key@.len() && a != b ==> #[trigger] key@[a]
                    != #[trigger] key@[b],
            forall|x: usize| sorted@.contains(x) <==> items@.subrange(0, i as int).contains(x),
            increasing_by(sorted@, key@),
            forall|k: int| 0 <= k < sorted@.len() ==> #[trigger] sorted@[k] < key@.len(),
            distinct(items@) ==> sorted@.len() == i,
        decreases items@.len() - i,
    {
        let x = items[i];
        let mut p: usize = 0;
        while p < sorted.len() && key[sorted[p]] < key[x]
            invariant
                p <= sorted@.len(),
                x < key@.len(),
                forall|k: int| 0 <= k < sorted@.len() ==> #[trigger] sorted@[k] < key@.len(),
                forall|k: int| 0 <= k < p ==> key@[#[trigger] sorted@[k] as int] < key@[x as int],
            decreases sorted@.len() - p,
        {
            p = p + 1;
        }
        let ghost before = sorted@;
        proof {
            assert(items@.subrange(0, i + 1) =~= items@.subrange(0, i as int).push(x));
            assert forall|y: usize| items@.subrange(0, i + 1).contains(y) <==> items@.subrange(0, i as int).contains(y) || y == x by {
                lemma_push_contains(items@.subrange(0, i as int), x, y);
            }
        }
        if p < sorted.len() && sorted[p] == x {
            proof {
                assert(sorted@.contains(x));
                if distinct(items@) {
                    let k = choose|k: int| 0 <= k < i && items@.subrange(0, i as int)[k] == x;
                    assert(items@[k] == items@[i as int]);
                }
            }
        } else {
            proof {
                if distinct(items@) {
                    if before.contains(x) {
                        let k = choose|k: int| 0 <= k < i && items@.subrange(0, i as int)[k] == x;
                        assert(items@[k] == items@[i as int]);
                    }
                }
            }
            sorted.insert(p, x);
            proof {
                assert forall|k: int, l: int|
                    0 <= k < l < sorted@.len() implies key@[#[trigger] sorted@[k] as int]
                    < key@[#[trigger] sorted@[l] as int] by {
                    if l == p {
                        assert(sorted@[k] == before[k]);
                    } else if k == p {
                        assert(sorted@[l] == before[l - 1]);
                        if l - 1 > p {
                            assert(key@[before[p as int] as int] < key@[before[l - 1] as int]);
                        }
                        assert(before[p as int] != x);
                    } else if k < p && l > p {
                        assert(sorted@[l] == before[l - 1]);
                        assert(sorted@[k] == before[k]);
                    } else if k < p {
                        assert(sorted@[l] == before[l]);
                        assert(sorted@[k] == before[k]);
                    } else {
                        assert(sorted@[l] == before[l - 1]);
                        assert(sorted@[k] == before[k - 1]);
                    }
                }
                assert forall|y: usize| sorted@.contains(y) <==> before.contains(y) || y == x by {
                    if sorted@.contains(y) {
                        let k = choose|k: int| 0 <= k < sorted@.len() && sorted@[k] == y;
                        if k < p {
                            assert(before[k] == y);
                        } else if k > p {
                            assert(before[k - 1] == y);
                        }
                    }
                    if before.contains(y) {
                        let k = choose|k: int| 0 <= k < before.len() && before[k] == y;
                        if k < p {
                            assert(sorted@[k] == y);
                        } else {
                            assert(sorted@[k + 1] == y);
                        }
                    }
                    if y == x {
                        assert(sorted@[p as int] == y);
                    }
                }
            }
        }
        proof {
            assert forall|y: usize| sorted@.contains(y) <==> items@.subrange(0, i + 1).contains(y) by {
                assert(before.contains(y) <==> items@.subrange(0, i as int).contains(y));
                assert(items@.subrange(0, i + 1).contains(y) <==> items@.subrange(0, i as int).contains(y) || y == x);
                if !(p < before.len() && before[p as int] == x) {
                    assert(sorted@.contains(y) <==> before.contains(y) || y == x);
                } else {
                    assert(sorted@ == before);
                    assert(before.contains(x));
                }
            }
        }
        i = i + 1;
    }
    assert(items@.subrange(0, items@.len() as int) =~= items@);
    sorted
}

/// The pairs in increasing order of `(key[a], key[b])`, each once.
pub fn sort_pairs(pairs: &Vec<(usize, usize)>, key: &Vec<usize>) -> (sorted: Vec<(usize, usize)>)
    requires
        forall|i: int|
            0 <= i < pairs@.len() ==> (#[trigger] pairs@[i]).0 < key@.len() && pairs@[i].1
                < key@.len(),
        forall|a: int, b: int|
            0 <= a < key@.len() && 0 <= b < key@.len() && a != b ==> #[trigger] key@[a]
                != #[trigger] key@[b],
    ensures
        forall|x: (usize, usize)| sorted@.contains(x) <==> pairs@.contains(x),
        forall|k: int, l: int|
            0 <= k < l < sorted@.len() ==> pair_lt(
                key@,
                #[trigger] sorted@[k],
                #[trigger] sorted@[l],
            ),
        forall|k: int|
            0 <= k < sorted@.len() ==> (#[trigger] sorted@[k]).0 < key@.len() && sorted@[k].1
                < key@.len(),
{
    let mut sorted: Vec<(usize, usize)> = Vec::new();
    let mut i: usize = 0;
    while i < pairs.len()
        invariant
            i <= pairs@.len(),
            forall|i: int|
                0 <= i < pairs@.len() ==> (#[trigger] pairs@[i]).0 < key@.len() && pairs@[i].1
                    < key@.len(),
            forall|a: int, b: int|
                0 <= a < key@.len() && 0 <= b < key@.len() && a != b ==> #[trigger] key@[a]
                    != #[trigger] key@[b],
            forall|x: (usize, usize)| sorted@.contains(x) <==> pairs@.subrange(0, i as int).contains(x),
            forall|k: int, l: int|
                0 <= k < l < sorted@.len() ==> pair_lt(key@, #[trigger] sorted@[k], #[trigger] sorted@[l]),
            forall|k: int|
                0 <= k < sorted@.len() ==> (#[trigger] sorted@[k]).0 < key@.len() && sorted@[k].1
                    < key@.len(),
        decreases pairs@.len() - i,
    {
        let x = pairs[i];
        let mut p: usize = 0;
        while p < sorted.len() && (key[sorted[p].0] < key[x.0] || (key[sorted[p].0] == key[x.0]
            && key[sorted[p].1] < key[x.1]))
            invariant
                p <= sorted@.len(),
                x.0 < key@.len() && x.1 < key@.len(),
                forall|k: int|
                    0 <= k < sorted@.len() ==> (#[trigger] sorted@[k]).0 < key@.len() && sorted@[k].1
                        < key@.len(),
                forall|k: int| 0 <= k < p ==> pair_lt(key@, #[trigger] sorted@[k], x),
            decreases sorted@.len() - p,
        {
            p = p + 1;
        }
        let ghost before = sorted@;
        proof {
            assert(pairs@.subrange(0, i + 1) =~= pairs@.subrange(0, i as int).push(x));
            assert forall|y: (usize, usize)| pairs@.subrange(0, i + 1).contains(y) <==> pairs@.subrange(0, i as int).contains(y) || y == x by {
                lemma_push_contains(pairs@.subrange(0, i as int), x, y);
            }
        }
        if p < sorted.len() && sorted[p].0 == x.0 && sorted[p].1 == x.1 {
            proof {
                assert(sorted@[p as int] == x);
            }
        } else {
            sorted.insert(p, x);
            proof {
                if p < before.len() {
                    let y = before[p as int];
                    assert(!pair_lt(key@, y, x));
                    assert(y != x);
                    assert(y.0 != x.0 ==> key@[y.0 as int] != key@[x.0 as int]);
                    assert(y.1 != x.1 ==> key@[y.1 as int] != key@[x.1 as int]);
                    assert(pair_lt(key@, x, y));
                }
                assert forall|k: int, l: int|
                    0 <= k < l < sorted@.len() implies pair_lt(key@, #[trigger] sorted@[k], #[trigger] sorted@[l]) by {
                    if l == p {
                        assert(sorted@[k] == before[k]);
                    } else if k == p {
                        assert(sorted@[l] == before[l - 1]);
                        if l - 1 > p {
                            assert(pair_lt(key@, before[p as int], before[l - 1]));
                        }
                    } else if k < p && l > p {
                        assert(sorted@[l] == before[l - 1]);
                        assert(sorted@[k] == before[k]);
                    } else if k < p {
                        assert(sorted@[l] == before[l]);
                        assert(sorted@[k] == before[k]);
                    } else {
                        assert(sorted@[l] == before[l - 1]);
                        assert(sorted@[k] == before[k - 1]);
                    }
                }
                assert forall|y: (usize, usize)| sorted@.contains(y) <==> before.contains(y) || y == x by {
                    if sorted@.contains(y) {
                        let k = choose|k: int| 0 <= k < sorted@.len() && sorted@[k] == y;
                        if k < p {
                            assert(before[k] == y);
                        } else if k > p {
                            assert(before[k - 1] == y);
                        }
                    }
                    if before.contains(y) {
                        let k = choose|k: int| 0 <= k < before.len() && before[k] == y;
                        if k < p {
                            assert(sorted@[k] == y);
                        } else {
                            assert(sorted@[k + 1] == y);
                        }
                    }
                    if y == x {
                        assert(sorted@[p as int] == y);
                    }
                }
            }
        }
        proof {
            assert forall|y: (usize, usize)| sorted@.contains(y) <==> pairs@.subrange(0, i + 1).contains(y) by {
                assert(before.contains(y) <==> pairs@.subrange(0, i as int).contains(y));
                assert(pairs@.subrange(0, i + 1).contains(y) <==> pairs@.subrange(0, i as int).contains(y) || y == x);
                if !(p < before.len() && before[p as int] == x) {
                    assert(sorted@.contains(y) <==> before.contains(y) || y == x);
                } else {
                    assert(sorted@ == before);
                    assert(before.contains(x));
                }
            }
        }
        i = i + 1;
    }
    assert(pairs@.subrange(0, pairs@.len() as int) =~= pairs@);
    sorted
}

/// Lexicographic order of pairs of indices, each index compared by its key.
pub open spec fn pair_lt(key: Seq<usize>, a: (usize, usize), b: (usize, usize)) -> bool {
    key[a.0 as int] < key[b.0 as int] || (key[a.0 as int] == key[b.0 as int] && key[a.1 as int]
        < key[b.1 as int])
}

/// `rank` orders indices as `seq_lt` orders their names.
pub open spec fn ranks_names(rank: Seq<usize>, names: Seq<Seq<char>>) -> bool {
    &&& rank.len() == names.len()
    &&& forall|a: int| 0 <= a < rank.len() ==> #[trigger] rank[a] < rank.len()
    &&& forall|a: int, b: int|
        0 <= a < rank.len() && 0 <= b < rank.len() ==> (#[trigger] rank[a] < #[trigger] rank[b]
            <==> seq_lt(names[a], names[b]))
    &&& forall|a: int, b: int|
        0 <= a < rank.len() && 0 <= b < rank.len() && a != b ==> #[trigger] rank[a]
            != #[trigger] rank[b]
}

/// The position of each name in increasing name order.
pub fn name_ranks(names: &Vec<Vec<char>>) -> (rank: Vec<usize>)
    requires
        distinct(names@.map_values(|v: Vec<char>| v@)),
    ensures
        ranks_names(rank@, names@.map_values(|v: Vec<char>| v@)),
{
    let order = order_by_name(names);
    let rank = rank_of(&order);
    let ghost views = names@.map_values(|v: Vec<char>| v@);
    proof {
        assert forall|a: int, b: int|
            0 <= a < rank@.len() && 0 <= b < rank@.len() implies (#[trigger] rank@[a]
            < #[trigger] rank@[b] <==> seq_lt(views[a], views[b])) by {
            let ka = rank@[a] as int;
            let kb = rank@[b] as int;
            assert(order@[ka] == a && order@[kb] == b);
            if ka < kb {
                assert(seq_lt(names@[order@[ka] as int]@, names@[order@[kb] as int]@));
            } else if kb < ka {
                assert(seq_lt(names@[order@[kb] as int]@, names@[order@[ka] as int]@));
                lemma_seq_lt_asymmetric(views[b], views[a]);
            } else {
                lemma_seq_lt_irreflexive(views[a]);
            }
        }
        assert forall|a: int, b: int|
            0 <= a < rank@.len() && 0 <= b < rank@.len() && a != b implies #[trigger] rank@[a]
            != #[trigger] rank@[b] by {
            assert(order@[rank@[a] as int] == a && order@[rank@[b] as int] == b);
        }
    }
    rank
}

} // verus!
