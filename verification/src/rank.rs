//! Ranking of scored keys.
//!
//! Several parts of the library keep "the best few" of a set of keyed scores:
//! the strongest edges of a node, the most energetic nodes of a diffusion
//! round, the closest anchors of a query. They all rank the same way: a higher
//! score comes first, and among equal scores the smaller key comes first. The
//! order is total, so a ranking is unique.

use vstd::prelude::*;

verus! {

/// Whether key `a` is ranked strictly before key `b` under `scores`.
pub open spec fn comes_before(scores: Map<int, int>, a: int, b: int) -> bool {
    scores[a] > scores[b] || (scores[a] == scores[b] && a < b)
}

/// `order` lists every key of `scores` exactly once, best first.
pub open spec fn is_ranking(order: Seq<int>, scores: Map<int, int>) -> bool {
    &&& order.no_duplicates()
    &&& forall|k: int| order.contains(k) <==> scores.contains_key(k)
    &&& forall|i: int, j: int|
        0 <= i < j < order.len() ==> comes_before(scores, #[trigger] order[i], #[trigger] order[j])
}

/// The ranking of `scores`: its keys, best first.
pub open spec fn ranking(scores: Map<int, int>) -> Seq<int> {
    choose|order: Seq<int>| is_ranking(order, scores)
}

/// The table that a sequence of `(key, score)` entries spells out. Where a key
/// occurs more than once, one of its entries is taken.
pub open spec fn table_of(entries: Seq<(i128, i128)>) -> Map<int, int> {
    Map::new(
        |k: int| exists|i: int| 0 <= i < entries.len() && #[trigger] entries[i].0 == k,
        |k: int|
            entries[choose|i: int| 0 <= i < entries.len() && #[trigger] entries[i].0 == k].1 as int,
    )
}

/// No key occurs in two entries.
pub open spec fn distinct_keys(entries: Seq<(i128, i128)>) -> bool {
    forall|i: int, j: int|
        0 <= i < entries.len() && 0 <= j < entries.len() && i != j ==> #[trigger] entries[i].0
            != #[trigger] entries[j].0
}

/// The keys of a sequence of entries, in their order.
pub open spec fn keys_of(entries: Seq<(i128, i128)>) -> Seq<int> {
    Seq::new(entries.len(), |i: int| entries[i].0 as int)
}

/// Lexicographic order on pairs, the order that the standard library gives to
/// tuples.
pub open spec fn pair_le(a: (i128, i128), b: (i128, i128)) -> bool {
    a.0 < b.0 || (a.0 == b.0 && a.1 <= b.1)
}

/// Whether `cost` is what sorting uses for one of the entries: its score
/// negated, then its key.
spec fn costs_entry(cost: (i128, i128), entries: Seq<(i128, i128)>) -> bool {
    exists|j: int|
        0 <= j < entries.len() && cost.0 == -(#[trigger] entries[j]).1 && cost.1 == entries[j].0
}

/// With distinct keys, the table holds each entry's score under its key.
pub proof fn lemma_table_of(entries: Seq<(i128, i128)>)
    requires
        distinct_keys(entries),
    ensures
        forall|i: int|
            0 <= i < entries.len() ==> table_of(entries).contains_key(#[trigger] entries[i].0 as int)
                && table_of(entries)[entries[i].0 as int] == entries[i].1,
        forall|k: int|
            table_of(entries).contains_key(k) ==> exists|i: int|
                0 <= i < entries.len() && #[trigger] entries[i].0 == k,
{
    assert forall|i: int| 0 <= i < entries.len() implies table_of(entries).contains_key(
        #[trigger] entries[i].0 as int,
    ) && table_of(entries)[entries[i].0 as int] == entries[i].1 by {
        let k = entries[i].0 as int;
        let j = choose|j: int| 0 <= j < entries.len() && #[trigger] entries[j].0 == k;
        assert(j == i);
    }
}

/// A table has at most one ranking.
pub proof fn lemma_ranking_unique(a: Seq<int>, b: Seq<int>, scores: Map<int, int>)
    requires
        is_ranking(a, scores),
        is_ranking(b, scores),
    ensures
        a == b,
    decreases a.len(),
{
    if a.len() == 0 {
        if b.len() > 0 {
            assert(b.contains(b[0]));
            assert(a.contains(b[0]));
        }
        assert(a =~= b);
    } else {
        assert(a.contains(a[0]));
        assert(b.contains(a[0]));
        let jb = choose|j: int| 0 <= j < b.len() && b[j] == a[0];
        assert(b.contains(b[0]));
        assert(a.contains(b[0]));
        let ja = choose|j: int| 0 <= j < a.len() && a[j] == b[0];
        if jb != 0 {
            assert(comes_before(scores, b[0], b[jb]));
            if ja != 0 {
                assert(comes_before(scores, a[0], a[ja]));
            }
        }
        assert(a[0] == b[0]);
        let rest = scores.remove(a[0]);
        let ta = a.drop_first();
        let tb = b.drop_first();
        assert forall|k: int| ta.contains(k) <==> rest.contains_key(k) by {
            if ta.contains(k) {
                let i = choose|i: int| 0 <= i < ta.len() && ta[i] == k;
                assert(a[i + 1] == k);
                assert(a.contains(k));
            }
            if rest.contains_key(k) {
                assert(a.contains(k));
                let i = choose|i: int| 0 <= i < a.len() && a[i] == k;
                assert(ta[i - 1] == k);
            }
        }
        assert forall|k: int| tb.contains(k) <==> rest.contains_key(k) by {
            if tb.contains(k) {
                let i = choose|i: int| 0 <= i < tb.len() && tb[i] == k;
                assert(b[i + 1] == k);
                assert(b.contains(k));
            }
            if rest.contains_key(k) {
                assert(b.contains(k));
                let i = choose|i: int| 0 <= i < b.len() && b[i] == k;
                assert(tb[i - 1] == k);
            }
        }
        assert forall|i: int, j: int| 0 <= i < j < ta.len() implies comes_before(
            rest,
            #[trigger] ta[i],
            #[trigger] ta[j],
        ) by {
            assert(comes_before(scores, a[i + 1], a[j + 1]));
            assert(ta.contains(ta[i]));
            assert(ta.contains(ta[j]));
        }
        assert forall|i: int, j: int| 0 <= i < j < tb.len() implies comes_before(
            rest,
            #[trigger] tb[i],
            #[trigger] tb[j],
        ) by {
            assert(comes_before(scores, b[i + 1], b[j + 1]));
            assert(tb.contains(tb[i]));
            assert(tb.contains(tb[j]));
        }
        lemma_ranking_unique(ta, tb, rest);
        assert(a =~= seq![a[0]] + ta);
        assert(b =~= seq![b[0]] + tb);
    }
}

/// Any ranking of a table is the ranking of that table.
pub proof fn lemma_ranking_is(order: Seq<int>, scores: Map<int, int>)
    requires
        is_ranking(order, scores),
    ensures
        order == ranking(scores),
        is_ranking(ranking(scores), scores),
{
    lemma_ranking_unique(order, ranking(scores), scores);
}

/// `order` with the key `k` put in at its rank: before the first key that it
/// comes before.
pub open spec fn placed(order: Seq<int>, scores: Map<int, int>, k: int) -> Seq<int>
    decreases order.len(),
{
    if order.len() == 0 {
        seq![k]
    } else if comes_before(scores, k, order[0]) {
        seq![k] + order
    } else {
        seq![order[0]] + placed(order.drop_first(), scores, k)
    }
}

/// Putting a new key into a ranked sequence at its rank keeps the sequence
/// ranked and adds just that key.
pub proof fn lemma_placed(order: Seq<int>, scores: Map<int, int>, k: int)
    requires
        order.no_duplicates(),
        !order.contains(k),
        forall|i: int, j: int|
            0 <= i < j < order.len() ==> comes_before(scores, #[trigger] order[i], #[trigger] order[j]),
    ensures
        placed(order, scores, k).len() == order.len() + 1,
        placed(order, scores, k).no_duplicates(),
        forall|x: int| placed(order, scores, k).contains(x) <==> (x == k || order.contains(x)),
        forall|i: int, j: int|
            0 <= i < j < placed(order, scores, k).len() ==> comes_before(
                scores,
                #[trigger] placed(order, scores, k)[i],
                #[trigger] placed(order, scores, k)[j],
            ),
    decreases order.len(),
{
    let r = placed(order, scores, k);
    if order.len() == 0 {
        assert forall|x: int| r.contains(x) <==> (x == k || order.contains(x)) by {
            if r.contains(x) {
                let i = choose|i: int| 0 <= i < r.len() && r[i] == x;
                assert(x == k);
            }
            if x == k {
                assert(r[0] == k);
            }
        }
    } else if comes_before(scores, k, order[0]) {
        assert(r =~= seq![k] + order);
        assert forall|x: int| r.contains(x) <==> (x == k || order.contains(x)) by {
            if r.contains(x) {
                let i = choose|i: int| 0 <= i < r.len() && r[i] == x;
                if i > 0 {
                    assert(order[i - 1] == x);
                }
            }
            if x == k {
                assert(r[0] == k);
            }
            if order.contains(x) {
                let i = choose|i: int| 0 <= i < order.len() && order[i] == x;
                assert(r[i + 1] == x);
            }
        }
        assert forall|i: int, j: int| 0 <= i < j < r.len() implies comes_before(
            scores,
            #[trigger] r[i],
            #[trigger] r[j],
        ) by {
            if i == 0 {
                if j > 1 {
                    assert(comes_before(scores, order[0], order[j - 1]));
                }
            } else {
                assert(comes_before(scores, order[i - 1], order[j - 1]));
            }
        }
        assert forall|i: int, j: int| 0 <= i < r.len() && 0 <= j < r.len() && i != j implies r[i]
            != r[j] by {
            if i > 0 && j > 0 {
                assert(order[i - 1] != order[j - 1]);
            } else if i == 0 {
                assert(order.contains(order[j - 1]));
            } else {
                assert(order.contains(order[i - 1]));
            }
        }
    } else {
        let tail = order.drop_first();
        let rest = placed(tail, scores, k);
        assert forall|x: int| tail.contains(x) implies order.contains(x) by {
            let i = choose|i: int| 0 <= i < tail.len() && tail[i] == x;
            assert(order[i + 1] == x);
        }
        assert forall|i: int, j: int| 0 <= i < j < tail.len() implies comes_before(
            scores,
            #[trigger] tail[i],
            #[trigger] tail[j],
        ) by {
            assert(comes_before(scores, order[i + 1], order[j + 1]));
        }
        lemma_placed(tail, scores, k);
        assert(r =~= seq![order[0]] + rest);
        assert(order.contains(order[0]));
        assert forall|x: int| r.contains(x) <==> (x == k || order.contains(x)) by {
            if r.contains(x) {
                let i = choose|i: int| 0 <= i < r.len() && r[i] == x;
                if i > 0 {
                    assert(rest[i - 1] == x);
                    assert(rest.contains(x));
                }
            }
            if x == k || order.contains(x) {
                if x == order[0] {
                    assert(r[0] == x);
                } else {
                    if order.contains(x) {
                        let i = choose|i: int| 0 <= i < order.len() && order[i] == x;
                        assert(tail[i - 1] == x);
                        assert(tail.contains(x));
                    }
                    assert(rest.contains(x));
                    let j = choose|j: int| 0 <= j < rest.len() && rest[j] == x;
                    assert(r[j + 1] == x);
                }
            }
        }
        assert forall|i: int, j: int| 0 <= i < j < r.len() implies comes_before(
            scores,
            #[trigger] r[i],
            #[trigger] r[j],
        ) by {
            if i == 0 {
                let x = rest[j - 1];
                assert(rest.contains(x));
                if x == k {
                    assert(order[0] != k);
                } else {
                    assert(tail.contains(x));
                    let m = choose|m: int| 0 <= m < tail.len() && tail[m] == x;
                    assert(comes_before(scores, order[0], order[m + 1]));
                }
            } else {
                assert(comes_before(scores, rest[i - 1], rest[j - 1]));
            }
        }
        assert forall|i: int, j: int| 0 <= i < r.len() && 0 <= j < r.len() && i != j implies r[i]
            != r[j] by {
            if i > 0 && j > 0 {
                assert(rest[i - 1] != rest[j - 1]);
            } else {
                let other = if i == 0 {
                    j
                } else {
                    i
                };
                let x = rest[other - 1];
                assert(rest.contains(x));
                if x != k {
                    assert(tail.contains(x));
                    let m = choose|m: int| 0 <= m < tail.len() && tail[m] == x;
                    assert(order[m + 1] != order[0]);
                }
            }
        }
    }
}

/// The table of entries with distinct keys has a ranking, so that its ranking
/// is one.
pub proof fn lemma_ranking_exists(entries: Seq<(i128, i128)>)
    requires
        distinct_keys(entries),
    ensures
        is_ranking(ranking(table_of(entries)), table_of(entries)),
        ranking(table_of(entries)).len() == entries.len(),
    decreases entries.len(),
{
    let table = table_of(entries);
    lemma_table_of(entries);
    if entries.len() == 0 {
        let order = Seq::<int>::empty();
        assert(is_ranking(order, table));
        lemma_ranking_is(order, table);
    } else {
        let init = entries.drop_last();
        let last = entries.last();
        let k = last.0 as int;
        assert forall|i: int, j: int|
            0 <= i < init.len() && 0 <= j < init.len() && i != j implies #[trigger] init[i].0
            != #[trigger] init[j].0 by {
            assert(init[i] == entries[i] && init[j] == entries[j]);
        }
        lemma_ranking_exists(init);
        lemma_table_of(init);
        let before = table_of(init);
        let order = ranking(before);
        assert forall|x: int| before.contains_key(x) implies table.contains_key(x) && table[x]
            == before[x] && x != k by {
            let i = choose|i: int| 0 <= i < init.len() && #[trigger] init[i].0 == x;
            assert(init[i] == entries[i]);
            assert(entries[i].0 != entries[entries.len() - 1].0);
            assert(table[entries[i].0 as int] == entries[i].1);
            assert(before[init[i].0 as int] == init[i].1);
        }
        assert(!order.contains(k));
        assert forall|i: int, j: int| 0 <= i < j < order.len() implies comes_before(
            table,
            #[trigger] order[i],
            #[trigger] order[j],
        ) by {
            assert(order.contains(order[i]));
            assert(order.contains(order[j]));
            assert(comes_before(before, order[i], order[j]));
        }
        lemma_placed(order, table, k);
        let r = placed(order, table, k);
        assert(table.contains_key(entries[entries.len() - 1].0 as int));
        assert forall|x: int| r.contains(x) <==> table.contains_key(x) by {
            if table.contains_key(x) && x != k {
                let i = choose|i: int| 0 <= i < entries.len() && #[trigger] entries[i].0 == x;
                assert(i != entries.len() - 1);
                assert(init[i] == entries[i]);
                assert(before.contains_key(init[i].0 as int));
                assert(order.contains(x));
                assert(r.contains(x));
            }
            if r.contains(x) && x != k {
                assert(order.contains(x));
                assert(before.contains_key(x));
                assert(table.contains_key(x));
            }
        }
        assert(is_ranking(r, table));
        lemma_ranking_is(r, table);
    }
}

/// `slice::sort` on pairs of integers: afterwards the vector holds the same
/// pairs as before, each as often as before, in ascending lexicographic order,
/// which is the order that the standard library documents for tuples.
#[verifier::external_body]
fn sort_pairs(pairs: &mut Vec<(i128, i128)>)
    ensures
        final(pairs)@.to_multiset() == old(pairs)@.to_multiset(),
        forall|i: int, j: int|
            0 <= i < j < final(pairs)@.len() ==> pair_le(
                #[trigger] final(pairs)@[i],
                #[trigger] final(pairs)@[j],
            ),
{
    pairs.sort();
}

/// Ranks `(key, score)` entries: the result holds the same entries, best
/// first.
pub fn rank_entries(entries: &Vec<(i128, i128)>) -> (ranked: Vec<(i128, i128)>)
    requires
        distinct_keys(entries@),
        forall|i: int| 0 <= i < entries@.len() ==> (#[trigger] entries@[i]).1 > i128::MIN,
    ensures
        ranked@.len() == entries@.len(),
        distinct_keys(ranked@),
        keys_of(ranked@) == ranking(table_of(entries@)),
        is_ranking(keys_of(ranked@), table_of(entries@)),
        forall|i: int|
            0 <= i < ranked@.len() ==> table_of(entries@)[(#[trigger] ranked@[i]).0 as int]
                == ranked@[i].1,
{
    broadcast use vstd::seq_lib::group_to_multiset_ensures;

    let n = entries.len();
    let mut costs: Vec<(i128, i128)> = Vec::new();
    let mut i: usize = 0;
    while i < n
        invariant
            n == entries@.len(),
            i <= n,
            costs@.len() == i,
            forall|j: int| 0 <= j < entries@.len() ==> (#[trigger] entries@[j]).1 > i128::MIN,
            forall|j: int|
                0 <= j < i ==> (#[trigger] costs@[j]).0 == -entries@[j].1 && costs@[j].1
                    == entries@[j].0,
        decreases n - i,
    {
        let e = entries[i];
        costs.push((-e.1, e.0));
        i = i + 1;
    }
    let ghost unsorted = costs@;
    sort_pairs(&mut costs);
    let ghost sorted = costs@;
    proof {
        vstd::seq_lib::to_multiset_len(unsorted);
        vstd::seq_lib::to_multiset_len(sorted);
        assert(sorted.len() == n);
        assert forall|a: int| 0 <= a < n implies exists|j: int|
            0 <= j < n && unsorted[j] == #[trigger] sorted[a] by {
            assert(sorted.contains(sorted[a]));
            assert(sorted.to_multiset().count(sorted[a]) > 0);
            assert(unsorted.contains(sorted[a]));
        }
        assert forall|j: int| 0 <= j < n implies exists|a: int|
            0 <= a < n && sorted[a] == #[trigger] unsorted[j] by {
            assert(unsorted.contains(unsorted[j]));
            assert(unsorted.to_multiset().count(unsorted[j]) > 0);
            assert(sorted.contains(unsorted[j]));
        }
        assert(unsorted.no_duplicates()) by {
            assert forall|x: int, y: int|
                0 <= x < unsorted.len() && 0 <= y < unsorted.len() && x != y implies unsorted[x]
                != unsorted[y] by {
                assert(entries@[x].0 != entries@[y].0);
            }
        }
        unsorted.lemma_multiset_has_no_duplicates();
        sorted.lemma_multiset_has_no_duplicates_conv();
        assert forall|x: int| 0 <= x < n implies costs_entry(#[trigger] sorted[x], entries@) by {
            let j = choose|j: int| 0 <= j < n && unsorted[j] == sorted[x];
            assert(unsorted[j].0 == -entries@[j].1 && unsorted[j].1 == entries@[j].0);
        }
    }
    let mut ranked: Vec<(i128, i128)> = Vec::new();
    let mut a: usize = 0;
    while a < n
        invariant
            n == costs@.len(),
            costs@ == sorted,
            a <= n,
            ranked@.len() == a,
            forall|x: int| 0 <= x < n ==> costs_entry(#[trigger] sorted[x], entries@),
            forall|j: int| 0 <= j < entries@.len() ==> (#[trigger] entries@[j]).1 > i128::MIN,
            forall|x: int|
                0 <= x < a ==> (#[trigger] ranked@[x]).0 == sorted[x].1 && ranked@[x].1
                    == -sorted[x].0,
        decreases n - a,
    {
        let c = costs[a];
        proof {
            assert(costs_entry(sorted[a as int], entries@));
            let j = choose|j: int|
                0 <= j < entries@.len() && sorted[a as int].0 == -(#[trigger] entries@[j]).1
                    && sorted[a as int].1 == entries@[j].0;
            assert(entries@[j].1 > i128::MIN);
        }
        ranked.push((c.1, -c.0));
        a = a + 1;
    }
    proof {
        let table = table_of(entries@);
        let order = keys_of(ranked@);
        lemma_table_of(entries@);
        assert forall|x: int| 0 <= x < n implies table.contains_key((#[trigger] ranked@[x]).0 as int)
            && table[ranked@[x].0 as int] == ranked@[x].1 by {
            let j = choose|j: int| 0 <= j < n && unsorted[j] == sorted[x];
            assert(entries@[j].0 == ranked@[x].0);
        }
        assert forall|x: int, y: int| 0 <= x < n && 0 <= y < n && x != y implies ranked@[x].0
            != ranked@[y].0 by {
            if ranked@[x].0 == ranked@[y].0 {
                assert(table[ranked@[x].0 as int] == ranked@[x].1);
                assert(table[ranked@[y].0 as int] == ranked@[y].1);
                assert(sorted[x] == sorted[y]);
            }
        }
        assert(order.no_duplicates()) by {
            assert forall|x: int, y: int|
                0 <= x < order.len() && 0 <= y < order.len() && x != y implies order[x]
                != order[y] by {
                assert(ranked@[x].0 != ranked@[y].0);
            }
        }
        assert forall|k: int| order.contains(k) <==> table.contains_key(k) by {
            if order.contains(k) {
                let x = choose|x: int| 0 <= x < order.len() && order[x] == k;
                assert(table.contains_key(ranked@[x].0 as int));
            }
            if table.contains_key(k) {
                let j = choose|j: int| 0 <= j < entries@.len() && #[trigger] entries@[j].0 == k;
                let x = choose|x: int| 0 <= x < n && sorted[x] == unsorted[j];
                assert(order[x] == k);
            }
        }
        assert forall|x: int, y: int| 0 <= x < y < order.len() implies comes_before(
            table,
            #[trigger] order[x],
            #[trigger] order[y],
        ) by {
            assert(pair_le(sorted[x], sorted[y]));
            assert(table[ranked@[x].0 as int] == ranked@[x].1);
            assert(table[ranked@[y].0 as int] == ranked@[y].1);
            assert(ranked@[x].0 != ranked@[y].0);
        }
        lemma_ranking_is(order, table);
    }
    ranked
}

} // verus!
