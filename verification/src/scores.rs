//! Activation scores: a table from memory identifiers to energies.
//!
//! An energy is a fixed-point number that is never negative and that
//! diffusion keeps at or below [`ENERGY_CAP`].

use crate::rank::{
    distinct_keys, is_ranking, keys_of, lemma_table_of, rank_entries, ranking, table_of,
};
use std::collections::HashMap;
use vstd::prelude::*;

verus! {

/// The highest energy that diffusion lets a node hold: 2.0.
pub const ENERGY_CAP: u32 = 0x8000_0000;

/// `energy` limited to the cap.
pub open spec fn capped(energy: int) -> u32 {
    if energy > ENERGY_CAP {
        ENERGY_CAP
    } else {
        energy as u32
    }
}

/// `scores` with every energy limited to the cap.
pub open spec fn capped_scores(scores: Map<i64, u32>) -> Map<i64, u32> {
    Map::new(|node: i64| scores.contains_key(node), |node: i64| capped(scores[node] as int))
}

/// No energy of `scores` exceeds the cap.
pub open spec fn within_cap(scores: Map<i64, u32>) -> bool {
    forall|node: i64| scores.contains_key(node) ==> #[trigger] scores[node] <= ENERGY_CAP
}

/// The nodes of `scores` that hold at least `min_score`, each with its energy,
/// as a table to rank.
pub open spec fn eligible(scores: Map<i64, u32>, min_score: u32) -> Map<int, int> {
    Map::new(
        |k: int|
            i64::MIN <= k <= i64::MAX && scores.contains_key(k as i64) && scores[k as i64]
                >= min_score,
        |k: int| scores[k as i64] as int,
    )
}

/// The `limit` most energetic nodes of `scores` among those that hold at least
/// `min_score`, each with its energy, most energetic first; among nodes with
/// equal energy the one with the smaller identifier comes first.
pub open spec fn strongest_nodes(scores: Map<i64, u32>, min_score: u32, limit: nat) -> Seq<
    (i64, u32),
> {
    let order = ranking(eligible(scores, min_score));
    let kept = if limit < order.len() {
        limit
    } else {
        order.len()
    };
    Seq::new(kept, |i: int| (order[i] as i64, scores[order[i] as i64]))
}

/// The identifiers of a sequence of nodes with energies.
pub open spec fn node_ids(nodes: Seq<(i64, u32)>) -> Seq<i64> {
    Seq::new(nodes.len(), |i: int| nodes[i].0)
}

/// The entries of a score table, each once, in no particular order.
pub fn entries_of(scores: &HashMap<i64, u32>) -> (entries: Vec<(i64, u32)>)
    ensures
        entries@.len() == scores@.dom().len(),
        forall|i: int|
            0 <= i < entries@.len() ==> scores@.contains_key((#[trigger] entries@[i]).0)
                && scores@[entries@[i].0] == entries@[i].1,
        forall|node: i64|
            scores@.contains_key(node) ==> exists|i: int|
                0 <= i < entries@.len() && (#[trigger] entries@[i]).0 == node,
        forall|i: int, j: int|
            0 <= i < j < entries@.len() ==> (#[trigger] entries@[i]).0 != (#[trigger] entries@[j]).0,
{
    let mut entries: Vec<(i64, u32)> = Vec::new();
    for entry in it: scores.iter()
        invariant
            entries@.len() == it.index(),
            it.seq().no_duplicates(),
            forall|i: int|
                0 <= i < it.seq().len() ==> scores@.contains_key(*it.seq()[i].0)
                    && scores@[*it.seq()[i].0] == *it.seq()[i].1,
            forall|i: int|
                0 <= i < entries@.len() ==> entries@[i].0 == *it.seq()[i].0 && entries@[i].1
                    == *it.seq()[i].1,
    {
        entries.push((*entry.0, *entry.1));
    }
    entries
}

/// Limits every energy of `scores` to the cap.
pub fn cap_scores(scores: &HashMap<i64, u32>) -> (limited: HashMap<i64, u32>)
    ensures
        limited@ == capped_scores(scores@),
        within_cap(limited@),
{
    let entries = entries_of(scores);
    let mut limited: HashMap<i64, u32> = HashMap::new();
    let mut i: usize = 0;
    while i < entries.len()
        invariant
            i <= entries@.len(),
            forall|j: int|
                0 <= j < entries@.len() ==> scores@.contains_key((#[trigger] entries@[j]).0)
                    && scores@[entries@[j].0] == entries@[j].1,
            forall|node: i64|
                limited@.contains_key(node) <==> exists|j: int|
                    0 <= j < i && (#[trigger] entries@[j]).0 == node,
            forall|node: i64|
                limited@.contains_key(node) ==> #[trigger] limited@[node] == capped(
                    scores@[node] as int,
                ),
        decreases entries@.len() - i,
    {
        let e = entries[i];
        let energy = if e.1 > ENERGY_CAP {
            ENERGY_CAP
        } else {
            e.1
        };
        limited.insert(e.0, energy);
        i = i + 1;
    }
    proof {
        assert(limited@ =~= capped_scores(scores@));
    }
    limited
}

/// Whether `entry` is one of the first `upto` of `all` and holds at least
/// `min_score`.
spec fn taken_from(entry: (i128, i128), all: Seq<(i64, u32)>, upto: int, min_score: u32) -> bool {
    exists|j: int|
        0 <= j < upto && (#[trigger] all[j]).0 == entry.0 && all[j].1 == entry.1 && all[j].1
            >= min_score
}

/// Whether `candidates` holds the entry `(node, energy)`.
spec fn holds_entry(candidates: Seq<(i128, i128)>, node: i64, energy: u32) -> bool {
    exists|x: int|
        0 <= x < candidates.len() && (#[trigger] candidates[x]).0 == node && candidates[x].1
            == energy
}

/// Selects the `limit` most energetic nodes among those of `scores` that hold
/// at least `min_score`.
pub fn select_strongest(scores: &HashMap<i64, u32>, min_score: u32, limit: usize) -> (nodes: Vec<
    (i64, u32),
>)
    ensures
        nodes@ == strongest_nodes(scores@, min_score, limit as nat),
        nodes@.len() <= limit,
        forall|i: int|
            0 <= i < nodes@.len() ==> scores@.contains_key((#[trigger] nodes@[i]).0)
                && scores@[nodes@[i].0] == nodes@[i].1 && nodes@[i].1 >= min_score,
        forall|i: int, j: int|
            0 <= i < j < nodes@.len() ==> (#[trigger] nodes@[i]).0 != (#[trigger] nodes@[j]).0,
{
    let all = entries_of(scores);
    let mut candidates: Vec<(i128, i128)> = Vec::new();
    let mut i: usize = 0;
    while i < all.len()
        invariant
            i <= all@.len(),
            forall|a: int, b: int|
                0 <= a < b < all@.len() ==> (#[trigger] all@[a]).0 != (#[trigger] all@[b]).0,
            forall|x: int|
                0 <= x < candidates@.len() ==> taken_from(
                    #[trigger] candidates@[x],
                    all@,
                    i as int,
                    min_score,
                ),
            forall|j: int|
                0 <= j < i && (#[trigger] all@[j]).1 >= min_score ==> holds_entry(
                    candidates@,
                    all@[j].0,
                    all@[j].1,
                ),
            distinct_keys(candidates@),
        decreases all@.len() - i,
    {
        let e = all[i];
        if e.1 >= min_score {
            let ghost before = candidates@;
            candidates.push((e.0 as i128, e.1 as i128));
            proof {
                assert forall|x: int| 0 <= x < candidates@.len() implies taken_from(
                    #[trigger] candidates@[x],
                    all@,
                    i + 1,
                    min_score,
                ) by {
                    if x < before.len() {
                        assert(taken_from(before[x], all@, i as int, min_score));
                        let j = choose|j: int|
                            0 <= j < i && (#[trigger] all@[j]).0 == before[x].0 && all@[j].1
                                == before[x].1 && all@[j].1 >= min_score;
                        assert(all@[j].0 == candidates@[x].0);
                    } else {
                        assert(all@[i as int].0 == candidates@[x].0);
                    }
                }
                assert forall|j: int|
                    0 <= j < i + 1 && (#[trigger] all@[j]).1 >= min_score implies holds_entry(
                    candidates@,
                    all@[j].0,
                    all@[j].1,
                ) by {
                    if j < i {
                        assert(holds_entry(before, all@[j].0, all@[j].1));
                        let x = choose|x: int|
                            0 <= x < before.len() && (#[trigger] before[x]).0 == all@[j].0
                                && before[x].1 == all@[j].1;
                        assert(candidates@[x].0 == all@[j].0);
                    } else {
                        assert(candidates@[before.len() as int].0 == all@[j].0);
                    }
                }
                assert forall|x: int, y: int|
                    0 <= x < candidates@.len() && 0 <= y < candidates@.len() && x
                        != y implies #[trigger] candidates@[x].0 != #[trigger] candidates@[y].0 by {
                    if x < before.len() && y < before.len() {
                        assert(before[x].0 != before[y].0);
                    } else {
                        let old_one = if x < before.len() {
                            x
                        } else {
                            y
                        };
                        assert(taken_from(before[old_one], all@, i as int, min_score));
                        let j = choose|j: int|
                            0 <= j < i && (#[trigger] all@[j]).0 == before[old_one].0 && all@[j].1
                                == before[old_one].1 && all@[j].1 >= min_score;
                        assert(all@[j].0 != all@[i as int].0);
                    }
                }
            }
        } else {
            proof {
                assert forall|x: int| 0 <= x < candidates@.len() implies taken_from(
                    #[trigger] candidates@[x],
                    all@,
                    i + 1,
                    min_score,
                ) by {
                    assert(taken_from(candidates@[x], all@, i as int, min_score));
                    let j = choose|j: int|
                        0 <= j < i && (#[trigger] all@[j]).0 == candidates@[x].0 && all@[j].1
                            == candidates@[x].1 && all@[j].1 >= min_score;
                    assert(all@[j].0 == candidates@[x].0);
                }
            }
        }
        i = i + 1;
    }
    let ghost table = table_of(candidates@);
    proof {
        lemma_table_of(candidates@);
        assert forall|k: int| table.contains_key(k) <==> eligible(scores@, min_score).contains_key(
            k,
        ) by {
            if table.contains_key(k) {
                let x = choose|x: int| 0 <= x < candidates@.len() && #[trigger] candidates@[x].0 == k;
                assert(taken_from(candidates@[x], all@, all@.len() as int, min_score));
                let j = choose|j: int|
                    0 <= j < all@.len() && (#[trigger] all@[j]).0 == candidates@[x].0 && all@[j].1
                        == candidates@[x].1 && all@[j].1 >= min_score;
                assert(scores@.contains_key(all@[j].0));
            }
            if eligible(scores@, min_score).contains_key(k) {
                let node = k as i64;
                let j = choose|j: int| 0 <= j < all@.len() && (#[trigger] all@[j]).0 == node;
                assert(scores@[all@[j].0] == all@[j].1);
                assert(holds_entry(candidates@, all@[j].0, all@[j].1));
                let x = choose|x: int|
                    0 <= x < candidates@.len() && (#[trigger] candidates@[x]).0 == all@[j].0
                        && candidates@[x].1 == all@[j].1;
                assert(candidates@[x].0 == k);
            }
        }
        assert forall|k: int| table.contains_key(k) implies #[trigger] table[k] == eligible(
            scores@,
            min_score,
        )[k] by {
            let x = choose|x: int| 0 <= x < candidates@.len() && #[trigger] candidates@[x].0 == k;
            assert(table[candidates@[x].0 as int] == candidates@[x].1);
            assert(taken_from(candidates@[x], all@, all@.len() as int, min_score));
            let j = choose|j: int|
                0 <= j < all@.len() && (#[trigger] all@[j]).0 == candidates@[x].0 && all@[j].1
                    == candidates@[x].1 && all@[j].1 >= min_score;
            assert(scores@[all@[j].0] == all@[j].1);
        }
        assert(table =~= eligible(scores@, min_score));
    }
    let ranked = rank_entries(&candidates);
    let ghost order = ranking(table);
    let n = ranked.len();
    let keep = if limit < n {
        limit
    } else {
        n
    };
    let mut nodes: Vec<(i64, u32)> = Vec::new();
    let mut k: usize = 0;
    while k < keep
        invariant
            keep <= n,
            n == ranked@.len(),
            k <= keep,
            nodes@.len() == k,
            table == eligible(scores@, min_score),
            order == ranking(table),
            keys_of(ranked@) == order,
            is_ranking(order, table),
            distinct_keys(ranked@),
            forall|i: int|
                0 <= i < ranked@.len() ==> table[(#[trigger] ranked@[i]).0 as int] == ranked@[i].1,
            forall|i: int|
                0 <= i < k ==> (#[trigger] nodes@[i]).0 == ranked@[i].0 && nodes@[i].0
                    == order[i] as i64 && nodes@[i].1 == scores@[order[i] as i64]
                    && scores@.contains_key(nodes@[i].0) && nodes@[i].1 >= min_score,
        decreases keep - k,
    {
        let r = ranked[k];
        proof {
            let key = r.0 as int;
            assert(order[k as int] == key);
            assert(order.contains(key));
            assert(table.contains_key(key));
            assert(table[ranked@[k as int].0 as int] == ranked@[k as int].1);
        }
        nodes.push((r.0 as i64, r.1 as u32));
        k = k + 1;
    }
    proof {
        assert(order.len() == n);
        assert(nodes@ =~= strongest_nodes(scores@, min_score, limit as nat));
        assert forall|i: int, j: int| 0 <= i < j < nodes@.len() implies (#[trigger] nodes@[i]).0 != (
        #[trigger] nodes@[j]).0 by {
            assert(ranked@[i].0 != ranked@[j].0);
        }
    }
    nodes
}

} // verus!
