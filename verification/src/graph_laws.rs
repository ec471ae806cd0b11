//! What holds of an activation graph however it was built.

use crate::graph::{
    after_directed_edge, after_edge, after_edges, distinct_targets, edge_entries, has_target,
    list_at, lists_bounded, position_of, stored_level, strongest, with_edge, GraphEdge,
};
use crate::fixed::quantized;
use crate::rank::{
    comes_before, distinct_keys, is_ranking, lemma_ranking_exists, lemma_table_of, ranking,
    table_of,
};
use vstd::prelude::*;

verus! {

/// Whether edge `a` is ranked before edge `b`: it is stronger, or as strong
/// and leads to the smaller target.
pub open spec fn outranks(a: GraphEdge, b: GraphEdge) -> bool {
    a.weight > b.weight || (a.weight == b.weight && a.target < b.target)
}

/// Whether `ranked` holds the edges of `list`, each once, strongest first.
pub open spec fn is_edge_ranking(ranked: Seq<GraphEdge>, list: Seq<GraphEdge>) -> bool {
    &&& ranked.len() == list.len()
    &&& distinct_targets(ranked)
    &&& forall|i: int| 0 <= i < ranked.len() ==> list.contains(#[trigger] ranked[i])
    &&& forall|j: int| 0 <= j < list.len() ==> ranked.contains(#[trigger] list[j])
    &&& forall|i: int, j: int|
        0 <= i < j < ranked.len() ==> outranks(#[trigger] ranked[i], #[trigger] ranked[j])
}

/// The strongest edges of a list are the first ones of its ranking. The
/// ranking is returned.
pub proof fn lemma_strongest(list: Seq<GraphEdge>, limit: nat) -> (ranked: Seq<GraphEdge>)
    requires
        distinct_targets(list),
    ensures
        is_edge_ranking(ranked, list),
        strongest(list, limit) == ranked.take(
            if limit < list.len() {
                limit as int
            } else {
                list.len() as int
            },
        ),
{
    let entries = edge_entries(list);
    assert(distinct_keys(entries)) by {
        assert forall|i: int, j: int|
            0 <= i < entries.len() && 0 <= j < entries.len() && i != j implies #[trigger] entries[i].0
            != #[trigger] entries[j].0 by {
            assert(list[i].target != list[j].target);
        }
    }
    lemma_ranking_exists(entries);
    lemma_table_of(entries);
    let table = table_of(entries);
    let order = ranking(table);
    let ranked = Seq::new(
        order.len(),
        |i: int| GraphEdge { target: order[i] as i64, weight: table[order[i]] as u16 },
    );
    assert forall|i: int| 0 <= i < ranked.len() implies list.contains(#[trigger] ranked[i])
        && ranked[i].weight == table[order[i]] && ranked[i].target == order[i] by {
        assert(order.contains(order[i]));
        assert(table.contains_key(order[i]));
        let j = choose|j: int| 0 <= j < entries.len() && #[trigger] entries[j].0 == order[i];
        assert(table[entries[j].0 as int] == entries[j].1);
        assert(ranked[i] == list[j]);
    }
    assert forall|j: int| 0 <= j < list.len() implies ranked.contains(#[trigger] list[j]) by {
        assert(table.contains_key(entries[j].0 as int));
        assert(table[entries[j].0 as int] == entries[j].1);
        assert(order.contains(list[j].target as int));
        let i = choose|i: int| 0 <= i < order.len() && order[i] == list[j].target as int;
        assert(ranked[i] == list[j]);
    }
    assert forall|i: int, j: int| 0 <= i < j < ranked.len() implies outranks(
        #[trigger] ranked[i],
        #[trigger] ranked[j],
    ) by {
        assert(comes_before(table, order[i], order[j]));
        assert(ranked[i].weight == table[order[i]] && ranked[i].target == order[i]);
        assert(ranked[j].weight == table[order[j]] && ranked[j].target == order[j]);
    }
    assert forall|i: int, j: int|
        0 <= i < ranked.len() && 0 <= j < ranked.len() && i != j implies (#[trigger] ranked[i]).target
        != (#[trigger] ranked[j]).target by {
        assert(order[i] != order[j]);
        assert(ranked[i].target == order[i]);
        assert(ranked[j].target == order[j]);
    }
    let kept = if limit < list.len() {
        limit as int
    } else {
        list.len() as int
    };
    assert(strongest(list, limit) =~= ranked.take(kept));
    ranked
}

/// Inserting an edge keeps a list within its bounds: no target twice, no more
/// edges than the limit.
pub proof fn lemma_with_edge_bounded(list: Seq<GraphEdge>, target: i64, level: u16, limit: nat)
    requires
        distinct_targets(list),
        list.len() <= limit,
    ensures
        distinct_targets(with_edge(list, target, level, limit)),
        with_edge(list, target, level, limit).len() <= limit,
{
    let after = with_edge(list, target, level, limit);
    if has_target(list, target) {
        let at = position_of(list, target);
        assert forall|i: int, j: int|
            0 <= i < after.len() && 0 <= j < after.len() && i != j implies (#[trigger] after[i]).target
            != (#[trigger] after[j]).target by {
            assert(list[i].target != list[j].target);
        }
    } else {
        let longer = list.push(GraphEdge { target, weight: level });
        assert forall|i: int, j: int|
            0 <= i < longer.len() && 0 <= j < longer.len() && i != j implies (
            #[trigger] longer[i]).target != (#[trigger] longer[j]).target by {
            if i < list.len() && j < list.len() {
                assert(list[i].target != list[j].target);
            } else if i < list.len() {
                assert(list[i].target != target);
            } else {
                assert(list[j].target != target);
            }
        }
        if longer.len() > limit {
            let ranked = lemma_strongest(longer, limit);
            assert forall|i: int, j: int|
                0 <= i < after.len() && 0 <= j < after.len() && i != j implies (
                #[trigger] after[i]).target != (#[trigger] after[j]).target by {
                assert(ranked[i].target != ranked[j].target);
            }
        }
    }
}

/// An insertion that would exceed the limit leaves the list ranked: stronger
/// edges first, among equally strong ones the smaller target first.
pub proof fn lemma_overflow_leaves_ranked(
    list: Seq<GraphEdge>,
    target: i64,
    level: u16,
    limit: nat,
)
    requires
        distinct_targets(list),
        !has_target(list, target),
        list.len() + 1 > limit,
    ensures
        forall|i: int, j: int|
            0 <= i < j < with_edge(list, target, level, limit).len() ==> outranks(
                #[trigger] with_edge(list, target, level, limit)[i],
                #[trigger] with_edge(list, target, level, limit)[j],
            ),
{
    let longer = list.push(GraphEdge { target, weight: level });
    assert forall|i: int| 0 <= i < list.len() implies (#[trigger] list[i]).target != target by {}
    assert forall|i: int, j: int|
        0 <= i < longer.len() && 0 <= j < longer.len() && i != j implies (#[trigger] longer[i]).target
        != (#[trigger] longer[j]).target by {
        if i < list.len() && j < list.len() {
            assert(list[i].target != list[j].target);
        } else if i < list.len() {
            assert(list[i].target != target);
        } else {
            assert(list[j].target != target);
        }
    }
    let ranked = lemma_strongest(longer, limit);
    let after = with_edge(list, target, level, limit);
    assert forall|i: int, j: int| 0 <= i < j < after.len() implies outranks(
        #[trigger] after[i],
        #[trigger] after[j],
    ) by {
        assert(outranks(ranked[i], ranked[j]));
    }
}

/// Inserting an edge to a target never lowers the level that is stored for
/// that target: an edge that is there keeps the higher level, whatever the
/// level of the new one.
pub proof fn lemma_insert_never_weakens(list: Seq<GraphEdge>, target: i64, level: u16, limit: nat)
    requires
        distinct_targets(list),
    ensures
        stored_level(with_edge(list, target, level, limit), target) >= stored_level(list, target),
        has_target(list, target) ==> has_target(with_edge(list, target, level, limit), target)
            && stored_level(with_edge(list, target, level, limit), target) >= level,
{
    let after = with_edge(list, target, level, limit);
    if has_target(list, target) {
        let at = position_of(list, target);
        assert(after[at].target == target);
        assert(has_target(after, target));
        let found = position_of(after, target);
        assert(after[found].target == target);
        assert(list[found].target == target);
        assert(found == at);
    }
}

/// Inserting an edge a second time with a weight that is no higher changes
/// nothing, where the first insertion left the edge in the list.
pub proof fn lemma_weaker_reinsert_changes_nothing(
    list: Seq<GraphEdge>,
    target: i64,
    first: i64,
    second: i64,
    limit: nat,
)
    requires
        distinct_targets(list),
        second <= first,
        has_target(with_edge(list, target, quantized(first as int) as u16, limit), target),
    ensures
        with_edge(
            with_edge(list, target, quantized(first as int) as u16, limit),
            target,
            quantized(second as int) as u16,
            limit,
        ) == with_edge(list, target, quantized(first as int) as u16, limit),
{
    crate::fixed::lemma_quantized_range(first as int);
    crate::fixed::lemma_quantized_range(second as int);
    crate::fixed::lemma_quantized_monotonic(second as int, first as int);
    let strong = quantized(first as int) as u16;
    let weak = quantized(second as int) as u16;
    let once = with_edge(list, target, strong, limit);
    let at = position_of(once, target);
    assert(once[at].target == target);
    if has_target(list, target) {
        lemma_insert_never_weakens(list, target, strong, limit);
    } else {
        let new_edge = GraphEdge { target, weight: strong };
        let longer = list.push(new_edge);
        assert forall|i: int| 0 <= i < list.len() implies (#[trigger] list[i]).target != target by {}
        if longer.len() > limit {
            assert forall|i: int, j: int|
                0 <= i < longer.len() && 0 <= j < longer.len() && i != j implies (
                #[trigger] longer[i]).target != (#[trigger] longer[j]).target by {
                if i < list.len() && j < list.len() {
                    assert(list[i].target != list[j].target);
                } else if i < list.len() {
                    assert(list[i].target != target);
                } else {
                    assert(list[j].target != target);
                }
            }
            let ranked = lemma_strongest(longer, limit);
            assert(once[at] == ranked[at]);
            assert(longer.contains(ranked[at]));
            let j = choose|j: int| 0 <= j < longer.len() && longer[j] == ranked[at];
            if j < list.len() {
                assert(list[j].target != target);
            }
        } else {
            if at < list.len() {
                assert(list[at].target != target);
            }
        }
        assert(once[at] == new_edge);
    }
    assert(once[at].weight >= weak);
}

/// Inserting the same connection again never lowers the level that is stored
/// for it, in either direction, whatever the weight of the second insertion.
pub proof fn lemma_add_edge_never_weakens(
    lists: Map<i64, Seq<GraphEdge>>,
    a: i64,
    b: i64,
    weight: i64,
    limit: nat,
)
    requires
        lists_bounded(lists, limit),
    ensures
        stored_level(list_at(after_edge(lists, a, b, weight, limit), a), b) >= stored_level(
            list_at(lists, a),
            b,
        ),
        stored_level(list_at(after_edge(lists, a, b, weight, limit), b), a) >= stored_level(
            list_at(lists, b),
            a,
        ),
{
    crate::fixed::lemma_quantized_range(weight as int);
    let level = quantized(weight as int) as u16;
    let first = after_directed_edge(lists, a, b, level, limit);
    let la = list_at(lists, a);
    lemma_with_edge_bounded(la, b, level, limit);
    lemma_insert_never_weakens(la, b, level, limit);
    if a == b {
        lemma_insert_never_weakens(with_edge(la, b, level, limit), a, level, limit);
    } else {
        lemma_insert_never_weakens(list_at(lists, b), a, level, limit);
    }
}

/// Inserting an undirected edge keeps every list within its bounds.
pub proof fn lemma_edge_keeps_bounds(
    lists: Map<i64, Seq<GraphEdge>>,
    a: i64,
    b: i64,
    weight: i64,
    limit: nat,
)
    requires
        lists_bounded(lists, limit),
    ensures
        lists_bounded(after_edge(lists, a, b, weight, limit), limit),
{
    let level = quantized(weight as int) as u16;
    let first = after_directed_edge(lists, a, b, level, limit);
    lemma_with_edge_bounded(list_at(lists, a), b, level, limit);
    assert(lists_bounded(first, limit));
    lemma_with_edge_bounded(list_at(first, b), a, level, limit);
}

/// After any sequence of insertions, no list holds two edges to one target
/// and none is longer than the fan-out limit.
pub proof fn lemma_edges_keep_bounds(
    lists: Map<i64, Seq<GraphEdge>>,
    edges: Seq<(i64, i64, i64)>,
    limit: nat,
)
    requires
        lists_bounded(lists, limit),
    ensures
        lists_bounded(after_edges(lists, edges, limit), limit),
    decreases edges.len(),
{
    if edges.len() > 0 {
        lemma_edges_keep_bounds(lists, edges.drop_last(), limit);
        let last = edges.last();
        lemma_edge_keeps_bounds(
            after_edges(lists, edges.drop_last(), limit),
            last.0,
            last.1,
            last.2,
            limit,
        );
    }
}

/// Whether an edge to `target` was ever inserted. An insertion is given as
/// `(target, level)`.
pub open spec fn was_seen(events: Seq<(i64, u16)>, target: i64) -> bool {
    exists|i: int| 0 <= i < events.len() && (#[trigger] events[i]).0 == target
}

/// The highest level with which an edge to `target` was inserted; 0 where
/// none was.
pub open spec fn highest_seen(events: Seq<(i64, u16)>, target: i64) -> u16
    decreases events.len(),
{
    if events.len() == 0 {
        0
    } else {
        let before = highest_seen(events.drop_last(), target);
        let last = events.last();
        if last.0 == target && last.1 > before {
            last.1
        } else {
            before
        }
    }
}

/// A node's list after the insertions `events`, starting from an empty list.
pub open spec fn after_inserts(events: Seq<(i64, u16)>, limit: nat) -> Seq<GraphEdge>
    decreases events.len(),
{
    if events.len() == 0 {
        Seq::empty()
    } else {
        with_edge(after_inserts(events.drop_last(), limit), events.last().0, events.last().1, limit)
    }
}

/// Whether every edge of `list` is ranked before `edge`.
pub open spec fn all_outrank(list: Seq<GraphEdge>, edge: GraphEdge) -> bool {
    forall|i: int| 0 <= i < list.len() ==> outranks(#[trigger] list[i], edge)
}

/// Whether `list` holds the strongest edges that were inserted: each of its
/// edges has the highest level that was inserted for its target, and every
/// target that was inserted and is missing was pushed out of a full list by
/// edges that are all ranked before it.
pub open spec fn holds_strongest_seen(
    list: Seq<GraphEdge>,
    events: Seq<(i64, u16)>,
    limit: nat,
) -> bool {
    &&& distinct_targets(list)
    &&& list.len() <= limit
    &&& forall|i: int|
        0 <= i < list.len() ==> was_seen(events, (#[trigger] list[i]).target) && list[i].weight
            == highest_seen(events, list[i].target)
    &&& forall|t: i64| #[trigger]
        was_seen(events, t) && !has_target(list, t) ==> list.len() == limit && all_outrank(
            list,
            GraphEdge { target: t, weight: highest_seen(events, t) },
        )
}

/// A target that was never inserted has the highest level 0.
pub proof fn lemma_unseen_level(events: Seq<(i64, u16)>, target: i64)
    requires
        !was_seen(events, target),
    ensures
        highest_seen(events, target) == 0,
    decreases events.len(),
{
    if events.len() > 0 {
        let init = events.drop_last();
        assert(events[events.len() - 1].0 != target);
        assert forall|i: int| 0 <= i < init.len() implies (#[trigger] init[i]).0 != target by {
            assert(events[i].0 != target);
        }
        lemma_unseen_level(init, target);
    }
}

/// What one more insertion changes: its target counts as seen, and the
/// highest level of its target rises to its level where that is higher.
pub proof fn lemma_one_more_event(events: Seq<(i64, u16)>, target: i64, level: u16, x: i64)
    ensures
        was_seen(events.push((target, level)), x) <==> (was_seen(events, x) || x == target),
        highest_seen(events.push((target, level)), x) == (if x == target && level > highest_seen(
            events,
            x,
        ) {
            level
        } else {
            highest_seen(events, x)
        }),
{
    let more = events.push((target, level));
    assert(more.drop_last() =~= events);
    assert(more.last() == (target, level));
    if was_seen(events, x) {
        let i = choose|i: int| 0 <= i < events.len() && (#[trigger] events[i]).0 == x;
        assert(more[i].0 == x);
    }
    if x == target {
        assert(more[events.len() as int].0 == x);
    }
    if was_seen(more, x) {
        let i = choose|i: int| 0 <= i < more.len() && (#[trigger] more[i]).0 == x;
        if i < events.len() {
            assert(events[i].0 == x);
        }
    }
}

/// One more insertion keeps a list the holder of the strongest edges seen.
pub proof fn lemma_insert_holds_strongest(
    list: Seq<GraphEdge>,
    events: Seq<(i64, u16)>,
    target: i64,
    level: u16,
    limit: nat,
)
    requires
        holds_strongest_seen(list, events, limit),
    ensures
        holds_strongest_seen(
            with_edge(list, target, level, limit),
            events.push((target, level)),
            limit,
        ),
{
    let after = with_edge(list, target, level, limit);
    let more = events.push((target, level));
    let new_edge = GraphEdge { target, weight: level };
    lemma_with_edge_bounded(list, target, level, limit);
    assert forall|x: i64|
        (was_seen(more, x) <==> (was_seen(events, x) || x == target)) && #[trigger] highest_seen(
            more,
            x,
        ) == (if x == target && level > highest_seen(events, x) {
            level
        } else {
            highest_seen(events, x)
        }) by {
        lemma_one_more_event(events, target, level, x);
    }
    if !was_seen(events, target) {
        lemma_unseen_level(events, target);
    }
    if has_target(list, target) {
        let at = position_of(list, target);
        assert(list[at].target == target);
        assert(list[at].weight == highest_seen(events, target));
        assert forall|i: int| 0 <= i < after.len() implies after[i].target == list[i].target
            && after[i].weight >= list[i].weight && (i != at ==> after[i] == list[i]) by {}
        assert forall|i: int| 0 <= i < after.len() implies was_seen(
            more,
            (#[trigger] after[i]).target,
        ) && after[i].weight == highest_seen(more, after[i].target) by {
            assert(was_seen(events, list[i].target));
            assert(highest_seen(more, after[i].target) == (if after[i].target == target && level
                > highest_seen(events, after[i].target) {
                level
            } else {
                highest_seen(events, after[i].target)
            }));
            if i != at {
                assert(list[i].target != list[at].target);
            }
        }
        assert forall|t: i64| #[trigger] was_seen(more, t) && !has_target(after, t) implies after.len()
            == limit && all_outrank(
            after,
            GraphEdge { target: t, weight: highest_seen(more, t) },
        ) by {
            assert(after[at].target == target);
            assert(t != target);
            assert(was_seen(events, t));
            if has_target(list, t) {
                let i = position_of(list, t);
                assert(after[i].target == t);
            }
            assert(!has_target(list, t));
            let missing = GraphEdge { target: t, weight: highest_seen(events, t) };
            assert(all_outrank(list, missing));
            assert(highest_seen(more, t) == highest_seen(events, t));
            assert forall|i: int| 0 <= i < after.len() implies outranks(
                #[trigger] after[i],
                missing,
            ) by {
                assert(outranks(list[i], missing));
            }
        }
    } else {
        let longer = list.push(new_edge);
        assert forall|i: int| 0 <= i < list.len() implies (#[trigger] list[i]).target != target by {}
        assert(distinct_targets(longer)) by {
            assert forall|i: int, j: int|
                0 <= i < longer.len() && 0 <= j < longer.len() && i != j implies (
                #[trigger] longer[i]).target != (#[trigger] longer[j]).target by {
                if i < list.len() && j < list.len() {
                    assert(list[i].target != list[j].target);
                } else if i < list.len() {
                    assert(list[i].target != target);
                } else {
                    assert(list[j].target != target);
                }
            }
        }
        if longer.len() <= limit {
            assert(after == longer);
            // A target that was seen and is missing would mean a full list.
            assert(!was_seen(events, target));
            assert forall|i: int| 0 <= i < after.len() implies was_seen(
                more,
                (#[trigger] after[i]).target,
            ) && after[i].weight == highest_seen(more, after[i].target) by {
                if i < list.len() {
                    assert(after[i] == list[i]);
                    assert(was_seen(events, list[i].target));
                    assert(highest_seen(more, list[i].target) == highest_seen(
                        events,
                        list[i].target,
                    ));
                } else {
                    assert(after[i] == new_edge);
                    assert(highest_seen(more, target) == level);
                }
            }
            assert forall|t: i64| #[trigger]
                was_seen(more, t) && !has_target(after, t) implies after.len() == limit
                && all_outrank(after, GraphEdge { target: t, weight: highest_seen(more, t) }) by {
                assert(after[list.len() as int].target == target);
                assert(t != target);
                if has_target(list, t) {
                    let i = position_of(list, t);
                    assert(after[i].target == t);
                }
                assert(was_seen(events, t) && !has_target(list, t));
            }
        } else {
            assert(list.len() == limit);
            let ranked = lemma_strongest(longer, limit);
            assert(after =~= ranked.take(limit as int));
            let dropped = ranked[limit as int];
            assert(longer.contains(dropped));
            // Every edge of the longer list is kept or is the dropped one.
            assert forall|j: int| 0 <= j < longer.len() implies (#[trigger] longer[j] == dropped
                || has_target(after, longer[j].target)) by {
                assert(ranked.contains(longer[j]));
                let m = choose|m: int| 0 <= m < ranked.len() && ranked[m] == longer[j];
                if m < limit {
                    assert(after[m] == longer[j]);
                }
            }
            // The dropped edge is not kept.
            assert forall|i: int| 0 <= i < after.len() implies (#[trigger] after[i]).target
                != dropped.target && outranks(after[i], dropped) && longer.contains(after[i]) by {
                assert(after[i] == ranked[i]);
                assert(ranked[i].target != ranked[limit as int].target);
            }
            assert(!has_target(after, dropped.target));
            // Every kept edge has the highest level seen for its target; for
            // the new edge this is shown below.
            let new_kept = dropped != new_edge;
            if new_kept {
                let j0 = choose|j: int| 0 <= j < longer.len() && longer[j] == dropped;
                assert(j0 < list.len());
                assert(list[j0] == dropped);
                if was_seen(events, target) {
                    let missing = GraphEdge { target, weight: highest_seen(events, target) };
                    assert(all_outrank(list, missing));
                    assert(outranks(list[j0], missing));
                    assert(has_target(after, longer[list.len() as int].target));
                    let m = position_of(after, target);
                    assert(after[m].target == target);
                    assert(longer.contains(after[m]));
                    let j = choose|j: int| 0 <= j < longer.len() && longer[j] == after[m];
                    if j < list.len() {
                        assert(list[j].target != target);
                    }
                    assert(after[m] == new_edge);
                    assert(outranks(new_edge, dropped));
                    assert(level > highest_seen(events, target));
                }
                assert(highest_seen(more, target) == level);
            }
            assert forall|i: int| 0 <= i < after.len() implies was_seen(
                more,
                (#[trigger] after[i]).target,
            ) && after[i].weight == highest_seen(more, after[i].target) by {
                assert(longer.contains(after[i]));
                let j = choose|j: int| 0 <= j < longer.len() && longer[j] == after[i];
                if j < list.len() {
                    assert(list[j].target != target);
                    assert(was_seen(events, list[j].target));
                    assert(highest_seen(more, list[j].target) == highest_seen(
                        events,
                        list[j].target,
                    ));
                } else {
                    assert(after[i] == new_edge);
                    assert(new_kept);
                }
            }
            assert forall|t: i64| #[trigger]
                was_seen(more, t) && !has_target(after, t) implies after.len() == limit
                && all_outrank(after, GraphEdge { target: t, weight: highest_seen(more, t) }) by {
                let missing = GraphEdge { target: t, weight: highest_seen(more, t) };
                if t == dropped.target {
                    if dropped == new_edge {
                        // The new edge was dropped at once.
                        if highest_seen(events, target) > level {
                            assert(was_seen(events, target));
                            let old_missing = GraphEdge {
                                target,
                                weight: highest_seen(events, target),
                            };
                            assert(all_outrank(list, old_missing));
                            assert forall|i: int| 0 <= i < after.len() implies outranks(
                                #[trigger] after[i],
                                missing,
                            ) by {
                                assert(longer.contains(after[i]));
                                let j = choose|j: int|
                                    0 <= j < longer.len() && longer[j] == after[i];
                                assert(j < list.len());
                                assert(outranks(list[j], old_missing));
                            }
                        } else {
                            assert(missing == dropped);
                        }
                    } else {
                        let j0 = choose|j: int| 0 <= j < longer.len() && longer[j] == dropped;
                        assert(list[j0] == dropped);
                        assert(list[j0].weight == highest_seen(events, list[j0].target));
                        assert(missing == dropped);
                    }
                } else {
                    // Another target: it was missing before.
                    assert(longer[list.len() as int] == new_edge);
                    if t == target {
                        assert(has_target(after, longer[list.len() as int].target));
                    }
                    assert(t != target);
                    assert(was_seen(events, t));
                    if has_target(list, t) {
                        let j = position_of(list, t);
                        assert(longer[j] == list[j]);
                        assert(has_target(after, longer[j].target));
                    }
                    let old_missing = GraphEdge { target: t, weight: highest_seen(events, t) };
                    assert(missing == old_missing);
                    assert(all_outrank(list, old_missing));
                    assert forall|i: int| 0 <= i < after.len() implies outranks(
                        #[trigger] after[i],
                        missing,
                    ) by {
                        assert(longer.contains(after[i]));
                        let j = choose|j: int| 0 <= j < longer.len() && longer[j] == after[i];
                        if j < list.len() {
                            assert(outranks(list[j], old_missing));
                        } else {
                            // The new edge is ranked before the dropped one,
                            // which is ranked before the missing one.
                            assert(after[i] == new_edge);
                            let j0 = choose|j: int|
                                0 <= j < longer.len() && longer[j] == dropped;
                            assert(list[j0] == dropped);
                            assert(outranks(list[j0], old_missing));
                            assert(outranks(after[i], dropped));
                        }
                    }
                }
            }
        }
    }
}

/// After any sequence of insertions a node's list holds the strongest edges
/// that were inserted for it: as many as the fan-out limit allows, each with
/// the highest level that was inserted for its target, and every inserted
/// target that is missing is ranked behind all that are kept.
pub proof fn lemma_list_holds_strongest_seen(events: Seq<(i64, u16)>, limit: nat)
    ensures
        holds_strongest_seen(after_inserts(events, limit), events, limit),
    decreases events.len(),
{
    if events.len() == 0 {
        let empty = Seq::<GraphEdge>::empty();
        assert(after_inserts(events, limit) =~= empty);
    } else {
        let init = events.drop_last();
        lemma_list_holds_strongest_seen(init, limit);
        lemma_insert_holds_strongest(
            after_inserts(init, limit),
            init,
            events.last().0,
            events.last().1,
            limit,
        );
        assert(init.push((events.last().0, events.last().1)) =~= events);
    }
}

/// The insertions that a batch of undirected edges makes into the list of
/// `node`: for an edge `(a, b, weight)` first `b` where `a` is the node, then
/// `a` where `b` is the node.
pub open spec fn node_events(edges: Seq<(i64, i64, i64)>, node: i64) -> Seq<(i64, u16)>
    decreases edges.len(),
{
    if edges.len() == 0 {
        Seq::empty()
    } else {
        let before = node_events(edges.drop_last(), node);
        let edge = edges.last();
        let level = quantized(edge.2 as int) as u16;
        let forward = if edge.0 == node {
            before.push((edge.1, level))
        } else {
            before
        };
        if edge.1 == node {
            forward.push((edge.0, level))
        } else {
            forward
        }
    }
}

/// One more insertion into a list.
proof fn lemma_after_one_more_insert(events: Seq<(i64, u16)>, target: i64, level: u16, limit: nat)
    ensures
        after_inserts(events.push((target, level)), limit) == with_edge(
            after_inserts(events, limit),
            target,
            level,
            limit,
        ),
{
    let more = events.push((target, level));
    assert(more.drop_last() =~= events);
    assert(more.last() == (target, level));
}

/// In a graph that was built from nothing by a batch of edges, the list of a
/// node is what the insertions into that list make of an empty list.
pub proof fn lemma_node_list(edges: Seq<(i64, i64, i64)>, node: i64, limit: nat)
    ensures
        list_at(after_edges(Map::empty(), edges, limit), node) == after_inserts(
            node_events(edges, node),
            limit,
        ),
    decreases edges.len(),
{
    let empty = Map::<i64, Seq<GraphEdge>>::empty();
    if edges.len() == 0 {
        assert(list_at(empty, node) =~= Seq::<GraphEdge>::empty());
    } else {
        let init = edges.drop_last();
        lemma_node_list(init, node, limit);
        let edge = edges.last();
        let level = quantized(edge.2 as int) as u16;
        let before = node_events(init, node);
        let lists = after_edges(empty, init, limit);
        let first = after_directed_edge(lists, edge.0, edge.1, level, limit);
        let second = after_directed_edge(first, edge.1, edge.0, level, limit);
        assert(after_edges(empty, edges, limit) == second);
        if edge.0 == node {
            lemma_after_one_more_insert(before, edge.1, level, limit);
            if edge.1 == node {
                lemma_after_one_more_insert(before.push((edge.1, level)), edge.0, level, limit);
            }
        } else if edge.1 == node {
            lemma_after_one_more_insert(before, edge.0, level, limit);
        }
    }
}

/// However a graph was built from nothing, every node's list holds the
/// strongest edges that were inserted for that node: at most as many as the
/// fan-out limit, each with the highest level that was inserted for its
/// target, and every inserted target that is missing is ranked behind all
/// that are kept.
pub proof fn lemma_graph_holds_strongest_seen(edges: Seq<(i64, i64, i64)>, node: i64, limit: nat)
    ensures
        holds_strongest_seen(
            list_at(after_edges(Map::empty(), edges, limit), node),
            node_events(edges, node),
            limit,
        ),
{
    lemma_node_list(edges, node, limit);
    lemma_list_holds_strongest_seen(node_events(edges, node), limit);
}

} // verus!
