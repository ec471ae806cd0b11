//! The activation graph: a weighted, undirected association graph over memory
//! identifiers, with a bounded number of neighbours per node.
//!
//! Each node keeps a list of edges to its neighbours. A weight is stored as
//! one of 65536 levels (see [`crate::fixed`]). No list grows beyond the
//! graph's fan-out limit: when an insertion would exceed it, the list is
//! ranked (stronger edges first, among equally strong ones the smaller target
//! first) and cut to the limit.

use crate::fixed::{quantize, quantized};
use crate::rank::{
    distinct_keys, is_ranking, keys_of, lemma_table_of, rank_entries, ranking, table_of,
};
use ahash::AHashMap;
use smallvec::SmallVec;
use vstd::prelude::*;

verus! {

/// The number of neighbours that a node of a new graph may keep.
pub const DEFAULT_MAX_FAN_OUT: usize = 20;

/// The number of nodes that may spread energy in one diffusion round of a new
/// graph.
pub const DEFAULT_MAX_ACTIVE_NODES: usize = 1000;

/// One stored edge: the neighbour it leads to and its weight level.
#[derive(Clone, Copy, Debug)]
pub struct GraphEdge {
    pub target: i64,
    pub weight: u16,
}

/// The storage of a graph: each node's edge list under the node's
/// identifier, in an `AHashMap` of `SmallVec`s that keep up to four edges
/// inline.
#[verifier::external_body]
pub struct Adjacency {
    inner: AHashMap<i64, SmallVec<[GraphEdge; 4]>>,
}

/// What an [`Adjacency`] holds: for each node that has an entry, its edges in
/// the order of its list.
pub uninterp spec fn adjacency_lists(m: Adjacency) -> Map<i64, Seq<GraphEdge>>;

/// `AHashMap::new`: a map without entries.
#[verifier::external_body]
fn empty_adjacency() -> (fresh: Adjacency)
    ensures
        adjacency_lists(fresh) =~= Map::empty(),
{
    Adjacency { inner: AHashMap::new() }
}

/// `AHashMap::get`, with the list that it finds copied out by
/// `SmallVec::to_vec`: the edges stored under `node`, in their order, or
/// `None` where the map has no entry for `node`.
#[verifier::external_body]
fn neighbors_of(m: &Adjacency, node: i64) -> (found: Option<Vec<GraphEdge>>)
    ensures
        found is Some <==> adjacency_lists(*m).contains_key(node),
        found is Some ==> found->0@ == adjacency_lists(*m)[node],
{
    match m.inner.get(&node) {
        Some(list) => Some(list.to_vec()),
        None => None,
    }
}

/// `AHashMap::insert` of a list made by `SmallVec::from_vec`: afterwards
/// `node`'s entry holds exactly `list`, and every other entry is as before.
#[verifier::external_body]
fn store_neighbors(m: &mut Adjacency, node: i64, list: Vec<GraphEdge>)
    ensures
        adjacency_lists(*final(m)) == adjacency_lists(*old(m)).insert(node, list@),
{
    m.inner.insert(node, SmallVec::from_vec(list));
}

/// `AHashMap::clear`: afterwards the map has no entries.
#[verifier::external_body]
fn clear_adjacency(m: &mut Adjacency)
    ensures
        adjacency_lists(*final(m)) =~= Map::empty(),
{
    m.inner.clear();
}

/// Whether `list` has an edge to `target`.
pub open spec fn has_target(list: Seq<GraphEdge>, target: i64) -> bool {
    exists|i: int| 0 <= i < list.len() && (#[trigger] list[i]).target == target
}

/// The position in `list` of an edge to `target`.
pub open spec fn position_of(list: Seq<GraphEdge>, target: i64) -> int {
    choose|i: int| 0 <= i < list.len() && (#[trigger] list[i]).target == target
}

/// No two edges of `list` lead to the same neighbour.
pub open spec fn distinct_targets(list: Seq<GraphEdge>) -> bool {
    forall|i: int, j: int|
        0 <= i < list.len() && 0 <= j < list.len() && i != j ==> (#[trigger] list[i]).target != (
        #[trigger] list[j]).target
}

/// The level stored in `list` for the edge to `target`; 0 where there is no
/// such edge.
pub open spec fn stored_level(list: Seq<GraphEdge>, target: i64) -> int {
    if has_target(list, target) {
        list[position_of(list, target)].weight as int
    } else {
        0
    }
}

/// The edges of `list` as `(target, level)` entries for ranking.
pub open spec fn edge_entries(list: Seq<GraphEdge>) -> Seq<(i128, i128)> {
    Seq::new(list.len(), |i: int| (list[i].target as i128, list[i].weight as i128))
}

/// The strongest `limit` edges of `list`, strongest first; among equally
/// strong edges the one with the smaller target comes first.
pub open spec fn strongest(list: Seq<GraphEdge>, limit: nat) -> Seq<GraphEdge> {
    let table = table_of(edge_entries(list));
    let order = ranking(table);
    let kept = if limit < order.len() {
        limit
    } else {
        order.len()
    };
    Seq::new(kept, |i: int| GraphEdge { target: order[i] as i64, weight: table[order[i]] as u16 })
}

/// A node's list after an edge to `target` with weight level `level` has been
/// inserted under the fan-out limit `limit`.
///
/// An edge that is already there keeps the higher of its and the new level. A
/// new edge is appended; if the list then exceeds the limit, it is ranked and
/// cut to the limit.
pub open spec fn with_edge(list: Seq<GraphEdge>, target: i64, level: u16, limit: nat) -> Seq<
    GraphEdge,
> {
    if has_target(list, target) {
        let at = position_of(list, target);
        if level > list[at].weight {
            list.update(at, GraphEdge { target, weight: level })
        } else {
            list
        }
    } else {
        let longer = list.push(GraphEdge { target, weight: level });
        if longer.len() > limit {
            strongest(longer, limit)
        } else {
            longer
        }
    }
}

/// The list stored for `node`; empty where the node has no entry.
pub open spec fn list_at(lists: Map<i64, Seq<GraphEdge>>, node: i64) -> Seq<GraphEdge> {
    if lists.contains_key(node) {
        lists[node]
    } else {
        Seq::empty()
    }
}

/// The lists after the directed edge `source -> target` has been inserted.
pub open spec fn after_directed_edge(
    lists: Map<i64, Seq<GraphEdge>>,
    source: i64,
    target: i64,
    level: u16,
    limit: nat,
) -> Map<i64, Seq<GraphEdge>> {
    lists.insert(source, with_edge(list_at(lists, source), target, level, limit))
}

/// The lists after the undirected edge between `a` and `b` with the
/// fixed-point weight `weight` has been inserted: first `a -> b`, then
/// `b -> a`.
pub open spec fn after_edge(
    lists: Map<i64, Seq<GraphEdge>>,
    a: i64,
    b: i64,
    weight: i64,
    limit: nat,
) -> Map<i64, Seq<GraphEdge>> {
    let level = quantized(weight as int) as u16;
    after_directed_edge(after_directed_edge(lists, a, b, level, limit), b, a, level, limit)
}

/// The lists after a batch of undirected edges has been inserted, one after
/// another.
pub open spec fn after_edges(
    lists: Map<i64, Seq<GraphEdge>>,
    edges: Seq<(i64, i64, i64)>,
    limit: nat,
) -> Map<i64, Seq<GraphEdge>>
    decreases edges.len(),
{
    if edges.len() == 0 {
        lists
    } else {
        let last = edges.last();
        after_edge(after_edges(lists, edges.drop_last(), limit), last.0, last.1, last.2, limit)
    }
}

/// Every list has distinct targets and respects the fan-out limit.
pub open spec fn lists_bounded(lists: Map<i64, Seq<GraphEdge>>, limit: nat) -> bool {
    forall|node: i64| #[trigger]
        lists.contains_key(node) ==> distinct_targets(lists[node]) && lists[node].len() <= limit
}

/// Ranks `list` and keeps its strongest `limit` edges.
fn keep_strongest(list: &Vec<GraphEdge>, limit: usize) -> (kept: Vec<GraphEdge>)
    requires
        distinct_targets(list@),
    ensures
        kept@ == strongest(list@, limit as nat),
        distinct_targets(kept@),
        kept@.len() <= limit,
        kept@.len() <= list@.len(),
{
    let n = list.len();
    let mut entries: Vec<(i128, i128)> = Vec::new();
    let mut i: usize = 0;
    while i < n
        invariant
            n == list@.len(),
            i <= n,
            entries@ == edge_entries(list@).take(i as int),
        decreases n - i,
    {
        let e = list[i];
        entries.push((e.target as i128, e.weight as i128));
        proof {
            assert(entries@ =~= edge_entries(list@).take(i + 1));
        }
        i = i + 1;
    }
    proof {
        assert(entries@ =~= edge_entries(list@));
        lemma_table_of(entries@);
    }
    let ranked = rank_entries(&entries);
    let ghost table = table_of(entries@);
    let ghost order = ranking(table);
    let keep = if limit < n {
        limit
    } else {
        n
    };
    let mut kept: Vec<GraphEdge> = Vec::new();
    let mut k: usize = 0;
    while k < keep
        invariant
            keep <= n,
            n == ranked@.len(),
            n == entries@.len(),
            entries@ == edge_entries(list@),
            n == list@.len(),
            k <= keep,
            kept@.len() == k,
            table == table_of(entries@),
            order == ranking(table),
            keys_of(ranked@) == order,
            is_ranking(order, table),
            distinct_keys(ranked@),
            forall|i: int|
                0 <= i < ranked@.len() ==> table[(#[trigger] ranked@[i]).0 as int] == ranked@[i].1,
            forall|key: int|
                table.contains_key(key) ==> exists|i: int|
                    0 <= i < entries@.len() && #[trigger] entries@[i].0 == key,
            forall|i: int|
                0 <= i < entries@.len() ==> table.contains_key(#[trigger] entries@[i].0 as int)
                    && table[entries@[i].0 as int] == entries@[i].1,
            forall|i: int|
                0 <= i < k ==> (#[trigger] kept@[i]) == (GraphEdge {
                    target: order[i] as i64,
                    weight: table[order[i]] as u16,
                }) && kept@[i].target == ranked@[i].0,
        decreases keep - k,
    {
        let r = ranked[k];
        proof {
            let key = r.0 as int;
            assert(order[k as int] == key);
            assert(order.contains(key));
            assert(table.contains_key(key));
            let j = choose|j: int| 0 <= j < entries@.len() && #[trigger] entries@[j].0 == key;
            assert(entries@[j].0 == list@[j].target);
            assert(table[entries@[j].0 as int] == entries@[j].1);
            assert(entries@[j].1 == list@[j].weight);
        }
        kept.push(GraphEdge { target: r.0 as i64, weight: r.1 as u16 });
        k = k + 1;
    }
    proof {
        assert(order.len() == n);
        assert(kept@ =~= strongest(list@, limit as nat));
        assert forall|i: int, j: int|
            0 <= i < kept@.len() && 0 <= j < kept@.len() && i != j implies (#[trigger] kept@[i]).target
            != (#[trigger] kept@[j]).target by {
            assert(ranked@[i].0 != ranked@[j].0);
        }
    }
    kept
}

/// The position of the edge to `target` in `list`, if there is one.
fn find_target(list: &Vec<GraphEdge>, target: i64) -> (found: Option<usize>)
    requires
        distinct_targets(list@),
    ensures
        found is Some <==> has_target(list@, target),
        found is Some ==> found->0 == position_of(list@, target) && found->0 < list@.len(),
{
    let mut i: usize = 0;
    while i < list.len()
        invariant
            i <= list@.len(),
            distinct_targets(list@),
            forall|j: int| 0 <= j < i ==> (#[trigger] list@[j]).target != target,
        decreases list@.len() - i,
    {
        if list[i].target == target {
            proof {
                let at = position_of(list@, target);
                assert(list@[i as int].target == target);
                assert(has_target(list@, target));
                assert(list@[at].target == target);
                assert(at == i);
            }
            return Some(i);
        }
        i = i + 1;
    }
    None
}

/// A weighted association graph with bounded fan-out.
pub struct ActivationGraph {
    adjacency: Adjacency,
    max_fan_out: usize,
    max_active_nodes: usize,
}

impl ActivationGraph {
    /// The edge lists of the graph: for each node that has one, its edges in
    /// stored order.
    pub closed spec fn lists(&self) -> Map<i64, Seq<GraphEdge>> {
        adjacency_lists(self.adjacency)
    }

    /// The fan-out limit.
    pub closed spec fn fan_out_limit(&self) -> nat {
        self.max_fan_out as nat
    }

    /// The limit on the nodes that spread energy in one round.
    pub closed spec fn active_limit(&self) -> nat {
        self.max_active_nodes as nat
    }

    /// The invariant of a graph: no list holds two edges to one neighbour, and
    /// none is longer than the fan-out limit.
    pub open spec fn wf(&self) -> bool {
        lists_bounded(self.lists(), self.fan_out_limit())
    }

    /// An empty graph with the default limits.
    pub fn new() -> (graph: Self)
        ensures
            graph.wf(),
            graph.lists() == Map::<i64, Seq<GraphEdge>>::empty(),
            graph.fan_out_limit() == DEFAULT_MAX_FAN_OUT,
            graph.active_limit() == DEFAULT_MAX_ACTIVE_NODES,
    {
        ActivationGraph {
            adjacency: empty_adjacency(),
            max_fan_out: DEFAULT_MAX_FAN_OUT,
            max_active_nodes: DEFAULT_MAX_ACTIVE_NODES,
        }
    }

    /// An empty graph with the given limits.
    pub fn with_limits(max_fan_out: usize, max_active_nodes: usize) -> (graph: Self)
        ensures
            graph.wf(),
            graph.lists() == Map::<i64, Seq<GraphEdge>>::empty(),
            graph.fan_out_limit() == max_fan_out,
            graph.active_limit() == max_active_nodes,
    {
        ActivationGraph { adjacency: empty_adjacency(), max_fan_out, max_active_nodes }
    }

    /// The fan-out limit of this graph.
    pub fn max_fan_out(&self) -> (limit: usize)
        ensures
            limit == self.fan_out_limit(),
    {
        self.max_fan_out
    }

    /// The limit on the nodes that spread energy in one diffusion round.
    pub fn max_active_nodes(&self) -> (limit: usize)
        ensures
            limit == self.active_limit(),
    {
        self.max_active_nodes
    }

    /// The edges of `node` in stored order; empty where the node has none.
    pub fn neighbors(&self, node: i64) -> (edges: Vec<GraphEdge>)
        ensures
            edges@ == list_at(self.lists(), node),
    {
        match neighbors_of(&self.adjacency, node) {
            Some(list) => list,
            None => Vec::new(),
        }
    }

    /// Inserts the directed edge `source -> target`.
    fn add_directed_edge(&mut self, source: i64, target: i64, level: u16)
        requires
            old(self).wf(),
        ensures
            final(self).wf(),
            final(self).fan_out_limit() == old(self).fan_out_limit(),
            final(self).active_limit() == old(self).active_limit(),
            final(self).lists() == after_directed_edge(
                old(self).lists(),
                source,
                target,
                level,
                old(self).fan_out_limit(),
            ),
    {
        let mut list = self.neighbors(source);
        let ghost before = list@;
        let found = find_target(&list, target);
        match found {
            Some(at) => {
                if level > list[at].weight {
                    list.set(at, GraphEdge { target, weight: level });
                }
            },
            None => {
                list.push(GraphEdge { target, weight: level });
                if list.len() > self.max_fan_out {
                    list = keep_strongest(&list, self.max_fan_out);
                }
            },
        }
        proof {
            assert(list@ == with_edge(before, target, level, self.fan_out_limit()));
        }
        store_neighbors(&mut self.adjacency, source, list);
    }

    /// Inserts the undirected edge between `a` and `b` with the fixed-point
    /// weight `weight`, which is limited to the range from 0.0 to 1.0 and
    /// stored as a weight level. Both directions are stored. Where an edge
    /// between the two exists already, the higher of the two levels is kept.
    /// A list that would exceed the fan-out limit is cut to its strongest
    /// edges.
    pub fn add_edge(&mut self, a: i64, b: i64, weight: i64)
        requires
            old(self).wf(),
        ensures
            final(self).wf(),
            final(self).fan_out_limit() == old(self).fan_out_limit(),
            final(self).active_limit() == old(self).active_limit(),
            final(self).lists() == after_edge(
                old(self).lists(),
                a,
                b,
                weight,
                old(self).fan_out_limit(),
            ),
    {
        let level = quantize(weight);
        self.add_directed_edge(a, b, level);
        self.add_directed_edge(b, a, level);
    }

    /// Inserts a batch of undirected edges `(a, b, weight)`, in order.
    pub fn add_edges(&mut self, edges: &Vec<(i64, i64, i64)>)
        requires
            old(self).wf(),
        ensures
            final(self).wf(),
            final(self).fan_out_limit() == old(self).fan_out_limit(),
            final(self).active_limit() == old(self).active_limit(),
            final(self).lists() == after_edges(
                old(self).lists(),
                edges@,
                old(self).fan_out_limit(),
            ),
    {
        let mut i: usize = 0;
        while i < edges.len()
            invariant
                i <= edges@.len(),
                self.wf(),
                self.fan_out_limit() == old(self).fan_out_limit(),
                self.active_limit() == old(self).active_limit(),
                self.lists() == after_edges(
                    old(self).lists(),
                    edges@.take(i as int),
                    old(self).fan_out_limit(),
                ),
            decreases edges@.len() - i,
        {
            let e = edges[i];
            proof {
                assert(edges@.take(i + 1).drop_last() =~= edges@.take(i as int));
            }
            self.add_edge(e.0, e.1, e.2);
            i = i + 1;
        }
        proof {
            assert(edges@.take(edges@.len() as int) =~= edges@);
        }
    }

    /// Removes every edge.
    pub fn clear(&mut self)
        ensures
            final(self).wf(),
            final(self).lists() == Map::<i64, Seq<GraphEdge>>::empty(),
            final(self).fan_out_limit() == old(self).fan_out_limit(),
            final(self).active_limit() == old(self).active_limit(),
    {
        clear_adjacency(&mut self.adjacency);
    }
}

} // verus!
