//! Spreading activation: energy that flows from seed nodes along the edges of
//! an [`ActivationGraph`], round by round.
//!
//! In each round the nodes that hold at least the threshold send energy to
//! their neighbours: the sender's energy times the edge's weight times the
//! decay factor. What arrives at a node is added to what it holds, up to the
//! cap. All sends of a round are computed from the energies at the start of
//! the round.

use crate::fixed::{dequantize, dequantized, lemma_dequantized_range};
use crate::graph::{list_at, ActivationGraph, GraphEdge};
use crate::scores::{
    cap_scores, capped, capped_scores, entries_of, select_strongest, strongest_nodes, within_cap,
    ENERGY_CAP,
};
use std::collections::HashMap;
use vstd::prelude::*;

verus! {

/// The energy that a node holding `score` sends along an edge with weight
/// level `level`: `score * weight * decay`, rounded down.
pub open spec fn energy_sent(score: u32, level: u16, decay: u32) -> int {
    (score as int * dequantized(level as int) * decay as int) / 0x1000_0000_0000_0000
}

/// Whether `energy` is passed on under `min_threshold`: it must reach half the
/// threshold.
pub open spec fn passes(energy: int, min_threshold: u32) -> bool {
    2 * energy >= min_threshold
}

/// What one edge delivers to `node`.
pub open spec fn delivered(
    edge: GraphEdge,
    score: u32,
    decay: u32,
    min_threshold: u32,
    node: i64,
) -> int {
    let energy = energy_sent(score, edge.weight, decay);
    if edge.target == node && passes(energy, min_threshold) {
        energy
    } else {
        0
    }
}

/// Whether one edge delivers anything to `node`, be it the energy 0.
pub open spec fn delivers(
    edge: GraphEdge,
    score: u32,
    decay: u32,
    min_threshold: u32,
    node: i64,
) -> bool {
    edge.target == node && passes(energy_sent(score, edge.weight, decay), min_threshold)
}

/// The energy that arrives at `node` along `edges` from a sender that holds
/// `score`.
pub open spec fn arriving(
    edges: Seq<GraphEdge>,
    score: u32,
    decay: u32,
    min_threshold: u32,
    node: i64,
) -> int
    decreases edges.len(),
{
    if edges.len() == 0 {
        0
    } else {
        arriving(edges.drop_last(), score, decay, min_threshold, node) + delivered(
            edges.last(),
            score,
            decay,
            min_threshold,
            node,
        )
    }
}

/// Whether one of `edges` delivers to `node`.
pub open spec fn reaches(
    edges: Seq<GraphEdge>,
    score: u32,
    decay: u32,
    min_threshold: u32,
    node: i64,
) -> bool
    decreases edges.len(),
{
    if edges.len() == 0 {
        false
    } else {
        reaches(edges.drop_last(), score, decay, min_threshold, node) || delivers(
            edges.last(),
            score,
            decay,
            min_threshold,
            node,
        )
    }
}

/// The energy that `node` receives in one round from `senders`, each given
/// with the energy it holds.
pub open spec fn received(
    lists: Map<i64, Seq<GraphEdge>>,
    senders: Seq<(i64, u32)>,
    decay: u32,
    min_threshold: u32,
    node: i64,
) -> int
    decreases senders.len(),
{
    if senders.len() == 0 {
        0
    } else {
        received(lists, senders.drop_last(), decay, min_threshold, node) + arriving(
            list_at(lists, senders.last().0),
            senders.last().1,
            decay,
            min_threshold,
            node,
        )
    }
}

/// Whether one of `senders` delivers to `node` in one round.
pub open spec fn reached(
    lists: Map<i64, Seq<GraphEdge>>,
    senders: Seq<(i64, u32)>,
    decay: u32,
    min_threshold: u32,
    node: i64,
) -> bool
    decreases senders.len(),
{
    if senders.len() == 0 {
        false
    } else {
        reached(lists, senders.drop_last(), decay, min_threshold, node) || reaches(
            list_at(lists, senders.last().0),
            senders.last().1,
            decay,
            min_threshold,
            node,
        )
    }
}

/// The energy of `node` in `scores`; 0.0 where it has none.
pub open spec fn energy_at(scores: Map<i64, u32>, node: i64) -> int {
    if scores.contains_key(node) {
        scores[node] as int
    } else {
        0
    }
}

/// The scores after one round in which `senders` spread their energy: a node
/// that something is delivered to holds what it held plus what it received,
/// up to the cap; every other node holds what it held.
pub open spec fn after_round(
    lists: Map<i64, Seq<GraphEdge>>,
    scores: Map<i64, u32>,
    senders: Seq<(i64, u32)>,
    decay: u32,
    min_threshold: u32,
) -> Map<i64, u32> {
    Map::new(
        |node: i64|
            scores.contains_key(node) || reached(lists, senders, decay, min_threshold, node),
        |node: i64|
            if reached(lists, senders, decay, min_threshold, node) {
                capped(
                    energy_at(scores, node) + received(lists, senders, decay, min_threshold, node),
                )
            } else {
                scores[node]
            },
    )
}

/// The scores after up to `steps` rounds. The senders of a round are the
/// `limit` most energetic nodes among those that hold at least
/// `min_threshold`; diffusion ends early when there are none.
pub open spec fn diffused(
    lists: Map<i64, Seq<GraphEdge>>,
    scores: Map<i64, u32>,
    steps: nat,
    decay: u32,
    min_threshold: u32,
    limit: nat,
) -> Map<i64, u32>
    decreases steps,
{
    if steps == 0 {
        scores
    } else {
        let senders = strongest_nodes(scores, min_threshold, limit);
        if senders.len() == 0 {
            scores
        } else {
            diffused(
                lists,
                after_round(lists, scores, senders, decay, min_threshold),
                (steps - 1) as nat,
                decay,
                min_threshold,
                limit,
            )
        }
    }
}

/// Energy that is sent is never negative and stays below 16.0.
pub proof fn lemma_energy_sent_range(score: u32, level: u16, decay: u32)
    ensures
        0 <= energy_sent(score, level, decay) < 0x4_0000_0000,
        0 <= (score as int) * dequantized(level as int) * (decay as int)
            < 0x4000_0000_0000_0000_0000_0000,
{
    let w = dequantized(level as int);
    lemma_dequantized_range(level as int);
    let s = score as int;
    let d = decay as int;
    assert(0 <= s * w <= 0xFFFF_FFFF * 0x4000_0000) by (nonlinear_arith)
        requires
            0 <= s <= 0xFFFF_FFFF,
            0 <= w <= 0x4000_0000,
    ;
    let p = s * w;
    assert(0 <= p * d <= 0x3FFF_FFFF_C000_0000 * 0xFFFF_FFFF) by (nonlinear_arith)
        requires
            0 <= p <= 0x3FFF_FFFF_C000_0000,
            0 <= d <= 0xFFFF_FFFF,
    ;
    let x = p * d;
    assert(0 <= x / 0x1000_0000_0000_0000 < 0x4_0000_0000) by (nonlinear_arith)
        requires
            0 <= x < 0x4000_0000_0000_0000_0000_0000,
    ;
}

/// One more edge adds what it delivers.
pub proof fn lemma_arriving_step(
    edges: Seq<GraphEdge>,
    upto: int,
    score: u32,
    decay: u32,
    min_threshold: u32,
    node: i64,
)
    requires
        0 <= upto < edges.len(),
    ensures
        arriving(edges.take(upto + 1), score, decay, min_threshold, node) == arriving(
            edges.take(upto),
            score,
            decay,
            min_threshold,
            node,
        ) + delivered(edges[upto], score, decay, min_threshold, node),
        reaches(edges.take(upto + 1), score, decay, min_threshold, node) == (reaches(
            edges.take(upto),
            score,
            decay,
            min_threshold,
            node,
        ) || delivers(edges[upto], score, decay, min_threshold, node)),
{
    assert(edges.take(upto + 1).drop_last() =~= edges.take(upto));
    assert(edges.take(upto + 1).last() == edges[upto]);
}

/// One more sender adds what arrives along its edges.
pub proof fn lemma_received_step(
    lists: Map<i64, Seq<GraphEdge>>,
    senders: Seq<(i64, u32)>,
    upto: int,
    decay: u32,
    min_threshold: u32,
    node: i64,
)
    requires
        0 <= upto < senders.len(),
    ensures
        received(lists, senders.take(upto + 1), decay, min_threshold, node) == received(
            lists,
            senders.take(upto),
            decay,
            min_threshold,
            node,
        ) + arriving(
            list_at(lists, senders[upto].0),
            senders[upto].1,
            decay,
            min_threshold,
            node,
        ),
        reached(lists, senders.take(upto + 1), decay, min_threshold, node) == (reached(
            lists,
            senders.take(upto),
            decay,
            min_threshold,
            node,
        ) || reaches(
            list_at(lists, senders[upto].0),
            senders[upto].1,
            decay,
            min_threshold,
            node,
        )),
{
    assert(senders.take(upto + 1).drop_last() =~= senders.take(upto));
    assert(senders.take(upto + 1).last() == senders[upto]);
}

/// Edges that do not deliver to a node bring it no energy.
pub proof fn lemma_nothing_arrives(
    edges: Seq<GraphEdge>,
    score: u32,
    decay: u32,
    min_threshold: u32,
    node: i64,
)
    requires
        !reaches(edges, score, decay, min_threshold, node),
    ensures
        arriving(edges, score, decay, min_threshold, node) == 0,
    decreases edges.len(),
{
    if edges.len() > 0 {
        lemma_nothing_arrives(edges.drop_last(), score, decay, min_threshold, node);
    }
}

/// A node that no sender delivers to receives no energy.
pub proof fn lemma_nothing_received(
    lists: Map<i64, Seq<GraphEdge>>,
    senders: Seq<(i64, u32)>,
    decay: u32,
    min_threshold: u32,
    node: i64,
)
    requires
        !reached(lists, senders, decay, min_threshold, node),
    ensures
        received(lists, senders, decay, min_threshold, node) == 0,
    decreases senders.len(),
{
    if senders.len() > 0 {
        lemma_nothing_received(lists, senders.drop_last(), decay, min_threshold, node);
        lemma_nothing_arrives(
            list_at(lists, senders.last().0),
            senders.last().1,
            decay,
            min_threshold,
            node,
        );
    }
}

/// What arrives along a list is never negative.
pub proof fn lemma_arriving_nonnegative(
    edges: Seq<GraphEdge>,
    score: u32,
    decay: u32,
    min_threshold: u32,
    node: i64,
)
    ensures
        arriving(edges, score, decay, min_threshold, node) >= 0,
    decreases edges.len(),
{
    if edges.len() > 0 {
        lemma_arriving_nonnegative(edges.drop_last(), score, decay, min_threshold, node);
        lemma_energy_sent_range(score, edges.last().weight, decay);
    }
}

/// What a node receives in a round is never negative.
pub proof fn lemma_received_nonnegative(
    lists: Map<i64, Seq<GraphEdge>>,
    senders: Seq<(i64, u32)>,
    decay: u32,
    min_threshold: u32,
    node: i64,
)
    ensures
        received(lists, senders, decay, min_threshold, node) >= 0,
    decreases senders.len(),
{
    if senders.len() > 0 {
        lemma_received_nonnegative(lists, senders.drop_last(), decay, min_threshold, node);
        lemma_arriving_nonnegative(
            list_at(lists, senders.last().0),
            senders.last().1,
            decay,
            min_threshold,
            node,
        );
    }
}

/// One round keeps every energy within the cap.
pub proof fn lemma_round_within_cap(
    lists: Map<i64, Seq<GraphEdge>>,
    scores: Map<i64, u32>,
    senders: Seq<(i64, u32)>,
    decay: u32,
    min_threshold: u32,
)
    requires
        within_cap(scores),
    ensures
        within_cap(after_round(lists, scores, senders, decay, min_threshold)),
{
    let next = after_round(lists, scores, senders, decay, min_threshold);
    assert forall|node: i64| next.contains_key(node) implies #[trigger] next[node]
        <= ENERGY_CAP by {
        lemma_received_nonnegative(lists, senders, decay, min_threshold, node);
        if !reached(lists, senders, decay, min_threshold, node) {
            assert(scores.contains_key(node));
            assert(scores[node] <= ENERGY_CAP);
        }
    }
}

/// Diffusion keeps every energy within the cap, however many rounds it runs.
pub proof fn lemma_diffused_within_cap(
    lists: Map<i64, Seq<GraphEdge>>,
    scores: Map<i64, u32>,
    steps: nat,
    decay: u32,
    min_threshold: u32,
    limit: nat,
)
    requires
        within_cap(scores),
    ensures
        within_cap(diffused(lists, scores, steps, decay, min_threshold, limit)),
    decreases steps,
{
    if steps > 0 {
        let senders = strongest_nodes(scores, min_threshold, limit);
        if senders.len() > 0 {
            lemma_round_within_cap(lists, scores, senders, decay, min_threshold);
            lemma_diffused_within_cap(
                lists,
                after_round(lists, scores, senders, decay, min_threshold),
                (steps - 1) as nat,
                decay,
                min_threshold,
                limit,
            );
        }
    }
}

/// Computes the energy that is sent along one edge.
fn energy_of(score: u32, level: u16, decay: u32) -> (energy: u64)
    ensures
        energy == energy_sent(score, level, decay),
        energy < 0x4_0000_0000,
{
    let weight = dequantize(level);
    proof {
        lemma_energy_sent_range(score, level, decay);
        let s = score as int;
        let w = weight as int;
        assert(0 <= s * w <= 0xFFFF_FFFF * 0x4000_0000) by (nonlinear_arith)
            requires
                0 <= s <= 0xFFFF_FFFF,
                0 <= w <= 0x4000_0000,
        ;
    }
    let product: u128 = (score as u128) * (weight as u128) * (decay as u128);
    (product / 0x1000_0000_0000_0000u128) as u64
}

/// Whether `increments` holds exactly what has been delivered so far: what
/// the earlier senders delivered, given by `base_reached` and
/// `base_received`, and what the present sender delivered along `seen`.
spec fn tallied(
    increments: Map<i64, u32>,
    base_reached: spec_fn(i64) -> bool,
    base_received: spec_fn(i64) -> int,
    seen: Seq<GraphEdge>,
    score: u32,
    decay: u32,
    min_threshold: u32,
) -> bool {
    &&& forall|node: i64| #[trigger]
        increments.contains_key(node) <==> (base_reached(node) || reaches(
            seen,
            score,
            decay,
            min_threshold,
            node,
        ))
    &&& forall|node: i64|
        increments.contains_key(node) ==> #[trigger] increments[node] == capped(
            base_received(node) + arriving(seen, score, decay, min_threshold, node),
        )
}

/// What the earlier senders delivered is consistent: no negative energy, and
/// none for a node that was not delivered to.
spec fn sound_base(base_reached: spec_fn(i64) -> bool, base_received: spec_fn(i64) -> int) -> bool {
    &&& forall|node: i64| #[trigger] base_received(node) >= 0
    &&& forall|node: i64| !base_reached(node) ==> #[trigger] base_received(node) == 0
}

/// Adds to `increments` what one sender delivers along its edges.
fn send_along(
    increments: &mut HashMap<i64, u32>,
    edges: &Vec<GraphEdge>,
    score: u32,
    decay: u32,
    min_threshold: u32,
    Ghost(base_reached): Ghost<spec_fn(i64) -> bool>,
    Ghost(base_received): Ghost<spec_fn(i64) -> int>,
)
    requires
        sound_base(base_reached, base_received),
        tallied(
            old(increments)@,
            base_reached,
            base_received,
            Seq::empty(),
            score,
            decay,
            min_threshold,
        ),
    ensures
        tallied(
            final(increments)@,
            base_reached,
            base_received,
            edges@,
            score,
            decay,
            min_threshold,
        ),
{
    let mut j: usize = 0;
    proof {
        assert(edges@.take(0) =~= Seq::empty());
    }
    while j < edges.len()
        invariant
            j <= edges@.len(),
            sound_base(base_reached, base_received),
            tallied(
                increments@,
                base_reached,
                base_received,
                edges@.take(j as int),
                score,
                decay,
                min_threshold,
            ),
        decreases edges@.len() - j,
    {
        let edge = edges[j];
        let energy = energy_of(score, edge.weight, decay);
        let ghost before = increments@;
        let ghost seen = edges@.take(j as int);
        if 2 * energy >= min_threshold as u64 {
            let held: u64 = match increments.get(&edge.target) {
                Some(e) => *e as u64,
                None => 0,
            };
            let sum: u64 = held + energy;
            let next: u32 = if sum > ENERGY_CAP as u64 {
                ENERGY_CAP
            } else {
                sum as u32
            };
            increments.insert(edge.target, next);
            proof {
                let t = edge.target;
                lemma_arriving_nonnegative(seen, score, decay, min_threshold, t);
                assert(base_received(t) >= 0);
                if !before.contains_key(t) {
                    assert(!base_reached(t));
                    assert(base_received(t) == 0);
                    lemma_nothing_arrives(seen, score, decay, min_threshold, t);
                } else {
                    assert(before[t] == capped(
                        base_received(t) + arriving(seen, score, decay, min_threshold, t),
                    ));
                }
                assert(held == capped(
                    base_received(t) + arriving(seen, score, decay, min_threshold, t),
                ));
            }
        }
        proof {
            let now = increments@;
            let longer = edges@.take(j + 1);
            assert forall|node: i64| #[trigger]
                now.contains_key(node) <==> (base_reached(node) || reaches(
                    longer,
                    score,
                    decay,
                    min_threshold,
                    node,
                )) by {
                lemma_arriving_step(edges@, j as int, score, decay, min_threshold, node);
                assert(before.contains_key(node) <==> (base_reached(node) || reaches(
                    seen,
                    score,
                    decay,
                    min_threshold,
                    node,
                )));
            }
            assert forall|node: i64| now.contains_key(node) implies #[trigger] now[node] == capped(
                base_received(node) + arriving(longer, score, decay, min_threshold, node),
            ) by {
                lemma_arriving_step(edges@, j as int, score, decay, min_threshold, node);
                lemma_arriving_nonnegative(seen, score, decay, min_threshold, node);
                assert(base_received(node) >= 0);
                if before.contains_key(node) {
                    assert(before[node] == capped(
                        base_received(node) + arriving(seen, score, decay, min_threshold, node),
                    ));
                }
            }
        }
        j = j + 1;
    }
    proof {
        assert(edges@.take(edges@.len() as int) =~= edges@);
    }
}

impl ActivationGraph {
    /// What `senders` deliver in one round: for each node that something is
    /// delivered to, the energy it receives, up to the cap.
    fn gather(&self, senders: &Vec<(i64, u32)>, decay: u32, min_threshold: u32) -> (increments:
        HashMap<i64, u32>)
        ensures
            forall|node: i64|
                increments@.contains_key(node) <==> #[trigger] reached(
                    self.lists(),
                    senders@,
                    decay,
                    min_threshold,
                    node,
                ),
            forall|node: i64|
                increments@.contains_key(node) ==> #[trigger] increments@[node] == capped(
                    received(self.lists(), senders@, decay, min_threshold, node),
                ),
    {
        let mut increments: HashMap<i64, u32> = HashMap::new();
        let mut i: usize = 0;
        while i < senders.len()
            invariant
                i <= senders@.len(),
                forall|node: i64|
                    increments@.contains_key(node) <==> #[trigger] reached(
                        self.lists(),
                        senders@.take(i as int),
                        decay,
                        min_threshold,
                        node,
                    ),
                forall|node: i64|
                    increments@.contains_key(node) ==> #[trigger] increments@[node] == capped(
                        received(
                            self.lists(),
                            senders@.take(i as int),
                            decay,
                            min_threshold,
                            node,
                        ),
                    ),
            decreases senders@.len() - i,
        {
            let sender = senders[i];
            let edges = self.neighbors(sender.0);
            let ghost lists = self.lists();
            let ghost done = senders@.take(i as int);
            let ghost base_reached = |node: i64| reached(lists, done, decay, min_threshold, node);
            let ghost base_received = |node: i64| received(lists, done, decay, min_threshold, node);
            let ghost before = increments@;
            proof {
                assert forall|node: i64| #[trigger] base_received(node) >= 0 by {
                    lemma_received_nonnegative(lists, done, decay, min_threshold, node);
                }
                assert forall|node: i64| !base_reached(node) implies #[trigger] base_received(node)
                    == 0 by {
                    lemma_nothing_received(lists, done, decay, min_threshold, node);
                }
                assert forall|node: i64| #[trigger]
                    before.contains_key(node) <==> (base_reached(node) || reaches(
                        Seq::empty(),
                        sender.1,
                        decay,
                        min_threshold,
                        node,
                    )) by {
                    assert(before.contains_key(node) <==> reached(
                        lists,
                        done,
                        decay,
                        min_threshold,
                        node,
                    ));
                }
                assert forall|node: i64| before.contains_key(node) implies #[trigger] before[node]
                    == capped(
                    base_received(node) + arriving(
                        Seq::empty(),
                        sender.1,
                        decay,
                        min_threshold,
                        node,
                    ),
                ) by {
                    assert(before[node] == capped(
                        received(lists, done, decay, min_threshold, node),
                    ));
                }
            }
            send_along(
                &mut increments,
                &edges,
                sender.1,
                decay,
                min_threshold,
                Ghost(base_reached),
                Ghost(base_received),
            );
            proof {
                let now = increments@;
                assert forall|node: i64|
                    now.contains_key(node) <==> #[trigger] reached(
                        lists,
                        senders@.take(i + 1),
                        decay,
                        min_threshold,
                        node,
                    ) by {
                    lemma_received_step(lists, senders@, i as int, decay, min_threshold, node);
                    assert(now.contains_key(node) <==> (base_reached(node) || reaches(
                        edges@,
                        sender.1,
                        decay,
                        min_threshold,
                        node,
                    )));
                }
                assert forall|node: i64| now.contains_key(node) implies #[trigger] now[node]
                    == capped(
                    received(lists, senders@.take(i + 1), decay, min_threshold, node),
                ) by {
                    lemma_received_step(lists, senders@, i as int, decay, min_threshold, node);
                    assert(now[node] == capped(
                        base_received(node) + arriving(
                            edges@,
                            sender.1,
                            decay,
                            min_threshold,
                            node,
                        ),
                    ));
                }
            }
            i = i + 1;
        }
        proof {
            assert(senders@.take(senders@.len() as int) =~= senders@);
        }
        increments
    }

    /// Spreads activation from `initial_scores` through the graph for up to
    /// `steps` rounds and returns the energy of every node that holds any.
    ///
    /// The seed energies are limited to the cap first. In each round the
    /// senders are the nodes that hold at least `min_threshold`, at most
    /// [`ActivationGraph::max_active_nodes`] of them, the most energetic
    /// first. A sender passes `energy * weight * decay` along each of its
    /// edges, unless that is less than half of `min_threshold`. A node that is
    /// delivered to then holds what it held plus what it received, up to the
    /// cap. Diffusion ends early once no node holds `min_threshold`.
    pub fn propagate(
        &self,
        initial_scores: HashMap<i64, u32>,
        steps: usize,
        decay: u32,
        min_threshold: u32,
    ) -> (final_scores: HashMap<i64, u32>)
        ensures
            final_scores@ == diffused(
                self.lists(),
                capped_scores(initial_scores@),
                steps as nat,
                decay,
                min_threshold,
                self.active_limit(),
            ),
            within_cap(final_scores@),
    {
        let limit = self.max_active_nodes();
        let mut current = cap_scores(&initial_scores);
        let ghost goal = diffused(
            self.lists(),
            current@,
            steps as nat,
            decay,
            min_threshold,
            limit as nat,
        );
        let mut step: usize = 0;
        while step < steps
            invariant
                step <= steps,
                limit == self.active_limit(),
                within_cap(current@),
                goal == diffused(
                    self.lists(),
                    current@,
                    (steps - step) as nat,
                    decay,
                    min_threshold,
                    limit as nat,
                ),
            decreases steps - step,
        {
            let senders = select_strongest(&current, min_threshold, limit);
            if senders.len() == 0 {
                step = steps;
            } else {
                let increments = self.gather(&senders, decay, min_threshold);
                let ghost before = current@;
                current = merge(current, &increments);
                proof {
                    lemma_round_within_cap(
                        self.lists(),
                        before,
                        senders@,
                        decay,
                        min_threshold,
                    );
                    assert forall|node: i64| #[trigger]
                        increments@.contains_key(node) implies capped(
                        energy_at(before, node) + increments@[node],
                    ) == capped(
                        energy_at(before, node) + received(
                            self.lists(),
                            senders@,
                            decay,
                            min_threshold,
                            node,
                        ),
                    ) by {
                        lemma_received_nonnegative(
                            self.lists(),
                            senders@,
                            decay,
                            min_threshold,
                            node,
                        );
                    }
                    assert(current@ =~= after_round(
                        self.lists(),
                        before,
                        senders@,
                        decay,
                        min_threshold,
                    ));
                }
                step = step + 1;
            }
        }
        current
    }
}

/// The scores after `increments` have been added: a node with an increment
/// holds what it held plus the increment, up to the cap.
pub open spec fn merged(scores: Map<i64, u32>, increments: Map<i64, u32>) -> Map<i64, u32> {
    Map::new(
        |node: i64| scores.contains_key(node) || increments.contains_key(node),
        |node: i64|
            if increments.contains_key(node) {
                capped(energy_at(scores, node) + increments[node])
            } else {
                scores[node]
            },
    )
}

/// Whether one of the first `upto` entries is for `node`.
spec fn listed(entries: Seq<(i64, u32)>, upto: int, node: i64) -> bool {
    exists|a: int| 0 <= a < upto && (#[trigger] entries[a]).0 == node
}

proof fn lemma_listed_step(entries: Seq<(i64, u32)>, upto: int, node: i64)
    requires
        0 <= upto < entries.len(),
    ensures
        listed(entries, upto + 1, node) == (listed(entries, upto, node) || entries[upto].0 == node),
{
    if listed(entries, upto + 1, node) {
        let a = choose|a: int| 0 <= a < upto + 1 && (#[trigger] entries[a]).0 == node;
        if a < upto {
            assert(listed(entries, upto, node));
        }
    }
    if listed(entries, upto, node) {
        let a = choose|a: int| 0 <= a < upto && (#[trigger] entries[a]).0 == node;
        assert(0 <= a < upto + 1 && entries[a].0 == node);
    }
    if entries[upto].0 == node {
        assert(0 <= upto < upto + 1 && entries[upto].0 == node);
    }
}

/// Adds `increments` to `scores`.
fn merge(scores: HashMap<i64, u32>, increments: &HashMap<i64, u32>) -> (sum: HashMap<i64, u32>)
    ensures
        sum@ == merged(scores@, increments@),
{
    let entries = entries_of(increments);
    let ghost before = scores@;
    let mut sum = scores;
    let mut i: usize = 0;
    while i < entries.len()
        invariant
            i <= entries@.len(),
            forall|a: int|
                0 <= a < entries@.len() ==> increments@.contains_key((#[trigger] entries@[a]).0)
                    && increments@[entries@[a].0] == entries@[a].1,
            forall|a: int, b: int|
                0 <= a < b < entries@.len() ==> (#[trigger] entries@[a]).0 != (
                #[trigger] entries@[b]).0,
            forall|node: i64|
                #[trigger] sum@.contains_key(node) <==> (before.contains_key(node) || listed(
                    entries@,
                    i as int,
                    node,
                )),
            forall|node: i64|
                sum@.contains_key(node) ==> #[trigger] sum@[node] == (if listed(
                    entries@,
                    i as int,
                    node,
                ) {
                    capped(energy_at(before, node) + increments@[node])
                } else {
                    before[node]
                }),
        decreases entries@.len() - i,
    {
        let entry = entries[i];
        let held: u64 = match sum.get(&entry.0) {
            Some(e) => *e as u64,
            None => 0,
        };
        proof {
            if listed(entries@, i as int, entry.0) {
                let a = choose|a: int| 0 <= a < i && (#[trigger] entries@[a]).0 == entry.0;
                assert(entries@[a].0 != entries@[i as int].0);
            }
            assert(sum@.contains_key(entry.0) <==> before.contains_key(entry.0));
            if sum@.contains_key(entry.0) {
                assert(sum@[entry.0] == before[entry.0]);
            }
            assert(held == energy_at(before, entry.0));
        }
        let total: u64 = held + entry.1 as u64;
        let next: u32 = if total > ENERGY_CAP as u64 {
            ENERGY_CAP
        } else {
            total as u32
        };
        let ghost prior = sum@;
        sum.insert(entry.0, next);
        proof {
            assert(increments@[entries@[i as int].0] == entries@[i as int].1);
            assert forall|node: i64| #[trigger]
                sum@.contains_key(node) <==> (before.contains_key(node) || listed(
                    entries@,
                    i + 1,
                    node,
                )) by {
                lemma_listed_step(entries@, i as int, node);
                assert(prior.contains_key(node) <==> (before.contains_key(node) || listed(
                    entries@,
                    i as int,
                    node,
                )));
            }
            assert forall|node: i64| sum@.contains_key(node) implies #[trigger] sum@[node] == (
            if listed(entries@, i + 1, node) {
                capped(energy_at(before, node) + increments@[node])
            } else {
                before[node]
            }) by {
                lemma_listed_step(entries@, i as int, node);
                if node != entry.0 {
                    assert(prior.contains_key(node));
                    assert(sum@[node] == prior[node]);
                }
            }
        }
        i = i + 1;
    }
    proof {
        assert forall|node: i64|
            increments@.contains_key(node) <==> listed(entries@, entries@.len() as int, node) by {
            if listed(entries@, entries@.len() as int, node) {
                let a = choose|a: int| 0 <= a < entries@.len() && (#[trigger] entries@[a]).0 == node;
                assert(increments@.contains_key(entries@[a].0));
            }
            if increments@.contains_key(node) {
                let a = choose|a: int| 0 <= a < entries@.len() && (#[trigger] entries@[a]).0 == node;
                assert(listed(entries@, entries@.len() as int, node));
            }
        }
        assert forall|node: i64| sum@.contains_key(node) implies sum@[node] == merged(
            before,
            increments@,
        )[node] by {
            assert(increments@.contains_key(node) <==> listed(
                entries@,
                entries@.len() as int,
                node,
            ));
        }
        assert forall|node: i64| sum@.contains_key(node) <==> merged(
            before,
            increments@,
        ).contains_key(node) by {
            assert(increments@.contains_key(node) <==> listed(
                entries@,
                entries@.len() as int,
                node,
            ));
        }
        assert(sum@ =~= merged(before, increments@));
    }
    sum
}

} // verus!
