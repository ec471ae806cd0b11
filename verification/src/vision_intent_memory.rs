//! The orchestrator: one perception-to-recall cycle.
//!
//! An embedding of the current view is smoothed against the one before it and
//! matched against the intent anchors. Where the best match is confident
//! enough, activation spreads from the matched anchors through the memory
//! graph, and the most activated memories are compared with those of the
//! cycle before: a repeat of the same set is not worth a new trigger.

use crate::aura_vision::{AuraVisionEncoder, ModelShapes, EMBEDDING_DIM, PIXEL_COUNT};
use crate::diffusion::diffused;
use crate::errors::CoreError;
use crate::fixed::{clamp_to_unit, clamp_unit, floor_div, ONE};
use crate::graph::{after_edges, ActivationGraph, GraphEdge};
use crate::intent_engine::{
    best_matches, match_pairs, with_anchor, AnchorView, IntentAnchor, IntentEngine, IntentMatch,
};
use crate::intent_store::{decoded, encoded, storable};
use crate::saturation::{saturation_of, SaturationGuard};
use crate::scores::{capped_scores, node_ids, select_strongest, strongest_nodes, ENERGY_CAP};
use crate::smoother::{smoothed, TemporalSmoother};
use crate::vector::normalized;
use std::collections::HashMap;
use vstd::prelude::*;

verus! {

/// The number of matches that seed a diffusion.
pub const TOP_MATCHES: usize = 3;

/// The largest number of memories that one cycle activates.
pub const MAX_ACTIVATED: usize = 20;

/// The energy below which a node does not spread activation: 0.01.
pub const ACTIVATION_THRESHOLD: u32 = 10_737_418;

/// The similarity that the best match must reach in a new manager: 0.85.
pub const DEFAULT_SIMILARITY_THRESHOLD: u32 = 912_680_550;

/// The saturation from which a new manager suppresses a trigger: 0.7.
pub const DEFAULT_SATURATION_THRESHOLD: u32 = 751_619_277;

/// The usual number of diffusion rounds.
pub const DEFAULT_PROPAGATION_STEPS: usize = 2;

/// The usual decay factor of a diffusion: 0.5.
pub const DEFAULT_PROPAGATION_DECAY: u32 = 0x2000_0000;

/// What one cycle found and decided.
#[derive(Clone, Debug)]
pub struct VisionProcessResult {
    /// Whether the host should act on this view.
    pub triggered: bool,
    /// The identifier of the best matching anchor, -1 where there is none.
    pub top_anchor_id: i64,
    /// The similarity of the best match.
    pub top_similarity: i64,
    /// The description of the best matching anchor.
    pub top_description: String,
    /// The memories that diffusion activated, most activated first.
    pub activated_memory_ids: Vec<i64>,
    /// The share of the activated memories that the cycle before activated
    /// too.
    pub saturation: u32,
}

/// A result as a mathematical value.
pub struct ProcessView {
    pub triggered: bool,
    pub top_anchor_id: i64,
    pub top_similarity: int,
    pub top_description: Seq<char>,
    pub activated_memory_ids: Seq<i64>,
    pub saturation: int,
}

impl View for VisionProcessResult {
    type V = ProcessView;

    open spec fn view(&self) -> ProcessView {
        ProcessView {
            triggered: self.triggered,
            top_anchor_id: self.top_anchor_id,
            top_similarity: self.top_similarity as int,
            top_description: self.top_description@,
            activated_memory_ids: self.activated_memory_ids@,
            saturation: self.saturation as int,
        }
    }
}

/// The seed energy of a match: `similarity * importance`, limited to the
/// range from 0.0 to the energy cap.
pub open spec fn seed_energy(similarity: int, importance: u32) -> u32 {
    let e = (similarity * importance) / 0x4000_0000;
    if e < 0 {
        0
    } else if e > ENERGY_CAP {
        ENERGY_CAP
    } else {
        e as u32
    }
}

/// The seed energies of the first `upto` matches, under the identifiers of
/// their anchors.
pub open spec fn seeds_upto(anchors: Seq<AnchorView>, matches: Seq<(int, int)>, upto: nat) -> Map<
    i64,
    u32,
>
    decreases upto,
{
    if upto == 0 {
        Map::empty()
    } else {
        let m = matches[upto - 1];
        seeds_upto(anchors, matches, (upto - 1) as nat).insert(
            anchors[m.1].id,
            seed_energy(m.0, anchors[m.1].importance),
        )
    }
}

/// Why a cycle is refused, if it is: no model, a wrong number of pixels, or a
/// model output that does not have the dimension of the embeddings and of the
/// index.
pub open spec fn refusal(loaded: bool, dim: nat, pixel_count: usize, output_len: nat) -> Option<
    CoreError,
> {
    if !loaded {
        Some(CoreError::ModelNotLoaded)
    } else if pixel_count != PIXEL_COUNT {
        Some(CoreError::BadInputSize)
    } else if output_len != EMBEDDING_DIM || output_len != dim {
        Some(CoreError::DimensionMismatch)
    } else {
        None
    }
}

/// The memories that a diffusion from `matches` activates, most activated
/// first.
pub open spec fn activated(
    anchors: Seq<AnchorView>,
    lists: Map<i64, Seq<GraphEdge>>,
    active_limit: nat,
    matches: Seq<(int, int)>,
    steps: nat,
    decay: u32,
) -> Seq<i64> {
    let seeds = seeds_upto(anchors, matches, matches.len());
    let scores = diffused(
        lists,
        capped_scores(seeds),
        steps,
        decay,
        ACTIVATION_THRESHOLD,
        active_limit,
    );
    node_ids(strongest_nodes(scores, 0, MAX_ACTIVATED as nat))
}

/// Whether a cycle gets as far as diffusion: there is a match, and the best
/// one reaches the similarity threshold.
pub open spec fn diffuses(matches: Seq<(int, int)>, similarity_threshold: u32) -> bool {
    matches.len() > 0 && matches[0].0 >= similarity_threshold
}

/// The result of a cycle that is not refused, for the smoothed embedding
/// `embedding`.
pub open spec fn outcome(
    anchors: Seq<AnchorView>,
    lists: Map<i64, Seq<GraphEdge>>,
    active_limit: nat,
    recent: Seq<i64>,
    similarity_threshold: u32,
    saturation_threshold: u32,
    embedding: Seq<i32>,
    steps: nat,
    decay: u32,
) -> ProcessView {
    let matches = best_matches(anchors, embedding, TOP_MATCHES as nat);
    if matches.len() == 0 {
        ProcessView {
            triggered: false,
            top_anchor_id: -1i64,
            top_similarity: 0,
            top_description: Seq::empty(),
            activated_memory_ids: Seq::empty(),
            saturation: 0,
        }
    } else {
        let top = anchors[matches[0].1];
        if matches[0].0 < similarity_threshold {
            ProcessView {
                triggered: false,
                top_anchor_id: top.id,
                top_similarity: matches[0].0,
                top_description: top.description,
                activated_memory_ids: Seq::empty(),
                saturation: 0,
            }
        } else {
            let ids = activated(anchors, lists, active_limit, matches, steps, decay);
            let saturation = saturation_of(ids, recent);
            ProcessView {
                triggered: saturation < saturation_threshold,
                top_anchor_id: top.id,
                top_similarity: matches[0].0,
                top_description: top.description,
                activated_memory_ids: ids,
                saturation,
            }
        }
    }
}

/// Computes the seed energy of a match.
fn seed_of(similarity: i64, importance: u32) -> (seed: u32)
    requires
        -0x1_0000_0000_0000 <= similarity <= 0x1_0000_0000_0000,
    ensures
        seed == seed_energy(similarity as int, importance),
{
    proof {
        let s = similarity as int;
        let w = importance as int;
        assert(-0x1_0000_0000_0000 * 0x1_0000_0000 <= s * w <= 0x1_0000_0000_0000
            * 0x1_0000_0000) by (nonlinear_arith)
            requires
                -0x1_0000_0000_0000 <= s <= 0x1_0000_0000_0000,
                0 <= w <= 0x1_0000_0000,
        ;
    }
    let product: i128 = (similarity as i128) * (importance as i128);
    let e = floor_div(product, 0x4000_0000);
    if e < 0 {
        0
    } else if e > ENERGY_CAP as i128 {
        ENERGY_CAP
    } else {
        e as u32
    }
}

/// The state of one session: anchors, memory graph, smoothing state,
/// thresholds and the memories activated last.
pub struct VisionIntentMemoryManager {
    encoder: Option<AuraVisionEncoder>,
    intent_engine: IntentEngine,
    graph: ActivationGraph,
    smoother: TemporalSmoother,
    similarity_threshold: u32,
    guard: SaturationGuard,
    saturation_threshold: u32,
    model_loaded: bool,
}

impl VisionIntentMemoryManager {
    /// Whether a model has been accepted.
    pub closed spec fn loaded(&self) -> bool {
        self.model_loaded
    }

    /// The dimension of the anchor index.
    pub closed spec fn dim(&self) -> nat {
        self.intent_engine.dim()
    }

    /// The anchors, in the order of their first insertion.
    pub closed spec fn anchors(&self) -> Seq<AnchorView> {
        self.intent_engine.anchors()
    }

    /// The edge lists of the memory graph.
    pub closed spec fn lists(&self) -> Map<i64, Seq<GraphEdge>> {
        self.graph.lists()
    }

    /// The fan-out limit of the memory graph.
    pub closed spec fn fan_out_limit(&self) -> nat {
        self.graph.fan_out_limit()
    }

    /// The limit on the senders of a diffusion round.
    pub closed spec fn active_limit(&self) -> nat {
        self.graph.active_limit()
    }

    /// The embedding emitted last, if any.
    pub closed spec fn last_vector(&self) -> Option<Seq<i32>> {
        self.smoother.previous()
    }

    /// The smoothing weight of the current embedding.
    pub closed spec fn ema_alpha(&self) -> u32 {
        self.smoother.alpha()
    }

    /// The similarity that the best match must reach.
    pub closed spec fn similarity_threshold(&self) -> u32 {
        self.similarity_threshold
    }

    /// The saturation from which a trigger is suppressed.
    pub closed spec fn saturation_threshold(&self) -> u32 {
        self.saturation_threshold
    }

    /// The memories that the last diffusing cycle activated.
    pub closed spec fn recent(&self) -> Seq<i64> {
        self.guard.recent()
    }

    /// The invariant of a manager.
    pub closed spec fn wf(&self) -> bool {
        &&& self.intent_engine.wf()
        &&& self.graph.wf()
        &&& self.smoother.wf()
        &&& self.model_loaded == self.encoder is Some
        &&& self.encoder is Some ==> self.encoder->0.wf()
        &&& self.similarity_threshold <= ONE
        &&& self.saturation_threshold <= ONE
    }

    /// Whether `other` has the same configuration and contents as `self`,
    /// apart from the smoothing state and the recent memories.
    pub open spec fn same_setup(&self, other: &Self) -> bool {
        &&& self.loaded() == other.loaded()
        &&& self.dim() == other.dim()
        &&& self.anchors() == other.anchors()
        &&& self.lists() == other.lists()
        &&& self.fan_out_limit() == other.fan_out_limit()
        &&& self.active_limit() == other.active_limit()
        &&& self.ema_alpha() == other.ema_alpha()
        &&& self.similarity_threshold() == other.similarity_threshold()
        &&& self.saturation_threshold() == other.saturation_threshold()
    }

    /// Whether `other` is in the same state as `self`.
    pub open spec fn same_state(&self, other: &Self) -> bool {
        &&& self.same_setup(other)
        &&& self.last_vector() == other.last_vector()
        &&& self.recent() == other.recent()
    }

    /// A manager for embeddings of `dim` components, with the default
    /// thresholds, no anchors and no memory connections. Where the shapes of
    /// a model are given, the model is accepted or the
    /// manager is not made.
    pub fn new(model_shapes: Option<ModelShapes>, dim: usize) -> (made: Result<
        Self,
        CoreError,
    >)
        ensures
            made is Ok <==> (0 < dim <= crate::intent_engine::MAX_DIMENSION && (model_shapes is Some
                ==> (model_shapes->0.input@ == seq![1usize, 1usize, 64usize, 64usize]
                && model_shapes->0.output@ == seq![1usize, 384usize]))),
            made is Err ==> made->Err_0 == (if 0 < dim <= crate::intent_engine::MAX_DIMENSION {
                CoreError::InvalidModelFile
            } else {
                CoreError::BadInputSize
            }),
            made is Ok ==> {
                let m = made->Ok_0;
                &&& m.wf()
                &&& m.loaded() == model_shapes is Some
                &&& m.dim() == dim
                &&& m.anchors() == Seq::<AnchorView>::empty()
                &&& m.lists() == Map::<i64, Seq<GraphEdge>>::empty()
                &&& m.last_vector() is None
                &&& m.recent() == Seq::<i64>::empty()
                &&& m.ema_alpha() == crate::smoother::DEFAULT_ALPHA
                &&& m.similarity_threshold() == DEFAULT_SIMILARITY_THRESHOLD
                &&& m.saturation_threshold() == DEFAULT_SATURATION_THRESHOLD
            },
    {
        let intent_engine = match IntentEngine::new(dim) {
            Ok(engine) => engine,
            Err(e) => {
                return Err(e);
            },
        };
        let mut manager = VisionIntentMemoryManager {
            encoder: None,
            intent_engine,
            graph: ActivationGraph::new(),
            smoother: TemporalSmoother::new(),
            similarity_threshold: DEFAULT_SIMILARITY_THRESHOLD,
            guard: SaturationGuard::new(),
            saturation_threshold: DEFAULT_SATURATION_THRESHOLD,
            model_loaded: false,
        };
        match model_shapes {
            None => Ok(manager),
            Some(shapes) => {
                match manager.load_model(&shapes.input, &shapes.output) {
                    Ok(()) => Ok(manager),
                    Err(e) => Err(e),
                }
            },
        }
    }

    /// Accepts a model by the shapes that it declares. A model with other
    /// shapes than `(1, 1, 64, 64)` and `(1, 384)` is refused, and the manager
    /// stays as it is.
    pub fn load_model(&mut self, input_shape: &Vec<usize>, output_shape: &Vec<usize>) -> (loaded:
        Result<(), CoreError>)
        requires
            old(self).wf(),
        ensures
            final(self).wf(),
            loaded is Ok <==> (input_shape@ == seq![1usize, 1usize, 64usize, 64usize]
                && output_shape@ == seq![1usize, 384usize]),
            loaded is Err ==> loaded->Err_0 == CoreError::InvalidModelFile && old(self).same_state(
                final(self),
            ),
            loaded is Ok ==> final(self).loaded(),
            final(self).dim() == old(self).dim(),
            final(self).anchors() == old(self).anchors(),
            final(self).lists() == old(self).lists(),
            final(self).fan_out_limit() == old(self).fan_out_limit(),
            final(self).active_limit() == old(self).active_limit(),
            final(self).ema_alpha() == old(self).ema_alpha(),
            final(self).similarity_threshold() == old(self).similarity_threshold(),
            final(self).saturation_threshold() == old(self).saturation_threshold(),
            final(self).last_vector() == old(self).last_vector(),
            final(self).recent() == old(self).recent(),
    {
        match AuraVisionEncoder::load(input_shape, output_shape) {
            Err(e) => Err(e),
            Ok(encoder) => {
                self.encoder = Some(encoder);
                self.model_loaded = true;
                Ok(())
            },
        }
    }

    /// Whether a model has been accepted.
    pub fn is_model_loaded(&self) -> (loaded: bool)
        ensures
            loaded == self.loaded(),
    {
        self.model_loaded
    }

    /// Inserts an intent anchor. An anchor with the identifier of an
    /// earlier one replaces it. A vector that does not have the dimension of
    /// the index is refused.
    pub fn add_intent_anchor(
        &mut self,
        id: i64,
        vector: Vec<i32>,
        description: String,
        importance: u32,
        tags: &str,
    ) -> (added: Result<(), CoreError>)
        requires
            old(self).wf(),
        ensures
            final(self).wf(),
            added is Ok <==> vector@.len() == old(self).dim(),
            added is Err ==> added->Err_0 == CoreError::DimensionMismatch && old(self).same_state(
                final(self),
            ),
            added is Ok ==> final(self).anchors() == with_anchor(
                old(self).anchors(),
                AnchorView { id, vector: vector@, description: description@, importance, tags: tags@ },
            ),
            final(self).loaded() == old(self).loaded(),
            final(self).dim() == old(self).dim(),
            final(self).lists() == old(self).lists(),
            final(self).fan_out_limit() == old(self).fan_out_limit(),
            final(self).active_limit() == old(self).active_limit(),
            final(self).ema_alpha() == old(self).ema_alpha(),
            final(self).similarity_threshold() == old(self).similarity_threshold(),
            final(self).saturation_threshold() == old(self).saturation_threshold(),
            final(self).last_vector() == old(self).last_vector(),
            final(self).recent() == old(self).recent(),
    {
        let anchor = IntentAnchor {
            id,
            vector,
            description,
            importance,
            tags: String::from_str(tags),
        };
        self.intent_engine.add_anchor(anchor)
    }

    /// Inserts undirected memory connections `(a, b, weight)` into the graph,
    /// in order.
    pub fn add_memory_connections(&mut self, connections: Vec<(i64, i64, i64)>)
        requires
            old(self).wf(),
        ensures
            final(self).wf(),
            final(self).lists() == after_edges(
                old(self).lists(),
                connections@,
                old(self).fan_out_limit(),
            ),
            final(self).loaded() == old(self).loaded(),
            final(self).dim() == old(self).dim(),
            final(self).anchors() == old(self).anchors(),
            final(self).fan_out_limit() == old(self).fan_out_limit(),
            final(self).active_limit() == old(self).active_limit(),
            final(self).ema_alpha() == old(self).ema_alpha(),
            final(self).similarity_threshold() == old(self).similarity_threshold(),
            final(self).saturation_threshold() == old(self).saturation_threshold(),
            final(self).last_vector() == old(self).last_vector(),
            final(self).recent() == old(self).recent(),
    {
        self.graph.add_edges(&connections);
    }

    /// Removes every memory connection.
    pub fn clear_memory_connections(&mut self)
        requires
            old(self).wf(),
        ensures
            final(self).wf(),
            final(self).lists() == Map::<i64, Seq<GraphEdge>>::empty(),
            final(self).loaded() == old(self).loaded(),
            final(self).dim() == old(self).dim(),
            final(self).anchors() == old(self).anchors(),
            final(self).fan_out_limit() == old(self).fan_out_limit(),
            final(self).active_limit() == old(self).active_limit(),
            final(self).ema_alpha() == old(self).ema_alpha(),
            final(self).similarity_threshold() == old(self).similarity_threshold(),
            final(self).saturation_threshold() == old(self).saturation_threshold(),
            final(self).last_vector() == old(self).last_vector(),
            final(self).recent() == old(self).recent(),
    {
        self.graph.clear();
    }

    /// Runs one cycle for the output that the model gave for `pixel_count`
    /// pixels.
    ///
    /// A refused cycle changes nothing. Otherwise the output is brought to
    /// unit length, smoothed against the embedding before it and remembered
    /// as the latest embedding. The three best matching anchors are looked
    /// up. Without a match, or with a best match below the similarity
    /// threshold, the cycle ends there, without a trigger. Otherwise
    /// activation spreads from the matches, each seeded with its similarity
    /// times its importance; the twenty most activated memories are the
    /// result and become the recent memories; and the cycle triggers unless
    /// their saturation against the recent memories of the cycle before
    /// reaches the saturation threshold.
    pub fn process_visual_input(
        &mut self,
        pixel_count: usize,
        model_output: Vec<i32>,
        propagation_steps: usize,
        propagation_decay: u32,
    ) -> (processed: Result<VisionProcessResult, CoreError>)
        requires
            old(self).wf(),
        ensures
            final(self).wf(),
            old(self).same_setup(final(self)),
            processed is Err <==> refusal(
                old(self).loaded(),
                old(self).dim(),
                pixel_count,
                model_output@.len(),
            ) is Some,
            processed is Err ==> Some(processed->Err_0) == refusal(
                old(self).loaded(),
                old(self).dim(),
                pixel_count,
                model_output@.len(),
            ) && old(self).same_state(final(self)),
            processed is Ok ==> {
                let embedding = smoothed(
                    old(self).last_vector(),
                    normalized(model_output@),
                    old(self).ema_alpha(),
                );
                let result = outcome(
                    old(self).anchors(),
                    old(self).lists(),
                    old(self).active_limit(),
                    old(self).recent(),
                    old(self).similarity_threshold(),
                    old(self).saturation_threshold(),
                    embedding,
                    propagation_steps as nat,
                    propagation_decay,
                );
                &&& processed->Ok_0@ == result
                &&& final(self).last_vector() == Some(embedding)
                &&& final(self).recent() == (if diffuses(
                    best_matches(old(self).anchors(), embedding, TOP_MATCHES as nat),
                    old(self).similarity_threshold(),
                ) {
                    result.activated_memory_ids
                } else {
                    old(self).recent()
                })
            },
    {
        let normal = match &self.encoder {
            None => {
                return Err(CoreError::ModelNotLoaded);
            },
            Some(encoder) => match encoder.forward_from_pixels(pixel_count, model_output) {
                Err(e) => {
                    return Err(e);
                },
                Ok(v) => v,
            },
        };
        if normal.len() != self.intent_engine.dimension() {
            return Err(CoreError::DimensionMismatch);
        }
        let ghost anchors = self.anchors();
        let current = self.smoother.smooth(normal);
        let matches = match self.intent_engine.search(&current, TOP_MATCHES) {
            Ok(found) => found,
            // The embedding has the dimension of the index, so the search
            // accepts it.
            Err(e) => {
                return Err(e);
            },
        };
        let ghost pairs = match_pairs(matches@);
        if matches.len() == 0 {
            return Ok(
                VisionProcessResult {
                    triggered: false,
                    top_anchor_id: -1,
                    top_similarity: 0,
                    top_description: String::new(),
                    activated_memory_ids: Vec::new(),
                    saturation: 0,
                },
            );
        }
        let top = matches[0];
        proof {
            assert(pairs[0] == (top.similarity as int, top.position as int));
        }
        let top_anchor = self.intent_engine.anchor(top.position);
        let top_anchor_id = top_anchor.id;
        let top_description = top_anchor.description.clone();
        if top.similarity < self.similarity_threshold as i64 {
            return Ok(
                VisionProcessResult {
                    triggered: false,
                    top_anchor_id,
                    top_similarity: top.similarity,
                    top_description,
                    activated_memory_ids: Vec::new(),
                    saturation: 0,
                },
            );
        }
        let mut seeds: HashMap<i64, u32> = HashMap::new();
        let mut i: usize = 0;
        while i < matches.len()
            invariant
                i <= matches@.len(),
                self.intent_engine.wf(),
                anchors == self.intent_engine.anchors(),
                pairs == match_pairs(matches@),
                pairs == best_matches(anchors, current@, TOP_MATCHES as nat),
                current@.len() == self.intent_engine.dim(),
                crate::rank::is_ranking(
                    crate::rank::ranking(
                        crate::intent_engine::similarity_table(anchors, current@),
                    ),
                    crate::intent_engine::similarity_table(anchors, current@),
                ),
                forall|j: int|
                    0 <= j < matches@.len() ==> (#[trigger] matches@[j]).position < anchors.len(),
                seeds@ == seeds_upto(anchors, pairs, i as nat),
            decreases matches@.len() - i,
        {
            let m = matches[i];
            let anchor = self.intent_engine.anchor(m.position);
            proof {
                assert(pairs[i as int] == (m.similarity as int, m.position as int));
                crate::intent_engine::lemma_best_match_range(
                    anchors,
                    current@,
                    TOP_MATCHES as nat,
                    i as int,
                    self.intent_engine.dim(),
                );
            }
            seeds.insert(anchor.id, seed_of(m.similarity, anchor.importance));
            i = i + 1;
        }
        let scores = self.graph.propagate(
            seeds,
            propagation_steps,
            propagation_decay,
            ACTIVATION_THRESHOLD,
        );
        let strongest = select_strongest(&scores, 0, MAX_ACTIVATED);
        let mut activated_memory_ids: Vec<i64> = Vec::new();
        let mut k: usize = 0;
        while k < strongest.len()
            invariant
                k <= strongest@.len(),
                activated_memory_ids@.len() == k,
                forall|j: int| 0 <= j < k ==> activated_memory_ids@[j] == strongest@[j].0,
            decreases strongest@.len() - k,
        {
            activated_memory_ids.push(strongest[k].0);
            k = k + 1;
        }
        proof {
            assert(activated_memory_ids@ =~= node_ids(strongest@));
        }
        let saturation = self.guard.saturation(&activated_memory_ids);
        self.guard.replace(activated_memory_ids.clone());
        let triggered = saturation < self.saturation_threshold;
        Ok(
            VisionProcessResult {
                triggered,
                top_anchor_id,
                top_similarity: top.similarity,
                top_description,
                activated_memory_ids,
                saturation,
            },
        )
    }

    /// Brings the output that the model gave for `pixel_count` pixels to unit
    /// length, without smoothing and without touching the state.
    pub fn encode_pixels(&self, pixel_count: usize, model_output: Vec<i32>) -> (encoded: Result<
        Vec<i32>,
        CoreError,
    >)
        requires
            self.wf(),
        ensures
            encoded is Ok <==> (self.loaded() && pixel_count == PIXEL_COUNT && model_output@.len()
                == EMBEDDING_DIM),
            !self.loaded() ==> encoded is Err && encoded->Err_0 == CoreError::ModelNotLoaded,
            self.loaded() && pixel_count != PIXEL_COUNT ==> encoded is Err && encoded->Err_0
                == CoreError::BadInputSize,
            self.loaded() && pixel_count == PIXEL_COUNT && model_output@.len() != EMBEDDING_DIM
                ==> encoded is Err && encoded->Err_0 == CoreError::DimensionMismatch,
            encoded is Ok ==> encoded->Ok_0@ == normalized(model_output@),
    {
        match &self.encoder {
            None => Err(CoreError::ModelNotLoaded),
            Some(encoder) => encoder.forward_from_pixels(pixel_count, model_output),
        }
    }

    /// Looks up the `top_k` anchors most similar to the embedding of the
    /// model's output, without smoothing, diffusion or any change of state.
    /// Each hit is the anchor's identifier, its similarity and its
    /// description.
    pub fn search_intent(&self, pixel_count: usize, model_output: Vec<i32>, top_k: usize) -> (hits:
        Result<Vec<(i64, i64, String)>, CoreError>)
        requires
            self.wf(),
        ensures
            hits is Err <==> refusal(self.loaded(), self.dim(), pixel_count, model_output@.len())
                is Some,
            hits is Err ==> Some(hits->Err_0) == refusal(
                self.loaded(),
                self.dim(),
                pixel_count,
                model_output@.len(),
            ),
            hits is Ok ==> {
                let found = best_matches(self.anchors(), normalized(model_output@), top_k as nat);
                &&& hits->Ok_0@.len() == found.len()
                &&& forall|i: int|
                    0 <= i < found.len() ==> {
                        let hit = #[trigger] hits->Ok_0@[i];
                        let anchor = self.anchors()[found[i].1];
                        &&& hit.0 == anchor.id
                        &&& hit.1 == found[i].0
                        &&& hit.2@ == anchor.description
                    }
            },
    {
        let vector = match &self.encoder {
            None => {
                return Err(CoreError::ModelNotLoaded);
            },
            Some(encoder) => match encoder.forward_from_pixels(pixel_count, model_output) {
                Err(e) => {
                    return Err(e);
                },
                Ok(v) => v,
            },
        };
        let matches = match self.intent_engine.search(&vector, top_k) {
            Ok(found) => found,
            Err(e) => {
                return Err(e);
            },
        };
        let ghost pairs = match_pairs(matches@);
        let mut hits: Vec<(i64, i64, String)> = Vec::new();
        let mut i: usize = 0;
        while i < matches.len()
            invariant
                i <= matches@.len(),
                hits@.len() == i,
                pairs == match_pairs(matches@),
                forall|j: int|
                    0 <= j < matches@.len() ==> (#[trigger] matches@[j]).position
                        < self.intent_engine.anchors().len(),
                forall|j: int|
                    0 <= j < i ==> {
                        let hit = #[trigger] hits@[j];
                        let anchor = self.intent_engine.anchors()[pairs[j].1];
                        &&& hit.0 == anchor.id
                        &&& hit.1 == pairs[j].0
                        &&& hit.2@ == anchor.description
                    },
            decreases matches@.len() - i,
        {
            let m = matches[i];
            let anchor = self.intent_engine.anchor(m.position);
            proof {
                assert(pairs[i as int] == (m.similarity as int, m.position as int));
            }
            hits.push((anchor.id, m.similarity, anchor.description.clone()));
            i = i + 1;
        }
        Ok(hits)
    }

    /// Sets the smoothing weight and the two thresholds, each limited to the
    /// range from 0.0 to 1.0. A value that is not given stays as it is.
    pub fn configure(
        &mut self,
        ema_alpha: Option<i64>,
        similarity_threshold: Option<i64>,
        saturation_threshold: Option<i64>,
    )
        requires
            old(self).wf(),
        ensures
            final(self).wf(),
            final(self).ema_alpha() == (match ema_alpha {
                Some(v) => clamp_unit(v as int) as u32,
                None => old(self).ema_alpha(),
            }),
            final(self).similarity_threshold() == (match similarity_threshold {
                Some(v) => clamp_unit(v as int) as u32,
                None => old(self).similarity_threshold(),
            }),
            final(self).saturation_threshold() == (match saturation_threshold {
                Some(v) => clamp_unit(v as int) as u32,
                None => old(self).saturation_threshold(),
            }),
            final(self).loaded() == old(self).loaded(),
            final(self).dim() == old(self).dim(),
            final(self).anchors() == old(self).anchors(),
            final(self).lists() == old(self).lists(),
            final(self).fan_out_limit() == old(self).fan_out_limit(),
            final(self).active_limit() == old(self).active_limit(),
            final(self).last_vector() == old(self).last_vector(),
            final(self).recent() == old(self).recent(),
    {
        match ema_alpha {
            Some(v) => {
                self.smoother.set_alpha(v);
            },
            None => {},
        }
        match similarity_threshold {
            Some(v) => {
                self.similarity_threshold = clamp_to_unit(v);
            },
            None => {},
        }
        match saturation_threshold {
            Some(v) => {
                self.saturation_threshold = clamp_to_unit(v);
            },
            None => {},
        }
    }

    /// Forgets the latest embedding, so that the next one is not smoothed.
    pub fn reset_ema(&mut self)
        requires
            old(self).wf(),
        ensures
            final(self).wf(),
            old(self).same_setup(final(self)),
            final(self).last_vector() is None,
            final(self).recent() == old(self).recent(),
    {
        self.smoother.reset();
    }

    /// The number of anchors.
    pub fn anchor_count(&self) -> (n: usize)
        ensures
            n == self.anchors().len(),
    {
        self.intent_engine.size()
    }

    /// The persisted form of the anchors.
    pub fn save_anchors(&self) -> (bytes: Vec<u8>)
        requires
            self.wf(),
        ensures
            bytes@ == encoded(self.anchors(), self.dim()),
            storable(self.anchors()),
    {
        self.intent_engine.to_bytes()
    }

    /// Replaces the anchors by those that `bytes` hold. Bytes that are not
    /// the persisted form of an index of this manager's dimension are
    /// refused, and the manager stays as it is.
    pub fn load_anchors(&mut self, bytes: &Vec<u8>) -> (loaded: Result<(), CoreError>)
        requires
            old(self).wf(),
        ensures
            final(self).wf(),
            loaded is Ok <==> decoded(bytes@, old(self).dim()) is Some,
            loaded is Err ==> loaded->Err_0 == CoreError::IndexIOError && old(self).same_state(
                final(self),
            ),
            loaded is Ok ==> final(self).anchors() == decoded(bytes@, old(self).dim())->0,
            final(self).loaded() == old(self).loaded(),
            final(self).dim() == old(self).dim(),
            final(self).lists() == old(self).lists(),
            final(self).fan_out_limit() == old(self).fan_out_limit(),
            final(self).active_limit() == old(self).active_limit(),
            final(self).ema_alpha() == old(self).ema_alpha(),
            final(self).similarity_threshold() == old(self).similarity_threshold(),
            final(self).saturation_threshold() == old(self).saturation_threshold(),
            final(self).last_vector() == old(self).last_vector(),
            final(self).recent() == old(self).recent(),
    {
        match IntentEngine::from_bytes(bytes, self.intent_engine.dimension()) {
            Err(e) => Err(e),
            Ok(engine) => {
                self.intent_engine = engine;
                Ok(())
            },
        }
    }

    /// The saturation of `current_ids` against the recent memories.
    pub fn calculate_saturation(&self, current_ids: &Vec<i64>) -> (share: u32)
        ensures
            share == saturation_of(current_ids@, self.recent()),
            share <= ONE,
    {
        self.guard.saturation(current_ids)
    }

    /// The memories that the last diffusing cycle activated.
    pub fn recent_activated_ids(&self) -> (ids: &Vec<i64>)
        ensures
            ids@ == self.recent(),
    {
        self.guard.recent_ids()
    }

    /// Replaces the recent memories, as when a session is restored.
    pub fn set_recent_activated_ids(&mut self, ids: Vec<i64>)
        requires
            old(self).wf(),
        ensures
            final(self).wf(),
            old(self).same_setup(final(self)),
            final(self).last_vector() == old(self).last_vector(),
            final(self).recent() == ids@,
    {
        self.guard.replace(ids);
    }
}

} // verus!
