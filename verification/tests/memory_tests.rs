use pero_core::aura_vision::{ModelShapes, EMBEDDING_DIM, PIXEL_COUNT};
use pero_core::errors::CoreError;
use pero_core::fixed::{dequantize, floor_div, quantize};
use pero_core::graph::ActivationGraph;
use pero_core::intent_engine::{IntentAnchor, IntentEngine};
use pero_core::rank::rank_entries;
use pero_core::saturation::SaturationGuard;
use pero_core::scores::{cap_scores, select_strongest};
use pero_core::smoother::TemporalSmoother;
use pero_core::vision_intent_memory::{
    VisionIntentMemoryManager, DEFAULT_PROPAGATION_DECAY, DEFAULT_PROPAGATION_STEPS,
};
use std::collections::HashMap;

const ONE: f64 = 1073741824.0;

fn fx(x: f64) -> i64 {
    (x * ONE).round() as i64
}

fn to_f(x: i64) -> f64 {
    x as f64 / ONE
}

fn shapes() -> ModelShapes {
    ModelShapes { input: vec![1, 1, 64, 64], output: vec![1, 384] }
}

fn unit(dim: usize, axis: usize) -> Vec<i32> {
    let mut v = vec![0i32; dim];
    v[axis] = 1 << 30;
    v
}

fn anchor(id: i64, vector: Vec<i32>, description: &str, importance: f64) -> IntentAnchor {
    IntentAnchor {
        id,
        vector,
        description: description.to_string(),
        importance: fx(importance) as u32,
        tags: String::new(),
    }
}

#[test]
fn test_saturation_calculation() {
    let mut manager = VisionIntentMemoryManager::new(None, 384).unwrap();

    manager.set_recent_activated_ids(vec![1, 2, 3, 4, 5]);

    let saturation = manager.calculate_saturation(&vec![1, 2, 3, 4, 5]);
    assert!((to_f(saturation as i64) - 1.0).abs() < 1e-6);

    let saturation = manager.calculate_saturation(&vec![1, 2, 6, 7]);
    assert!((to_f(saturation as i64) - 0.5).abs() < 1e-6);

    let saturation = manager.calculate_saturation(&vec![10, 11, 12]);
    assert!(to_f(saturation as i64) < 1e-6);

    let saturation = manager.calculate_saturation(&vec![]);
    assert!(to_f(saturation as i64) < 1e-6);
}

#[test]
fn test_activation_graph() {
    let mut graph = ActivationGraph::new();

    graph.add_edge(1, 2, fx(0.8));
    graph.add_edge(2, 3, fx(0.6));

    let initial: HashMap<i64, u32> = [(1, fx(1.0) as u32)].into_iter().collect();
    let result = graph.propagate(initial, 2, fx(0.5) as u32, fx(0.01) as u32);

    assert!(result.contains_key(&1));
    assert!(result.contains_key(&2));
    assert!(result.contains_key(&3));

    assert!(result[&1] > result[&2]);
    assert!(result[&2] > result[&3]);
    assert!(result[&3] > 0);
}

#[test]
fn propagate_exact_energies() {
    let mut graph = ActivationGraph::new();
    graph.add_edge(1, 2, fx(0.8));
    graph.add_edge(2, 3, fx(0.6));
    let initial: HashMap<i64, u32> = [(1, fx(1.0) as u32)].into_iter().collect();
    // One round: node 2 receives 1.0 * 0.8 * 0.5.
    let one = graph.propagate(initial.clone(), 1, fx(0.5) as u32, fx(0.01) as u32);
    assert_eq!(one.len(), 2);
    assert_eq!(one[&1], 1 << 30);
    let w08 = dequantize(quantize(fx(0.8))) as u128;
    let e12 = ((1u128 << 30) * w08 * (1u128 << 29)) >> 60;
    assert_eq!(one[&2] as u128, e12);
    assert!((to_f(one[&2] as i64) - 0.4).abs() < 1e-4);
    // Two rounds: 1 -> 1.16, 2 -> 0.8, 3 -> 0.12.
    let two = graph.propagate(initial.clone(), 2, fx(0.5) as u32, fx(0.01) as u32);
    assert!((to_f(two[&1] as i64) - 1.16).abs() < 1e-4);
    assert!((to_f(two[&2] as i64) - 0.8).abs() < 1e-4);
    assert!((to_f(two[&3] as i64) - 0.12).abs() < 1e-4);
    // No rounds: the seeds come back.
    let none = graph.propagate(initial, 0, fx(0.5) as u32, fx(0.01) as u32);
    assert_eq!(none.len(), 1);
    assert_eq!(none[&1], 1 << 30);
}

#[test]
fn propagate_caps_energy_and_seeds() {
    let mut graph = ActivationGraph::new();
    graph.add_edge(1, 2, fx(1.0));
    let initial: HashMap<i64, u32> = [(1, u32::MAX), (2, fx(1.9) as u32), (7, u32::MAX)].into_iter().collect();
    for steps in 0..4 {
        let result = graph.propagate(initial.clone(), steps, u32::MAX, 1);
        assert_eq!(result.len(), 3);
        for (_, energy) in result.iter() {
            assert!(*energy <= 0x8000_0000);
        }
        assert_eq!(result[&7], 0x8000_0000);
        if steps > 0 {
            assert_eq!(result[&2], 0x8000_0000);
        }
    }
}

#[test]
fn propagate_drops_weak_energy_and_stops_when_idle() {
    let mut graph = ActivationGraph::new();
    graph.add_edge(1, 2, fx(0.01));
    let seeds: HashMap<i64, u32> = [(1, fx(0.5) as u32)].into_iter().collect();
    // 0.5 * 0.01 * 0.5 = 0.0025 is below half of the threshold 0.01.
    let result = graph.propagate(seeds.clone(), 3, fx(0.5) as u32, fx(0.01) as u32);
    assert_eq!(result.len(), 1);
    assert_eq!(result[&1], fx(0.5) as u32);
    // A seed below the threshold does not send at all.
    let weak: HashMap<i64, u32> = [(1, fx(0.005) as u32)].into_iter().collect();
    let mut strong = ActivationGraph::new();
    strong.add_edge(1, 2, fx(1.0));
    let result = strong.propagate(weak, 5, fx(1.0) as u32, fx(0.01) as u32);
    assert_eq!(result.len(), 1);
    // With a threshold of zero even an energy of zero is delivered.
    let zero: HashMap<i64, u32> = [(1, 0u32)].into_iter().collect();
    let result = strong.propagate(zero, 1, fx(0.5) as u32, 0);
    assert_eq!(result.len(), 2);
    assert_eq!(result[&2], 0);
}

#[test]
fn propagate_limits_the_senders_of_a_round() {
    // Only the most energetic node may send.
    let mut graph = ActivationGraph::with_limits(20, 1);
    graph.add_edge(1, 10, fx(1.0));
    graph.add_edge(2, 20, fx(1.0));
    let seeds: HashMap<i64, u32> = [(1, fx(0.5) as u32), (2, fx(0.9) as u32)].into_iter().collect();
    let result = graph.propagate(seeds.clone(), 1, fx(0.5) as u32, fx(0.01) as u32);
    assert!(result.contains_key(&20));
    assert!(!result.contains_key(&10));
    // Equal energies: the smaller identifier sends.
    let tie: HashMap<i64, u32> = [(1, fx(0.5) as u32), (2, fx(0.5) as u32)].into_iter().collect();
    let result = graph.propagate(tie, 1, fx(0.5) as u32, fx(0.01) as u32);
    assert!(result.contains_key(&10));
    assert!(!result.contains_key(&20));
    // No sender at all.
    let idle = ActivationGraph::with_limits(20, 0);
    let result = idle.propagate(seeds, 2, fx(0.5) as u32, fx(0.01) as u32);
    assert_eq!(result.len(), 2);
}

#[test]
fn quantize_and_dequantize_exact_values() {
    assert_eq!(quantize(fx(0.0)), 0);
    assert_eq!(quantize(fx(1.0)), 65535);
    assert_eq!(quantize(fx(0.5)), 32768);
    assert_eq!(quantize(fx(0.8)), 52428);
    assert_eq!(quantize(-5), 0);
    assert_eq!(quantize(i64::MIN), 0);
    assert_eq!(quantize(i64::MAX), 65535);
    assert_eq!(quantize(8193), 1);
    assert_eq!(quantize(8192), 0);
    assert_eq!(dequantize(0), 0);
    assert_eq!(dequantize(65535), 1 << 30);
    assert_eq!(dequantize(1), 16384);
    assert_eq!(dequantize(32768), 536879104);
}

#[test]
fn quantize_round_trip_stays_within_one_level() {
    let mut w: i64 = 0;
    while w <= 1 << 30 {
        let back = dequantize(quantize(w)) as i64;
        assert!((back - w).abs() * 65535 <= 1 << 30);
        w += 104_729;
    }
    let back = dequantize(quantize(1 << 30)) as i64;
    assert_eq!(back, 1 << 30);
}

#[test]
fn floor_div_rounds_down() {
    assert_eq!(floor_div(7, 2), 3);
    assert_eq!(floor_div(-7, 2), -4);
    assert_eq!(floor_div(-8, 2), -4);
    assert_eq!(floor_div(0, 5), 0);
    assert_eq!(floor_div(-1, 1 << 30), -1);
}

#[test]
fn add_edge_stores_both_directions_and_keeps_the_maximum() {
    let mut graph = ActivationGraph::new();
    assert_eq!(graph.max_fan_out(), 20);
    graph.add_edge(1, 2, fx(0.5));
    let n1 = graph.neighbors(1);
    let n2 = graph.neighbors(2);
    assert_eq!(n1.len(), 1);
    assert_eq!((n1[0].target, n1[0].weight), (2, 32768));
    assert_eq!((n2[0].target, n2[0].weight), (1, 32768));
    graph.add_edge(1, 2, fx(0.25));
    assert_eq!(graph.neighbors(1)[0].weight, 32768);
    assert_eq!(graph.neighbors(2)[0].weight, 32768);
    graph.add_edge(2, 1, fx(0.75));
    assert_eq!(graph.neighbors(1)[0].weight, 49151);
    assert_eq!(graph.neighbors(2)[0].weight, 49151);
    assert_eq!(graph.neighbors(1).len(), 1);
    assert!(graph.neighbors(3).is_empty());
    graph.clear();
    assert!(graph.neighbors(1).is_empty());
    assert!(graph.neighbors(2).is_empty());
}

#[test]
fn self_loop_is_stored_once() {
    let mut graph = ActivationGraph::new();
    graph.add_edge(4, 4, fx(0.3));
    let n = graph.neighbors(4);
    assert_eq!(n.len(), 1);
    assert_eq!(n[0].target, 4);
}

#[test]
fn fan_out_is_pruned_to_the_strongest_edges() {
    let mut graph = ActivationGraph::with_limits(3, 100);
    graph.add_edge(0, 1, fx(0.2));
    graph.add_edge(0, 2, fx(0.9));
    graph.add_edge(0, 3, fx(0.5));
    // Not yet over the limit: insertion order.
    let targets: Vec<i64> = graph.neighbors(0).iter().map(|e| e.target).collect();
    assert_eq!(targets, vec![1, 2, 3]);
    graph.add_edge(0, 4, fx(0.7));
    let kept: Vec<(i64, u16)> = graph.neighbors(0).iter().map(|e| (e.target, e.weight)).collect();
    assert_eq!(kept, vec![(2, quantize(fx(0.9))), (4, quantize(fx(0.7))), (3, quantize(fx(0.5)))]);
    // The edge back from the dropped neighbour is still there.
    assert_eq!(graph.neighbors(1).len(), 1);
    // A weaker newcomer is dropped at once.
    graph.add_edge(0, 5, fx(0.1));
    let targets: Vec<i64> = graph.neighbors(0).iter().map(|e| e.target).collect();
    assert_eq!(targets, vec![2, 4, 3]);
    // Ties go to the smaller target.
    graph.add_edge(0, 1, fx(0.5));
    let targets: Vec<i64> = graph.neighbors(0).iter().map(|e| e.target).collect();
    assert_eq!(targets, vec![2, 4, 1]);
}

#[test]
fn fan_out_never_exceeds_the_default_limit() {
    let mut graph = ActivationGraph::new();
    let edges: Vec<(i64, i64, i64)> = (1..=50).map(|i| (0, i, fx(i as f64 / 100.0))).collect();
    graph.add_edges(&edges);
    let kept = graph.neighbors(0);
    assert_eq!(kept.len(), 20);
    let targets: Vec<i64> = kept.iter().map(|e| e.target).collect();
    let expected: Vec<i64> = (31..=50).rev().collect();
    assert_eq!(targets, expected);
    for i in 1..=50 {
        assert!(graph.neighbors(i).len() <= 20);
    }
}

#[test]
fn zero_fan_out_keeps_nothing() {
    let mut graph = ActivationGraph::with_limits(0, 10);
    graph.add_edge(1, 2, fx(0.5));
    assert!(graph.neighbors(1).is_empty());
    assert!(graph.neighbors(2).is_empty());
}

#[test]
fn rank_entries_orders_by_score_then_key() {
    let entries: Vec<(i128, i128)> = vec![(5, 10), (3, 30), (9, 10), (1, -4), (2, 30)];
    let ranked = rank_entries(&entries);
    assert_eq!(ranked, vec![(2, 30), (3, 30), (5, 10), (9, 10), (1, -4)]);
    assert!(rank_entries(&Vec::new()).is_empty());
}

#[test]
fn select_strongest_filters_ranks_and_cuts() {
    let scores: HashMap<i64, u32> = [(1, 50), (2, 70), (3, 70), (4, 5), (-9, 60)].into_iter().collect();
    assert_eq!(select_strongest(&scores, 10, 3), vec![(2, 70), (3, 70), (-9, 60)]);
    assert_eq!(select_strongest(&scores, 0, 20), vec![(2, 70), (3, 70), (-9, 60), (1, 50), (4, 5)]);
    assert_eq!(select_strongest(&scores, 71, 20), Vec::<(i64, u32)>::new());
    assert_eq!(select_strongest(&scores, 0, 0), Vec::<(i64, u32)>::new());
    let capped = cap_scores(&[(1, u32::MAX), (2, 7)].into_iter().collect());
    assert_eq!(capped[&1], 0x8000_0000);
    assert_eq!(capped[&2], 7);
}

#[test]
fn saturation_guard_compares_with_one_step_back() {
    let mut guard = SaturationGuard::new();
    assert_eq!(guard.saturation(&vec![]), 0);
    assert_eq!(guard.saturation(&vec![1, 2]), 0);
    guard.replace(vec![1, 2, 3]);
    assert_eq!(guard.saturation(&vec![1, 2, 3]), 1 << 30);
    assert_eq!(guard.saturation(&vec![3, 2, 1]), 1 << 30);
    assert_eq!(guard.saturation(&vec![4, 5]), 0);
    assert_eq!(guard.saturation(&vec![]), 0);
    // One of three, rounded down.
    assert_eq!(guard.saturation(&vec![1, 8, 9]), 357913941);
    guard.replace(vec![8]);
    assert_eq!(guard.saturation(&vec![1, 2, 3]), 0);
    assert_eq!(guard.recent_ids(), &vec![8i64]);
}

#[test]
fn smoother_passes_the_first_vector_and_blends_the_next() {
    let mut smoother = TemporalSmoother::new();
    assert_eq!(smoother.current_alpha(), 322_122_547);
    assert!(!smoother.has_previous());
    let first = smoother.smooth(vec![7, -7, 0]);
    assert_eq!(first, vec![7, -7, 0]);
    assert!(smoother.has_previous());
    smoother.reset();
    assert!(!smoother.has_previous());
    smoother.set_alpha(fx(0.5));
    let a = smoother.smooth(unit(2, 0));
    assert_eq!(a, unit(2, 0));
    // Halfway between the two axes, then back to unit length.
    let b = smoother.smooth(unit(2, 1));
    assert_eq!(b, vec![759250124, 759250124]);
    smoother.set_alpha(fx(7.0));
    assert_eq!(smoother.current_alpha(), 1 << 30);
    smoother.set_alpha(-3);
    assert_eq!(smoother.current_alpha(), 0);
    // Weight 0: the previous embedding is repeated.
    let c = smoother.smooth(unit(2, 0));
    let norm = ((b[0] as f64).powi(2) * 2.0).sqrt() / ONE;
    assert!((norm - 1.0).abs() < 1e-6);
    assert!((c[0] - b[0]).abs() <= 2 && (c[1] - b[1]).abs() <= 2);
}

#[test]
fn engine_refuses_bad_dimensions() {
    assert!(matches!(IntentEngine::new(0), Err(CoreError::BadInputSize)));
    assert!(matches!(IntentEngine::new(65537), Err(CoreError::BadInputSize)));
    assert!(IntentEngine::new(65536).is_ok());
    let mut engine = IntentEngine::new(4).unwrap();
    assert_eq!(engine.dimension(), 4);
    assert_eq!(engine.add_anchor(anchor(1, vec![0; 3], "short", 1.0)), Err(CoreError::DimensionMismatch));
    assert_eq!(engine.size(), 0);
    assert!(matches!(engine.search(&vec![0; 5], 3), Err(CoreError::DimensionMismatch)));
    assert!(engine.search(&vec![0; 4], 3).unwrap().is_empty());
}

#[test]
fn identical_anchors_come_back_in_insertion_order() {
    let mut engine = IntentEngine::new(384).unwrap();
    engine.add_anchor(anchor(42, unit(384, 5), "first", 1.0)).unwrap();
    engine.add_anchor(anchor(7, unit(384, 5), "second", 1.0)).unwrap();
    let found = engine.search(&unit(384, 5), 2).unwrap();
    assert_eq!(found.len(), 2);
    assert!((to_f(found[0].similarity) - 1.0).abs() < 1e-6);
    assert!((to_f(found[1].similarity) - 1.0).abs() < 1e-6);
    assert_eq!(engine.anchor(found[0].position).id, 42);
    assert_eq!(engine.anchor(found[1].position).id, 7);
}

#[test]
fn search_ranks_by_similarity_and_cuts_to_k() {
    let mut engine = IntentEngine::new(2).unwrap();
    engine.add_anchor(anchor(1, vec![fx(0.6) as i32, fx(0.8) as i32], "a", 1.0)).unwrap();
    engine.add_anchor(anchor(2, vec![fx(1.0) as i32, 0], "b", 1.0)).unwrap();
    engine.add_anchor(anchor(3, vec![fx(-1.0) as i32, 0], "c", 1.0)).unwrap();
    engine.add_anchor(anchor(4, vec![0, fx(1.0) as i32], "d", 1.0)).unwrap();
    let found = engine.search(&vec![fx(1.0) as i32, 0], 3).unwrap();
    let ids: Vec<i64> = found.iter().map(|m| engine.anchor(m.position).id).collect();
    assert_eq!(ids, vec![2, 1, 4]);
    assert_eq!(found[0].similarity, 1 << 30);
    assert_eq!(found[1].similarity, fx(0.6));
    assert_eq!(found[2].similarity, 0);
    let all = engine.search(&vec![fx(1.0) as i32, 0], 10).unwrap();
    assert_eq!(all.len(), 4);
    assert_eq!(all[3].similarity, -(1 << 30));
    assert!(engine.search(&vec![1, 1], 0).unwrap().is_empty());
}

#[test]
fn reinserting_an_identifier_replaces_the_anchor_in_place() {
    let mut engine = IntentEngine::new(2).unwrap();
    engine.add_anchor(anchor(1, unit(2, 0), "old", 0.5)).unwrap();
    engine.add_anchor(anchor(2, unit(2, 1), "other", 0.5)).unwrap();
    engine.add_anchor(anchor(1, unit(2, 1), "new", 0.9)).unwrap();
    assert_eq!(engine.size(), 2);
    assert_eq!(engine.anchor(0).description, "new");
    assert_eq!(engine.find(1), Some(0));
    assert_eq!(engine.find(2), Some(1));
    assert_eq!(engine.find(3), None);
    let found = engine.search(&unit(2, 1), 2).unwrap();
    assert_eq!(found[0].position, 0);
    assert_eq!(found[1].position, 1);
}

#[test]
fn batch_add_is_all_or_nothing() {
    let mut engine = IntentEngine::new(2).unwrap();
    let bad = vec![anchor(1, unit(2, 0), "a", 1.0), anchor(2, vec![1, 2, 3], "b", 1.0)];
    assert_eq!(engine.batch_add(&bad), Err(CoreError::DimensionMismatch));
    assert_eq!(engine.size(), 0);
    let good = vec![anchor(1, unit(2, 0), "a", 1.0), anchor(2, unit(2, 1), "b", 1.0), anchor(1, unit(2, 1), "c", 1.0)];
    assert_eq!(engine.batch_add(&good), Ok(()));
    assert_eq!(engine.size(), 2);
    assert_eq!(engine.anchor(0).description, "c");
    assert_eq!(engine.batch_add(&Vec::new()), Ok(()));
}

fn manager_with_graph() -> VisionIntentMemoryManager {
    let mut manager = VisionIntentMemoryManager::new(Some(shapes()), EMBEDDING_DIM).unwrap();
    manager.add_intent_anchor(1, unit(EMBEDDING_DIM, 0), "desk".to_string(), fx(1.0) as u32, "work").unwrap();
    manager.add_memory_connections(vec![(1, 2, fx(0.8)), (2, 3, fx(0.6))]);
    manager
}

fn output_along(axis: usize) -> Vec<i32> {
    let mut v = vec![0i32; EMBEDDING_DIM];
    v[axis] = 1000;
    v
}

#[test]
fn a_repeated_view_triggers_once() {
    let mut manager = manager_with_graph();
    let first = manager
        .process_visual_input(PIXEL_COUNT, output_along(0), DEFAULT_PROPAGATION_STEPS, DEFAULT_PROPAGATION_DECAY)
        .unwrap();
    assert!(first.triggered);
    assert_eq!(first.top_anchor_id, 1);
    assert_eq!(first.top_description, "desk");
    assert!((to_f(first.top_similarity) - 1.0).abs() < 1e-6);
    assert_eq!(first.activated_memory_ids, vec![1, 2, 3]);
    assert_eq!(first.saturation, 0);
    let second = manager
        .process_visual_input(PIXEL_COUNT, output_along(0), DEFAULT_PROPAGATION_STEPS, DEFAULT_PROPAGATION_DECAY)
        .unwrap();
    assert!((to_f(second.saturation as i64) - 1.0).abs() < 1e-6);
    assert!(!second.triggered);
    assert_eq!(second.activated_memory_ids, vec![1, 2, 3]);
    assert_eq!(manager.recent_activated_ids(), &vec![1i64, 2, 3]);
}

#[test]
fn refused_cycles_change_nothing() {
    let mut manager = VisionIntentMemoryManager::new(None, EMBEDDING_DIM).unwrap();
    assert!(!manager.is_model_loaded());
    assert!(matches!(
        manager.process_visual_input(PIXEL_COUNT, output_along(0), 2, DEFAULT_PROPAGATION_DECAY),
        Err(CoreError::ModelNotLoaded)
    ));
    assert!(matches!(manager.encode_pixels(PIXEL_COUNT, output_along(0)), Err(CoreError::ModelNotLoaded)));
    assert!(matches!(manager.search_intent(PIXEL_COUNT, output_along(0), 3), Err(CoreError::ModelNotLoaded)));
    assert_eq!(manager.load_model(&vec![1, 1, 32, 32], &vec![1, 384]), Err(CoreError::InvalidModelFile));
    assert!(!manager.is_model_loaded());
    assert_eq!(manager.load_model(&vec![1, 1, 64, 64], &vec![1, 384]), Ok(()));
    assert!(manager.is_model_loaded());
    manager.set_recent_activated_ids(vec![5]);
    assert!(matches!(
        manager.process_visual_input(100, output_along(0), 2, DEFAULT_PROPAGATION_DECAY),
        Err(CoreError::BadInputSize)
    ));
    assert!(matches!(
        manager.process_visual_input(PIXEL_COUNT, vec![1; 10], 2, DEFAULT_PROPAGATION_DECAY),
        Err(CoreError::DimensionMismatch)
    ));
    assert_eq!(manager.recent_activated_ids(), &vec![5i64]);
    // The first accepted embedding is still emitted unsmoothed.
    let encoded = manager.encode_pixels(PIXEL_COUNT, output_along(3)).unwrap();
    assert_eq!(encoded, unit(EMBEDDING_DIM, 3));
}

#[test]
fn index_of_another_dimension_refuses_the_embedding() {
    let mut manager = VisionIntentMemoryManager::new(Some(shapes()), 128).unwrap();
    assert!(matches!(
        manager.process_visual_input(PIXEL_COUNT, output_along(0), 2, DEFAULT_PROPAGATION_DECAY),
        Err(CoreError::DimensionMismatch)
    ));
    assert!(matches!(manager.search_intent(PIXEL_COUNT, output_along(0), 3), Err(CoreError::DimensionMismatch)));
    assert!(matches!(VisionIntentMemoryManager::new(None, 0), Err(CoreError::BadInputSize)));
    let bad = ModelShapes { input: vec![1], output: vec![1, 384] };
    assert!(matches!(VisionIntentMemoryManager::new(Some(bad), 384), Err(CoreError::InvalidModelFile)));
}

#[test]
fn empty_index_gives_the_no_match_result_and_still_smooths() {
    let mut manager = VisionIntentMemoryManager::new(Some(shapes()), EMBEDDING_DIM).unwrap();
    manager.set_recent_activated_ids(vec![9]);
    let result = manager.process_visual_input(PIXEL_COUNT, output_along(0), 2, DEFAULT_PROPAGATION_DECAY).unwrap();
    assert!(!result.triggered);
    assert_eq!(result.top_anchor_id, -1);
    assert_eq!(result.top_similarity, 0);
    assert_eq!(result.top_description, "");
    assert!(result.activated_memory_ids.is_empty());
    assert_eq!(result.saturation, 0);
    assert_eq!(manager.recent_activated_ids(), &vec![9i64]);
    assert_eq!(manager.anchor_count(), 0);
    // The second embedding is blended with the first: with an anchor on the
    // second axis the similarity is below 1.0.
    manager.add_intent_anchor(2, unit(EMBEDDING_DIM, 1), "door".to_string(), fx(1.0) as u32, "").unwrap();
    let result = manager.process_visual_input(PIXEL_COUNT, output_along(1), 2, DEFAULT_PROPAGATION_DECAY).unwrap();
    assert_eq!(result.top_anchor_id, 2);
    assert!(to_f(result.top_similarity) < 0.5);
    manager.reset_ema();
    let result = manager.process_visual_input(PIXEL_COUNT, output_along(1), 2, DEFAULT_PROPAGATION_DECAY).unwrap();
    assert_eq!(result.top_similarity, 1 << 30);
}

#[test]
fn a_match_below_the_threshold_does_not_diffuse() {
    let mut manager = manager_with_graph();
    manager.set_recent_activated_ids(vec![1, 2, 3]);
    let mut output = vec![0i32; EMBEDDING_DIM];
    output[0] = 600;
    output[1] = 800;
    let result = manager.process_visual_input(PIXEL_COUNT, output.clone(), 2, DEFAULT_PROPAGATION_DECAY).unwrap();
    assert!(!result.triggered);
    assert_eq!(result.top_anchor_id, 1);
    assert_eq!(result.top_description, "desk");
    assert!((to_f(result.top_similarity) - 0.6).abs() < 1e-6);
    assert!(result.activated_memory_ids.is_empty());
    assert_eq!(result.saturation, 0);
    assert_eq!(manager.recent_activated_ids(), &vec![1i64, 2, 3]);
    // With a lower threshold the same view diffuses, and is saturated.
    manager.configure(None, Some(fx(0.5)), None);
    manager.reset_ema();
    let result = manager.process_visual_input(PIXEL_COUNT, output, 2, DEFAULT_PROPAGATION_DECAY).unwrap();
    assert_eq!(result.activated_memory_ids, vec![1, 2, 3]);
    assert_eq!(result.saturation, 1 << 30);
    assert!(!result.triggered);
    // A saturation threshold above 1.0 is limited to 1.0, which full
    // saturation still reaches.
    manager.configure(None, None, Some(fx(3.0)));
    manager.reset_ema();
    let mut again = vec![0i32; EMBEDDING_DIM];
    again[0] = 1;
    let result = manager.process_visual_input(PIXEL_COUNT, again, 2, DEFAULT_PROPAGATION_DECAY).unwrap();
    assert!(!result.triggered);
}

#[test]
fn seeds_are_similarity_times_importance() {
    let mut manager = VisionIntentMemoryManager::new(Some(shapes()), EMBEDDING_DIM).unwrap();
    manager.add_intent_anchor(1, unit(EMBEDDING_DIM, 0), "a".to_string(), fx(0.25) as u32, "").unwrap();
    manager.add_intent_anchor(2, unit(EMBEDDING_DIM, 0), "b".to_string(), fx(0.75) as u32, "").unwrap();
    manager.add_intent_anchor(3, unit(EMBEDDING_DIM, 1), "c".to_string(), fx(1.0) as u32, "").unwrap();
    // No rounds: the activated memories are the seeds, ranked by energy.
    let result = manager.process_visual_input(PIXEL_COUNT, output_along(0), 0, DEFAULT_PROPAGATION_DECAY).unwrap();
    assert_eq!(result.top_anchor_id, 1);
    assert_eq!(result.activated_memory_ids, vec![2, 1, 3]);
    assert!(result.triggered);
}

#[test]
fn search_intent_lists_identifier_similarity_and_description() {
    let manager = manager_with_graph();
    let hits = manager.search_intent(PIXEL_COUNT, output_along(0), 5).unwrap();
    assert_eq!(hits, vec![(1, 1 << 30, "desk".to_string())]);
    let hits = manager.search_intent(PIXEL_COUNT, output_along(1), 5).unwrap();
    assert_eq!(hits, vec![(1, 0, "desk".to_string())]);
    assert!(manager.search_intent(PIXEL_COUNT, output_along(0), 0).unwrap().is_empty());
}

#[test]
fn manager_refuses_anchors_of_another_dimension_and_clears_connections() {
    let mut manager = manager_with_graph();
    assert_eq!(
        manager.add_intent_anchor(5, vec![1, 2, 3], "bad".to_string(), 1, ""),
        Err(CoreError::DimensionMismatch)
    );
    assert_eq!(manager.anchor_count(), 1);
    manager.clear_memory_connections();
    let result = manager.process_visual_input(PIXEL_COUNT, output_along(0), 2, DEFAULT_PROPAGATION_DECAY).unwrap();
    assert_eq!(result.activated_memory_ids, vec![1]);
}
