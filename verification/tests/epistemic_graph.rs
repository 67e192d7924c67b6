use aimp_node::epistemic::{
    BeliefEngine, Claim, ClaimArenaId, ClaimKind, CorrelationCell, EpistemicEdge,
    ExactMatchReducer, InMemoryReputationTracker, IntentResolver, KnowledgeGraph, LogOdds,
    LogOddsBeliefEngine, RawEpistemicEdge, Relation, Reputation, ReputationEvent,
    ReputationTracker, ReputationWeightedResolver, Resolution, SemanticFingerprint,
    SemanticReducer,
};
use std::collections::HashMap;

fn make_fingerprint(data: &[u8], sensor: u8) -> SemanticFingerprint {
    let hash = blake3::hash(data);
    let mut primary = [0u8; 16];
    primary.copy_from_slice(&hash.as_bytes()[..16]);

    let mut feat_hasher = blake3::Hasher::new();
    feat_hasher.update(&[sensor]);
    let secondary = u64::from_le_bytes(feat_hasher.finalize().as_bytes()[..8].try_into().unwrap());

    SemanticFingerprint { primary, secondary }
}

fn make_claim(sensor: u8, data: &[u8], logodds: i32, tick: u64, source: [u8; 32]) -> Claim {
    make_claim_with_cell(sensor, data, logodds, tick, source, None)
}

fn make_claim_with_cell(
    sensor: u8,
    data: &[u8],
    logodds: i32,
    tick: u64,
    source: [u8; 32],
    cell: Option<CorrelationCell>,
) -> Claim {
    let fp = make_fingerprint(data, sensor);
    let mut hasher = blake3::Hasher::new();
    hasher.update(&fp.primary);
    hasher.update(&tick.to_le_bytes());
    hasher.update(&source);
    if let Some(c) = cell {
        hasher.update(&c.0.to_le_bytes());
    }
    let id = *hasher.finalize().as_bytes();

    Claim {
        id,
        fingerprint: fp,
        origin: [1u8; 32],
        kind: ClaimKind::Observation { sensor_type: sensor, data: data.to_vec() },
        confidence: LogOdds::new(logodds),
        evidence_source: source,
        tick,
        correlation_cell: cell,
        embedding: None,
        embedding_version: 0,
    }
}

fn edge(from: u32, to: u32, relation: Relation, bps: u16) -> EpistemicEdge {
    EpistemicEdge { from, to, relation, strength: Reputation::from_bps(bps) }
}

fn delegated_tracker(claims: &[Claim], bps: u16) -> InMemoryReputationTracker {
    let mut tracker = InMemoryReputationTracker::new();
    let anchor = [255u8; 32];
    tracker.set_reputation(&anchor, Reputation::full());
    for c in claims {
        tracker.delegate(&anchor, &c.origin, Reputation::from_bps(bps));
    }
    tracker
}

fn trust_of(m: &HashMap<u32, LogOdds>, k: u32) -> LogOdds {
    m.get(&k).copied().unwrap_or(LogOdds::neutral())
}

fn no_reputations() -> Option<&'static InMemoryReputationTracker> {
    None
}

#[test]
fn test_echo_chamber_same_source() {
    let reducer = ExactMatchReducer;
    let same_sensor = [99u8; 32];
    let claims: Vec<Claim> =
        (0..10).map(|i| make_claim(1, b"temp=20C", 2197, i, same_sensor)).collect();
    let summary = reducer.reduce(&claims).expect("should reduce");
    match &summary.kind {
        ClaimKind::Summary { unique_sources, aggregated_logodds, .. } => {
            assert_eq!(*unique_sources, 1);
            assert_eq!(aggregated_logodds.value(), 2197);
        }
        _ => panic!("expected Summary"),
    }
}

#[test]
fn test_independent_sources_aggregate() {
    let reducer = ExactMatchReducer;
    let claims: Vec<Claim> = (0..5)
        .map(|i| {
            let mut source = [0u8; 32];
            source[0] = i as u8;
            make_claim(1, b"temp=20C", 2197, i as u64, source)
        })
        .collect();
    let summary = reducer.reduce(&claims).expect("should reduce");
    match &summary.kind {
        ClaimKind::Summary { unique_sources, aggregated_logodds, .. } => {
            assert_eq!(*unique_sources, 5);
            assert_eq!(aggregated_logodds.value(), 10985);
            assert_eq!(aggregated_logodds.to_percent(), 100);
        }
        _ => panic!("expected Summary"),
    }
}

#[test]
fn test_reducer_commutativity() {
    let reducer = ExactMatchReducer;
    let a = make_claim(1, b"data", 1000, 0, [1u8; 32]);
    let b = make_claim(1, b"data", 2000, 1, [2u8; 32]);
    let ab = reducer.reduce(&[a.clone(), b.clone()]).unwrap();
    let ba = reducer.reduce(&[b, a]).unwrap();
    assert_eq!(ab.id, ba.id);
    assert_eq!(ab.confidence, ba.confidence);
}

#[test]
fn test_reducer_idempotency() {
    let reducer = ExactMatchReducer;
    let a = make_claim(1, b"data", 1000, 0, [1u8; 32]);
    let aa = reducer.reduce(&[a.clone(), a.clone()]).unwrap();
    match &aa.kind {
        ClaimKind::Summary { unique_sources, aggregated_logodds, .. } => {
            assert_eq!(*unique_sources, 1);
            assert_eq!(aggregated_logodds.value(), 1000);
        }
        _ => panic!("expected Summary"),
    }
}

#[test]
fn test_graph_dependents_traversal() {
    let mut graph = KnowledgeGraph::new();
    graph.add_edge(edge(0, 1, Relation::DerivedFrom, 9000));
    graph.add_edge(edge(1, 2, Relation::DerivedFrom, 9000));
    graph.add_edge(edge(0, 3, Relation::Supports, 9000));
    let deps = graph.dependents(0);
    assert!(deps.contains(&1));
    assert!(deps.contains(&2));
    assert!(deps.contains(&3));
}

#[test]
fn test_graph_support_ratio() {
    let mut graph = KnowledgeGraph::new();
    graph.add_edge(edge(0, 5, Relation::Supports, 9000));
    graph.add_edge(edge(1, 5, Relation::Supports, 9000));
    graph.add_edge(edge(2, 5, Relation::Contradicts, 8000));
    let (sup, con) = graph.support_ratio(5);
    assert_eq!(sup, 2);
    assert_eq!(con, 1);
}

#[test]
fn test_belief_engine_classifies() {
    let engine = LogOddsBeliefEngine::default();
    let mut tracker = InMemoryReputationTracker::new();
    let graph = KnowledgeGraph::new();
    let anchor = [255u8; 32];
    tracker.set_reputation(&anchor, Reputation::full());
    let claims = vec![
        make_claim(1, b"strong", 5000, 0, [1u8; 32]),
        make_claim(1, b"weak", -5000, 1, [2u8; 32]),
        make_claim(1, b"meh", 100, 2, [3u8; 32]),
    ];
    tracker.set_reputation(&claims[0].origin, Reputation::full());
    let state = engine.compute(&claims, &graph, &tracker);
    assert!(state.accepted.contains(&0));
    assert!(state.rejected.contains(&1));
    assert!(state.uncertain.contains(&2));
}

#[test]
fn test_belief_engine_reputation_affects_classification() {
    let engine = LogOddsBeliefEngine::default();
    let mut tracker = InMemoryReputationTracker::new();
    let graph = KnowledgeGraph::new();
    let byzantine_node = [42u8; 32];
    tracker.update(&byzantine_node, ReputationEvent::EquivocationDetected);
    let mut claim = make_claim(1, b"lie", 5000, 0, [1u8; 32]);
    claim.origin = byzantine_node;
    let state = engine.compute(&[claim], &graph, &tracker);
    assert!(!state.accepted.contains(&0));
}

#[test]
fn test_resolver_prefers_reputable_node() {
    let resolver = ReputationWeightedResolver;
    let mut tracker = InMemoryReputationTracker::new();
    let honest = [1u8; 32];
    let liar = [2u8; 32];
    tracker.update(&honest, ReputationEvent::ClaimConfirmed);
    tracker.update(&honest, ReputationEvent::ClaimConfirmed);
    tracker.update(&liar, ReputationEvent::EquivocationDetected);
    let mut intent_a = make_claim(1, b"heat", 1000, 0, [0u8; 32]);
    intent_a.origin = honest;
    let mut intent_b = make_claim(1, b"cool", 5000, 1, [0u8; 32]);
    intent_b.origin = liar;
    match resolver.resolve(&[intent_a, intent_b], &tracker) {
        Resolution::Winner(w) => assert_eq!(w.origin, honest),
        _ => panic!("expected Winner"),
    }
}

#[test]
fn test_cycle_detection_simple() {
    let mut graph = KnowledgeGraph::new();
    graph.add_edge(edge(0, 1, Relation::Supports, 9000));
    graph.add_edge(edge(1, 2, Relation::Supports, 9000));
    graph.add_edge(edge(2, 0, Relation::Supports, 9000));
    let cycles = graph.detect_cycles();
    assert!(!cycles.is_empty(), "should detect the A→B→C→A cycle");
    let cycle = &cycles[0];
    assert!(cycle.contains(&0));
    assert!(cycle.contains(&1));
    assert!(cycle.contains(&2));
}

#[test]
fn test_no_cycle_in_dag() {
    let mut graph = KnowledgeGraph::new();
    graph.add_edge(edge(0, 1, Relation::DerivedFrom, 9000));
    graph.add_edge(edge(1, 2, Relation::DerivedFrom, 9000));
    let cycles = graph.detect_cycles();
    assert!(cycles.is_empty(), "DAG should have no cycles");
}

#[test]
fn test_cyclic_edges_identified() {
    let mut graph = KnowledgeGraph::new();
    graph.add_edge(edge(0, 1, Relation::Supports, 9000));
    graph.add_edge(edge(1, 0, Relation::Supports, 9000));
    let cyclic = graph.cyclic_edge_indices();
    assert!(!cyclic.is_empty(), "should find cyclic back-edge in A↔B");
}

#[test]
fn test_cycle_zeroed_prevents_inflation() {
    let engine = LogOddsBeliefEngine::default();
    let tracker = InMemoryReputationTracker::new();
    let mut graph = KnowledgeGraph::new();
    graph.add_edge(edge(0, 1, Relation::Supports, 9000));
    graph.add_edge(edge(1, 0, Relation::Supports, 9000));
    let claims = vec![
        make_claim(1, b"A", 1500, 0, [1u8; 32]),
        make_claim(1, b"B", 1500, 1, [2u8; 32]),
    ];
    let state = engine.compute(&claims, &graph, &tracker);
    assert!(
        !state.accepted.contains(&0) || !state.accepted.contains(&1),
        "cyclic mutual support must not inflate both to accepted"
    );
}

#[test]
fn test_trust_propagation_transitive() {
    let mut graph = KnowledgeGraph::new();
    graph.add_edge(edge(0, 1, Relation::Supports, 9000));
    graph.add_edge(edge(1, 2, Relation::Supports, 9000));
    let claims = vec![
        make_claim(1, b"A", 5000, 0, [1u8; 32]),
        make_claim(1, b"B", 0, 1, [2u8; 32]),
        make_claim(1, b"C", 0, 2, [3u8; 32]),
    ];
    let tracker = delegated_tracker(&claims, 8000);
    let mut base = HashMap::new();
    base.insert(0u32, LogOdds::new(5000));
    base.insert(1u32, LogOdds::neutral());
    base.insert(2u32, LogOdds::neutral());
    let propagated = graph.propagate_trust_full(&base, 5, 5000, &claims, &tracker);
    let trust_c = trust_of(&propagated, 2);
    assert!(
        trust_c.value() > LogOdds::neutral().value(),
        "C should inherit transitive trust from A, got {}",
        trust_c.value()
    );
    let trust_b = trust_of(&propagated, 1);
    assert!(trust_b.value() > trust_c.value(), "B ({}) should have more trust than C ({})", trust_b.value(), trust_c.value());
}

#[test]
fn test_contradiction_reduces_trust_pass2() {
    let mut graph = KnowledgeGraph::new();
    graph.add_edge(edge(0, 1, Relation::Contradicts, 8000));
    let claims = vec![
        make_claim(1, b"A", 3000, 0, [1u8; 32]),
        make_claim(1, b"B", 2000, 1, [2u8; 32]),
    ];
    let tracker = delegated_tracker(&claims, 8000);
    let mut base = HashMap::new();
    base.insert(0u32, LogOdds::new(3000));
    base.insert(1u32, LogOdds::new(2000));
    let propagated = graph.propagate_trust_full(&base, 3, 5000, &claims, &tracker);
    let trust_b = trust_of(&propagated, 1);
    assert!(trust_b.value() < 2000, "B's trust should decrease when contradicted by trusted A, got {}", trust_b.value());
}

#[test]
fn test_cyclic_edges_zeroed_no_amplification() {
    let mut graph = KnowledgeGraph::new();
    graph.add_edge(edge(0, 1, Relation::Supports, 9000));
    graph.add_edge(edge(1, 0, Relation::Supports, 9000));
    let cyclic = graph.cyclic_edge_indices();
    assert!(!cyclic.is_empty(), "should detect cyclic back-edge");
    let claims = vec![
        make_claim(1, b"A", 1000, 0, [1u8; 32]),
        make_claim(1, b"B", 1000, 1, [2u8; 32]),
    ];
    let tracker = delegated_tracker(&claims, 8000);
    let mut base = HashMap::new();
    base.insert(0u32, LogOdds::new(1000));
    base.insert(1u32, LogOdds::new(1000));
    let propagated = graph.propagate_trust_full(&base, 10, 5000, &claims, &tracker);
    let trust_0 = trust_of(&propagated, 0);
    let trust_1 = trust_of(&propagated, 1);
    assert!(trust_0.value() < 5000, "cyclic amplification blocked: node 0 trust = {}", trust_0.value());
    assert!(trust_1.value() < 5000, "cyclic amplification blocked: node 1 trust = {}", trust_1.value());
}

#[test]
fn test_annihilation_cap_prevents_one_shot_kill() {
    let mut graph = KnowledgeGraph::new();
    for i in 0..5 {
        graph.add_edge(edge(i, 5, Relation::Supports, 9000));
    }
    graph.add_edge(edge(6, 5, Relation::Contradicts, 10000));
    let claims: Vec<Claim> = (0..7)
        .map(|i| {
            let mut src = [0u8; 32];
            src[0] = i as u8;
            make_claim(1, &[i as u8], 5000, i as u64, src)
        })
        .collect();
    let tracker = delegated_tracker(&claims, 8000);
    let mut base = HashMap::new();
    for i in 0..=6 {
        base.insert(i as ClaimArenaId, LogOdds::new(5000));
    }
    let propagated = graph.propagate_trust_full(&base, 5, 5000, &claims, &tracker);
    let trust_5 = trust_of(&propagated, 5);
    assert!(trust_5.value() > 0, "5 supporters vs 1 contradictor: claim should remain positive, got {}", trust_5.value());
}

#[test]
fn test_dynamic_decay_varies_by_edge() {
    let mut graph = KnowledgeGraph::new();
    graph.add_edge(edge(0, 1, Relation::Supports, 9500));
    graph.add_edge(edge(0, 2, Relation::Supports, 1000));
    let claims = vec![
        make_claim(1, b"A", 5000, 0, [1u8; 32]),
        make_claim(1, b"B", 0, 1, [2u8; 32]),
        make_claim(1, b"C", 0, 2, [3u8; 32]),
    ];
    let tracker = delegated_tracker(&claims, 8000);
    let mut base = HashMap::new();
    base.insert(0u32, LogOdds::new(5000));
    base.insert(1u32, LogOdds::neutral());
    base.insert(2u32, LogOdds::neutral());
    let propagated = graph.propagate_trust_full(&base, 3, 5000, &claims, &tracker);
    let trust_b = trust_of(&propagated, 1);
    let trust_c = trust_of(&propagated, 2);
    assert!(trust_b.value() > trust_c.value() * 5, "B ({}) should get ~9.5x more trust than C ({})", trust_b.value(), trust_c.value());
}

#[test]
fn test_summary_preserves_variance() {
    let reducer = ExactMatchReducer;
    let claims = vec![
        make_claim(1, b"temp=20C", 1000, 0, [1u8; 32]),
        make_claim(1, b"temp=20C", 5000, 1, [2u8; 32]),
        make_claim(1, b"temp=20C", 100, 2, [3u8; 32]),
    ];
    let summary = reducer.reduce(&claims).expect("should reduce");
    match &summary.kind {
        ClaimKind::Summary { variance_milli, range_min, range_max, .. } => {
            assert!(*variance_milli > 0, "variance should capture disagreement: got {}", variance_milli);
            assert_eq!(range_min.value(), 100);
            assert_eq!(range_max.value(), 5000);
        }
        _ => panic!("expected Summary"),
    }
}

#[test]
fn test_summary_zero_variance_when_agreement() {
    let reducer = ExactMatchReducer;
    let claims: Vec<Claim> = (0..5)
        .map(|i| {
            let mut source = [0u8; 32];
            source[0] = i as u8;
            make_claim(1, b"temp=20C", 2000, i as u64, source)
        })
        .collect();
    let summary = reducer.reduce(&claims).expect("should reduce");
    match &summary.kind {
        ClaimKind::Summary { variance_milli, range_min, range_max, .. } => {
            assert_eq!(*variance_milli, 0, "identical confidences → zero variance");
            assert_eq!(range_min.value(), range_max.value());
        }
        _ => panic!("expected Summary"),
    }
}

#[test]
fn test_enemy_of_my_enemy_blocked() {
    let mut graph = KnowledgeGraph::new();
    graph.add_edge(edge(0, 1, Relation::Contradicts, 10000));
    let mut base = HashMap::new();
    base.insert(0u32, LogOdds::new(-5000));
    base.insert(1u32, LogOdds::new(1000));
    let propagated = graph.propagate_trust(&base, 3);
    let trust_y = trust_of(&propagated, 1);
    assert!(trust_y.value() <= 1000, "negative-trust contradiction must not boost target, got {}", trust_y.value());
}

#[test]
fn test_sybil_attack_blocked() {
    let tracker = InMemoryReputationTracker::new();
    let mut total_weight = 0u32;
    for i in 0..100u8 {
        let node = [i; 32];
        let rep = tracker.reputation(&node);
        total_weight += rep.bps() as u32;
    }
    assert_eq!(total_weight, 0, "unknown nodes must have zero voting weight");
}

#[test]
fn test_delegation_grants_reputation() {
    let mut tracker = InMemoryReputationTracker::new();
    let anchor = [1u8; 32];
    let new_node = [2u8; 32];
    tracker.set_reputation(&anchor, Reputation::from_bps(8000));
    assert_eq!(tracker.reputation(&new_node).bps(), 0);
    tracker.delegate(&anchor, &new_node, Reputation::from_bps(3000));
    assert_eq!(tracker.reputation(&new_node).bps(), 3000);
    assert_eq!(tracker.reputation(&anchor).bps(), 6500);
}

#[test]
fn test_slashed_node_cannot_delegate() {
    let mut tracker = InMemoryReputationTracker::new();
    let slashed = [1u8; 32];
    let victim = [2u8; 32];
    tracker.update(&slashed, ReputationEvent::EquivocationDetected);
    tracker.delegate(&slashed, &victim, Reputation::from_bps(5000));
    assert_eq!(tracker.reputation(&victim).bps(), 0);
}

#[test]
fn test_reputation_spending_limits_sybil() {
    let mut tracker = InMemoryReputationTracker::new();
    let delegator = [1u8; 32];
    tracker.set_reputation(&delegator, Reputation::from_bps(10000));
    let mut _total_delegated = 0u16;
    for i in 0..5u8 {
        let node = [i + 10; 32];
        let before = tracker.reputation(&delegator).bps();
        tracker.delegate(&delegator, &node, Reputation::from_bps(2000));
        let after = tracker.reputation(&delegator).bps();
        let granted = tracker.reputation(&node).bps();
        _total_delegated += granted;
        assert!(after < before, "delegation must cost reputation: before={}, after={}", before, after);
    }
    assert_eq!(tracker.reputation(&delegator).bps(), 5000, "delegator should have 10000 - 5*1000 = 5000 remaining");
    let node_6 = [16u8; 32];
    tracker.delegate(&delegator, &node_6, Reputation::full());
    assert_eq!(tracker.reputation(&node_6).bps(), 5000, "delegation capped to delegator's remaining 5000");
    assert_eq!(tracker.reputation(&delegator).bps(), 2500);
}

#[test]
fn test_variance_no_overflow_extreme_values() {
    let reducer = ExactMatchReducer;
    let claims = vec![
        make_claim(1, b"data", i32::MAX, 0, [1u8; 32]),
        make_claim(1, b"data", i32::MIN, 1, [2u8; 32]),
        make_claim(1, b"data", i32::MAX, 2, [3u8; 32]),
    ];
    let summary = reducer.reduce(&claims);
    assert!(summary.is_some(), "reduce must not panic on extreme values");
}

#[test]
fn test_pass2_order_independent() {
    let mut graph = KnowledgeGraph::new();
    graph.add_edge(edge(0, 2, Relation::Contradicts, 8000));
    graph.add_edge(edge(1, 2, Relation::Contradicts, 8000));
    let claims = vec![
        make_claim(1, b"A", 3000, 0, [1u8; 32]),
        make_claim(1, b"B", 3000, 1, [2u8; 32]),
        make_claim(1, b"T", 5000, 2, [3u8; 32]),
    ];
    let mut tracker = InMemoryReputationTracker::new();
    tracker.set_reputation(&[1u8; 32], Reputation::full());
    let mut base = HashMap::new();
    for (i, c) in claims.iter().enumerate() {
        base.insert(i as u32, tracker.reputation(&c.origin).weight_evidence(c.confidence));
    }
    let r1 = graph.propagate_trust_full(&base, 5, 5000, &claims, &tracker);
    let mut graph_rev = KnowledgeGraph::new();
    graph_rev.add_edge(edge(1, 2, Relation::Contradicts, 8000));
    graph_rev.add_edge(edge(0, 2, Relation::Contradicts, 8000));
    let r2 = graph_rev.propagate_trust_full(&base, 5, 5000, &claims, &tracker);
    assert_eq!(
        r1.get(&2).map(|l| l.value()),
        r2.get(&2).map(|l| l.value()),
        "Pass 2 must be order-independent: forward={:?}, reverse={:?}",
        r1.get(&2),
        r2.get(&2)
    );
}

#[test]
fn test_hybrid_edge_resolution_survives_gc() {
    let fp = make_fingerprint(b"temp=20C", 1);
    let claim_a = make_claim(1, b"sensor_a", 3000, 0, [1u8; 32]);
    let mut hasher = blake3::Hasher::new();
    hasher.update(&fp.primary);
    hasher.update(&100u64.to_le_bytes());
    let summary_id = *hasher.finalize().as_bytes();
    let summary_s = Claim {
        id: summary_id,
        fingerprint: fp,
        origin: [0u8; 32],
        kind: ClaimKind::Summary {
            source_count: 2,
            tick_start: 0,
            tick_end: 10,
            data: b"temp=20C".to_vec(),
            aggregated_logodds: LogOdds::new(4000),
            unique_sources: 2,
            variance_milli: 0,
            range_min: LogOdds::new(2000),
            range_max: LogOdds::new(2000),
        },
        confidence: LogOdds::new(4000),
        evidence_source: summary_id,
        tick: 10,
        correlation_cell: None,
        embedding: None,
        embedding_version: 0,
    };
    let gc_claim_hash = {
        let mut h = blake3::Hasher::new();
        h.update(b"original_c1");
        *h.finalize().as_bytes()
    };
    let raw_edge = RawEpistemicEdge {
        from_hash: claim_a.id,
        from_fingerprint: claim_a.fingerprint,
        to_hash: gc_claim_hash,
        to_fingerprint: fp,
        relation: Relation::Supports,
        strength: Reputation::from_bps(9000),
    };
    let claims = vec![claim_a, summary_s];
    let graph = KnowledgeGraph::build_from_claims(&claims, &[raw_edge]);
    assert_eq!(graph.edges().len(), 1, "edge should survive GC via fingerprint fallback");
    assert_eq!(graph.edges()[0].from, 0);
    assert_eq!(graph.edges()[0].to, 1);
}

#[test]
fn test_hybrid_edge_drops_when_fully_orphaned() {
    let claim_a = make_claim(1, b"sensor_a", 3000, 0, [1u8; 32]);
    let orphan_hash = [99u8; 32];
    let orphan_fp = SemanticFingerprint { primary: [88u8; 16], secondary: 999999 };
    let raw_edge = RawEpistemicEdge {
        from_hash: claim_a.id,
        from_fingerprint: claim_a.fingerprint,
        to_hash: orphan_hash,
        to_fingerprint: orphan_fp,
        relation: Relation::Supports,
        strength: Reputation::from_bps(9000),
    };
    let claims = vec![claim_a];
    let graph = KnowledgeGraph::build_from_claims(&claims, &[raw_edge]);
    assert_eq!(graph.edges().len(), 0, "fully orphaned edge should be dropped");
}

#[test]
fn test_epoch_aligned_reduction_deduplicates() {
    let reducer = ExactMatchReducer;
    let claims: Vec<Claim> = (0..10)
        .map(|i| {
            let mut src = [0u8; 32];
            src[0] = i as u8;
            make_claim(1, b"temp=20C", 2000, i as u64, src)
        })
        .collect();
    let summaries_a = reducer.reduce_epoch_aligned(&claims, 10, no_reputations());
    let mut reversed = claims.clone();
    reversed.reverse();
    let summaries_b = reducer.reduce_epoch_aligned(&reversed, 10, no_reputations());
    assert_eq!(summaries_a.len(), 1);
    assert_eq!(summaries_b.len(), 1);
    assert_eq!(summaries_a[0].id, summaries_b[0].id, "grid-aligned Summaries from different nodes must have identical hash");
    assert_eq!(summaries_a[0].confidence, summaries_b[0].confidence);
}

#[test]
fn test_epoch_grid_splits_across_boundaries() {
    let reducer = ExactMatchReducer;
    let claims: Vec<Claim> = (5..16)
        .map(|i| {
            let mut src = [0u8; 32];
            src[0] = i as u8;
            make_claim(1, b"temp=20C", 2000, i as u64, src)
        })
        .collect();
    let summaries = reducer.reduce_epoch_aligned(&claims, 10, no_reputations());
    assert_eq!(summaries.len(), 2, "should produce 2 Summaries for 2 grid epochs");
}

#[test]
fn test_high_variance_flags_disagreement() {
    let reducer = ExactMatchReducer;
    let claims = vec![
        make_claim(1, b"data", 6000, 0, [1u8; 32]),
        make_claim(1, b"data", -4000, 1, [2u8; 32]),
    ];
    let summary = reducer.reduce(&claims).expect("should reduce");
    match &summary.kind {
        ClaimKind::Summary { variance_milli, .. } => {
            assert!(*variance_milli > 20_000_000, "extreme disagreement should produce large variance: got {}", variance_milli);
        }
        _ => panic!("expected Summary"),
    }
}

#[test]
fn test_temporal_decay_reduces_old_claims() {
    let mut graph = KnowledgeGraph::new();
    graph.add_edge(edge(0, 1, Relation::Supports, 9000));
    let claims = vec![
        make_claim(1, b"old", 4000, 10, [1u8; 32]),
        make_claim(1, b"new", 4000, 1000, [2u8; 32]),
    ];
    let mut tracker = InMemoryReputationTracker::new();
    let anchor = [255u8; 32];
    tracker.set_reputation(&anchor, Reputation::full());
    for c in &claims {
        tracker.delegate(&anchor, &c.origin, Reputation::full());
    }
    let mut base = HashMap::new();
    for (i, claim) in claims.iter().enumerate() {
        let rep = tracker.reputation(&claim.origin);
        base.insert(i as u32, rep.weight_evidence(claim.confidence));
    }
    let no_decay = graph.propagate_trust_advanced(&base, 5, 5000, &claims, &tracker, 0, 0);
    let with_decay = graph.propagate_trust_advanced(&base, 5, 5000, &claims, &tracker, 1000, 100);
    let old_no_decay = trust_of(&no_decay, 0);
    let old_with_decay = trust_of(&with_decay, 0);
    assert!(
        old_with_decay.value() < old_no_decay.value(),
        "temporal decay should reduce old claim trust: no_decay={}, with_decay={}",
        old_no_decay.value(),
        old_with_decay.value()
    );
}

#[test]
fn test_dynamic_damping_scales_with_support() {
    let mut graph_strong = KnowledgeGraph::new();
    let mut graph_weak = KnowledgeGraph::new();
    for i in 0..5 {
        graph_strong.add_edge(edge(i, 6, Relation::Supports, 8000));
    }
    graph_strong.add_edge(edge(5, 6, Relation::Contradicts, 8000));
    graph_weak.add_edge(edge(0, 2, Relation::Supports, 8000));
    graph_weak.add_edge(edge(1, 2, Relation::Contradicts, 8000));
    let claims_strong: Vec<Claim> = (0..7)
        .map(|i| {
            let mut src = [0u8; 32];
            src[0] = i as u8;
            make_claim(1, &[i as u8], 3000, i as u64, src)
        })
        .collect();
    let claims_weak: Vec<Claim> = (0..3)
        .map(|i| {
            let mut src = [0u8; 32];
            src[0] = i as u8;
            make_claim(1, &[i as u8], 3000, i as u64, src)
        })
        .collect();
    let mut tracker = InMemoryReputationTracker::new();
    tracker.set_reputation(&[1u8; 32], Reputation::from_bps(8000));
    let mut base_strong = HashMap::new();
    for (i, c) in claims_strong.iter().enumerate() {
        base_strong.insert(i as u32, tracker.reputation(&c.origin).weight_evidence(c.confidence));
    }
    let mut base_weak = HashMap::new();
    for (i, c) in claims_weak.iter().enumerate() {
        base_weak.insert(i as u32, tracker.reputation(&c.origin).weight_evidence(c.confidence));
    }
    let prop_strong = graph_strong.propagate_trust_full(&base_strong, 5, 5000, &claims_strong, &tracker);
    let prop_weak = graph_weak.propagate_trust_full(&base_weak, 5, 5000, &claims_weak, &tracker);
    let trust_strong = trust_of(&prop_strong, 6);
    let trust_weak = trust_of(&prop_weak, 2);
    assert!(
        trust_strong.value() > trust_weak.value(),
        "strong consensus ({}) should resist contradiction better than weak ({})",
        trust_strong.value(),
        trust_weak.value()
    );
}

#[test]
fn test_reputation_spending_geometric_bound() {
    let mut tracker = InMemoryReputationTracker::new();
    let delegator = [1u8; 32];
    tracker.set_reputation(&delegator, Reputation::full());
    let mut total = 0u32;
    for i in 0..20u8 {
        let remaining = tracker.reputation(&delegator).bps();
        if remaining == 0 {
            break;
        }
        let node = [i + 100; 32];
        tracker.delegate(&delegator, &node, Reputation::full());
        total += tracker.reputation(&node).bps() as u32;
    }
    assert!(total <= 20100, "total delegated reputation should be bounded by ~2x: got {}", total);
    assert!(total > 15000, "should have delegated a substantial amount: got {}", total);
}

#[test]
fn test_epoch_aligned_splits_by_cell() {
    let c1 = make_claim_with_cell(1, b"temp=20", 2000, 100, [10u8; 32], Some(CorrelationCell(1)));
    let c2 = make_claim_with_cell(1, b"temp=20", 2000, 150, [11u8; 32], Some(CorrelationCell(2)));
    let c3 = make_claim_with_cell(1, b"temp=20", 2000, 120, [12u8; 32], Some(CorrelationCell(1)));
    let reducer = ExactMatchReducer;
    let summaries = reducer.reduce_epoch_aligned(&[c1, c2, c3], 10000, no_reputations());
    assert_eq!(summaries.len(), 1, "only cell 1 has enough claims to reduce");
    assert_eq!(summaries[0].correlation_cell, Some(CorrelationCell(1)), "Summary inherits cell");
}

#[test]
fn test_epoch_aligned_cell_isolation() {
    let mut claims = Vec::new();
    for i in 0..3u8 {
        let mut src = [0u8; 32];
        src[0] = i;
        claims.push(make_claim_with_cell(1, b"temp=20", 2000, 100 + i as u64, src, Some(CorrelationCell(1))));
    }
    for i in 0..3u8 {
        let mut src = [0u8; 32];
        src[0] = 10 + i;
        claims.push(make_claim_with_cell(1, b"temp=20", 2000, 100 + i as u64, src, Some(CorrelationCell(2))));
    }
    let reducer = ExactMatchReducer;
    let summaries = reducer.reduce_epoch_aligned(&claims, 10000, no_reputations());
    assert_eq!(summaries.len(), 2, "one Summary per cell");
    let cells: Vec<_> = summaries.iter().map(|s| s.correlation_cell).collect();
    assert!(cells.contains(&Some(CorrelationCell(1))));
    assert!(cells.contains(&Some(CorrelationCell(2))));
}

fn full_rep_origins() -> (InMemoryReputationTracker, Vec<[u8; 32]>) {
    let mut tracker = InMemoryReputationTracker::new();
    let origins: Vec<[u8; 32]> = (0..3u8)
        .map(|i| {
            let mut o = [0u8; 32];
            o[0] = i;
            o
        })
        .collect();
    for o in &origins {
        tracker.set_reputation(o, Reputation::full());
    }
    (tracker, origins)
}

#[test]
fn test_reduce_with_reputation_applies_discount() {
    let (tracker, origins) = full_rep_origins();
    let cell = Some(CorrelationCell(42));
    let claims: Vec<_> = origins
        .iter()
        .enumerate()
        .map(|(i, o)| {
            let mut src = [0u8; 32];
            src[0] = i as u8 + 50;
            let mut c = make_claim_with_cell(1, b"temp=20", 2000, 100, src, cell);
            c.origin = *o;
            c
        })
        .collect();
    let reducer = ExactMatchReducer;
    let summary = reducer.reduce_with_reputation(&claims, &tracker).unwrap();
    assert!(summary.confidence.value() < 6000, "discount should reduce total: got {}", summary.confidence.value());
    assert!(summary.confidence.value() > 2000, "at least one full-weight claim: got {}", summary.confidence.value());
}

#[test]
fn test_none_cell_backward_compat() {
    let (tracker, origins) = full_rep_origins();
    let claims: Vec<_> = origins
        .iter()
        .enumerate()
        .map(|(i, o)| {
            let mut src = [0u8; 32];
            src[0] = i as u8 + 50;
            let mut c = make_claim(1, b"temp=20", 2000, 100, src);
            c.origin = *o;
            c
        })
        .collect();
    let reducer = ExactMatchReducer;
    let summary = reducer.reduce_with_reputation(&claims, &tracker).unwrap();
    assert_eq!(summary.confidence.value(), 6000, "None cells should produce no discounting (v0.2.0 compat)");
}

#[test]
fn contradiction_does_not_feed_back_into_support() {
    let claims = vec![
        make_claim(1, b"A", 3000, 0, [1u8; 32]),
        make_claim(1, b"B", 1000, 1, [2u8; 32]),
        make_claim(1, b"C", 4000, 2, [3u8; 32]),
    ];
    let tracker = delegated_tracker(&claims, 8000);
    let mut base = HashMap::new();
    base.insert(0u32, LogOdds::new(3000));
    base.insert(1u32, LogOdds::new(1000));
    base.insert(2u32, LogOdds::new(4000));

    let mut plain = KnowledgeGraph::new();
    plain.add_edge(edge(0, 1, Relation::Supports, 9000));
    let mut contested = KnowledgeGraph::new();
    contested.add_edge(edge(0, 1, Relation::Supports, 9000));
    contested.add_edge(edge(2, 0, Relation::Contradicts, 9000));

    let p = plain.propagate_trust_full(&base, 5, 5000, &claims, &tracker);
    let c = contested.propagate_trust_full(&base, 5, 5000, &claims, &tracker);
    assert!(trust_of(&c, 0).value() < trust_of(&p, 0).value());
    assert_eq!(trust_of(&c, 1).value(), trust_of(&p, 1).value());
    assert!(trust_of(&p, 1).value() > 1000);
}

#[test]
fn reduction_ignores_order_with_repeated_claims() {
    let reducer = ExactMatchReducer;
    let a = make_claim(1, b"data", 1000, 0, [1u8; 32]);
    let b = make_claim(1, b"data", 2500, 4, [2u8; 32]);
    let c = make_claim(1, b"data", -300, 2, [3u8; 32]);
    let x = reducer.reduce(&[a.clone(), b.clone(), a.clone(), c.clone()]).unwrap();
    let y = reducer.reduce(&[c.clone(), a.clone(), b.clone(), a.clone()]).unwrap();
    assert_eq!(format!("{:?}", x), format!("{:?}", y));
    assert_eq!(x.confidence.value(), 3200);
}

#[test]
fn nested_reduction_keeps_the_aggregate() {
    let reducer = ExactMatchReducer;
    let a = make_claim(1, b"data", 1000, 0, [1u8; 32]);
    let b = make_claim(1, b"data", 2000, 1, [2u8; 32]);
    let c = make_claim(1, b"data", 3000, 2, [3u8; 32]);
    let flat = reducer.reduce(&[a.clone(), b.clone(), c.clone()]).unwrap();
    let left = reducer.reduce(&[reducer.reduce(&[a.clone(), b.clone()]).unwrap(), c.clone()]).unwrap();
    let right = reducer.reduce(&[a, reducer.reduce(&[b, c]).unwrap()]).unwrap();
    assert_eq!(flat.confidence.value(), 6000);
    assert_eq!(left.confidence, flat.confidence);
    assert_eq!(right.confidence, flat.confidence);
}

#[test]
fn epistemic_test_contradiction_reduces_trust_pass2() {
    let mut graph = KnowledgeGraph::new();
    graph.add_edge(edge(0, 1, Relation::Contradicts, 8000));
    let mut base = HashMap::new();
    base.insert(0u32, LogOdds::new(3000));
    base.insert(1u32, LogOdds::new(2000));
    let propagated = graph.propagate_trust(&base, 3);
    let trust_b = trust_of(&propagated, 1);
    assert!(trust_b.value() < 2000, "B's trust should decrease when contradicted by trusted A, got {}", trust_b.value());
}

#[test]
fn epistemic_test_annihilation_cap_prevents_one_shot_kill() {
    let mut graph = KnowledgeGraph::new();
    for i in 0..5 {
        graph.add_edge(edge(i, 5, Relation::Supports, 9000));
    }
    graph.add_edge(edge(6, 5, Relation::Contradicts, 10000));
    let mut base = HashMap::new();
    for i in 0..=6u32 {
        base.insert(i, LogOdds::new(5000));
    }
    let propagated = graph.propagate_trust(&base, 5);
    let trust_5 = trust_of(&propagated, 5);
    assert!(trust_5.value() > 0, "5 supporters vs 1 contradictor: claim should remain positive, got {}", trust_5.value());
}

#[test]
fn epistemic_test_dynamic_decay_varies_by_edge() {
    let mut graph = KnowledgeGraph::new();
    graph.add_edge(edge(0, 1, Relation::Supports, 9500));
    graph.add_edge(edge(0, 2, Relation::Supports, 1000));
    let mut base = HashMap::new();
    base.insert(0u32, LogOdds::new(5000));
    base.insert(1u32, LogOdds::neutral());
    base.insert(2u32, LogOdds::neutral());
    let propagated = graph.propagate_trust(&base, 3);
    let trust_b = trust_of(&propagated, 1);
    let trust_c = trust_of(&propagated, 2);
    assert!(trust_b.value() > trust_c.value() * 5, "B ({}) should get ~9.5x more trust than C ({})", trust_b.value(), trust_c.value());
}

#[test]
fn propagate_trust_weighs_authors_by_base_trust() {
    // Edge 0 -> 1, Supports, 9000; source base 5000 weighs its author at
    // 5000 bps: contribution = 5000 * 10000 / 10000 * 5000 / 10000 = 2500.
    let mut graph = KnowledgeGraph::new();
    graph.add_edge(edge(0, 1, Relation::Supports, 9000));
    let mut base = HashMap::new();
    base.insert(0u32, LogOdds::new(5000));
    base.insert(1u32, LogOdds::neutral());
    let propagated = graph.propagate_trust(&base, 5);
    assert_eq!(trust_of(&propagated, 1).value(), 2500);
    assert_eq!(trust_of(&propagated, 0).value(), 5000);
    // A source above 10000 counts as a full-reputation author.
    base.insert(0u32, LogOdds::new(20000));
    let propagated = graph.propagate_trust(&base, 5);
    assert_eq!(trust_of(&propagated, 1).value(), 20000);
}

#[test]
fn reduction_of_a_claim_with_itself_equals_its_reduction_alone() {
    let reducer = ExactMatchReducer;
    let a = make_claim(1, b"data", 1000, 7, [1u8; 32]);
    let once = reducer.reduce(&[a.clone()]).expect("a single claim reduces");
    let twice = reducer.reduce(&[a.clone(), a.clone()]).unwrap();
    assert_eq!(format!("{:?}", once), format!("{:?}", twice));
    match &once.kind {
        ClaimKind::Summary { source_count, unique_sources, aggregated_logodds, tick_start, tick_end, .. } => {
            assert_eq!(*source_count, 1);
            assert_eq!(*unique_sources, 1);
            assert_eq!(aggregated_logodds.value(), 1000);
            assert_eq!((*tick_start, *tick_end), (7, 7));
        }
        _ => panic!("expected Summary"),
    }
    assert!(!reducer.can_reduce(&[a.clone()]));
    assert!(reducer.reduce(&[]).is_none());
}

#[test]
fn contradictions_only_lower_trust_by_at_most_the_damping_share() {
    let mut contested = KnowledgeGraph::new();
    let mut neutral = KnowledgeGraph::new();
    for (from, to, rel) in [(0u32, 2u32, Relation::Supports), (1, 2, Relation::Contradicts), (3, 2, Relation::Contradicts)] {
        contested.add_edge(edge(from, to, rel, 9000));
        let r = if rel == Relation::Contradicts { Relation::SharedSource } else { rel };
        neutral.add_edge(edge(from, to, r, 9000));
    }
    let mut base = HashMap::new();
    base.insert(0u32, LogOdds::new(6000));
    base.insert(1u32, LogOdds::new(8000));
    base.insert(2u32, LogOdds::new(1000));
    base.insert(3u32, LogOdds::new(9000));
    let c = contested.propagate_trust(&base, 5);
    let n = neutral.propagate_trust(&base, 5);
    let (tc, tn) = (trust_of(&c, 2).value(), trust_of(&n, 2).value());
    assert!(tc < tn, "contradictions must lower trust: {} vs {}", tc, tn);
    assert!(tc >= tn - tn * 5000 / 10000, "lowered by at most half: {} vs {}", tc, tn);
    for k in [0u32, 1, 3] {
        assert_eq!(trust_of(&c, k).value(), trust_of(&n, k).value());
    }
}

#[test]
fn propagation_ignores_edge_order_on_acyclic_graphs() {
    let list = [
        edge(0, 1, Relation::Supports, 9000),
        edge(0, 2, Relation::Supports, 4000),
        edge(1, 3, Relation::DerivedFrom, 7000),
        edge(2, 3, Relation::Supports, 8000),
        edge(4, 3, Relation::Contradicts, 6000),
        edge(2, 1, Relation::Contradicts, 5000),
    ];
    let mut forward = KnowledgeGraph::new();
    for e in list.iter() {
        forward.add_edge(*e);
    }
    let mut backward = KnowledgeGraph::new();
    for e in list.iter().rev() {
        backward.add_edge(*e);
    }
    let mut base = HashMap::new();
    for (k, v) in [(0u32, 7000), (1, 500), (2, -200), (3, 1500), (4, 9000)] {
        base.insert(k, LogOdds::new(v));
    }
    let f = forward.propagate_trust(&base, 6);
    let b = backward.propagate_trust(&base, 6);
    for k in 0..5u32 {
        assert_eq!(trust_of(&f, k).value(), trust_of(&b, k).value(), "claim {}", k);
    }
}

#[test]
fn temporal_decay_never_raises_nonnegative_trust() {
    let mut graph = KnowledgeGraph::new();
    graph.add_edge(edge(0, 1, Relation::Supports, 9000));
    graph.add_edge(edge(1, 2, Relation::DerivedFrom, 6000));
    graph.add_edge(edge(0, 2, Relation::Supports, 3000));
    let claims = vec![
        make_claim(1, b"a", 4000, 10, [1u8; 32]),
        make_claim(1, b"b", 3000, 500, [2u8; 32]),
        make_claim(1, b"c", 1000, 990, [3u8; 32]),
    ];
    let tracker = delegated_tracker(&claims, 8000);
    let mut base = HashMap::new();
    for (i, claim) in claims.iter().enumerate() {
        base.insert(i as u32, tracker.reputation(&claim.origin).weight_evidence(claim.confidence));
    }
    let plain = graph.propagate_trust_advanced(&base, 5, 5000, &claims, &tracker, 0, 0);
    let decayed = graph.propagate_trust_advanced(&base, 5, 5000, &claims, &tracker, 1000, 100);
    for k in 0..3u32 {
        assert!(trust_of(&decayed, k).value() <= trust_of(&plain, k).value(), "claim {}", k);
    }
    assert!(trust_of(&decayed, 0).value() < trust_of(&plain, 0).value());
}

#[test]
fn cycle_marks_are_empty_exactly_for_acyclic_support_edges() {
    let mut dag = KnowledgeGraph::new();
    dag.add_edge(edge(0, 1, Relation::Supports, 9000));
    dag.add_edge(edge(1, 2, Relation::DerivedFrom, 9000));
    dag.add_edge(edge(0, 2, Relation::Supports, 9000));
    dag.add_edge(edge(2, 0, Relation::Contradicts, 9000));
    assert!(dag.cyclic_edge_indices().is_empty());

    let mut ring = KnowledgeGraph::new();
    ring.add_edge(edge(0, 1, Relation::Supports, 9000));
    ring.add_edge(edge(1, 2, Relation::Supports, 9000));
    ring.add_edge(edge(2, 0, Relation::DerivedFrom, 9000));
    ring.add_edge(edge(2, 3, Relation::Supports, 9000));
    let marked = ring.cyclic_edge_indices();
    assert_eq!(marked.len(), 1);
    // Without the marked edge the support edges are acyclic again.
    let mut rest = KnowledgeGraph::new();
    for (i, e) in [(0u32, 1u32), (1, 2), (2, 0), (2, 3)].iter().enumerate() {
        if !marked.contains(&i) {
            rest.add_edge(edge(e.0, e.1, Relation::Supports, 9000));
        }
    }
    assert!(rest.cyclic_edge_indices().is_empty());
}
