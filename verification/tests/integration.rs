use aimp_node::ai_bridge::{inference_mutation, AiDecision, InferenceEngine, InferenceRule, RuleEngine};
use aimp_node::crdt::consensus::QuorumManager;
use aimp_node::crdt::gc::EpochManager;
use aimp_node::crdt::actor::CrdtState;
use aimp_node::crdt::arena::DagArena;
use aimp_node::crdt::merkle_dag::{AiEvidence, DagNode, MerkleCrdtEngine, ParentList};
use aimp_node::crypto::{Identity, SecurityFirewall};
use aimp_node::protocol::{AimpData, OpCode};
use std::collections::BTreeMap;

#[test]
fn test_decision_engine_deterministic_hash() {
    let engine1 = RuleEngine::default_rules();
    let engine2 = RuleEngine::default_rules();
    assert_eq!(engine1.model_hash(), engine2.model_hash());
}

#[test]
fn rule_engine_first_matching_rule_wins() {
    let engine = RuleEngine::default_rules();
    let decision = engine.infer("error in valve system").unwrap();
    assert_eq!(decision.status, "CRITICAL");
    assert_eq!(decision.target_entity, "system_alert");
    let decision = engine.infer("Pressure drop").unwrap();
    assert_eq!(decision.target_entity, "hydraulic_system");
    assert_eq!(decision.status, "WARNING");
    assert!(decision.action_required);
    let decision = engine.infer("all quiet").unwrap();
    assert_eq!(decision.target_entity, "generic_entity");
    assert_eq!(decision.status, "NORMAL");
    assert!(!decision.action_required);
}

#[test]
fn test_quorum_consensus_reaches_threshold() {
    let mut quorum = QuorumManager::new(2);
    let evidence = AiEvidence {
        prompt: "check valve status".to_string(),
        decision: "NORMAL".to_string(),
        model_hash: SecurityFirewall::hash(b"test-model"),
        timestamp: 1000,
    };
    let node1_id = [1u8; 32];
    assert!(!quorum.observe(node1_id, &evidence));
    assert!(!quorum.is_verified("check valve status"));
    let node2_id = [2u8; 32];
    assert!(quorum.observe(node2_id, &evidence));
    assert!(quorum.is_verified("check valve status"));
    let node3_id = [3u8; 32];
    assert!(!quorum.observe(node3_id, &evidence));
    assert_eq!(quorum.get_support_count("check valve status", "NORMAL"), 2);
}

#[test]
fn test_quorum_conflicting_decisions_tracked_separately() {
    let mut quorum = QuorumManager::new(2);
    let evidence_a = AiEvidence {
        prompt: "sensor reading".to_string(),
        decision: "CRITICAL".to_string(),
        model_hash: SecurityFirewall::hash(b"model-v1"),
        timestamp: 1000,
    };
    let evidence_b = AiEvidence {
        prompt: "sensor reading".to_string(),
        decision: "NORMAL".to_string(),
        model_hash: SecurityFirewall::hash(b"model-v1"),
        timestamp: 1001,
    };
    assert!(!quorum.observe([1u8; 32], &evidence_a));
    assert!(!quorum.observe([2u8; 32], &evidence_b));
    assert_eq!(quorum.get_support_count("sensor reading", "CRITICAL"), 1);
    assert_eq!(quorum.get_support_count("sensor reading", "NORMAL"), 1);
}

#[test]
fn test_epoch_manager_advances() {
    let mut epochs = EpochManager::new();
    assert_eq!(epochs.current_epoch, 0);
    assert!(epochs.finalized_root.is_none());
    let root1 = SecurityFirewall::hash(b"epoch-1");
    epochs.finalize_epoch(root1);
    assert_eq!(epochs.current_epoch, 1);
    assert_eq!(epochs.finalized_root, Some(root1));
    let root2 = SecurityFirewall::hash(b"epoch-2");
    epochs.finalize_epoch(root2);
    assert_eq!(epochs.current_epoch, 2);
    assert_eq!(epochs.finalized_root, Some(root2));
}

#[test]
fn test_decision_engine_rule_matching() {
    let engine = RuleEngine::default_rules();
    let decision = engine.infer("System error detected in valve").unwrap();
    assert_eq!(decision.status, "CRITICAL");
    assert_eq!(decision.target_entity, "system_alert");
    assert!(decision.action_required);
    let decision = engine.infer("Check valve pressure").unwrap();
    assert_eq!(decision.status, "WARNING");
    assert_eq!(decision.target_entity, "hydraulic_system");
    assert!(decision.action_required);
    let decision = engine.infer("Sector north status report").unwrap();
    assert_eq!(decision.status, "NORMAL");
    assert_eq!(decision.target_entity, "sector_north");
    assert!(!decision.action_required);
    let decision = engine.infer("Hello world").unwrap();
    assert_eq!(decision.status, "NORMAL");
    assert_eq!(decision.target_entity, "generic_entity");
    assert!(!decision.action_required);
}

#[test]
fn test_decision_engine_case_insensitive() {
    let engine = RuleEngine::default_rules();
    let decision = engine.infer("CRITICAL ERROR DETECTED").unwrap();
    assert_eq!(decision.status, "CRITICAL");
}

#[test]
fn test_decision_engine_first_match_wins() {
    let engine = RuleEngine::default_rules();
    let decision = engine.infer("error in valve system").unwrap();
    assert_eq!(decision.status, "CRITICAL");
    assert_eq!(decision.target_entity, "system_alert");
}

#[test]
fn test_blake3_hash_deterministic() {
    let hash1 = SecurityFirewall::hash(b"hello world");
    let hash2 = SecurityFirewall::hash(b"hello world");
    let hash3 = SecurityFirewall::hash(b"hello world!");
    assert_eq!(hash1, hash2);
    assert_ne!(hash1, hash3);
}

fn vc(origin: &str, tick: u64) -> Vec<(String, u64)> {
    vec![(origin.to_string(), tick)]
}

fn plain_node(data: &[u8], vclock: Vec<(String, u64)>) -> DagNode {
    DagNode {
        parents: ParentList::new(),
        signature: [0u8; 64],
        data_hash: SecurityFirewall::hash(data),
        vclock,
        evidence: None,
    }
}

#[test]
fn test_crdt_convergence_two_engines() {
    let mut engine_a = MerkleCrdtEngine::default();
    let mut engine_b = MerkleCrdtEngine::default();
    let data_hash1 = SecurityFirewall::hash(b"mutation-from-a");
    let sig1 = [1u8; 64];
    let h1 = engine_a.append_mutation(data_hash1, sig1, vc("a", 1), None);
    let data_hash2 = SecurityFirewall::hash(b"mutation-from-b");
    let sig2 = [2u8; 64];
    let h2 = engine_b.append_mutation(data_hash2, sig2, vc("b", 1), None);
    let node1 = engine_a.arena.get_by_hash(&h1).unwrap().clone();
    let node2 = engine_b.arena.get_by_hash(&h2).unwrap().clone();
    engine_a.arena.insert(h2, node2.clone());
    engine_a.heads.push(h2);
    engine_a.invalidate_root();
    engine_b.arena.insert(h1, node1.clone());
    engine_b.heads.push(h1);
    engine_b.invalidate_root();
    assert_eq!(engine_a.get_merkle_root(), engine_b.get_merkle_root());
}

#[test]
fn test_vdiff_returns_missing_nodes() {
    let mut engine = MerkleCrdtEngine::default();
    let sig = [0u8; 64];
    let h1 = engine.append_mutation(SecurityFirewall::hash(b"d1"), sig, vc("n", 1), None);
    let _h2 = engine.append_mutation(SecurityFirewall::hash(b"d2"), sig, vc("n", 2), None);
    let diff = engine.get_vdiff(vec![h1]);
    assert!(!diff.is_empty());
}

#[test]
fn test_arena_allocation_and_soa_layout() {
    let mut arena = DagArena::new();
    let node = plain_node(b"test", Vec::new());
    let hash = node.compute_hash();
    let (idx, is_new) = arena.insert(hash, node.clone());
    assert!(is_new);
    assert_eq!(arena.len(), 1);
    let (idx2, is_new2) = arena.insert(hash, node);
    assert!(!is_new2);
    assert_eq!(idx, idx2);
    assert_eq!(arena.len(), 1);
    assert!(arena.contains(&hash));
    assert!(arena.get_by_hash(&hash).is_some());
    assert!(arena.get_by_index(idx).is_some());
    for i in 0..100 {
        let n = plain_node(&[i as u8], Vec::new());
        let h = n.compute_hash();
        arena.insert(h, n);
    }
    assert_eq!(arena.len(), 101);
    let keep_hashes: Vec<[u8; 32]> = arena.get_all_iter().into_iter().take(10).map(|(h, _)| *h).collect();
    let removed = arena.retain(&keep_hashes);
    assert_eq!(removed, 91);
    assert_eq!(arena.len(), 10);
}

#[test]
fn test_gc_epoch_pruning() {
    let mut engine = MerkleCrdtEngine::with_gc_threshold(5);
    let sig = [0u8; 64];
    for i in 0..10u64 {
        engine.append_mutation(SecurityFirewall::hash(&i.to_le_bytes()), sig, vc("n", i + 1), None);
    }
    assert!(!engine.heads.is_empty());
    let root = engine.get_merkle_root();
    assert_ne!(root, [0u8; 32]);
}

#[test]
fn test_gc_preserves_heads() {
    let mut engine = MerkleCrdtEngine::with_gc_threshold(3);
    let sig = [0u8; 64];
    let mut last_hash = [0u8; 32];
    for i in 0..6u64 {
        last_hash =
            engine.append_mutation(SecurityFirewall::hash(&i.to_le_bytes()), sig, vc("n", i + 1), None);
    }
    assert!(engine.heads.contains(&last_hash));
    assert_eq!(engine.heads.len(), 1);
}

#[test]
fn test_merkle_root_caching() {
    let mut engine = MerkleCrdtEngine::default();
    let sig = [0u8; 64];
    engine.append_mutation(SecurityFirewall::hash(b"d1"), sig, vc("n", 1), None);
    let root1 = engine.get_merkle_root();
    let root2 = engine.get_merkle_root();
    assert_eq!(root1, root2);
    assert_ne!(root1, [0u8; 32]);
}

#[test]
fn test_empty_engine_merkle_root_is_zero() {
    let mut engine = MerkleCrdtEngine::default();
    let root = engine.get_merkle_root();
    assert_eq!(root, [0u8; 32]);
}

#[test]
fn test_equivocation_detected_on_conflicting_mutations() {
    let mut quorum = QuorumManager::new(2);
    let node_a = plain_node(b"payload-A", vc("alice", 1));
    let hash_a = node_a.compute_hash();
    let node_b = plain_node(b"payload-B", vc("alice", 1));
    let hash_b = node_b.compute_hash();
    assert!(quorum.check_equivocation(&node_a, hash_a).is_none());
    let proof = quorum.check_equivocation(&node_b, hash_b);
    assert!(proof.is_some());
    let proof = proof.unwrap();
    assert_eq!(proof.origin, "alice");
    assert_eq!(proof.tick, 1);
    assert_eq!(proof.hash_a, hash_a);
    assert_eq!(proof.hash_b, hash_b);
    assert!(quorum.is_denied("alice"));
}

#[test]
fn test_equivocation_not_triggered_on_same_data() {
    let mut quorum = QuorumManager::new(2);
    let node_a = plain_node(b"same-payload", vc("bob", 1));
    let hash_a = node_a.compute_hash();
    let node_b = plain_node(b"same-payload", vc("bob", 1));
    let hash_b = node_b.compute_hash();
    assert!(quorum.check_equivocation(&node_a, hash_a).is_none());
    assert!(quorum.check_equivocation(&node_b, hash_b).is_none());
    assert!(!quorum.is_denied("bob"));
}

#[test]
fn test_denied_node_cannot_vote() {
    let mut quorum = QuorumManager::new(2);
    let node_a = plain_node(b"data-1", vc("mallory", 1));
    let node_b = plain_node(b"data-2", vc("mallory", 1));
    quorum.check_equivocation(&node_a, node_a.compute_hash());
    quorum.check_equivocation(&node_b, node_b.compute_hash());
    assert!(quorum.is_denied("mallory"));
    let mallory_id = SecurityFirewall::hash(b"mallory");
    let evidence = AiEvidence {
        prompt: "test prompt".to_string(),
        decision: "NORMAL".to_string(),
        model_hash: [0u8; 32],
        timestamp: 1000,
    };
    assert!(!quorum.observe(mallory_id, &evidence));
    assert!(!quorum.is_verified("test prompt"));
}

#[test]
fn merge_twice_stores_nothing_the_second_time() {
    let mut state = CrdtState::new(2, 1000);
    let batch = vec![plain_node(b"x", vc("p", 1)), plain_node(b"y", vc("q", 1))];
    let first = state.merge(batch.clone());
    assert_eq!(first.stored.len(), 2);
    let root1 = state.engine.get_merkle_root();
    let second = state.merge(batch);
    assert_eq!(second.stored.len(), 0);
    assert!(second.equivocations.is_empty());
    assert_eq!(state.engine.get_merkle_root(), root1);
}

#[test]
fn merge_order_does_not_change_the_root() {
    let a = plain_node(b"x", vc("p", 1));
    let b = plain_node(b"y", vc("q", 1));
    let mut left = CrdtState::new(2, 1000);
    let mut right = CrdtState::new(2, 1000);
    left.merge(vec![a.clone(), b.clone()]);
    right.merge(vec![b]);
    right.merge(vec![a]);
    assert_eq!(left.engine.get_merkle_root(), right.engine.get_merkle_root());
    assert_eq!(left.engine.heads.len(), 2);
}

#[test]
fn merge_reports_equivocation_and_quorum() {
    let mut state = CrdtState::new(1, 1000);
    let mut with_vote = plain_node(b"payload-A", vc("eve", 7));
    with_vote.evidence = Some(AiEvidence {
        prompt: "valve".to_string(),
        decision: "OPEN".to_string(),
        model_hash: [3u8; 32],
        timestamp: 5,
    });
    let conflicting = plain_node(b"payload-B", vc("eve", 7));
    let out = state.merge(vec![with_vote, conflicting]);
    assert_eq!(out.stored.len(), 2);
    assert_eq!(out.verified, vec![("valve".to_string(), "OPEN".to_string())]);
    assert_eq!(out.equivocations.len(), 1);
    assert_eq!(out.equivocations[0].origin, "eve");
    assert_eq!(out.equivocations[0].tick, 7);
    assert!(state.quorum.is_denied("eve"));
    assert!(state.quorum.is_verified("valve"));
}

#[test]
fn append_compacts_and_finalizes_epoch_at_threshold() {
    let mut state = CrdtState::new(2, 2);
    let first = state.append(SecurityFirewall::hash(b"one"), [0u8; 64], vc("n", 1), None);
    assert!(first.compacted.is_none());
    assert_eq!(state.epochs.current_epoch, 0);
    let second = state.append(SecurityFirewall::hash(b"two"), [0u8; 64], vc("n", 2), None);
    let (root, left) = second.compacted.expect("threshold reached");
    assert_eq!(state.epochs.current_epoch, 1);
    assert_eq!(state.epochs.finalized_root, Some(root));
    assert_eq!(left, 2);
    assert_eq!(state.engine.heads, vec![second.hash]);
    assert_eq!(state.engine.get_merkle_root(), SecurityFirewall::hash(&second.hash));
}

#[test]
fn node_hash_covers_every_field() {
    let base = plain_node(b"d", vc("n", 1));
    let mut other_tick = base.clone();
    other_tick.vclock[0].1 = 2;
    let mut with_parent = base.clone();
    with_parent.parents = ParentList::from_vec(vec![[9u8; 32]]);
    let h = base.compute_hash();
    assert_ne!(h, other_tick.compute_hash());
    assert_ne!(h, with_parent.compute_hash());
    assert_eq!(h, base.clone().compute_hash());
}

#[test]
fn inference_mutation_records_decision_as_json() {
    let decision = AiDecision {
        target_entity: "system_alert".to_string(),
        status: "CRITICAL".to_string(),
        action_required: true,
    };
    let prompt = "System error".to_string();
    let mut node_id = [0u8; 32];
    node_id[0] = 0xab;
    node_id[1] = 0x01;
    node_id[3] = 0xff;
    let m = inference_mutation(&decision, &prompt, &node_id, 7, [5u8; 32], 1234).unwrap();
    assert_eq!(m.decision_json, "{\"action\":true,\"status\":\"CRITICAL\"}");
    assert_eq!(m.data_hash, SecurityFirewall::hash(m.decision_json.as_bytes()));
    assert_eq!(m.vclock, vec![("ab0100ff".to_string(), 7)]);
    assert_eq!(m.evidence.prompt, "System error");
    assert_eq!(m.evidence.decision, m.decision_json);
    assert_eq!(m.evidence.model_hash, [5u8; 32]);
    assert_eq!(m.evidence.timestamp, 1234);
}

#[test]
fn quorum_reached_by_threshold_distinct_voters() {
    let mut quorum = QuorumManager::new(3);
    let evidence = AiEvidence {
        prompt: "door".to_string(),
        decision: "LOCK".to_string(),
        model_hash: [0u8; 32],
        timestamp: 1,
    };
    assert!(!quorum.observe([1u8; 32], &evidence));
    assert!(!quorum.observe([1u8; 32], &evidence));
    assert!(!quorum.observe([2u8; 32], &evidence));
    assert!(!quorum.is_verified("door"));
    assert!(quorum.observe([3u8; 32], &evidence));
    assert!(quorum.is_verified("door"));
    assert_eq!(quorum.get_support_count("door", "LOCK"), 3);
}

/// MessagePack bytes of the data, field by field in declaration order, as
/// the wire format writes them.
fn encode_data(data: &AimpData) -> Vec<u8> {
    rmp_serde::to_vec(&(
        data.v,
        data.op.to_byte(),
        data.ttl,
        serde_bytes::Bytes::new(&data.origin_pubkey),
        &data.vclock,
        serde_bytes::Bytes::new(&data.payload),
    ))
    .unwrap()
}

#[test]
fn test_security_firewall_rejects_invalid_signature() {
    let identity = Identity::new();

    let data = AimpData {
        v: 1,
        op: OpCode::Ping,
        ttl: 3,
        origin_pubkey: identity.node_id(),
        vclock: BTreeMap::new(),
        payload: b"hello".to_vec(),
    };
    let encoded = encode_data(&data);

    let mut envelope = identity.sign(data, &encoded);

    // Valid signature should pass
    assert!(SecurityFirewall::verify(&envelope, &encoded));

    // Tamper with signature
    envelope.signature[0] ^= 0xff;
    assert!(!SecurityFirewall::verify(&envelope, &encoded));
}

#[test]
fn test_identity_unique_keys() {
    let id1 = Identity::new();
    let id2 = Identity::new();

    // Each identity should have a unique node ID
    assert_ne!(id1.node_id(), id2.node_id());
}

#[test]
fn firewall_refuses_other_bytes_and_other_keys() {
    let identity = Identity::new();
    let other = Identity::new();
    let sig = identity.sign_bytes(b"root");
    assert_eq!(sig, identity.sign_bytes(b"root"));
    let data = AimpData {
        v: 1,
        op: OpCode::Ping,
        ttl: 3,
        origin_pubkey: identity.node_id(),
        vclock: BTreeMap::new(),
        payload: b"root".to_vec(),
    };
    let mut envelope = identity.sign(data, b"root");
    assert_eq!(envelope.signature, sig);
    assert!(SecurityFirewall::verify(&envelope, b"root"));
    assert!(!SecurityFirewall::verify(&envelope, b"roots"));
    envelope.data.origin_pubkey = other.node_id();
    assert!(!SecurityFirewall::verify(&envelope, b"root"));
    envelope.data.origin_pubkey = [0u8; 32];
    envelope.data.origin_pubkey[0] = 2;
    assert!(!SecurityFirewall::verify(&envelope, b"root"));
}

#[test]
fn rule_keywords_match_in_any_case() {
    let r = RuleEngine::new(
        vec![InferenceRule {
            keywords: vec!["Valve".into()],
            target: "t".into(),
            status: "S".into(),
            action_required: true,
        }],
        "v".into(),
    );
    assert_eq!(
        r.infer("valve open").unwrap(),
        AiDecision { target_entity: "t".into(), status: "S".into(), action_required: true }
    );
    assert_eq!(r.infer("VALVE OPEN").unwrap().target_entity, "t");
    assert_eq!(r.infer("pump open").unwrap().target_entity, "generic_entity");
}

#[test]
fn merge_reports_each_new_hash_once() {
    let mut state = CrdtState::new(2, 1000);
    let x = plain_node(b"x", vc("p", 1));
    let y = plain_node(b"y", vc("q", 1));
    state.merge(vec![y.clone()]);
    let out = state.merge(vec![x.clone(), x.clone(), y.clone(), x.clone()]);
    assert_eq!(out.stored, vec![x.compute_hash()]);
}

#[test]
fn append_stores_the_callers_node() {
    let mut state = CrdtState::new(2, 1000);
    let out = state.append([7u8; 32], [9u8; 64], vc("n", 3), None);
    let node = state.engine.arena.get_by_hash(&out.hash).unwrap();
    assert_eq!(node.data_hash, [7u8; 32]);
    assert_eq!(node.signature, [9u8; 64]);
    assert_eq!(node.compute_hash(), out.hash);
    assert!(node.evidence.is_none());
    let second = state.append([8u8; 32], [1u8; 64], vc("n", 4), None);
    let node2 = state.engine.arena.get_by_hash(&second.hash).unwrap();
    assert_eq!(node2.parents.as_slice(), &[out.hash][..]);
}

#[test]
fn rule_engine_lowered_text_decides() {
    let engine = RuleEngine::default_rules();
    let d = engine.infer_lowered(&"pressure drop near the valve".to_string());
    assert_eq!(d.target_entity, "hydraulic_system");
    assert_eq!(d.status, "WARNING");
    assert!(d.action_required);
    let d = engine.infer_lowered(&"error".to_string());
    assert_eq!(d.target_entity, "system_alert");
    let d = engine.infer_lowered(&"nothing here".to_string());
    assert_eq!(d.target_entity, "generic_entity");
    assert_eq!(d.status, "NORMAL");
    assert!(!d.action_required);
}

#[test]
fn merged_heads_are_the_stored_nodes_nobody_names_as_parent() {
    let a = plain_node(b"x", vc("p", 1));
    let ha = a.compute_hash();
    let mut b = plain_node(b"y", vc("q", 1));
    b.parents = ParentList::from_vec(vec![ha]);
    let hb = b.compute_hash();
    let c = plain_node(b"z", vc("r", 1));
    let hc = c.compute_hash();
    let mut state = CrdtState::new(2, 1000);
    let out = state.merge(vec![a, b, c]);
    assert_eq!(out.stored.len(), 3);
    let heads = state.engine.heads.clone();
    assert_eq!(heads.len(), 2);
    assert!(heads.contains(&hb));
    assert!(heads.contains(&hc));
    assert!(!heads.contains(&ha));
}
