use std::collections::HashMap;

use aimp_node::epistemic::{
    BeliefEngine, Claim, ClaimKind, EpistemicEdge, InMemoryReputationTracker, KnowledgeGraph,
    LogOdds, LogOddsBeliefEngine, Relation, Reputation, ReputationEvent, ReputationTracker,
    SemanticFingerprint,
};

fn make_fingerprint(data: &[u8], sensor: u8) -> SemanticFingerprint {
    let hash = blake3::hash(data);
    let mut primary = [0u8; 16];
    primary.copy_from_slice(&hash.as_bytes()[..16]);
    let mut feat = blake3::Hasher::new();
    feat.update(&[sensor]);
    let secondary = u64::from_le_bytes(feat.finalize().as_bytes()[..8].try_into().unwrap());
    SemanticFingerprint { primary, secondary }
}

fn make_claim_with_origin(i: u32, logodds: i32) -> Claim {
    let mut src = [0u8; 32];
    src[..4].copy_from_slice(&i.to_le_bytes());
    let origin = {
        let mut o = [0u8; 32];
        o[..4].copy_from_slice(&i.to_le_bytes());
        o
    };
    let fp = make_fingerprint(&i.to_le_bytes(), 1);
    let mut h = blake3::Hasher::new();
    h.update(&fp.primary);
    h.update(&(i as u64).to_le_bytes());
    h.update(&src);
    let id = *h.finalize().as_bytes();
    Claim {
        id,
        fingerprint: fp,
        origin,
        kind: ClaimKind::Observation { sensor_type: 1, data: i.to_le_bytes().to_vec() },
        confidence: LogOdds::new(logodds),
        evidence_source: src,
        tick: i as u64,
        correlation_cell: None,
        embedding: None,
        embedding_version: 0,
    }
}

fn setup_tracker(claims: &[Claim]) -> InMemoryReputationTracker {
    let mut tracker = InMemoryReputationTracker::new();
    let anchor = [255u8; 32];
    for _ in 0..50 {
        tracker.update(&anchor, ReputationEvent::ClaimConfirmed);
    }
    for c in claims {
        tracker.delegate(&anchor, &c.origin, Reputation::full());
    }
    tracker
}

fn base_trust_map(claims: &[Claim], tracker: &InMemoryReputationTracker) -> HashMap<u32, LogOdds> {
    let mut bt = HashMap::new();
    for (i, claim) in claims.iter().enumerate() {
        let rep = tracker.reputation(&claim.origin);
        bt.insert(i as u32, rep.weight_evidence(claim.confidence));
    }
    bt
}

#[test]
fn exhaustive_belief_determinism() {
    let n = 5u32;
    let confidence_levels = [LogOdds::new(-3000), LogOdds::neutral(), LogOdds::new(3000)];
    let engine = LogOddsBeliefEngine::default();
    for &conf_pattern in &[0u8, 1, 2, 3, 4, 5, 6, 7, 8] {
        let claims: Vec<Claim> = (0..n)
            .map(|i| {
                let conf = confidence_levels[(conf_pattern as usize + i as usize) % 3];
                make_claim_with_origin(i, conf.value())
            })
            .collect();
        let tracker = setup_tracker(&claims);
        for edge_config in 0..3u32.pow(n - 1) {
            let mut graph = KnowledgeGraph::new();
            let mut config = edge_config;
            for i in 0..(n - 1) {
                let edge_type = config % 3;
                config /= 3;
                match edge_type {
                    0 => {}
                    1 => graph.add_edge(EpistemicEdge {
                        from: i,
                        to: i + 1,
                        relation: Relation::Supports,
                        strength: Reputation::from_bps(8000),
                    }),
                    2 => graph.add_edge(EpistemicEdge {
                        from: i,
                        to: i + 1,
                        relation: Relation::Contradicts,
                        strength: Reputation::from_bps(8000),
                    }),
                    _ => unreachable!(),
                }
            }
            let s1 = engine.compute(&claims, &graph, &tracker);
            let s2 = engine.compute(&claims, &graph, &tracker);
            assert_eq!(s1.accepted, s2.accepted, "accepted differs for config {}", edge_config);
            assert_eq!(s1.rejected, s2.rejected, "rejected differs for config {}", edge_config);
            assert_eq!(s1.uncertain, s2.uncertain, "uncertain differs for config {}", edge_config);
        }
    }
}

#[test]
fn exhaustive_trust_bounded() {
    let n = 6u32;
    let extreme_values = [i32::MIN, -1_000_000, -5000, 0, 5000, 1_000_000, i32::MAX];
    for &init_val in &extreme_values {
        let claims: Vec<Claim> = (0..n).map(|i| make_claim_with_origin(i, init_val)).collect();
        let tracker = setup_tracker(&claims);
        let mut graph = KnowledgeGraph::new();
        for i in 0..n {
            for j in 0..n {
                if i != j {
                    graph.add_edge(EpistemicEdge {
                        from: i,
                        to: j,
                        relation: Relation::Supports,
                        strength: Reputation::full(),
                    });
                }
            }
        }
        let bt = base_trust_map(&claims, &tracker);
        let propagated = graph.propagate_trust_full(&bt, 20, 5000, &claims, &tracker);
        assert_eq!(propagated.len(), n as usize);
    }
    for cycle_len in 2..=n {
        let claims: Vec<Claim> = (0..cycle_len).map(|i| make_claim_with_origin(i, 5000)).collect();
        let tracker = setup_tracker(&claims);
        let mut graph = KnowledgeGraph::new();
        for i in 0..cycle_len {
            graph.add_edge(EpistemicEdge {
                from: i,
                to: (i + 1) % cycle_len,
                relation: Relation::Supports,
                strength: Reputation::full(),
            });
        }
        let bt = base_trust_map(&claims, &tracker);
        let propagated = graph.propagate_trust_full(&bt, 100, 5000, &claims, &tracker);
        for (&node, &trust) in &propagated {
            assert!(
                trust.value().abs() < 100_000_000,
                "node {} has trust {} in {}-cycle",
                node,
                trust.value(),
                cycle_len
            );
        }
    }
}

#[test]
fn exhaustive_contradiction_safety() {
    let accept_threshold = 2197;
    let reject_threshold = -2197;
    let damping_bps = 5000u16;
    let mut configs_tested = 0u64;
    for target_trust in (accept_threshold..=20000).step_by(100) {
        for source_trust in (0..=20000).step_by(200) {
            for strength in (0..=10000u16).step_by(1000) {
                let raw_penalty =
                    (source_trust as i64) * (strength as i64) * (strength as i64) / (10000 * 10000);
                let max_penalty = (target_trust as i64) * (damping_bps as i64) / 10000;
                let capped_penalty = raw_penalty.abs().min(max_penalty);
                let new_trust = target_trust as i64 - capped_penalty;
                assert!(
                    new_trust > reject_threshold as i64,
                    "target={}, source={}, strength={}, penalty={}, new_trust={} <= reject={}",
                    target_trust,
                    source_trust,
                    strength,
                    capped_penalty,
                    new_trust,
                    reject_threshold
                );
                configs_tested += 1;
            }
        }
    }
    println!("ContradictionSafety: PASSED for {} configurations", configs_tested);
}

#[test]
fn exhaustive_cycle_safety() {
    let mut configs_tested = 0u64;

    // Test all cycle lengths from 2 to 8
    for cycle_len in 2..=8u32 {
        // Test with varying edge strengths
        for strength_bps in (1000..=10000u16).step_by(1000) {
            // Test with varying initial trust
            for init_trust in [500, 2000, 5000, 10000] {
                let claims: Vec<Claim> = (0..cycle_len)
                    .map(|i| make_claim_with_origin(i, init_trust))
                    .collect();
                let tracker = setup_tracker(&claims);

                // Create a cycle
                let mut graph = KnowledgeGraph::new();
                for i in 0..cycle_len {
                    graph.add_edge(EpistemicEdge {
                        from: i,
                        to: (i + 1) % cycle_len,
                        relation: Relation::Supports,
                        strength: Reputation::from_bps(strength_bps),
                    });
                }

                // Verify cyclic edges are detected
                let cyclic = graph.cyclic_edge_indices();
                assert!(
                    !cyclic.is_empty(),
                    "CycleSafety: no cyclic edges detected in {}-cycle",
                    cycle_len
                );

                // Run propagation with many iterations
                let bt = base_trust_map(&claims, &tracker);
                let before_sum: i64 = bt.values().map(|v| v.value() as i64).sum();
                let propagated = graph.propagate_trust_full(&bt, 50, 5000, &claims, &tracker);
                let after_sum: i64 = propagated.values().map(|v| v.value() as i64).sum();

                // Trust should not grow unboundedly
                // Allow some growth from legitimate propagation but not explosion
                let growth_ratio = if before_sum != 0 {
                    after_sum as f64 / before_sum as f64
                } else {
                    1.0
                };
                assert!(
                    growth_ratio < 10.0,
                    "CycleSafety: trust exploded in {}-cycle (strength={}): \
                     before={}, after={}, ratio={:.1}x",
                    cycle_len,
                    strength_bps,
                    before_sum,
                    after_sum,
                    growth_ratio
                );
                configs_tested += 1;
            }
        }
    }

    println!("CycleSafety: PASSED for {} configurations", configs_tested);
}

// ─── Property 5: Convergence in Bounded Steps ───────────────
// For acyclic graphs, propagation must converge in at most D steps
// (where D = max depth). We verify this by checking that running
// more iterations doesn't change the result.

#[test]
fn exhaustive_convergence_bounded() {
    let mut configs_tested = 0u64;

    for n in 3..=8u32 {
        let claims: Vec<Claim> = (0..n).map(|i| make_claim_with_origin(i, 3000)).collect();
        let tracker = setup_tracker(&claims);

        // Chain (DAG, depth = n-1)
        let mut graph = KnowledgeGraph::new();
        for i in 0..(n - 1) {
            graph.add_edge(EpistemicEdge {
                from: i,
                to: i + 1,
                relation: Relation::Supports,
                strength: Reputation::from_bps(8000),
            });
        }

        let bt = base_trust_map(&claims, &tracker);

        // Run with exactly D iterations (should converge)
        let result_d = graph.propagate_trust_full(&bt, n as u8, 5000, &claims, &tracker);
        // Run with 2*D iterations (should produce same result if converged)
        let result_2d = graph.propagate_trust_full(&bt, (2 * n) as u8, 5000, &claims, &tracker);

        for key in result_d.keys() {
            assert_eq!(
                result_d.get(key),
                result_2d.get(key),
                "Convergence violated: node {} differs between D={} and 2D={} iterations \
                 (n={} chain)",
                key,
                n,
                2 * n,
                n
            );
        }
        configs_tested += 1;
    }

    // Also test tree topologies (wider, shallower)
    for breadth in 2..=4u32 {
        for depth in 2..=3u32 {
            let total = (0..=depth).map(|d| breadth.pow(d)).sum::<u32>();
            if total > 100 {
                continue;
            }
            let claims: Vec<Claim> = (0..total)
                .map(|i| make_claim_with_origin(i, 3000))
                .collect();
            let tracker = setup_tracker(&claims);

            let mut graph = KnowledgeGraph::new();
            let mut node_id = 1u32;
            // Build tree: each node at level d has `breadth` children
            for d in 0..depth {
                let level_start = (0..d).map(|dd| breadth.pow(dd)).sum::<u32>();
                let level_size = breadth.pow(d);
                for parent_offset in 0..level_size {
                    let parent = level_start + parent_offset;
                    for _ in 0..breadth {
                        if node_id < total {
                            graph.add_edge(EpistemicEdge {
                                from: parent,
                                to: node_id,
                                relation: Relation::Supports,
                                strength: Reputation::from_bps(8000),
                            });
                            node_id += 1;
                        }
                    }
                }
            }

            let bt = base_trust_map(&claims, &tracker);
            let result_d =
                graph.propagate_trust_full(&bt, (depth + 1) as u8, 5000, &claims, &tracker);
            let result_2d =
                graph.propagate_trust_full(&bt, (2 * (depth + 1)) as u8, 5000, &claims, &tracker);

            for key in result_d.keys() {
                assert_eq!(
                    result_d.get(key),
                    result_2d.get(key),
                    "Convergence violated in tree (breadth={}, depth={}): node {}",
                    breadth,
                    depth,
                    key
                );
            }
            configs_tested += 1;
        }
    }

    println!(
        "ConvergenceBounded: PASSED for {} configurations",
        configs_tested
    );
}

#[test]
fn exhaustive_summary() {
    println!("\n=== Exhaustive Bounded Verification Summary ===");
    println!("Properties verified:");
    println!("  1. BeliefDeterminism (N=5, chain topologies, 3 confidence levels)");
    println!("  2. TrustBounded (N=6, extreme values, dense + cyclic graphs)");
    println!("  3. ContradictionSafety (all trust x strength x damping combinations)");
    println!("  4. CycleSafety (cycles 2-8, all strengths, all initial trusts)");
    println!("  5. ConvergenceBounded (chains 3-8, trees breadth 2-4 x depth 2-3)");
    println!("================================================\n");
}
