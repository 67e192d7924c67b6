use aimp_node::epistemic::{Claim, ClaimHash, ClaimKind, LogOdds, Relation, SemanticFingerprint};
use aimp_node::semantic_topology::{AutoEdgeConfig, AutoEdgeGenerator, QuantizedEmbedding};

fn make_embedding(seed: u64) -> QuantizedEmbedding {
    let hash = blake3::hash(&seed.to_le_bytes());
    let bytes = hash.as_bytes();
    QuantizedEmbedding([
        u64::from_le_bytes(bytes[0..8].try_into().unwrap()),
        u64::from_le_bytes(bytes[8..16].try_into().unwrap()),
        u64::from_le_bytes(bytes[16..24].try_into().unwrap()),
        u64::from_le_bytes(bytes[24..32].try_into().unwrap()),
    ])
}

fn make_nearby_embedding(base: &QuantizedEmbedding, flipped_bits: u32) -> QuantizedEmbedding {
    let mut result = *base;
    let mut remaining = flipped_bits;
    for word in result.0.iter_mut() {
        let to_flip = remaining.min(64);
        let mask = if to_flip >= 64 { u64::MAX } else { (1u64 << to_flip) - 1 };
        *word ^= mask;
        remaining = remaining.saturating_sub(64);
        if remaining == 0 {
            break;
        }
    }
    result
}

fn make_fingerprint(data: &[u8]) -> SemanticFingerprint {
    let hash = blake3::hash(data);
    let mut primary = [0u8; 16];
    primary.copy_from_slice(&hash.as_bytes()[..16]);
    SemanticFingerprint {
        primary,
        secondary: u64::from_le_bytes(hash.as_bytes()[16..24].try_into().unwrap()),
    }
}

fn make_test_claim(data: &[u8], tick: u64, embedding: Option<QuantizedEmbedding>) -> Claim {
    let fp = make_fingerprint(data);
    let mut source = [0u8; 32];
    source[..data.len().min(32)].copy_from_slice(&data[..data.len().min(32)]);
    let mut hasher = blake3::Hasher::new();
    hasher.update(&fp.primary);
    hasher.update(&tick.to_le_bytes());
    hasher.update(&source);
    if let Some(e) = &embedding {
        for word in &e.0 {
            hasher.update(&word.to_le_bytes());
        }
    }
    let id = *hasher.finalize().as_bytes();
    Claim {
        id,
        fingerprint: fp,
        origin: [1u8; 32],
        kind: ClaimKind::Observation { sensor_type: 1, data: data.to_vec() },
        confidence: LogOdds::new(2000),
        evidence_source: source,
        tick,
        correlation_cell: None,
        embedding,
        embedding_version: 1,
    }
}

#[test]
fn test_hamming_distance_identical() {
    let e = make_embedding(42);
    assert_eq!(e.hamming_distance(&e), 0);
}

#[test]
fn test_hamming_distance_opposite() {
    let a = QuantizedEmbedding::zero();
    let b = QuantizedEmbedding::ones();
    assert_eq!(a.hamming_distance(&b), 256);
}

#[test]
fn test_hamming_distance_single_bit() {
    let a = QuantizedEmbedding::new([0, 0, 0, 0]);
    let b = QuantizedEmbedding::new([1, 0, 0, 0]);
    assert_eq!(a.hamming_distance(&b), 1);
}

#[test]
fn test_hamming_distance_symmetric() {
    let a = make_embedding(1);
    let b = make_embedding(2);
    assert_eq!(a.hamming_distance(&b), b.hamming_distance(&a));
}

#[test]
fn test_hamming_distance_known_flips() {
    let base = make_embedding(100);
    let nearby = make_nearby_embedding(&base, 15);
    assert_eq!(base.hamming_distance(&nearby), 15);
}

#[test]
fn test_hamming_distance_range() {
    let a = make_embedding(1);
    let b = make_embedding(2);
    let d = a.hamming_distance(&b);
    assert!(d > 80 && d < 180, "random embeddings should be ~128 apart, got {}", d);
}

#[test]
fn test_auto_edge_supports() {
    let base = make_embedding(42);
    let nearby = make_nearby_embedding(&base, 10);
    let c1 = make_test_claim(b"sensor_a", 0, Some(base));
    let c2 = make_test_claim(b"sensor_b", 1, Some(nearby));
    let gen = AutoEdgeGenerator::new(AutoEdgeConfig::default());
    let edges = gen.generate_edges(&[c1, c2]);
    assert_eq!(edges.len(), 1);
    assert_eq!(edges[0].relation, Relation::Supports);
    assert!(edges[0].strength.bps() > 5000);
}

#[test]
fn test_auto_edge_contradicts() {
    let base = make_embedding(42);
    let far = make_nearby_embedding(&base, 220);
    let c1 = make_test_claim(b"sensor_a", 0, Some(base));
    let c2 = make_test_claim(b"sensor_b", 1, Some(far));
    let gen = AutoEdgeGenerator::new(AutoEdgeConfig::default());
    let edges = gen.generate_edges(&[c1, c2]);
    assert_eq!(edges.len(), 1);
    assert_eq!(edges[0].relation, Relation::Contradicts);
}

#[test]
fn test_auto_edge_dead_zone() {
    let base = make_embedding(42);
    let mid = make_nearby_embedding(&base, 100);
    let c1 = make_test_claim(b"sensor_a", 0, Some(base));
    let c2 = make_test_claim(b"sensor_b", 1, Some(mid));
    let gen = AutoEdgeGenerator::new(AutoEdgeConfig::default());
    assert!(gen.generate_edges(&[c1, c2]).is_empty());
}

#[test]
fn test_auto_edge_deterministic() {
    let base = make_embedding(42);
    let nearby = make_nearby_embedding(&base, 10);
    let c1 = make_test_claim(b"sensor_a", 0, Some(base));
    let c2 = make_test_claim(b"sensor_b", 1, Some(nearby));
    let gen = AutoEdgeGenerator::new(AutoEdgeConfig::default());
    let edges_fwd = gen.generate_edges(&[c1.clone(), c2.clone()]);
    let edges_rev = gen.generate_edges(&[c2.clone(), c1.clone()]);
    assert_eq!(edges_fwd.len(), edges_rev.len());
    assert_eq!(edges_fwd[0].from_hash, edges_rev[0].from_hash);
    assert_eq!(edges_fwd[0].to_hash, edges_rev[0].to_hash);
    assert_eq!(edges_fwd[0].relation, edges_rev[0].relation);
}

#[test]
fn test_auto_edge_no_embedding_skipped() {
    let c1 = make_test_claim(b"with_emb", 0, Some(make_embedding(1)));
    let c2 = make_test_claim(b"no_emb", 1, None);
    let gen = AutoEdgeGenerator::new(AutoEdgeConfig::default());
    assert!(gen.generate_edges(&[c1, c2]).is_empty());
}

#[test]
fn test_auto_edge_max_k_cap() {
    let base = make_embedding(42);
    let claims: Vec<Claim> = (0..20u64)
        .map(|i| {
            let emb = make_nearby_embedding(&base, (i % 5) as u32);
            make_test_claim(format!("sensor_{}", i).as_bytes(), i, Some(emb))
        })
        .collect();
    let config = AutoEdgeConfig { max_k_nearest: 5, ..Default::default() };
    let gen = AutoEdgeGenerator::new(config);
    let edges = gen.generate_edges(&claims);
    let mut per_claim: std::collections::HashMap<ClaimHash, usize> = std::collections::HashMap::new();
    for e in &edges {
        *per_claim.entry(e.from_hash).or_insert(0) += 1;
        *per_claim.entry(e.to_hash).or_insert(0) += 1;
    }
    for (id, count) in &per_claim {
        assert!(*count <= 5, "claim {:?} has {} edges, max_k=5", &id[..4], count);
    }
}

#[test]
fn test_auto_edge_strength_gradient() {
    let base = make_embedding(42);
    let very_close = make_nearby_embedding(&base, 2);
    let barely_supports = make_nearby_embedding(&base, 28);
    let c0 = make_test_claim(b"base", 0, Some(base));
    let c1 = make_test_claim(b"close", 1, Some(very_close));
    let c2 = make_test_claim(b"barely", 2, Some(barely_supports));
    let gen = AutoEdgeGenerator::new(AutoEdgeConfig::default());
    let edges_close = gen.generate_edges(&[c0.clone(), c1]);
    let edges_far = gen.generate_edges(&[c0, c2]);
    assert!(!edges_close.is_empty());
    assert!(!edges_far.is_empty());
    assert!(edges_close[0].strength.bps() > edges_far[0].strength.bps());
}

#[test]
fn test_auto_edge_empty_input() {
    let gen = AutoEdgeGenerator::new(AutoEdgeConfig::default());
    assert!(gen.generate_edges(&[]).is_empty());
}

#[test]
fn test_auto_edge_single_claim() {
    let c = make_test_claim(b"alone", 0, Some(make_embedding(1)));
    let gen = AutoEdgeGenerator::new(AutoEdgeConfig::default());
    assert!(gen.generate_edges(&[c]).is_empty());
}

#[test]
fn test_embedding_version_mismatch_no_edges() {
    let base = make_embedding(42);
    let nearby = make_nearby_embedding(&base, 5);
    let mut c1 = make_test_claim(b"sensor_a", 0, Some(base));
    let mut c2 = make_test_claim(b"sensor_b", 1, Some(nearby));
    c1.embedding_version = 1;
    c2.embedding_version = 2;
    let gen = AutoEdgeGenerator::new(AutoEdgeConfig::default());
    assert!(gen.generate_edges(&[c1, c2]).is_empty());
}

#[test]
fn test_embedding_version_same_produces_edges() {
    let base = make_embedding(42);
    let nearby = make_nearby_embedding(&base, 5);
    let mut c1 = make_test_claim(b"sensor_a", 0, Some(base));
    let mut c2 = make_test_claim(b"sensor_b", 1, Some(nearby));
    c1.embedding_version = 1;
    c2.embedding_version = 1;
    let gen = AutoEdgeGenerator::new(AutoEdgeConfig::default());
    assert_eq!(gen.generate_edges(&[c1, c2]).len(), 1);
}

#[test]
fn auto_edge_strength_exact_values() {
    // distance 10 of threshold 30: 10000 - 10 * 9000 / 30 = 7000
    let base = QuantizedEmbedding::new([0, 0, 0, 0]);
    let near = QuantizedEmbedding::new([0x3ff, 0, 0, 0]);
    let c1 = make_test_claim(b"a", 0, Some(base));
    let c2 = make_test_claim(b"b", 1, Some(near));
    let gen = AutoEdgeGenerator::new(AutoEdgeConfig::default());
    let edges = gen.generate_edges(&[c1, c2]);
    assert_eq!(edges.len(), 1);
    assert_eq!(edges[0].strength.bps(), 7000);
    // distance 256 with threshold 200: 1000 + 56 * 9000 / 56 = 10000
    let c3 = make_test_claim(b"c", 2, Some(QuantizedEmbedding::zero()));
    let c4 = make_test_claim(b"d", 3, Some(QuantizedEmbedding::ones()));
    let edges = gen.generate_edges(&[c3, c4]);
    assert_eq!(edges.len(), 1);
    assert_eq!(edges[0].relation, Relation::Contradicts);
    assert_eq!(edges[0].strength.bps(), 10000);
}

#[test]
fn generated_edges_run_from_smaller_to_larger_id_with_bounded_strength() {
    let base = make_embedding(7);
    let claims: Vec<Claim> = (0..6u64)
        .map(|k| {
            let emb = make_nearby_embedding(&base, (k as u32) * 45);
            make_test_claim(format!("sensor_{}", k).as_bytes(), k, Some(emb))
        })
        .collect();
    let cfg = AutoEdgeConfig::default();
    let gen = AutoEdgeGenerator::new(cfg);
    let edges = gen.generate_edges(&claims);
    assert!(!edges.is_empty());
    for e in &edges {
        assert!(e.from_hash < e.to_hash);
        let a = claims.iter().find(|c| c.id == e.from_hash).unwrap();
        let b = claims.iter().find(|c| c.id == e.to_hash).unwrap();
        let d = a.embedding.unwrap().hamming_distance(&b.embedding.unwrap());
        match e.relation {
            Relation::Supports => assert!(d <= cfg.support_threshold_bits),
            Relation::Contradicts => assert!(d >= cfg.contradict_threshold_bits),
            _ => panic!("unexpected relation"),
        }
        assert!((1000..=10000).contains(&e.strength.bps()));
    }
}
