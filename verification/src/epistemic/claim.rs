use vstd::prelude::*;
use crate::epistemic::logodds::{ClaimHash, CorrelationCell, LogOdds, Reputation, Utility};
use crate::ordering::hash_eq;
use crate::semantic_topology::QuantizedEmbedding;

verus! {

/// In-memory arena reference (4 bytes) for graph traversal.
pub type ClaimArenaId = u32;

/// Dual-key semantic fingerprint for robust grouping.
/// `primary`: hash of normalized content (exact match).
/// `secondary`: hash of discrete features (fuzzy match).
#[derive(Clone, Copy, Debug, PartialEq, Eq, Hash)]
pub struct SemanticFingerprint {
    /// Hash of normalized content (exact semantic match)
    pub primary: [u8; 16],
    /// Hash of discrete features: sensor_type, unit, dimension (fuzzy match)
    pub secondary: u64,
}

/// A knowledge claim with cryptographic provenance and log-odds confidence.
#[derive(Debug, Clone)]
pub struct Claim {
    /// Unique hash of the canonical form
    pub id: ClaimHash,
    /// Dual-key semantic fingerprint
    pub fingerprint: SemanticFingerprint,
    /// Ed25519 public key of the claiming agent
    pub origin: [u8; 32],
    /// What is being claimed
    pub kind: ClaimKind,
    /// Self-declared confidence in log-odds
    pub confidence: LogOdds,
    /// Hash of the original evidence source (anti Sybil amplification)
    pub evidence_source: ClaimHash,
    /// Lamport timestamp
    pub tick: u64,
    /// Optional correlation cell: claims in the same cell are discounted
    pub correlation_cell: Option<CorrelationCell>,
    /// Optional quantized embedding used for automatic edge generation
    pub embedding: Option<QuantizedEmbedding>,
    /// Embedding model version; only equal versions are compared
    pub embedding_version: u32,
}

/// The semantic type of a claim.
#[derive(Debug, Clone)]
pub enum ClaimKind {
    /// Raw observation from a sensor or agent perception
    Observation { sensor_type: u8, data: Vec<u8> },
    /// Inference derived from one or more observations
    Inference {
        model_id: ClaimHash,
        input_claims: Vec<ClaimArenaId>,
        inference_type: u8,
        weight: LogOdds,
        output: Vec<u8>,
        reproducible: bool,
        deterministic_hash: ClaimHash,
    },
    /// Intent to perform an action
    Intent {
        action: u8,
        target: Vec<u8>,
        constraints: Vec<(u8, u16)>,
        goal: u8,
        utility: Utility,
    },
    /// Summary produced by a semantic reducer
    Summary {
        source_count: u32,
        tick_start: u64,
        tick_end: u64,
        data: Vec<u8>,
        aggregated_logodds: LogOdds,
        unique_sources: u32,
        /// Variance of the input log-odds values
        variance_milli: i64,
        /// Smallest input log-odds
        range_min: LogOdds,
        /// Largest input log-odds
        range_max: LogOdds,
    },
}

/// Two claim kinds carry the same values (byte vectors compared by content).
pub open spec fn same_kind(a: ClaimKind, b: ClaimKind) -> bool {
    match (a, b) {
        (
            ClaimKind::Observation { sensor_type: s1, data: d1 },
            ClaimKind::Observation { sensor_type: s2, data: d2 },
        ) => s1 == s2 && d1@ == d2@,
        (
            ClaimKind::Inference {
                model_id: m1,
                input_claims: i1,
                inference_type: t1,
                weight: w1,
                output: o1,
                reproducible: r1,
                deterministic_hash: h1,
            },
            ClaimKind::Inference {
                model_id: m2,
                input_claims: i2,
                inference_type: t2,
                weight: w2,
                output: o2,
                reproducible: r2,
                deterministic_hash: h2,
            },
        ) => m1 == m2 && i1@ == i2@ && t1 == t2 && w1 == w2 && o1@ == o2@ && r1 == r2 && h1 == h2,
        (
            ClaimKind::Intent { action: a1, target: t1, constraints: c1, goal: g1, utility: u1 },
            ClaimKind::Intent { action: a2, target: t2, constraints: c2, goal: g2, utility: u2 },
        ) => a1 == a2 && t1@ == t2@ && c1@ == c2@ && g1 == g2 && u1 == u2,
        (
            ClaimKind::Summary {
                source_count: a1,
                tick_start: b1,
                tick_end: c1,
                data: d1,
                aggregated_logodds: e1,
                unique_sources: f1,
                variance_milli: g1,
                range_min: h1,
                range_max: i1,
            },
            ClaimKind::Summary {
                source_count: a2,
                tick_start: b2,
                tick_end: c2,
                data: d2,
                aggregated_logodds: e2,
                unique_sources: f2,
                variance_milli: g2,
                range_min: h2,
                range_max: i2,
            },
        ) => a1 == a2 && b1 == b2 && c1 == c2 && d1@ == d2@ && e1 == e2 && f1 == f2 && g1 == g2
            && h1 == h2 && i1 == i2,
        _ => false,
    }
}

/// Two claims carry the same values.
pub open spec fn same_claim(a: Claim, b: Claim) -> bool {
    &&& a.id == b.id
    &&& a.fingerprint == b.fingerprint
    &&& a.origin == b.origin
    &&& same_kind(a.kind, b.kind)
    &&& a.confidence == b.confidence
    &&& a.evidence_source == b.evidence_source
    &&& a.tick == b.tick
    &&& a.correlation_cell == b.correlation_cell
    &&& a.embedding == b.embedding
    &&& a.embedding_version == b.embedding_version
}

pub open spec fn is_summary(k: ClaimKind) -> bool {
    k is Summary
}

/// Copy a byte vector.
pub fn copy_bytes(v: &Vec<u8>) -> (r: Vec<u8>)
    ensures
        r@ == v@,
{
    let mut r: Vec<u8> = Vec::new();
    let mut i: usize = 0;
    while i < v.len()
        invariant
            i <= v@.len(),
            r@ == v@.take(i as int),
        decreases v@.len() - i,
    {
        r.push(v[i]);
        i = i + 1;
        proof {
            assert(r@ =~= v@.take(i as int));
        }
    }
    proof {
        assert(v@.take(i as int) =~= v@);
    }
    r
}

fn copy_ids(v: &Vec<ClaimArenaId>) -> (r: Vec<ClaimArenaId>)
    ensures
        r@ == v@,
{
    let mut r: Vec<ClaimArenaId> = Vec::new();
    let mut i: usize = 0;
    while i < v.len()
        invariant
            i <= v@.len(),
            r@ == v@.take(i as int),
        decreases v@.len() - i,
    {
        r.push(v[i]);
        i = i + 1;
        proof {
            assert(r@ =~= v@.take(i as int));
        }
    }
    proof {
        assert(v@.take(i as int) =~= v@);
    }
    r
}

fn copy_constraints(v: &Vec<(u8, u16)>) -> (r: Vec<(u8, u16)>)
    ensures
        r@ == v@,
{
    let mut r: Vec<(u8, u16)> = Vec::new();
    let mut i: usize = 0;
    while i < v.len()
        invariant
            i <= v@.len(),
            r@ == v@.take(i as int),
        decreases v@.len() - i,
    {
        r.push(v[i]);
        i = i + 1;
        proof {
            assert(r@ =~= v@.take(i as int));
        }
    }
    proof {
        assert(v@.take(i as int) =~= v@);
    }
    r
}

impl ClaimKind {
    /// A copy of this claim kind.
    pub fn duplicate(&self) -> (r: ClaimKind)
        ensures
            same_kind(r, *self),
    {
        match self {
            ClaimKind::Observation { sensor_type, data } => ClaimKind::Observation {
                sensor_type: *sensor_type,
                data: copy_bytes(data),
            },
            ClaimKind::Inference {
                model_id,
                input_claims,
                inference_type,
                weight,
                output,
                reproducible,
                deterministic_hash,
            } => ClaimKind::Inference {
                model_id: *model_id,
                input_claims: copy_ids(input_claims),
                inference_type: *inference_type,
                weight: *weight,
                output: copy_bytes(output),
                reproducible: *reproducible,
                deterministic_hash: *deterministic_hash,
            },
            ClaimKind::Intent { action, target, constraints, goal, utility } => ClaimKind::Intent {
                action: *action,
                target: copy_bytes(target),
                constraints: copy_constraints(constraints),
                goal: *goal,
                utility: *utility,
            },
            ClaimKind::Summary {
                source_count,
                tick_start,
                tick_end,
                data,
                aggregated_logodds,
                unique_sources,
                variance_milli,
                range_min,
                range_max,
            } => ClaimKind::Summary {
                source_count: *source_count,
                tick_start: *tick_start,
                tick_end: *tick_end,
                data: copy_bytes(data),
                aggregated_logodds: *aggregated_logodds,
                unique_sources: *unique_sources,
                variance_milli: *variance_milli,
                range_min: *range_min,
                range_max: *range_max,
            },
        }
    }
}

impl Claim {
    /// A copy of this claim.
    pub fn duplicate(&self) -> (r: Claim)
        ensures
            same_claim(r, *self),
    {
        Claim {
            id: self.id,
            fingerprint: self.fingerprint,
            origin: self.origin,
            kind: self.kind.duplicate(),
            confidence: self.confidence,
            evidence_source: self.evidence_source,
            tick: self.tick,
            correlation_cell: self.correlation_cell,
            embedding: self.embedding,
            embedding_version: self.embedding_version,
        }
    }
}

/// Equality of fingerprints, field by field.
pub fn fingerprint_eq(a: &SemanticFingerprint, b: &SemanticFingerprint) -> (r: bool)
    ensures
        r == (*a == *b),
{
    if a.secondary != b.secondary {
        return false;
    }
    let mut i: usize = 0;
    while i < 16
        invariant
            i <= 16,
            a.primary@.len() == 16,
            b.primary@.len() == 16,
            forall|j: int| 0 <= j < i ==> a.primary@[j] == b.primary@[j],
        decreases 16 - i,
    {
        if a.primary[i] != b.primary[i] {
            return false;
        }
        i = i + 1;
    }
    proof {
        broadcast use vstd::array::axiom_array_ext_equal;

        assert(a.primary =~= b.primary);
    }
    true
}

/// Edge in the epistemic knowledge graph. `strength` scales the trust that
/// flows through the edge.
#[derive(Clone, Copy, Debug)]
pub struct EpistemicEdge {
    pub from: ClaimArenaId,
    pub to: ClaimArenaId,
    pub relation: Relation,
    /// Confidence of the agent creating this relationship (dynamic decay).
    pub strength: Reputation,
}

#[derive(Clone, Copy, Debug, PartialEq, Eq, Structural)]
pub enum Relation {
    Supports,
    Contradicts,
    DerivedFrom,
    SharedSource,
}

/// Supports and DerivedFrom edges carry positive trust.
pub open spec fn is_support(r: Relation) -> bool {
    r is Supports || r is DerivedFrom
}

/// `is_support` as an executable test.
pub fn relation_is_support(r: Relation) -> (b: bool)
    ensures
        b == is_support(r),
{
    match r {
        Relation::Supports => true,
        Relation::DerivedFrom => true,
        _ => false,
    }
}

/// A raw edge as transmitted over the network, carrying both cryptographic
/// ids and semantic fingerprints for hybrid edge resolution.
#[derive(Clone, Copy, Debug)]
pub struct RawEpistemicEdge {
    pub from_hash: ClaimHash,
    pub from_fingerprint: SemanticFingerprint,
    pub to_hash: ClaimHash,
    pub to_fingerprint: SemanticFingerprint,
    pub relation: Relation,
    pub strength: Reputation,
}

/// The epistemic state of the node: what it believes true, false or uncertain.
#[derive(Debug, Clone)]
pub struct BeliefState {
    /// Claims believed to be true
    pub accepted: Vec<ClaimArenaId>,
    /// Claims believed to be false
    pub rejected: Vec<ClaimArenaId>,
    /// Claims with insufficient evidence either way
    pub uncertain: Vec<ClaimArenaId>,
}

#[derive(Clone, Copy, Debug)]
pub enum ReputationEvent {
    EquivocationDetected,
    ClaimConfirmed,
    ClaimContradicted,
    ActiveParticipation,
}

#[derive(Debug, Clone)]
pub enum Resolution {
    Winner(Claim),
    Compromise(Claim),
    Escalate { reason: String, conflicting: Vec<ClaimHash> },
}

#[derive(Clone, Copy, Debug)]
pub enum ContradictionOutcome {
    /// Keep A, downgrade B's confidence
    PreferA { b_penalty: LogOdds },
    /// Keep B, downgrade A's confidence
    PreferB { a_penalty: LogOdds },
    /// Both have merit, flag for human review
    Undecided,
}

} // verus!
