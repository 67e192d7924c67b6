pub mod claim;
pub mod acyclicity;
pub mod cycles;
pub mod engines;
pub mod graph;
pub mod logodds;
pub mod reducer;
pub mod reputation;
pub mod trust;
pub mod trust_map;

pub use self::claim::{
    BeliefState, Claim, ClaimArenaId, ClaimKind, ContradictionOutcome, EpistemicEdge,
    RawEpistemicEdge, Relation, ReputationEvent, Resolution, SemanticFingerprint,
};
pub use self::engines::{
    BeliefEngine, ContradictionResolver, DependencyAwareScorer,
    EvidenceWeightedContradictionResolver, IntentResolver, LogOddsBeliefEngine, RelevanceScorer,
    ReputationWeightedResolver,
};
pub use self::graph::KnowledgeGraph;
pub use self::logodds::{
    discount_factor, ClaimHash, ConfidenceInterval, CorrelationCell, Evidence, LogOdds,
    Reputation, Utility, DEFAULT_DISCOUNT_BPS, MAX_DISCOUNT_DEPTH,
};
pub use self::reducer::{ExactMatchReducer, SemanticReducer};
pub use self::reputation::{InMemoryReputationTracker, ReputationTracker};
