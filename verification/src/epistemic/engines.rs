//! Belief classification, relevance scoring and conflict resolution.
use vstd::prelude::*;
use std::collections::HashMap;
use crate::epistemic::claim::{same_claim, BeliefState, Claim, ContradictionOutcome, Resolution};
use crate::epistemic::graph::{count_incoming, dependents_spec, KnowledgeGraph};
use crate::epistemic::logodds::{weight_spec, LogOdds, Reputation};
use crate::epistemic::claim::{EpistemicEdge, Relation};
use crate::epistemic::reputation::ReputationTracker;
use crate::epistemic::trust::{halve, propagated, MAX_PROPAGATION_EDGES};
use crate::epistemic::trust_map::{get0, lo_view};

verus! {

/// Reputation-weighted confidence of each claim, keyed by arena index.
pub open spec fn weighted_base(claims: Seq<Claim>, rep: spec_fn([u8; 32]) -> Reputation) -> Map<
    u32,
    int,
> {
    Map::new(
        |k: u32| (k as int) < claims.len(),
        |k: u32| weight_spec(rep(claims[k as int].origin)@ as int, claims[k as int].confidence@ as int),
    )
}

/// The arena indices below `n` whose final log-odds `sel` selects.
pub open spec fn classified(p: Map<u32, int>, n: int, sel: spec_fn(int) -> bool) -> Seq<u32>
    decreases n,
{
    if n <= 0 {
        Seq::empty()
    } else if sel(get0(p, (n - 1) as u32)) {
        classified(p, n - 1, sel).push((n - 1) as u32)
    } else {
        classified(p, n - 1, sel)
    }
}

/// Computes belief state from claims and the epistemic graph.
pub trait BeliefEngine {
    fn compute<R: ReputationTracker>(
        &self,
        claims: &[Claim],
        graph: &KnowledgeGraph,
        reputations: &R,
    ) -> (r: BeliefState)
        requires
            graph@.len() <= MAX_PROPAGATION_EDGES,
            claims@.len() <= u32::MAX,
    ;
}

/// Log-odds belief engine: classifies claims into accepted, rejected and uncertain.
pub struct LogOddsBeliefEngine {
    /// Log-odds threshold for acceptance
    pub accept_threshold: LogOdds,
    /// Log-odds threshold for rejection
    pub reject_threshold: LogOdds,
    /// Largest share of positive trust that contradictions can remove (basis points)
    pub max_contradiction_damping_bps: u16,
}

impl Default for LogOddsBeliefEngine {
    fn default() -> (r: Self)
        ensures
            r.accept_threshold@ == 2197,
            r.reject_threshold@ == -2197,
            r.max_contradiction_damping_bps == 5000,
    {
        LogOddsBeliefEngine {
            accept_threshold: LogOdds::new(2197),
            reject_threshold: LogOdds::new(-2197),
            max_contradiction_damping_bps: 5000,
        }
    }
}

impl LogOddsBeliefEngine {
    /// Final log-odds of every claim after trust propagation over five rounds.
    pub open spec fn final_trust(
        &self,
        claims: Seq<Claim>,
        edges: Seq<crate::epistemic::claim::EpistemicEdge>,
        rep: spec_fn([u8; 32]) -> Reputation,
    ) -> Map<u32, int> {
        propagated(
            weighted_base(claims, rep),
            5,
            self.max_contradiction_damping_bps,
            edges,
            claims,
            rep,
            0,
            0,
        )
    }
}

impl BeliefEngine for LogOddsBeliefEngine {
    /// Each claim's confidence is weighted by its author's reputation and
    /// propagated through the graph; a claim is accepted strictly above
    /// the acceptance threshold, else rejected strictly below the rejection
    /// threshold, else uncertain.
    fn compute<R: ReputationTracker>(
        &self,
        claims: &[Claim],
        graph: &KnowledgeGraph,
        reputations: &R,
    ) -> (r: BeliefState)
        ensures
            r.accepted@ == classified(
                self.final_trust(claims@, graph@, |o: [u8; 32]| reputations.reputation_of(o)),
                claims@.len() as int,
                |v: int| v > self.accept_threshold@,
            ),
            r.rejected@ == classified(
                self.final_trust(claims@, graph@, |o: [u8; 32]| reputations.reputation_of(o)),
                claims@.len() as int,
                |v: int| !(v > self.accept_threshold@) && v < self.reject_threshold@,
            ),
            r.uncertain@ == classified(
                self.final_trust(claims@, graph@, |o: [u8; 32]| reputations.reputation_of(o)),
                claims@.len() as int,
                |v: int| !(v > self.accept_threshold@) && !(v < self.reject_threshold@),
            ),
    {
        broadcast use vstd::std_specs::hash::group_hash_axioms;

        let ghost rep = |o: [u8; 32]| reputations.reputation_of(o);
        let mut base: HashMap<u32, LogOdds> = HashMap::new();
        let mut i: usize = 0;
        while i < claims.len()
            invariant
                i <= claims@.len(),
                claims@.len() <= u32::MAX,
                rep == (|o: [u8; 32]| reputations.reputation_of(o)),
                lo_view(base@) == Map::new(
                    |k: u32| (k as int) < i,
                    |k: u32|
                        weight_spec(
                            rep(claims@[k as int].origin)@ as int,
                            claims@[k as int].confidence@ as int,
                        ),
                ),
            decreases claims@.len() - i,
        {
            let rp = reputations.reputation(&claims[i].origin);
            let w = rp.weight_evidence(claims[i].confidence);
            let ghost b0 = base@;
            base.insert(i as u32, w);
            proof {
                assert(rep(claims@[i as int].origin) == rp);
                assert((i as u32) as int == i);
                assert(lo_view(base@) =~= lo_view(b0).insert(i as u32, w@ as int));
                assert(lo_view(base@) =~= Map::new(
                    |k: u32| (k as int) < i + 1,
                    |k: u32|
                        weight_spec(
                            rep(claims@[k as int].origin)@ as int,
                            claims@[k as int].confidence@ as int,
                        ),
                ));
            }
            i = i + 1;
        }
        proof {
            assert(lo_view(base@) =~= weighted_base(claims@, rep));
        }
        let propagated = graph.propagate_trust_full(
            &base,
            5,
            self.max_contradiction_damping_bps,
            claims,
            reputations,
        );
        let ghost p = lo_view(propagated@);
        let accept = self.accept_threshold.value();
        let reject = self.reject_threshold.value();
        let mut accepted: Vec<u32> = Vec::new();
        let mut rejected: Vec<u32> = Vec::new();
        let mut uncertain: Vec<u32> = Vec::new();
        let mut j: usize = 0;
        while j < claims.len()
            invariant
                j <= claims@.len(),
                claims@.len() <= u32::MAX,
                p == lo_view(propagated@),
                accept == self.accept_threshold@,
                reject == self.reject_threshold@,
                accepted@ == classified(p, j as int, |v: int| v > self.accept_threshold@),
                rejected@ == classified(
                    p,
                    j as int,
                    |v: int| !(v > self.accept_threshold@) && v < self.reject_threshold@,
                ),
                uncertain@ == classified(
                    p,
                    j as int,
                    |v: int| !(v > self.accept_threshold@) && !(v < self.reject_threshold@),
                ),
            decreases claims@.len() - j,
        {
            let id = j as u32;
            let v: i32 = match propagated.get(&id) {
                Some(x) => x.value(),
                None => 0,
            };
            proof {
                assert(v == get0(p, id));
            }
            if v > accept {
                accepted.push(id);
            } else if v < reject {
                rejected.push(id);
            } else {
                uncertain.push(id);
            }
            j = j + 1;
        }
        BeliefState { accepted, rejected, uncertain }
    }
}

/// Scores claim relevance for semantic garbage collection.
pub trait RelevanceScorer {
    fn score(&self, claim: &Claim, active_intents: &[Claim], graph: &KnowledgeGraph) -> (r: u16)
        requires
            graph@.len() <= u32::MAX,
    ;

    fn gc_threshold(&self) -> (r: u16)
        ensures
            r == 1000,
    {
        1000
    }
}

/// Dependency-aware relevance scorer.
pub struct DependencyAwareScorer {
    pub half_life_ticks: u64,
}

impl Default for DependencyAwareScorer {
    fn default() -> (r: Self)
        ensures
            r.half_life_ticks == 1000,
    {
        DependencyAwareScorer { half_life_ticks: 1000 }
    }
}

/// The latest tick among the intents, or `fallback` when there are none.
pub open spec fn latest_tick(intents: Seq<Claim>, fallback: u64) -> int
    decreases intents.len(),
{
    if intents.len() == 0 {
        fallback as int
    } else if intents.len() == 1 {
        intents[0].tick as int
    } else {
        let m = latest_tick(intents.drop_last(), fallback);
        if intents.last().tick as int > m {
            intents.last().tick as int
        } else {
            m
        }
    }
}

impl DependencyAwareScorer {
    /// The relevance of a claim (scored as the claim at arena index 0):
    /// 10000 when anything depends on it; 8000 when it has support; 500 when
    /// it is contradicted; else 10000 halved per elapsed half-life since the
    /// latest active intent (0 after 14 half-lives, or with no half-life).
    pub open spec fn score_spec(
        &self,
        claim: Claim,
        intents: Seq<Claim>,
        edges: Seq<crate::epistemic::claim::EpistemicEdge>,
    ) -> int {
        let supports = count_incoming(edges, 0, Relation::Supports, edges.len() as int);
        let contradicts = count_incoming(edges, 0, Relation::Contradicts, edges.len() as int);
        if dependents_spec(edges, 0).len() > 0 {
            10000
        } else if supports > 0 {
            8000
        } else if contradicts > supports {
            500
        } else if self.half_life_ticks == 0 {
            0
        } else {
            let now = latest_tick(intents, claim.tick);
            let age = if now >= claim.tick {
                now - claim.tick
            } else {
                0
            };
            let steps = age / (self.half_life_ticks as int);
            if steps >= 14 {
                0
            } else {
                halve(10000, steps as nat)
            }
        }
    }
}

impl RelevanceScorer for DependencyAwareScorer {
    fn score(&self, claim: &Claim, active_intents: &[Claim], graph: &KnowledgeGraph) -> (r: u16)
        ensures
            r == self.score_spec(*claim, active_intents@, graph@),
    {
        let claim_arena_id: u32 = 0;
        let dependents = graph.dependents(claim_arena_id);
        if dependents.len() > 0 {
            return 10000;
        }
        let (supports, contradicts) = graph.support_ratio(claim_arena_id);
        if supports > 0 {
            return 8000;
        }
        if contradicts > supports {
            return 500;
        }
        let mut current_tick = claim.tick;
        let mut i: usize = 0;
        while i < active_intents.len()
            invariant
                i <= active_intents@.len(),
                current_tick == latest_tick(active_intents@.take(i as int), claim.tick),
            decreases active_intents@.len() - i,
        {
            proof {
                assert(active_intents@.take(i + 1).drop_last() =~= active_intents@.take(i as int));
            }
            let t = active_intents[i].tick;
            if i == 0 || t > current_tick {
                current_tick = t;
            }
            i = i + 1;
        }
        proof {
            assert(active_intents@.take(i as int) =~= active_intents@);
        }
        let age = current_tick.saturating_sub(claim.tick);
        if self.half_life_ticks == 0 {
            return 0;
        }
        let decay_steps = age / self.half_life_ticks;
        if decay_steps >= 14 {
            0
        } else {
            let mut v: u16 = 10000;
            let mut k: u64 = 0;
            while k < decay_steps
                invariant
                    k <= decay_steps,
                    v == halve(10000, k as nat),
                    0 <= v <= 10000,
                decreases decay_steps - k,
            {
                v = v / 2;
                k = k + 1;
            }
            v
        }
    }
}

/// Resolves conflicting intents.
pub trait IntentResolver {
    fn resolve<R: ReputationTracker>(&self, intents: &[Claim], reputations: &R) -> (r: Resolution);
}

/// Index of the winning intent among the first `n`: highest
/// reputation-weighted confidence, then earliest tick; the last among equals.
pub open spec fn winner_index(intents: Seq<Claim>, rep: spec_fn([u8; 32]) -> Reputation, n: int) -> int
    decreases n,
{
    if n <= 1 {
        0
    } else {
        let b = winner_index(intents, rep, n - 1);
        if intent_key_ge(intents[n - 1], intents[b], rep) {
            n - 1
        } else {
            b
        }
    }
}

pub open spec fn intent_weight(c: Claim, rep: spec_fn([u8; 32]) -> Reputation) -> int {
    weight_spec(rep(c.origin)@ as int, c.confidence@ as int)
}

pub open spec fn intent_key_ge(a: Claim, b: Claim, rep: spec_fn([u8; 32]) -> Reputation) -> bool {
    intent_weight(a, rep) > intent_weight(b, rep) || (intent_weight(a, rep) == intent_weight(b, rep)
        && u64::MAX - a.tick >= u64::MAX - b.tick)
}

proof fn lemma_winner_range(intents: Seq<Claim>, rep: spec_fn([u8; 32]) -> Reputation, n: int)
    requires
        1 <= n,
    ensures
        0 <= winner_index(intents, rep, n) < n,
    decreases n,
{
    if n > 1 {
        lemma_winner_range(intents, rep, n - 1);
    }
}

/// Reputation-weighted intent resolver.
pub struct ReputationWeightedResolver;

impl IntentResolver for ReputationWeightedResolver {
    /// The intent with the highest reputation-weighted confidence wins (on
    /// ties, the earliest; among full ties, the last); with no intents the
    /// conflict is escalated.
    fn resolve<R: ReputationTracker>(&self, intents: &[Claim], reputations: &R) -> (r: Resolution)
        ensures
            intents@.len() == 0 ==> (r matches Resolution::Escalate { reason, conflicting }
                && reason@ == "No intents"@ && conflicting@.len() == 0),
            intents@.len() > 0 ==> (r matches Resolution::Winner(c) && same_claim(
                c,
                intents@[winner_index(
                    intents@,
                    |o: [u8; 32]| reputations.reputation_of(o),
                    intents@.len() as int,
                )],
            )),
    {
        let ghost rep = |o: [u8; 32]| reputations.reputation_of(o);
        if intents.len() == 0 {
            return Resolution::Escalate {
                reason: String::from_str("No intents"),
                conflicting: Vec::new(),
            };
        }
        let mut best: usize = 0;
        let mut best_w: i32 = reputations.reputation(&intents[0].origin).weight_evidence(
            intents[0].confidence,
        ).value();
        let mut i: usize = 1;
        while i < intents.len()
            invariant
                1 <= i <= intents@.len(),
                rep == (|o: [u8; 32]| reputations.reputation_of(o)),
                best == winner_index(intents@, rep, i as int),
                best < i,
                best_w == intent_weight(intents@[best as int], rep),
            decreases intents@.len() - i,
        {
            let w = reputations.reputation(&intents[i].origin).weight_evidence(
                intents[i].confidence,
            ).value();
            if w > best_w || (w == best_w && u64::MAX - intents[i].tick >= u64::MAX
                - intents[best].tick) {
                best = i;
                best_w = w;
            }
            i = i + 1;
        }
        Resolution::Winner(intents[best].duplicate())
    }
}

/// Resolves contradictions between two claims.
pub trait ContradictionResolver {
    fn resolve<R: ReputationTracker>(
        &self,
        claim_a: &Claim,
        claim_b: &Claim,
        graph: &KnowledgeGraph,
        reputations: &R,
    ) -> (r: ContradictionOutcome)
        requires
            graph@.len() <= u32::MAX,
    ;
}

/// Evidence-weighted contradiction resolver.
pub struct EvidenceWeightedContradictionResolver;

/// Score of a claim: reputation-weighted confidence plus 500 per support.
pub open spec fn contradiction_score(weighted: int, supports: int) -> int {
    weighted + supports * 500
}

impl ContradictionResolver for EvidenceWeightedContradictionResolver {
    /// Each claim scores its reputation-weighted confidence plus 500 per
    /// Supports edge into arena index 0 (for `claim_a`) or 1 (for
    /// `claim_b`); a lead of more than 1000 wins and the other claim takes
    /// a penalty of -2000; otherwise the outcome is undecided.
    fn resolve<R: ReputationTracker>(
        &self,
        claim_a: &Claim,
        claim_b: &Claim,
        graph: &KnowledgeGraph,
        reputations: &R,
    ) -> (r: ContradictionOutcome)
        ensures
            ({
                let rep = |o: [u8; 32]| reputations.reputation_of(o);
                let sa = contradiction_score(
                    intent_weight(*claim_a, rep),
                    count_incoming(graph@, 0, Relation::Supports, graph@.len() as int) as int,
                );
                let sb = contradiction_score(
                    intent_weight(*claim_b, rep),
                    count_incoming(graph@, 1, Relation::Supports, graph@.len() as int) as int,
                );
                if sa > sb + 1000 {
                    (r matches ContradictionOutcome::PreferA { b_penalty } && b_penalty@ == -2000)
                } else if sb > sa + 1000 {
                    (r matches ContradictionOutcome::PreferB { a_penalty } && a_penalty@ == -2000)
                } else {
                    r is Undecided
                }
            }),
    {
        let rep_a = reputations.reputation(&claim_a.origin);
        let rep_b = reputations.reputation(&claim_b.origin);
        let weighted_a = rep_a.weight_evidence(claim_a.confidence);
        let weighted_b = rep_b.weight_evidence(claim_b.confidence);
        let (supports_a, _) = graph.support_ratio(0);
        let (supports_b, _) = graph.support_ratio(1);
        let score_a = weighted_a.value() as i64 + supports_a as i64 * 500;
        let score_b = weighted_b.value() as i64 + supports_b as i64 * 500;
        if score_a > score_b + 1000 {
            ContradictionOutcome::PreferA { b_penalty: LogOdds::new(-2000) }
        } else if score_b > score_a + 1000 {
            ContradictionOutcome::PreferB { a_penalty: LogOdds::new(-2000) }
        } else {
            ContradictionOutcome::Undecided
        }
    }
}

proof fn lemma_count_incoming_push(edges: Seq<EpistemicEdge>, e: EpistemicEdge, node: u32, rel: Relation, n: int)
    requires
        n <= edges.len(),
    ensures
        count_incoming(edges.push(e), node, rel, n) == count_incoming(edges, node, rel, n),
    decreases n,
{
    if n > 0 {
        lemma_count_incoming_push(edges, e, node, rel, n - 1);
        assert(edges.push(e)[n - 1] == edges[n - 1]);
    }
}

/// The contradiction score counts each Supports edge into a claim as
/// exactly 500 on top of its reputation-weighted confidence: without edges
/// the score is the weighted confidence, adding a Supports edge into the
/// claim raises it by 500, and adding any other edge leaves it.
pub proof fn law_support_adds_500(w: int, edges: Seq<EpistemicEdge>, e: EpistemicEdge, node: u32)
    ensures
        contradiction_score(w, count_incoming(Seq::<EpistemicEdge>::empty(), node, Relation::Supports, 0) as int)
            == w,
        contradiction_score(
            w,
            count_incoming(edges.push(e), node, Relation::Supports, edges.len() + 1int) as int,
        ) == contradiction_score(w, count_incoming(edges, node, Relation::Supports, edges.len() as int) as int)
            + if e.to == node && e.relation == Relation::Supports {
            500int
        } else {
            0int
        },
{
    lemma_count_incoming_push(edges, e, node, Relation::Supports, edges.len() as int);
    assert(edges.push(e)[edges.len() as int] == e);
}

/// With equal reputation-weighted confidence, a claim with at least three
/// more Supports edges than the other scores more than 1000 above it, so
/// the resolver prefers it; with equal supports, the claim whose weighted
/// confidence is more than 1000 higher is preferred.
pub proof fn law_supports_decide(wa: int, wb: int, na: int, nb: int)
    ensures
        (wa == wb && na >= nb + 3) ==> contradiction_score(wa, na) > contradiction_score(wb, nb) + 1000,
        (wa == wb && nb >= na + 3) ==> contradiction_score(wb, nb) > contradiction_score(wa, na) + 1000,
        (na == nb && wa > wb + 1000) ==> contradiction_score(wa, na) > contradiction_score(wb, nb) + 1000,
        (wa == wb && na == nb + 2) ==> contradiction_score(wa, na) == contradiction_score(wb, nb) + 1000,
{
}

} // verus!
