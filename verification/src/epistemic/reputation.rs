//! Peer reputation: the tracker interface and an in-memory tracker.
use vstd::prelude::*;
use crate::epistemic::claim::ReputationEvent;
use crate::epistemic::logodds::{min_int, Reputation};
use crate::ordering::hash_eq;

verus! {

/// Reputation tracker for peer nodes.
pub trait ReputationTracker {
    /// The reputation the tracker reports for a node.
    spec fn reputation_of(&self, origin: [u8; 32]) -> Reputation;

    fn reputation(&self, origin: &[u8; 32]) -> (r: Reputation)
        ensures
            r == self.reputation_of(*origin),
    ;

    fn update(&mut self, origin: &[u8; 32], event: ReputationEvent);

    /// Delegate trust to a new node (web of trust). Only nodes with
    /// reputation above zero can delegate; without delegation, new nodes
    /// have reputation 0 and zero voting weight.
    fn delegate(&mut self, from: &[u8; 32], to: &[u8; 32], initial_rep: Reputation);
}

/// The map that a list of `(node, reputation)` entries describes, later
/// entries overriding earlier ones.
pub open spec fn score_map(s: Seq<([u8; 32], Reputation)>) -> Map<[u8; 32], Reputation>
    decreases s.len(),
{
    if s.len() == 0 {
        Map::empty()
    } else {
        score_map(s.drop_last()).insert(s.last().0, s.last().1)
    }
}

/// A node's reputation in a score map; unknown nodes have zero reputation.
pub open spec fn score_of(m: Map<[u8; 32], Reputation>, origin: [u8; 32]) -> Reputation {
    if m.contains_key(origin) {
        m[origin]
    } else {
        Reputation::spec_from_bps(0)
    }
}

/// The reputation after an event, in basis points.
pub open spec fn after_event(current: int, event: ReputationEvent) -> int {
    match event {
        ReputationEvent::EquivocationDetected => 0,
        ReputationEvent::ClaimContradicted => if current >= 1000 {
            current - 1000
        } else {
            0
        },
        ReputationEvent::ClaimConfirmed => min_int(current + 200, 10000),
        ReputationEvent::ActiveParticipation => min_int(current + 50, 10000),
    }
}

/// The scores after `from` delegates `initial` to `to`: nothing happens
/// when `from` has zero reputation; otherwise `to` gets `initial` capped at
/// the reputation of `from`, and `from` then pays half of what it granted.
pub open spec fn after_delegation(
    m: Map<[u8; 32], Reputation>,
    from: [u8; 32],
    to: [u8; 32],
    initial: int,
) -> Map<[u8; 32], Reputation> {
    let d = score_of(m, from)@ as int;
    if d == 0 {
        m
    } else {
        let granted = min_int(initial, d);
        let cost = granted / 2;
        m.insert(to, Reputation::spec_from_bps(granted)).insert(
            from,
            Reputation::spec_from_bps(d - cost),
        )
    }
}

proof fn lemma_score_map_last(s: Seq<([u8; 32], Reputation)>, k: [u8; 32], i: int)
    requires
        0 <= i < s.len(),
        s[i].0 == k,
        forall|j: int| i < j < s.len() ==> s[j].0 != k,
    ensures
        score_map(s).contains_key(k),
        score_map(s)[k] == s[i].1,
    decreases s.len(),
{
    if i < s.len() - 1 {
        lemma_score_map_last(s.drop_last(), k, i);
    }
}

proof fn lemma_score_map_absent(s: Seq<([u8; 32], Reputation)>, k: [u8; 32])
    requires
        forall|j: int| 0 <= j < s.len() ==> s[j].0 != k,
    ensures
        !score_map(s).contains_key(k),
    decreases s.len(),
{
    if s.len() > 0 {
        lemma_score_map_absent(s.drop_last(), k);
    }
}

proof fn lemma_score_map_update(s: Seq<([u8; 32], Reputation)>, i: int, v: Reputation)
    requires
        0 <= i < s.len(),
        forall|j: int| i < j < s.len() ==> s[j].0 != s[i].0,
    ensures
        score_map(s.update(i, (s[i].0, v))) == score_map(s).insert(s[i].0, v),
    decreases s.len(),
{
    let k = s[i].0;
    let u = s.update(i, (k, v));
    if i == s.len() - 1 {
        assert(u.drop_last() =~= s.drop_last());
        assert(score_map(u) =~= score_map(s).insert(k, v));
    } else {
        lemma_score_map_update(s.drop_last(), i, v);
        assert(u.drop_last() =~= s.drop_last().update(i, (k, v)));
        assert(score_map(u) =~= score_map(s).insert(k, v));
    }
}

/// Simple in-memory reputation tracker.
pub struct InMemoryReputationTracker {
    scores: Vec<([u8; 32], Reputation)>,
}

impl View for InMemoryReputationTracker {
    type V = Map<[u8; 32], Reputation>;

    closed spec fn view(&self) -> Map<[u8; 32], Reputation> {
        score_map(self.scores@)
    }
}

impl InMemoryReputationTracker {
    pub fn new() -> (r: Self)
        ensures
            r@ == Map::<[u8; 32], Reputation>::empty(),
    {
        InMemoryReputationTracker { scores: Vec::new() }
    }

    /// Index of the last entry for `origin`.
    fn find(&self, origin: &[u8; 32]) -> (r: Option<usize>)
        ensures
            r matches Some(i) ==> i < self.scores@.len() && self.scores@[i as int].0 == *origin
                && forall|j: int| i < j < self.scores@.len() ==> self.scores@[j].0 != *origin,
            r is None ==> forall|j: int| 0 <= j < self.scores@.len() ==> self.scores@[j].0 != *origin,
    {
        let mut found: Option<usize> = None;
        let mut i: usize = 0;
        while i < self.scores.len()
            invariant
                i <= self.scores@.len(),
                found matches Some(f) ==> f < i && self.scores@[f as int].0 == *origin && forall|
                    j: int,
                | f < j < i ==> self.scores@[j].0 != *origin,
                found is None ==> forall|j: int| 0 <= j < i ==> self.scores@[j].0 != *origin,
            decreases self.scores@.len() - i,
        {
            if hash_eq(&self.scores[i].0, origin) {
                found = Some(i);
            }
            i = i + 1;
        }
        found
    }

    /// Directly set a node's reputation (for bootstrapping anchor nodes).
    pub fn set_reputation(&mut self, origin: &[u8; 32], rep: Reputation)
        ensures
            final(self)@ == old(self)@.insert(*origin, rep),
    {
        match self.find(origin) {
            Some(i) => {
                proof {
                    lemma_score_map_update(self.scores@, i as int, rep);
                }
                self.scores.set(i, (*origin, rep));
            },
            None => {
                let ghost s0 = self.scores@;
                self.scores.push((*origin, rep));
                proof {
                    assert(self.scores@.drop_last() =~= s0);
                }
            },
        }
    }
}

impl ReputationTracker for InMemoryReputationTracker {
    /// Unknown nodes start at zero reputation.
    open spec fn reputation_of(&self, origin: [u8; 32]) -> Reputation {
        score_of(self@, origin)
    }

    fn reputation(&self, origin: &[u8; 32]) -> (r: Reputation) {
        match self.find(origin) {
            Some(i) => {
                proof {
                    lemma_score_map_last(self.scores@, *origin, i as int);
                }
                self.scores[i].1
            },
            None => {
                proof {
                    lemma_score_map_absent(self.scores@, *origin);
                }
                Reputation::from_bps(0)
            },
        }
    }

    fn update(&mut self, origin: &[u8; 32], event: ReputationEvent)
        ensures
            final(self)@ == old(self)@.insert(
                *origin,
                Reputation::spec_from_bps(after_event(score_of(old(self)@, *origin)@ as int, event)),
            ),
    {
        let current = self.reputation(origin).bps();
        let new_score: u16 = match event {
            ReputationEvent::EquivocationDetected => 0,
            ReputationEvent::ClaimContradicted => current.saturating_sub(1000),
            ReputationEvent::ClaimConfirmed => {
                let v = current.saturating_add(200);
                if v < 10000 {
                    v
                } else {
                    10000
                }
            },
            ReputationEvent::ActiveParticipation => {
                let v = current.saturating_add(50);
                if v < 10000 {
                    v
                } else {
                    10000
                }
            },
        };
        self.set_reputation(origin, Reputation::from_bps(new_score));
    }

    fn delegate(&mut self, from: &[u8; 32], to: &[u8; 32], initial_rep: Reputation)
        ensures
            final(self)@ == after_delegation(old(self)@, *from, *to, initial_rep@ as int),
    {
        let delegator_rep = self.reputation(from);
        let d = delegator_rep.bps();
        if d == 0 {
            return ;
        }
        let i = initial_rep.bps();
        let capped = Reputation::from_bps(if i < d {
            i
        } else {
            d
        });
        self.set_reputation(to, capped);
        let cost = capped.bps() / 2;
        let new_delegator_rep = d.saturating_sub(cost);
        self.set_reputation(from, Reputation::from_bps(new_delegator_rep));
    }
}

} // verus!
