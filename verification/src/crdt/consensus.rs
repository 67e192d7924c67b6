//! Quorum consensus over AI decisions, and equivocation evidence.
use vstd::prelude::*;
use vstd::utf8::encode_utf8;
use crate::crdt::merkle_dag::{AiEvidence, DagNode, NodeView};
use crate::crypto::encoding::{hex_encode, hex_lower};
use crate::crypto::firewall::{blake3_of, SecurityFirewall};
use crate::ordering::hash_eq;
use crate::protocol::envelope::Hash32;

verus! {

/// Evidence that an origin signed two different payloads at one tick.
#[derive(Debug, Clone)]
pub struct EquivocationProof {
    pub origin: String,
    pub tick: u64,
    pub hash_a: Hash32,
    pub hash_b: Hash32,
}

/// What a proof holds: origin, tick, first and second node hash.
pub type ProofView = (Seq<char>, u64, Hash32, Hash32);

impl View for EquivocationProof {
    type V = ProofView;

    open spec fn view(&self) -> ProofView {
        (self.origin@, self.tick, self.hash_a, self.hash_b)
    }
}

/// An observed mutation: origin, tick, payload hash, node hash.
pub type Tick = (String, u64, Hash32, Hash32);

/// The payload and node hash first seen from `origin` at `tick`.
pub open spec fn find_tick(obs: Seq<(Seq<char>, u64, Hash32, Hash32)>, origin: Seq<char>, tick: u64) -> Option<(Hash32, Hash32)>
    decreases obs.len(),
{
    if obs.len() == 0 {
        None
    } else {
        match find_tick(obs.drop_last(), origin, tick) {
            Some(x) => Some(x),
            None => if obs.last().0 == origin && obs.last().1 == tick {
                Some((obs.last().2, obs.last().3))
            } else {
                None
            },
        }
    }
}

/// The equivocation scan over vector-clock entries `i..`: entries of denied
/// origins are skipped; an entry seen before with a different payload is an
/// equivocation (origin, tick, earlier node hash) and ends the scan; an entry
/// not seen before is recorded.
pub open spec fn equivocation_scan(
    denied: Seq<Seq<char>>,
    obs: Seq<(Seq<char>, u64, Hash32, Hash32)>,
    vc: Seq<(Seq<char>, u64)>,
    data: Hash32,
    node: Hash32,
    i: int,
) -> (Seq<(Seq<char>, u64, Hash32, Hash32)>, Option<(Seq<char>, u64, Hash32)>)
    decreases vc.len() - i,
{
    if i < 0 || i >= vc.len() {
        (obs, None)
    } else {
        let (o, t) = vc[i];
        if denied.contains(o) {
            equivocation_scan(denied, obs, vc, data, node, i + 1)
        } else {
            match find_tick(obs, o, t) {
                Some((pd, pn)) => if pd != data {
                    (obs, Some((o, t, pn)))
                } else {
                    equivocation_scan(denied, obs, vc, data, node, i + 1)
                },
                None => equivocation_scan(denied, obs.push((o, t, data, node)), vc, data, node, i + 1),
            }
        }
    }
}

/// Everything a quorum manager holds, as values.
pub struct QuorumState {
    pub threshold: usize,
    pub votes: Seq<Vote>,
    pub verified: Seq<Hash32>,
    pub denied: Seq<Seq<char>>,
    pub proofs: Seq<ProofView>,
    pub observed: Seq<(Seq<char>, u64, Hash32, Hash32)>,
}

/// `observe` on a quorum state: the new state and whether the vote made
/// its prompt verified.
pub open spec fn observe_step(q: QuorumState, origin: [u8; 32], prompt: Seq<char>, decision: Seq<char>) -> (QuorumState, bool) {
    let ph = text_hash(prompt);
    let dh = text_hash(decision);
    if q.verified.contains(ph) || q.denied.contains(hex_lower(origin@)) || has_voted(q.votes, ph, origin) {
        (q, false)
    } else {
        let votes = q.votes.push((ph, dh, origin));
        let r = support(votes, ph, dh) >= q.threshold;
        (QuorumState { votes, verified: if r { q.verified.push(ph) } else { q.verified }, ..q }, r)
    }
}

/// `check_equivocation` on a quorum state: the new state and the proof
/// found, if any.
pub open spec fn check_step(q: QuorumState, n: NodeView, h: Hash32) -> (QuorumState, Option<ProofView>) {
    let (obs, found) = equivocation_scan(q.denied, q.observed, n.vclock, n.data_hash, h, 0);
    match found {
        None => (QuorumState { observed: obs, ..q }, None),
        Some((o, t, pn)) => (
            QuorumState {
                observed: obs,
                denied: q.denied.push(o),
                proofs: q.proofs.push((o, t, pn, h)),
                ..q
            },
            Some((o, t, pn, h)),
        ),
    }
}

/// The denied origins are exactly the origins of the recorded equivocation
/// proofs, in the same order.
pub open spec fn denials_recorded(q: QuorumState) -> bool {
    q.proofs.map_values(|p: ProofView| p.0) == q.denied
}

/// An origin is denied exactly when an equivocation proof names it, in
/// every state that equivocation checks and votes reach from one where this
/// holds (a fresh quorum holds no denial and no proof): a check that finds
/// a proof records it and denies its origin together, and a vote touches
/// neither.
pub proof fn law_denial_iff_proof(
    q: QuorumState,
    n: NodeView,
    h: Hash32,
    origin: [u8; 32],
    prompt: Seq<char>,
    decision: Seq<char>,
)
    requires
        denials_recorded(q),
    ensures
        denials_recorded(check_step(q, n, h).0),
        denials_recorded(observe_step(q, origin, prompt, decision).0),
        forall|o: Seq<char>|
            #[trigger] q.denied.contains(o) <==> exists|i: int|
                0 <= i < q.proofs.len() && (#[trigger] q.proofs[i]).0 == o,
{
    let (q2, _) = check_step(q, n, h);
    if q2.proofs.len() != q.proofs.len() {
        assert(q2.proofs.map_values(|p: ProofView| p.0) =~= q.proofs.map_values(|p: ProofView| p.0).push(q2.proofs.last().0));
    }
    assert forall|o: Seq<char>| #[trigger] q.denied.contains(o) implies exists|i: int|
        0 <= i < q.proofs.len() && (#[trigger] q.proofs[i]).0 == o by {
        let j = choose|j: int| 0 <= j < q.denied.len() && q.denied[j] == o;
        assert(q.proofs.map_values(|p: ProofView| p.0)[j] == o);
    }
    assert forall|o: Seq<char>| (exists|i: int| 0 <= i < q.proofs.len() && (#[trigger] q.proofs[i]).0 == o) implies q.denied.contains(o) by {
        let i = choose|i: int| 0 <= i < q.proofs.len() && (#[trigger] q.proofs[i]).0 == o;
        assert(q.proofs.map_values(|p: ProofView| p.0)[i] == o);
        assert(q.denied[i] == o);
    }
}

/// A state-changing call on a quorum manager, as it acts on the state: an
/// equivocation check, a vote, or a restore of verified prompts (which
/// changes nothing but the verified list, here to the given one).
pub enum QuorumCall {
    Check(NodeView, Hash32),
    Vote([u8; 32], Seq<char>, Seq<char>),
    Restore(Seq<Hash32>),
}

/// The state after one call.
pub open spec fn apply_call(q: QuorumState, c: QuorumCall) -> QuorumState {
    match c {
        QuorumCall::Check(n, h) => check_step(q, n, h).0,
        QuorumCall::Vote(o, p, d) => observe_step(q, o, p, d).0,
        QuorumCall::Restore(v) => QuorumState { verified: v, ..q },
    }
}

/// The state after the calls, in order.
pub open spec fn run_calls(q: QuorumState, calls: Seq<QuorumCall>) -> QuorumState
    decreases calls.len(),
{
    if calls.len() == 0 {
        q
    } else {
        apply_call(run_calls(q, calls.drop_last()), calls.last())
    }
}

/// The state of `QuorumManager::new(threshold)`.
pub open spec fn fresh_quorum(threshold: usize) -> QuorumState {
    QuorumState {
        threshold,
        votes: Seq::empty(),
        verified: Seq::empty(),
        denied: Seq::empty(),
        proofs: Seq::empty(),
        observed: Seq::empty(),
    }
}

/// A manager reached from a fresh one by any sequence of checks, votes and
/// restores denies exactly the origins that one of its equivocation proofs
/// names, and lists its denials in the order of its proofs.
pub proof fn law_denials_after_any_calls(threshold: usize, calls: Seq<QuorumCall>)
    ensures
        denials_recorded(run_calls(fresh_quorum(threshold), calls)),
        forall|o: Seq<char>|
            #[trigger] run_calls(fresh_quorum(threshold), calls).denied.contains(o) <==> exists|i: int|
                0 <= i < run_calls(fresh_quorum(threshold), calls).proofs.len() && (#[trigger] run_calls(
                    fresh_quorum(threshold),
                    calls,
                ).proofs[i]).0 == o,
    decreases calls.len(),
{
    let q0 = fresh_quorum(threshold);
    let n0: NodeView = vstd::pervasive::arbitrary();
    let h0: Hash32 = vstd::pervasive::arbitrary();
    if calls.len() == 0 {
        assert(q0.proofs.map_values(|p: ProofView| p.0) =~= q0.denied);
    } else {
        law_denials_after_any_calls(threshold, calls.drop_last());
        let q = run_calls(q0, calls.drop_last());
        match calls.last() {
            QuorumCall::Check(n, h) => {
                law_denial_iff_proof(q, n, h, h0, Seq::empty(), Seq::empty());
            },
            QuorumCall::Vote(o, p, d) => {
                law_denial_iff_proof(q, n0, h0, o, p, d);
            },
            QuorumCall::Restore(v) => {},
        }
    }
    let r = run_calls(q0, calls);
    law_denial_iff_proof(r, n0, h0, h0, Seq::empty(), Seq::empty());
}

/// Quorum safety of a state: every decision backed by at least `threshold`
/// votes has its prompt verified and is the only such decision for that
/// prompt, and no voter voted twice on one prompt.
pub open spec fn quorum_safe(q: QuorumState) -> bool {
    &&& forall|p: Hash32, d: Hash32|
        #[trigger] support(q.votes, p, d) >= q.threshold ==> q.verified.contains(p)
    &&& forall|p: Hash32, d1: Hash32, d2: Hash32|
        #[trigger] support(q.votes, p, d1) >= q.threshold && #[trigger] support(q.votes, p, d2)
            >= q.threshold ==> d1 == d2
    &&& forall|i: int, j: int|
        0 <= i < j < q.votes.len() ==> !(q.votes[i].0 == q.votes[j].0 && q.votes[i].2 == q.votes[j].2)
}

proof fn lemma_support_push(votes: Seq<Vote>, v: Vote, p: Hash32, d: Hash32)
    ensures
        support(votes.push(v), p, d) == support(votes, p, d) + if v.0 == p && v.1 == d {
            1nat
        } else {
            0nat
        },
{
    assert(votes.push(v).drop_last() =~= votes);
}

/// Quorum safety holds from the start and is kept by every vote: once a
/// decision on a prompt reaches the threshold (at least one), no other
/// decision on that prompt ever does, and each voter counts at most once
/// per prompt.
pub proof fn law_quorum_safety(q: QuorumState, origin: [u8; 32], prompt: Seq<char>, decision: Seq<char>)
    requires
        q.threshold >= 1,
        quorum_safe(q),
    ensures
        quorum_safe(observe_step(q, origin, prompt, decision).0),
        quorum_safe(QuorumState { votes: Seq::empty(), verified: Seq::empty(), ..q }),
{
    let ph = text_hash(prompt);
    let dh = text_hash(decision);
    let empty = QuorumState { votes: Seq::empty(), verified: Seq::empty(), ..q };
    assert forall|p: Hash32, d: Hash32| #[trigger] support(empty.votes, p, d) == 0 by {
    }
    if !(q.verified.contains(ph) || q.denied.contains(hex_lower(origin@)) || has_voted(q.votes, ph, origin)) {
        let v = (ph, dh, origin);
        let votes = q.votes.push(v);
        let r = support(votes, ph, dh) >= q.threshold;
        let q2 = observe_step(q, origin, prompt, decision).0;
        assert forall|p: Hash32, d: Hash32| #[trigger] support(votes, p, d) == support(q.votes, p, d) + if p
            == ph && d == dh {
            1nat
        } else {
            0nat
        } by {
            lemma_support_push(q.votes, v, p, d);
        }
        assert forall|p: Hash32, d: Hash32| #[trigger] support(q2.votes, p, d) >= q2.threshold implies q2.verified.contains(p) by {
            if p == ph && d == dh {
                assert(r);
                assert(q2.verified[q.verified.len() as int] == ph);
            } else {
                assert(support(q.votes, p, d) >= q.threshold);
                assert(q.verified.contains(p));
                let k = choose|k: int| 0 <= k < q.verified.len() && q.verified[k] == p;
                assert(q2.verified[k] == p);
            }
        }
        assert forall|p: Hash32, d1: Hash32, d2: Hash32|
            #[trigger] support(q2.votes, p, d1) >= q2.threshold && #[trigger] support(q2.votes, p, d2)
                >= q2.threshold implies d1 == d2 by {
            if p == ph {
                if d1 != dh {
                    assert(support(q.votes, ph, d1) >= q.threshold);
                    assert(q.verified.contains(ph));
                }
                if d2 != dh {
                    assert(support(q.votes, ph, d2) >= q.threshold);
                    assert(q.verified.contains(ph));
                }
            }
        }
        assert forall|i: int, j: int| 0 <= i < j < q2.votes.len() implies !(q2.votes[i].0 == q2.votes[j].0
            && q2.votes[i].2 == q2.votes[j].2) by {
            if j == q.votes.len() {
                if q2.votes[i].0 == ph && q2.votes[i].2 == origin {
                    assert(q.votes[i].0 == ph && q.votes[i].2 == origin);
                    assert(has_voted(q.votes, ph, origin));
                }
            } else {
                assert(q2.votes[i] == q.votes[i]);
                assert(q2.votes[j] == q.votes[j]);
            }
        }
    }
}

/// The quorum state after each voter in turn votes `decision` on `prompt`.
pub open spec fn observe_all(q: QuorumState, voters: Seq<[u8; 32]>, prompt: Seq<char>, decision: Seq<char>) -> QuorumState
    decreases voters.len(),
{
    if voters.len() == 0 {
        q
    } else {
        observe_step(observe_all(q, voters.drop_last(), prompt, decision), voters.last(), prompt, decision).0
    }
}

proof fn lemma_observe_all(
    q: QuorumState,
    voters: Seq<[u8; 32]>,
    prompt: Seq<char>,
    decision: Seq<char>,
    k: int,
)
    requires
        0 <= k <= voters.len(),
        voters.no_duplicates(),
        forall|i: int|
            0 <= i < voters.len() ==> !q.denied.contains(hex_lower((#[trigger] voters[i])@)) && !has_voted(
                q.votes,
                text_hash(prompt),
                voters[i],
            ),
    ensures
        ({
            let qk = observe_all(q, voters.take(k), prompt, decision);
            let ph = text_hash(prompt);
            &&& qk.denied == q.denied
            &&& qk.threshold == q.threshold
            &&& q.verified.contains(ph) ==> qk.verified.contains(ph)
            &&& qk.verified.contains(ph) || (support(qk.votes, ph, text_hash(decision)) >= k
                && forall|j: int| k <= j < voters.len() ==> !has_voted(qk.votes, ph, #[trigger] voters[j]))
        }),
    decreases k,
{
    let ph = text_hash(prompt);
    let dh = text_hash(decision);
    if k == 0 {
        assert(voters.take(0) =~= Seq::<[u8; 32]>::empty());
    } else {
        lemma_observe_all(q, voters, prompt, decision, k - 1);
        let qp = observe_all(q, voters.take(k - 1), prompt, decision);
        assert(voters.take(k).drop_last() =~= voters.take(k - 1));
        assert(voters.take(k).last() == voters[k - 1]);
        let v = voters[k - 1];
        let qk = observe_all(q, voters.take(k), prompt, decision);
        assert(qk == observe_step(qp, v, prompt, decision).0);
        if qp.verified.contains(ph) {
            let i = choose|i: int| 0 <= i < qp.verified.len() && qp.verified[i] == ph;
            assert(qk.verified[i] == ph);
        } else {
            assert(!qp.denied.contains(hex_lower(v@)));
            assert(!has_voted(qp.votes, ph, v));
            let votes = qp.votes.push((ph, dh, v));
            assert(votes.drop_last() =~= qp.votes);
            assert(qk.votes == votes);
            assert forall|j: int| k <= j < voters.len() implies !has_voted(qk.votes, ph, #[trigger] voters[j]) by {
                assert(!has_voted(qp.votes, ph, voters[j]));
                assert(voters[j] != v);
                if has_voted(qk.votes, ph, voters[j]) {
                    let m = choose|m: int| 0 <= m < votes.len() && votes[m].0 == ph && votes[m].2 == voters[j];
                    if m < qp.votes.len() {
                        assert(votes[m] == qp.votes[m]);
                    }
                }
            }
            if q.verified.contains(ph) {
                assert(qp.verified.contains(ph));
            }
        }
    }
}

/// Quorum liveness: when at least `threshold` (and at least one) distinct
/// voters, none denied and none having voted on the prompt yet, all vote
/// the same decision, the prompt ends up verified.
pub proof fn law_quorum_liveness(q: QuorumState, voters: Seq<[u8; 32]>, prompt: Seq<char>, decision: Seq<char>)
    requires
        voters.len() >= q.threshold,
        voters.len() >= 1,
        voters.no_duplicates(),
        forall|i: int|
            0 <= i < voters.len() ==> !q.denied.contains(hex_lower((#[trigger] voters[i])@)) && !has_voted(
                q.votes,
                text_hash(prompt),
                voters[i],
            ),
    ensures
        observe_all(q, voters, prompt, decision).verified.contains(text_hash(prompt)),
{
    let ph = text_hash(prompt);
    let n = voters.len() as int;
    lemma_observe_all(q, voters, prompt, decision, n - 1);
    let qp = observe_all(q, voters.take(n - 1), prompt, decision);
    assert(voters.take(n) =~= voters);
    assert(voters.take(n).drop_last() =~= voters.take(n - 1));
    let v = voters[n - 1];
    let qk = observe_step(qp, v, prompt, decision).0;
    assert(observe_all(q, voters, prompt, decision) == qk);
    if qp.verified.contains(ph) {
        let i = choose|i: int| 0 <= i < qp.verified.len() && qp.verified[i] == ph;
        assert(qk.verified[i] == ph);
    } else {
        assert(!qp.denied.contains(hex_lower(v@)));
        let votes = qp.votes.push((ph, text_hash(decision), v));
        assert(votes.drop_last() =~= qp.votes);
        assert(support(votes, ph, text_hash(decision)) >= n);
        assert(qk.verified[qp.verified.len() as int] == ph);
    }
}

/// A match found within the first `i` entries stays the first match.
pub proof fn lemma_find_prefix(obs: Seq<(Seq<char>, u64, Hash32, Hash32)>, origin: Seq<char>, tick: u64, i: int)
    requires
        0 < i <= obs.len(),
        find_tick(obs.take(i - 1), origin, tick) is None,
        obs[i - 1].0 == origin && obs[i - 1].1 == tick,
    ensures
        find_tick(obs, origin, tick) == Some((obs[i - 1].2, obs[i - 1].3)),
    decreases obs.len() - i,
{
    if i == obs.len() {
        assert(obs.take(i - 1) =~= obs.drop_last());
    } else {
        assert(obs.drop_last().take(i - 1) =~= obs.take(i - 1));
        lemma_find_prefix(obs.drop_last(), origin, tick, i);
    }
}

/// One vote: the prompt's hash, the decision's hash, the voter.
pub type Vote = (Hash32, Hash32, [u8; 32]);

/// Number of votes for `decision` on `prompt`.
pub open spec fn support(votes: Seq<Vote>, prompt: Hash32, decision: Hash32) -> nat
    decreases votes.len(),
{
    if votes.len() == 0 {
        0
    } else {
        support(votes.drop_last(), prompt, decision) + (if votes.last().0 == prompt
            && votes.last().1 == decision {
            1nat
        } else {
            0nat
        })
    }
}

/// `voter` already voted on `prompt`, for any decision.
pub open spec fn has_voted(votes: Seq<Vote>, prompt: Hash32, voter: [u8; 32]) -> bool {
    exists|i: int| 0 <= i < votes.len() && votes[i].0 == prompt && votes[i].2 == voter
}

/// Hash of the UTF-8 text of a string.
pub open spec fn text_hash(s: Seq<char>) -> Hash32 {
    blake3_of(encode_utf8(s))
}

/// Byzantine-tolerant quorum over AI decisions: a decision on a prompt is
/// verified once `threshold` distinct voters back it; each voter votes once
/// per prompt; origins caught equivocating are denied.
pub struct QuorumManager {
    pub threshold: usize,
    pub(crate) votes: Vec<Vote>,
    pub(crate) verified: Vec<Hash32>,
    pub(crate) denied: Vec<String>,
    pub(crate) equivocation_proofs: Vec<EquivocationProof>,
    pub(crate) observed_ticks: Vec<Tick>,
}

impl QuorumManager {
    /// The quorum threshold.
    pub closed spec fn threshold_of(&self) -> usize {
        self.threshold
    }

    /// All votes cast, in order.
    pub closed spec fn votes_view(&self) -> Seq<Vote> {
        self.votes@
    }

    /// Verified prompt hashes, in order of verification.
    pub closed spec fn verified_view(&self) -> Seq<Hash32> {
        self.verified@
    }

    /// Denied origins.
    pub closed spec fn denied_view(&self) -> Seq<Seq<char>> {
        self.denied@.map_values(|s: String| s@)
    }

    /// Equivocation proofs recorded.
    pub closed spec fn proofs_view(&self) -> Seq<ProofView> {
        self.equivocation_proofs@.map_values(|p: EquivocationProof| p@)
    }

    /// The whole state, as values.
    pub open spec fn state(&self) -> QuorumState {
        QuorumState {
            threshold: self.threshold_of(),
            votes: self.votes_view(),
            verified: self.verified_view(),
            denied: self.denied_view(),
            proofs: self.proofs_view(),
            observed: self.observed_view(),
        }
    }

    /// Mutations observed per origin and tick.
    pub closed spec fn observed_view(&self) -> Seq<(Seq<char>, u64, Hash32, Hash32)> {
        self.observed_ticks@.map_values(|t: Tick| (t.0@, t.1, t.2, t.3))
    }

    pub fn new(threshold: usize) -> (r: Self)
        ensures
            r.threshold_of() == threshold,
            r.votes_view() == Seq::<Vote>::empty(),
            r.verified_view() == Seq::<Hash32>::empty(),
            r.denied_view() == Seq::<Seq<char>>::empty(),
            r.proofs_view() == Seq::<ProofView>::empty(),
            r.observed_view() == Seq::<(Seq<char>, u64, Hash32, Hash32)>::empty(),
    {
        let r = QuorumManager {
            threshold,
            votes: Vec::new(),
            verified: Vec::new(),
            denied: Vec::new(),
            equivocation_proofs: Vec::new(),
            observed_ticks: Vec::new(),
        };
        proof {
            assert(r.denied_view() =~= Seq::<Seq<char>>::empty());
            assert(r.proofs_view() =~= Seq::<ProofView>::empty());
            assert(r.observed_view() =~= Seq::<(Seq<char>, u64, Hash32, Hash32)>::empty());
        }
        r
    }

    fn denied_contains(&self, origin: &String) -> (r: bool)
        ensures
            r == self.denied_view().contains(origin@),
    {
        let mut i: usize = 0;
        while i < self.denied.len()
            invariant
                i <= self.denied@.len(),
                forall|j: int| 0 <= j < i ==> self.denied@[j]@ != origin@,
            decreases self.denied@.len() - i,
        {
            if self.denied[i] == *origin {
                proof {
                    assert(self.denied_view()[i as int] == origin@);
                }
                return true;
            }
            i = i + 1;
        }
        proof {
            if self.denied_view().contains(origin@) {
                let j = choose|j: int| 0 <= j < self.denied_view().len() && self.denied_view()[j] == origin@;
                assert(self.denied@[j]@ == origin@);
            }
        }
        false
    }

    fn verified_contains(&self, h: &Hash32) -> (r: bool)
        ensures
            r == self.verified_view().contains(*h),
    {
        let mut i: usize = 0;
        while i < self.verified.len()
            invariant
                i <= self.verified@.len(),
                forall|j: int| 0 <= j < i ==> self.verified@[j] != *h,
            decreases self.verified@.len() - i,
        {
            if hash_eq(&self.verified[i], h) {
                return true;
            }
            i = i + 1;
        }
        false
    }

    /// Whether an origin has been denied.
    pub fn is_denied(&self, origin: &str) -> (r: bool)
        ensures
            r == self.denied_view().contains(origin@),
    {
        let o = origin.to_owned();
        self.denied_contains(&o)
    }

    /// The denied origins.
    pub fn denied_origins(&self) -> (r: &[String])
        ensures
            r@.map_values(|s: String| s@) == self.denied_view(),
    {
        self.denied.as_slice()
    }

    /// The equivocation proofs recorded.
    pub fn equivocation_proofs(&self) -> (r: &[EquivocationProof])
        ensures
            r@.map_values(|p: EquivocationProof| p@) == self.proofs_view(),
    {
        self.equivocation_proofs.as_slice()
    }

    /// Record `origin`'s vote for the evidence's decision on its prompt.
    /// The vote is ignored (and `false` returned) when the prompt is
    /// already verified, the origin (in hex) is denied, or the origin
    /// already voted on the prompt. Otherwise the vote counts, and the
    /// prompt becomes verified (returning `true`) when its decision reaches
    /// the threshold.
    pub fn observe(&mut self, origin: [u8; 32], evidence: &AiEvidence) -> (r: bool)
        ensures
            final(self).threshold_of() == old(self).threshold_of(),
            final(self).denied_view() == old(self).denied_view(),
            final(self).proofs_view() == old(self).proofs_view(),
            final(self).observed_view() == old(self).observed_view(),
            ({
                let ph = text_hash(evidence.prompt@);
                let dh = text_hash(evidence.decision@);
                if old(self).verified_view().contains(ph) || old(self).denied_view().contains(
                    hex_lower(origin@),
                ) || has_voted(old(self).votes_view(), ph, origin) {
                    &&& !r
                    &&& final(self).votes_view() == old(self).votes_view()
                    &&& final(self).verified_view() == old(self).verified_view()
                } else {
                    let votes = old(self).votes_view().push((ph, dh, origin));
                    &&& final(self).votes_view() == votes
                    &&& r == (support(votes, ph, dh) >= old(self).threshold_of())
                    &&& final(self).verified_view() == if r {
                        old(self).verified_view().push(ph)
                    } else {
                        old(self).verified_view()
                    }
                }
            }),
    {
        let prompt_hash = SecurityFirewall::hash(evidence.prompt.as_str().as_bytes());
        let decision_hash = SecurityFirewall::hash(evidence.decision.as_str().as_bytes());
        proof {
            assert(prompt_hash == text_hash(evidence.prompt@));
            assert(decision_hash == text_hash(evidence.decision@));
        }
        if self.verified_contains(&prompt_hash) {
            return false;
        }
        let origin_hex = hex_encode(&origin);
        if self.denied_contains(&origin_hex) {
            return false;
        }
        let mut count: usize = 0;
        let mut i: usize = 0;
        while i < self.votes.len()
            invariant
                i <= self.votes@.len(),
                self.votes@ == old(self).votes@,
                self.verified@ == old(self).verified@,
                self.denied@ == old(self).denied@,
                self.equivocation_proofs@ == old(self).equivocation_proofs@,
                self.observed_ticks@ == old(self).observed_ticks@,
                self.threshold == old(self).threshold,
                prompt_hash == text_hash(evidence.prompt@),
                decision_hash == text_hash(evidence.decision@),
                !old(self).verified_view().contains(prompt_hash),
                !old(self).denied_view().contains(hex_lower(origin@)),
                forall|j: int|
                    0 <= j < i ==> !(self.votes@[j].0 == prompt_hash && self.votes@[j].2 == origin),
                count == support(self.votes@.take(i as int), prompt_hash, decision_hash),
                count <= i,
            decreases self.votes@.len() - i,
        {
            proof {
                assert(self.votes@.take(i + 1).drop_last() =~= self.votes@.take(i as int));
            }
            let v = self.votes[i];
            if hash_eq(&v.0, &prompt_hash) && hash_eq(&v.2, &origin) {
                proof {
                    assert(has_voted(self.votes@, prompt_hash, origin));
                }
                return false;
            }
            if hash_eq(&v.0, &prompt_hash) && hash_eq(&v.1, &decision_hash) {
                count = count + 1;
            }
            i = i + 1;
        }
        proof {
            assert(self.votes@.take(i as int) =~= self.votes@);
            assert(!has_voted(self.votes@, prompt_hash, origin));
        }
        let ghost v0 = self.votes@;
        let ghost d0 = self.denied_view();
        self.votes.push((prompt_hash, decision_hash, origin));
        proof {
            assert(self.votes@.drop_last() =~= v0);
            assert(self.denied_view() =~= d0);
        }
        if self.threshold == 0 || count >= self.threshold - 1 {
            self.verified.push(prompt_hash);
            return true;
        }
        false
    }

    /// Whether the prompt has a verified decision.
    pub fn is_verified(&self, prompt: &str) -> (r: bool)
        ensures
            r == self.verified_view().contains(text_hash(prompt@)),
    {
        let prompt_hash = SecurityFirewall::hash(prompt.as_bytes());
        self.verified_contains(&prompt_hash)
    }

    /// The verified prompt hashes.
    pub fn verified_hashes(&self) -> (r: &[Hash32])
        ensures
            r@ == self.verified_view(),
    {
        self.verified.as_slice()
    }

    /// Add previously verified prompt hashes (those not already present).
    pub fn restore_verified(&mut self, hashes: &[Hash32])
        ensures
            final(self).verified_view().to_set() == old(self).verified_view().to_set() + hashes@.to_set(),
            final(self).threshold_of() == old(self).threshold_of(),
            final(self).votes_view() == old(self).votes_view(),
            final(self).denied_view() == old(self).denied_view(),
            final(self).proofs_view() == old(self).proofs_view(),
            final(self).observed_view() == old(self).observed_view(),
    {
        let ghost v0 = self.verified@;
        let ghost d0 = self.denied_view();
        let mut i: usize = 0;
        while i < hashes.len()
            invariant
                i <= hashes@.len(),
                self.verified@.to_set() == v0.to_set() + hashes@.take(i as int).to_set(),
                self.threshold == old(self).threshold,
                self.votes@ == old(self).votes@,
                self.denied@ == old(self).denied@,
                self.equivocation_proofs@ == old(self).equivocation_proofs@,
                self.observed_ticks@ == old(self).observed_ticks@,
            decreases hashes@.len() - i,
        {
            let h = hashes[i];
            let ghost before = self.verified@;
            if !self.verified_contains(&h) {
                self.verified.push(h);
            }
            proof {
                let t0 = hashes@.take(i as int);
                let t1 = hashes@.take(i + 1);
                assert(t1 =~= t0.push(h));
                assert forall|x: Hash32| #[trigger] self.verified@.to_set().contains(x) == (
                v0.to_set() + t1.to_set()).contains(x) by {
                    assert(self.verified@.contains(x) == (before.contains(x) || (x == h
                        && !before.contains(h)))) by {
                        if self.verified@.len() > before.len() {
                            if x == h {
                                assert(self.verified@[before.len() as int] == h);
                            }
                            if self.verified@.contains(x) && x != h {
                                let j = choose|j: int| 0 <= j < self.verified@.len() && self.verified@[j] == x;
                                assert(j < before.len());
                                assert(before[j] == x);
                            }
                            if before.contains(x) {
                                let j = choose|j: int| 0 <= j < before.len() && before[j] == x;
                                assert(self.verified@[j] == x);
                            }
                        }
                    }
                    assert(t1.contains(x) == (t0.contains(x) || x == h)) by {
                        if x == h {
                            assert(t1[i as int] == h);
                        }
                        if t1.contains(x) && x != h {
                            let j = choose|j: int| 0 <= j < t1.len() && t1[j] == x;
                            assert(t0[j] == x);
                        }
                        if t0.contains(x) {
                            let j = choose|j: int| 0 <= j < t0.len() && t0[j] == x;
                            assert(t1[j] == x);
                        }
                    }
                    assert(before.to_set().contains(x) == (v0.to_set() + t0.to_set()).contains(x));
                }
                assert(self.verified@.to_set() =~= v0.to_set() + t1.to_set());
            }
            i = i + 1;
        }
        proof {
            assert(hashes@.take(i as int) =~= hashes@);
            assert(self.denied_view() =~= d0);
        }
    }

    fn find_observed(&self, origin: &String, tick: u64) -> (r: Option<(Hash32, Hash32)>)
        ensures
            r == find_tick(self.observed_view(), origin@, tick),
    {
        let ghost obs = self.observed_view();
        let mut i: usize = 0;
        while i < self.observed_ticks.len()
            invariant
                i <= obs.len(),
                obs == self.observed_view(),
                find_tick(obs.take(i as int), origin@, tick) is None,
            decreases obs.len() - i,
        {
            proof {
                assert(obs.take(i + 1).drop_last() =~= obs.take(i as int));
            }
            if self.observed_ticks[i].0 == *origin && self.observed_ticks[i].1 == tick {
                proof {
                    lemma_find_prefix(obs, origin@, tick, i + 1);
                }
                return Some((self.observed_ticks[i].2, self.observed_ticks[i].3));
            }
            i = i + 1;
        }
        proof {
            assert(obs.take(i as int) =~= obs);
        }
        None
    }

    /// Check a node for equivocation before it is merged. Its vector-clock
    /// entries are scanned in order, skipping denied origins: an origin and
    /// tick seen before with a different payload hash denies the origin,
    /// records and returns the proof (earlier node hash first) and ends the
    /// scan; an origin and tick not seen before is remembered with this
    /// node's payload and hash.
    pub fn check_equivocation(&mut self, node: &DagNode, node_hash: Hash32) -> (r: Option<EquivocationProof>)
        ensures
            final(self).threshold_of() == old(self).threshold_of(),
            final(self).votes_view() == old(self).votes_view(),
            final(self).verified_view() == old(self).verified_view(),
            ({
                let (obs, found) = equivocation_scan(
                    old(self).denied_view(),
                    old(self).observed_view(),
                    node@.vclock,
                    node.data_hash,
                    node_hash,
                    0,
                );
                &&& final(self).observed_view() == obs
                &&& match found {
                    None => {
                        &&& r is None
                        &&& final(self).denied_view() == old(self).denied_view()
                        &&& final(self).proofs_view() == old(self).proofs_view()
                    },
                    Some((o, t, pn)) => {
                        &&& r matches Some(p) && p@ == (o, t, pn, node_hash)
                        &&& final(self).denied_view() == old(self).denied_view().push(o)
                        &&& final(self).proofs_view() == old(self).proofs_view().push((o, t, pn, node_hash))
                    },
                }
            }),
    {
        let ghost vc = node@.vclock;
        let ghost d0 = self.denied_view();
        let ghost target = equivocation_scan(d0, self.observed_view(), vc, node.data_hash, node_hash, 0);
        let mut i: usize = 0;
        while i < node.vclock.len()
            invariant
                i <= vc.len(),
                vc == node@.vclock,
                vc.len() == node.vclock@.len(),
                d0 == self.denied_view(),
                self.denied@ == old(self).denied@,
                self.equivocation_proofs@ == old(self).equivocation_proofs@,
                self.votes@ == old(self).votes@,
                self.verified@ == old(self).verified@,
                self.threshold == old(self).threshold,
                equivocation_scan(d0, self.observed_view(), vc, node.data_hash, node_hash, i as int)
                    == target,
                target == equivocation_scan(old(self).denied_view(), old(self).observed_view(), vc, node.data_hash, node_hash, 0),
                d0 == old(self).denied_view(),
            decreases vc.len() - i,
        {
            let origin = &node.vclock[i].0;
            let tick = node.vclock[i].1;
            proof {
                assert(vc[i as int] == (origin@, tick));
            }
            if !self.denied_contains(origin) {
                match self.find_observed(origin, tick) {
                    Some((prev_data, prev_node)) => {
                        if !hash_eq(&prev_data, &node.data_hash) {
                            let proof_a = EquivocationProof {
                                origin: origin.clone(),
                                tick,
                                hash_a: prev_node,
                                hash_b: node_hash,
                            };
                            let proof_b = EquivocationProof {
                                origin: origin.clone(),
                                tick,
                                hash_a: prev_node,
                                hash_b: node_hash,
                            };
                            let ghost p0 = self.proofs_view();
                            proof {
                                assert(!d0.contains(origin@));
                                assert(find_tick(self.observed_view(), origin@, tick) == Some((prev_data, prev_node)));
                                assert(prev_data != node.data_hash);
                                assert(equivocation_scan(d0, self.observed_view(), vc, node.data_hash, node_hash, i as int)
                                    == (self.observed_view(), Some((origin@, tick, prev_node))));
                            }
                            self.denied.push(origin.clone());
                            self.equivocation_proofs.push(proof_a);
                            proof {
                                assert(self.denied_view() =~= d0.push(origin@));
                                assert(self.proofs_view() =~= p0.push(proof_b@));
                            }
                            return Some(proof_b);
                        }
                    },
                    None => {
                        let ghost o0 = self.observed_view();
                        self.observed_ticks.push((origin.clone(), tick, node.data_hash, node_hash));
                        proof {
                            assert(self.observed_view() =~= o0.push((origin@, tick, node.data_hash, node_hash)));
                        }
                    },
                }
            }
            i = i + 1;
        }
        None
    }

    /// Number of voters backing `decision` on `prompt`.
    pub fn get_support_count(&self, prompt: &str, decision: &str) -> (r: usize)
        ensures
            r == support(self.votes_view(), text_hash(prompt@), text_hash(decision@)),
    {
        let prompt_hash = SecurityFirewall::hash(prompt.as_bytes());
        let decision_hash = SecurityFirewall::hash(decision.as_bytes());
        let mut count: usize = 0;
        let mut i: usize = 0;
        while i < self.votes.len()
            invariant
                i <= self.votes@.len(),
                count == support(self.votes@.take(i as int), prompt_hash, decision_hash),
                count <= i,
            decreases self.votes@.len() - i,
        {
            proof {
                assert(self.votes@.take(i + 1).drop_last() =~= self.votes@.take(i as int));
            }
            let v = self.votes[i];
            if hash_eq(&v.0, &prompt_hash) && hash_eq(&v.1, &decision_hash) {
                count = count + 1;
            }
            i = i + 1;
        }
        proof {
            assert(self.votes@.take(i as int) =~= self.votes@);
        }
        count
    }
}

} // verus!
