//! The decisions of the CRDT actor: what an append or a merge does to the
//! DAG, the quorum and the epochs, and what it reports.
use vstd::prelude::*;
use crate::crdt::consensus::{
    check_step, observe_step, EquivocationProof, ProofView, QuorumManager, QuorumState,
};
use crate::crdt::gc::EpochManager;
use crate::crdt::merkle_dag::{
    dag_add, evidence_view, frontier_of, has_child, kept_by_walk, law_merkle_root_order_independent,
    lemma_filter_nodup, merkle_root, mutation_node, node_hash, order_add, vclock_view, AiEvidence,
    DagNode, MerkleCrdtEngine, NodeView,
};
use crate::protocol::envelope::Hash32;

verus! {

/// The first 32 bytes of a signature: the key a vote is counted under.
pub open spec fn signer_key(sig: [u8; 64]) -> [u8; 32] {
    choose|k: [u8; 32]| k@ == sig@.take(32)
}

fn signer_key_exec(sig: &[u8; 64]) -> (r: [u8; 32])
    ensures
        r == signer_key(*sig),
{
    let r: [u8; 32] = [
        sig[0], sig[1], sig[2], sig[3], sig[4], sig[5], sig[6], sig[7], sig[8], sig[9], sig[10],
        sig[11], sig[12], sig[13], sig[14], sig[15], sig[16], sig[17], sig[18], sig[19], sig[20],
        sig[21], sig[22], sig[23], sig[24], sig[25], sig[26], sig[27], sig[28], sig[29], sig[30],
        sig[31],
    ];
    proof {
        assert(r@ =~= sig@.take(32));
        let c = signer_key(*sig);
        assert(c@ =~= r@);
        broadcast use vstd::array::axiom_array_ext_equal;

        assert(c =~= r);
    }
    r
}

/// The result of merging one batch from the state `(dag, order, q)`: the
/// DAG, its order, the quorum state, the hashes newly stored, the
/// equivocation proofs found, and the (prompt, decision) pairs that reached
/// quorum. Nodes whose hash is already stored are skipped; for a new node
/// the quorum checks it for equivocation, then counts its evidence (if any)
/// as the vote of its signer's key, then the node is stored.
pub open spec fn merge_fold(
    dag: Map<Hash32, NodeView>,
    order: Seq<Hash32>,
    q: QuorumState,
    nodes: Seq<NodeView>,
) -> (Map<Hash32, NodeView>, Seq<Hash32>, QuorumState, Seq<Hash32>, Seq<ProofView>, Seq<(Seq<char>, Seq<char>)>)
    decreases nodes.len(),
{
    if nodes.len() == 0 {
        (dag, order, q, Seq::empty(), Seq::empty(), Seq::empty())
    } else {
        let (d, o, q1, st, pr, ve) = merge_fold(dag, order, q, nodes.drop_last());
        let n = nodes.last();
        let h = node_hash(n);
        if d.contains_key(h) {
            (d, o, q1, st, pr, ve)
        } else {
            let (q2, p) = check_step(q1, n, h);
            let pr2 = match p {
                Some(x) => pr.push(x),
                None => pr,
            };
            match n.evidence {
                Some(ev) => {
                    let (q3, v) = observe_step(q2, signer_key(n.signature), ev.prompt, ev.decision);
                    (d.insert(h, n), o.push(h), q3, st.push(h), pr2, if v {
                        ve.push((ev.prompt, ev.decision))
                    } else {
                        ve
                    })
                },
                None => (d.insert(h, n), o.push(h), q2, st.push(h), pr2, ve),
            }
        }
    }
}

/// What a merge reports.
pub struct MergeOutcome {
    /// Hashes of the nodes newly stored, in order (to be persisted)
    pub stored: Vec<Hash32>,
    /// Equivocation proofs found
    pub equivocations: Vec<EquivocationProof>,
    /// (prompt, decision) pairs that reached quorum
    pub verified: Vec<(String, String)>,
}

/// What an append reports.
pub struct AppendOutcome {
    /// Hash of the new node
    pub hash: Hash32,
    /// When the append compacted the history: the root the epoch was
    /// finalized with, and the number of nodes left
    pub compacted: Option<(Hash32, usize)>,
}

/// The state the CRDT actor owns: the DAG, the quorum, the epochs.
pub struct CrdtState {
    pub engine: MerkleCrdtEngine,
    pub quorum: QuorumManager,
    pub epochs: EpochManager,
}

impl CrdtState {
    /// Fresh state: an empty DAG compacting every `gc_threshold`
    /// mutations, a quorum of `threshold`, epoch zero.
    pub fn new(threshold: usize, gc_threshold: u64) -> (r: Self)
        ensures
            r.engine.wf(),
            r.engine.dag() == Map::<Hash32, NodeView>::empty(),
            r.engine.heads_view() == Seq::<Hash32>::empty(),
            r.engine.threshold() == gc_threshold,
            r.quorum.threshold_of() == threshold,
            r.epochs.current_epoch == 0,
    {
        CrdtState {
            engine: MerkleCrdtEngine::with_gc_threshold(gc_threshold),
            quorum: QuorumManager::new(threshold),
            epochs: EpochManager::new(),
        }
    }

    /// Append a local mutation: the node holding `data_hash`, `signature`,
    /// `vclock` and `evidence`, with the current heads as parents, is stored
    /// and becomes the only head (see `MerkleCrdtEngine::append_mutation`).
    /// When it compacts the history, the epoch is finalized with the new
    /// Merkle root, reported with the number of nodes left.
    pub fn append(
        &mut self,
        data_hash: Hash32,
        signature: [u8; 64],
        vclock: Vec<(String, u64)>,
        evidence: Option<AiEvidence>,
    ) -> (r: AppendOutcome)
        requires
            old(self).engine.wf(),
            old(self).epochs.current_epoch < u64::MAX,
        ensures
            final(self).engine.wf(),
            final(self).quorum == old(self).quorum,
            final(self).engine.heads_view() == seq![r.hash],
            ({
                let n = mutation_node(
                    old(self).engine.heads_view(),
                    data_hash,
                    signature,
                    vclock_view(vclock@),
                    evidence_view(evidence),
                );
                let dag1 = dag_add(old(self).engine.dag(), r.hash, n);
                let order1 = order_add(old(self).engine.dag(), old(self).engine.order(), r.hash);
                let keep = kept_by_walk(dag1, order1, seq![r.hash]);
                &&& r.hash == node_hash(n)
                &&& final(self).engine.threshold() == old(self).engine.threshold()
                &&& if old(self).engine.pending() + 1 >= old(self).engine.threshold() {
                    &&& final(self).engine.dag() == dag1.restrict(keep.to_set())
                    &&& final(self).engine.order() == order1.filter(|h: Hash32| keep.contains(h))
                    &&& final(self).engine.pending() == 0
                } else {
                    &&& final(self).engine.dag() == dag1
                    &&& final(self).engine.order() == order1
                    &&& final(self).engine.pending() == old(self).engine.pending() + 1
                }
            }),
            r.compacted is Some <==> old(self).engine.pending() + 1 >= old(self).engine.threshold(),
            match r.compacted {
                Some((root, left)) => {
                    &&& final(self).epochs.current_epoch == old(self).epochs.current_epoch + 1
                    &&& final(self).epochs.finalized_root == Some(root)
                    &&& root == crate::crdt::merkle_dag::merkle_root(seq![r.hash])
                    &&& left == final(self).engine.order().len()
                },
                None => final(self).epochs == old(self).epochs,
            },
    {
        let hash = self.engine.append_mutation(data_hash, signature, vclock, evidence);
        if self.engine.pending_mutations() == 0 {
            let root = self.engine.get_merkle_root();
            self.epochs.finalize_epoch(root);
            let left = self.engine.len();
            AppendOutcome { hash, compacted: Some((root, left)) }
        } else {
            AppendOutcome { hash, compacted: None }
        }
    }
}

impl CrdtState {
    /// Merge a batch of nodes from a peer (see `merge_fold`). When anything
    /// new was stored, the frontier is rebuilt from the stored nodes.
    pub fn merge(&mut self, nodes: Vec<DagNode>) -> (r: MergeOutcome)
        requires
            old(self).engine.wf(),
        ensures
            final(self).engine.wf(),
            ({
                let (d, o, q, st, pr, ve) = merge_fold(
                    old(self).engine.dag(),
                    old(self).engine.order(),
                    old(self).quorum.state(),
                    nodes@.map_values(|n: DagNode| n@),
                );
                &&& final(self).engine.dag() == d
                &&& final(self).engine.order() == o
                &&& final(self).quorum.state() == q
                &&& r.stored@ == st
                &&& r.equivocations@.map_values(|p: EquivocationProof| p@) == pr
                &&& r.verified@.map_values(|v: (String, String)| (v.0@, v.1@)) == ve
                &&& final(self).engine.heads_view() == if st.len() > 0 {
                    frontier_of(d, o)
                } else {
                    old(self).engine.heads_view()
                }
                &&& st.len() > 0 ==> forall|h: Hash32|
                    #[trigger] final(self).engine.heads_view().contains(h) <==> (d.contains_key(h)
                        && !has_child(d, h))
            }),
            final(self).engine.pending() == old(self).engine.pending(),
            final(self).engine.threshold() == old(self).engine.threshold(),
            final(self).epochs == old(self).epochs,
    {
        proof {
            old(self).engine.lemma_order_lists_stored();
        }
        let ghost nv = nodes@.map_values(|n: DagNode| n@);
        let ghost q0 = self.quorum.state();
        let ghost dag0 = self.engine.dag();
        let ghost order0 = self.engine.order();
        let ghost heads0 = self.engine.heads_view();
        let mut stored: Vec<Hash32> = Vec::new();
        let mut equivocations: Vec<EquivocationProof> = Vec::new();
        let mut verified: Vec<(String, String)> = Vec::new();
        let mut i: usize = 0;
        while i < nodes.len()
            invariant
                i <= nodes@.len(),
                nv == nodes@.map_values(|n: DagNode| n@),
                self.engine.wf(),
                ({
                    let (d, o, q, st, pr, ve) = merge_fold(dag0, order0, q0, nv.take(i as int));
                    &&& self.engine.dag() == d
                    &&& self.engine.order() == o
                    &&& self.quorum.state() == q
                    &&& stored@ == st
                    &&& equivocations@.map_values(|p: EquivocationProof| p@) == pr
                    &&& verified@.map_values(|v: (String, String)| (v.0@, v.1@)) == ve
                }),
                self.engine.heads_view() == heads0,
                self.engine.pending() == old(self).engine.pending(),
                self.engine.threshold() == old(self).engine.threshold(),
                self.epochs == old(self).epochs,
            decreases nodes@.len() - i,
        {
            let node = nodes[i].clone();
            let hash = node.compute_hash();
            let ghost prev = merge_fold(dag0, order0, q0, nv.take(i as int));
            proof {
                assert(nv.take(i + 1).drop_last() =~= nv.take(i as int));
                assert(nv.take(i + 1).last() == node@);
            }
            if !self.engine.contains(&hash) {
                let ghost qs0 = self.quorum.state();
                let found = self.quorum.check_equivocation(&node, hash);
                proof {
                    assert(self.quorum.state() == check_step(qs0, node@, hash).0);
                }
                match found {
                    Some(p) => {
                        let ghost e0 = equivocations@.map_values(|p: EquivocationProof| p@);
                        equivocations.push(p);
                        proof {
                            assert(equivocations@.map_values(|p: EquivocationProof| p@) =~= e0.push(
                                check_step(qs0, node@, hash).1.unwrap(),
                            ));
                        }
                    },
                    None => {},
                }
                let ghost qs1 = self.quorum.state();
                match &node.evidence {
                    Some(ev) => {
                        let key = signer_key_exec(&node.signature);
                        let reached = self.quorum.observe(key, ev);
                        proof {
                            assert(self.quorum.state() == observe_step(qs1, key, ev.prompt@, ev.decision@).0);
                        }
                        if reached {
                            let ghost v0 = verified@.map_values(|v: (String, String)| (v.0@, v.1@));
                            verified.push((ev.prompt.clone(), ev.decision.clone()));
                            proof {
                                assert(verified@.map_values(|v: (String, String)| (v.0@, v.1@)) =~= v0.push(
                                    (ev.prompt@, ev.decision@),
                                ));
                            }
                        }
                    },
                    None => {},
                }
                self.engine.store_node(hash, node);
                stored.push(hash);
            }
            i = i + 1;
        }
        if stored.len() > 0 {
            self.engine.recompute_heads();
        }
        proof {
            assert(nv.take(i as int) =~= nv);
            if stored@.len() > 0 {
                assert forall|h: Hash32| #[trigger] self.engine.heads_view().contains(h) <==> (
                self.engine.dag().contains_key(h) && !has_child(self.engine.dag(), h)) by {
                    law_merge_heads_unparented(dag0, order0, q0, nv, h);
                }
            }
        }
        MergeOutcome { stored, equivocations, verified }
    }
}

/// Some node of `ns` has hash `h`.
pub open spec fn hashed_in(ns: Seq<NodeView>, h: Hash32) -> bool {
    exists|i: int| 0 <= i < ns.len() && node_hash(#[trigger] ns[i]) == h
}

/// What a merge leaves: stored hashes stay with their nodes, every hash of
/// the batch is stored, and a hash newly stored holds a node of the batch.
proof fn lemma_fold_dag(dag: Map<Hash32, NodeView>, order: Seq<Hash32>, q: QuorumState, ns: Seq<NodeView>)
    ensures
        ({
            let d = merge_fold(dag, order, q, ns).0;
            &&& forall|h: Hash32| #[trigger] d.contains_key(h) <==> (dag.contains_key(h) || hashed_in(ns, h))
            &&& forall|h: Hash32| #[trigger] dag.contains_key(h) ==> d[h] == dag[h]
            &&& forall|h: Hash32|
                #[trigger] d.contains_key(h) && !dag.contains_key(h) ==> exists|i: int|
                    0 <= i < ns.len() && node_hash(ns[i]) == h && #[trigger] ns[i] == d[h]
        }),
    decreases ns.len(),
{
    if ns.len() > 0 {
        let p = ns.drop_last();
        lemma_fold_dag(dag, order, q, p);
        let d0 = merge_fold(dag, order, q, p).0;
        let d = merge_fold(dag, order, q, ns).0;
        let n = ns.last();
        assert forall|h: Hash32| hashed_in(ns, h) <==> (hashed_in(p, h) || node_hash(n) == h) by {
            if hashed_in(ns, h) {
                let i = choose|i: int| 0 <= i < ns.len() && node_hash(#[trigger] ns[i]) == h;
                if i < ns.len() - 1 {
                    assert(p[i] == ns[i]);
                }
            }
            if hashed_in(p, h) {
                let i = choose|i: int| 0 <= i < p.len() && node_hash(#[trigger] p[i]) == h;
                assert(ns[i] == p[i]);
            }
            if node_hash(n) == h {
                assert(ns[ns.len() - 1] == n);
            }
        }
        assert forall|h: Hash32| #[trigger] d.contains_key(h) && !dag.contains_key(h) implies exists|i: int|
            0 <= i < ns.len() && node_hash(ns[i]) == h && #[trigger] ns[i] == d[h] by {
            if d0.contains_key(h) {
                let i = choose|i: int| 0 <= i < p.len() && node_hash(p[i]) == h && #[trigger] p[i] == d0[h];
                assert(ns[i] == p[i]);
            } else {
                assert(ns[ns.len() - 1] == n);
            }
        }
    }
}

/// The order of a merged DAG lists each stored hash once.
proof fn lemma_fold_order(dag: Map<Hash32, NodeView>, order: Seq<Hash32>, q: QuorumState, ns: Seq<NodeView>)
    requires
        order.no_duplicates(),
        forall|h: Hash32| #[trigger] dag.contains_key(h) <==> order.contains(h),
    ensures
        ({
            let r = merge_fold(dag, order, q, ns);
            &&& r.1.no_duplicates()
            &&& forall|h: Hash32| #[trigger] r.0.contains_key(h) <==> r.1.contains(h)
        }),
    decreases ns.len(),
{
    if ns.len() > 0 {
        let p = ns.drop_last();
        lemma_fold_order(dag, order, q, p);
        let r0 = merge_fold(dag, order, q, p);
        let h = node_hash(ns.last());
        if !r0.0.contains_key(h) {
            let o = r0.1.push(h);
            assert forall|x: Hash32| o.contains(x) <==> (r0.1.contains(x) || x == h) by {
                if o.contains(x) {
                    let i = choose|i: int| 0 <= i < o.len() && o[i] == x;
                    if i < r0.1.len() {
                        assert(r0.1[i] == x);
                    }
                }
                if r0.1.contains(x) {
                    let i = choose|i: int| 0 <= i < r0.1.len() && r0.1[i] == x;
                    assert(o[i] == x);
                }
                if x == h {
                    assert(o[r0.1.len() as int] == h);
                }
            }
        }
    }
}

/// Merging a batch whose every hash is already stored changes nothing and
/// reports nothing.
proof fn lemma_fold_all_stored(dag: Map<Hash32, NodeView>, order: Seq<Hash32>, q: QuorumState, ns: Seq<NodeView>)
    requires
        forall|i: int| 0 <= i < ns.len() ==> dag.contains_key(node_hash(#[trigger] ns[i])),
    ensures
        merge_fold(dag, order, q, ns) == (dag, order, q, Seq::<Hash32>::empty(), Seq::<ProofView>::empty(), Seq::<(Seq<char>, Seq<char>)>::empty()),
    decreases ns.len(),
{
    if ns.len() > 0 {
        let p = ns.drop_last();
        assert forall|i: int| 0 <= i < p.len() implies dag.contains_key(node_hash(#[trigger] p[i])) by {
            assert(p[i] == ns[i]);
        }
        lemma_fold_all_stored(dag, order, q, p);
        assert(dag.contains_key(node_hash(ns[ns.len() - 1])));
    }
}

proof fn lemma_fold_stored(dag: Map<Hash32, NodeView>, order: Seq<Hash32>, q: QuorumState, ns: Seq<NodeView>)
    ensures
        ({
            let r = merge_fold(dag, order, q, ns);
            &&& r.3.no_duplicates()
            &&& forall|h: Hash32| #[trigger] r.3.contains(h) <==> (!dag.contains_key(h) && r.0.contains_key(h))
        }),
    decreases ns.len(),
{
    if ns.len() > 0 {
        let p = ns.drop_last();
        lemma_fold_stored(dag, order, q, p);
        lemma_fold_dag(dag, order, q, p);
        let r0 = merge_fold(dag, order, q, p);
        let r = merge_fold(dag, order, q, ns);
        let h = node_hash(ns.last());
        if !r0.0.contains_key(h) {
            assert(!r0.3.contains(h));
            assert forall|x: Hash32| #[trigger] r.3.contains(x) <==> (r0.3.contains(x) || x == h) by {
                if r.3.contains(x) {
                    let i = choose|i: int| 0 <= i < r.3.len() && r.3[i] == x;
                    if i < r0.3.len() {
                        assert(r0.3[i] == x);
                    }
                }
                if r0.3.contains(x) {
                    let i = choose|i: int| 0 <= i < r0.3.len() && r0.3[i] == x;
                    assert(r.3[i] == x);
                }
                if x == h {
                    assert(r.3[r.3.len() - 1] == h);
                }
            }
        }
    }
}

/// A merge reports each newly stored hash once: the hashes it stores are
/// pairwise distinct and are exactly the hashes of the batch that were not
/// stored before, so their number is the number of distinct new hashes.
pub proof fn law_merge_stores_new_hashes_once(
    dag: Map<Hash32, NodeView>,
    order: Seq<Hash32>,
    q: QuorumState,
    ns: Seq<NodeView>,
)
    ensures
        ({
            let r = merge_fold(dag, order, q, ns);
            &&& r.3.no_duplicates()
            &&& forall|h: Hash32| #[trigger] r.3.contains(h) <==> (!dag.contains_key(h) && hashed_in(ns, h))
            &&& r.3.to_set() == Set::new(|h: Hash32| !dag.contains_key(h) && hashed_in(ns, h))
        }),
{
    lemma_fold_stored(dag, order, q, ns);
    lemma_fold_dag(dag, order, q, ns);
    let r = merge_fold(dag, order, q, ns);
    assert(r.3.to_set() =~= Set::new(|h: Hash32| !dag.contains_key(h) && hashed_in(ns, h)));
}

/// Merging the same batch twice is the same as merging it once: the second
/// merge stores nothing, finds nothing, leaves the DAG, its order and the
/// quorum as they are, and so leaves the frontier alone too.
pub proof fn law_merge_idempotent(dag: Map<Hash32, NodeView>, order: Seq<Hash32>, q: QuorumState, ns: Seq<NodeView>)
    ensures
        ({
            let first = merge_fold(dag, order, q, ns);
            let second = merge_fold(first.0, first.1, first.2, ns);
            &&& second.0 == first.0
            &&& second.1 == first.1
            &&& second.2 == first.2
            &&& second.3.len() == 0
            &&& second.4.len() == 0
            &&& second.5.len() == 0
        }),
{
    lemma_fold_dag(dag, order, q, ns);
    let first = merge_fold(dag, order, q, ns);
    assert forall|i: int| 0 <= i < ns.len() implies first.0.contains_key(node_hash(#[trigger] ns[i])) by {
        assert(hashed_in(ns, node_hash(ns[i])));
    }
    lemma_fold_all_stored(first.0, first.1, first.2, ns);
}

/// Replicas converge: two replicas in the same state that receive the same
/// nodes, in any order and batching, store the same DAG, hold the same
/// set of hashes, and compute the same frontier root, provided distinct
/// nodes of the batch have distinct hashes.
pub proof fn law_merge_converges(
    dag: Map<Hash32, NodeView>,
    order: Seq<Hash32>,
    q: QuorumState,
    a: Seq<NodeView>,
    b: Seq<NodeView>,
)
    requires
        order.no_duplicates(),
        forall|h: Hash32| #[trigger] dag.contains_key(h) <==> order.contains(h),
        a.to_set() == b.to_set(),
        forall|x: NodeView, y: NodeView|
            a.contains(x) && a.contains(y) && node_hash(x) == node_hash(y) ==> x == y,
    ensures
        ({
            let ra = merge_fold(dag, order, q, a);
            let rb = merge_fold(dag, order, q, b);
            &&& ra.0 == rb.0
            &&& ra.1.to_set() == rb.1.to_set()
            &&& merkle_root(frontier_of(ra.0, ra.1)) == merkle_root(frontier_of(rb.0, rb.1))
        }),
{
    let ra = merge_fold(dag, order, q, a);
    let rb = merge_fold(dag, order, q, b);
    lemma_fold_dag(dag, order, q, a);
    lemma_fold_dag(dag, order, q, b);
    lemma_fold_order(dag, order, q, a);
    lemma_fold_order(dag, order, q, b);
    assert forall|h: Hash32| hashed_in(a, h) <==> hashed_in(b, h) by {
        if hashed_in(a, h) {
            let i = choose|i: int| 0 <= i < a.len() && node_hash(#[trigger] a[i]) == h;
            assert(a.to_set().contains(a[i]));
            assert(b.contains(a[i]));
            let j = choose|j: int| 0 <= j < b.len() && b[j] == a[i];
            assert(node_hash(b[j]) == h);
        }
        if hashed_in(b, h) {
            let j = choose|j: int| 0 <= j < b.len() && node_hash(#[trigger] b[j]) == h;
            assert(b.to_set().contains(b[j]));
            assert(a.contains(b[j]));
            let i = choose|i: int| 0 <= i < a.len() && a[i] == b[j];
            assert(node_hash(a[i]) == h);
        }
    }
    assert(ra.0 =~= rb.0) by {
        assert forall|h: Hash32| #[trigger] ra.0.contains_key(h) implies ra.0[h] == rb.0[h] by {
            if !dag.contains_key(h) {
                assert(hashed_in(a, h));
                assert(rb.0.contains_key(h));
                let i = choose|i: int| 0 <= i < a.len() && node_hash(a[i]) == h && #[trigger] a[i] == ra.0[h];
                let j = choose|j: int| 0 <= j < b.len() && node_hash(b[j]) == h && #[trigger] b[j] == rb.0[h];
                assert(b.contains(b[j]));
                assert(b.to_set().contains(b[j]));
                assert(a.contains(b[j]));
                assert(a.contains(a[i]));
            }
        }
    }
    assert(ra.1.to_set() =~= rb.1.to_set()) by {
        assert forall|h: Hash32| ra.1.to_set().contains(h) <==> rb.1.to_set().contains(h) by {
            assert(ra.1.contains(h) <==> ra.0.contains_key(h));
            assert(rb.1.contains(h) <==> rb.0.contains_key(h));
        }
    }
    let pk = |h: Hash32| !has_child(ra.0, h);
    let fa = frontier_of(ra.0, ra.1);
    let fb = frontier_of(rb.0, rb.1);
    lemma_filter_nodup(ra.1, pk);
    lemma_filter_nodup(rb.1, pk);
    assert(fa.to_set() =~= fb.to_set()) by {
        broadcast use vstd::seq_lib::group_filter_ensures;

        assert forall|h: Hash32| fa.to_set().contains(h) <==> fb.to_set().contains(h) by {
            if fa.contains(h) {
                ra.1.lemma_filter_contains_rev(pk, h);
                assert(ra.1.to_set().contains(h));
                assert(rb.1.to_set().contains(h));
                assert(rb.1.contains(h));
                let j = choose|j: int| 0 <= j < rb.1.len() && rb.1[j] == h;
                rb.1.lemma_filter_contains(pk, j);
            }
            if fb.contains(h) {
                rb.1.lemma_filter_contains_rev(pk, h);
                assert(rb.1.to_set().contains(h));
                assert(ra.1.to_set().contains(h));
                assert(ra.1.contains(h));
                let j = choose|j: int| 0 <= j < ra.1.len() && ra.1[j] == h;
                ra.1.lemma_filter_contains(pk, j);
            }
        }
    }
    law_merkle_root_order_independent(fa, fb);
}

/// The DAG and order after storing each `(hash, node)` pair in turn (a
/// hash already stored keeps its node).
pub open spec fn restore_fold(
    dag: Map<Hash32, NodeView>,
    order: Seq<Hash32>,
    pairs: Seq<(Hash32, NodeView)>,
) -> (Map<Hash32, NodeView>, Seq<Hash32>)
    decreases pairs.len(),
{
    if pairs.len() == 0 {
        (dag, order)
    } else {
        let (d, o) = restore_fold(dag, order, pairs.drop_last());
        let (h, n) = pairs.last();
        (dag_add(d, h, n), order_add(d, o, h))
    }
}

impl CrdtState {
    /// Load nodes recovered from storage under their stored hashes, then
    /// rebuild the frontier from everything stored.
    pub fn restore(&mut self, nodes: Vec<(Hash32, DagNode)>)
        requires
            old(self).engine.wf(),
        ensures
            final(self).engine.wf(),
            ({
                let (d, o) = restore_fold(
                    old(self).engine.dag(),
                    old(self).engine.order(),
                    nodes@.map_values(|e: (Hash32, DagNode)| (e.0, e.1@)),
                );
                &&& final(self).engine.dag() == d
                &&& final(self).engine.order() == o
                &&& final(self).engine.heads_view() == frontier_of(d, o)
            }),
            final(self).engine.pending() == old(self).engine.pending(),
            final(self).engine.threshold() == old(self).engine.threshold(),
            final(self).quorum == old(self).quorum,
            final(self).epochs == old(self).epochs,
    {
        let ghost pv = nodes@.map_values(|e: (Hash32, DagNode)| (e.0, e.1@));
        let ghost dag0 = self.engine.dag();
        let ghost order0 = self.engine.order();
        let mut i: usize = 0;
        while i < nodes.len()
            invariant
                i <= nodes@.len(),
                pv == nodes@.map_values(|e: (Hash32, DagNode)| (e.0, e.1@)),
                self.engine.wf(),
                ({
                    let (d, o) = restore_fold(dag0, order0, pv.take(i as int));
                    &&& self.engine.dag() == d
                    &&& self.engine.order() == o
                }),
                self.engine.pending() == old(self).engine.pending(),
                self.engine.threshold() == old(self).engine.threshold(),
                self.quorum == old(self).quorum,
                self.epochs == old(self).epochs,
            decreases nodes@.len() - i,
        {
            proof {
                assert(pv.take(i + 1).drop_last() =~= pv.take(i as int));
                assert(pv.take(i + 1).last() == pv[i as int]);
            }
            let hash = nodes[i].0;
            let node = nodes[i].1.clone();
            self.engine.store_node(hash, node);
            i = i + 1;
        }
        proof {
            assert(pv.take(i as int) =~= pv);
        }
        self.engine.recompute_heads();
    }
}


/// The order lists exactly the stored hashes.
pub open spec fn order_matches(dag: Map<Hash32, NodeView>, order: Seq<Hash32>) -> bool {
    forall|h: Hash32| #[trigger] dag.contains_key(h) <==> order.contains(h)
}

proof fn lemma_merge_fold_order(dag: Map<Hash32, NodeView>, order: Seq<Hash32>, q: QuorumState, ns: Seq<NodeView>)
    requires
        order_matches(dag, order),
    ensures
        order_matches(merge_fold(dag, order, q, ns).0, merge_fold(dag, order, q, ns).1),
    decreases ns.len(),
{
    if ns.len() > 0 {
        lemma_merge_fold_order(dag, order, q, ns.drop_last());
        let (d, o, q1, st, pr, ve) = merge_fold(dag, order, q, ns.drop_last());
        let h = node_hash(ns.last());
        if !d.contains_key(h) {
            let (d2, o2) = (merge_fold(dag, order, q, ns).0, merge_fold(dag, order, q, ns).1);
            assert(d2 == d.insert(h, ns.last()));
            assert(o2 == o.push(h));
            assert forall|x: Hash32| #[trigger] d2.contains_key(x) <==> o2.contains(x) by {
                if x != h {
                    if o2.contains(x) {
                        let k = choose|k: int| 0 <= k < o2.len() && o2[k] == x;
                        assert(o[k] == x);
                    }
                    if o.contains(x) {
                        let k = choose|k: int| 0 <= k < o.len() && o[k] == x;
                        assert(o2[k] == x);
                    }
                } else {
                    assert(o2[o2.len() - 1] == h);
                }
            }
        }
    }
}

/// After a merge the order still lists exactly the stored hashes, and the
/// frontier that a merge storing anything rebuilds (`frontier_of` of the
/// result) holds exactly the stored hashes that no stored node names as a
/// parent.
pub proof fn law_merge_heads_unparented(
    dag: Map<Hash32, NodeView>,
    order: Seq<Hash32>,
    q: QuorumState,
    ns: Seq<NodeView>,
    h: Hash32,
)
    requires
        order_matches(dag, order),
    ensures
        order_matches(merge_fold(dag, order, q, ns).0, merge_fold(dag, order, q, ns).1),
        frontier_of(merge_fold(dag, order, q, ns).0, merge_fold(dag, order, q, ns).1).contains(h) <==> (
        merge_fold(dag, order, q, ns).0.contains_key(h) && !has_child(merge_fold(dag, order, q, ns).0, h)),
{
    lemma_merge_fold_order(dag, order, q, ns);
    let d = merge_fold(dag, order, q, ns).0;
    let o = merge_fold(dag, order, q, ns).1;
    let pred = |x: Hash32| !has_child(d, x);
    o.filter_lemma(pred);
    if o.filter(pred).contains(h) {
        let k = choose|k: int| 0 <= k < o.filter(pred).len() && o.filter(pred)[k] == h;
        assert(pred(o.filter(pred)[k]));
        assert(o.filter(pred).len() <= o.len());
        assert(o.contains(h)) by {
            lemma_filter_member(o, pred, k);
        }
    }
    if d.contains_key(h) && !has_child(d, h) {
        assert(o.contains(h));
        let k = choose|k: int| 0 <= k < o.len() && o[k] == h;
        assert(pred(o[k]));
    }
}

proof fn lemma_filter_member(s: Seq<Hash32>, pred: spec_fn(Hash32) -> bool, k: int)
    requires
        0 <= k < s.filter(pred).len(),
    ensures
        s.contains(s.filter(pred)[k]),
    decreases s.len(),
{
    reveal(Seq::filter);
    if s.len() > 0 {
        let f = s.drop_last().filter(pred);
        if k < f.len() {
            lemma_filter_member(s.drop_last(), pred, k);
            let j = choose|j: int| 0 <= j < s.drop_last().len() && s.drop_last()[j] == f[k];
            assert(s[j] == f[k]);
            if pred(s.last()) {
                assert(s.filter(pred) == f.push(s.last()));
            } else {
                assert(s.filter(pred) == f);
            }
            assert(s.filter(pred)[k] == f[k]);
        } else {
            assert(pred(s.last()));
            assert(s.filter(pred) == f.push(s.last()));
            assert(s[s.len() - 1] == s.filter(pred)[k]);
        }
    }
}

} // verus!
