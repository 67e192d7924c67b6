//! Nodes of the Merkle DAG and their content hash.
use vstd::prelude::*;
use vstd::utf8::encode_utf8;
use crate::config::{DAG_HISTORY_DEPTH, GC_MUTATION_THRESHOLD};
use crate::crdt::arena::DagArena;
use crate::crypto::firewall::{blake3_of, SecurityFirewall};
use crate::ordering::{
    compare_hash, hash_eq, hash_lt, increasing, lemma_hash_order, lemma_insert_at, lemma_sort_increasing,
    lemma_sort_multiset, lemma_sort_unique, sort_stable, strict_total_on,
};
use crate::epistemic::reducer::{append_bytes, le_bytes, le_u64};
use crate::protocol::envelope::Hash32;
use smallvec::SmallVec;

verus! {

/// The parent hashes of a node, kept in a `SmallVec` that stores up to two
/// of them inline.
#[verifier::external_body]
#[derive(Debug)]
pub struct ParentList {
    inner: SmallVec<[Hash32; 2]>,
}

/// The hashes a parent list holds, in order.
pub uninterp spec fn parent_list(v: ParentList) -> Seq<Hash32>;

/// `SmallVec::from_vec`: a list holding the vector's hashes, in order.
#[verifier::external_body]
fn parents_from(v: Vec<Hash32>) -> (r: ParentList)
    ensures
        parent_list(r) == v@,
{
    ParentList { inner: SmallVec::from_vec(v) }
}

/// `SmallVec::as_slice`: the hashes of the list, in order.
#[verifier::external_body]
fn parents_slice(v: &ParentList) -> (r: &[Hash32])
    ensures
        r@ == parent_list(*v),
{
    v.inner.as_slice()
}

impl ParentList {
    /// An empty list.
    pub fn new() -> (r: Self)
        ensures
            parent_list(r) == Seq::<Hash32>::empty(),
    {
        parents_from(Vec::new())
    }

    /// The list of the given hashes, in order.
    pub fn from_vec(v: Vec<Hash32>) -> (r: Self)
        ensures
            parent_list(r) == v@,
    {
        parents_from(v)
    }

    /// The hashes, in order.
    pub fn as_slice(&self) -> (r: &[Hash32])
        ensures
            r@ == parent_list(*self),
    {
        parents_slice(self)
    }
}

/// Audit trail of a decision.
#[derive(Debug)]
pub struct AiEvidence {
    /// Original input prompt
    pub prompt: String,
    /// Deterministic output
    pub decision: String,
    /// Hash of the logic or model used
    pub model_hash: Hash32,
    /// Local observation time
    pub timestamp: u64,
}

/// What an `AiEvidence` holds, as mathematical values.
pub struct EvidenceView {
    pub prompt: Seq<char>,
    pub decision: Seq<char>,
    pub model_hash: Hash32,
    pub timestamp: u64,
}

impl View for AiEvidence {
    type V = EvidenceView;

    open spec fn view(&self) -> EvidenceView {
        EvidenceView {
            prompt: self.prompt@,
            decision: self.decision@,
            model_hash: self.model_hash,
            timestamp: self.timestamp,
        }
    }
}

impl Clone for AiEvidence {
    fn clone(&self) -> (r: Self)
        ensures
            r@ == self@,
    {
        AiEvidence {
            prompt: self.prompt.clone(),
            decision: self.decision.clone(),
            model_hash: self.model_hash,
            timestamp: self.timestamp,
        }
    }
}

/// A node of the Merkle DAG.
#[derive(Debug)]
pub struct DagNode {
    /// Causal links
    pub parents: ParentList,
    /// Cryptographic proof of origin
    pub signature: [u8; 64],
    /// Deterministic payload hash
    pub data_hash: Hash32,
    /// Structural causality: (origin, tick) entries in ascending origin order
    pub vclock: Vec<(String, u64)>,
    /// Optional decision audit trail
    pub evidence: Option<AiEvidence>,
}

/// What a `DagNode` holds, as mathematical values.
pub struct NodeView {
    pub parents: Seq<Hash32>,
    pub signature: [u8; 64],
    pub data_hash: Hash32,
    pub vclock: Seq<(Seq<char>, u64)>,
    pub evidence: Option<EvidenceView>,
}

impl View for DagNode {
    type V = NodeView;

    open spec fn view(&self) -> NodeView {
        NodeView {
            parents: parent_list(self.parents),
            signature: self.signature,
            data_hash: self.data_hash,
            vclock: self.vclock@.map_values(|e: (String, u64)| (e.0@, e.1)),
            evidence: match self.evidence {
                Some(e) => Some(e@),
                None => None,
            },
        }
    }
}

/// The parent hashes, one after another.
pub open spec fn hashes_bytes(hs: Seq<Hash32>) -> Seq<u8>
    decreases hs.len(),
{
    if hs.len() == 0 {
        Seq::empty()
    } else {
        hashes_bytes(hs.drop_last()) + hs.last()@
    }
}

/// Each vector-clock entry as its origin's UTF-8 bytes followed by the
/// tick's 8 little-endian bytes.
pub open spec fn vclock_bytes(vc: Seq<(Seq<char>, u64)>) -> Seq<u8>
    decreases vc.len(),
{
    if vc.len() == 0 {
        Seq::empty()
    } else {
        vclock_bytes(vc.drop_last()) + encode_utf8(vc.last().0) + le_bytes(vc.last().1 as nat, 8)
    }
}

/// The evidence's prompt, decision, model hash and timestamp, when present.
pub open spec fn evidence_bytes(e: Option<EvidenceView>) -> Seq<u8> {
    match e {
        Some(ev) => encode_utf8(ev.prompt) + encode_utf8(ev.decision) + ev.model_hash@ + le_bytes(
            ev.timestamp as nat,
            8,
        ),
        None => Seq::empty(),
    }
}

/// The bytes a node's content hash covers, in order: parents, signature,
/// payload hash, vector clock, evidence.
pub open spec fn node_bytes(n: NodeView) -> Seq<u8> {
    hashes_bytes(n.parents) + n.signature@ + n.data_hash@ + vclock_bytes(n.vclock) + evidence_bytes(
        n.evidence,
    )
}

/// The content hash of a node.
pub open spec fn node_hash(n: NodeView) -> Hash32 {
    blake3_of(node_bytes(n))
}

fn push_bytes<const N: usize>(buf: &mut Vec<u8>, b: &[u8; N])
    ensures
        final(buf)@ == old(buf)@ + b@,
{
    let ghost b0 = buf@;
    let mut i: usize = 0;
    while i < N
        invariant
            i <= N,
            b@.len() == N,
            buf@ == b0 + b@.take(i as int),
        decreases N - i,
    {
        buf.push(b[i]);
        proof {
            assert(b@.take(i + 1) =~= b@.take(i as int).push(b@[i as int]));
        }
        i = i + 1;
    }
    proof {
        assert(b@.take(N as int) =~= b@);
    }
}

fn push_str_bytes(buf: &mut Vec<u8>, s: &String)
    ensures
        final(buf)@ == old(buf)@ + encode_utf8(s@),
{
    let bytes = s.as_str().as_bytes();
    let ghost b0 = buf@;
    let mut i: usize = 0;
    while i < bytes.len()
        invariant
            i <= bytes@.len(),
            bytes@ == encode_utf8(s@),
            buf@ == b0 + bytes@.take(i as int),
        decreases bytes@.len() - i,
    {
        buf.push(bytes[i]);
        proof {
            assert(bytes@.take(i + 1) =~= bytes@.take(i as int).push(bytes@[i as int]));
        }
        i = i + 1;
    }
    proof {
        assert(bytes@.take(bytes@.len() as int) =~= bytes@);
    }
}

impl Clone for DagNode {
    fn clone(&self) -> (r: Self)
        ensures
            r@ == self@,
    {
        let ps = parents_slice(&self.parents);
        let mut parents: Vec<Hash32> = Vec::new();
        let mut i: usize = 0;
        while i < ps.len()
            invariant
                i <= ps@.len(),
                parents@ == ps@.take(i as int),
            decreases ps@.len() - i,
        {
            parents.push(ps[i]);
            proof {
                assert(ps@.take(i + 1) =~= ps@.take(i as int).push(ps@[i as int]));
            }
            i = i + 1;
        }
        proof {
            assert(ps@.take(i as int) =~= ps@);
        }
        let parents = parents_from(parents);
        let mut vclock: Vec<(String, u64)> = Vec::new();
        let mut j: usize = 0;
        while j < self.vclock.len()
            invariant
                j <= self.vclock@.len(),
                vclock@.len() == j,
                forall|k: int|
                    0 <= k < j ==> (#[trigger] vclock@[k]).0@ == self.vclock@[k].0@ && vclock@[k].1
                        == self.vclock@[k].1,
            decreases self.vclock@.len() - j,
        {
            let k = self.vclock[j].0.clone();
            vclock.push((k, self.vclock[j].1));
            j = j + 1;
        }
        let evidence = match &self.evidence {
            Some(e) => Some(e.clone()),
            None => None,
        };
        let r = DagNode {
            parents,
            signature: self.signature,
            data_hash: self.data_hash,
            vclock,
            evidence,
        };
        proof {
            assert(r@.vclock =~= self@.vclock);
        }
        r
    }
}

impl DagNode {
    /// The node's content hash: BLAKE3 over its parents, signature, payload
    /// hash, vector clock (origin bytes and little-endian tick, in order)
    /// and evidence, when present.
    pub fn compute_hash(&self) -> (r: Hash32)
        ensures
            r == node_hash(self@),
    {
        let ps = parents_slice(&self.parents);
        let mut buf: Vec<u8> = Vec::new();
        let mut i: usize = 0;
        while i < ps.len()
            invariant
                i <= ps@.len(),
                buf@ == hashes_bytes(ps@.take(i as int)),
            decreases ps@.len() - i,
        {
            push_bytes(&mut buf, &ps[i]);
            proof {
                assert(ps@.take(i + 1).drop_last() =~= ps@.take(i as int));
            }
            i = i + 1;
        }
        proof {
            assert(ps@.take(i as int) =~= ps@);
        }
        push_bytes(&mut buf, &self.signature);
        push_bytes(&mut buf, &self.data_hash);
        let ghost head = buf@;
        let ghost vc = self@.vclock;
        let mut j: usize = 0;
        while j < self.vclock.len()
            invariant
                j <= self.vclock@.len(),
                vc == self@.vclock,
                buf@ == head + vclock_bytes(vc.take(j as int)),
            decreases self.vclock@.len() - j,
        {
            let ghost b0 = buf@;
            push_str_bytes(&mut buf, &self.vclock[j].0);
            let t = le_u64(self.vclock[j].1);
            append_bytes(&mut buf, &t);
            proof {
                assert(vc.take(j + 1).drop_last() =~= vc.take(j as int));
                assert(vc.take(j + 1).last() == vc[j as int]);
                assert(buf@ =~= head + vclock_bytes(vc.take(j + 1)));
            }
            j = j + 1;
        }
        proof {
            assert(vc.take(j as int) =~= vc);
        }
        match &self.evidence {
            Some(e) => {
                push_str_bytes(&mut buf, &e.prompt);
                push_str_bytes(&mut buf, &e.decision);
                push_bytes(&mut buf, &e.model_hash);
                let t = le_u64(e.timestamp);
                append_bytes(&mut buf, &t);
            },
            None => {},
        }
        proof {
            assert(buf@ =~= node_bytes(self@));
        }
        SecurityFirewall::hash(buf.as_slice())
    }
}

/// Strict byte-lexicographic order of hashes.
pub open spec fn hash_before() -> spec_fn(Hash32, Hash32) -> bool {
    |a: Hash32, b: Hash32| hash_lt(a, b)
}

/// The all-zero hash.
pub open spec fn zero_hash() -> Hash32 {
    choose|h: Hash32| h@ == Seq::new(32, |i: int| 0u8)
}

/// The all-zero hash, computed.
pub fn zero_hash_exec() -> (r: Hash32)
    ensures
        r == zero_hash(),
{
    let z: Hash32 = [0u8; 32];
    proof {
        assert(z@ =~= Seq::new(32, |i: int| 0u8));
        let c = zero_hash();
        assert(c@ == Seq::new(32, |i: int| 0u8));
        assert(c@ =~= z@);
        broadcast use vstd::array::axiom_array_ext_equal;

        assert(c =~= z);
    }
    z
}

/// The Merkle root of a frontier: zero when empty, otherwise BLAKE3 over
/// the head hashes in ascending byte order.
pub open spec fn merkle_root(heads: Seq<Hash32>) -> Hash32 {
    if heads.len() == 0 {
        zero_hash()
    } else {
        blake3_of(hashes_bytes(sort_stable(heads, hash_before())))
    }
}

/// Hash order is strict and total on distinct hashes.
pub proof fn lemma_hashes_strict_total(s: Seq<Hash32>)
    requires
        s.no_duplicates(),
    ensures
        strict_total_on(s, hash_before()),
{
    assert forall|i: int, j: int|
        0 <= i < s.len() && 0 <= j < s.len() && i != j implies hash_before()(s[i], s[j])
        || hash_before()(s[j], s[i]) by {
        lemma_hash_order(s[i], s[j], s[i]);
    }
    assert forall|i: int| 0 <= i < s.len() implies !hash_before()(#[trigger] s[i], s[i]) by {
        lemma_hash_order(s[i], s[i], s[i]);
    }
    assert forall|x: Hash32, y: Hash32, z: Hash32|
        #[trigger] hash_before()(x, y) && #[trigger] hash_before()(y, z) && s.contains(x) && s.contains(y)
            && s.contains(z) implies hash_before()(x, z) by {
        lemma_hash_order(x, y, z);
    }
}

/// Frontiers listing the same heads once each, in any order, have the same
/// Merkle root: the root depends on the set of heads alone.
pub proof fn law_merkle_root_order_independent(a: Seq<Hash32>, b: Seq<Hash32>)
    requires
        a.no_duplicates(),
        b.no_duplicates(),
        a.to_set() == b.to_set(),
    ensures
        merkle_root(a) == merkle_root(b),
{
    lemma_same_set_multiset(a, b);
    lemma_hashes_strict_total(a);
    lemma_hashes_strict_total(b);
    lemma_sort_unique(a, b, hash_before());
    if a.len() == 0 {
        vstd::seq_lib::to_multiset_len(a);
        vstd::seq_lib::to_multiset_len(b);
    } else {
        vstd::seq_lib::to_multiset_len(a);
        vstd::seq_lib::to_multiset_len(b);
    }
}

/// Sequences without duplicates and with the same elements hold the same
/// multiset.
pub proof fn lemma_same_set_multiset(a: Seq<Hash32>, b: Seq<Hash32>)
    requires
        a.no_duplicates(),
        b.no_duplicates(),
        a.to_set() == b.to_set(),
    ensures
        a.to_multiset() == b.to_multiset(),
{
    broadcast use vstd::seq_lib::group_to_multiset_ensures;

    assert forall|x: Hash32| a.to_multiset().count(x) == b.to_multiset().count(x) by {
        lemma_nodup_count(a, x);
        lemma_nodup_count(b, x);
        assert(a.to_set().contains(x) == a.contains(x));
        assert(b.to_set().contains(x) == b.contains(x));
    }
    assert(a.to_multiset() =~= b.to_multiset());
}

/// In a sequence without duplicates an element occurs once or not at all.
pub proof fn lemma_nodup_count(a: Seq<Hash32>, x: Hash32)
    requires
        a.no_duplicates(),
    ensures
        a.to_multiset().count(x) == if a.contains(x) { 1nat } else { 0nat },
    decreases a.len(),
{
    broadcast use vstd::seq_lib::group_to_multiset_ensures;

    if a.len() > 0 {
        let d = a.drop_last();
        assert(d.no_duplicates());
        lemma_nodup_count(d, x);
        assert(a =~= d.push(a.last()));
        vstd::seq_lib::to_multiset_build(d, a.last());
        if x == a.last() {
            assert(!d.contains(x)) by {
                if d.contains(x) {
                    let i = choose|i: int| 0 <= i < d.len() && d[i] == x;
                    assert(a[i] == a[a.len() - 1]);
                }
            }
        } else {
            assert(a.contains(x) == d.contains(x)) by {
                if a.contains(x) {
                    let i = choose|i: int| 0 <= i < a.len() && a[i] == x;
                    assert(d[i] == x);
                }
            }
        }
    }
}

/// Number of entries of `keys` not yet in `seen`.
pub open spec fn unseen_count(keys: Seq<Hash32>, seen: Seq<Hash32>) -> nat
    decreases keys.len(),
{
    if keys.len() == 0 {
        0
    } else {
        unseen_count(keys.drop_last(), seen) + if seen.contains(keys.last()) {
            0nat
        } else {
            1nat
        }
    }
}

pub proof fn lemma_unseen_push(keys: Seq<Hash32>, seen: Seq<Hash32>, h: Hash32)
    requires
        !seen.contains(h),
    ensures
        keys.contains(h) ==> unseen_count(keys, seen.push(h)) < unseen_count(keys, seen),
        !keys.contains(h) ==> unseen_count(keys, seen.push(h)) == unseen_count(keys, seen),
    decreases keys.len(),
{
    if keys.len() > 0 {
        let d = keys.drop_last();
        lemma_unseen_push(d, seen, h);
        assert forall|x: Hash32| x != h implies (seen.push(h).contains(x) == seen.contains(x)) by {
            if seen.push(h).contains(x) {
                let i = choose|i: int| 0 <= i < seen.push(h).len() && seen.push(h)[i] == x;
                assert(seen[i] == x);
            }
            if seen.contains(x) {
                let i = choose|i: int| 0 <= i < seen.len() && seen[i] == x;
                assert(seen.push(h)[i] == x);
            }
        }
        assert(seen.push(h).contains(h)) by {
            assert(seen.push(h)[seen.len() as int] == h);
        }
        assert(keys.contains(h) == (d.contains(h) || keys.last() == h)) by {
            if keys.contains(h) {
                let i = choose|i: int| 0 <= i < keys.len() && keys[i] == h;
                if i < keys.len() - 1 {
                    assert(d[i] == h);
                }
            }
            if d.contains(h) {
                let i = choose|i: int| 0 <= i < d.len() && d[i] == h;
                assert(keys[i] == h);
            }
        }
    }
}

/// Each parent paired with the depth `d`.
pub open spec fn at_depth(ps: Seq<Hash32>, d: u32) -> Seq<(Hash32, u32)> {
    ps.map_values(|p: Hash32| (p, d))
}

/// The depth-bounded history walk shared by compaction and delta sync: pop
/// the last `(hash, depth)` of the stack; skip it when already seen, listed
/// in `stop`, or deeper than `DAG_HISTORY_DEPTH`; otherwise mark it seen and,
/// when it is stored, push its parents one level deeper. The result lists
/// the hashes seen, in the order they were seen.
pub open spec fn walk(
    dag: Map<Hash32, NodeView>,
    keys: Seq<Hash32>,
    stop: Seq<Hash32>,
    stack: Seq<(Hash32, u32)>,
    seen: Seq<Hash32>,
) -> Seq<Hash32>
    decreases unseen_count(keys, seen), stack.len(),
{
    if stack.len() == 0 {
        seen
    } else {
        let (h, d) = stack.last();
        let rest = stack.drop_last();
        if seen.contains(h) || stop.contains(h) || d > DAG_HISTORY_DEPTH {
            walk(dag, keys, stop, rest, seen)
        } else if keys.contains(h) {
            proof {
                lemma_unseen_push(keys, seen, h);
            }
            walk(dag, keys, stop, rest + at_depth(dag[h].parents, (d + 1) as u32), seen.push(h))
        } else {
            proof {
                lemma_unseen_push(keys, seen, h);
            }
            walk(dag, keys, stop, rest, seen.push(h))
        }
    }
}

/// The stored nodes, as values.
pub open spec fn dag_of(nodes: Map<Hash32, DagNode>) -> Map<Hash32, NodeView> {
    nodes.map_values(|n: DagNode| n@)
}

/// The heads paired with depth zero.
pub open spec fn start_stack(heads: Seq<Hash32>) -> Seq<(Hash32, u32)> {
    at_depth(heads, 0)
}

/// Whether some stored node lists `h` as a parent.
pub open spec fn has_child(dag: Map<Hash32, NodeView>, h: Hash32) -> bool {
    exists|k: Hash32| #[trigger] dag.contains_key(k) && dag[k].parents.contains(h)
}

/// Merkle-DAG state: stored nodes, the frontier of heads, and the
/// compaction counter.
pub struct MerkleCrdtEngine {
    pub arena: DagArena,
    pub heads: Vec<Hash32>,
    pub heads_soa: Vec<Hash32>,
    pub mutations_since_gc: u64,
    pub gc_threshold: u64,
    cached_root: Option<Hash32>,
}

impl MerkleCrdtEngine {
    /// The stored nodes, by hash.
    pub closed spec fn dag(&self) -> Map<Hash32, NodeView> {
        dag_of(self.arena.nodes())
    }

    /// The stored hashes, in the order of insertion.
    pub closed spec fn order(&self) -> Seq<Hash32> {
        self.arena.order()
    }

    /// The frontier.
    pub closed spec fn heads_view(&self) -> Seq<Hash32> {
        self.heads@
    }

    /// Mutations since the last compaction.
    pub closed spec fn pending(&self) -> u64 {
        self.mutations_since_gc
    }

    /// Mutations between compactions.
    pub closed spec fn threshold(&self) -> u64 {
        self.gc_threshold
    }

    /// The arena is well formed, the frontier lists each head once, the
    /// sorted copy holds the same heads, a cached root is the frontier's
    /// root, and the counter is below the threshold or zero.
    pub closed spec fn wf(&self) -> bool {
        &&& self.frontier_ok()
        &&& self.heads_soa@.no_duplicates()
        &&& self.heads_soa@.to_multiset() == self.heads@.to_multiset()
        &&& (self.cached_root matches Some(r) ==> r == merkle_root(self.heads@))
    }

    /// The arena is well formed, the frontier lists each head once, and the
    /// counter is below the threshold or zero.
    pub closed spec fn frontier_ok(&self) -> bool {
        &&& self.arena.wf()
        &&& self.heads@.no_duplicates()
        &&& (self.mutations_since_gc == 0 || self.mutations_since_gc < self.gc_threshold)
    }

    /// An empty engine compacting every `gc_threshold` mutations.
    pub fn with_gc_threshold(gc_threshold: u64) -> (r: Self)
        ensures
            r.wf(),
            r.dag() == Map::<Hash32, NodeView>::empty(),
            r.order() == Seq::<Hash32>::empty(),
            r.heads_view() == Seq::<Hash32>::empty(),
            r.pending() == 0,
            r.threshold() == gc_threshold,
    {
        let r = MerkleCrdtEngine {
            arena: DagArena::new(),
            heads: Vec::new(),
            heads_soa: Vec::new(),
            mutations_since_gc: 0,
            gc_threshold,
            cached_root: None,
        };
        proof {
            assert(r.dag() =~= Map::<Hash32, NodeView>::empty());
        }
        r
    }

    /// An empty engine with the default compaction threshold.
    pub fn new() -> (r: Self)
        ensures
            r.wf(),
            r.dag() == Map::<Hash32, NodeView>::empty(),
            r.order() == Seq::<Hash32>::empty(),
            r.heads_view() == Seq::<Hash32>::empty(),
            r.pending() == 0,
            r.threshold() == GC_MUTATION_THRESHOLD,
    {
        Self::with_gc_threshold(GC_MUTATION_THRESHOLD)
    }

    /// Forget the cached root and refresh the sorted copy of the frontier.
    pub fn invalidate_root(&mut self)
        requires
            old(self).frontier_ok(),
        ensures
            final(self).wf(),
            final(self).dag() == old(self).dag(),
            final(self).order() == old(self).order(),
            final(self).heads_view() == old(self).heads_view(),
            final(self).pending() == old(self).pending(),
            final(self).threshold() == old(self).threshold(),
    {
        self.cached_root = None;
        let mut soa: Vec<Hash32> = Vec::new();
        let mut i: usize = 0;
        while i < self.heads.len()
            invariant
                i <= self.heads@.len(),
                soa@ == self.heads@.take(i as int),
            decreases self.heads@.len() - i,
        {
            soa.push(self.heads[i]);
            proof {
                assert(self.heads@.take(i + 1) =~= self.heads@.take(i as int).push(self.heads@[i as int]));
            }
            i = i + 1;
        }
        proof {
            assert(self.heads@.take(i as int) =~= self.heads@);
        }
        self.heads_soa = soa;
    }
}

/// Whether `h` is listed in `v`.
fn hashes_contain(v: &[Hash32], h: &Hash32) -> (r: bool)
    ensures
        r == v@.contains(*h),
{
    let mut i: usize = 0;
    while i < v.len()
        invariant
            i <= v@.len(),
            forall|j: int| 0 <= j < i ==> v@[j] != *h,
        decreases v@.len() - i,
    {
        if hash_eq(&v[i], h) {
            return true;
        }
        i = i + 1;
    }
    false
}

/// Stable insertion sort of hashes in ascending byte order.
fn sort_hashes(v: &Vec<Hash32>) -> (r: Vec<Hash32>)
    ensures
        r@ == sort_stable(v@, hash_before()),
{
    let mut res: Vec<Hash32> = Vec::new();
    let mut i: usize = 0;
    while i < v.len()
        invariant
            i <= v@.len(),
            res@ == sort_stable(v@.take(i as int), hash_before()),
        decreases v@.len() - i,
    {
        let x = v[i];
        let ghost r0 = res@;
        proof {
            assert(v@.take(i + 1).drop_last() =~= v@.take(i as int));
            assert(v@.take(i + 1).last() == x);
            crate::ordering::lemma_sort_len(v@.take(i as int), hash_before());
        }
        res.push(x);
        let mut j: usize = res.len() - 1;
        while j > 0 && compare_hash(&res[j], &res[j - 1]) < 0
            invariant
                j < res@.len(),
                res@.len() == r0.len() + 1,
                res@[j as int] == x,
                res@ == r0.take(j as int) + seq![x] + r0.skip(j as int),
                forall|k: int| j <= k < r0.len() ==> hash_lt(x, #[trigger] r0[k]),
            decreases j,
        {
            let a = res[j];
            let b = res[j - 1];
            res.set(j, b);
            res.set(j - 1, a);
            proof {
                assert(res@ =~= r0.take(j - 1) + seq![x] + r0.skip(j - 1));
            }
            j = j - 1;
        }
        proof {
            if j > 0 {
                assert(res@[j - 1] == r0[j - 1]);
            }
            lemma_insert_at(r0, x, hash_before(), j as int);
        }
        i = i + 1;
    }
    proof {
        assert(v@.take(i as int) =~= v@);
    }
    res
}

/// The hashes one after another.
fn concat_hashes(v: &Vec<Hash32>) -> (r: Vec<u8>)
    ensures
        r@ == hashes_bytes(v@),
{
    let mut buf: Vec<u8> = Vec::new();
    let mut i: usize = 0;
    while i < v.len()
        invariant
            i <= v@.len(),
            buf@ == hashes_bytes(v@.take(i as int)),
        decreases v@.len() - i,
    {
        push_bytes(&mut buf, &v[i]);
        proof {
            assert(v@.take(i + 1).drop_last() =~= v@.take(i as int));
        }
        i = i + 1;
    }
    proof {
        assert(v@.take(i as int) =~= v@);
    }
    buf
}

/// A strictly increasing sequence lists each element once.
proof fn lemma_increasing_nodup(s: Seq<Hash32>)
    requires
        increasing(s, hash_before()),
    ensures
        s.no_duplicates(),
{
    assert forall|i: int, j: int| 0 <= i < s.len() && 0 <= j < s.len() && i != j implies s[i] != s[j] by {
        lemma_hash_order(s[i], s[j], s[i]);
    }
}

/// Filtering keeps a sequence free of duplicates.
pub proof fn lemma_filter_nodup(s: Seq<Hash32>, p: spec_fn(Hash32) -> bool)
    requires
        s.no_duplicates(),
    ensures
        s.filter(p).no_duplicates(),
    decreases s.len(),
{
    reveal(Seq::filter);
    if s.len() > 0 {
        let d = s.drop_last();
        assert(d.no_duplicates());
        lemma_filter_nodup(d, p);
        if p(s.last()) {
            let f = d.filter(p);
            assert(!f.contains(s.last())) by {
                if f.contains(s.last()) {
                    broadcast use vstd::seq_lib::group_filter_ensures;

                    d.lemma_filter_contains_rev(p, s.last());
                    let k = choose|k: int| 0 <= k < d.len() && d[k] == s.last();
                    assert(s[k] == s[s.len() - 1]);
                }
            }
        }
    }
}

/// The walk only adds to what was seen.
pub proof fn lemma_walk_extends(
    dag: Map<Hash32, NodeView>,
    keys: Seq<Hash32>,
    stop: Seq<Hash32>,
    stack: Seq<(Hash32, u32)>,
    seen: Seq<Hash32>,
)
    ensures
        seen.is_prefix_of(walk(dag, keys, stop, stack, seen)),
    decreases unseen_count(keys, seen), stack.len(),
{
    if stack.len() > 0 {
        let (h, d) = stack.last();
        let rest = stack.drop_last();
        if seen.contains(h) || stop.contains(h) || d > DAG_HISTORY_DEPTH {
            lemma_walk_extends(dag, keys, stop, rest, seen);
        } else if keys.contains(h) {
            lemma_unseen_push(keys, seen, h);
            lemma_walk_extends(dag, keys, stop, rest + at_depth(dag[h].parents, (d + 1) as u32), seen.push(h));
        } else {
            lemma_unseen_push(keys, seen, h);
            lemma_walk_extends(dag, keys, stop, rest, seen.push(h));
        }
    }
}

/// The stored nodes among `hs`, in order.
pub open spec fn stored_nodes(dag: Map<Hash32, NodeView>, hs: Seq<Hash32>) -> Seq<NodeView>
    decreases hs.len(),
{
    if hs.len() == 0 {
        Seq::empty()
    } else {
        stored_nodes(dag, hs.drop_last()) + if dag.contains_key(hs.last()) {
            seq![dag[hs.last()]]
        } else {
            Seq::empty()
        }
    }
}

/// What compaction keeps: the hashes the walk from the heads sees.
pub open spec fn kept_by_walk(dag: Map<Hash32, NodeView>, keys: Seq<Hash32>, heads: Seq<Hash32>) -> Seq<Hash32> {
    walk(dag, keys, Seq::empty(), start_stack(heads), Seq::empty())
}

impl MerkleCrdtEngine {
    /// In a well-formed engine the insertion order lists exactly the stored
    /// hashes.
    pub proof fn lemma_order_lists_stored(&self)
        requires
            self.wf(),
        ensures
            forall|h: Hash32| #[trigger] self.dag().contains_key(h) <==> self.order().contains(h),
    {
        self.lemma_dag_keys();
    }

    proof fn lemma_dag_keys(&self)
        requires
            self.arena.wf(),
        ensures
            forall|h: Hash32| #[trigger] self.dag().contains_key(h) <==> self.order().contains(h),
            self.order().no_duplicates(),
    {
        self.arena.lemma_wf();
        assert forall|h: Hash32| #[trigger] self.dag().contains_key(h) <==> self.order().contains(h) by {
            assert(self.dag().contains_key(h) == self.arena.nodes().contains_key(h));
        }
    }

    /// The hashes that the history walk from the heads sees, skipping those
    /// in `stop`.
    fn walk_exec(&self, stop: &[Hash32]) -> (r: Vec<Hash32>)
        requires
            self.frontier_ok(),
        ensures
            r@ == walk(self.dag(), self.order(), stop@, start_stack(self.heads@), Seq::empty()),
    {
        let ghost dag = self.dag();
        let ghost keys = self.order();
        proof {
            self.lemma_dag_keys();
        }
        let mut stack: Vec<(Hash32, u32)> = Vec::new();
        let mut i: usize = 0;
        while i < self.heads.len()
            invariant
                i <= self.heads@.len(),
                stack@ == start_stack(self.heads@.take(i as int)),
            decreases self.heads@.len() - i,
        {
            stack.push((self.heads[i], 0));
            proof {
                assert(start_stack(self.heads@.take(i + 1)) =~= start_stack(self.heads@.take(i as int)).push(
                    (self.heads@[i as int], 0u32),
                ));
            }
            i = i + 1;
        }
        proof {
            assert(self.heads@.take(i as int) =~= self.heads@);
        }
        let ghost start = stack@;
        let mut seen: Vec<Hash32> = Vec::new();
        while stack.len() > 0
            invariant
                self.frontier_ok(),
                dag == self.dag(),
                keys == self.order(),
                forall|h: Hash32| #[trigger] dag.contains_key(h) <==> keys.contains(h),
                walk(dag, keys, stop@, stack@, seen@) == walk(dag, keys, stop@, start, Seq::empty()),
            decreases unseen_count(keys, seen@), stack@.len(),
        {
            let ghost st0 = stack@;
            let top = stack.pop();
            let (h, d) = match top {
                Some(e) => e,
                None => {
                    proof {
                        assert(false);
                    }
                    return seen;
                },
            };
            proof {
                assert(stack@ == st0.drop_last());
                assert((h, d) == st0.last());
            }
            if hashes_contain(seen.as_slice(), &h) || hashes_contain(stop, &h) || d > DAG_HISTORY_DEPTH {
            } else {
                let ghost seen0 = seen@;
                proof {
                    lemma_unseen_push(keys, seen0, h);
                }
                seen.push(h);
                match self.arena.get_by_hash(&h) {
                    Some(node) => {
                        proof {
                            assert(dag.contains_key(h));
                            assert(dag[h] == node@);
                        }
                        let ghost rest = stack@;
                        let ps = parents_slice(&node.parents);
                        let mut j: usize = 0;
                        while j < ps.len()
                            invariant
                                j <= ps@.len(),
                                d <= DAG_HISTORY_DEPTH,
                                stack@ == rest + at_depth(ps@.take(j as int), (d + 1) as u32),
                            decreases ps@.len() - j,
                        {
                            stack.push((ps[j], d + 1));
                            proof {
                                assert(at_depth(ps@.take(j + 1), (d + 1) as u32) =~= at_depth(
                                    ps@.take(j as int),
                                    (d + 1) as u32,
                                ).push((ps@[j as int], (d + 1) as u32)));
                            }
                            j = j + 1;
                        }
                        proof {
                            assert(ps@.take(j as int) =~= ps@);
                        }
                    },
                    None => {
                        proof {
                            assert(!self.arena.nodes().contains_key(h));
                            assert(!dag.contains_key(h));
                            assert(!keys.contains(h));
                        }
                    },
                }
            }
        }
        seen
    }

    /// The Merkle root of the frontier, cached until the heads change.
    pub fn get_merkle_root(&mut self) -> (r: Hash32)
        requires
            old(self).wf(),
        ensures
            final(self).wf(),
            r == merkle_root(old(self).heads_view()),
            final(self).dag() == old(self).dag(),
            final(self).order() == old(self).order(),
            final(self).heads_view() == old(self).heads_view(),
            final(self).pending() == old(self).pending(),
            final(self).threshold() == old(self).threshold(),
    {
        broadcast use vstd::seq_lib::group_to_multiset_ensures;

        match self.cached_root {
            Some(root) => {
                return root;
            },
            None => {},
        }
        if self.heads_soa.len() == 0 {
            let root = zero_hash_exec();
            proof {
                vstd::seq_lib::to_multiset_len(self.heads_soa@);
                vstd::seq_lib::to_multiset_len(self.heads@);
            }
            self.cached_root = Some(root);
            return root;
        }
        let sorted = sort_hashes(&self.heads_soa);
        proof {
            let soa = self.heads_soa@;
            let hs = self.heads@;
            lemma_hashes_strict_total(soa);
            lemma_hashes_strict_total(hs);
            lemma_sort_unique(soa, hs, hash_before());
            lemma_sort_multiset(soa, hash_before());
            lemma_sort_increasing(soa, hash_before());
            lemma_increasing_nodup(sorted@);
            vstd::seq_lib::to_multiset_len(soa);
            vstd::seq_lib::to_multiset_len(hs);
        }
        let bytes = concat_hashes(&sorted);
        let root = SecurityFirewall::hash(bytes.as_slice());
        self.heads_soa = sorted;
        self.cached_root = Some(root);
        root
    }
}

impl MerkleCrdtEngine {
    /// Keep only the heads listed in `keep`.
    fn retain_heads(&mut self, keep: &Vec<Hash32>)
        requires
            old(self).frontier_ok(),
        ensures
            final(self).frontier_ok(),
            final(self).heads@ == old(self).heads@.filter(|h: Hash32| keep@.contains(h)),
            final(self).arena == old(self).arena,
            final(self).mutations_since_gc == old(self).mutations_since_gc,
            final(self).gc_threshold == old(self).gc_threshold,
    {
        let ghost pk = |h: Hash32| keep@.contains(h);
        let mut res: Vec<Hash32> = Vec::new();
        let mut i: usize = 0;
        while i < self.heads.len()
            invariant
                i <= self.heads@.len(),
                pk == (|h: Hash32| keep@.contains(h)),
                res@ == self.heads@.take(i as int).filter(pk),
            decreases self.heads@.len() - i,
        {
            let h = self.heads[i];
            proof {
                assert(self.heads@.take(i + 1).drop_last() =~= self.heads@.take(i as int));
                assert(self.heads@.take(i + 1).last() == h);
                reveal(Seq::filter);
            }
            if hashes_contain(keep.as_slice(), &h) {
                res.push(h);
            }
            i = i + 1;
        }
        proof {
            assert(self.heads@.take(i as int) =~= self.heads@);
            lemma_filter_nodup(self.heads@, pk);
        }
        self.heads = res;
    }

    /// Prune the history: keep the nodes that the walk from the heads
    /// reaches within `DAG_HISTORY_DEPTH` levels and drop the rest. When
    /// something was dropped, heads outside the kept set leave the frontier
    /// and the cached root is invalidated.
    pub fn compact_history(&mut self)
        requires
            old(self).wf(),
        ensures
            final(self).wf(),
            ({
                let keep = kept_by_walk(old(self).dag(), old(self).order(), old(self).heads_view());
                let order = old(self).order().filter(|h: Hash32| keep.contains(h));
                &&& final(self).dag() == old(self).dag().restrict(keep.to_set())
                &&& final(self).order() == order
                &&& final(self).heads_view() == if order.len() < old(self).order().len() {
                    old(self).heads_view().filter(|h: Hash32| keep.contains(h))
                } else {
                    old(self).heads_view()
                }
            }),
            final(self).pending() == old(self).pending(),
            final(self).threshold() == old(self).threshold(),
    {
        let none: Vec<Hash32> = Vec::new();
        let keep = self.walk_exec(none.as_slice());
        let ghost nodes0 = self.arena.nodes();
        let removed = self.arena.retain(keep.as_slice());
        proof {
            assert(dag_of(self.arena.nodes()) =~= dag_of(nodes0).restrict(keep@.to_set()));
        }
        if removed > 0 {
            self.retain_heads(&keep);
            self.invalidate_root();
        }
    }
}

/// The values of a vector clock.
pub open spec fn vclock_view(vc: Seq<(String, u64)>) -> Seq<(Seq<char>, u64)> {
    vc.map_values(|e: (String, u64)| (e.0@, e.1))
}

/// The value of optional evidence.
pub open spec fn evidence_view(e: Option<AiEvidence>) -> Option<EvidenceView> {
    match e {
        Some(ev) => Some(ev@),
        None => None,
    }
}

/// The node that `append_mutation` creates on top of `heads`.
pub open spec fn mutation_node(
    heads: Seq<Hash32>,
    data_hash: Hash32,
    signature: [u8; 64],
    vclock: Seq<(Seq<char>, u64)>,
    evidence: Option<EvidenceView>,
) -> NodeView {
    NodeView { parents: heads, signature, data_hash, vclock, evidence }
}

/// The DAG with `n` stored under `h`, unless `h` is already stored.
pub open spec fn dag_add(dag: Map<Hash32, NodeView>, h: Hash32, n: NodeView) -> Map<Hash32, NodeView> {
    if dag.contains_key(h) {
        dag
    } else {
        dag.insert(h, n)
    }
}

/// The insertion order with `h` appended, unless `h` is already stored.
pub open spec fn order_add(dag: Map<Hash32, NodeView>, order: Seq<Hash32>, h: Hash32) -> Seq<Hash32> {
    if dag.contains_key(h) {
        order
    } else {
        order.push(h)
    }
}

impl MerkleCrdtEngine {
    /// Append a local mutation: a node whose parents are the current heads
    /// (in frontier order) becomes the only head. Every `gc_threshold`
    /// mutations the history is compacted and the counter restarts.
    pub fn append_mutation(
        &mut self,
        data_hash: Hash32,
        signature: [u8; 64],
        vclock: Vec<(String, u64)>,
        evidence: Option<AiEvidence>,
    ) -> (r: Hash32)
        requires
            old(self).wf(),
        ensures
            final(self).wf(),
            ({
                let n = mutation_node(
                    old(self).heads_view(),
                    data_hash,
                    signature,
                    vclock_view(vclock@),
                    evidence_view(evidence),
                );
                let dag1 = dag_add(old(self).dag(), r, n);
                let order1 = order_add(old(self).dag(), old(self).order(), r);
                let keep = kept_by_walk(dag1, order1, seq![r]);
                &&& r == node_hash(n)
                &&& final(self).heads_view() == seq![r]
                &&& final(self).threshold() == old(self).threshold()
                &&& if old(self).pending() + 1 >= old(self).threshold() {
                    &&& final(self).dag() == dag1.restrict(keep.to_set())
                    &&& final(self).order() == order1.filter(|h: Hash32| keep.contains(h))
                    &&& final(self).pending() == 0
                } else {
                    &&& final(self).dag() == dag1
                    &&& final(self).order() == order1
                    &&& final(self).pending() == old(self).pending() + 1
                }
            }),
    {
        let mut parents: Vec<Hash32> = Vec::new();
        let mut i: usize = 0;
        while i < self.heads.len()
            invariant
                i <= self.heads@.len(),
                parents@ == self.heads@.take(i as int),
            decreases self.heads@.len() - i,
        {
            parents.push(self.heads[i]);
            proof {
                assert(self.heads@.take(i + 1) =~= self.heads@.take(i as int).push(self.heads@[i as int]));
            }
            i = i + 1;
        }
        proof {
            assert(self.heads@.take(i as int) =~= self.heads@);
        }
        let node = DagNode { parents: parents_from(parents), signature, data_hash, vclock, evidence };
        let hash = node.compute_hash();
        proof {
            assert(node@.vclock == vclock_view(node.vclock@));
            assert(node@ == mutation_node(old(self).heads_view(), data_hash, signature, vclock_view(node.vclock@), evidence_view(node.evidence)));
        }
        let ghost nodes0 = self.arena.nodes();
        let ghost nv = node@;
        let mut heads: Vec<Hash32> = Vec::new();
        heads.push(hash);
        self.heads = heads;
        let ins = self.arena.insert(hash, node);
        proof {
            self.arena.lemma_wf();
            if ins.1 {
                assert(dag_of(self.arena.nodes()) =~= dag_of(nodes0).insert(hash, nv));
            }
            assert(seq![hash].no_duplicates());
        }
        self.invalidate_root();
        let ghost dag1 = dag_add(old(self).dag(), hash, nv);
        let ghost order1 = order_add(old(self).dag(), old(self).order(), hash);
        proof {
            assert(self.dag() == dag1);
            assert(self.order() == order1);
        }
        if self.mutations_since_gc >= self.gc_threshold || self.gc_threshold - self.mutations_since_gc <= 1 {
            self.mutations_since_gc = 0;
            self.compact_history();
            proof {
                let keep = kept_by_walk(dag1, order1, seq![hash]);
                lemma_walk_extends(dag1, order1, Seq::empty(), start_stack(seq![hash]), Seq::empty());
                assert(keep.contains(hash)) by {
                    assert(start_stack(seq![hash]).last() == (hash, 0u32));
                    assert(start_stack(seq![hash]).drop_last() =~= Seq::<(Hash32, u32)>::empty());
                    lemma_walk_first(dag1, order1, start_stack(seq![hash]), hash);
                }
                reveal(Seq::filter);
                assert(seq![hash].drop_last() =~= Seq::<Hash32>::empty());
                assert(seq![hash].filter(|h: Hash32| keep.contains(h)) =~= seq![hash]);
            }
        } else {
            self.mutations_since_gc = self.mutations_since_gc + 1;
        }
        hash
    }
}

/// A walk from a single unseen, unstopped head at depth zero sees it.
proof fn lemma_walk_first(
    dag: Map<Hash32, NodeView>,
    keys: Seq<Hash32>,
    stack: Seq<(Hash32, u32)>,
    h: Hash32,
)
    requires
        stack.len() == 1,
        stack.last() == (h, 0u32),
    ensures
        walk(dag, keys, Seq::empty(), stack, Seq::empty()).contains(h),
{
    let rest = stack.drop_last();
    let e = Seq::<Hash32>::empty();
    assert(!e.contains(h));
    assert(!Seq::<Hash32>::empty().contains(h));
    lemma_unseen_push(keys, e, h);
    if keys.contains(h) {
        lemma_walk_extends(dag, keys, Seq::empty(), rest + at_depth(dag[h].parents, 1u32), e.push(h));
    } else {
        lemma_walk_extends(dag, keys, Seq::empty(), rest, e.push(h));
    }
    assert(e.push(h)[0] == h);
}

/// The frontier a DAG implies: the stored hashes, in insertion order, that
/// no stored node lists as a parent.
pub open spec fn frontier_of(dag: Map<Hash32, NodeView>, order: Seq<Hash32>) -> Seq<Hash32> {
    order.filter(|h: Hash32| !has_child(dag, h))
}

impl MerkleCrdtEngine {
    /// The nodes a peer whose heads are `remote_heads` lacks: those the
    /// history walk from the local heads reaches within `DAG_HISTORY_DEPTH`
    /// levels without passing a remote head, in the order reached.
    pub fn get_vdiff(&self, remote_heads: Vec<Hash32>) -> (r: Vec<DagNode>)
        requires
            self.wf(),
        ensures
            r@.map_values(|n: DagNode| n@) == stored_nodes(
                self.dag(),
                walk(self.dag(), self.order(), remote_heads@, start_stack(self.heads_view()), Seq::empty()),
            ),
    {
        let seen = self.walk_exec(remote_heads.as_slice());
        let ghost dag = self.dag();
        let mut deltas: Vec<DagNode> = Vec::new();
        let mut i: usize = 0;
        while i < seen.len()
            invariant
                self.wf(),
                dag == self.dag(),
                i <= seen@.len(),
                deltas@.map_values(|n: DagNode| n@) == stored_nodes(dag, seen@.take(i as int)),
            decreases seen@.len() - i,
        {
            let ghost d0 = deltas@;
            proof {
                assert(seen@.take(i + 1).drop_last() =~= seen@.take(i as int));
                assert(seen@.take(i + 1).last() == seen@[i as int]);
            }
            match self.arena.get_by_hash(&seen[i]) {
                Some(node) => {
                    let c = node.clone();
                    deltas.push(c);
                    proof {
                        assert(dag.contains_key(seen@[i as int]));
                        assert(deltas@.map_values(|n: DagNode| n@) =~= d0.map_values(|n: DagNode| n@) + seq![
                            dag[seen@[i as int]],
                        ]);
                    }
                },
                None => {
                    proof {
                        assert(!dag.contains_key(seen@[i as int]));
                        assert(stored_nodes(dag, seen@.take(i + 1)) =~= stored_nodes(dag, seen@.take(i as int)));
                    }
                },
            }
            i = i + 1;
        }
        proof {
            assert(seen@.take(i as int) =~= seen@);
        }
        deltas
    }

    /// Rebuild the frontier from the stored nodes: every stored hash that no
    /// stored node lists as a parent, in insertion order.
    pub fn recompute_heads(&mut self)
        requires
            old(self).wf(),
        ensures
            final(self).wf(),
            final(self).heads_view() == frontier_of(old(self).dag(), old(self).order()),
            final(self).dag() == old(self).dag(),
            final(self).order() == old(self).order(),
            final(self).pending() == old(self).pending(),
            final(self).threshold() == old(self).threshold(),
    {
        let ghost dag = self.dag();
        let ghost order = self.order();
        proof {
            self.lemma_dag_keys();
        }
        let all = self.arena.get_all_iter();
        proof {
            assert forall|j: int| 0 <= j < all@.len() implies *(#[trigger] all@[j]).0 == order[j] && (
            *all@[j].1)@ == dag[order[j]] by {
                assert(order.contains(order[j]));
                assert(self.dag().contains_key(order[j]));
                assert(self.arena.nodes().contains_key(order[j]));
            }
        }
        let mut children: Vec<Hash32> = Vec::new();
        let mut i: usize = 0;
        while i < all.len()
            invariant
                i <= all@.len(),
                all@.len() == order.len(),
                forall|j: int|
                    0 <= j < all@.len() ==> *(#[trigger] all@[j]).0 == order[j] && (*all@[j].1)@
                        == dag[order[j]],
                forall|x: Hash32|
                    children@.contains(x) <==> exists|j: int|
                        0 <= j < i && #[trigger] dag[order[j]].parents.contains(x),
            decreases all@.len() - i,
        {
            let node = all[i].1;
            let ps = parents_slice(&node.parents);
            let ghost c0 = children@;
            let mut k: usize = 0;
            while k < ps.len()
                invariant
                    k <= ps@.len(),
                    children@ == c0 + ps@.take(k as int),
                decreases ps@.len() - k,
            {
                children.push(ps[k]);
                proof {
                    assert(ps@.take(k + 1) =~= ps@.take(k as int).push(ps@[k as int]));
                }
                k = k + 1;
            }
            proof {
                assert(ps@.take(k as int) =~= ps@);
                assert(node@ == dag[order[i as int]]);
                assert forall|x: Hash32| children@.contains(x) <==> exists|j: int|
                    0 <= j < i + 1 && #[trigger] dag[order[j]].parents.contains(x) by {
                    if children@.contains(x) {
                        let q = choose|q: int| 0 <= q < children@.len() && children@[q] == x;
                        if q < c0.len() {
                            assert(c0[q] == x);
                            assert(c0.contains(x));
                        } else {
                            assert(ps@[q - c0.len()] == x);
                            assert(dag[order[i as int]].parents.contains(x));
                        }
                    }
                    if exists|j: int| 0 <= j < i + 1 && #[trigger] dag[order[j]].parents.contains(x) {
                        let j = choose|j: int| 0 <= j < i + 1 && #[trigger] dag[order[j]].parents.contains(x);
                        if j < i {
                            assert(c0.contains(x));
                            let q = choose|q: int| 0 <= q < c0.len() && c0[q] == x;
                            assert(children@[q] == x);
                        } else {
                            let q = choose|q: int| 0 <= q < ps@.len() && ps@[q] == x;
                            assert(children@[c0.len() + q] == x);
                        }
                    }
                }
            }
            i = i + 1;
        }
        proof {
            assert forall|x: Hash32| children@.contains(x) <==> has_child(dag, x) by {
                if children@.contains(x) {
                    let j = choose|j: int| 0 <= j < i && #[trigger] dag[order[j]].parents.contains(x);
                    assert(order.contains(order[j]));
                    assert(dag.contains_key(order[j]));
                }
                if has_child(dag, x) {
                    let k = choose|k: Hash32| #[trigger] dag.contains_key(k) && dag[k].parents.contains(x);
                    assert(order.contains(k));
                    let j = choose|j: int| 0 <= j < order.len() && order[j] == k;
                    assert(dag[order[j]].parents.contains(x));
                }
            }
        }
        let ghost pk = |h: Hash32| !has_child(dag, h);
        let mut heads: Vec<Hash32> = Vec::new();
        let mut j: usize = 0;
        while j < all.len()
            invariant
                j <= all@.len(),
                all@.len() == order.len(),
                forall|q: int| 0 <= q < all@.len() ==> *(#[trigger] all@[q]).0 == order[q],
                forall|x: Hash32| children@.contains(x) <==> has_child(dag, x),
                pk == (|h: Hash32| !has_child(dag, h)),
                heads@ == order.take(j as int).filter(pk),
            decreases all@.len() - j,
        {
            let h = *all[j].0;
            proof {
                assert(order.take(j + 1).drop_last() =~= order.take(j as int));
                assert(order.take(j + 1).last() == h);
                reveal(Seq::filter);
            }
            if !hashes_contain(children.as_slice(), &h) {
                heads.push(h);
            }
            j = j + 1;
        }
        proof {
            assert(order.take(j as int) =~= order);
            lemma_filter_nodup(order, pk);
        }
        self.heads = heads;
        self.invalidate_root();
    }
}

impl Default for MerkleCrdtEngine {
    fn default() -> (r: Self)
        ensures
            r.wf(),
            r.dag() == Map::<Hash32, NodeView>::empty(),
            r.order() == Seq::<Hash32>::empty(),
            r.heads_view() == Seq::<Hash32>::empty(),
            r.pending() == 0,
            r.threshold() == GC_MUTATION_THRESHOLD,
    {
        Self::new()
    }
}

impl MerkleCrdtEngine {
    /// Store a node received from a peer under its hash, leaving the
    /// frontier as it is; `false` when the hash was already stored.
    pub(crate) fn store_node(&mut self, hash: Hash32, node: DagNode) -> (r: bool)
        requires
            old(self).wf(),
        ensures
            final(self).wf(),
            r == !old(self).dag().contains_key(hash),
            final(self).dag() == dag_add(old(self).dag(), hash, node@),
            final(self).order() == order_add(old(self).dag(), old(self).order(), hash),
            final(self).heads_view() == old(self).heads_view(),
            final(self).pending() == old(self).pending(),
            final(self).threshold() == old(self).threshold(),
    {
        let ghost nodes0 = self.arena.nodes();
        let ghost nv = node@;
        let ins = self.arena.insert(hash, node);
        proof {
            if ins.1 {
                assert(dag_of(self.arena.nodes()) =~= dag_of(nodes0).insert(hash, nv));
            }
        }
        ins.1
    }

    /// Whether a node is stored under `hash`.
    pub fn contains(&self, hash: &Hash32) -> (r: bool)
        requires
            self.wf(),
        ensures
            r == self.dag().contains_key(*hash),
    {
        self.arena.contains(hash)
    }

    /// Mutations since the last compaction.
    pub fn pending_mutations(&self) -> (r: u64)
        ensures
            r == self.pending(),
    {
        self.mutations_since_gc
    }

    /// Number of stored nodes.
    pub fn len(&self) -> (r: usize)
        requires
            self.wf(),
        ensures
            r == self.order().len(),
    {
        self.arena.len()
    }
}

/// `h` is the hash of an entry of the stack.
pub open spec fn on_stack(stack: Seq<(Hash32, u32)>, h: Hash32) -> bool {
    exists|i: int| 0 <= i < stack.len() && (#[trigger] stack[i]).0 == h
}

/// `g` is stored and names `h` as a parent.
pub open spec fn parent_of(dag: Map<Hash32, NodeView>, keys: Seq<Hash32>, g: Hash32, h: Hash32) -> bool {
    keys.contains(g) && dag[g].parents.contains(h)
}

proof fn lemma_walk_provenance(
    dag: Map<Hash32, NodeView>,
    keys: Seq<Hash32>,
    stop: Seq<Hash32>,
    stack: Seq<(Hash32, u32)>,
    seen: Seq<Hash32>,
)
    ensures
        ({
            let r = walk(dag, keys, stop, stack, seen);
            forall|i: int|
                #![trigger r[i]]
                seen.len() <= i < r.len() ==> !stop.contains(r[i]) && (on_stack(stack, r[i]) || exists|j: int|
                    0 <= j < i && #[trigger] parent_of(dag, keys, r[j], r[i]))
        }),
    decreases unseen_count(keys, seen), stack.len(),
{
    if stack.len() > 0 {
        let (h, d) = stack.last();
        let rest = stack.drop_last();
        let r = walk(dag, keys, stop, stack, seen);
        assert(stack[stack.len() - 1].0 == h);
        if seen.contains(h) || stop.contains(h) || d > DAG_HISTORY_DEPTH {
            lemma_walk_provenance(dag, keys, stop, rest, seen);
            assert(r == walk(dag, keys, stop, rest, seen));
            assert forall|i: int| #![trigger r[i]] seen.len() <= i < r.len() && on_stack(rest, r[i]) implies on_stack(stack, r[i]) by {
                let k = choose|k: int| 0 <= k < rest.len() && (#[trigger] rest[k]).0 == r[i];
                assert(stack[k] == rest[k]);
            }
        } else {
            lemma_unseen_push(keys, seen, h);
            let next = if keys.contains(h) {
                rest + at_depth(dag[h].parents, (d + 1) as u32)
            } else {
                rest
            };
            lemma_walk_provenance(dag, keys, stop, next, seen.push(h));
            lemma_walk_extends(dag, keys, stop, next, seen.push(h));
            assert(r == walk(dag, keys, stop, next, seen.push(h)));
            assert(r[seen.len() as int] == h) by {
                assert(seen.push(h)[seen.len() as int] == h);
            }
            assert forall|i: int|
                #![trigger r[i]]
                seen.len() <= i < r.len() implies !stop.contains(r[i]) && (on_stack(stack, r[i]) || exists|j: int|
                    0 <= j < i && #[trigger] parent_of(dag, keys, r[j], r[i])) by {
                if i == seen.len() {
                    assert(on_stack(stack, r[i]));
                } else if on_stack(next, r[i]) {
                    let k = choose|k: int| 0 <= k < next.len() && (#[trigger] next[k]).0 == r[i];
                    if k < rest.len() {
                        assert(next[k] == rest[k]);
                        assert(stack[k] == rest[k]);
                    } else {
                        assert(keys.contains(h));
                        let ps = dag[h].parents;
                        assert(next[k] == at_depth(ps, (d + 1) as u32)[k - rest.len()]);
                        assert(ps[k - rest.len()] == r[i]);
                        assert(ps.contains(r[i]));
                        assert(parent_of(dag, keys, r[seen.len() as int], r[i]));
                    }
                }
            }
        }
    }
}

/// Delta sync never sends back what the peer already has: every hash the
/// walk for `get_vdiff(remote_heads)` visits is not a remote head, and is
/// either a local head or a parent named by a stored node visited before
/// it, so nothing the walk reaches lies behind a remote head alone.
pub proof fn law_vdiff_stops_at_remote_heads(
    dag: Map<Hash32, NodeView>,
    keys: Seq<Hash32>,
    remote_heads: Seq<Hash32>,
    heads: Seq<Hash32>,
)
    ensures
        ({
            let w = walk(dag, keys, remote_heads, start_stack(heads), Seq::empty());
            forall|i: int|
                #![trigger w[i]]
                0 <= i < w.len() ==> !remote_heads.contains(w[i]) && (heads.contains(w[i]) || exists|j: int|
                    0 <= j < i && #[trigger] parent_of(dag, keys, w[j], w[i]))
        }),
        forall|k: int|
            #![trigger stored_nodes(dag, walk(dag, keys, remote_heads, start_stack(heads), Seq::empty()))[k]]
            0 <= k < stored_nodes(dag, walk(dag, keys, remote_heads, start_stack(heads), Seq::empty())).len()
                ==> exists|i: int|
                0 <= i < walk(dag, keys, remote_heads, start_stack(heads), Seq::empty()).len() && !remote_heads.contains(
                    #[trigger] walk(dag, keys, remote_heads, start_stack(heads), Seq::empty())[i],
                ) && stored_nodes(dag, walk(dag, keys, remote_heads, start_stack(heads), Seq::empty()))[k]
                    == dag[walk(dag, keys, remote_heads, start_stack(heads), Seq::empty())[i]],
{
    let w = walk(dag, keys, remote_heads, start_stack(heads), Seq::empty());
    let st = start_stack(heads);
    lemma_walk_provenance(dag, keys, remote_heads, st, Seq::empty());
    assert forall|i: int| #![trigger w[i]] 0 <= i < w.len() && on_stack(st, w[i]) implies heads.contains(w[i]) by {
        let k = choose|k: int| 0 <= k < st.len() && (#[trigger] st[k]).0 == w[i];
        assert(heads[k] == w[i]);
    }
    lemma_stored_nodes_from(dag, w);
}

proof fn lemma_stored_nodes_from(dag: Map<Hash32, NodeView>, hs: Seq<Hash32>)
    ensures
        forall|k: int|
            0 <= k < stored_nodes(dag, hs).len() ==> exists|i: int|
                0 <= i < hs.len() && #[trigger] stored_nodes(dag, hs)[k] == dag[hs[i]],
    decreases hs.len(),
{
    if hs.len() > 0 {
        let p = hs.drop_last();
        lemma_stored_nodes_from(dag, p);
        let s0 = stored_nodes(dag, p);
        let s1 = stored_nodes(dag, hs);
        assert forall|k: int| 0 <= k < s1.len() implies exists|i: int|
            0 <= i < hs.len() && #[trigger] s1[k] == dag[hs[i]] by {
            if k < s0.len() {
                assert(s1[k] == s0[k]);
                let i = choose|i: int| 0 <= i < p.len() && #[trigger] s0[k] == dag[p[i]];
                assert(hs[i] == p[i]);
            } else {
                assert(s1[k] == dag[hs.last()]);
                assert(hs[hs.len() - 1] == hs.last());
            }
        }
    }
}

} // verus!
