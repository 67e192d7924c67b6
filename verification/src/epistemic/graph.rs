//! The epistemic knowledge graph: edges between claims, their traversal and
//! hybrid edge resolution.
use vstd::prelude::*;
use crate::epistemic::claim::{
    fingerprint_eq, is_support, relation_is_support, Claim, ClaimArenaId, ClaimKind,
    EpistemicEdge, RawEpistemicEdge, Relation, SemanticFingerprint,
};
use crate::ordering::hash_eq;

verus! {

/// Knowledge graph over claims, held as the list of its edges in insertion
/// order. The outgoing edges of a claim are the edges whose `from` is that
/// claim, in insertion order.
pub struct KnowledgeGraph {
    edges: Vec<EpistemicEdge>,
}

impl View for KnowledgeGraph {
    type V = Seq<EpistemicEdge>;

    closed spec fn view(&self) -> Seq<EpistemicEdge> {
        self.edges@
    }
}

/// The edge indices leaving `node` among the first `n` edges, ascending.
pub open spec fn out_indices(edges: Seq<EpistemicEdge>, node: u32, n: int) -> Seq<int>
    decreases n,
{
    if n <= 0 {
        Seq::empty()
    } else if edges[n - 1].from == node {
        out_indices(edges, node, n - 1).push(n - 1)
    } else {
        out_indices(edges, node, n - 1)
    }
}

/// Targets of the support edges (Supports, DerivedFrom) leaving `node`
/// among the first `n` edges, in insertion order.
pub open spec fn support_targets(edges: Seq<EpistemicEdge>, node: u32, n: int) -> Seq<u32>
    decreases n,
{
    if n <= 0 {
        Seq::empty()
    } else if edges[n - 1].from == node && is_support(edges[n - 1].relation) {
        support_targets(edges, node, n - 1).push(edges[n - 1].to)
    } else {
        support_targets(edges, node, n - 1)
    }
}

/// Number of edges among the first `n` that point to `node` with relation `rel`.
pub open spec fn count_incoming(edges: Seq<EpistemicEdge>, node: u32, rel: Relation, n: int) -> nat
    decreases n,
{
    if n <= 0 {
        0
    } else {
        count_incoming(edges, node, rel, n - 1) + (if edges[n - 1].to == node && edges[n
            - 1].relation == rel {
            1nat
        } else {
            0nat
        })
    }
}

/// The edges among the first `n` that point to `node`, in insertion order.
pub open spec fn incoming(edges: Seq<EpistemicEdge>, node: u32, n: int) -> Seq<EpistemicEdge>
    decreases n,
{
    if n <= 0 {
        Seq::empty()
    } else if edges[n - 1].to == node {
        incoming(edges, node, n - 1).push(edges[n - 1])
    } else {
        incoming(edges, node, n - 1)
    }
}

/// State of the dependents walk: pending stack, visited claims, result.
pub type DepState = (Seq<u32>, Seq<u32>, Seq<u32>);

/// One step of the dependents walk: pop a claim; if it was not visited yet,
/// mark it and push (onto both the stack and the result) the targets of its
/// support edges.
pub open spec fn dep_step(edges: Seq<EpistemicEdge>, s: DepState) -> DepState {
    let (stack, visited, result) = s;
    if stack.len() == 0 {
        s
    } else {
        let cur = stack.last();
        let rest = stack.drop_last();
        if visited.contains(cur) {
            (rest, visited, result)
        } else {
            let ts = support_targets(edges, cur, edges.len() as int);
            (rest + ts, visited.push(cur), result + ts)
        }
    }
}

/// The dependents walk after `k` steps from a single claim.
pub open spec fn dep_iter(edges: Seq<EpistemicEdge>, start: u32, k: nat) -> DepState
    decreases k,
{
    if k == 0 {
        (seq![start], Seq::empty(), Seq::empty())
    } else {
        dep_step(edges, dep_iter(edges, start, (k - 1) as nat))
    }
}

/// What `KnowledgeGraph::dependents` returns: the result of the walk once
/// its stack is empty.
pub open spec fn dependents_spec(edges: Seq<EpistemicEdge>, start: u32) -> Seq<u32> {
    let k = choose|k: nat| dep_iter(edges, start, k).0.len() == 0;
    dep_iter(edges, start, k).2
}

proof fn lemma_dep_stationary(edges: Seq<EpistemicEdge>, start: u32, a: nat, b: nat)
    requires
        a <= b,
        dep_iter(edges, start, a).0.len() == 0,
    ensures
        dep_iter(edges, start, b) == dep_iter(edges, start, a),
    decreases b - a,
{
    if b > a {
        lemma_dep_stationary(edges, start, a, (b - 1) as nat);
    }
}

/// All edge endpoints, followed by `start`.
pub open spec fn endpoints_with(edges: Seq<EpistemicEdge>, start: u32, n: int) -> Seq<u32>
    decreases n,
{
    if n <= 0 {
        seq![start]
    } else {
        endpoints_with(edges, start, n - 1).push(edges[n - 1].from).push(edges[n - 1].to)
    }
}

proof fn lemma_endpoints_start(edges: Seq<EpistemicEdge>, start: u32, n: int)
    ensures
        endpoints_with(edges, start, n).contains(start),
    decreases n,
{
    let e = endpoints_with(edges, start, n);
    if n <= 0 {
        assert(e[0] == start);
    } else {
        lemma_endpoints_start(edges, start, n - 1);
        let p = endpoints_with(edges, start, n - 1);
        let j = choose|j: int| 0 <= j < p.len() && p[j] == start;
        assert(e[j] == start);
    }
}

proof fn lemma_endpoints_contains(edges: Seq<EpistemicEdge>, start: u32, n: int, i: int)
    requires
        0 <= i < n,
    ensures
        endpoints_with(edges, start, n).contains(edges[i].from),
        endpoints_with(edges, start, n).contains(edges[i].to),
    decreases n,
{
    let e = endpoints_with(edges, start, n);
    let p = endpoints_with(edges, start, n - 1);
    if i < n - 1 {
        lemma_endpoints_contains(edges, start, n - 1, i);
        let j = choose|j: int| 0 <= j < p.len() && p[j] == edges[i].from;
        assert(e[j] == edges[i].from);
        let j2 = choose|j: int| 0 <= j < p.len() && p[j] == edges[i].to;
        assert(e[j2] == edges[i].to);
    } else {
        assert(e[e.len() - 2] == edges[i].from);
        assert(e[e.len() - 1] == edges[i].to);
    }
}

proof fn lemma_support_targets_in(edges: Seq<EpistemicEdge>, node: u32, start: u32, n: int)
    requires
        0 <= n <= edges.len(),
    ensures
        forall|j: int|
            0 <= j < support_targets(edges, node, n).len() ==> endpoints_with(
                edges,
                start,
                edges.len() as int,
            ).contains(#[trigger] support_targets(edges, node, n)[j]),
    decreases n,
{
    if n > 0 {
        lemma_support_targets_in(edges, node, start, n - 1);
        lemma_endpoints_contains(edges, start, edges.len() as int, n - 1);
        let prev = support_targets(edges, node, n - 1);
        let cur = support_targets(edges, node, n);
        assert forall|j: int| 0 <= j < cur.len() implies endpoints_with(
            edges,
            start,
            edges.len() as int,
        ).contains(#[trigger] cur[j]) by {
            if j < prev.len() {
                assert(cur[j] == prev[j]);
            } else {
                assert(cur[j] == edges[n - 1].to);
            }
        }
    }
}

/// A duplicate-free sequence whose elements all occur in `t` is no longer than `t`.
pub proof fn lemma_nodup_len_bound(s: Seq<u32>, t: Seq<u32>)
    requires
        s.no_duplicates(),
        forall|i: int| 0 <= i < s.len() ==> t.contains(#[trigger] s[i]),
    ensures
        s.len() <= t.len(),
{
    s.unique_seq_to_set();
    t.lemma_cardinality_of_set();
    assert(s.to_set().subset_of(t.to_set())) by {
        assert forall|x: u32| s.to_set().contains(x) implies t.to_set().contains(x) by {
            let i = choose|i: int| 0 <= i < s.len() && s[i] == x;
            assert(t.contains(s[i]));
        }
    }
    vstd::set_lib::lemma_len_subset(s.to_set(), t.to_set());
}


/// The index of the last claim among the first `n` with id `h`.
pub open spec fn id_index(claims: Seq<Claim>, h: [u8; 32], n: int) -> Option<int>
    decreases n,
{
    if n <= 0 {
        None
    } else if claims[n - 1].id == h {
        Some(n - 1)
    } else {
        id_index(claims, h, n - 1)
    }
}

/// The claim that inherits fingerprint `fp` among the first `n` claims: the
/// last Summary with that fingerprint, else the first claim with it.
pub open spec fn fingerprint_index(claims: Seq<Claim>, fp: SemanticFingerprint, n: int) -> Option<
    int,
>
    decreases n,
{
    if n <= 0 {
        None
    } else {
        let prev = fingerprint_index(claims, fp, n - 1);
        if claims[n - 1].fingerprint == fp && (claims[n - 1].kind is Summary || prev is None) {
            Some(n - 1)
        } else {
            prev
        }
    }
}

/// Hybrid resolution of an edge endpoint: exact id first, fingerprint as fallback.
pub open spec fn resolve_endpoint(claims: Seq<Claim>, h: [u8; 32], fp: SemanticFingerprint) -> Option<
    int,
> {
    match id_index(claims, h, claims.len() as int) {
        Some(i) => Some(i),
        None => fingerprint_index(claims, fp, claims.len() as int),
    }
}

/// The edges that `build_from_claims` makes of the first `n` raw edges:
/// those whose both endpoints resolve, in order.
pub open spec fn resolved_edges(claims: Seq<Claim>, raw: Seq<RawEpistemicEdge>, n: int) -> Seq<
    EpistemicEdge,
>
    decreases n,
{
    if n <= 0 {
        Seq::empty()
    } else {
        let prev = resolved_edges(claims, raw, n - 1);
        let r = raw[n - 1];
        match (
            resolve_endpoint(claims, r.from_hash, r.from_fingerprint),
            resolve_endpoint(claims, r.to_hash, r.to_fingerprint),
        ) {
            (Some(f), Some(t)) => prev.push(
                EpistemicEdge { from: f as u32, to: t as u32, relation: r.relation, strength: r.strength },
            ),
            _ => prev,
        }
    }
}

fn resolve(claims: &[Claim], h: &[u8; 32], fp: &SemanticFingerprint) -> (r: Option<u32>)
    requires
        claims@.len() <= u32::MAX,
    ensures
        r matches Some(v) ==> resolve_endpoint(claims@, *h, *fp) == Some(v as int),
        r is None ==> resolve_endpoint(claims@, *h, *fp) is None,
{
    let mut by_id: Option<u32> = None;
    let mut by_fp: Option<u32> = None;
    let mut i: usize = 0;
    while i < claims.len()
        invariant
            i <= claims@.len(),
            claims@.len() <= u32::MAX,
            by_id matches Some(v) ==> id_index(claims@, *h, i as int) == Some(v as int),
            by_id is None ==> id_index(claims@, *h, i as int) is None,
            by_fp matches Some(v) ==> fingerprint_index(claims@, *fp, i as int) == Some(v as int),
            by_fp is None ==> fingerprint_index(claims@, *fp, i as int) is None,
        decreases claims@.len() - i,
    {
        let c = &claims[i];
        if hash_eq(&c.id, h) {
            by_id = Some(i as u32);
        }
        if fingerprint_eq(&c.fingerprint, fp) {
            let summary = match c.kind {
                ClaimKind::Summary { .. } => true,
                _ => false,
            };
            if summary || by_fp.is_none() {
                by_fp = Some(i as u32);
            }
        }
        i = i + 1;
    }
    match by_id {
        Some(v) => Some(v),
        None => by_fp,
    }
}

impl KnowledgeGraph {
    pub fn new() -> (r: Self)
        ensures
            r@ == Seq::<EpistemicEdge>::empty(),
    {
        KnowledgeGraph { edges: Vec::new() }
    }

    /// Build a graph from claims and raw edges with hybrid edge resolution:
    /// an endpoint resolves to the last claim with its exact id, or, when no
    /// claim has that id, to the claim that inherited its fingerprint (the
    /// last Summary with it, else the first claim with it). Edges with an
    /// endpoint that does not resolve are dropped.
    pub fn build_from_claims(claims: &[Claim], raw_edges: &[RawEpistemicEdge]) -> (r: Self)
        requires
            claims@.len() <= u32::MAX,
        ensures
            r@ == resolved_edges(claims@, raw_edges@, raw_edges@.len() as int),
    {
        let mut graph = Self::new();
        let mut i: usize = 0;
        while i < raw_edges.len()
            invariant
                i <= raw_edges@.len(),
                claims@.len() <= u32::MAX,
                graph@ == resolved_edges(claims@, raw_edges@, i as int),
            decreases raw_edges@.len() - i,
        {
            let raw = &raw_edges[i];
            let from_id = resolve(claims, &raw.from_hash, &raw.from_fingerprint);
            let to_id = resolve(claims, &raw.to_hash, &raw.to_fingerprint);
            match (from_id, to_id) {
                (Some(from), Some(to)) => {
                    graph.add_edge(
                        EpistemicEdge { from, to, relation: raw.relation, strength: raw.strength },
                    );
                },
                _ => {},
            }
            i = i + 1;
        }
        graph
    }

    /// Append an edge.
    pub fn add_edge(&mut self, edge: EpistemicEdge)
        ensures
            final(self)@ == old(self)@.push(edge),
    {
        self.edges.push(edge);
    }

    /// All edges, in insertion order.
    pub fn edges(&self) -> (r: &[EpistemicEdge])
        ensures
            r@ == self@,
    {
        self.edges.as_slice()
    }

    /// Count of Supports edges and of Contradicts edges pointing to a claim.
    pub fn support_ratio(&self, claim_id: ClaimArenaId) -> (r: (u32, u32))
        requires
            self@.len() <= u32::MAX,
        ensures
            r.0 == count_incoming(self@, claim_id, Relation::Supports, self@.len() as int),
            r.1 == count_incoming(self@, claim_id, Relation::Contradicts, self@.len() as int),
    {
        let mut supports: u32 = 0;
        let mut contradicts: u32 = 0;
        let mut i: usize = 0;
        while i < self.edges.len()
            invariant
                i <= self@.len(),
                self@.len() <= u32::MAX,
                supports == count_incoming(self@, claim_id, Relation::Supports, i as int),
                contradicts == count_incoming(self@, claim_id, Relation::Contradicts, i as int),
                supports + contradicts <= i,
            decreases self@.len() - i,
        {
            let e = self.edges[i];
            if e.to == claim_id {
                match e.relation {
                    Relation::Supports => {
                        supports = supports + 1;
                    },
                    Relation::Contradicts => {
                        contradicts = contradicts + 1;
                    },
                    _ => {},
                }
            }
            i = i + 1;
        }
        (supports, contradicts)
    }

    /// All edges pointing to a claim, in insertion order.
    pub fn incoming_edges(&self, claim_id: ClaimArenaId) -> (r: Vec<EpistemicEdge>)
        ensures
            r@ == incoming(self@, claim_id, self@.len() as int),
    {
        let mut r: Vec<EpistemicEdge> = Vec::new();
        let mut i: usize = 0;
        while i < self.edges.len()
            invariant
                i <= self@.len(),
                r@ == incoming(self@, claim_id, i as int),
            decreases self@.len() - i,
        {
            let e = self.edges[i];
            if e.to == claim_id {
                r.push(e);
            }
            i = i + 1;
        }
        r
    }

    /// Targets of the support edges leaving a claim, in insertion order.
    fn support_targets_of(&self, node: ClaimArenaId) -> (r: Vec<ClaimArenaId>)
        ensures
            r@ == support_targets(self@, node, self@.len() as int),
    {
        let mut r: Vec<ClaimArenaId> = Vec::new();
        let mut i: usize = 0;
        while i < self.edges.len()
            invariant
                i <= self@.len(),
                r@ == support_targets(self@, node, i as int),
            decreases self@.len() - i,
        {
            let e = self.edges[i];
            if e.from == node && relation_is_support(e.relation) {
                r.push(e.to);
            }
            i = i + 1;
        }
        r
    }

    /// All claims that depend on `claim_id` transitively: a depth-first walk
    /// along Supports and DerivedFrom edges that records the target of every
    /// such edge leaving a newly visited claim (so a claim may be listed more
    /// than once).
    pub fn dependents(&self, claim_id: ClaimArenaId) -> (r: Vec<ClaimArenaId>)
        ensures
            r@ == dependents_spec(self@, claim_id),
    {
        let ghost edges = self@;
        let ghost universe = endpoints_with(edges, claim_id, edges.len() as int);
        let mut stack: Vec<ClaimArenaId> = vec![claim_id];
        let mut visited: Vec<ClaimArenaId> = Vec::new();
        let mut result: Vec<ClaimArenaId> = Vec::new();
        let ghost mut k: nat = 0;
        proof {
            lemma_endpoints_start(edges, claim_id, edges.len() as int);
            assert(stack@ =~= seq![claim_id]);
        }
        while stack.len() > 0
            invariant
                edges == self@,
                universe == endpoints_with(edges, claim_id, edges.len() as int),
                (stack@, visited@, result@) == dep_iter(edges, claim_id, k),
                visited@.no_duplicates(),
                forall|i: int| 0 <= i < visited@.len() ==> universe.contains(#[trigger] visited@[i]),
                forall|i: int| 0 <= i < stack@.len() ==> universe.contains(#[trigger] stack@[i]),
            decreases universe.len() - visited@.len(), stack@.len(),
        {
            proof {
                lemma_nodup_len_bound(visited@, universe);
            }
            let cur = stack.pop().unwrap();
            let mut seen = false;
            let mut i: usize = 0;
            while i < visited.len()
                invariant
                    i <= visited@.len(),
                    seen == exists|j: int| 0 <= j < i && visited@[j] == cur,
                decreases visited@.len() - i,
            {
                if visited[i] == cur {
                    seen = true;
                }
                i = i + 1;
            }
            if !seen {
                let ghost v0 = visited@;
                visited.push(cur);
                let ts = self.support_targets_of(cur);
                let mut j: usize = 0;
                let ghost s0 = stack@;
                let ghost r0 = result@;
                while j < ts.len()
                    invariant
                        j <= ts@.len(),
                        stack@ == s0 + ts@.take(j as int),
                        result@ == r0 + ts@.take(j as int),
                    decreases ts@.len() - j,
                {
                    stack.push(ts[j]);
                    result.push(ts[j]);
                    proof {
                        assert(ts@.take(j + 1) =~= ts@.take(j as int).push(ts@[j as int]));
                    }
                    j = j + 1;
                }
                proof {
                    assert(ts@.take(j as int) =~= ts@);
                    lemma_support_targets_in(edges, cur, claim_id, edges.len() as int);
                    assert forall|i: int| 0 <= i < stack@.len() implies universe.contains(
                        #[trigger] stack@[i],
                    ) by {
                        if i >= s0.len() {
                            assert(stack@[i] == ts@[i - s0.len()]);
                        } else {
                            assert(stack@[i] == s0[i]);
                        }
                    }
                    assert(visited@.no_duplicates()) by {
                        assert forall|a: int, b: int|
                            0 <= a < b < visited@.len() implies visited@[a] != visited@[b] by {
                            if b == visited@.len() - 1 {
                                assert(visited@[a] == v0[a]);
                                assert(!v0.contains(cur));
                            }
                        }
                    }
                    assert forall|i: int| 0 <= i < visited@.len() implies universe.contains(
                        #[trigger] visited@[i],
                    ) by {
                        if i < v0.len() {
                            assert(visited@[i] == v0[i]);
                        }
                    }
                    lemma_nodup_len_bound(visited@, universe);
                }
            }
            proof {
                k = k + 1;
            }
        }
        proof {
            let kk = choose|kk: nat| dep_iter(edges, claim_id, kk).0.len() == 0;
            if kk <= k {
                lemma_dep_stationary(edges, claim_id, kk, k);
            } else {
                lemma_dep_stationary(edges, claim_id, k, kk);
            }
        }
        result
    }
}

} // verus!
