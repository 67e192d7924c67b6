//! Deterministic semantic topologies: automatic epistemic edge generation
//! from quantized embeddings, compared by Hamming distance.
use vstd::prelude::*;
use crate::epistemic::claim::{Claim, RawEpistemicEdge, Relation};
use crate::epistemic::logodds::{min_int, Reputation};
use crate::ordering::{compare_hash, hash_eq, hash_lt, lemma_insert_at, lemma_sort_multiset, sort_stable};

verus! {

/// Number of set bits among the lowest `width` bits of `x`.
pub open spec fn bits_set(x: nat, width: nat) -> nat
    decreases width,
{
    if width == 0 {
        0
    } else {
        (x % 2) + bits_set(x / 2, (width - 1) as nat)
    }
}

pub proof fn lemma_bits_set_bound(x: nat, width: nat)
    ensures
        bits_set(x, width) <= width,
    decreases width,
{
    if width > 0 {
        lemma_bits_set_bound(x / 2, (width - 1) as nat);
    }
}

pub proof fn lemma_bits_set_zero(width: nat)
    ensures
        bits_set(0, width) == 0,
    decreases width,
{
    if width > 0 {
        lemma_bits_set_zero((width - 1) as nat);
    }
}

/// Number of set bits of a 64-bit word.
fn popcount(x: u64) -> (r: u32)
    ensures
        r == bits_set(x as nat, 64),
        r <= 64,
{
    let mut c: u32 = 0;
    let mut y: u64 = x;
    let mut i: u32 = 0;
    while i < 64
        invariant
            i <= 64,
            c <= i,
            c + bits_set(y as nat, (64 - i) as nat) == bits_set(x as nat, 64),
        decreases 64 - i,
    {
        c = c + (y % 2) as u32;
        y = y / 2;
        i = i + 1;
    }
    proof {
        assert(bits_set(y as nat, 0) == 0);
    }
    c
}

/// 256-bit SimHash of claim content in a canonical latent space, stored as
/// four 64-bit words.
#[derive(Clone, Copy, Debug, PartialEq, Eq, Hash)]
pub struct QuantizedEmbedding(pub [u64; 4]);

/// Differing bits of one pair of words.
pub open spec fn word_distance(a: u64, b: u64) -> nat {
    bits_set((a ^ b) as nat, 64)
}

/// Hamming distance of two embeddings: the number of differing bits.
pub open spec fn hamming(a: QuantizedEmbedding, b: QuantizedEmbedding) -> nat {
    word_distance(a.0[0], b.0[0]) + word_distance(a.0[1], b.0[1]) + word_distance(a.0[2], b.0[2])
        + word_distance(a.0[3], b.0[3])
}

impl QuantizedEmbedding {
    /// Hamming distance: number of differing bits (0 to 256).
    /// 0 = identical meaning, 256 = perfectly opposite.
    pub fn hamming_distance(&self, other: &Self) -> (r: u32)
        ensures
            r == hamming(*self, *other),
            r <= 256,
            r == hamming(*other, *self),
            *self == *other ==> r == 0,
    {
        let d0 = popcount(self.0[0] ^ other.0[0]);
        let d1 = popcount(self.0[1] ^ other.0[1]);
        let d2 = popcount(self.0[2] ^ other.0[2]);
        let d3 = popcount(self.0[3] ^ other.0[3]);
        proof {
            let (a, b) = (self.0, other.0);
            assert forall|i: int| 0 <= i < 4 implies word_distance(a[i], b[i]) == word_distance(
                b[i],
                a[i],
            ) by {
                let (x, y) = (a[i], b[i]);
                assert(x ^ y == y ^ x) by (bit_vector);
            }
            if *self == *other {
                assert forall|i: int| 0 <= i < 4 implies word_distance(a[i], b[i]) == 0 by {
                    let x = a[i];
                    assert(x ^ x == 0) by (bit_vector);
                    lemma_bits_set_zero(64);
                }
            }
        }
        d0 + d1 + d2 + d3
    }

    /// Create from a raw quadruple of words.
    pub fn new(bits: [u64; 4]) -> (r: Self)
        ensures
            r.0 == bits,
    {
        QuantizedEmbedding(bits)
    }

    /// All zeros (neutral embedding).
    pub fn zero() -> (r: Self)
        ensures
            r.0@ == seq![0u64, 0u64, 0u64, 0u64],
    {
        let r = QuantizedEmbedding([0u64; 4]);
        assert(r.0@ =~= seq![0u64, 0u64, 0u64, 0u64]);
        r
    }

    /// All ones (bitwise opposite of `zero`, maximum distance).
    pub fn ones() -> (r: Self)
        ensures
            r.0@ == seq![u64::MAX, u64::MAX, u64::MAX, u64::MAX],
    {
        let r = QuantizedEmbedding([u64::MAX; 4]);
        assert(r.0@ =~= seq![u64::MAX, u64::MAX, u64::MAX, u64::MAX]);
        r
    }
}

/// Default Hamming distance threshold for Supports edges.
pub const DEFAULT_SUPPORT_THRESHOLD: u32 = 30;

/// Default Hamming distance threshold for Contradicts edges.
pub const DEFAULT_CONTRADICT_THRESHOLD: u32 = 200;

/// Default maximum edges generated per claim.
pub const DEFAULT_MAX_K_NEAREST: usize = 10;

/// Configuration for automatic edge generation.
#[derive(Clone, Copy, Debug)]
pub struct AutoEdgeConfig {
    /// Max Hamming distance to generate a Supports edge (inclusive).
    pub support_threshold_bits: u32,
    /// Min Hamming distance to generate a Contradicts edge (inclusive).
    pub contradict_threshold_bits: u32,
    /// Max edges a single claim can take part in.
    pub max_k_nearest: usize,
}

impl Default for AutoEdgeConfig {
    fn default() -> (r: Self)
        ensures
            r.support_threshold_bits == DEFAULT_SUPPORT_THRESHOLD,
            r.contradict_threshold_bits == DEFAULT_CONTRADICT_THRESHOLD,
            r.max_k_nearest == DEFAULT_MAX_K_NEAREST,
    {
        AutoEdgeConfig {
            support_threshold_bits: DEFAULT_SUPPORT_THRESHOLD,
            contradict_threshold_bits: DEFAULT_CONTRADICT_THRESHOLD,
            max_k_nearest: DEFAULT_MAX_K_NEAREST,
        }
    }
}

/// Generates epistemic edges automatically from quantized embeddings.
pub struct AutoEdgeGenerator {
    pub config: AutoEdgeConfig,
}

/// The relation an embedding distance calls for, if any.
pub open spec fn relation_for(cfg: AutoEdgeConfig, distance: nat) -> Option<Relation> {
    if distance <= cfg.support_threshold_bits {
        Some(Relation::Supports)
    } else if distance >= cfg.contradict_threshold_bits {
        Some(Relation::Contradicts)
    } else {
        None
    }
}

/// Edge strength in basis points: for Supports, `10000` at distance 0 down
/// to `1000` at the threshold; for Contradicts, `1000` at the threshold up
/// to `10000` at distance 256; always clamped to `[1000, 10000]`.
pub open spec fn strength_for(cfg: AutoEdgeConfig, rel: Relation, distance: int) -> int {
    if rel is Supports {
        let t = if cfg.support_threshold_bits >= 1 { cfg.support_threshold_bits as int } else { 1 };
        let raw = if distance * 9000 / t >= 10000 { 0 } else { 10000 - distance * 9000 / t };
        if raw < 1000 { 1000 } else { raw }
    } else {
        let ct = cfg.contradict_threshold_bits as int;
        let range = if 256 - ct >= 1 { 256 - ct } else { 1 };
        let above = if distance >= ct { distance - ct } else { 0 };
        let raw = 1000 + above * 9000 / range;
        if raw > 10000 { 10000 } else { raw }
    }
}

/// Number of times `id` appears as an endpoint of the edges.
pub open spec fn endpoint_count(edges: Seq<RawEpistemicEdge>, id: [u8; 32]) -> nat
    decreases edges.len(),
{
    if edges.len() == 0 {
        0
    } else {
        endpoint_count(edges.drop_last(), id) + (if edges.last().from_hash == id {
            1nat
        } else {
            0nat
        }) + (if edges.last().to_hash == id {
            1nat
        } else {
            0nat
        })
    }
}

/// The edge for the pair `(c1, c2)` at the given relation and distance.
pub open spec fn edge_for(
    cfg: AutoEdgeConfig,
    c1: Claim,
    c2: Claim,
    rel: Relation,
    distance: nat,
) -> RawEpistemicEdge {
    RawEpistemicEdge {
        from_hash: c1.id,
        from_fingerprint: c1.fingerprint,
        to_hash: c2.id,
        to_fingerprint: c2.fingerprint,
        relation: rel,
        strength: Reputation::spec_from_bps(strength_for(cfg, rel, distance as int)),
    }
}

/// The edges after considering the pair `(cs[i], cs[j])`.
pub open spec fn pair_step(
    cfg: AutoEdgeConfig,
    cs: Seq<Claim>,
    acc: Seq<RawEpistemicEdge>,
    i: int,
    j: int,
) -> Seq<RawEpistemicEdge> {
    let c1 = cs[i];
    let c2 = cs[j];
    if c1.embedding_version != c2.embedding_version {
        acc
    } else if endpoint_count(acc, c1.id) >= cfg.max_k_nearest || endpoint_count(acc, c2.id)
        >= cfg.max_k_nearest {
        acc
    } else {
        let d = hamming(c1.embedding.unwrap(), c2.embedding.unwrap());
        match relation_for(cfg, d) {
            Some(rel) => acc.push(edge_for(cfg, c1, c2, rel, d)),
            None => acc,
        }
    }
}

/// The edges after the pairs `(cs[i], cs[k])` for `i < k < j`.
pub open spec fn row_edges(
    cfg: AutoEdgeConfig,
    cs: Seq<Claim>,
    acc: Seq<RawEpistemicEdge>,
    i: int,
    j: int,
) -> Seq<RawEpistemicEdge>
    decreases j - i,
{
    if j <= i + 1 {
        acc
    } else {
        pair_step(cfg, cs, row_edges(cfg, cs, acc, i, j - 1), i, j - 1)
    }
}

/// The edges after the rows of the first `n` claims.
pub open spec fn all_edges(cfg: AutoEdgeConfig, cs: Seq<Claim>, n: nat) -> Seq<RawEpistemicEdge>
    decreases n,
{
    if n == 0 {
        Seq::empty()
    } else {
        row_edges(cfg, cs, all_edges(cfg, cs, (n - 1) as nat), n - 1, cs.len() as int)
    }
}

/// The claims that carry an embedding, in input order.
pub open spec fn embedded(claims: Seq<Claim>) -> Seq<Claim>
    decreases claims.len(),
{
    if claims.len() == 0 {
        Seq::empty()
    } else if claims.last().embedding is Some {
        embedded(claims.drop_last()).push(claims.last())
    } else {
        embedded(claims.drop_last())
    }
}

proof fn lemma_embedded_some(claims: Seq<Claim>)
    ensures
        forall|k: int|
            0 <= k < embedded(claims).len() ==> (#[trigger] embedded(claims)[k]).embedding is Some,
    decreases claims.len(),
{
    if claims.len() > 0 {
        lemma_embedded_some(claims.drop_last());
    }
}

/// Every claim of a stable sort of `embedded(claims)` carries an embedding.
proof fn lemma_sorted_embedded_some(claims: Seq<Claim>)
    ensures
        forall|k: int|
            0 <= k < sort_stable(embedded(claims), id_before()).len() ==> (#[trigger] sort_stable(
                embedded(claims),
                id_before(),
            )[k]).embedding is Some,
{
    let e = embedded(claims);
    let cs = sort_stable(e, id_before());
    lemma_embedded_some(claims);
    lemma_sort_multiset(e, id_before());
    assert forall|k: int| 0 <= k < cs.len() implies (#[trigger] cs[k]).embedding is Some by {
        broadcast use vstd::seq_lib::group_to_multiset_ensures;

        assert(cs.to_multiset().count(cs[k]) > 0);
        assert(e.to_multiset().count(cs[k]) > 0);
        assert(e.contains(cs[k]));
    }
}

pub open spec fn id_before() -> spec_fn(Claim, Claim) -> bool {
    |a: Claim, b: Claim| hash_lt(a.id, b.id)
}

/// What `AutoEdgeGenerator::generate_edges` returns: the claims with an
/// embedding, stably sorted by id, compared pairwise in that order.
pub open spec fn generated_edges(cfg: AutoEdgeConfig, claims: Seq<Claim>) -> Seq<RawEpistemicEdge> {
    let cs = sort_stable(embedded(claims), id_before());
    all_edges(cfg, cs, cs.len())
}

/// Number of edges leaving from `id` and number of edges arriving at `id`.
pub open spec fn from_count(edges: Seq<RawEpistemicEdge>, id: [u8; 32]) -> nat
    decreases edges.len(),
{
    if edges.len() == 0 {
        0
    } else {
        from_count(edges.drop_last(), id) + (if edges.last().from_hash == id {
            1nat
        } else {
            0nat
        })
    }
}

pub open spec fn to_count(edges: Seq<RawEpistemicEdge>, id: [u8; 32]) -> nat
    decreases edges.len(),
{
    if edges.len() == 0 {
        0
    } else {
        to_count(edges.drop_last(), id) + (if edges.last().to_hash == id {
            1nat
        } else {
            0nat
        })
    }
}

proof fn lemma_endpoint_split(edges: Seq<RawEpistemicEdge>, id: [u8; 32])
    ensures
        endpoint_count(edges, id) == from_count(edges, id) + to_count(edges, id),
    decreases edges.len(),
{
    if edges.len() > 0 {
        lemma_endpoint_split(edges.drop_last(), id);
    }
}

/// Whether `id` is an endpoint of at least `k` of the edges.
fn endpoint_count_reaches(edges: &Vec<RawEpistemicEdge>, id: &[u8; 32], k: usize) -> (r: bool)
    ensures
        r == (endpoint_count(edges@, *id) >= k),
{
    let mut f: usize = 0;
    let mut t: usize = 0;
    let mut i: usize = 0;
    while i < edges.len()
        invariant
            i <= edges@.len(),
            f == from_count(edges@.take(i as int), *id),
            t == to_count(edges@.take(i as int), *id),
            f <= i,
            t <= i,
        decreases edges@.len() - i,
    {
        proof {
            assert(edges@.take(i + 1).drop_last() =~= edges@.take(i as int));
        }
        if hash_eq(&edges[i].from_hash, id) {
            f = f + 1;
        }
        if hash_eq(&edges[i].to_hash, id) {
            t = t + 1;
        }
        i = i + 1;
    }
    proof {
        assert(edges@.take(i as int) =~= edges@);
        lemma_endpoint_split(edges@, *id);
    }
    f >= k || t >= k - f
}

fn relation_of(cfg: &AutoEdgeConfig, distance: u32) -> (r: Option<Relation>)
    ensures
        r == relation_for(*cfg, distance as nat),
{
    if distance <= cfg.support_threshold_bits {
        Some(Relation::Supports)
    } else if distance >= cfg.contradict_threshold_bits {
        Some(Relation::Contradicts)
    } else {
        None
    }
}

fn strength_of(cfg: &AutoEdgeConfig, rel: Relation, distance: u32) -> (r: u16)
    requires
        distance <= 256,
    ensures
        r == strength_for(*cfg, rel, distance as int),
        1000 <= r <= 10000,
{
    match rel {
        Relation::Supports => {
            let t: u32 = if cfg.support_threshold_bits >= 1 {
                cfg.support_threshold_bits
            } else {
                1
            };
            let q: u32 = distance * 9000 / t;
            let raw: u32 = if q >= 10000 {
                0
            } else {
                10000 - q
            };
            if raw < 1000 {
                1000
            } else {
                raw as u16
            }
        },
        _ => {
            let ct = cfg.contradict_threshold_bits;
            let range: u32 = if ct <= 255 {
                256 - ct
            } else {
                1
            };
            let above: u32 = if distance >= ct {
                distance - ct
            } else {
                0
            };
            assert(above * 9000 <= 256 * 9000) by (nonlinear_arith)
                requires
                    above <= 256,
            ;
            let raw: u32 = 1000 + above * 9000 / range;
            if raw > 10000 {
                10000
            } else {
                raw as u16
            }
        },
    }
}

/// The claims at the given indices.
pub open spec fn claims_at(claims: Seq<Claim>, idx: Seq<usize>) -> Seq<Claim> {
    idx.map_values(|k: usize| claims[k as int])
}

/// Indices of the claims that carry an embedding, in input order.
fn embedded_indices(claims: &[Claim]) -> (r: Vec<usize>)
    ensures
        claims_at(claims@, r@) == embedded(claims@),
        forall|k: int| 0 <= k < r@.len() ==> r@[k] < claims@.len(),
{
    let mut r: Vec<usize> = Vec::new();
    let mut i: usize = 0;
    while i < claims.len()
        invariant
            i <= claims@.len(),
            claims_at(claims@, r@) == embedded(claims@.take(i as int)),
            forall|k: int| 0 <= k < r@.len() ==> r@[k] < i,
        decreases claims@.len() - i,
    {
        proof {
            assert(claims@.take(i + 1).drop_last() =~= claims@.take(i as int));
            assert(claims@.take(i + 1).last() == claims@[i as int]);
        }
        if claims[i].embedding.is_some() {
            let ghost before = r@;
            r.push(i);
            proof {
                assert(claims_at(claims@, r@) =~= claims_at(claims@, before).push(claims@[i as int]));
            }
        }
        i = i + 1;
    }
    proof {
        assert(claims@.take(i as int) =~= claims@);
    }
    r
}

/// Stable insertion sort of claim indices by claim id.
pub(crate) fn sort_indices_by_id(claims: &[Claim], idx: &Vec<usize>) -> (r: Vec<usize>)
    requires
        forall|k: int| 0 <= k < idx@.len() ==> idx@[k] < claims@.len(),
    ensures
        claims_at(claims@, r@) == sort_stable(
            claims_at(claims@, idx@),
            id_before(),
        ),
        r@.len() == idx@.len(),
        forall|k: int| 0 <= k < r@.len() ==> r@[k] < claims@.len(),
{
    let mut res: Vec<usize> = Vec::new();
    let mut i: usize = 0;
    while i < idx.len()
        invariant
            i <= idx@.len(),
            forall|k: int| 0 <= k < idx@.len() ==> idx@[k] < claims@.len(),
            claims_at(claims@, res@) == sort_stable(claims_at(claims@, idx@.take(i as int)), id_before()),
            res@.len() == i,
            forall|k: int| 0 <= k < res@.len() ==> res@[k] < claims@.len(),
        decreases idx@.len() - i,
    {
        let x = idx[i];
        let ghost r0 = claims_at(claims@, res@);
        let ghost xc = claims@[x as int];
        proof {
            assert(claims_at(claims@, idx@.take(i + 1)).drop_last() =~= claims_at(
                claims@,
                idx@.take(i as int),
            ));
            assert(claims_at(claims@, idx@.take(i + 1)).last() == xc);
        }
        res.push(x);
        let mut j: usize = i;
        while j > 0 && compare_hash(&claims[res[j]].id, &claims[res[j - 1]].id) < 0
            invariant
                j <= i,
                i < idx@.len(),
                x < claims@.len(),
                    xc == claims@[x as int],
                res@.len() == i + 1,
                r0.len() == i,
                res@[j as int] == x,
                forall|k: int| 0 <= k < res@.len() ==> res@[k] < claims@.len(),
                claims_at(claims@, res@) == r0.take(j as int) + seq![xc] + r0.skip(j as int),
                forall|k: int| j <= k < r0.len() ==> hash_lt(xc.id, #[trigger] r0[k].id),
            decreases j,
        {
            let ghost old_res = res@;
            proof {
                assert(claims_at(claims@, res@)[j as int] == xc);
                assert(claims_at(claims@, res@)[j - 1] == r0[j - 1]);
                assert(claims_at(claims@, res@)[j - 1] == claims@[res@[j - 1] as int]);
            }
            let a = res[j];
            let b = res[j - 1];
            res.set(j, b);
            res.set(j - 1, a);
            proof {
                let target = r0.take(j - 1) + seq![xc] + r0.skip(j - 1);
                assert forall|k: int| 0 <= k < res@.len() implies claims_at(claims@, res@)[k]
                    == target[k] by {
                    assert(claims_at(claims@, res@)[k] == claims@[res@[k] as int]);
                    assert(claims_at(claims@, old_res)[k] == claims@[old_res[k] as int]);
                }
                assert(claims_at(claims@, res@) =~= target);
            }
            j = j - 1;
        }
        proof {
            if j > 0 {
                assert(claims_at(claims@, res@)[j - 1] == r0[j - 1]);
            }
            lemma_insert_at(r0, xc, id_before(), j as int);
        }
        i = i + 1;
    }
    proof {
        assert(idx@.take(i as int) =~= idx@);
    }
    res
}

impl AutoEdgeGenerator {
    pub fn new(config: AutoEdgeConfig) -> (r: Self)
        ensures
            r.config == config,
    {
        AutoEdgeGenerator { config }
    }

    /// Generate edges for a batch of claims (epoch-aligned). Claims with an
    /// embedding are stably sorted by id; each pair `(i, j)`, `i < j`, of the
    /// same embedding version whose claims both take part in fewer than
    /// `max_k_nearest` edges so far gets a Supports edge when close enough,
    /// a Contradicts edge when far enough, and no edge in between.
    pub fn generate_edges(&self, claims: &[Claim]) -> (r: Vec<RawEpistemicEdge>)
        ensures
            r@ == generated_edges(self.config, claims@),
    {
        let cfg = self.config;
        let emb = embedded_indices(claims);
        let order = sort_indices_by_id(claims, &emb);
        let ghost cs = claims_at(claims@, order@);
        let n = order.len();
        let mut edges: Vec<RawEpistemicEdge> = Vec::new();
        proof {
            lemma_sorted_embedded_some(claims@);
        }
        let mut i: usize = 0;
        while i < n
            invariant
                n == order@.len(),
                cs.len() == n,
                cs == claims_at(claims@, order@),
                cs == sort_stable(embedded(claims@), id_before()),
                forall|k: int| 0 <= k < n ==> order@[k] < claims@.len(),
                forall|k: int| 0 <= k < n ==> (#[trigger] cs[k]).embedding is Some,
                i <= n,
                cfg == self.config,
                edges@ == all_edges(cfg, cs, i as nat),
            decreases n - i,
        {
            let c1 = &claims[order[i]];
            proof {
                assert(cs[i as int] == claims@[order@[i as int] as int]);
            }
            let e1 = c1.embedding.unwrap();
            let mut j: usize = i + 1;
            while j < n
                invariant
                    n == order@.len(),
                    cs.len() == n,
                    cs == claims_at(claims@, order@),
                    forall|k: int| 0 <= k < n ==> order@[k] < claims@.len(),
                    forall|k: int| 0 <= k < n ==> (#[trigger] cs[k]).embedding is Some,
                    i < n,
                    i + 1 <= j <= n,
                    *c1 == cs[i as int],
                    e1 == cs[i as int].embedding.unwrap(),
                    edges@ == row_edges(cfg, cs, all_edges(cfg, cs, i as nat), i as int, j as int),
                decreases n - j,
            {
                let c2 = &claims[order[j]];
                proof {
                    assert(cs[j as int] == claims@[order@[j as int] as int]);
                }
                let ghost acc = edges@;
                if c1.embedding_version == c2.embedding_version {
                    let full1 = endpoint_count_reaches(&edges, &c1.id, cfg.max_k_nearest);
                    let full2 = endpoint_count_reaches(&edges, &c2.id, cfg.max_k_nearest);
                    if !full1 && !full2 {
                        let e2 = c2.embedding.unwrap();
                        let distance = e1.hamming_distance(&e2);
                        match relation_of(&cfg, distance) {
                            Some(rel) => {
                                let s = strength_of(&cfg, rel, distance);
                                let strength = Reputation::from_bps(s);
                                edges.push(
                                    RawEpistemicEdge {
                                        from_hash: c1.id,
                                        from_fingerprint: c1.fingerprint,
                                        to_hash: c2.id,
                                        to_fingerprint: c2.fingerprint,
                                        relation: rel,
                                        strength,
                                    },
                                );
                            },
                            None => {},
                        }
                    }
                }
                proof {
                    assert(edges@ == pair_step(cfg, cs, acc, i as int, j as int));
                }
                j = j + 1;
            }
            i = i + 1;
        }
        edges
    }
}

/// No two claims share an id.
pub open spec fn distinct_ids(s: Seq<Claim>) -> bool {
    forall|i: int, j: int| 0 <= i < j < s.len() ==> s[i].id != s[j].id
}

proof fn lemma_embedded_count(s: Seq<Claim>, x: Claim)
    ensures
        embedded(s).to_multiset().count(x) == if x.embedding is Some {
            s.to_multiset().count(x)
        } else {
            0
        },
    decreases s.len(),
{
    broadcast use vstd::seq_lib::group_to_multiset_ensures;
    broadcast use vstd::multiset::group_multiset_axioms;

    if s.len() == 0 {
    } else {
        lemma_embedded_count(s.drop_last(), x);
        assert(s.drop_last().push(s.last()) =~= s);
    }
}

proof fn lemma_embedded_members(s: Seq<Claim>)
    ensures
        forall|i: int| 0 <= i < embedded(s).len() ==> s.contains(#[trigger] embedded(s)[i]),
        distinct_ids(s) ==> distinct_ids(embedded(s)),
    decreases s.len(),
{
    if s.len() > 0 {
        let d = s.drop_last();
        lemma_embedded_members(d);
        let e = embedded(s);
        let ed = embedded(d);
        assert forall|i: int| 0 <= i < e.len() implies s.contains(#[trigger] e[i]) by {
            if i < ed.len() {
                assert(e[i] == ed[i]);
                let k = choose|k: int| 0 <= k < d.len() && d[k] == ed[i];
                assert(s[k] == e[i]);
            } else {
                assert(e[i] == s.last());
                assert(s[s.len() - 1] == e[i]);
            }
        }
        if distinct_ids(s) {
            assert(distinct_ids(d));
            assert forall|i: int, j: int| 0 <= i < j < e.len() implies e[i].id != e[j].id by {
                if j < ed.len() {
                    assert(e[i] == ed[i] && e[j] == ed[j]);
                } else {
                    assert(e[j] == s.last());
                    assert(e[i] == ed[i]);
                    let k = choose|k: int| 0 <= k < d.len() && d[k] == ed[i];
                    assert(s[k] == e[i]);
                }
            }
        }
    }
}

pub proof fn lemma_id_order_total(s: Seq<Claim>)
    requires
        distinct_ids(s),
    ensures
        crate::ordering::strict_total_on(s, id_before()),
{
    assert forall|i: int, j: int| 0 <= i < s.len() && 0 <= j < s.len() && i != j implies (
    id_before())(s[i], s[j]) || (id_before())(s[j], s[i]) by {
        crate::ordering::lemma_hash_order(s[i].id, s[j].id, s[j].id);
    }
    assert forall|i: int| 0 <= i < s.len() implies !(id_before())(#[trigger] s[i], s[i]) by {
        crate::ordering::lemma_hash_order(s[i].id, s[i].id, s[i].id);
    }
    assert forall|x: Claim, y: Claim, z: Claim|
        #[trigger] (id_before())(x, y) && #[trigger] (id_before())(y, z) && s.contains(x)
            && s.contains(y) && s.contains(z) implies (id_before())(x, z) by {
        crate::ordering::lemma_hash_order(x.id, y.id, z.id);
    }
}

/// Claims with distinct ids sorted by id have strictly increasing ids.
pub proof fn lemma_sorted_ids(s: Seq<Claim>)
    requires
        distinct_ids(s),
    ensures
        distinct_ids(sort_stable(s, id_before())),
        crate::ordering::increasing(sort_stable(s, id_before()), id_before()),
{
    lemma_id_order_total(s);
    crate::ordering::lemma_sort_increasing(s, id_before());
    let r = sort_stable(s, id_before());
    assert forall|i: int, j: int| 0 <= i < j < r.len() implies r[i].id != r[j].id by {
        assert((id_before())(r[i], r[j]));
        crate::ordering::lemma_hash_order(r[i].id, r[j].id, r[j].id);
    }
}

/// Edge generation does not depend on the order of the claims: two
/// arrangements of the same claims (with distinct ids) give the same edges.
pub proof fn law_edges_order_independent(cfg: AutoEdgeConfig, c1: Seq<Claim>, c2: Seq<Claim>)
    requires
        c1.to_multiset() == c2.to_multiset(),
        distinct_ids(c1),
        distinct_ids(c2),
    ensures
        generated_edges(cfg, c1) == generated_edges(cfg, c2),
{
    let e1 = embedded(c1);
    let e2 = embedded(c2);
    assert(e1.to_multiset() =~= e2.to_multiset()) by {
        assert forall|x: Claim| e1.to_multiset().count(x) == e2.to_multiset().count(x) by {
            lemma_embedded_count(c1, x);
            lemma_embedded_count(c2, x);
        }
    }
    lemma_embedded_members(c1);
    lemma_embedded_members(c2);
    lemma_id_order_total(e1);
    lemma_id_order_total(e2);
    crate::ordering::lemma_sort_unique(e1, e2, id_before());
}

/// With distinct claim ids, edge generation never lets a claim take part in
/// more than `max_k_nearest` edges.
pub proof fn law_edges_respect_cap(cfg: AutoEdgeConfig, claims: Seq<Claim>, id: [u8; 32])
    requires
        distinct_ids(claims),
    ensures
        endpoint_count(generated_edges(cfg, claims), id) <= cfg.max_k_nearest,
{
    let e = embedded(claims);
    lemma_embedded_members(claims);
    lemma_sorted_ids(e);
    let cs = sort_stable(e, id_before());
    lemma_all_edges_cap(cfg, cs, cs.len());
}

proof fn lemma_pair_step_cap(
    cfg: AutoEdgeConfig,
    cs: Seq<Claim>,
    acc: Seq<RawEpistemicEdge>,
    i: int,
    j: int,
)
    requires
        distinct_ids(cs),
        0 <= i < j < cs.len(),
        forall|x: [u8; 32]| endpoint_count(acc, x) <= cfg.max_k_nearest,
    ensures
        forall|x: [u8; 32]| endpoint_count(pair_step(cfg, cs, acc, i, j), x) <= cfg.max_k_nearest,
{
    let r = pair_step(cfg, cs, acc, i, j);
    let c1 = cs[i];
    let c2 = cs[j];
    if c1.embedding_version == c2.embedding_version && !(endpoint_count(acc, c1.id)
        >= cfg.max_k_nearest || endpoint_count(acc, c2.id) >= cfg.max_k_nearest) {
        let d = hamming(c1.embedding.unwrap(), c2.embedding.unwrap());
        match relation_for(cfg, d) {
            Some(rel) => {
                let e = edge_for(cfg, c1, c2, rel, d);
                assert(r == acc.push(e));
                assert(r.drop_last() =~= acc);
                assert(c1.id != c2.id);
                assert forall|x: [u8; 32]| endpoint_count(r, x) <= cfg.max_k_nearest by {
                    assert(endpoint_count(r, x) == endpoint_count(acc, x) + (if e.from_hash == x {
                        1nat
                    } else {
                        0nat
                    }) + (if e.to_hash == x {
                        1nat
                    } else {
                        0nat
                    }));
                }
            },
            None => {},
        }
    }
}

proof fn lemma_row_cap(
    cfg: AutoEdgeConfig,
    cs: Seq<Claim>,
    acc: Seq<RawEpistemicEdge>,
    i: int,
    j: int,
)
    requires
        distinct_ids(cs),
        0 <= i < cs.len(),
        j <= cs.len(),
        forall|x: [u8; 32]| endpoint_count(acc, x) <= cfg.max_k_nearest,
    ensures
        forall|x: [u8; 32]| endpoint_count(row_edges(cfg, cs, acc, i, j), x) <= cfg.max_k_nearest,
    decreases j - i,
{
    if j > i + 1 {
        lemma_row_cap(cfg, cs, acc, i, j - 1);
        lemma_pair_step_cap(cfg, cs, row_edges(cfg, cs, acc, i, j - 1), i, j - 1);
    }
}

proof fn lemma_all_edges_cap(cfg: AutoEdgeConfig, cs: Seq<Claim>, n: nat)
    requires
        distinct_ids(cs),
        n <= cs.len(),
    ensures
        forall|x: [u8; 32]| endpoint_count(all_edges(cfg, cs, n), x) <= cfg.max_k_nearest,
    decreases n,
{
    if n > 0 {
        lemma_all_edges_cap(cfg, cs, (n - 1) as nat);
        lemma_row_cap(cfg, cs, all_edges(cfg, cs, (n - 1) as nat), n - 1, cs.len() as int);
    }
}


/// The edge `e` joins `c1` to `c2`: their embeddings have one version, their
/// distance calls for `e`'s relation, and `e` is the edge for the pair.
pub open spec fn edge_between(cfg: AutoEdgeConfig, c1: Claim, c2: Claim, e: RawEpistemicEdge) -> bool {
    let d = hamming(c1.embedding.unwrap(), c2.embedding.unwrap());
    &&& c1.embedding_version == c2.embedding_version
    &&& relation_for(cfg, d) == Some(e.relation)
    &&& e == edge_for(cfg, c1, c2, e.relation, d)
}

/// The edge joins a pair `(cs[i], cs[j])` with `i < j`.
pub open spec fn from_pair(cfg: AutoEdgeConfig, cs: Seq<Claim>, e: RawEpistemicEdge) -> bool {
    exists|i: int, j: int| 0 <= i < j < cs.len() && #[trigger] edge_between(cfg, cs[i], cs[j], e)
}

/// Every edge of `acc` joins a pair `(cs[i], cs[j])` with `i < j`.
pub open spec fn edges_from_pairs(cfg: AutoEdgeConfig, cs: Seq<Claim>, acc: Seq<RawEpistemicEdge>) -> bool {
    forall|k: int| 0 <= k < acc.len() ==> #[trigger] from_pair(cfg, cs, acc[k])
}

proof fn lemma_row_pairs(cfg: AutoEdgeConfig, cs: Seq<Claim>, acc: Seq<RawEpistemicEdge>, i: int, j: int)
    requires
        0 <= i < cs.len(),
        j <= cs.len(),
        edges_from_pairs(cfg, cs, acc),
    ensures
        edges_from_pairs(cfg, cs, row_edges(cfg, cs, acc, i, j)),
    decreases j - i,
{
    if j > i + 1 {
        lemma_row_pairs(cfg, cs, acc, i, j - 1);
        let prev = row_edges(cfg, cs, acc, i, j - 1);
        let r = pair_step(cfg, cs, prev, i, j - 1);
        assert forall|k: int| 0 <= k < r.len() implies #[trigger] from_pair(cfg, cs, r[k]) by {
            if k < prev.len() {
                assert(r[k] == prev[k]);
                assert(from_pair(cfg, cs, prev[k]));
            } else {
                assert(edge_between(cfg, cs[i], cs[j - 1], r[k]));
            }
        }
    }
}

proof fn lemma_all_pairs(cfg: AutoEdgeConfig, cs: Seq<Claim>, n: nat)
    requires
        n <= cs.len(),
    ensures
        edges_from_pairs(cfg, cs, all_edges(cfg, cs, n)),
    decreases n,
{
    if n > 0 {
        lemma_all_pairs(cfg, cs, (n - 1) as nat);
        lemma_row_pairs(cfg, cs, all_edges(cfg, cs, (n - 1) as nat), n - 1, cs.len() as int);
    }
}

/// Edge strengths lie in `1000..=10000`.
pub proof fn lemma_strength_range(cfg: AutoEdgeConfig, rel: Relation, distance: int)
    requires
        distance >= 0,
    ensures
        1000 <= strength_for(cfg, rel, distance) <= 10000,
{
    let t = if cfg.support_threshold_bits >= 1 { cfg.support_threshold_bits as int } else { 1 };
    assert(distance * 9000 / t >= 0) by (nonlinear_arith)
        requires
            distance >= 0,
            t >= 1,
    ;
    let ct = cfg.contradict_threshold_bits as int;
    let range = if 256 - ct >= 1 { 256 - ct } else { 1 };
    let above = if distance >= ct { distance - ct } else { 0 };
    assert(above * 9000 / range >= 0) by (nonlinear_arith)
        requires
            above >= 0,
            range >= 1,
    ;
}

/// Every generated edge joins two of the given claims that carry
/// embeddings of one version, from the one with the smaller id to the one
/// with the larger: a Supports edge when their Hamming distance is within
/// the support threshold, else a Contradicts edge when it reaches the
/// contradiction threshold, with the strength `strength_for` gives, which
/// lies in `1000..=10000`.
pub proof fn law_generated_edge_shape(cfg: AutoEdgeConfig, claims: Seq<Claim>, k: int)
    requires
        distinct_ids(claims),
        0 <= k < generated_edges(cfg, claims).len(),
    ensures
        exists|c1: Claim, c2: Claim|
            #![trigger edge_between(cfg, c1, c2, generated_edges(cfg, claims)[k])]
            {
                let e = generated_edges(cfg, claims)[k];
                let d = hamming(c1.embedding.unwrap(), c2.embedding.unwrap());
                &&& claims.contains(c1)
                &&& claims.contains(c2)
                &&& c1.embedding is Some
                &&& c2.embedding is Some
                &&& hash_lt(c1.id, c2.id)
                &&& edge_between(cfg, c1, c2, e)
                &&& e.from_hash == c1.id && e.to_hash == c2.id
                &&& (e.relation is Supports && d <= cfg.support_threshold_bits || e.relation is Contradicts
                    && cfg.support_threshold_bits < d && d >= cfg.contradict_threshold_bits)
                &&& 1000 <= strength_for(cfg, e.relation, d as int) <= 10000
            },
{
    broadcast use vstd::seq_lib::group_to_multiset_ensures;

    let e = embedded(claims);
    let cs = sort_stable(e, id_before());
    lemma_embedded_members(claims);
    lemma_sorted_ids(e);
    lemma_sorted_embedded_some(claims);
    lemma_sort_multiset(e, id_before());
    lemma_all_pairs(cfg, cs, cs.len());
    let g = generated_edges(cfg, claims);
    assert(from_pair(cfg, cs, g[k]));
    let (a, b) = choose|i: int, j: int| 0 <= i < j < cs.len() && #[trigger] edge_between(cfg, cs[i], cs[j], g[k]);
    let c1 = cs[a];
    let c2 = cs[b];
    let d = hamming(c1.embedding.unwrap(), c2.embedding.unwrap());
    assert(hash_lt(c1.id, c2.id));
    assert(cs.to_multiset().count(c1) > 0);
    assert(e.contains(c1));
    assert(cs.to_multiset().count(c2) > 0);
    assert(e.contains(c2));
    let p = choose|p: int| 0 <= p < e.len() && e[p] == c1;
    let q = choose|q: int| 0 <= q < e.len() && e[q] == c2;
    assert(claims.contains(e[p]));
    assert(claims.contains(e[q]));
    lemma_strength_range(cfg, g[k].relation, d as int);
    assert(edge_between(cfg, c1, c2, g[k]));
}

/// Contradiction strength grows linearly with the Hamming distance: 1000
/// at the contradiction threshold, `1000 + (d - threshold) * 9000 / (256 -
/// threshold)` (rounded down) between it and 256, and 10000 at distance 256;
/// a farther pair never gets a weaker edge.
pub proof fn law_contradiction_strength(cfg: AutoEdgeConfig, d1: int, d2: int)
    requires
        cfg.contradict_threshold_bits < 256,
    ensures
        ({
            let ct = cfg.contradict_threshold_bits as int;
            &&& strength_for(cfg, Relation::Contradicts, ct) == 1000
            &&& strength_for(cfg, Relation::Contradicts, 256) == 10000
            &&& (ct <= d1 <= 256 ==> strength_for(cfg, Relation::Contradicts, d1) == 1000 + (d1 - ct) * 9000 / (256
                - ct))
            &&& (ct <= d1 <= d2 ==> strength_for(cfg, Relation::Contradicts, d1) <= strength_for(
                cfg,
                Relation::Contradicts,
                d2,
            ))
        }),
{
    let ct = cfg.contradict_threshold_bits as int;
    let range = 256 - ct;
    assert(range >= 1);
    if ct <= d1 <= 256 {
        assert((d1 - ct) * 9000 / range <= 9000) by (nonlinear_arith)
            requires
                0 <= d1 - ct <= range,
                range >= 1,
        ;
    }
    assert(range * 9000 / range == 9000) by (nonlinear_arith)
        requires
            range >= 1,
    ;
    if ct <= d1 <= d2 {
        assert((d1 - ct) * 9000 / range <= (d2 - ct) * 9000 / range) by (nonlinear_arith)
            requires
                0 <= d1 - ct <= d2 - ct,
                range >= 1,
        ;
    }
}

/// Support strength falls linearly with the Hamming distance: 10000 at
/// distance 0, `10000 - d * 9000 / threshold` (rounded down) up to the
/// support threshold, where it reaches 1000; a closer pair never gets a
/// weaker edge.
pub proof fn law_support_strength(cfg: AutoEdgeConfig, d1: int, d2: int)
    requires
        cfg.support_threshold_bits >= 1,
    ensures
        ({
            let t = cfg.support_threshold_bits as int;
            &&& strength_for(cfg, Relation::Supports, 0) == 10000
            &&& strength_for(cfg, Relation::Supports, t) == 1000
            &&& (0 <= d1 <= t ==> strength_for(cfg, Relation::Supports, d1) == 10000 - d1 * 9000 / t)
            &&& (0 <= d1 <= d2 ==> strength_for(cfg, Relation::Supports, d2) <= strength_for(
                cfg,
                Relation::Supports,
                d1,
            ))
        }),
{
    let t = cfg.support_threshold_bits as int;
    assert(0int * 9000 / t == 0);
    assert(t * 9000 / t == 9000) by (nonlinear_arith)
        requires
            t >= 1,
    ;
    if 0 <= d1 <= t {
        assert(0 <= d1 * 9000 / t <= 9000) by (nonlinear_arith)
            requires
                0 <= d1 <= t,
                t >= 1,
        ;
    }
    if 0 <= d1 <= d2 {
        assert(0 <= d1 * 9000 / t <= d2 * 9000 / t) by (nonlinear_arith)
            requires
                0 <= d1 <= d2,
                t >= 1,
        ;
    }
}

} // verus!
