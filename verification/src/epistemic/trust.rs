//! Two-pass trust propagation over the knowledge graph, with temporal decay
//! and dynamic contradiction damping.
use vstd::prelude::*;
use vstd::arithmetic::div_mod::{lemma_fundamental_div_mod, lemma_fundamental_div_mod_converse, lemma_mod_bound};
use vstd::arithmetic::power2::{lemma_pow2_pos, lemma_pow2_unfold, pow2};
use std::collections::{HashMap, HashSet};
use crate::epistemic::claim::{is_support, relation_is_support, Claim, EpistemicEdge, Relation};
use crate::epistemic::cycles::{cyclic_edges, law_cycles_ignore_non_support, same_skeleton};
use crate::epistemic::graph::KnowledgeGraph;
use crate::epistemic::logodds::{clamp, clamp_i32, clamp_safe, LogOdds, Reputation};
use crate::epistemic::reputation::{InMemoryReputationTracker, ReputationTracker};
use crate::epistemic::trust_map::{
    amap, get0, lemma_amap_dom, lemma_amap_lookup, lo_view, tl_copy, tl_from_map, tl_get,
    tl_insert, tl_to_map, uniq, vals_i32,
};

verus! {

/// The largest graph (in edges) on which trust propagation runs, 2^32
/// edges (tens of gigabytes): it keeps the per-claim sums of positive trust
/// and of penalties, each at most `i32::MAX` per edge, within `i64`.
pub const MAX_PROPAGATION_EDGES: u64 = 4_294_967_296;

/// `v` halved `k` times, rounding down (an arithmetic right shift by `k`).
pub open spec fn halve(v: int, k: nat) -> int
    decreases k,
{
    if k == 0 {
        v
    } else {
        halve(v, (k - 1) as nat) / 2
    }
}

/// Number of elapsed half-lives of the claim at arena index `k`.
pub open spec fn decay_steps(claims: Seq<Claim>, k: u32, tick: u64, half_life: u64) -> int {
    if half_life > 0 && tick > 0 && (k as int) < claims.len() {
        let age = if tick >= claims[k as int].tick {
            tick - claims[k as int].tick
        } else {
            0
        };
        age / (half_life as int)
    } else {
        0
    }
}

/// A claim's trust after temporal decay.
pub open spec fn decay_value(claims: Seq<Claim>, tick: u64, half_life: u64, k: u32, v: int) -> int {
    let s = decay_steps(claims, k, tick, half_life);
    halve(v, (if s > 30 { 30 } else { s }) as nat)
}

proof fn lemma_halve_toward_zero(v: int, k: nat)
    ensures
        v >= 0 ==> 0 <= halve(v, k) <= v,
        v < 0 ==> v <= halve(v, k) < 0,
    decreases k,
{
    if k > 0 {
        lemma_halve_toward_zero(v, (k - 1) as nat);
    }
}

/// Temporal decay never raises positive trust nor lowers negative trust:
/// a decayed value keeps its sign and lies between zero and the value.
pub proof fn law_decay_moves_toward_zero(
    claims: Seq<Claim>,
    tick: u64,
    half_life: u64,
    k: u32,
    v: int,
)
    ensures
        v >= 0 ==> 0 <= decay_value(claims, tick, half_life, k, v) <= v,
        v < 0 ==> v <= decay_value(claims, tick, half_life, k, v) < 0,
        decay_steps(claims, k, tick, half_life) == 0 ==> decay_value(claims, tick, half_life, k, v)
            == v,
{
    let s = decay_steps(claims, k, tick, half_life);
    lemma_halve_toward_zero(v, (if s > 30 { 30 } else { s }) as nat);
}

/// Halving `k` times, rounding down, is dividing by `2^k`, rounding down.
proof fn lemma_halve_pow2(v: int, k: nat)
    ensures
        halve(v, k) == v / (pow2(k) as int),
    decreases k,
{
    if k == 0 {
        vstd::arithmetic::power::lemma_pow0(2);
        assert(pow2(0) == 1);
    } else {
        lemma_halve_pow2(v, (k - 1) as nat);
        lemma_pow2_pos((k - 1) as nat);
        lemma_pow2_unfold(k);
        let c = pow2((k - 1) as nat) as int;
        let q1 = v / c;
        let r1 = v % c;
        lemma_fundamental_div_mod(v, c);
        lemma_mod_bound(v, c);
        let q = q1 / 2;
        let r2 = q1 % 2;
        lemma_fundamental_div_mod(q1, 2);
        lemma_mod_bound(q1, 2);
        assert(v == q * (2 * c) + (c * r2 + r1)) by (nonlinear_arith)
            requires
                v == c * q1 + r1,
                q1 == 2 * q + r2,
        ;
        assert(0 <= c * r2 + r1 < 2 * c) by (nonlinear_arith)
            requires
                0 <= r2 < 2,
                0 <= r1 < c,
        ;
        lemma_fundamental_div_mod_converse(v, 2 * c, q, c * r2 + r1);
        assert(pow2(k) as int == 2 * c);
    }
}

/// Temporal decay halves a claim's base trust once per whole half-life it
/// has aged, at most 30 times, rounding down (an arithmetic right shift):
/// a claim at arena index `k` aged `age = tick - claim.tick` ticks (zero
/// for a claim from the future) keeps `base / 2^min(age / half_life, 30)`.
/// Without a half-life, without a current tick, or for a key with no claim,
/// the base trust is kept.
pub proof fn law_decay_halves_per_half_life(
    base: Map<u32, int>,
    claims: Seq<Claim>,
    tick: u64,
    half_life: u64,
    k: u32,
)
    requires
        base.contains_key(k),
    ensures
        decayed(base, claims, tick, half_life).contains_key(k),
        (half_life == 0 || tick == 0 || (k as int) >= claims.len()) ==> decayed(
            base,
            claims,
            tick,
            half_life,
        )[k] == base[k],
        (half_life > 0 && tick > 0 && (k as int) < claims.len()) ==> ({
            let age: int = if tick >= claims[k as int].tick {
                tick - claims[k as int].tick
            } else {
                0
            };
            let elapsed: int = age / (half_life as int);
            let halvings: int = if elapsed > 30 { 30 } else { elapsed };
            decayed(base, claims, tick, half_life)[k] == base[k] / (pow2(halvings as nat) as int)
        }),
{
    let s = decay_steps(claims, k, tick, half_life);
    lemma_halve_pow2(base[k], (if s > 30 { 30 } else { s }) as nat);
    if half_life > 0 && tick > 0 && (k as int) < claims.len() {
        let age: int = if tick >= claims[k as int].tick {
            tick - claims[k as int].tick
        } else {
            0
        };
        assert(age >= 0);
        assert((age / (half_life as int)) >= 0) by (nonlinear_arith)
            requires
                age >= 0,
                half_life > 0,
        ;
    } else {
        vstd::arithmetic::power::lemma_pow0(2);
    }
}

/// One more elapsed half-life halves decayed trust once more (below the
/// cap of 30 halvings), rounding down.
pub proof fn law_decay_one_more_half_life(
    base: Map<u32, int>,
    claims: Seq<Claim>,
    tick: u64,
    half_life: u64,
    k: u32,
)
    requires
        base.contains_key(k),
        half_life > 0,
        tick > 0,
        (k as int) < claims.len(),
        claims[k as int].tick <= tick,
        tick + half_life <= u64::MAX,
        (tick - claims[k as int].tick) / (half_life as int) < 30,
    ensures
        decayed(base, claims, (tick + half_life) as u64, half_life)[k] == decayed(base, claims, tick, half_life)[k]
            / 2,
{
    let t2 = (tick + half_life) as u64;
    let age = tick - claims[k as int].tick;
    let n = age / (half_life as int);
    assert(age >= 0);
    assert(n >= 0) by (nonlinear_arith)
        requires
            age >= 0,
            half_life > 0,
            n == age / (half_life as int),
    ;
    assert((age + half_life) / (half_life as int) == n + 1) by (nonlinear_arith)
        requires
            half_life > 0,
            n == age / (half_life as int),
    ;
    law_decay_halves_per_half_life(base, claims, tick, half_life, k);
    law_decay_halves_per_half_life(base, claims, t2, half_life, k);
    assert(t2 - claims[k as int].tick == age + half_life);
    lemma_halve_pow2(base[k], n as nat);
    lemma_halve_pow2(base[k], (n + 1) as nat);
    assert(halve(base[k], (n + 1) as nat) == halve(base[k], n as nat) / 2);
}

/// Base trust after temporal decay: halved once per elapsed half-life, at
/// most 30 times.
pub open spec fn decayed(base: Map<u32, int>, claims: Seq<Claim>, tick: u64, half_life: u64) -> Map<
    u32,
    int,
> {
    Map::new(
        |k: u32| base.contains_key(k),
        |k: u32| decay_value(claims, tick, half_life, k, base[k]),
    )
}

/// Reputation (basis points) of the author of the claim at arena index
/// `from`; zero when there is no such claim.
pub open spec fn author_rep(claims: Seq<Claim>, rep: spec_fn([u8; 32]) -> Reputation, from: u32) -> int {
    if (from as int) < claims.len() {
        rep(claims[from as int].origin)@ as int
    } else {
        0
    }
}

/// Author weights by arena index: the reputation of each claim's author.
pub open spec fn reputation_weight(claims: Seq<Claim>, rep: spec_fn([u8; 32]) -> Reputation) -> spec_fn(
    u32,
) -> int {
    |from: u32| author_rep(claims, rep, from)
}

/// Author weights read from base trust: a claim's own base trust as basis
/// points, clamped to `0..=10000` (zero for a claim without base trust).
pub open spec fn base_weight(base: Map<u32, int>) -> spec_fn(u32) -> int {
    |from: u32| clamp(get0(base, from), 0, 10000)
}

/// Every author weight lies in `0..=10000`.
pub open spec fn weights_ok(aw: spec_fn(u32) -> int) -> bool {
    forall|f: u32| 0 <= #[trigger] aw(f) <= 10000
}

/// Edge `i` carries positive trust: a Supports or DerivedFrom edge that
/// does not close a cycle.
pub open spec fn flows(edges: Seq<EpistemicEdge>, cyc: Set<usize>, i: int) -> bool {
    is_support(edges[i].relation) && !cyc.contains(i as usize)
}

/// Total strength of the trust-carrying edges leaving `from` among the first `n`.
pub open spec fn total_out(edges: Seq<EpistemicEdge>, cyc: Set<usize>, from: u32, n: int) -> int
    decreases n,
{
    if n <= 0 {
        0
    } else {
        total_out(edges, cyc, from, n - 1) + (if edges[n - 1].from == from && flows(
            edges,
            cyc,
            n - 1,
        ) {
            edges[n - 1].strength@ as int
        } else {
            0
        })
    }
}

/// Trust that edge `i` carries: the source's positive trust, times the
/// edge's share of the source's outgoing strength, times the author's
/// reputation, in basis points, each division rounding down.
pub open spec fn contribution(
    t: Map<u32, int>,
    edges: Seq<EpistemicEdge>,
    cyc: Set<usize>,
    aw: spec_fn(u32) -> int,
    i: int,
) -> int {
    let e = edges[i];
    let ft = if get0(t, e.from) > 0 {
        get0(t, e.from)
    } else {
        0
    };
    let tot0 = total_out(edges, cyc, e.from, edges.len() as int);
    let tot = if tot0 > 1 {
        tot0
    } else {
        1
    };
    let share = (e.strength@ as int * 10000) / tot;
    (ft * share) / 10000 * aw(e.from) / 10000
}

/// One round of positive propagation over the first `n` edges, starting
/// again from the decayed base trust `d0`: each trust-carrying edge adds its
/// contribution to its target (whose value defaults to its base trust).
pub open spec fn pass1_edges(
    t: Map<u32, int>,
    d0: Map<u32, int>,
    base: Map<u32, int>,
    edges: Seq<EpistemicEdge>,
    cyc: Set<usize>,
    aw: spec_fn(u32) -> int,
    n: int,
) -> Map<u32, int>
    decreases n,
{
    if n <= 0 {
        d0
    } else {
        let acc = pass1_edges(t, d0, base, edges, cyc, aw, n - 1);
        if !flows(edges, cyc, n - 1) {
            acc
        } else {
            let to = edges[n - 1].to;
            let cur = if acc.contains_key(to) {
                acc[to]
            } else {
                get0(base, to)
            };
            let bonus = clamp_i32(contribution(t, edges, cyc, aw, n - 1));
            acc.insert(to, clamp_safe(cur + bonus))
        }
    }
}

/// Some value of `nt` differs from the value in `t` (zero when absent).
pub open spec fn changed(t: Map<u32, int>, nt: Map<u32, int>) -> bool {
    exists|k: u32| nt.contains_key(k) && get0(t, k) != nt[k]
}

/// Positive propagation for up to `it` rounds, stopping after the first
/// round that changes nothing.
pub open spec fn pass1(
    t: Map<u32, int>,
    d0: Map<u32, int>,
    base: Map<u32, int>,
    edges: Seq<EpistemicEdge>,
    cyc: Set<usize>,
    aw: spec_fn(u32) -> int,
    it: nat,
) -> Map<u32, int>
    decreases it,
{
    if it == 0 {
        t
    } else {
        let nt = pass1_edges(t, d0, base, edges, cyc, aw, edges.len() as int);
        if !changed(t, nt) {
            nt
        } else {
            pass1(nt, d0, base, edges, cyc, aw, (it - 1) as nat)
        }
    }
}

/// Positive trust of the sources of the first `n` edges pointing to `to`
/// with a relation that `sel` selects.
pub open spec fn weighted_in(
    s: Map<u32, int>,
    edges: Seq<EpistemicEdge>,
    to: u32,
    contradicting: bool,
    n: int,
) -> int
    decreases n,
{
    if n <= 0 {
        0
    } else {
        let e = edges[n - 1];
        let sel = if contradicting {
            e.relation is Contradicts
        } else {
            is_support(e.relation)
        };
        weighted_in(s, edges, to, contradicting, n - 1) + (if e.to == to && sel {
            if get0(s, e.from) > 0 {
                get0(s, e.from)
            } else {
                0
            }
        } else {
            0
        })
    }
}

/// The penalty that Contradicts edge `i` asks of its target: the source's
/// positive trust weighted by edge strength and author reputation, capped
/// at `alpha` of the target's positive trust, where `alpha` is the
/// trust-weighted share of contradiction among the target's incoming edges,
/// itself capped at `damping`.
pub open spec fn edge_penalty(
    s: Map<u32, int>,
    edges: Seq<EpistemicEdge>,
    aw: spec_fn(u32) -> int,
    damping: u16,
    i: int,
) -> int {
    let e = edges[i];
    let ft = if get0(s, e.from) > 0 {
        get0(s, e.from)
    } else {
        0
    };
    let eff = (e.strength@ as int * aw(e.from)) / 10000;
    let raw = (ft * eff) / 10000;
    let ws = weighted_in(s, edges, e.to, false, edges.len() as int);
    let wc = weighted_in(s, edges, e.to, true, edges.len() as int);
    let ratio = (wc * 10000) / (ws + wc + 1);
    let alpha = if ratio < damping {
        ratio
    } else {
        damping as int
    };
    let tt = get0(s, e.to);
    let max_penalty = if tt > 0 {
        (tt * alpha) / 10000
    } else {
        raw
    };
    if raw < max_penalty {
        raw
    } else {
        max_penalty
    }
}

/// Accumulated penalties per target over the first `n` edges.
pub open spec fn penalties(
    s: Map<u32, int>,
    edges: Seq<EpistemicEdge>,
    aw: spec_fn(u32) -> int,
    damping: u16,
    n: int,
) -> Map<u32, int>
    decreases n,
{
    if n <= 0 {
        Map::empty()
    } else {
        let acc = penalties(s, edges, aw, damping, n - 1);
        if edges[n - 1].relation is Contradicts {
            let to = edges[n - 1].to;
            acc.insert(to, get0(acc, to) + edge_penalty(s, edges, aw, damping, n - 1))
        } else {
            acc
        }
    }
}

/// A claim's trust after its accumulated penalty, capped globally at
/// `damping` of its positive trust.
pub open spec fn penalized(s: Map<u32, int>, pen: Map<u32, int>, damping: u16, k: u32) -> int {
    let ts = get0(s, k);
    let global_max = if ts > 0 {
        (ts * damping) / 10000
    } else {
        pen[k]
    };
    let capped = if pen[k] < global_max {
        pen[k]
    } else {
        global_max
    };
    clamp_i32(ts - clamp(capped, 0, i32::MAX as int))
}

/// The contradiction pass, all penalties computed from the frozen snapshot `s`.
pub open spec fn pass2(
    s: Map<u32, int>,
    edges: Seq<EpistemicEdge>,
    aw: spec_fn(u32) -> int,
    damping: u16,
) -> Map<u32, int> {
    let pen = penalties(s, edges, aw, damping, edges.len() as int);
    Map::new(
        |k: u32| s.contains_key(k) || pen.contains_key(k),
        |k: u32|
            if pen.contains_key(k) {
                penalized(s, pen, damping, k)
            } else {
                s[k]
            },
    )
}


/// `v` halved `k` times, rounding down.
fn halve_exec(v: i64, k: u32) -> (r: i64)
    requires
        i32::MIN <= v <= i32::MAX,
    ensures
        r == halve(v as int, k as nat),
        i32::MIN <= r <= i32::MAX,
{
    let mut r = v;
    let mut j: u32 = 0;
    while j < k
        invariant
            j <= k,
            r == halve(v as int, j as nat),
            i32::MIN <= r <= i32::MAX,
        decreases k - j,
    {
        r = if r >= 0 {
            r / 2
        } else {
            (r - 1) / 2
        };
        j = j + 1;
    }
    r
}

/// A list with the same keys whose values are `f` of key and value has
/// the mapped map as its view.
proof fn lemma_amap_mapped(s: Seq<(u32, i64)>, t: Seq<(u32, i64)>, f: spec_fn(u32, int) -> int)
    requires
        uniq(s),
        t.len() == s.len(),
        forall|j: int| 0 <= j < s.len() ==> (#[trigger] t[j]).0 == s[j].0 && t[j].1 == f(s[j].0, s[j].1 as int),
    ensures
        uniq(t),
        amap(t) == Map::new(|k: u32| amap(s).contains_key(k), |k: u32| f(k, amap(s)[k])),
{
    let m = Map::new(|k: u32| amap(s).contains_key(k), |k: u32| f(k, amap(s)[k]));
    assert forall|a: int, b: int| 0 <= a < b < t.len() implies t[a].0 != t[b].0 by {
        assert(t[a].0 == s[a].0 && t[b].0 == s[b].0);
    }
    assert forall|k: u32| #[trigger] amap(t).contains_key(k) == m.contains_key(k) by {
        if amap(t).contains_key(k) {
            lemma_amap_dom(t, k);
            let j = choose|j: int| 0 <= j < t.len() && t[j].0 == k;
            assert(t[j].0 == s[j].0);
            lemma_amap_lookup(s, j);
        }
        if amap(s).contains_key(k) {
            lemma_amap_dom(s, k);
            let j = choose|j: int| 0 <= j < s.len() && s[j].0 == k;
            assert(t[j].0 == s[j].0);
            lemma_amap_lookup(t, j);
        }
    }
    assert forall|k: u32| #[trigger] amap(t).contains_key(k) implies amap(t)[k] == m[k] by {
        lemma_amap_dom(t, k);
        let j = choose|j: int| 0 <= j < t.len() && t[j].0 == k;
        assert(t[j].0 == s[j].0);
        lemma_amap_lookup(t, j);
        lemma_amap_lookup(s, j);
    }
    assert(amap(t) =~= m);
}

/// The base trust after temporal decay.
fn decay_list(base: &Vec<(u32, i64)>, claims: &[Claim], tick: u64, half_life: u64) -> (r: Vec<(u32, i64)>)
    requires
        uniq(base@),
        vals_i32(base@),
    ensures
        uniq(r@),
        vals_i32(r@),
        amap(r@) == decayed(amap(base@), claims@, tick, half_life),
{
    let ghost f = |k: u32, v: int| decay_value(claims@, tick, half_life, k, v);
    let mut r: Vec<(u32, i64)> = Vec::new();
    let mut j: usize = 0;
    while j < base.len()
        invariant
            j <= base@.len(),
            uniq(base@),
            vals_i32(base@),
            r@.len() == j,
            forall|i: int| 0 <= i < j ==> (#[trigger] r@[i]).0 == base@[i].0 && r@[i].1 == decay_value(
                claims@,
                tick,
                half_life,
                base@[i].0,
                base@[i].1 as int,
            ),
            vals_i32(r@),
        decreases base@.len() - j,
    {
        let (k, v) = base[j];
        let mut steps: u64 = 0;
        if half_life > 0 && tick > 0 && (k as usize) < claims.len() {
            let age = tick.saturating_sub(claims[k as usize].tick);
            steps = age / half_life;
        }
        let shifts: u32 = if steps > 30 {
            30
        } else {
            steps as u32
        };
        let nv = halve_exec(v, shifts);
        r.push((k, nv));
        j = j + 1;
    }
    proof {
        lemma_amap_mapped(base@, r@, f);
        assert(Map::new(|k: u32| amap(base@).contains_key(k), |k: u32| f(k, amap(base@)[k]))
            =~= decayed(amap(base@), claims@, tick, half_life));
    }
    r
}

/// Positive-trust value of a list entry (zero when absent or negative).
fn positive_at(s: &Vec<(u32, i64)>, k: u32) -> (r: i64)
    requires
        uniq(s@),
        vals_i32(s@),
    ensures
        r == (if get0(amap(s@), k) > 0 {
            get0(amap(s@), k)
        } else {
            0
        }),
        0 <= r <= i32::MAX,
{
    let v = match tl_get(s, k) {
        Some(v) => v,
        None => 0,
    };
    if v > 0 {
        v
    } else {
        0
    }
}

impl KnowledgeGraph {
    /// Per edge: whether it closes a cycle, and the total strength leaving
    /// its source (at least 1).
    fn edge_facts(&self, cyc: &HashSet<usize>) -> (r: (Vec<bool>, Vec<i64>))
        requires
            self@.len() <= MAX_PROPAGATION_EDGES,
        ensures
            r.0@.len() == self@.len(),
            r.1@.len() == self@.len(),
            forall|i: int| 0 <= i < self@.len() ==> #[trigger] r.0@[i] == cyc@.contains(i as usize),
            forall|i: int|
                0 <= i < self@.len() ==> #[trigger] r.1@[i] == (if total_out(
                    self@,
                    cyc@,
                    self@[i].from,
                    self@.len() as int,
                ) > 1 {
                    total_out(self@, cyc@, self@[i].from, self@.len() as int)
                } else {
                    1
                }),
            forall|i: int| 0 <= i < self@.len() ==> 1 <= #[trigger] r.1@[i],
    {
        broadcast use vstd::std_specs::hash::group_hash_axioms;

        let edges = self.edges();
        let n = edges.len();
        let mut flags: Vec<bool> = Vec::new();
        let mut i: usize = 0;
        while i < n
            invariant
                n == edges@.len(),
                edges@ == self@,
                i <= n,
                flags@.len() == i,
                forall|j: int| 0 <= j < i ==> #[trigger] flags@[j] == cyc@.contains(j as usize),
            decreases n - i,
        {
            flags.push(cyc.contains(&i));
            i = i + 1;
        }
        let mut tots: Vec<i64> = Vec::new();
        i = 0;
        while i < n
            invariant
                n == edges@.len(),
                edges@ == self@,
                n <= MAX_PROPAGATION_EDGES,
                i <= n,
                flags@.len() == n,
                forall|j: int| 0 <= j < n ==> #[trigger] flags@[j] == cyc@.contains(j as usize),
                tots@.len() == i,
                forall|j: int|
                    0 <= j < i ==> #[trigger] tots@[j] == (if total_out(
                        self@,
                        cyc@,
                        self@[j].from,
                        n as int,
                    ) > 1 {
                        total_out(self@, cyc@, self@[j].from, n as int)
                    } else {
                        1
                    }),
                forall|j: int| 0 <= j < i ==> 1 <= #[trigger] tots@[j],
            decreases n - i,
        {
            let from = edges[i].from;
            let mut total: i64 = 0;
            let mut j: usize = 0;
            while j < n
                invariant
                    n == edges@.len(),
                    edges@ == self@,
                    n <= MAX_PROPAGATION_EDGES,
                    j <= n,
                    i < n,
                    from == self@[i as int].from,
                    flags@.len() == n,
                    forall|t: int| 0 <= t < n ==> #[trigger] flags@[t] == cyc@.contains(t as usize),
                    total == total_out(self@, cyc@, from, j as int),
                    0 <= total <= 10000 * j,
                decreases n - j,
            {
                let e = edges[j];
                if e.from == from && relation_is_support(e.relation) && !flags[j] {
                    total = total + e.strength.bps() as i64;
                }
                j = j + 1;
            }
            tots.push(if total > 1 {
                total
            } else {
                1
            });
            i = i + 1;
        }
        (flags, tots)
    }

    /// Per edge: the reputation of the author of its source claim.
    fn reputation_weights<R: ReputationTracker>(&self, claims: &[Claim], reputations: &R) -> (r: Vec<i64>)
        ensures
            r@.len() == self@.len(),
            forall|i: int|
                0 <= i < self@.len() ==> #[trigger] r@[i] == author_rep(
                    claims@,
                    |o: [u8; 32]| reputations.reputation_of(o),
                    self@[i].from,
                ),
            forall|i: int| 0 <= i < self@.len() ==> 0 <= #[trigger] r@[i] <= 10000,
    {
        let edges = self.edges();
        let ghost rep = |o: [u8; 32]| reputations.reputation_of(o);
        let mut reps: Vec<i64> = Vec::new();
        let mut i: usize = 0;
        while i < edges.len()
            invariant
                edges@ == self@,
                i <= edges@.len(),
                rep == (|o: [u8; 32]| reputations.reputation_of(o)),
                reps@.len() == i,
                forall|j: int|
                    0 <= j < i ==> #[trigger] reps@[j] == author_rep(claims@, rep, self@[j].from),
                forall|j: int| 0 <= j < i ==> 0 <= #[trigger] reps@[j] <= 10000,
            decreases edges@.len() - i,
        {
            let from = edges[i].from;
            let ar: i64 = if (from as usize) < claims.len() {
                reputations.reputation(&claims[from as usize].origin).bps() as i64
            } else {
                0
            };
            reps.push(ar);
            i = i + 1;
        }
        reps
    }

    /// Per edge: the base trust of its source claim, read as basis points
    /// and clamped to `0..=10000`.
    fn base_weights(&self, base: &Vec<(u32, i64)>) -> (r: Vec<i64>)
        requires
            uniq(base@),
            vals_i32(base@),
        ensures
            r@.len() == self@.len(),
            forall|i: int|
                0 <= i < self@.len() ==> #[trigger] r@[i] == clamp(get0(amap(base@), self@[i].from), 0, 10000),
    {
        let edges = self.edges();
        let mut ws: Vec<i64> = Vec::new();
        let mut i: usize = 0;
        while i < edges.len()
            invariant
                edges@ == self@,
                i <= edges@.len(),
                uniq(base@),
                vals_i32(base@),
                ws@.len() == i,
                forall|j: int|
                    0 <= j < i ==> #[trigger] ws@[j] == clamp(get0(amap(base@), self@[j].from), 0, 10000),
            decreases edges@.len() - i,
        {
            let v: i64 = match tl_get(base, edges[i].from) {
                Some(b) => b,
                None => 0,
            };
            let w: i64 = if v < 0 {
                0
            } else if v > 10000 {
                10000
            } else {
                v
            };
            ws.push(w);
            i = i + 1;
        }
        ws
    }

    /// One round of positive propagation.
    fn pass1_round(
        &self,
        trust: &Vec<(u32, i64)>,
        d0: &Vec<(u32, i64)>,
        base: &Vec<(u32, i64)>,
        flags: &Vec<bool>,
        reps: &Vec<i64>,
        tots: &Vec<i64>,
        Ghost(cyc): Ghost<Set<usize>>,
        Ghost(aw): Ghost<spec_fn(u32) -> int>,
    ) -> (r: Vec<(u32, i64)>)
        requires
            uniq(trust@),
            vals_i32(trust@),
            uniq(d0@),
            vals_i32(d0@),
            uniq(base@),
            vals_i32(base@),
            flags@.len() == self@.len(),
            reps@.len() == self@.len(),
            tots@.len() == self@.len(),
            forall|i: int| 0 <= i < self@.len() ==> #[trigger] flags@[i] == cyc.contains(i as usize),
            forall|i: int|
                0 <= i < self@.len() ==> #[trigger] reps@[i] == aw(self@[i].from),
            forall|i: int|
                0 <= i < self@.len() ==> #[trigger] tots@[i] == (if total_out(
                    self@,
                    cyc,
                    self@[i].from,
                    self@.len() as int,
                ) > 1 {
                    total_out(self@, cyc, self@[i].from, self@.len() as int)
                } else {
                    1
                }),
            forall|i: int| 0 <= i < self@.len() ==> 0 <= #[trigger] reps@[i] <= 10000,
            forall|i: int| 0 <= i < self@.len() ==> 1 <= #[trigger] tots@[i],
        ensures
            uniq(r@),
            vals_i32(r@),
            amap(r@) == pass1_edges(
                amap(trust@),
                amap(d0@),
                amap(base@),
                self@,
                cyc,
                aw,
                self@.len() as int,
            ),
    {
        let edges = self.edges();
        let mut nt = tl_copy(d0);
        let mut i: usize = 0;
        while i < edges.len()
            invariant
                edges@ == self@,
                i <= edges@.len(),
                uniq(trust@),
                vals_i32(trust@),
                uniq(base@),
                vals_i32(base@),
                flags@.len() == self@.len(),
                reps@.len() == self@.len(),
                tots@.len() == self@.len(),
                forall|t: int| 0 <= t < self@.len() ==> #[trigger] flags@[t] == cyc.contains(t as usize),
                forall|t: int|
                    0 <= t < self@.len() ==> #[trigger] reps@[t] == aw(self@[t].from),
                forall|t: int|
                    0 <= t < self@.len() ==> #[trigger] tots@[t] == (if total_out(
                        self@,
                        cyc,
                        self@[t].from,
                        self@.len() as int,
                    ) > 1 {
                        total_out(self@, cyc, self@[t].from, self@.len() as int)
                    } else {
                        1
                    }),
                forall|t: int| 0 <= t < self@.len() ==> 0 <= #[trigger] reps@[t] <= 10000,
                forall|t: int| 0 <= t < self@.len() ==> 1 <= #[trigger] tots@[t],
                uniq(nt@),
                vals_i32(nt@),
                amap(nt@) == pass1_edges(
                    amap(trust@),
                    amap(d0@),
                    amap(base@),
                    self@,
                    cyc,
                    aw,
                    i as int,
                ),
            decreases edges@.len() - i,
        {
            let e = edges[i];
            if relation_is_support(e.relation) && !flags[i] {
                let ft = positive_at(trust, e.from);
                let strength = e.strength.bps() as i64;
                let tot = tots[i];
                let share = strength * 10000 / tot;
                assert(share <= 100_000_000) by (nonlinear_arith)
                    requires
                        share as int == (strength as int * 10000) / (tot as int),
                        0 <= strength <= 10000,
                        tot >= 1,
                ;
                assert(0 <= ft * share <= 0x8000_0000 * 100_000_000) by (nonlinear_arith)
                    requires
                        0 <= ft <= i32::MAX,
                        0 <= share <= 100_000_000,
                ;
                let q = ft * share / 10000;
                assert(0 <= q * reps[i as int] <= 0x8000_0000 * 100_000_000) by (nonlinear_arith)
                    requires
                        0 <= q <= 0x8000_0000 * 10_000,
                        0 <= reps[i as int] <= 10000,
                ;
                let contribution = q * reps[i] / 10000;
                let cur: i64 = match tl_get(&nt, e.to) {
                    Some(v) => v,
                    None => match tl_get(base, e.to) {
                        Some(b) => b,
                        None => 0,
                    },
                };
                let bonus: i64 = if contribution > i32::MAX as i64 {
                    i32::MAX as i64
                } else {
                    contribution
                };
                let sum = cur + bonus;
                let upd: i64 = if sum < -1_000_000_000 {
                    -1_000_000_000
                } else if sum > 1_000_000_000 {
                    1_000_000_000
                } else {
                    sum
                };
                tl_insert(&mut nt, e.to, upd);
            }
            i = i + 1;
        }
        nt
    }
}


/// Whether some entry of `nt` differs from `t`.
fn changed_exec(t: &Vec<(u32, i64)>, nt: &Vec<(u32, i64)>) -> (r: bool)
    requires
        uniq(t@),
        uniq(nt@),
    ensures
        r == changed(amap(t@), amap(nt@)),
{
    let mut j: usize = 0;
    while j < nt.len()
        invariant
            uniq(t@),
            uniq(nt@),
            j <= nt@.len(),
            forall|i: int| 0 <= i < j ==> get0(amap(t@), (#[trigger] nt@[i]).0) == nt@[i].1 as int,
        decreases nt@.len() - j,
    {
        let (k, v) = nt[j];
        let old_v: i64 = match tl_get(t, k) {
            Some(x) => x,
            None => 0,
        };
        if old_v != v {
            proof {
                lemma_amap_lookup(nt@, j as int);
            }
            return true;
        }
        j = j + 1;
    }
    proof {
        assert forall|k: u32| nt@.len() >= 0 && amap(nt@).contains_key(k) implies get0(amap(t@), k)
            == amap(nt@)[k] by {
            lemma_amap_dom(nt@, k);
            let i = choose|i: int| 0 <= i < nt@.len() && nt@[i].0 == k;
            lemma_amap_lookup(nt@, i);
            assert(get0(amap(t@), nt@[i].0) == nt@[i].1 as int);
        }
    }
    false
}

/// Sum of the positive trust of the sources of the edges into `to`, over
/// Contradicts edges or over support edges.
fn weighted_in_exec(s: &Vec<(u32, i64)>, edges: &[EpistemicEdge], to: u32, contradicting: bool) -> (r: i64)
    requires
        uniq(s@),
        vals_i32(s@),
        edges@.len() <= MAX_PROPAGATION_EDGES,
    ensures
        r == weighted_in(amap(s@), edges@, to, contradicting, edges@.len() as int),
        0 <= r <= i32::MAX * edges@.len(),
{
    let mut w: i64 = 0;
    let mut i: usize = 0;
    while i < edges.len()
        invariant
            uniq(s@),
            vals_i32(s@),
            edges@.len() <= MAX_PROPAGATION_EDGES,
            i <= edges@.len(),
            w == weighted_in(amap(s@), edges@, to, contradicting, i as int),
            0 <= w <= i32::MAX * i,
        decreases edges@.len() - i,
    {
        let e = edges[i];
        let sel = if contradicting {
            match e.relation {
                Relation::Contradicts => true,
                _ => false,
            }
        } else {
            relation_is_support(e.relation)
        };
        if e.to == to && sel {
            w = w + positive_at(s, e.from);
        }
        i = i + 1;
    }
    w
}

impl KnowledgeGraph {
    /// The penalty that Contradicts edge `i` asks of its target.
    fn edge_penalty_exec(
        &self,
        s: &Vec<(u32, i64)>,
        i: usize,
        author: i64,
        damping_bps: u16,
        Ghost(aw): Ghost<spec_fn(u32) -> int>,
    ) -> (r: i64)
        requires
            uniq(s@),
            vals_i32(s@),
            self@.len() <= MAX_PROPAGATION_EDGES,
            i < self@.len(),
            author == aw(self@[i as int].from),
            0 <= author <= 10000,
        ensures
            r == edge_penalty(amap(s@), self@, aw, damping_bps, i as int),
            0 <= r <= i32::MAX,
    {
        let edges = self.edges();
        let e = edges[i];
        let ft = positive_at(s, e.from);
        let strength = e.strength.bps() as i64;
        assert(0 <= strength * author <= 100_000_000) by (nonlinear_arith)
            requires
                0 <= strength <= 10000,
                0 <= author <= 10000,
        ;
        let eff = strength * author / 10000;
        assert(0 <= ft * eff <= i32::MAX * 10000) by (nonlinear_arith)
            requires
                0 <= ft <= i32::MAX,
                0 <= eff <= 10000,
        ;
        let raw = ft * eff / 10000;
        assert(raw <= ft) by (nonlinear_arith)
            requires
                raw as int == (ft as int * eff as int) / 10000,
                0 <= ft,
                0 <= eff <= 10000,
        ;
        let ws = weighted_in_exec(s, edges, e.to, false);
        let wc = weighted_in_exec(s, edges, e.to, true);
        assert(0 <= ws + wc + 1 <= 2 * i32::MAX * 4_294_967_296 + 1) by (nonlinear_arith)
            requires
                0 <= wc <= i32::MAX * edges@.len(),
                0 <= ws <= i32::MAX * edges@.len(),
                edges@.len() <= 4_294_967_296,
        ;
        let wide: i128 = (wc as i128) * 10000 / ((ws as i128) + (wc as i128) + 1);
        assert(wide <= 10000) by (nonlinear_arith)
            requires
                wide as int == (wc as int * 10000) / (ws as int + wc as int + 1),
                0 <= ws,
                0 <= wc,
        ;
        assert(wide >= 0) by (nonlinear_arith)
            requires
                wide as int == (wc as int * 10000) / (ws as int + wc as int + 1),
                0 <= ws,
                0 <= wc,
        ;
        let ratio = wide as i64;
        let alpha: i64 = if ratio < damping_bps as i64 {
            ratio
        } else {
            damping_bps as i64
        };
        let tt: i64 = match tl_get(s, e.to) {
            Some(v) => v,
            None => 0,
        };
        let max_penalty = if tt > 0 {
            assert(0 <= tt * alpha <= i32::MAX * 10000) by (nonlinear_arith)
                requires
                    0 < tt <= i32::MAX,
                    0 <= alpha <= 10000,
            ;
            let m = tt * alpha / 10000;
            assert(m <= tt) by (nonlinear_arith)
                requires
                    m as int == (tt as int * alpha as int) / 10000,
                    0 < tt,
                    0 <= alpha <= 10000,
            ;
            m
        } else {
            raw
        };
        if raw < max_penalty {
            raw
        } else {
            max_penalty
        }
    }

    /// Accumulated penalties of the contradiction pass, per target.
    fn pass2_penalties(
        &self,
        s: &Vec<(u32, i64)>,
        reps: &Vec<i64>,
        damping_bps: u16,
        Ghost(aw): Ghost<spec_fn(u32) -> int>,
    ) -> (r: Vec<(u32, i64)>)
        requires
            uniq(s@),
            vals_i32(s@),
            self@.len() <= MAX_PROPAGATION_EDGES,
            reps@.len() == self@.len(),
            forall|i: int|
                0 <= i < self@.len() ==> #[trigger] reps@[i] == aw(self@[i].from),
            forall|i: int| 0 <= i < self@.len() ==> 0 <= #[trigger] reps@[i] <= 10000,
        ensures
            uniq(r@),
            amap(r@) == penalties(amap(s@), self@, aw, damping_bps, self@.len() as int),
            forall|j: int| 0 <= j < r@.len() ==> 0 <= #[trigger] r@[j].1 <= i32::MAX * self@.len(),
    {
        let edges = self.edges();
        let mut pen: Vec<(u32, i64)> = Vec::new();
        let mut i: usize = 0;
        while i < edges.len()
            invariant
                edges@ == self@,
                uniq(s@),
                vals_i32(s@),
                self@.len() <= MAX_PROPAGATION_EDGES,
                reps@.len() == self@.len(),
                forall|t: int|
                    0 <= t < self@.len() ==> #[trigger] reps@[t] == aw(self@[t].from),
                forall|t: int| 0 <= t < self@.len() ==> 0 <= #[trigger] reps@[t] <= 10000,
                i <= edges@.len(),
                uniq(pen@),
                amap(pen@) == penalties(amap(s@), self@, aw, damping_bps, i as int),
                forall|j: int| 0 <= j < pen@.len() ==> 0 <= #[trigger] pen@[j].1 <= i32::MAX * i,
            decreases edges@.len() - i,
        {
            let e = edges[i];
            match e.relation {
                Relation::Contradicts => {
                    let p = self.edge_penalty_exec(
                        s,
                        i,
                        reps[i],
                        damping_bps,
                        Ghost(aw),
                    );
                    let cur: i64 = match tl_get(&pen, e.to) {
                        Some(v) => v,
                        None => 0,
                    };
                    let ghost p0 = pen@;
                    tl_insert(&mut pen, e.to, cur + p);
                    proof {
                        assert forall|j: int| 0 <= j < pen@.len() implies 0 <= #[trigger] pen@[j].1
                            <= i32::MAX * (i + 1) by {
                            if pen@[j].1 != cur + p {
                                let t = choose|t: int| 0 <= t < p0.len() && p0[t].1 == pen@[j].1;
                                assert(0 <= p0[t].1 <= i32::MAX * i);
                            }
                        }
                    }
                },
                _ => {
                    proof {
                        assert forall|j: int| 0 <= j < pen@.len() implies 0 <= #[trigger] pen@[j].1
                            <= i32::MAX * (i + 1) by {
                            assert(0 <= pen@[j].1 <= i32::MAX * i);
                        }
                    }
                },
            }
            i = i + 1;
        }
        pen
    }
}


/// The trust after the penalties listed in `ps`, taken from the map `pm`.
pub open spec fn applied(s: Map<u32, int>, pm: Map<u32, int>, ps: Seq<(u32, i64)>, damping: u16) -> Map<
    u32,
    int,
>
    decreases ps.len(),
{
    if ps.len() == 0 {
        s
    } else {
        applied(s, pm, ps.drop_last(), damping).insert(
            ps.last().0,
            penalized(s, pm, damping, ps.last().0),
        )
    }
}

proof fn lemma_applied(s: Map<u32, int>, pm: Map<u32, int>, ps: Seq<(u32, i64)>, damping: u16)
    ensures
        applied(s, pm, ps, damping) == Map::new(
            |k: u32| s.contains_key(k) || amap(ps).contains_key(k),
            |k: u32|
                if amap(ps).contains_key(k) {
                    penalized(s, pm, damping, k)
                } else {
                    s[k]
                },
        ),
    decreases ps.len(),
{
    if ps.len() > 0 {
        lemma_applied(s, pm, ps.drop_last(), damping);
    }
    assert(applied(s, pm, ps, damping) =~= Map::new(
        |k: u32| s.contains_key(k) || amap(ps).contains_key(k),
        |k: u32|
            if amap(ps).contains_key(k) {
                penalized(s, pm, damping, k)
            } else {
                s[k]
            },
    ));
}

/// Trust after all penalties, each capped globally.
fn apply_penalties(s: &Vec<(u32, i64)>, pen: &Vec<(u32, i64)>, damping_bps: u16, Ghost(n): Ghost<nat>) -> (r: Vec<(u32, i64)>)
    requires
        uniq(s@),
        vals_i32(s@),
        uniq(pen@),
        n <= MAX_PROPAGATION_EDGES,
        forall|j: int| 0 <= j < pen@.len() ==> 0 <= #[trigger] pen@[j].1 <= i32::MAX * n,
    ensures
        uniq(r@),
        vals_i32(r@),
        amap(r@) == applied(amap(s@), amap(pen@), pen@, damping_bps),
{
    let mut r = tl_copy(s);
    let mut j: usize = 0;
    while j < pen.len()
        invariant
            uniq(s@),
            vals_i32(s@),
            uniq(pen@),
            n <= MAX_PROPAGATION_EDGES,
            forall|t: int| 0 <= t < pen@.len() ==> 0 <= #[trigger] pen@[t].1 <= i32::MAX * n,
            j <= pen@.len(),
            uniq(r@),
            vals_i32(r@),
            amap(r@) == applied(amap(s@), amap(pen@), pen@.take(j as int), damping_bps),
        decreases pen@.len() - j,
    {
        let (node, total) = pen[j];
        proof {
            lemma_amap_lookup(pen@, j as int);
        }
        let ts: i64 = match tl_get(s, node) {
            Some(v) => v,
            None => 0,
        };
        let global_max = if ts > 0 {
            assert(0 <= ts * damping_bps <= i32::MAX * 65535) by (nonlinear_arith)
                requires
                    0 < ts <= i32::MAX,
                    0 <= damping_bps <= 65535,
            ;
            ts * (damping_bps as i64) / 10000
        } else {
            total
        };
        let capped = if total < global_max {
            total
        } else {
            global_max
        };
        let c: i64 = if capped < 0 {
            0
        } else if capped > i32::MAX as i64 {
            i32::MAX as i64
        } else {
            capped
        };
        let diff = ts - c;
        let nv: i64 = if diff < i32::MIN as i64 {
            i32::MIN as i64
        } else if diff > i32::MAX as i64 {
            i32::MAX as i64
        } else {
            diff
        };
        let ghost r0 = r@;
        tl_insert(&mut r, node, nv);
        proof {
            assert(pen@.take(j + 1).drop_last() =~= pen@.take(j as int));
            assert forall|t: int| 0 <= t < r@.len() implies i32::MIN <= #[trigger] r@[t].1
                <= i32::MAX by {
                if r@[t].1 != nv {
                    let u = choose|u: int| 0 <= u < r0.len() && r0[u].1 == r@[t].1;
                    assert(i32::MIN <= r0[u].1 <= i32::MAX);
                }
            }
        }
        j = j + 1;
    }
    proof {
        assert(pen@.take(j as int) =~= pen@);
    }
    r
}


impl KnowledgeGraph {
    /// The two passes from the (decayed) start `d0`, with author weight
    /// `weights[i]` for edge `i`.
    fn propagate_core(
        &self,
        base: &Vec<(u32, i64)>,
        d0: &Vec<(u32, i64)>,
        weights: &Vec<i64>,
        max_iterations: u8,
        damping_bps: u16,
        Ghost(aw): Ghost<spec_fn(u32) -> int>,
    ) -> (r: Vec<(u32, i64)>)
        requires
            self@.len() <= MAX_PROPAGATION_EDGES,
            uniq(base@),
            vals_i32(base@),
            uniq(d0@),
            vals_i32(d0@),
            weights@.len() == self@.len(),
            forall|i: int| 0 <= i < self@.len() ==> #[trigger] weights@[i] == aw(self@[i].from),
            forall|i: int| 0 <= i < self@.len() ==> 0 <= #[trigger] weights@[i] <= 10000,
        ensures
            uniq(r@),
            vals_i32(r@),
            amap(r@) == propagated_by(amap(base@), amap(d0@), max_iterations, damping_bps, self@, aw),
    {
        let cyc = self.cyclic_edge_indices();
        let ghost cs = cyc@;
        let (flags, tots) = self.edge_facts(&cyc);
        let ghost d0m = amap(d0@);
        let ghost bm = amap(base@);
        let mut trust = tl_copy(d0);
        let mut it: u8 = 0;
        while it < max_iterations
            invariant_except_break
                it <= max_iterations,
                uniq(trust@),
                vals_i32(trust@),
                pass1(d0m, d0m, bm, self@, cs, aw, max_iterations as nat) == pass1(
                    amap(trust@),
                    d0m,
                    bm,
                    self@,
                    cs,
                    aw,
                    (max_iterations - it) as nat,
                ),
            invariant
                uniq(d0@),
                vals_i32(d0@),
                uniq(base@),
                vals_i32(base@),
                d0m == amap(d0@),
                bm == amap(base@),
                cs == cyc@,
                self@.len() <= MAX_PROPAGATION_EDGES,
                flags@.len() == self@.len(),
                weights@.len() == self@.len(),
                tots@.len() == self@.len(),
                forall|i: int| 0 <= i < self@.len() ==> #[trigger] flags@[i] == cs.contains(i as usize),
                forall|i: int| 0 <= i < self@.len() ==> #[trigger] weights@[i] == aw(self@[i].from),
                forall|i: int|
                    0 <= i < self@.len() ==> #[trigger] tots@[i] == (if total_out(
                        self@,
                        cs,
                        self@[i].from,
                        self@.len() as int,
                    ) > 1 {
                        total_out(self@, cs, self@[i].from, self@.len() as int)
                    } else {
                        1
                    }),
                forall|i: int| 0 <= i < self@.len() ==> 0 <= #[trigger] weights@[i] <= 10000,
                forall|i: int| 0 <= i < self@.len() ==> 1 <= #[trigger] tots@[i],
            ensures
                uniq(trust@),
                vals_i32(trust@),
                amap(trust@) == pass1(d0m, d0m, bm, self@, cs, aw, max_iterations as nat),
            decreases max_iterations - it,
        {
            let nt = self.pass1_round(&trust, d0, base, &flags, weights, &tots, Ghost(cs), Ghost(aw));
            let ch = changed_exec(&trust, &nt);
            trust = nt;
            it = it + 1;
            if !ch {
                break;
            }
        }
        let pen = self.pass2_penalties(&trust, weights, damping_bps, Ghost(aw));
        let result = apply_penalties(&trust, &pen, damping_bps, Ghost(self@.len()));
        proof {
            lemma_applied(amap(trust@), amap(pen@), pen@, damping_bps);
            assert(amap(result@) =~= pass2(amap(trust@), self@, aw, damping_bps));
        }
        result
    }

    /// Full trust propagation with temporal decay and dynamic damping.
    ///
    /// Base trust first decays: a claim older than `half_life_ticks` (when
    /// both it and `current_tick` are nonzero) is halved per elapsed
    /// half-life, at most 30 times. Pass 1 then repeats, up to
    /// `max_iterations` times and until nothing changes, a round that starts
    /// again from the decayed trust and lets every Supports or DerivedFrom
    /// edge that does not close a cycle add to its target the source's
    /// positive trust, split across the source's outgoing strength and scaled
    /// by the author's reputation. Pass 2 subtracts, per target, the
    /// penalties of the Contradicts edges computed from the frozen result of
    /// pass 1, each capped by the trust-weighted share of contradiction and
    /// all together by `damping_bps` of the target's positive trust.
    pub fn propagate_trust_advanced<R: ReputationTracker>(
        &self,
        base_trust: &HashMap<u32, LogOdds>,
        max_iterations: u8,
        damping_bps: u16,
        claims: &[Claim],
        reputations: &R,
        current_tick: u64,
        half_life_ticks: u64,
    ) -> (r: HashMap<u32, LogOdds>)
        requires
            self@.len() <= MAX_PROPAGATION_EDGES,
        ensures
            lo_view(r@) == propagated(
                lo_view(base_trust@),
                max_iterations,
                damping_bps,
                self@,
                claims@,
                |o: [u8; 32]| reputations.reputation_of(o),
                current_tick,
                half_life_ticks,
            ),
    {
        let ghost rep = |o: [u8; 32]| reputations.reputation_of(o);
        let ghost aw = reputation_weight(claims@, rep);
        let base = tl_from_map(base_trust);
        let d0 = decay_list(&base, claims, current_tick, half_life_ticks);
        let weights = self.reputation_weights(claims, reputations);
        let result = self.propagate_core(&base, &d0, &weights, max_iterations, damping_bps, Ghost(aw));
        tl_to_map(&result)
    }

    /// Two-pass trust propagation with reputations from the tracker and no
    /// temporal decay.
    pub fn propagate_trust_full<R: ReputationTracker>(
        &self,
        base_trust: &HashMap<u32, LogOdds>,
        max_iterations: u8,
        damping_bps: u16,
        claims: &[Claim],
        reputations: &R,
    ) -> (r: HashMap<u32, LogOdds>)
        requires
            self@.len() <= MAX_PROPAGATION_EDGES,
        ensures
            lo_view(r@) == propagated(
                lo_view(base_trust@),
                max_iterations,
                damping_bps,
                self@,
                claims@,
                |o: [u8; 32]| reputations.reputation_of(o),
                0,
                0,
            ),
    {
        self.propagate_trust_advanced(
            base_trust,
            max_iterations,
            damping_bps,
            claims,
            reputations,
            0,
            0,
        )
    }

    /// Two-pass trust propagation without claims or reputations: each
    /// source's own base trust, read as basis points and clamped to
    /// `0..=10000`, stands for its author's reputation; no temporal decay,
    /// and contradictions are damped at 50%.
    pub fn propagate_trust(&self, base_trust: &HashMap<u32, LogOdds>, max_iterations: u8) -> (r:
        HashMap<u32, LogOdds>)
        requires
            self@.len() <= MAX_PROPAGATION_EDGES,
        ensures
            lo_view(r@) == propagated_by(
                lo_view(base_trust@),
                lo_view(base_trust@),
                max_iterations,
                5000,
                self@,
                base_weight(lo_view(base_trust@)),
            ),
    {
        let base = tl_from_map(base_trust);
        let d0 = tl_copy(&base);
        let weights = self.base_weights(&base);
        let ghost aw = base_weight(amap(base@));
        let result = self.propagate_core(&base, &d0, &weights, max_iterations, 5000, Ghost(aw));
        tl_to_map(&result)
    }
}


proof fn lemma_penalties_nonneg(
    s: Map<u32, int>,
    edges: Seq<EpistemicEdge>,
    aw: spec_fn(u32) -> int,
    damping: u16,
    n: int,
)
    requires
        weights_ok(aw),
    ensures
        forall|k: u32|
            #[trigger] penalties(s, edges, aw, damping, n).contains_key(k) ==> penalties(
                s,
                edges,
                aw,
                damping,
                n,
            )[k] >= 0,
    decreases n,
{
    if n > 0 {
        lemma_penalties_nonneg(s, edges, aw, damping, n - 1);
        let e = edges[n - 1];
        let ft = if get0(s, e.from) > 0 {
            get0(s, e.from)
        } else {
            0
        };
        let ar = aw(e.from);
        assert(ar >= 0);
        let eff = (e.strength@ as int * ar) / 10000;
        assert(eff >= 0) by (nonlinear_arith)
            requires
                eff == (e.strength@ as int * ar) / 10000,
                e.strength@ >= 0,
                ar >= 0,
        ;
        let raw = (ft * eff) / 10000;
        assert(raw >= 0) by (nonlinear_arith)
            requires
                raw == (ft * eff) / 10000,
                ft >= 0,
                eff >= 0,
        ;
        let ws = weighted_in(s, edges, e.to, false, edges.len() as int);
        let wc = weighted_in(s, edges, e.to, true, edges.len() as int);
        lemma_weighted_nonneg(s, edges, e.to, false, edges.len() as int);
        lemma_weighted_nonneg(s, edges, e.to, true, edges.len() as int);
        let ratio = (wc * 10000) / (ws + wc + 1);
        assert(ratio >= 0) by (nonlinear_arith)
            requires
                ratio == (wc * 10000) / (ws + wc + 1),
                ws >= 0,
                wc >= 0,
        ;
        let alpha = if ratio < damping {
            ratio
        } else {
            damping as int
        };
        let tt = get0(s, e.to);
        if tt > 0 {
            assert((tt * alpha) / 10000 >= 0) by (nonlinear_arith)
                requires
                    tt > 0,
                    alpha >= 0,
            ;
        }
        let p = edge_penalty(s, edges, aw, damping, n - 1);
        assert(p >= 0);
        let acc = penalties(s, edges, aw, damping, n - 1);
        assert(get0(acc, e.to) >= 0);
        let next = penalties(s, edges, aw, damping, n);
        assert forall|k: u32| #[trigger] next.contains_key(k) implies next[k] >= 0 by {
            if e.relation is Contradicts && k == e.to {
                assert(next[k] == get0(acc, e.to) + p);
            } else {
                assert(acc.contains_key(k));
                assert(next[k] == acc[k]);
            }
        }
    }
}

proof fn lemma_weighted_nonneg(s: Map<u32, int>, edges: Seq<EpistemicEdge>, to: u32, c: bool, n: int)
    ensures
        weighted_in(s, edges, to, c, n) >= 0,
    decreases n,
{
    if n > 0 {
        lemma_weighted_nonneg(s, edges, to, c, n - 1);
    }
}

/// Contradictions can remove at most `damping_bps` of a claim's positive
/// trust, however many there are: after the contradiction pass a claim
/// keeps at least its trust minus `damping_bps / 10000` of it (with a
/// damping of 50%, a claim at the acceptance threshold cannot be pushed
/// below zero, let alone to rejection).
pub proof fn law_contradictions_capped(
    s: Map<u32, int>,
    edges: Seq<EpistemicEdge>,
    aw: spec_fn(u32) -> int,
    damping: u16,
    k: u32,
)
    requires
        weights_ok(aw),
        damping <= 10000,
        0 < get0(s, k) <= i32::MAX,
    ensures
        get0(pass2(s, edges, aw, damping), k) >= get0(s, k) - (get0(s, k) * damping)
            / 10000,
        get0(pass2(s, edges, aw, damping), k) >= 0,
{
    let pen = penalties(s, edges, aw, damping, edges.len() as int);
    lemma_penalties_nonneg(s, edges, aw, damping, edges.len() as int);
    let ts = get0(s, k);
    let g = (ts * damping) / 10000;
    assert(0 <= g <= ts) by (nonlinear_arith)
        requires
            g == (ts * damping) / 10000,
            ts > 0,
            0 <= damping <= 10000,
    ;
    let r = pass2(s, edges, aw, damping);
    assert(r.contains_key(k));
    if pen.contains_key(k) {
        assert(r[k] == penalized(s, pen, damping, k));
    }
}

/// The contradiction pass never raises trust: afterwards every claim holds
/// at most the trust it had (an absent claim counting as zero).
pub proof fn law_contradictions_never_raise(
    s: Map<u32, int>,
    edges: Seq<EpistemicEdge>,
    aw: spec_fn(u32) -> int,
    damping: u16,
    k: u32,
)
    requires
        i32::MIN <= get0(s, k) <= i32::MAX,
    ensures
        get0(pass2(s, edges, aw, damping), k) <= get0(s, k),
{
    let pen = penalties(s, edges, aw, damping, edges.len() as int);
    let r = pass2(s, edges, aw, damping);
    if pen.contains_key(k) {
        assert(r[k] == penalized(s, pen, damping, k));
    } else if s.contains_key(k) {
        assert(r[k] == s[k]);
    } else {
        assert(!r.contains_key(k));
    }
}

proof fn lemma_no_contradiction_no_penalty(
    s: Map<u32, int>,
    edges: Seq<EpistemicEdge>,
    aw: spec_fn(u32) -> int,
    damping: u16,
    n: int,
)
    requires
        n <= edges.len(),
        forall|i: int| 0 <= i < edges.len() ==> !((#[trigger] edges[i]).relation is Contradicts),
    ensures
        penalties(s, edges, aw, damping, n) == Map::<u32, int>::empty(),
    decreases n,
{
    if n > 0 {
        lemma_no_contradiction_no_penalty(s, edges, aw, damping, n - 1);
        assert(!(edges[n - 1].relation is Contradicts));
    }
}

/// Without Contradicts edges the contradiction pass changes nothing.
pub proof fn law_no_contradictions_keeps_trust(
    s: Map<u32, int>,
    edges: Seq<EpistemicEdge>,
    aw: spec_fn(u32) -> int,
    damping: u16,
)
    requires
        forall|i: int| 0 <= i < edges.len() ==> !((#[trigger] edges[i]).relation is Contradicts),
    ensures
        pass2(s, edges, aw, damping) == s,
{
    lemma_no_contradiction_no_penalty(s, edges, aw, damping, edges.len() as int);
    assert(pass2(s, edges, aw, damping) =~= s);
}

/// Without edges, propagation returns its starting trust (the decayed
/// base trust), whatever the author weights.
pub proof fn law_no_edges_keeps_base(
    base: Map<u32, int>,
    d0: Map<u32, int>,
    max_iterations: u8,
    damping: u16,
    aw: spec_fn(u32) -> int,
)
    ensures
        propagated_by(base, d0, max_iterations, damping, Seq::empty(), aw) == d0,
{
    let edges = Seq::<EpistemicEdge>::empty();
    let cyc = cyclic_edges(edges).to_set();
    let stable = pass1(d0, d0, base, edges, cyc, aw, max_iterations as nat);
    assert(pass1_edges(d0, d0, base, edges, cyc, aw, 0) == d0);
    assert(!changed(d0, d0));
    assert(stable == d0);
    let pen = penalties(stable, edges, aw, damping, 0);
    assert(pen == Map::<u32, int>::empty());
    assert(pass2(stable, edges, aw, damping) =~= stable);
}

/// Sum of `f` over the edges.
pub open spec fn edge_sum(es: Seq<EpistemicEdge>, f: spec_fn(EpistemicEdge) -> int) -> int
    decreases es.len(),
{
    if es.len() == 0 {
        0
    } else {
        edge_sum(es.drop_last(), f) + f(es.last())
    }
}

proof fn lemma_edge_sum_remove(es: Seq<EpistemicEdge>, f: spec_fn(EpistemicEdge) -> int, k: int)
    requires
        0 <= k < es.len(),
    ensures
        edge_sum(es, f) == edge_sum(es.remove(k), f) + f(es[k]),
    decreases es.len(),
{
    if k < es.len() - 1 {
        let d = es.drop_last();
        lemma_edge_sum_remove(d, f, k);
        assert(es.remove(k).drop_last() =~= d.remove(k));
        assert(es.remove(k).last() == es.last());
    } else {
        assert(es.remove(k) =~= es.drop_last());
    }
}

/// The sum does not depend on the order of the edges.
proof fn lemma_edge_sum_perm(a: Seq<EpistemicEdge>, b: Seq<EpistemicEdge>, f: spec_fn(EpistemicEdge) -> int)
    requires
        a.to_multiset() == b.to_multiset(),
    ensures
        edge_sum(a, f) == edge_sum(b, f),
    decreases a.len(),
{
    broadcast use vstd::seq_lib::group_to_multiset_ensures;

    vstd::seq_lib::to_multiset_len(a);
    vstd::seq_lib::to_multiset_len(b);
    if a.len() > 0 {
        let x = a.last();
        assert(a.to_multiset().count(x) > 0) by {
            assert(a.contains(x));
        }
        assert(b.contains(x));
        let k = choose|k: int| 0 <= k < b.len() && b[k] == x;
        let b2 = b.remove(k);
        let a2 = a.drop_last();
        vstd::seq_lib::to_multiset_remove(b, k);
        assert(a =~= a2.push(x));
        vstd::seq_lib::to_multiset_build(a2, x);
        assert(a2.to_multiset() =~= b2.to_multiset());
        lemma_edge_sum_perm(a2, b2, f);
        lemma_edge_sum_remove(b, f, k);
    }
}

/// What one edge brings to the weighted support (or contradiction) of `to`.
pub open spec fn weight_of(s: Map<u32, int>, to: u32, contradicting: bool) -> spec_fn(EpistemicEdge) -> int {
    |e: EpistemicEdge|
        if e.to == to && (if contradicting {
            e.relation is Contradicts
        } else {
            is_support(e.relation)
        }) {
            if get0(s, e.from) > 0 {
                get0(s, e.from)
            } else {
                0
            }
        } else {
            0
        }
}

proof fn lemma_weighted_sum(s: Map<u32, int>, edges: Seq<EpistemicEdge>, to: u32, c: bool, n: int)
    requires
        0 <= n <= edges.len(),
    ensures
        weighted_in(s, edges, to, c, n) == edge_sum(edges.take(n), weight_of(s, to, c)),
    decreases n,
{
    if n > 0 {
        lemma_weighted_sum(s, edges, to, c, n - 1);
        assert(edges.take(n).drop_last() =~= edges.take(n - 1));
        assert(edges.take(n).last() == edges[n - 1]);
    }
}

/// The penalty a Contradicts edge `e` asks of its target (the formula of
/// `edge_penalty`, by edge).
pub open spec fn penalty_of(
    s: Map<u32, int>,
    edges: Seq<EpistemicEdge>,
    aw: spec_fn(u32) -> int,
    damping: u16,
    e: EpistemicEdge,
) -> int {
    let ft = if get0(s, e.from) > 0 {
        get0(s, e.from)
    } else {
        0
    };
    let eff = (e.strength@ as int * aw(e.from)) / 10000;
    let raw = (ft * eff) / 10000;
    let ws = weighted_in(s, edges, e.to, false, edges.len() as int);
    let wc = weighted_in(s, edges, e.to, true, edges.len() as int);
    let ratio = (wc * 10000) / (ws + wc + 1);
    let alpha = if ratio < damping {
        ratio
    } else {
        damping as int
    };
    let tt = get0(s, e.to);
    let max_penalty = if tt > 0 {
        (tt * alpha) / 10000
    } else {
        raw
    };
    if raw < max_penalty {
        raw
    } else {
        max_penalty
    }
}

/// What one edge brings to the penalty of `k`.
pub open spec fn penalty_share(
    s: Map<u32, int>,
    edges: Seq<EpistemicEdge>,
    aw: spec_fn(u32) -> int,
    damping: u16,
    k: u32,
) -> spec_fn(EpistemicEdge) -> int {
    |e: EpistemicEdge|
        if e.relation is Contradicts && e.to == k {
            penalty_of(s, edges, aw, damping, e)
        } else {
            0
        }
}

/// Some of the first `n` edges contradicts `k`.
pub open spec fn contradicted(edges: Seq<EpistemicEdge>, k: u32, n: int) -> bool {
    exists|i: int| 0 <= i < n && (#[trigger] edges[i]).relation is Contradicts && edges[i].to == k
}

proof fn lemma_penalties_sum(
    s: Map<u32, int>,
    edges: Seq<EpistemicEdge>,
    aw: spec_fn(u32) -> int,
    damping: u16,
    n: int,
)
    requires
        0 <= n <= edges.len(),
    ensures
        forall|k: u32| #[trigger] penalties(s, edges, aw, damping, n).contains_key(k)
            <==> contradicted(edges, k, n),
        forall|k: u32|
            get0(#[trigger] penalties(s, edges, aw, damping, n), k) == edge_sum(
                edges.take(n),
                penalty_share(s, edges, aw, damping, k),
            ),
    decreases n,
{
    if n > 0 {
        lemma_penalties_sum(s, edges, aw, damping, n - 1);
        assert(edges.take(n).drop_last() =~= edges.take(n - 1));
        assert(edges.take(n).last() == edges[n - 1]);
        let acc = penalties(s, edges, aw, damping, n - 1);
        let pn = penalties(s, edges, aw, damping, n);
        let e = edges[n - 1];
        assert(edge_penalty(s, edges, aw, damping, n - 1) == penalty_of(s, edges, aw, damping, e));
        assert forall|k: u32|
            get0(#[trigger] penalties(s, edges, aw, damping, n), k) == edge_sum(
                edges.take(n),
                penalty_share(s, edges, aw, damping, k),
            ) by {
            let f = penalty_share(s, edges, aw, damping, k);
            assert(edge_sum(edges.take(n), f) == edge_sum(edges.take(n - 1), f) + f(e));
            assert(get0(acc, k) == edge_sum(edges.take(n - 1), f));
            if e.relation is Contradicts {
                if e.to == k {
                    assert(get0(pn, k) == get0(acc, k) + penalty_of(s, edges, aw, damping, e));
                } else {
                    assert(get0(pn, k) == get0(acc, k));
                }
            } else {
                assert(pn == acc);
            }
        }
        assert forall|k: u32| #[trigger] pn.contains_key(k) <==> contradicted(edges, k, n) by {
            if contradicted(edges, k, n) {
                let i = choose|i: int| 0 <= i < n && (#[trigger] edges[i]).relation is Contradicts && edges[i].to == k;
                if i < n - 1 {
                    assert(contradicted(edges, k, n - 1));
                }
            }
            if contradicted(edges, k, n - 1) {
                let i = choose|i: int| 0 <= i < n - 1 && (#[trigger] edges[i]).relation is Contradicts && edges[i].to == k;
                assert(contradicted(edges, k, n));
            }
            if e.relation is Contradicts && e.to == k {
                assert(contradicted(edges, k, n));
            }
        }
    }
}

/// Pass 2 does not depend on the order of the edges: every penalty is
/// computed from the frozen pass-1 trust and the graph's totals, and the
/// penalties on a target are summed.
pub proof fn law_pass2_order_independent(
    s: Map<u32, int>,
    a: Seq<EpistemicEdge>,
    b: Seq<EpistemicEdge>,
    aw: spec_fn(u32) -> int,
    damping: u16,
)
    requires
        a.to_multiset() == b.to_multiset(),
    ensures
        pass2(s, a, aw, damping) == pass2(s, b, aw, damping),
{
    broadcast use vstd::seq_lib::group_to_multiset_ensures;

    vstd::seq_lib::to_multiset_len(a);
    vstd::seq_lib::to_multiset_len(b);
    assert(a.take(a.len() as int) =~= a);
    assert(b.take(b.len() as int) =~= b);
    assert forall|to: u32, c: bool| #[trigger] weighted_in(s, a, to, c, a.len() as int) == weighted_in(s, b, to, c, b.len() as int) by {
        lemma_weighted_sum(s, a, to, c, a.len() as int);
        lemma_weighted_sum(s, b, to, c, b.len() as int);
        lemma_edge_sum_perm(a, b, weight_of(s, to, c));
    }
    assert forall|e: EpistemicEdge| #[trigger] penalty_of(s, a, aw, damping, e) == penalty_of(s, b, aw, damping, e) by {
        assert(weighted_in(s, a, e.to, false, a.len() as int) == weighted_in(s, b, e.to, false, b.len() as int));
        assert(weighted_in(s, a, e.to, true, a.len() as int) == weighted_in(s, b, e.to, true, b.len() as int));
    }
    lemma_penalties_sum(s, a, aw, damping, a.len() as int);
    lemma_penalties_sum(s, b, aw, damping, b.len() as int);
    let pa = penalties(s, a, aw, damping, a.len() as int);
    let pb = penalties(s, b, aw, damping, b.len() as int);
    assert forall|k: u32| pa.contains_key(k) <==> pb.contains_key(k) by {
        if contradicted(a, k, a.len() as int) {
            let i = choose|i: int| 0 <= i < a.len() && (#[trigger] a[i]).relation is Contradicts && a[i].to == k;
            assert(a.contains(a[i]));
            assert(a.to_multiset().count(a[i]) > 0);
            assert(b.to_multiset().count(a[i]) > 0);
            assert(b.contains(a[i]));
            let j = choose|j: int| 0 <= j < b.len() && b[j] == a[i];
            assert(contradicted(b, k, b.len() as int));
        }
        if contradicted(b, k, b.len() as int) {
            let i = choose|i: int| 0 <= i < b.len() && (#[trigger] b[i]).relation is Contradicts && b[i].to == k;
            assert(b.contains(b[i]));
            assert(b.to_multiset().count(b[i]) > 0);
            assert(a.to_multiset().count(b[i]) > 0);
            assert(a.contains(b[i]));
            let j = choose|j: int| 0 <= j < a.len() && a[j] == b[i];
            assert(contradicted(a, k, a.len() as int));
        }
    }
    assert forall|k: u32| get0(pa, k) == get0(pb, k) by {
        assert(penalty_share(s, a, aw, damping, k) =~= penalty_share(s, b, aw, damping, k));
        lemma_edge_sum_perm(a, b, penalty_share(s, a, aw, damping, k));
    }
    assert(pass2(s, a, aw, damping) =~= pass2(s, b, aw, damping)) by {
        assert forall|k: u32| pa.contains_key(k) implies pa[k] == pb[k] by {
            assert(get0(pa, k) == get0(pb, k));
        }
    }
}

/// What an edge adds to the outgoing strength of `from`, when no edge
/// closes a cycle.
pub open spec fn out_weight(from: u32) -> spec_fn(EpistemicEdge) -> int {
    |e: EpistemicEdge|
        if e.from == from && is_support(e.relation) {
            e.strength@ as int
        } else {
            0
        }
}

/// The bonus a support edge brings its target in a round from trust `t`,
/// when no edge of `edges` closes a cycle.
pub open spec fn edge_bonus(t: Map<u32, int>, edges: Seq<EpistemicEdge>, aw: spec_fn(u32) -> int) -> spec_fn(
    EpistemicEdge,
) -> int {
    |e: EpistemicEdge|
        {
            let ft = if get0(t, e.from) > 0 {
                get0(t, e.from)
            } else {
                0
            };
            let tot0 = edge_sum(edges, out_weight(e.from));
            let tot = if tot0 > 1 {
                tot0
            } else {
                1
            };
            let share = (e.strength@ as int * 10000) / tot;
            clamp_i32((ft * share) / 10000 * aw(e.from) / 10000)
        }
}

/// What an edge brings to `k`: its bonus if it is a support edge into `k`.
pub open spec fn bonus_into(b: spec_fn(EpistemicEdge) -> int, k: u32) -> spec_fn(EpistemicEdge) -> int {
    |e: EpistemicEdge|
        if is_support(e.relation) && e.to == k {
            b(e)
        } else {
            0
        }
}

/// Some of the first `n` edges is a support edge into `k`.
pub open spec fn supported_within(edges: Seq<EpistemicEdge>, k: u32, n: int) -> bool {
    exists|i: int| 0 <= i < n && is_support((#[trigger] edges[i]).relation) && edges[i].to == k
}

/// Every value of the map lies in the safe range `-10^9..=10^9`.
pub open spec fn map_safe(m: Map<u32, int>) -> bool {
    forall|k: u32| #[trigger] m.contains_key(k) ==> -1_000_000_000 <= m[k] <= 1_000_000_000
}

proof fn lemma_total_out_sum(edges: Seq<EpistemicEdge>, from: u32, n: int)
    requires
        0 <= n <= edges.len(),
    ensures
        total_out(edges, Set::<usize>::empty(), from, n) == edge_sum(edges.take(n), out_weight(from)),
    decreases n,
{
    if n > 0 {
        lemma_total_out_sum(edges, from, n - 1);
        assert(edges.take(n).drop_last() =~= edges.take(n - 1));
    }
}

proof fn lemma_edge_sum_nonneg(es: Seq<EpistemicEdge>, f: spec_fn(EpistemicEdge) -> int)
    requires
        forall|e: EpistemicEdge| #[trigger] f(e) >= 0,
    ensures
        edge_sum(es, f) >= 0,
    decreases es.len(),
{
    if es.len() > 0 {
        lemma_edge_sum_nonneg(es.drop_last(), f);
    }
}

proof fn lemma_edge_bonus_nonneg(t: Map<u32, int>, edges: Seq<EpistemicEdge>, aw: spec_fn(u32) -> int, e: EpistemicEdge)
    requires
        weights_ok(aw),
    ensures
        edge_bonus(t, edges, aw)(e) >= 0,
{
    let ft = if get0(t, e.from) > 0 {
        get0(t, e.from)
    } else {
        0
    };
    let tot0 = edge_sum(edges, out_weight(e.from));
    let tot = if tot0 > 1 {
        tot0
    } else {
        1
    };
    let share = (e.strength@ as int * 10000) / tot;
    assert(share >= 0) by (nonlinear_arith)
        requires
            share == (e.strength@ as int * 10000) / tot,
            e.strength@ >= 0,
            tot >= 1,
    ;
    let q = (ft * share) / 10000;
    assert(q >= 0) by (nonlinear_arith)
        requires
            q == (ft * share) / 10000,
            ft >= 0,
            share >= 0,
    ;
    let w = aw(e.from);
    assert(0 <= w);
    assert(q * w / 10000 >= 0) by (nonlinear_arith)
        requires
            q >= 0,
            w >= 0,
    ;
}

proof fn lemma_no_support_zero_sum(edges: Seq<EpistemicEdge>, b: spec_fn(EpistemicEdge) -> int, k: u32, n: int)
    requires
        0 <= n <= edges.len(),
        !supported_within(edges, k, n),
    ensures
        edge_sum(edges.take(n), bonus_into(b, k)) == 0,
    decreases n,
{
    if n > 0 {
        assert(!supported_within(edges, k, n - 1)) by {
            if supported_within(edges, k, n - 1) {
                let i = choose|i: int| 0 <= i < n - 1 && is_support((#[trigger] edges[i]).relation) && edges[i].to == k;
                assert(supported_within(edges, k, n));
            }
        }
        lemma_no_support_zero_sum(edges, b, k, n - 1);
        assert(edges.take(n).drop_last() =~= edges.take(n - 1));
        assert(!(is_support(edges[n - 1].relation) && edges[n - 1].to == k));
    }
}

/// The support pass, without edges closing a cycle and with starting
/// values in the safe range, in closed form: a claim that some support edge
/// targets ends at its start (its value so far, else its base trust) plus
/// the bonuses of those edges, capped at `10^9`; any other keeps its value.
proof fn lemma_pass1_edges_closed(
    t: Map<u32, int>,
    d0: Map<u32, int>,
    base: Map<u32, int>,
    edges: Seq<EpistemicEdge>,
    aw: spec_fn(u32) -> int,
    n: int,
    k: u32,
)
    requires
        0 <= n <= edges.len(),
        map_safe(d0),
        map_safe(base),
        weights_ok(aw),
    ensures
        ({
            let r = pass1_edges(t, d0, base, edges, Set::<usize>::empty(), aw, n);
            let start = if d0.contains_key(k) {
                d0[k]
            } else {
                get0(base, k)
            };
            let sum = edge_sum(edges.take(n), bonus_into(edge_bonus(t, edges, aw), k));
            &&& r.contains_key(k) <==> (d0.contains_key(k) || supported_within(edges, k, n))
            &&& supported_within(edges, k, n) ==> r[k] == (if start + sum > 1_000_000_000 {
                1_000_000_000
            } else {
                start + sum
            })
            &&& (!supported_within(edges, k, n) && d0.contains_key(k)) ==> r[k] == d0[k]
        }),
    decreases n,
{
    let cyc = Set::<usize>::empty();
    let bf = edge_bonus(t, edges, aw);
    if n > 0 {
        lemma_pass1_edges_closed(t, d0, base, edges, aw, n - 1, k);
        let acc = pass1_edges(t, d0, base, edges, cyc, aw, n - 1);
        let e = edges[n - 1];
        let start = if d0.contains_key(k) {
            d0[k]
        } else {
            get0(base, k)
        };
        assert(edges.take(n).drop_last() =~= edges.take(n - 1));
        assert(edges.take(n).last() == e);
        let s0 = edge_sum(edges.take(n - 1), bonus_into(bf, k));
        let s1 = edge_sum(edges.take(n), bonus_into(bf, k));
        assert(s1 == s0 + bonus_into(bf, k)(e));
        assert forall|x: EpistemicEdge| #[trigger] bonus_into(bf, k)(x) >= 0 by {
            lemma_edge_bonus_nonneg(t, edges, aw, x);
        }
        lemma_edge_sum_nonneg(edges.take(n - 1), bonus_into(bf, k));
        assert(-1_000_000_000 <= start <= 1_000_000_000);
        if supported_within(edges, k, n - 1) {
            let i = choose|i: int| 0 <= i < n - 1 && is_support((#[trigger] edges[i]).relation) && edges[i].to == k;
            assert(supported_within(edges, k, n));
        } else {
            lemma_no_support_zero_sum(edges, bf, k, n - 1);
        }
        if is_support(e.relation) && e.to == k {
            assert(supported_within(edges, k, n));
            lemma_total_out_sum(edges, e.from, edges.len() as int);
            assert(edges.take(edges.len() as int) =~= edges);
            assert(clamp_i32(contribution(t, edges, cyc, aw, n - 1)) == bf(e));
            lemma_edge_bonus_nonneg(t, edges, aw, e);
        } else {
            if supported_within(edges, k, n) {
                let i = choose|i: int| 0 <= i < n && is_support((#[trigger] edges[i]).relation) && edges[i].to == k;
                assert(i != n - 1);
                assert(supported_within(edges, k, n - 1));
            }
        }
    }
}

proof fn lemma_supported_perm(a: Seq<EpistemicEdge>, b: Seq<EpistemicEdge>, k: u32)
    requires
        a.to_multiset() == b.to_multiset(),
        supported_within(a, k, a.len() as int),
    ensures
        supported_within(b, k, b.len() as int),
{
    broadcast use vstd::seq_lib::group_to_multiset_ensures;

    let i = choose|i: int| 0 <= i < a.len() && is_support((#[trigger] a[i]).relation) && a[i].to == k;
    assert(a.to_multiset().count(a[i]) > 0);
    assert(b.contains(a[i]));
    let j = choose|j: int| 0 <= j < b.len() && b[j] == a[i];
    assert(is_support(b[j].relation) && b[j].to == k);
}

proof fn lemma_pass1_edges_perm(
    t: Map<u32, int>,
    d0: Map<u32, int>,
    base: Map<u32, int>,
    a: Seq<EpistemicEdge>,
    b: Seq<EpistemicEdge>,
    aw: spec_fn(u32) -> int,
)
    requires
        a.to_multiset() == b.to_multiset(),
        map_safe(d0),
        map_safe(base),
        weights_ok(aw),
    ensures
        pass1_edges(t, d0, base, a, Set::<usize>::empty(), aw, a.len() as int) == pass1_edges(
            t,
            d0,
            base,
            b,
            Set::<usize>::empty(),
            aw,
            b.len() as int,
        ),
{
    vstd::seq_lib::to_multiset_len(a);
    vstd::seq_lib::to_multiset_len(b);
    let ra = pass1_edges(t, d0, base, a, Set::<usize>::empty(), aw, a.len() as int);
    let rb = pass1_edges(t, d0, base, b, Set::<usize>::empty(), aw, b.len() as int);
    assert(a.take(a.len() as int) =~= a);
    assert(b.take(b.len() as int) =~= b);
    assert(edge_bonus(t, a, aw) =~= edge_bonus(t, b, aw)) by {
        assert forall|e: EpistemicEdge| #[trigger] edge_bonus(t, a, aw)(e) == edge_bonus(t, b, aw)(e) by {
            lemma_edge_sum_perm(a, b, out_weight(e.from));
        }
    }
    assert forall|k: u32|
        #![trigger ra.dom().contains(k)]
        #![trigger rb.dom().contains(k)]
        ra.contains_key(k) == rb.contains_key(k) && (ra.contains_key(k) ==> ra[k] == rb[k]) by {
        lemma_pass1_edges_closed(t, d0, base, a, aw, a.len() as int, k);
        lemma_pass1_edges_closed(t, d0, base, b, aw, b.len() as int, k);
        if supported_within(a, k, a.len() as int) {
            lemma_supported_perm(a, b, k);
        }
        if supported_within(b, k, b.len() as int) {
            lemma_supported_perm(b, a, k);
        }
        lemma_edge_sum_perm(a, b, bonus_into(edge_bonus(t, a, aw), k));
    }
    assert(ra.dom() =~= rb.dom());
    assert(ra =~= rb);
}

proof fn lemma_pass1_perm(
    t: Map<u32, int>,
    d0: Map<u32, int>,
    base: Map<u32, int>,
    a: Seq<EpistemicEdge>,
    b: Seq<EpistemicEdge>,
    aw: spec_fn(u32) -> int,
    it: nat,
)
    requires
        a.to_multiset() == b.to_multiset(),
        map_safe(d0),
        map_safe(base),
        weights_ok(aw),
    ensures
        pass1(t, d0, base, a, Set::<usize>::empty(), aw, it) == pass1(t, d0, base, b, Set::<usize>::empty(), aw, it),
    decreases it,
{
    if it > 0 {
        lemma_pass1_edges_perm(t, d0, base, a, b, aw);
        let nt = pass1_edges(t, d0, base, a, Set::<usize>::empty(), aw, a.len() as int);
        lemma_pass1_perm(nt, d0, base, a, b, aw, (it - 1) as nat);
    }
}

/// On graphs where no edge closes a cycle, with starting and base trust in
/// the safe range, the order of the edges changes nothing: two
/// arrangements of the same edges propagate to the same trust (the support
/// pass sums each target's bonuses, which depend on the edge and on
/// order-free totals, and the contradiction pass reads a frozen snapshot).
pub proof fn law_propagation_order_independent(
    base: Map<u32, int>,
    d0: Map<u32, int>,
    max_iterations: u8,
    damping: u16,
    a: Seq<EpistemicEdge>,
    b: Seq<EpistemicEdge>,
    aw: spec_fn(u32) -> int,
)
    requires
        a.to_multiset() == b.to_multiset(),
        cyclic_edges(a).len() == 0,
        cyclic_edges(b).len() == 0,
        map_safe(d0),
        map_safe(base),
        weights_ok(aw),
    ensures
        propagated_by(base, d0, max_iterations, damping, a, aw) == propagated_by(
            base,
            d0,
            max_iterations,
            damping,
            b,
            aw,
        ),
{
    assert(cyclic_edges(a).to_set() =~= Set::<usize>::empty());
    assert(cyclic_edges(b).to_set() =~= Set::<usize>::empty());
    lemma_pass1_perm(d0, d0, base, a, b, aw, max_iterations as nat);
    let stable = pass1(d0, d0, base, a, Set::<usize>::empty(), aw, max_iterations as nat);
    law_pass2_order_independent(stable, a, b, aw, damping);
}

/// `a` and `b` hold the same keys, and `a` is nowhere above `b` (an absent
/// key counting as zero).
pub open spec fn pointwise_le(a: Map<u32, int>, b: Map<u32, int>) -> bool {
    &&& forall|k: u32| #[trigger] a.contains_key(k) == b.contains_key(k)
    &&& forall|k: u32| #[trigger] get0(a, k) <= get0(b, k)
}

/// Some of the first `n` edges carries trust into `k`.
pub open spec fn flow_target(edges: Seq<EpistemicEdge>, cyc: Set<usize>, k: u32, n: int) -> bool {
    exists|i: int| 0 <= i < n && #[trigger] flows(edges, cyc, i) && edges[i].to == k
}

/// `n` full rounds of the support pass, without stopping early.
pub open spec fn rounds(
    t: Map<u32, int>,
    d0: Map<u32, int>,
    base: Map<u32, int>,
    edges: Seq<EpistemicEdge>,
    cyc: Set<usize>,
    aw: spec_fn(u32) -> int,
    n: nat,
) -> Map<u32, int>
    decreases n,
{
    if n == 0 {
        t
    } else {
        rounds(pass1_edges(t, d0, base, edges, cyc, aw, edges.len() as int), d0, base, edges, cyc, aw, (n - 1) as nat)
    }
}

proof fn lemma_div_mono(x: int, y: int, d: int)
    requires
        x <= y,
        d > 0,
    ensures
        x / d <= y / d,
{
    assert(x / d <= y / d) by (nonlinear_arith)
        requires
            x <= y,
            d > 0,
    ;
}

proof fn lemma_contribution_mono(
    t1: Map<u32, int>,
    t2: Map<u32, int>,
    edges: Seq<EpistemicEdge>,
    cyc: Set<usize>,
    aw: spec_fn(u32) -> int,
    i: int,
)
    requires
        forall|k: u32| #[trigger] get0(t1, k) <= get0(t2, k),
        weights_ok(aw),
    ensures
        contribution(t1, edges, cyc, aw, i) <= contribution(t2, edges, cyc, aw, i),
{
    let e = edges[i];
    assert(get0(t1, e.from) <= get0(t2, e.from));
    let f1 = if get0(t1, e.from) > 0 {
        get0(t1, e.from)
    } else {
        0
    };
    let f2 = if get0(t2, e.from) > 0 {
        get0(t2, e.from)
    } else {
        0
    };
    let tot0 = total_out(edges, cyc, e.from, edges.len() as int);
    let tot = if tot0 > 1 {
        tot0
    } else {
        1
    };
    let share = (e.strength@ as int * 10000) / tot;
    assert(share >= 0) by (nonlinear_arith)
        requires
            share == (e.strength@ as int * 10000) / tot,
            e.strength@ >= 0,
            tot >= 1,
    ;
    assert(f1 * share <= f2 * share) by (nonlinear_arith)
        requires
            0 <= f1 <= f2,
            share >= 0,
    ;
    lemma_div_mono(f1 * share, f2 * share, 10000);
    let w = aw(e.from);
    assert(0 <= w);
    let q1 = (f1 * share) / 10000;
    let q2 = (f2 * share) / 10000;
    assert(q1 * w <= q2 * w) by (nonlinear_arith)
        requires
            q1 <= q2,
            w >= 0,
    ;
    lemma_div_mono(q1 * w, q2 * w, 10000);
}

proof fn lemma_pass1_edges_mono(
    t1: Map<u32, int>,
    t2: Map<u32, int>,
    d1: Map<u32, int>,
    d2: Map<u32, int>,
    base: Map<u32, int>,
    edges: Seq<EpistemicEdge>,
    cyc: Set<usize>,
    aw: spec_fn(u32) -> int,
    n: int,
)
    requires
        pointwise_le(t1, t2),
        pointwise_le(d1, d2),
        weights_ok(aw),
    ensures
        pointwise_le(
            pass1_edges(t1, d1, base, edges, cyc, aw, n),
            pass1_edges(t2, d2, base, edges, cyc, aw, n),
        ),
    decreases n,
{
    if n > 0 {
        lemma_pass1_edges_mono(t1, t2, d1, d2, base, edges, cyc, aw, n - 1);
        let a1 = pass1_edges(t1, d1, base, edges, cyc, aw, n - 1);
        let a2 = pass1_edges(t2, d2, base, edges, cyc, aw, n - 1);
        if flows(edges, cyc, n - 1) {
            let to = edges[n - 1].to;
            assert(a1.contains_key(to) == a2.contains_key(to));
            assert(get0(a1, to) <= get0(a2, to));
            lemma_contribution_mono(t1, t2, edges, cyc, aw, n - 1);
            let r1 = pass1_edges(t1, d1, base, edges, cyc, aw, n);
            let r2 = pass1_edges(t2, d2, base, edges, cyc, aw, n);
            assert forall|k: u32| #[trigger] get0(r1, k) <= get0(r2, k) by {
                if k != to {
                    assert(get0(a1, k) <= get0(a2, k));
                }
            }
            assert forall|k: u32| #[trigger] r1.contains_key(k) == r2.contains_key(k) by {
                assert(a1.contains_key(k) == a2.contains_key(k));
            }
        }
    }
}

proof fn lemma_rounds_mono(
    t1: Map<u32, int>,
    t2: Map<u32, int>,
    d1: Map<u32, int>,
    d2: Map<u32, int>,
    base: Map<u32, int>,
    edges: Seq<EpistemicEdge>,
    cyc: Set<usize>,
    aw: spec_fn(u32) -> int,
    n: nat,
)
    requires
        pointwise_le(t1, t2),
        pointwise_le(d1, d2),
        weights_ok(aw),
    ensures
        pointwise_le(rounds(t1, d1, base, edges, cyc, aw, n), rounds(t2, d2, base, edges, cyc, aw, n)),
    decreases n,
{
    if n > 0 {
        lemma_pass1_edges_mono(t1, t2, d1, d2, base, edges, cyc, aw, edges.len() as int);
        lemma_rounds_mono(
            pass1_edges(t1, d1, base, edges, cyc, aw, edges.len() as int),
            pass1_edges(t2, d2, base, edges, cyc, aw, edges.len() as int),
            d1,
            d2,
            base,
            edges,
            cyc,
            aw,
            (n - 1) as nat,
        );
    }
}

proof fn lemma_pass1_edges_dom(
    t: Map<u32, int>,
    d0: Map<u32, int>,
    base: Map<u32, int>,
    edges: Seq<EpistemicEdge>,
    cyc: Set<usize>,
    aw: spec_fn(u32) -> int,
    n: int,
)
    requires
        0 <= n <= edges.len(),
    ensures
        forall|k: u32|
            #[trigger] pass1_edges(t, d0, base, edges, cyc, aw, n).contains_key(k) <==> (d0.contains_key(k)
                || flow_target(edges, cyc, k, n)),
    decreases n,
{
    if n > 0 {
        lemma_pass1_edges_dom(t, d0, base, edges, cyc, aw, n - 1);
        assert forall|k: u32|
            #[trigger] pass1_edges(t, d0, base, edges, cyc, aw, n).contains_key(k) <==> (d0.contains_key(k)
                || flow_target(edges, cyc, k, n)) by {
            assert(pass1_edges(t, d0, base, edges, cyc, aw, n - 1).contains_key(k) <==> (d0.contains_key(k)
                || flow_target(edges, cyc, k, n - 1)));
            if flow_target(edges, cyc, k, n) && !flow_target(edges, cyc, k, n - 1) {
                let i = choose|i: int| 0 <= i < n && #[trigger] flows(edges, cyc, i) && edges[i].to == k;
                assert(i == n - 1);
            }
            if flow_target(edges, cyc, k, n - 1) {
                let i = choose|i: int| 0 <= i < n - 1 && #[trigger] flows(edges, cyc, i) && edges[i].to == k;
                assert(flow_target(edges, cyc, k, n));
            }
            if flows(edges, cyc, n - 1) && edges[n - 1].to == k {
                assert(flow_target(edges, cyc, k, n));
            }
        }
    }
}

proof fn lemma_pass1_edges_same_reads(
    t1: Map<u32, int>,
    t2: Map<u32, int>,
    d0: Map<u32, int>,
    base: Map<u32, int>,
    edges: Seq<EpistemicEdge>,
    cyc: Set<usize>,
    aw: spec_fn(u32) -> int,
    n: int,
)
    requires
        forall|k: u32| #[trigger] get0(t1, k) == get0(t2, k),
    ensures
        pass1_edges(t1, d0, base, edges, cyc, aw, n) == pass1_edges(t2, d0, base, edges, cyc, aw, n),
    decreases n,
{
    if n > 0 {
        lemma_pass1_edges_same_reads(t1, t2, d0, base, edges, cyc, aw, n - 1);
        assert(get0(t1, edges[n - 1].from) == get0(t2, edges[n - 1].from));
    }
}

proof fn lemma_rounds_fixed(
    t: Map<u32, int>,
    d0: Map<u32, int>,
    base: Map<u32, int>,
    edges: Seq<EpistemicEdge>,
    cyc: Set<usize>,
    aw: spec_fn(u32) -> int,
    n: nat,
)
    requires
        pass1_edges(t, d0, base, edges, cyc, aw, edges.len() as int) == t,
    ensures
        rounds(t, d0, base, edges, cyc, aw, n) == t,
    decreases n,
{
    if n > 0 {
        lemma_rounds_fixed(t, d0, base, edges, cyc, aw, (n - 1) as nat);
    }
}

/// Stopping the support pass once a round changes nothing gives what
/// running every round gives.
proof fn lemma_pass1_rounds(
    t: Map<u32, int>,
    d0: Map<u32, int>,
    base: Map<u32, int>,
    edges: Seq<EpistemicEdge>,
    cyc: Set<usize>,
    aw: spec_fn(u32) -> int,
    it: nat,
)
    requires
        forall|k: u32| #[trigger] t.contains_key(k) ==> d0.contains_key(k) || flow_target(edges, cyc, k, edges.len() as int),
    ensures
        pass1(t, d0, base, edges, cyc, aw, it) == rounds(t, d0, base, edges, cyc, aw, it),
    decreases it,
{
    if it > 0 {
        let n = edges.len() as int;
        let nt = pass1_edges(t, d0, base, edges, cyc, aw, n);
        lemma_pass1_edges_dom(t, d0, base, edges, cyc, aw, n);
        if !changed(t, nt) {
            assert forall|k: u32| #[trigger] get0(t, k) == get0(nt, k) by {
                if nt.contains_key(k) {
                    assert(!(nt.contains_key(k) && get0(t, k) != nt[k]));
                } else {
                    assert(!t.contains_key(k));
                }
            }
            lemma_pass1_edges_same_reads(t, nt, d0, base, edges, cyc, aw, n);
            lemma_rounds_fixed(nt, d0, base, edges, cyc, aw, (it - 1) as nat);
        } else {
            lemma_pass1_rounds(nt, d0, base, edges, cyc, aw, (it - 1) as nat);
        }
    }
}

/// With nonnegative base trust and no Contradicts edges, temporal decay
/// never raises trust: every claim ends at most where the run without
/// decay puts it.
pub proof fn law_decay_never_raises(
    base: Map<u32, int>,
    max_iterations: u8,
    damping: u16,
    edges: Seq<EpistemicEdge>,
    claims: Seq<Claim>,
    rep: spec_fn([u8; 32]) -> Reputation,
    tick: u64,
    half_life: u64,
    k: u32,
)
    requires
        forall|u: u32| #[trigger] base.contains_key(u) ==> base[u] >= 0,
        forall|i: int| 0 <= i < edges.len() ==> !((#[trigger] edges[i]).relation is Contradicts),
        forall|o: [u8; 32]| #[trigger] rep(o)@ <= 10000,
    ensures
        get0(propagated(base, max_iterations, damping, edges, claims, rep, tick, half_life), k) <= get0(
            propagated(base, max_iterations, damping, edges, claims, rep, 0, 0),
            k,
        ),
{
    let aw = reputation_weight(claims, rep);
    assert(weights_ok(aw)) by {
        assert forall|f: u32| 0 <= #[trigger] aw(f) <= 10000 by {
            if (f as int) < claims.len() {
                assert(rep(claims[f as int].origin)@ <= 10000);
            }
        }
    }
    let cyc = cyclic_edges(edges).to_set();
    let dd = decayed(base, claims, tick, half_life);
    let d0 = decayed(base, claims, 0, 0);
    assert(d0 =~= base) by {
        assert forall|u: u32| base.contains_key(u) implies d0[u] == base[u] by {
            law_decay_moves_toward_zero(claims, 0, 0, u, base[u]);
        }
    }
    assert(pointwise_le(dd, base)) by {
        assert forall|u: u32| #[trigger] get0(dd, u) <= get0(base, u) by {
            if base.contains_key(u) {
                law_decay_moves_toward_zero(claims, tick, half_life, u, base[u]);
            }
        }
    }
    let it = max_iterations as nat;
    lemma_pass1_rounds(dd, dd, base, edges, cyc, aw, it);
    lemma_pass1_rounds(base, base, base, edges, cyc, aw, it);
    lemma_rounds_mono(dd, base, dd, base, base, edges, cyc, aw, it);
    let s1 = pass1(dd, dd, base, edges, cyc, aw, it);
    let s2 = pass1(base, base, base, edges, cyc, aw, it);
    law_no_contradictions_keeps_trust(s1, edges, aw, damping);
    law_no_contradictions_keeps_trust(s2, edges, aw, damping);
    assert(get0(s1, k) <= get0(s2, k));
}

/// Two edge lists that agree, position by position, on which edges carry
/// trust and on those edges.
pub open spec fn same_flow(a: Seq<EpistemicEdge>, b: Seq<EpistemicEdge>, cyc: Set<usize>) -> bool {
    &&& a.len() == b.len()
    &&& forall|i: int| 0 <= i < a.len() ==> #[trigger] flows(a, cyc, i) == flows(b, cyc, i)
    &&& forall|i: int| 0 <= i < a.len() && #[trigger] flows(a, cyc, i) ==> a[i] == b[i]
}

proof fn lemma_total_out_same_flow(
    a: Seq<EpistemicEdge>,
    b: Seq<EpistemicEdge>,
    cyc: Set<usize>,
    from: u32,
    n: int,
)
    requires
        same_flow(a, b, cyc),
        n <= a.len(),
    ensures
        total_out(a, cyc, from, n) == total_out(b, cyc, from, n),
    decreases n,
{
    if n > 0 {
        lemma_total_out_same_flow(a, b, cyc, from, n - 1);
        assert(flows(a, cyc, n - 1) == flows(b, cyc, n - 1));
    }
}

proof fn lemma_pass1_edges_same_flow(
    t: Map<u32, int>,
    d0: Map<u32, int>,
    base: Map<u32, int>,
    a: Seq<EpistemicEdge>,
    b: Seq<EpistemicEdge>,
    cyc: Set<usize>,
    aw: spec_fn(u32) -> int,
    n: int,
)
    requires
        same_flow(a, b, cyc),
        n <= a.len(),
    ensures
        pass1_edges(t, d0, base, a, cyc, aw, n) == pass1_edges(
            t,
            d0,
            base,
            b,
            cyc,
            aw,
            n,
        ),
    decreases n,
{
    if n > 0 {
        lemma_pass1_edges_same_flow(t, d0, base, a, b, cyc, aw, n - 1);
        assert(flows(a, cyc, n - 1) == flows(b, cyc, n - 1));
        if flows(a, cyc, n - 1) {
            assert(a[n - 1] == b[n - 1]);
            lemma_total_out_same_flow(a, b, cyc, a[n - 1].from, a.len() as int);
            assert(contribution(t, a, cyc, aw, n - 1) == contribution(
                t,
                b,
                cyc,
                aw,
                n - 1,
            ));
        }
    }
}

/// The support pass takes nothing from contradiction edges, so the
/// contradiction pass cannot feed back into it: two edge lists that agree
/// on the trust-carrying edges give the same support pass, whatever their
/// other edges are.
pub proof fn law_support_pass_ignores_contradictions(
    t: Map<u32, int>,
    d0: Map<u32, int>,
    base: Map<u32, int>,
    a: Seq<EpistemicEdge>,
    b: Seq<EpistemicEdge>,
    cyc: Set<usize>,
    aw: spec_fn(u32) -> int,
    it: nat,
)
    requires
        same_flow(a, b, cyc),
    ensures
        pass1(t, d0, base, a, cyc, aw, it) == pass1(t, d0, base, b, cyc, aw, it),
    decreases it,
{
    if it > 0 {
        lemma_pass1_edges_same_flow(t, d0, base, a, b, cyc, aw, a.len() as int);
        let nt = pass1_edges(t, d0, base, a, cyc, aw, a.len() as int);
        law_support_pass_ignores_contradictions(nt, d0, base, a, b, cyc, aw, (it - 1) as nat);
    }
}

/// Every value of the map fits in `i32`.
pub open spec fn map_i32(m: Map<u32, int>) -> bool {
    forall|k: u32| #[trigger] m.contains_key(k) ==> i32::MIN <= m[k] <= i32::MAX
}

proof fn lemma_pass1_edges_i32(
    t: Map<u32, int>,
    d0: Map<u32, int>,
    base: Map<u32, int>,
    edges: Seq<EpistemicEdge>,
    cyc: Set<usize>,
    aw: spec_fn(u32) -> int,
    n: int,
)
    requires
        map_i32(d0),
    ensures
        map_i32(pass1_edges(t, d0, base, edges, cyc, aw, n)),
    decreases n,
{
    if n > 0 {
        lemma_pass1_edges_i32(t, d0, base, edges, cyc, aw, n - 1);
    }
}

proof fn lemma_pass1_i32(
    t: Map<u32, int>,
    d0: Map<u32, int>,
    base: Map<u32, int>,
    edges: Seq<EpistemicEdge>,
    cyc: Set<usize>,
    aw: spec_fn(u32) -> int,
    it: nat,
)
    requires
        map_i32(t),
        map_i32(d0),
    ensures
        map_i32(pass1(t, d0, base, edges, cyc, aw, it)),
    decreases it,
{
    if it > 0 {
        let nt = pass1_edges(t, d0, base, edges, cyc, aw, edges.len() as int);
        lemma_pass1_edges_i32(t, d0, base, edges, cyc, aw, edges.len() as int);
        lemma_pass1_i32(nt, d0, base, edges, cyc, aw, (it - 1) as nat);
    }
}

/// `b` is `a` with each Contradicts edge turned into a SharedSource edge,
/// which carries no trust either.
pub open spec fn contradictions_neutralized(a: Seq<EpistemicEdge>, b: Seq<EpistemicEdge>) -> bool {
    &&& a.len() == b.len()
    &&& forall|i: int|
        0 <= i < a.len() ==> #[trigger] b[i] == (if a[i].relation is Contradicts {
            EpistemicEdge { relation: Relation::SharedSource, ..a[i] }
        } else {
            a[i]
        })
}

/// Contradictions only ever lower trust, and by at most `damping` of it:
/// against the same graph with its Contradicts edges neutralized, every
/// claim ends with at most the trust it has there, and a claim with
/// positive trust there keeps at least that trust minus `damping / 10000`
/// of it (with a damping of 50%, a claim above the acceptance threshold
/// there stays above zero).
pub proof fn law_contradictions_only_lower(
    base: Map<u32, int>,
    d0: Map<u32, int>,
    max_iterations: u8,
    damping: u16,
    a: Seq<EpistemicEdge>,
    b: Seq<EpistemicEdge>,
    aw: spec_fn(u32) -> int,
    k: u32,
)
    requires
        contradictions_neutralized(a, b),
        weights_ok(aw),
        damping <= 10000,
        map_i32(d0),
    ensures
        get0(propagated_by(base, d0, max_iterations, damping, a, aw), k) <= get0(
            propagated_by(base, d0, max_iterations, damping, b, aw),
            k,
        ),
        get0(propagated_by(base, d0, max_iterations, damping, b, aw), k) > 0 ==> get0(
            propagated_by(base, d0, max_iterations, damping, a, aw),
            k,
        ) >= get0(propagated_by(base, d0, max_iterations, damping, b, aw), k) - (get0(
            propagated_by(base, d0, max_iterations, damping, b, aw),
            k,
        ) * damping) / 10000,
{
    assert(same_skeleton(a, b)) by {
        assert forall|i: int| 0 <= i < a.len() implies (#[trigger] a[i]).from == b[i].from && a[i].to
            == b[i].to && is_support(a[i].relation) == is_support(b[i].relation) by {
            assert(b[i] == (if a[i].relation is Contradicts {
                EpistemicEdge { relation: Relation::SharedSource, ..a[i] }
            } else {
                a[i]
            }));
        }
    }
    law_cycles_ignore_non_support(a, b);
    let cyc = cyclic_edges(a).to_set();
    assert(same_flow(a, b, cyc)) by {
        assert forall|i: int| 0 <= i < a.len() implies #[trigger] flows(a, cyc, i) == flows(b, cyc, i) by {
            assert(b[i] == (if a[i].relation is Contradicts {
                EpistemicEdge { relation: Relation::SharedSource, ..a[i] }
            } else {
                a[i]
            }));
        }
        assert forall|i: int| 0 <= i < a.len() && #[trigger] flows(a, cyc, i) implies a[i] == b[i] by {
            assert(b[i] == (if a[i].relation is Contradicts {
                EpistemicEdge { relation: Relation::SharedSource, ..a[i] }
            } else {
                a[i]
            }));
        }
    }
    law_support_pass_ignores_contradictions(d0, d0, base, a, b, cyc, aw, max_iterations as nat);
    let stable = pass1(d0, d0, base, a, cyc, aw, max_iterations as nat);
    assert forall|i: int| 0 <= i < b.len() implies !((#[trigger] b[i]).relation is Contradicts) by {
        assert(b[i] == (if a[i].relation is Contradicts {
            EpistemicEdge { relation: Relation::SharedSource, ..a[i] }
        } else {
            a[i]
        }));
    }
    law_no_contradictions_keeps_trust(stable, b, aw, damping);
    lemma_pass1_i32(d0, d0, base, a, cyc, aw, max_iterations as nat);
    assert(i32::MIN <= get0(stable, k) <= i32::MAX);
    law_contradictions_never_raise(stable, a, aw, damping, k);
    if get0(stable, k) > 0 {
        law_contradictions_capped(stable, a, aw, damping, k);
    }
}

/// The two passes from the start `d0` (base trust, possibly decayed),
/// with author weights `aw`, in milli-log-odds.
pub open spec fn propagated_by(
    base: Map<u32, int>,
    d0: Map<u32, int>,
    max_iterations: u8,
    damping: u16,
    edges: Seq<EpistemicEdge>,
    aw: spec_fn(u32) -> int,
) -> Map<u32, int> {
    let cyc = cyclic_edges(edges).to_set();
    let stable = pass1(d0, d0, base, edges, cyc, aw, max_iterations as nat);
    pass2(stable, edges, aw, damping)
}

/// What `propagate_trust_advanced` returns, in milli-log-odds.
pub open spec fn propagated(
    base: Map<u32, int>,
    max_iterations: u8,
    damping: u16,
    edges: Seq<EpistemicEdge>,
    claims: Seq<Claim>,
    rep: spec_fn([u8; 32]) -> Reputation,
    tick: u64,
    half_life: u64,
) -> Map<u32, int> {
    propagated_by(
        base,
        decayed(base, claims, tick, half_life),
        max_iterations,
        damping,
        edges,
        reputation_weight(claims, rep),
    )
}

} // verus!
