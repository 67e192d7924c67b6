//! Exact-match semantic reduction: claims with one fingerprint are merged
//! into a Summary whose identity is a BLAKE3 hash of its statistics.
use vstd::prelude::*;
use crate::crypto::firewall::{blake3_of, SecurityFirewall};
use crate::epistemic::claim::{copy_bytes, fingerprint_eq, Claim, ClaimKind, SemanticFingerprint};
use crate::epistemic::logodds::{
    aggregate_correlated_spec, aggregate_spec, clamp, clamp_safe, correlated_ok, exact_sum, sat_sum,
    lemma_from_milli, lemma_sat_sum_exact,
    lemma_logodds_eq, trunc_div, weight_spec, ClaimHash, CorrelationCell, Evidence, LogOdds,
    Reputation, DEFAULT_DISCOUNT_BPS,
};
use crate::epistemic::reputation::ReputationTracker;
use crate::ordering::hash_eq;
use crate::semantic_topology::{
    claims_at, distinct_ids, id_before, lemma_id_order_total, sort_indices_by_id,
};
use crate::ordering::sort_stable;

verus! {

/// Little-endian encoding of the lowest `n` bytes of `x`.
pub open spec fn le_bytes(x: nat, n: nat) -> Seq<u8>
    decreases n,
{
    if n == 0 {
        Seq::empty()
    } else {
        seq![(x % 256) as u8] + le_bytes(x / 256, (n - 1) as nat)
    }
}

/// Little-endian bytes of a `u64`.
pub fn le_u64(x: u64) -> (r: Vec<u8>)
    ensures
        r@ == le_bytes(x as nat, 8),
{
    let mut r: Vec<u8> = Vec::new();
    let mut y: u64 = x;
    let mut i: usize = 0;
    while i < 8
        invariant
            i <= 8,
            r@ + le_bytes(y as nat, (8 - i) as nat) == le_bytes(x as nat, 8),
        decreases 8 - i,
    {
        let ghost r0 = r@;
        r.push((y % 256) as u8);
        proof {
            assert(le_bytes(y as nat, (8 - i) as nat) == seq![(y % 256) as u8] + le_bytes(
                (y / 256) as nat,
                (8 - i - 1) as nat,
            ));
            assert(r@ + le_bytes((y / 256) as nat, (8 - i - 1) as nat) =~= r0 + le_bytes(
                y as nat,
                (8 - i) as nat,
            ));
        }
        y = y / 256;
        i = i + 1;
    }
    proof {
        assert(r@ + le_bytes(y as nat, 0) =~= r@);
    }
    r
}

/// Little-endian bytes of a `u32`.
pub fn le_u32(x: u32) -> (r: Vec<u8>)
    ensures
        r@ == le_bytes(x as nat, 4),
{
    let mut r: Vec<u8> = Vec::new();
    let mut y: u32 = x;
    let mut i: usize = 0;
    while i < 4
        invariant
            i <= 4,
            r@ + le_bytes(y as nat, (4 - i) as nat) == le_bytes(x as nat, 4),
        decreases 4 - i,
    {
        let ghost r0 = r@;
        r.push((y % 256) as u8);
        proof {
            assert(le_bytes(y as nat, (4 - i) as nat) == seq![(y % 256) as u8] + le_bytes(
                (y / 256) as nat,
                (4 - i - 1) as nat,
            ));
            assert(r@ + le_bytes((y / 256) as nat, (4 - i - 1) as nat) =~= r0 + le_bytes(
                y as nat,
                (4 - i) as nat,
            ));
        }
        y = y / 256;
        i = i + 1;
    }
    proof {
        assert(r@ + le_bytes(y as nat, 0) =~= r@);
    }
    r
}

/// Append `b` to `a`.
pub(crate) fn append_bytes(a: &mut Vec<u8>, b: &Vec<u8>)
    ensures
        final(a)@ == old(a)@ + b@,
{
    let mut i: usize = 0;
    let ghost a0 = a@;
    while i < b.len()
        invariant
            i <= b@.len(),
            a@ == a0 + b@.take(i as int),
        decreases b@.len() - i,
    {
        a.push(b[i]);
        proof {
            assert(b@.take(i + 1) =~= b@.take(i as int).push(b@[i as int]));
            assert(a@ =~= a0 + b@.take(i + 1));
        }
        i = i + 1;
    }
    proof {
        assert(b@.take(i as int) =~= b@);
    }
}

/// Sorted claims with duplicate ids removed (the first of each run kept).
pub open spec fn dedup_ids(s: Seq<Claim>) -> Seq<Claim>
    decreases s.len(),
{
    if s.len() == 0 {
        Seq::empty()
    } else {
        let d = dedup_ids(s.drop_last());
        if d.len() > 0 && d.last().id == s.last().id {
            d
        } else {
            d.push(s.last())
        }
    }
}

/// The claims by ascending id (stable), one per id.
pub open spec fn unique_by_id(claims: Seq<Claim>) -> Seq<Claim> {
    dedup_ids(sort_stable(claims, id_before()))
}

/// All claims share the first claim's fingerprint.
pub open spec fn fingerprints_agree(claims: Seq<Claim>) -> bool {
    forall|i: int| 0 <= i < claims.len() ==> (#[trigger] claims[i]).fingerprint == claims[0].fingerprint
}

/// All claims share the first claim's fingerprint, and there are at least two.
pub open spec fn reducible(claims: Seq<Claim>) -> bool {
    claims.len() >= 2 && fingerprints_agree(claims)
}

/// All claims share the first claim's fingerprint, and there is at least one.
pub open spec fn mergeable(claims: Seq<Claim>) -> bool {
    claims.len() >= 1 && fingerprints_agree(claims)
}

/// Evidence sources seen and confidences kept, one per distinct source.
pub open spec fn source_fold(cs: Seq<Claim>) -> (Seq<ClaimHash>, Seq<LogOdds>)
    decreases cs.len(),
{
    if cs.len() == 0 {
        (Seq::empty(), Seq::empty())
    } else {
        let (srcs, ev) = source_fold(cs.drop_last());
        let c = cs.last();
        if srcs.contains(c.evidence_source) {
            (srcs, ev)
        } else {
            (srcs.push(c.evidence_source), ev.push(c.confidence))
        }
    }
}

/// Sum of squared deviations from `mean`.
pub open spec fn sum_sq(ev: Seq<LogOdds>, mean: int) -> int
    decreases ev.len(),
{
    if ev.len() == 0 {
        0
    } else {
        sum_sq(ev.drop_last(), mean) + (ev.last()@ - mean) * (ev.last()@ - mean)
    }
}

/// Population variance of the evidence around `aggregated / n` (rounded
/// toward zero), rounded down and clamped into `i64`; zero for fewer than two.
pub open spec fn variance_spec(ev: Seq<LogOdds>, aggregated: int) -> int {
    let n = ev.len() as int;
    if n > 1 {
        let mean = trunc_div(aggregated, n);
        clamp(sum_sq(ev, mean) / n, i64::MIN as int, i64::MAX as int)
    } else {
        0
    }
}

pub open spec fn seq_min(ev: Seq<LogOdds>) -> int
    decreases ev.len(),
{
    if ev.len() == 0 {
        0
    } else if ev.len() == 1 {
        ev[0]@ as int
    } else {
        let m = seq_min(ev.drop_last());
        if (ev.last()@ as int) < m {
            ev.last()@ as int
        } else {
            m
        }
    }
}

pub open spec fn seq_max(ev: Seq<LogOdds>) -> int
    decreases ev.len(),
{
    if ev.len() == 0 {
        0
    } else if ev.len() == 1 {
        ev[0]@ as int
    } else {
        let m = seq_max(ev.drop_last());
        if (ev.last()@ as int) > m {
            ev.last()@ as int
        } else {
            m
        }
    }
}

pub open spec fn min_tick(cs: Seq<Claim>) -> int
    decreases cs.len(),
{
    if cs.len() == 0 {
        0
    } else if cs.len() == 1 {
        cs[0].tick as int
    } else {
        let m = min_tick(cs.drop_last());
        if (cs.last().tick as int) < m {
            cs.last().tick as int
        } else {
            m
        }
    }
}

pub open spec fn max_tick(cs: Seq<Claim>) -> int
    decreases cs.len(),
{
    if cs.len() == 0 {
        0
    } else if cs.len() == 1 {
        cs[0].tick as int
    } else {
        let m = max_tick(cs.drop_last());
        if (cs.last().tick as int) > m {
            cs.last().tick as int
        } else {
            m
        }
    }
}

/// The bytes hashed into a Summary's id.
pub open spec fn summary_preimage(
    primary: Seq<u8>,
    unique_sources: u32,
    tick_start: u64,
    tick_end: u64,
    aggregated: i32,
    variance: i64,
    cell: Option<CorrelationCell>,
) -> Seq<u8> {
    let head = primary + le_bytes(unique_sources as nat, 4) + le_bytes(tick_start as nat, 8)
        + le_bytes(tick_end as nat, 8) + le_bytes((aggregated as u32) as nat, 4) + le_bytes(
        (variance as u64) as nat,
        8,
    );
    match cell {
        Some(c) => head + le_bytes(c.0 as nat, 8),
        None => head,
    }
}

/// The values a reduction puts into its Summary.
pub struct SummaryFields {
    pub id: [u8; 32],
    pub fingerprint: SemanticFingerprint,
    pub source_count: u32,
    pub tick_start: u64,
    pub tick_end: u64,
    pub data: Seq<u8>,
    pub aggregated: int,
    pub unique_sources: u32,
    pub variance: int,
    pub range_min: int,
    pub range_max: int,
    pub cell: Option<CorrelationCell>,
}

/// The claim is the Summary with these fields.
pub open spec fn is_summary_with(c: Claim, f: SummaryFields) -> bool {
    &&& c.id == f.id
    &&& c.fingerprint == f.fingerprint
    &&& forall|i: int| 0 <= i < 32 ==> c.origin@[i] == 0
    &&& c.confidence@ == f.aggregated
    &&& c.evidence_source == f.id
    &&& c.tick == f.tick_end
    &&& c.correlation_cell == f.cell
    &&& c.embedding is None
    &&& c.embedding_version == 0
    &&& c.kind matches ClaimKind::Summary {
        source_count,
        tick_start,
        tick_end,
        data,
        aggregated_logodds,
        unique_sources,
        variance_milli,
        range_min,
        range_max,
    } && source_count == f.source_count && tick_start == f.tick_start && tick_end == f.tick_end
        && data@ == f.data && aggregated_logodds@ == f.aggregated && unique_sources
        == f.unique_sources && variance_milli == f.variance && range_min@ == f.range_min
        && range_max@ == f.range_max
}

/// The Summary fields for the claims `cs` (sorted, one per id) of a bucket
/// of `count` claims, given the kept evidence, sources and aggregate.
pub open spec fn summary_fields(
    cs: Seq<Claim>,
    count: nat,
    srcs: Seq<ClaimHash>,
    ev: Seq<LogOdds>,
    aggregated: int,
    data: Seq<u8>,
) -> SummaryFields {
    let first = cs[0];
    let ts = min_tick(cs);
    let te = max_tick(cs);
    let var = variance_spec(ev, aggregated);
    let us = srcs.len() as u32;
    SummaryFields {
        id: blake3_of(
            summary_preimage(
                first.fingerprint.primary@,
                us,
                ts as u64,
                te as u64,
                aggregated as i32,
                var as i64,
                first.correlation_cell,
            ),
        ),
        fingerprint: first.fingerprint,
        source_count: count as u32,
        tick_start: ts as u64,
        tick_end: te as u64,
        data,
        aggregated,
        unique_sources: us,
        variance: var,
        range_min: if ev.len() > 0 { seq_min(ev) } else { 0 },
        range_max: if ev.len() > 0 { seq_max(ev) } else { 0 },
        cell: first.correlation_cell,
    }
}

/// The Summary with the widest window (then the highest aggregate) among
/// the summaries of `cs`; the last one among equals.
pub open spec fn best_summary(cs: Seq<Claim>) -> Option<Claim>
    decreases cs.len(),
{
    if cs.len() == 0 {
        None
    } else {
        let b = best_summary(cs.drop_last());
        let c = cs.last();
        if c.kind is Summary && (b is None || summary_key_ge(c, b->0)) {
            Some(c)
        } else {
            b
        }
    }
}

pub open spec fn window(c: Claim) -> int {
    match c.kind {
        ClaimKind::Summary { tick_start, tick_end, .. } => tick_end - tick_start,
        _ => 0,
    }
}

pub open spec fn summary_level(c: Claim) -> int {
    match c.kind {
        ClaimKind::Summary { aggregated_logodds, .. } => aggregated_logodds@ as int,
        _ => 0,
    }
}

pub open spec fn summary_key_ge(a: Claim, b: Claim) -> bool {
    window(a) > window(b) || (window(a) == window(b) && summary_level(a) >= summary_level(b))
}

pub open spec fn kind_data(k: ClaimKind) -> Seq<u8> {
    match k {
        ClaimKind::Observation { data, .. } => data@,
        ClaimKind::Summary { data, .. } => data@,
        _ => Seq::empty(),
    }
}

/// Every Summary among `cs` has its window's end at or after its start.
pub open spec fn windows_ordered(cs: Seq<Claim>) -> bool {
    forall|i: int|
        0 <= i < cs.len() ==> ((#[trigger] cs[i]).kind matches ClaimKind::Summary {
            tick_start,
            tick_end,
            ..
        } ==> tick_start <= tick_end)
}

/// The inputs on which `reduce` is defined: when the merged claims start
/// with a Summary, summary windows are compared by length, which needs each
/// window's end at or after its start.
pub open spec fn reduce_defined(claims: Seq<Claim>) -> bool {
    &&& claims.len() <= isize::MAX
    &&& (mergeable(claims) && unique_by_id(claims)[0].kind is Summary) ==> windows_ordered(
        unique_by_id(claims),
    )
}

/// The fields of the Summary that `reduce` returns, if any.
pub open spec fn reduce_fields(claims: Seq<Claim>) -> Option<SummaryFields> {
    if !mergeable(claims) {
        None
    } else {
        let cs = unique_by_id(claims);
        let (srcs, ev) = source_fold(cs);
        let agg = aggregate_spec(ev);
        match cs[0].kind {
            ClaimKind::Observation { data, .. } => Some(
                summary_fields(cs, cs.len(), srcs, ev, agg, data@),
            ),
            ClaimKind::Summary { .. } => Some(
                summary_fields(cs, cs.len(), srcs, ev, agg, kind_data(best_summary(cs)->0.kind)),
            ),
            _ => None,
        }
    }
}

/// At least `min` selected claims, all with the first one's fingerprint.
fn can_reduce_exec(claims: &[Claim], sel: &Vec<usize>, min: usize) -> (r: bool)
    requires
        forall|k: int| 0 <= k < sel@.len() ==> sel@[k] < claims@.len(),
        min >= 1,
    ensures
        r == (sel@.len() >= min && fingerprints_agree(claims_at(claims@, sel@))),
{
    let ghost cs = claims_at(claims@, sel@);
    if sel.len() < min {
        return false;
    }
    let f0 = &claims[sel[0]].fingerprint;
    proof {
        assert(cs[0] == claims@[sel@[0] as int]);
    }
    let mut i: usize = 0;
    while i < sel.len()
        invariant
            cs == claims_at(claims@, sel@),
            forall|k: int| 0 <= k < sel@.len() ==> sel@[k] < claims@.len(),
            sel@.len() >= 1,
            *f0 == cs[0].fingerprint,
            i <= sel@.len(),
            forall|j: int| 0 <= j < i ==> (#[trigger] cs[j]).fingerprint == cs[0].fingerprint,
        decreases sel@.len() - i,
    {
        proof {
            assert(cs[i as int] == claims@[sel@[i as int] as int]);
        }
        if !fingerprint_eq(&claims[sel[i]].fingerprint, f0) {
            return false;
        }
        i = i + 1;
    }
    true
}

/// Indices of the selected claims by ascending id, one per id.
fn unique_order(claims: &[Claim], sel: &Vec<usize>) -> (r: Vec<usize>)
    requires
        forall|k: int| 0 <= k < sel@.len() ==> sel@[k] < claims@.len(),
    ensures
        claims_at(claims@, r@) == unique_by_id(claims_at(claims@, sel@)),
        forall|k: int| 0 <= k < r@.len() ==> r@[k] < claims@.len(),
        sel@.len() > 0 ==> r@.len() > 0,
{
    let order = sort_indices_by_id(claims, sel);
    let mut res: Vec<usize> = Vec::new();
    let mut k: usize = 0;
    while k < order.len()
        invariant
            k <= order@.len(),
            forall|t: int| 0 <= t < order@.len() ==> order@[t] < claims@.len(),
            forall|t: int| 0 <= t < res@.len() ==> res@[t] < claims@.len(),
            claims_at(claims@, res@) == dedup_ids(claims_at(claims@, order@.take(k as int))),
            k > 0 ==> res@.len() > 0,
        decreases order@.len() - k,
    {
        let x = order[k];
        let ghost r0 = res@;
        proof {
            assert(claims_at(claims@, order@.take(k + 1)).drop_last() =~= claims_at(
                claims@,
                order@.take(k as int),
            ));
            assert(claims_at(claims@, order@.take(k + 1)).last() == claims@[x as int]);
        }
        let keep = if res.len() == 0 {
            true
        } else {
            let last = res[res.len() - 1];
            proof {
                assert(claims_at(claims@, res@).last() == claims@[last as int]);
            }
            !hash_eq(&claims[last].id, &claims[x].id)
        };
        if keep {
            res.push(x);
            proof {
                assert(claims_at(claims@, res@) =~= claims_at(claims@, r0).push(claims@[x as int]));
            }
        }
        k = k + 1;
    }
    proof {
        assert(order@.take(k as int) =~= order@);
    }
    res
}

/// Evidence sources and the confidences kept, one per distinct source.
fn source_evidence(claims: &[Claim], us: &Vec<usize>) -> (r: (Vec<ClaimHash>, Vec<LogOdds>))
    requires
        forall|k: int| 0 <= k < us@.len() ==> us@[k] < claims@.len(),
    ensures
        (r.0@, r.1@) == source_fold(claims_at(claims@, us@)),
        r.1@.len() <= us@.len(),
        r.0@.len() == r.1@.len(),
{
    let mut srcs: Vec<ClaimHash> = Vec::new();
    let mut ev: Vec<LogOdds> = Vec::new();
    let mut k: usize = 0;
    while k < us.len()
        invariant
            k <= us@.len(),
            forall|t: int| 0 <= t < us@.len() ==> us@[t] < claims@.len(),
            (srcs@, ev@) == source_fold(claims_at(claims@, us@.take(k as int))),
            ev@.len() <= k,
            srcs@.len() == ev@.len(),
        decreases us@.len() - k,
    {
        let c = &claims[us[k]];
        proof {
            assert(claims_at(claims@, us@.take(k + 1)).drop_last() =~= claims_at(
                claims@,
                us@.take(k as int),
            ));
            assert(claims_at(claims@, us@.take(k + 1)).last() == claims@[us@[k as int] as int]);
        }
        let mut seen = false;
        let mut j: usize = 0;
        while j < srcs.len()
            invariant
                j <= srcs@.len(),
                seen == exists|t: int| 0 <= t < j && srcs@[t] == c.evidence_source,
            decreases srcs@.len() - j,
        {
            if hash_eq(&srcs[j], &c.evidence_source) {
                seen = true;
            }
            j = j + 1;
        }
        if !seen {
            srcs.push(c.evidence_source);
            ev.push(c.confidence);
        }
        k = k + 1;
    }
    proof {
        assert(us@.take(k as int) =~= us@);
    }
    (srcs, ev)
}

proof fn lemma_sum_sq_bound(ev: Seq<LogOdds>, mean: int)
    requires
        -0x8000_0000 <= mean <= 0x8000_0000,
    ensures
        0 <= sum_sq(ev, mean) <= ev.len() * 0x1_0000_0000 * 0x1_0000_0000,
    decreases ev.len(),
{
    if ev.len() > 0 {
        lemma_sum_sq_bound(ev.drop_last(), mean);
        let d = ev.last()@ - mean;
        assert(0 <= d * d <= 0x1_0000_0000 * 0x1_0000_0000) by (nonlinear_arith)
            requires
                -0x1_0000_0000 <= d <= 0x1_0000_0000,
        ;
    }
}

/// Variance of the evidence around the aggregate's mean.
fn variance_of(ev: &Vec<LogOdds>, aggregated: i32) -> (r: i64)
    requires
        ev@.len() <= isize::MAX,
    ensures
        r == variance_spec(ev@, aggregated as int),
{
    let n = ev.len();
    if n <= 1 {
        return 0;
    }
    let n128 = n as i128;
    let mean: i128 = (aggregated as i128) / n128;
    assert(-0x8000_0000 <= mean <= 0x8000_0000) by (nonlinear_arith)
        requires
            mean as int == trunc_div(aggregated as int, n as int),
            n > 1,
            i32::MIN <= aggregated <= i32::MAX,
    ;
    proof {
        lemma_sum_sq_bound(ev@, mean as int);
    }
    let mut sum: i128 = 0;
    let mut i: usize = 0;
    while i < n
        invariant
            n == ev@.len(),
            n <= isize::MAX,
            -0x8000_0000 <= mean <= 0x8000_0000,
            i <= n,
            sum == sum_sq(ev@.take(i as int), mean as int),
        decreases n - i,
    {
        proof {
            assert(ev@.take(i + 1).drop_last() =~= ev@.take(i as int));
            assert(ev@.take(i + 1).last() == ev@[i as int]);
            lemma_sum_sq_bound(ev@.take(i + 1), mean as int);
            assert((i + 1) * 0x1_0000_0000 * 0x1_0000_0000 <= 0x7fff_ffff_ffff_ffff
                * 0x1_0000_0000 * 0x1_0000_0000) by (nonlinear_arith)
                requires
                    i + 1 <= 0x7fff_ffff_ffff_ffff,
            ;
        }
        let diff: i128 = (ev[i].value() as i128) - mean;
        assert(0 <= diff * diff <= 0x1_0000_0000 * 0x1_0000_0000) by (nonlinear_arith)
            requires
                -0x1_0000_0000 <= diff <= 0x1_0000_0000,
        ;
        proof {
            assert(sum_sq(ev@.take(i + 1), mean as int) == sum + diff * diff);
            assert(isize::MAX <= 0x7fff_ffff_ffff_ffff);
            assert(sum + diff * diff <= 0x7fff_ffff_ffff_ffff * 0x1_0000_0000 * 0x1_0000_0000);
        }
        sum = sum + diff * diff;
        i = i + 1;
    }
    proof {
        assert(ev@.take(i as int) =~= ev@);
    }
    let q = sum / n128;
    if q < i64::MIN as i128 {
        i64::MIN
    } else if q > i64::MAX as i128 {
        i64::MAX
    } else {
        q as i64
    }
}

/// Smallest and largest evidence values (zero for no evidence).
fn evidence_range(ev: &Vec<LogOdds>) -> (r: (i32, i32))
    ensures
        ev@.len() > 0 ==> r.0 == seq_min(ev@) && r.1 == seq_max(ev@),
        ev@.len() == 0 ==> r.0 == 0 && r.1 == 0,
{
    if ev.len() == 0 {
        return (0, 0);
    }
    let mut lo = ev[0].value();
    let mut hi = ev[0].value();
    let mut i: usize = 1;
    while i < ev.len()
        invariant
            1 <= i <= ev@.len(),
            lo == seq_min(ev@.take(i as int)),
            hi == seq_max(ev@.take(i as int)),
        decreases ev@.len() - i,
    {
        proof {
            assert(ev@.take(i + 1).drop_last() =~= ev@.take(i as int));
        }
        let v = ev[i].value();
        if v < lo {
            lo = v;
        }
        if v > hi {
            hi = v;
        }
        i = i + 1;
    }
    proof {
        assert(ev@.take(i as int) =~= ev@);
    }
    (lo, hi)
}

/// Earliest and latest tick of the claims at the given indices.
fn tick_range(claims: &[Claim], us: &Vec<usize>) -> (r: (u64, u64))
    requires
        forall|k: int| 0 <= k < us@.len() ==> us@[k] < claims@.len(),
    ensures
        r.0 == min_tick(claims_at(claims@, us@)),
        r.1 == max_tick(claims_at(claims@, us@)),
{
    if us.len() == 0 {
        return (0, 0);
    }
    let mut lo = claims[us[0]].tick;
    let mut hi = lo;
    let mut i: usize = 1;
    proof {
        assert(claims_at(claims@, us@.take(1))[0] == claims@[us@[0] as int]);
    }
    while i < us.len()
        invariant
            1 <= i <= us@.len(),
            forall|k: int| 0 <= k < us@.len() ==> us@[k] < claims@.len(),
            lo == min_tick(claims_at(claims@, us@.take(i as int))),
            hi == max_tick(claims_at(claims@, us@.take(i as int))),
        decreases us@.len() - i,
    {
        proof {
            assert(claims_at(claims@, us@.take(i + 1)).drop_last() =~= claims_at(
                claims@,
                us@.take(i as int),
            ));
            assert(claims_at(claims@, us@.take(i + 1)).last() == claims@[us@[i as int] as int]);
        }
        let t = claims[us[i]].tick;
        if t < lo {
            lo = t;
        }
        if t > hi {
            hi = t;
        }
        i = i + 1;
    }
    proof {
        assert(us@.take(i as int) =~= us@);
    }
    (lo, hi)
}

/// The id of a Summary: BLAKE3 of its statistics.
fn summary_id(
    first: &Claim,
    unique_sources: u32,
    tick_start: u64,
    tick_end: u64,
    aggregated: i32,
    variance: i64,
) -> (r: [u8; 32])
    ensures
        r == blake3_of(
            summary_preimage(
                first.fingerprint.primary@,
                unique_sources,
                tick_start,
                tick_end,
                aggregated,
                variance,
                first.correlation_cell,
            ),
        ),
{
    let mut bytes: Vec<u8> = Vec::new();
    let mut i: usize = 0;
    while i < 16
        invariant
            i <= 16,
            first.fingerprint.primary@.len() == 16,
            bytes@ == first.fingerprint.primary@.take(i as int),
        decreases 16 - i,
    {
        bytes.push(first.fingerprint.primary[i]);
        proof {
            assert(first.fingerprint.primary@.take(i + 1) =~= first.fingerprint.primary@.take(
                i as int,
            ).push(first.fingerprint.primary@[i as int]));
        }
        i = i + 1;
    }
    proof {
        assert(first.fingerprint.primary@.take(16) =~= first.fingerprint.primary@);
    }
    append_bytes(&mut bytes, &le_u32(unique_sources));
    append_bytes(&mut bytes, &le_u64(tick_start));
    append_bytes(&mut bytes, &le_u64(tick_end));
    append_bytes(&mut bytes, &le_u32(aggregated as u32));
    append_bytes(&mut bytes, &le_u64(variance as u64));
    match first.correlation_cell {
        Some(c) => {
            append_bytes(&mut bytes, &le_u64(c.0));
        },
        None => {},
    }
    SecurityFirewall::hash(bytes.as_slice())
}

/// The data of the best Summary among the claims at the given indices.
fn best_summary_data(claims: &[Claim], us: &Vec<usize>) -> (r: Vec<u8>)
    requires
        forall|k: int| 0 <= k < us@.len() ==> us@[k] < claims@.len(),
        windows_ordered(claims_at(claims@, us@)),
    ensures
        best_summary(claims_at(claims@, us@)) is Some ==> r@ == kind_data(
            best_summary(claims_at(claims@, us@))->0.kind,
        ),
{
    let ghost cs = claims_at(claims@, us@);
    let mut best: Option<usize> = None;
    let mut bw: u64 = 0;
    let mut bl: i32 = 0;
    let mut k: usize = 0;
    while k < us.len()
        invariant
            cs == claims_at(claims@, us@),
            forall|t: int| 0 <= t < us@.len() ==> us@[t] < claims@.len(),
            windows_ordered(cs),
            k <= us@.len(),
            best matches Some(b) ==> b < claims@.len() && best_summary(cs.take(k as int)) == Some(
                claims@[b as int],
            ) && bw == window(claims@[b as int]) && bl == summary_level(claims@[b as int]),
            best is None ==> best_summary(cs.take(k as int)) is None,
        decreases us@.len() - k,
    {
        let i = us[k];
        proof {
            assert(cs.take(k + 1).drop_last() =~= cs.take(k as int));
            assert(cs.take(k + 1).last() == claims@[i as int]);
            assert(cs[k as int] == claims@[i as int]);
        }
        match &claims[i].kind {
            ClaimKind::Summary { tick_start, tick_end, aggregated_logodds, .. } => {
                let w = *tick_end - *tick_start;
                let l = aggregated_logodds.value();
                let better = match best {
                    None => true,
                    Some(_) => w > bw || (w == bw && l >= bl),
                };
                if better {
                    best = Some(i);
                    bw = w;
                    bl = l;
                }
            },
            _ => {},
        }
        k = k + 1;
    }
    proof {
        assert(cs.take(k as int) =~= cs);
        lemma_best_summary_kind(cs);
    }
    match best {
        Some(b) => match &claims[b].kind {
            ClaimKind::Summary { data, .. } => copy_bytes(data),
            _ => Vec::new(),
        },
        None => Vec::new(),
    }
}

proof fn lemma_best_summary_some(cs: Seq<Claim>, i: int)
    requires
        0 <= i < cs.len(),
        cs[i].kind is Summary,
    ensures
        best_summary(cs) is Some,
        best_summary(cs)->0.kind is Summary,
    decreases cs.len(),
{
    lemma_best_summary_kind(cs.drop_last());
    if i < cs.len() - 1 {
        lemma_best_summary_some(cs.drop_last(), i);
    }
}

proof fn lemma_best_summary_kind(cs: Seq<Claim>)
    ensures
        best_summary(cs) is Some ==> best_summary(cs)->0.kind is Summary,
    decreases cs.len(),
{
    if cs.len() > 0 {
        lemma_best_summary_kind(cs.drop_last());
    }
}

/// Reduce the claims at the given indices.
fn reduce_at(claims: &[Claim], sel: &Vec<usize>) -> (r: Option<Claim>)
    requires
        forall|k: int| 0 <= k < sel@.len() ==> sel@[k] < claims@.len(),
        reduce_defined(claims_at(claims@, sel@)),
    ensures
        match reduce_fields(claims_at(claims@, sel@)) {
            None => r is None,
            Some(f) => r matches Some(c) && is_summary_with(c, f),
        },
{
    let ghost all = claims_at(claims@, sel@);
    if !can_reduce_exec(claims, sel, 1) {
        return None;
    }
    let us = unique_order(claims, sel);
    let ghost cs = claims_at(claims@, us@);
    let first = &claims[us[0]];
    proof {
        assert(cs[0] == claims@[us@[0] as int]);
    }
    let data = match &first.kind {
        ClaimKind::Observation { data, .. } => copy_bytes(data),
        ClaimKind::Summary { .. } => {
            proof {
                lemma_best_summary_some(cs, 0);
            }
            best_summary_data(claims, &us)
        },
        _ => {
            return None;
        },
    };
    let (srcs, ev) = source_evidence(claims, &us);
    let aggregated = LogOdds::aggregate(ev.as_slice());
    proof {
        assert(us@.len() <= all.len()) by {
            crate::ordering::lemma_sort_len(all, id_before());
            lemma_dedup_len(sort_stable(all, id_before()));
        }
    }
    let variance = variance_of(&ev, aggregated.value());
    let (range_min, range_max) = evidence_range(&ev);
    let (tick_start, tick_end) = tick_range(claims, &us);
    let unique_sources = srcs.len() as u32;
    let id = summary_id(first, unique_sources, tick_start, tick_end, aggregated.value(), variance);
    Some(
        Claim {
            id,
            fingerprint: first.fingerprint,
            origin: [0u8; 32],
            kind: ClaimKind::Summary {
                source_count: us.len() as u32,
                tick_start,
                tick_end,
                data,
                aggregated_logodds: aggregated,
                unique_sources,
                variance_milli: variance,
                range_min: LogOdds::new(range_min),
                range_max: LogOdds::new(range_max),
            },
            confidence: aggregated,
            evidence_source: id,
            tick: tick_end,
            correlation_cell: first.correlation_cell,
            embedding: None,
            embedding_version: 0,
        },
    )
}

proof fn lemma_dedup_len(s: Seq<Claim>)
    ensures
        dedup_ids(s).len() <= s.len(),
    decreases s.len(),
{
    if s.len() > 0 {
        lemma_dedup_len(s.drop_last());
    }
}

/// Evidence kept by the reputation-aware reduction: claims of authors with
/// zero reputation are dropped; of the rest, one per distinct source, with
/// its confidence weighted by its author's reputation.
pub open spec fn rep_fold(cs: Seq<Claim>, rep: spec_fn([u8; 32]) -> Reputation) -> (
    Seq<ClaimHash>,
    Seq<Evidence>,
)
    decreases cs.len(),
{
    if cs.len() == 0 {
        (Seq::empty(), Seq::empty())
    } else {
        let (srcs, ev) = rep_fold(cs.drop_last(), rep);
        let c = cs.last();
        let r = rep(c.origin)@ as int;
        if r == 0 || srcs.contains(c.evidence_source) {
            (srcs, ev)
        } else {
            (
                srcs.push(c.evidence_source),
                ev.push(
                    (
                        LogOdds::from_milli(weight_spec(r, c.confidence@ as int)),
                        c.correlation_cell,
                        c.id,
                    ),
                ),
            )
        }
    }
}

/// The log-odds of each piece of evidence.
pub open spec fn evidence_values(ev: Seq<Evidence>) -> Seq<LogOdds> {
    ev.map_values(|e: Evidence| e.0)
}

/// The reduction starts from a claim whose data it can carry.
pub open spec fn carries_data(k: ClaimKind) -> bool {
    k is Observation || k is Summary
}

/// The inputs on which the reputation-aware reduction is defined: ranking
/// within a correlation cell must not overflow.
pub open spec fn reduce_rep_defined(
    claims: Seq<Claim>,
    rep: spec_fn([u8; 32]) -> Reputation,
    discount_bps: u16,
) -> bool {
    &&& claims.len() <= isize::MAX
    &&& (reducible(claims) && carries_data(unique_by_id(claims)[0].kind)) ==> correlated_ok(
        rep_fold(unique_by_id(claims), rep).1,
        discount_bps,
    )
}

/// The fields of the Summary that the reputation-aware reduction returns, if any.
pub open spec fn reduce_rep_fields(
    claims: Seq<Claim>,
    rep: spec_fn([u8; 32]) -> Reputation,
    discount_bps: u16,
) -> Option<SummaryFields> {
    if !reducible(claims) {
        None
    } else {
        let cs = unique_by_id(claims);
        let (srcs, ev) = rep_fold(cs, rep);
        if !carries_data(cs[0].kind) || ev.len() == 0 {
            None
        } else {
            let agg = aggregate_correlated_spec(ev, discount_bps);
            Some(
                summary_fields(
                    cs,
                    claims.len(),
                    srcs,
                    evidence_values(ev),
                    agg,
                    kind_data(cs[0].kind),
                ),
            )
        }
    }
}

fn rep_evidence<R: ReputationTracker>(claims: &[Claim], us: &Vec<usize>, reputations: &R) -> (r: (
    Vec<ClaimHash>,
    Vec<Evidence>,
))
    requires
        forall|k: int| 0 <= k < us@.len() ==> us@[k] < claims@.len(),
    ensures
        (r.0@, r.1@) == rep_fold(claims_at(claims@, us@), |o: [u8; 32]| reputations.reputation_of(o)),
        r.1@.len() <= us@.len(),
{
    let ghost rep = |o: [u8; 32]| reputations.reputation_of(o);
    let mut srcs: Vec<ClaimHash> = Vec::new();
    let mut ev: Vec<Evidence> = Vec::new();
    let mut k: usize = 0;
    while k < us.len()
        invariant
            k <= us@.len(),
            rep == (|o: [u8; 32]| reputations.reputation_of(o)),
            forall|t: int| 0 <= t < us@.len() ==> us@[t] < claims@.len(),
            (srcs@, ev@) == rep_fold(claims_at(claims@, us@.take(k as int)), rep),
            ev@.len() <= k,
        decreases us@.len() - k,
    {
        let c = &claims[us[k]];
        proof {
            assert(claims_at(claims@, us@.take(k + 1)).drop_last() =~= claims_at(
                claims@,
                us@.take(k as int),
            ));
            assert(claims_at(claims@, us@.take(k + 1)).last() == claims@[us@[k as int] as int]);
        }
        let r = reputations.reputation(&c.origin);
        if r.bps() != 0 {
            let mut seen = false;
            let mut j: usize = 0;
            while j < srcs.len()
                invariant
                    j <= srcs@.len(),
                    seen == exists|t: int| 0 <= t < j && srcs@[t] == c.evidence_source,
                decreases srcs@.len() - j,
            {
                if hash_eq(&srcs[j], &c.evidence_source) {
                    seen = true;
                }
                j = j + 1;
            }
            if !seen {
                let w = r.weight_evidence(c.confidence);
                proof {
                    lemma_from_milli(weight_spec(r@ as int, c.confidence@ as int));
                    lemma_logodds_eq(
                        w,
                        LogOdds::from_milli(weight_spec(r@ as int, c.confidence@ as int)),
                    );
                }
                srcs.push(c.evidence_source);
                ev.push((w, c.correlation_cell, c.id));
            }
        }
        k = k + 1;
    }
    proof {
        assert(us@.take(k as int) =~= us@);
    }
    (srcs, ev)
}

/// Reputation-aware reduction of the claims at the given indices.
fn reduce_rep_at<R: ReputationTracker>(
    claims: &[Claim],
    sel: &Vec<usize>,
    reputations: &R,
    discount_bps: u16,
) -> (r: Option<Claim>)
    requires
        forall|k: int| 0 <= k < sel@.len() ==> sel@[k] < claims@.len(),
        reduce_rep_defined(
            claims_at(claims@, sel@),
            |o: [u8; 32]| reputations.reputation_of(o),
            discount_bps,
        ),
    ensures
        match reduce_rep_fields(
            claims_at(claims@, sel@),
            |o: [u8; 32]| reputations.reputation_of(o),
            discount_bps,
        ) {
            None => r is None,
            Some(f) => r matches Some(c) && is_summary_with(c, f),
        },
{
    let ghost all = claims_at(claims@, sel@);
    if !can_reduce_exec(claims, sel, 2) {
        return None;
    }
    let us = unique_order(claims, sel);
    let ghost cs = claims_at(claims@, us@);
    let first = &claims[us[0]];
    proof {
        assert(cs[0] == claims@[us@[0] as int]);
    }
    let data = match &first.kind {
        ClaimKind::Observation { data, .. } => copy_bytes(data),
        ClaimKind::Summary { data, .. } => copy_bytes(data),
        _ => {
            return None;
        },
    };
    let (srcs, tuples) = rep_evidence(claims, &us, reputations);
    if tuples.len() == 0 {
        return None;
    }
    let aggregated = LogOdds::aggregate_correlated(tuples.as_slice(), discount_bps);
    let mut ev: Vec<LogOdds> = Vec::new();
    let mut i: usize = 0;
    while i < tuples.len()
        invariant
            i <= tuples@.len(),
            ev@ == evidence_values(tuples@.take(i as int)),
        decreases tuples@.len() - i,
    {
        ev.push(tuples[i].0);
        proof {
            assert(evidence_values(tuples@.take(i + 1)) =~= evidence_values(
                tuples@.take(i as int),
            ).push(tuples@[i as int].0));
        }
        i = i + 1;
    }
    proof {
        assert(tuples@.take(i as int) =~= tuples@);
        assert(us@.len() <= all.len()) by {
            crate::ordering::lemma_sort_len(all, id_before());
            lemma_dedup_len(sort_stable(all, id_before()));
        }
    }
    let variance = variance_of(&ev, aggregated.value());
    let (range_min, range_max) = evidence_range(&ev);
    let (tick_start, tick_end) = tick_range(claims, &us);
    let unique_sources = srcs.len() as u32;
    let id = summary_id(first, unique_sources, tick_start, tick_end, aggregated.value(), variance);
    Some(
        Claim {
            id,
            fingerprint: first.fingerprint,
            origin: [0u8; 32],
            kind: ClaimKind::Summary {
                source_count: sel.len() as u32,
                tick_start,
                tick_end,
                data,
                aggregated_logodds: aggregated,
                unique_sources,
                variance_milli: variance,
                range_min: LogOdds::new(range_min),
                range_max: LogOdds::new(range_max),
            },
            confidence: aggregated,
            evidence_source: id,
            tick: tick_end,
            correlation_cell: first.correlation_cell,
            embedding: None,
            embedding_version: 0,
        },
    )
}

/// Indices `0..n`.
fn all_indices(n: usize) -> (r: Vec<usize>)
    ensures
        r@.len() == n,
        forall|k: int| 0 <= k < n ==> r@[k] == k,
{
    let mut idx: Vec<usize> = Vec::new();
    let mut i: usize = 0;
    while i < n
        invariant
            i <= n,
            idx@.len() == i,
            forall|k: int| 0 <= k < i ==> idx@[k] == k,
        decreases n - i,
    {
        idx.push(i);
        i = i + 1;
    }
    idx
}

/// A bucket of the epoch-aligned reduction: time cell and correlation cell.
pub type BucketKey = (u64, Option<u64>);

pub open spec fn bucket_of(c: Claim, grid: u64) -> BucketKey {
    (
        (c.tick / grid) as u64,
        match c.correlation_cell {
            Some(x) => Some(x.0),
            None => None,
        },
    )
}

/// Bucket order: by time cell, then by correlation cell (none first).
pub open spec fn bucket_lt(a: BucketKey, b: BucketKey) -> bool {
    a.0 < b.0 || (a.0 == b.0 && match (a.1, b.1) {
        (None, Some(_)) => true,
        (Some(x), Some(y)) => x < y,
        _ => false,
    })
}

pub open spec fn count_bucket_lt(ks: Seq<BucketKey>, k: BucketKey) -> nat
    decreases ks.len(),
{
    if ks.len() == 0 {
        0
    } else {
        count_bucket_lt(ks.drop_last(), k) + (if bucket_lt(ks.last(), k) {
            1nat
        } else {
            0nat
        })
    }
}

/// The distinct buckets of the first `n` claims, in bucket order.
pub open spec fn bucket_keys(claims: Seq<Claim>, grid: u64, n: int) -> Seq<BucketKey>
    decreases n,
{
    if n <= 0 {
        Seq::empty()
    } else {
        let ks = bucket_keys(claims, grid, n - 1);
        let k = bucket_of(claims[n - 1], grid);
        if ks.contains(k) {
            ks
        } else {
            let p = count_bucket_lt(ks, k) as int;
            ks.take(p) + seq![k] + ks.skip(p)
        }
    }
}

/// Indices of the first `n` claims in bucket `k`, ascending.
pub open spec fn bucket_members(claims: Seq<Claim>, grid: u64, k: BucketKey, n: int) -> Seq<usize>
    decreases n,
{
    if n <= 0 {
        Seq::empty()
    } else if bucket_of(claims[n - 1], grid) == k {
        bucket_members(claims, grid, k, n - 1).push((n - 1) as usize)
    } else {
        bucket_members(claims, grid, k, n - 1)
    }
}

/// The claims of bucket `k`, in input order.
pub open spec fn bucket_claims(claims: Seq<Claim>, grid: u64, k: BucketKey) -> Seq<Claim> {
    claims_at(claims, bucket_members(claims, grid, k, claims.len() as int))
}

/// Every bucket can be reduced (with reputations when `with_rep`).
pub open spec fn epoch_defined(
    claims: Seq<Claim>,
    grid: u64,
    with_rep: bool,
    rep: spec_fn([u8; 32]) -> Reputation,
    discount_bps: u16,
) -> bool {
    grid > 0 && claims.len() >= 2 ==> forall|k: BucketKey|
        #![trigger bucket_claims(claims, grid, k)]
        bucket_keys(claims, grid, claims.len() as int).contains(k) ==> if with_rep {
            reduce_rep_defined(bucket_claims(claims, grid, k), rep, discount_bps)
        } else {
            reduce_defined(bucket_claims(claims, grid, k))
        }
}

/// The Summaries of the first `j` buckets, those that reduce.
pub open spec fn epoch_fields(
    claims: Seq<Claim>,
    grid: u64,
    with_rep: bool,
    rep: spec_fn([u8; 32]) -> Reputation,
    discount_bps: u16,
    j: int,
) -> Seq<SummaryFields>
    decreases j,
{
    if j <= 0 {
        Seq::empty()
    } else {
        let prev = epoch_fields(claims, grid, with_rep, rep, discount_bps, j - 1);
        let k = bucket_keys(claims, grid, claims.len() as int)[j - 1];
        let b = bucket_claims(claims, grid, k);
        let f = if with_rep {
            reduce_rep_fields(b, rep, discount_bps)
        } else if reducible(b) {
            reduce_fields(b)
        } else {
            None
        };
        match f {
            Some(x) => prev.push(x),
            None => prev,
        }
    }
}

/// What the epoch-aligned reduction returns.
pub open spec fn epoch_reduction(
    claims: Seq<Claim>,
    grid: u64,
    with_rep: bool,
    rep: spec_fn([u8; 32]) -> Reputation,
    discount_bps: u16,
) -> Seq<SummaryFields> {
    if grid == 0 || claims.len() < 2 {
        Seq::empty()
    } else {
        let ks = bucket_keys(claims, grid, claims.len() as int);
        epoch_fields(claims, grid, with_rep, rep, discount_bps, ks.len() as int)
    }
}

fn bucket_of_exec(c: &Claim, grid: u64) -> (r: BucketKey)
    requires
        grid > 0,
    ensures
        r == bucket_of(*c, grid),
{
    (c.tick / grid, match c.correlation_cell {
        Some(x) => Some(x.0),
        None => None,
    })
}

fn bucket_eq(a: BucketKey, b: BucketKey) -> (r: bool)
    ensures
        r == (a == b),
{
    a.0 == b.0 && match (a.1, b.1) {
        (None, None) => true,
        (Some(x), Some(y)) => x == y,
        _ => false,
    }
}

fn bucket_less(a: BucketKey, b: BucketKey) -> (r: bool)
    ensures
        r == bucket_lt(a, b),
{
    a.0 < b.0 || (a.0 == b.0 && match (a.1, b.1) {
        (None, Some(_)) => true,
        (Some(x), Some(y)) => x < y,
        _ => false,
    })
}

fn bucket_keys_exec(claims: &[Claim], grid: u64) -> (r: Vec<BucketKey>)
    requires
        grid > 0,
    ensures
        r@ == bucket_keys(claims@, grid, claims@.len() as int),
{
    let mut ks: Vec<BucketKey> = Vec::new();
    let mut i: usize = 0;
    while i < claims.len()
        invariant
            grid > 0,
            i <= claims@.len(),
            ks@ == bucket_keys(claims@, grid, i as int),
        decreases claims@.len() - i,
    {
        let k = bucket_of_exec(&claims[i], grid);
        let mut found = false;
        let mut c: usize = 0;
        let mut j: usize = 0;
        while j < ks.len()
            invariant
                j <= ks@.len(),
                found == exists|t: int| 0 <= t < j && ks@[t] == k,
                c == count_bucket_lt(ks@.take(j as int), k),
                c <= j,
            decreases ks@.len() - j,
        {
            proof {
                assert(ks@.take(j + 1).drop_last() =~= ks@.take(j as int));
                assert(ks@.take(j + 1).last() == ks@[j as int]);
            }
            if bucket_eq(ks[j], k) {
                found = true;
            }
            if bucket_less(ks[j], k) {
                c = c + 1;
            }
            j = j + 1;
        }
        proof {
            assert(ks@.take(j as int) =~= ks@);
        }
        if !found {
            ks.insert(c, k);
            proof {
                assert(ks@ =~= bucket_keys(claims@, grid, i as int).take(c as int) + seq![k]
                    + bucket_keys(claims@, grid, i as int).skip(c as int));
            }
        }
        i = i + 1;
    }
    ks
}

fn bucket_members_exec(claims: &[Claim], grid: u64, k: BucketKey) -> (r: Vec<usize>)
    requires
        grid > 0,
    ensures
        r@ == bucket_members(claims@, grid, k, claims@.len() as int),
        forall|t: int| 0 <= t < r@.len() ==> r@[t] < claims@.len(),
{
    let mut r: Vec<usize> = Vec::new();
    let mut i: usize = 0;
    while i < claims.len()
        invariant
            grid > 0,
            i <= claims@.len(),
            r@ == bucket_members(claims@, grid, k, i as int),
            forall|t: int| 0 <= t < r@.len() ==> r@[t] < i,
        decreases claims@.len() - i,
    {
        if bucket_eq(bucket_of_exec(&claims[i], grid), k) {
            r.push(i);
        }
        i = i + 1;
    }
    r
}

/// Reduces redundant claims into compact summaries.
pub trait SemanticReducer {
    /// The inputs on which `reduce` is defined.
    spec fn reduce_defined(&self, claims: Seq<Claim>) -> bool;

    fn reduce(&self, claims: &[Claim]) -> (r: Option<Claim>)
        requires
            self.reduce_defined(claims@),
    ;

    fn can_reduce(&self, claims: &[Claim]) -> (r: bool);

    fn lossiness(&self) -> (r: u8);

    fn group_key(&self, claim: &Claim) -> (r: u64);
}

/// Exact-match reducer with echo-chamber protection and log-odds aggregation.
pub struct ExactMatchReducer;

impl SemanticReducer for ExactMatchReducer {
    open spec fn reduce_defined(&self, claims: Seq<Claim>) -> bool {
        reduce_defined(claims)
    }

    /// Merge one or more claims with one fingerprint into a Summary: the
    /// claims are sorted by id with duplicate ids removed (the Summary counts
    /// the distinct ids as its sources); confidences are
    /// aggregated once per distinct evidence source; the data is the first
    /// claim's (for Summaries, the data of the Summary with the widest
    /// window, then the highest aggregate); the id hashes the statistics.
    /// Inferences and Intents are not reduced.
    fn reduce(&self, claims: &[Claim]) -> (r: Option<Claim>)
        ensures
            match reduce_fields(claims@) {
                None => r is None,
                Some(f) => r matches Some(c) && is_summary_with(c, f),
            },
    {
        let sel = all_indices(claims.len());
        proof {
            assert(claims_at(claims@, sel@) =~= claims@);
        }
        reduce_at(claims, &sel)
    }

    /// Two or more claims, all with the first claim's fingerprint.
    fn can_reduce(&self, claims: &[Claim]) -> (r: bool)
        ensures
            r == reducible(claims@),
    {
        let sel = all_indices(claims.len());
        proof {
            assert(claims_at(claims@, sel@) =~= claims@);
        }
        can_reduce_exec(claims, &sel, 2)
    }

    fn lossiness(&self) -> (r: u8)
        ensures
            r == 10,
    {
        10
    }

    /// The secondary fingerprint, for fuzzy grouping.
    fn group_key(&self, claim: &Claim) -> (r: u64)
        ensures
            r == claim.fingerprint.secondary,
    {
        claim.fingerprint.secondary
    }
}

impl ExactMatchReducer {
    /// Reputation-aware reduction with the default correlation discount.
    pub fn reduce_with_reputation<R: ReputationTracker>(&self, claims: &[Claim], reputations: &R) -> (r:
        Option<Claim>)
        requires
            reduce_rep_defined(
                claims@,
                |o: [u8; 32]| reputations.reputation_of(o),
                DEFAULT_DISCOUNT_BPS,
            ),
        ensures
            match reduce_rep_fields(
                claims@,
                |o: [u8; 32]| reputations.reputation_of(o),
                DEFAULT_DISCOUNT_BPS,
            ) {
                None => r is None,
                Some(f) => r matches Some(c) && is_summary_with(c, f),
            },
    {
        self.reduce_with_reputation_correlated(claims, reputations, DEFAULT_DISCOUNT_BPS)
    }

    /// Reputation-aware reduction: claims of zero-reputation authors are
    /// excluded, each kept confidence is weighted by its author's
    /// reputation, and the evidence is aggregated with correlation-aware
    /// discounting. The Summary carries the first claim's data.
    pub fn reduce_with_reputation_correlated<R: ReputationTracker>(
        &self,
        claims: &[Claim],
        reputations: &R,
        discount_bps: u16,
    ) -> (r: Option<Claim>)
        requires
            reduce_rep_defined(claims@, |o: [u8; 32]| reputations.reputation_of(o), discount_bps),
        ensures
            match reduce_rep_fields(
                claims@,
                |o: [u8; 32]| reputations.reputation_of(o),
                discount_bps,
            ) {
                None => r is None,
                Some(f) => r matches Some(c) && is_summary_with(c, f),
            },
    {
        let sel = all_indices(claims.len());
        proof {
            assert(claims_at(claims@, sel@) =~= claims@);
        }
        reduce_rep_at(claims, &sel, reputations, discount_bps)
    }

    /// Grid-aligned epoch reduction with the default correlation discount.
    pub fn reduce_epoch_aligned<R: ReputationTracker>(
        &self,
        claims: &[Claim],
        grid_size: u64,
        reputations: Option<&R>,
    ) -> (r: Vec<Claim>)
        requires
            epoch_defined(
                claims@,
                grid_size,
                reputations is Some,
                |o: [u8; 32]| reputations->0.reputation_of(o),
                DEFAULT_DISCOUNT_BPS,
            ),
        ensures
            r@.len() == epoch_reduction(
                claims@,
                grid_size,
                reputations is Some,
                |o: [u8; 32]| reputations->0.reputation_of(o),
                DEFAULT_DISCOUNT_BPS,
            ).len(),
            forall|i: int|
                0 <= i < r@.len() ==> is_summary_with(
                    #[trigger] r@[i],
                    epoch_reduction(
                        claims@,
                        grid_size,
                        reputations is Some,
                        |o: [u8; 32]| reputations->0.reputation_of(o),
                        DEFAULT_DISCOUNT_BPS,
                    )[i],
                ),
    {
        self.reduce_epoch_aligned_correlated(claims, grid_size, reputations, DEFAULT_DISCOUNT_BPS)
    }

    /// Grid-aligned epoch reduction: claims are bucketed by
    /// `(tick / grid_size, correlation cell)`; the buckets, in ascending
    /// order, are each reduced (with reputations when given), and the
    /// Summaries that result are returned in bucket order. No grid or fewer
    /// than two claims give nothing.
    pub fn reduce_epoch_aligned_correlated<R: ReputationTracker>(
        &self,
        claims: &[Claim],
        grid_size: u64,
        reputations: Option<&R>,
        discount_bps: u16,
    ) -> (r: Vec<Claim>)
        requires
            epoch_defined(
                claims@,
                grid_size,
                reputations is Some,
                |o: [u8; 32]| reputations->0.reputation_of(o),
                discount_bps,
            ),
        ensures
            r@.len() == epoch_reduction(
                claims@,
                grid_size,
                reputations is Some,
                |o: [u8; 32]| reputations->0.reputation_of(o),
                discount_bps,
            ).len(),
            forall|i: int|
                0 <= i < r@.len() ==> is_summary_with(
                    #[trigger] r@[i],
                    epoch_reduction(
                        claims@,
                        grid_size,
                        reputations is Some,
                        |o: [u8; 32]| reputations->0.reputation_of(o),
                        discount_bps,
                    )[i],
                ),
    {
        let ghost rep = |o: [u8; 32]| reputations->0.reputation_of(o);
        let mut out: Vec<Claim> = Vec::new();
        if grid_size == 0 || claims.len() < 2 {
            return out;
        }
        let keys = bucket_keys_exec(claims, grid_size);
        let mut j: usize = 0;
        while j < keys.len()
            invariant
                grid_size > 0,
                claims@.len() >= 2,
                keys@ == bucket_keys(claims@, grid_size, claims@.len() as int),
                rep == (|o: [u8; 32]| reputations->0.reputation_of(o)),
                epoch_defined(claims@, grid_size, reputations is Some, rep, discount_bps),
                j <= keys@.len(),
                out@.len() == epoch_fields(
                    claims@,
                    grid_size,
                    reputations is Some,
                    rep,
                    discount_bps,
                    j as int,
                ).len(),
                forall|i: int|
                    0 <= i < out@.len() ==> is_summary_with(
                        #[trigger] out@[i],
                        epoch_fields(
                            claims@,
                            grid_size,
                            reputations is Some,
                            rep,
                            discount_bps,
                            j as int,
                        )[i],
                    ),
            decreases keys@.len() - j,
        {
            let k = keys[j];
            let sel = bucket_members_exec(claims, grid_size, k);
            proof {
                assert(keys@.contains(k));
                assert(claims_at(claims@, sel@) == bucket_claims(claims@, grid_size, k));
            }
            let res = match reputations {
                Some(rp) => reduce_rep_at(claims, &sel, rp, discount_bps),
                None => if can_reduce_exec(claims, &sel, 2) {
                    reduce_at(claims, &sel)
                } else {
                    None
                },
            };
            let ghost o0 = out@;
            match res {
                Some(summary) => {
                    out.push(summary);
                    proof {
                        assert forall|i: int| 0 <= i < out@.len() implies is_summary_with(
                            #[trigger] out@[i],
                            epoch_fields(
                                claims@,
                                grid_size,
                                reputations is Some,
                                rep,
                                discount_bps,
                                j + 1,
                            )[i],
                        ) by {
                            if i < o0.len() {
                                assert(out@[i] == o0[i]);
                            }
                        }
                    }
                },
                None => {},
            }
            j = j + 1;
        }
        out
    }
}

proof fn lemma_same_claims_reducible(c1: Seq<Claim>, c2: Seq<Claim>)
    requires
        c1.to_multiset() == c2.to_multiset(),
        reducible(c1),
    ensures
        reducible(c2),
{
    broadcast use vstd::seq_lib::group_to_multiset_ensures;

    vstd::seq_lib::to_multiset_len(c1);
    vstd::seq_lib::to_multiset_len(c2);
    assert forall|i: int| 0 <= i < c2.len() implies (#[trigger] c2[i]).fingerprint
        == c2[0].fingerprint by {
        assert(c2.to_multiset().count(c2[i]) > 0);
        assert(c1.contains(c2[i]));
        assert(c2.to_multiset().count(c2[0]) > 0);
        assert(c1.contains(c2[0]));
        let k = choose|k: int| 0 <= k < c1.len() && c1[k] == c2[i];
        let k0 = choose|k: int| 0 <= k < c1.len() && c1[k] == c2[0];
    }
}

/// Reduction does not depend on the order of the claims: two arrangements
/// of the same claims (with distinct ids) reduce to the same Summary, with
/// or without reputations.
pub proof fn law_reduce_order_independent(
    c1: Seq<Claim>,
    c2: Seq<Claim>,
    rep: spec_fn([u8; 32]) -> Reputation,
    discount_bps: u16,
)
    requires
        c1.to_multiset() == c2.to_multiset(),
        distinct_ids(c1),
        distinct_ids(c2),
    ensures
        reduce_fields(c1) == reduce_fields(c2),
        reduce_rep_fields(c1, rep, discount_bps) == reduce_rep_fields(c2, rep, discount_bps),
{
    vstd::seq_lib::to_multiset_len(c1);
    vstd::seq_lib::to_multiset_len(c2);
    if reducible(c1) {
        lemma_same_claims_reducible(c1, c2);
    }
    if reducible(c2) {
        lemma_same_claims_reducible(c2, c1);
    }
    lemma_id_order_total(c1);
    lemma_id_order_total(c2);
    crate::ordering::lemma_sort_unique(c1, c2, id_before());
}

/// Reducing a claim together with itself counts its evidence once: one
/// source, the claim's confidence as the aggregate, no variance.
pub proof fn law_reduce_duplicate_counted_once(a: Claim)
    requires
        a.kind is Observation,
    ensures
        reduce_fields(seq![a, a]) matches Some(f) && f.unique_sources == 1 && f.aggregated
            == clamp_safe(a.confidence@ as int) && f.variance == 0 && f.source_count == 1
            && f.tick_start == a.tick && f.tick_end == a.tick,
{
    let s = seq![a, a];
    crate::ordering::lemma_hash_order(a.id, a.id, a.id);
    assert(s.drop_last() =~= seq![a]);
    assert(seq![a].drop_last() =~= Seq::<Claim>::empty());
    assert(sort_stable(Seq::<Claim>::empty(), id_before()) == Seq::<Claim>::empty());
    assert(crate::ordering::insert_stable(Seq::<Claim>::empty(), a, id_before()) == seq![a]);
    assert(sort_stable(seq![a], id_before()) =~= seq![a]);
    assert(sort_stable(s, id_before()) =~= s);
    assert(dedup_ids(Seq::<Claim>::empty()) == Seq::<Claim>::empty());
    assert(Seq::<Claim>::empty().push(a) =~= seq![a]);
    assert(dedup_ids(seq![a]) =~= seq![a]);
    assert(dedup_ids(s) =~= seq![a]);
    assert(reducible(s));
    let (srcs, ev) = source_fold(seq![a]);
    assert(source_fold(Seq::<Claim>::empty()) == (Seq::<ClaimHash>::empty(), Seq::<LogOdds>::empty()));
    assert(!Seq::<ClaimHash>::empty().contains(a.evidence_source));
    assert(Seq::<ClaimHash>::empty().push(a.evidence_source) =~= seq![a.evidence_source]);
    assert(Seq::<LogOdds>::empty().push(a.confidence) =~= seq![a.confidence]);
    assert(srcs =~= seq![a.evidence_source]);
    assert(ev =~= seq![a.confidence]);
    assert(ev.drop_last() =~= Seq::<LogOdds>::empty());
    assert(sat_sum(Seq::<LogOdds>::empty()) == 0);
    assert(ev.last() == a.confidence);
    assert(sat_sum(ev) == a.confidence@);
}


/// Reduction is idempotent: a claim reduced together with itself gives
/// what the claim reduces to alone (both absent for an Inference or an
/// Intent, the same Summary otherwise).
pub proof fn law_reduce_idempotent(a: Claim)
    ensures
        reduce_fields(seq![a, a]) == reduce_fields(seq![a]),
        (a.kind is Observation || a.kind is Summary) ==> reduce_fields(seq![a]) is Some,
{
    let s = seq![a, a];
    crate::ordering::lemma_hash_order(a.id, a.id, a.id);
    assert(s.drop_last() =~= seq![a]);
    assert(seq![a].drop_last() =~= Seq::<Claim>::empty());
    assert(sort_stable(Seq::<Claim>::empty(), id_before()) == Seq::<Claim>::empty());
    assert(crate::ordering::insert_stable(Seq::<Claim>::empty(), a, id_before()) == seq![a]);
    assert(sort_stable(seq![a], id_before()) =~= seq![a]);
    assert(sort_stable(s, id_before()) =~= s);
    assert(dedup_ids(Seq::<Claim>::empty()) == Seq::<Claim>::empty());
    assert(Seq::<Claim>::empty().push(a) =~= seq![a]);
    assert(dedup_ids(seq![a]) =~= seq![a]);
    assert(dedup_ids(s) =~= seq![a]);
    assert(unique_by_id(s) == unique_by_id(seq![a]));
    assert(mergeable(s));
    assert(mergeable(seq![a]));
}

/// Claims with the same id are the same claim.
pub open spec fn ids_determine(s: Seq<Claim>) -> bool {
    forall|i: int, j: int|
        0 <= i < s.len() && 0 <= j < s.len() && (#[trigger] s[i]).id == (#[trigger] s[j]).id
            ==> s[i] == s[j]
}

/// No claim of `s` comes after a later one by id.
pub open spec fn id_sorted(s: Seq<Claim>) -> bool {
    forall|i: int, j: int|
        0 <= i < j < s.len() ==> !crate::ordering::hash_lt((#[trigger] s[j]).id, (#[trigger] s[i]).id)
}

proof fn lemma_insert_id_sorted(r: Seq<Claim>, x: Claim)
    requires
        id_sorted(r),
    ensures
        id_sorted(crate::ordering::insert_stable(r, x, id_before())),
        crate::ordering::insert_stable(r, x, id_before()).to_multiset() == r.to_multiset().insert(x),
    decreases r.len(),
{
    broadcast use vstd::seq_lib::group_to_multiset_ensures;

    crate::ordering::lemma_insert_multiset(r, x, id_before());
    let res = crate::ordering::insert_stable(r, x, id_before());
    if r.len() == 0 {
    } else if crate::ordering::hash_lt(x.id, r.last().id) {
        let d = r.drop_last();
        lemma_insert_id_sorted(d, x);
        let inner = crate::ordering::insert_stable(d, x, id_before());
        let l = r.last();
        assert forall|i: int| 0 <= i < inner.len() implies !crate::ordering::hash_lt(
            l.id,
            (#[trigger] inner[i]).id,
        ) by {
            assert(inner.to_multiset().count(inner[i]) > 0);
            assert(d.push(x).to_multiset() == d.to_multiset().insert(x));
            assert(d.push(x).to_multiset().count(inner[i]) > 0);
            assert(d.push(x).contains(inner[i]));
            let k = choose|k: int| 0 <= k < d.push(x).len() && d.push(x)[k] == inner[i];
            if k < d.len() {
                assert(d[k] == r[k]);
            } else {
                crate::ordering::lemma_hash_order(x.id, l.id, l.id);
            }
        }
        assert(res == inner.push(l));
    } else {
        let l = r.last();
        assert forall|i: int| 0 <= i < r.len() implies !crate::ordering::hash_lt(
            x.id,
            (#[trigger] r[i]).id,
        ) by {
            if i < r.len() - 1 {
                crate::ordering::lemma_hash_order(r[i].id, l.id, l.id);
                crate::ordering::lemma_hash_order(x.id, r[i].id, l.id);
            }
        }
        assert(res == r.push(x));
    }
}

proof fn lemma_sort_id_sorted(s: Seq<Claim>)
    ensures
        id_sorted(sort_stable(s, id_before())),
        sort_stable(s, id_before()).to_multiset() == s.to_multiset(),
    decreases s.len(),
{
    broadcast use vstd::seq_lib::group_to_multiset_ensures;

    if s.len() > 0 {
        lemma_sort_id_sorted(s.drop_last());
        lemma_insert_id_sorted(sort_stable(s.drop_last(), id_before()), s.last());
        assert(s.drop_last().push(s.last()) =~= s);
    }
}

proof fn lemma_id_sorted_unique(a: Seq<Claim>, b: Seq<Claim>)
    requires
        id_sorted(a),
        id_sorted(b),
        a.to_multiset() == b.to_multiset(),
        ids_determine(a),
    ensures
        a == b,
    decreases a.len(),
{
    broadcast use vstd::seq_lib::group_to_multiset_ensures;

    vstd::seq_lib::to_multiset_len(a);
    vstd::seq_lib::to_multiset_len(b);
    if a.len() > 0 {
        let x = a[0];
        let y = b[0];
        assert(a.to_multiset().count(x) > 0);
        assert(b.contains(x));
        assert(b.to_multiset().count(y) > 0);
        assert(a.contains(y));
        let kx = choose|k: int| 0 <= k < b.len() && b[k] == x;
        let ky = choose|k: int| 0 <= k < a.len() && a[k] == y;
        if x != y {
            if x.id == y.id {
                assert(a[0].id == a[ky].id);
                assert(a[0] == a[ky]);
            }
            crate::ordering::lemma_hash_order(x.id, y.id, y.id);
            assert(kx > 0 && ky > 0);
            assert(!crate::ordering::hash_lt(b[kx].id, b[0].id));
            assert(!crate::ordering::hash_lt(a[ky].id, a[0].id));
        }
        let a1 = a.drop_first();
        let b1 = b.drop_first();
        assert(a.remove(0) =~= a1);
        assert(b.remove(0) =~= b1);
        vstd::seq_lib::to_multiset_remove(a, 0);
        vstd::seq_lib::to_multiset_remove(b, 0);
        assert(id_sorted(a1)) by {
            assert forall|i: int, j: int| 0 <= i < j < a1.len() implies !crate::ordering::hash_lt(
                (#[trigger] a1[j]).id,
                (#[trigger] a1[i]).id,
            ) by {
                assert(a1[i] == a[i + 1] && a1[j] == a[j + 1]);
            }
        }
        assert(id_sorted(b1)) by {
            assert forall|i: int, j: int| 0 <= i < j < b1.len() implies !crate::ordering::hash_lt(
                (#[trigger] b1[j]).id,
                (#[trigger] b1[i]).id,
            ) by {
                assert(b1[i] == b[i + 1] && b1[j] == b[j + 1]);
            }
        }
        assert(ids_determine(a1)) by {
            assert forall|i: int, j: int|
                0 <= i < a1.len() && 0 <= j < a1.len() && (#[trigger] a1[i]).id == (#[trigger] a1[j]).id
                implies a1[i] == a1[j] by {
                assert(a1[i] == a[i + 1] && a1[j] == a[j + 1]);
            }
        }
        lemma_id_sorted_unique(a1, b1);
        assert(a =~= seq![x] + a1);
        assert(b =~= seq![y] + b1);
    }
}

/// Reduction does not depend on the order of the claims, also when claims
/// repeat: two arrangements of the same claims, in which claims with equal
/// ids are equal, reduce to the same Summary.
pub proof fn law_reduce_order_independent_with_repeats(c1: Seq<Claim>, c2: Seq<Claim>)
    requires
        c1.to_multiset() == c2.to_multiset(),
        ids_determine(c1),
    ensures
        reduce_fields(c1) == reduce_fields(c2),
{
    broadcast use vstd::seq_lib::group_to_multiset_ensures;

    vstd::seq_lib::to_multiset_len(c1);
    vstd::seq_lib::to_multiset_len(c2);
    if reducible(c1) {
        lemma_same_claims_reducible(c1, c2);
    }
    if reducible(c2) {
        lemma_same_claims_reducible(c2, c1);
    }
    lemma_sort_id_sorted(c1);
    lemma_sort_id_sorted(c2);
    let s1 = sort_stable(c1, id_before());
    let s2 = sort_stable(c2, id_before());
    assert(ids_determine(s1)) by {
        assert forall|i: int, j: int|
            0 <= i < s1.len() && 0 <= j < s1.len() && (#[trigger] s1[i]).id == (#[trigger] s1[j]).id
            implies s1[i] == s1[j] by {
            assert(s1.to_multiset().count(s1[i]) > 0);
            assert(s1.to_multiset().count(s1[j]) > 0);
            assert(c1.contains(s1[i]));
            assert(c1.contains(s1[j]));
            let p = choose|p: int| 0 <= p < c1.len() && c1[p] == s1[i];
            let q = choose|q: int| 0 <= q < c1.len() && c1[q] == s1[j];
            assert(c1[p].id == c1[q].id);
        }
    }
    lemma_id_sorted_unique(s1, s2);
}


/// Sum of the confidences of the claims.
pub open spec fn conf_sum(s: Seq<Claim>) -> int
    decreases s.len(),
{
    if s.len() == 0 {
        0
    } else {
        conf_sum(s.drop_last()) + s.last().confidence@
    }
}

/// Claims with the same evidence source are the same claim.
pub open spec fn sources_determine(s: Seq<Claim>) -> bool {
    forall|i: int, j: int|
        0 <= i < s.len() && 0 <= j < s.len() && (#[trigger] s[i]).evidence_source == (
        #[trigger] s[j]).evidence_source ==> s[i] == s[j]
}

proof fn lemma_conf_sum_split(s: Seq<Claim>, k: int)
    requires
        0 <= k < s.len(),
    ensures
        conf_sum(s) == conf_sum(s.remove(k)) + s[k].confidence@,
    decreases s.len(),
{
    if k < s.len() - 1 {
        lemma_conf_sum_split(s.drop_last(), k);
        assert(s.remove(k).drop_last() =~= s.drop_last().remove(k));
        assert(s.remove(k).last() == s.last());
    } else {
        assert(s.remove(k) =~= s.drop_last());
    }
}

proof fn lemma_conf_sum_perm(s: Seq<Claim>, t: Seq<Claim>)
    requires
        s.to_multiset() == t.to_multiset(),
    ensures
        conf_sum(s) == conf_sum(t),
    decreases s.len(),
{
    broadcast use vstd::seq_lib::group_to_multiset_ensures;

    vstd::seq_lib::to_multiset_len(s);
    vstd::seq_lib::to_multiset_len(t);
    if s.len() > 0 {
        let x = s.last();
        assert(s.to_multiset().count(x) > 0);
        assert(t.contains(x));
        let k = choose|k: int| 0 <= k < t.len() && t[k] == x;
        vstd::seq_lib::to_multiset_remove(t, k);
        assert(s.drop_last().push(x) =~= s);
        assert(s.drop_last().to_multiset() == s.to_multiset().remove(x));
        lemma_conf_sum_perm(s.drop_last(), t.remove(k));
        lemma_conf_sum_split(t, k);
    }
}

proof fn lemma_dedup_distinct(s: Seq<Claim>)
    requires
        distinct_ids(s),
    ensures
        dedup_ids(s) == s,
    decreases s.len(),
{
    if s.len() > 0 {
        let d = s.drop_last();
        assert(distinct_ids(d)) by {
            assert forall|i: int, j: int| 0 <= i < j < d.len() implies d[i].id != d[j].id by {
                assert(d[i] == s[i] && d[j] == s[j]);
            }
        }
        lemma_dedup_distinct(d);
        if d.len() > 0 {
            assert(d.last() == s[s.len() - 2]);
        }
        assert(d.push(s.last()) =~= s);
    }
}

proof fn lemma_source_fold_distinct(cs: Seq<Claim>)
    requires
        forall|i: int, j: int| 0 <= i < j < cs.len() ==> cs[i].evidence_source != cs[j].evidence_source,
    ensures
        source_fold(cs).0 == cs.map_values(|c: Claim| c.evidence_source),
        exact_sum(source_fold(cs).1) == conf_sum(cs),
        source_fold(cs).1.len() == cs.len(),
    decreases cs.len(),
{
    if cs.len() > 0 {
        let d = cs.drop_last();
        lemma_source_fold_distinct(d);
        let (srcs, ev) = source_fold(d);
        assert(!srcs.contains(cs.last().evidence_source)) by {
            if srcs.contains(cs.last().evidence_source) {
                let k = choose|k: int| 0 <= k < srcs.len() && srcs[k] == cs.last().evidence_source;
                assert(srcs[k] == d[k].evidence_source);
                assert(d[k] == cs[k]);
            }
        }
        assert(srcs.push(cs.last().evidence_source) =~= cs.map_values(|c: Claim| c.evidence_source));
        assert(ev.push(cs.last().confidence).drop_last() =~= ev);
    }
}

/// The aggregate of a reduction of claims with distinct ids and distinct
/// evidence sources (at most 2^32 of them) is the clamped sum of their
/// confidences, whatever their order.
proof fn lemma_reduce_aggregate(s: Seq<Claim>)
    requires
        reducible(s),
        distinct_ids(s),
        sources_determine(s),
        s.len() <= 0x1_0000_0000,
        forall|i: int| 0 <= i < s.len() ==> ((#[trigger] s[i]).kind is Observation || s[i].kind is Summary),
    ensures
        reduce_fields(s) matches Some(f) && f.aggregated == clamp_safe(conf_sum(s))
            && f.fingerprint == s[0].fingerprint,
{
    broadcast use vstd::seq_lib::group_to_multiset_ensures;

    lemma_id_order_total(s);
    crate::ordering::lemma_sort_increasing(s, id_before());
    crate::ordering::lemma_sort_multiset(s, id_before());
    let t = sort_stable(s, id_before());
    vstd::seq_lib::to_multiset_len(s);
    vstd::seq_lib::to_multiset_len(t);
    assert(distinct_ids(t)) by {
        assert forall|i: int, j: int| 0 <= i < j < t.len() implies t[i].id != t[j].id by {
            crate::ordering::lemma_hash_order(t[i].id, t[j].id, t[j].id);
        }
    }
    lemma_dedup_distinct(t);
    assert(forall|i: int, j: int| 0 <= i < j < t.len() ==> t[i].evidence_source != t[j].evidence_source) by {
        assert forall|i: int, j: int| 0 <= i < j < t.len() implies t[i].evidence_source != t[j].evidence_source by {
            assert(t.to_multiset().count(t[i]) > 0);
            assert(t.to_multiset().count(t[j]) > 0);
            assert(s.contains(t[i]) && s.contains(t[j]));
            let p = choose|p: int| 0 <= p < s.len() && s[p] == t[i];
            let q = choose|q: int| 0 <= q < s.len() && s[q] == t[j];
            crate::ordering::lemma_hash_order(t[i].id, t[j].id, t[j].id);
            if s[p].evidence_source == s[q].evidence_source {
                assert(s[p] == s[q]);
            }
        }
    }
    lemma_source_fold_distinct(t);
    lemma_conf_sum_perm(s, t);
    let (srcs, ev) = source_fold(t);
    lemma_sat_sum_exact(ev);
    assert(t.to_multiset().count(t[0]) > 0);
    assert(s.contains(t[0]));
    let p0 = choose|p: int| 0 <= p < s.len() && s[p] == t[0];
    assert(t[0].kind is Observation || t[0].kind is Summary);
    assert(t[0].fingerprint == s[0].fingerprint);
}

/// Nesting reductions keeps the aggregate: for three claims with one
/// fingerprint, distinct ids and distinct evidence sources, whose
/// confidences are within 10^8 in magnitude, reducing two of them first and
/// then the Summary with the third gives the aggregate (and the
/// confidence) of reducing all three at once, whichever two are reduced
/// first, provided the Summary's id and evidence source (its id) are not
/// the third claim's. (The other statistics of a Summary, such as its
/// variance, range and counts, are computed from the claims it is given,
/// so they differ between nestings.)
pub proof fn law_nested_reduction_keeps_aggregate(a: Claim, b: Claim, c: Claim, sab: Claim, sbc: Claim)
    requires
        a.fingerprint == b.fingerprint,
        b.fingerprint == c.fingerprint,
        a.kind is Observation,
        b.kind is Observation,
        c.kind is Observation,
        a.id != b.id && b.id != c.id && a.id != c.id,
        a.evidence_source != b.evidence_source && b.evidence_source != c.evidence_source
            && a.evidence_source != c.evidence_source,
        -100_000_000 <= a.confidence@ <= 100_000_000,
        -100_000_000 <= b.confidence@ <= 100_000_000,
        -100_000_000 <= c.confidence@ <= 100_000_000,
        reduce_fields(seq![a, b]) matches Some(f) && is_summary_with(sab, f),
        reduce_fields(seq![b, c]) matches Some(g) && is_summary_with(sbc, g),
        sab.id != c.id,
        sab.id != c.evidence_source,
        sbc.id != a.id,
        sbc.id != a.evidence_source,
    ensures
        reduce_fields(seq![a, b, c]) matches Some(z) && reduce_fields(seq![sab, c]) matches Some(x)
            && reduce_fields(seq![a, sbc]) matches Some(y) && x.aggregated == z.aggregated
            && y.aggregated == z.aggregated && x.fingerprint == z.fingerprint && y.fingerprint
            == z.fingerprint,
{
    let abc = seq![a, b, c];
    let ab = seq![a, b];
    let bc = seq![b, c];
    let l = seq![sab, c];
    let r = seq![a, sbc];
    assert(abc.drop_last() =~= ab);
    assert(ab.drop_last() =~= seq![a]);
    assert(bc.drop_last() =~= seq![b]);
    assert(l.drop_last() =~= seq![sab]);
    assert(r.drop_last() =~= seq![a]);
    assert(seq![a].drop_last() =~= Seq::<Claim>::empty());
    assert(seq![b].drop_last() =~= Seq::<Claim>::empty());
    assert(seq![sab].drop_last() =~= Seq::<Claim>::empty());
    lemma_reduce_aggregate(abc);
    lemma_reduce_aggregate(ab);
    lemma_reduce_aggregate(bc);
    assert(conf_sum(Seq::<Claim>::empty()) == 0);
    assert(seq![a].last() == a && seq![b].last() == b && ab.last() == b && bc.last() == c);
    assert(conf_sum(seq![a]) == a.confidence@);
    assert(conf_sum(seq![b]) == b.confidence@);
    assert(conf_sum(ab) == a.confidence@ + b.confidence@);
    assert(conf_sum(bc) == b.confidence@ + c.confidence@);
    assert(abc.last() == c && l.last() == c && r.last() == sbc && seq![sab].last() == sab);
    assert(conf_sum(abc) == a.confidence@ + b.confidence@ + c.confidence@);
    assert(conf_sum(seq![sab]) == sab.confidence@);
    assert(conf_sum(l) == sab.confidence@ + c.confidence@);
    assert(conf_sum(r) == a.confidence@ + sbc.confidence@);
    assert(sab.fingerprint == a.fingerprint);
    assert(sbc.fingerprint == b.fingerprint);
    lemma_reduce_aggregate(l);
    lemma_reduce_aggregate(r);
}

proof fn lemma_tick_bounds(cs: Seq<Claim>)
    requires
        cs.len() > 0,
    ensures
        forall|i: int| 0 <= i < cs.len() ==> min_tick(cs) <= (#[trigger] cs[i]).tick <= max_tick(cs),
        exists|i: int| 0 <= i < cs.len() && (#[trigger] cs[i]).tick == min_tick(cs),
        exists|i: int| 0 <= i < cs.len() && (#[trigger] cs[i]).tick == max_tick(cs),
    decreases cs.len(),
{
    if cs.len() > 1 {
        let d = cs.drop_last();
        lemma_tick_bounds(d);
        assert forall|i: int| 0 <= i < cs.len() implies min_tick(cs) <= (#[trigger] cs[i]).tick <= max_tick(cs) by {
            if i < d.len() {
                assert(cs[i] == d[i]);
            }
        }
        let a = choose|i: int| 0 <= i < d.len() && (#[trigger] d[i]).tick == min_tick(d);
        let b = choose|i: int| 0 <= i < d.len() && (#[trigger] d[i]).tick == max_tick(d);
        assert(cs[a] == d[a] && cs[b] == d[b]);
        assert(cs[cs.len() - 1] == cs.last());
    } else {
        assert(cs[0].tick == min_tick(cs));
    }
}

proof fn lemma_dedup_members(s: Seq<Claim>)
    ensures
        forall|i: int| 0 <= i < dedup_ids(s).len() ==> s.contains(#[trigger] dedup_ids(s)[i]),
        ids_determine(s) ==> forall|i: int| 0 <= i < s.len() ==> dedup_ids(s).contains(#[trigger] s[i]),
    decreases s.len(),
{
    if s.len() > 0 {
        let p = s.drop_last();
        lemma_dedup_members(p);
        let d = dedup_ids(p);
        let r = dedup_ids(s);
        assert forall|i: int| 0 <= i < r.len() implies s.contains(#[trigger] r[i]) by {
            if i < d.len() {
                assert(r[i] == d[i]);
                let j = choose|j: int| 0 <= j < p.len() && p[j] == d[i];
                assert(s[j] == p[j]);
            } else {
                assert(r[i] == s.last());
                assert(s[s.len() - 1] == s.last());
            }
        }
        if ids_determine(s) {
            assert(ids_determine(p)) by {
                assert forall|i: int, j: int|
                    0 <= i < p.len() && 0 <= j < p.len() && (#[trigger] p[i]).id == (#[trigger] p[j]).id
                    implies p[i] == p[j] by {
                    assert(s[i] == p[i] && s[j] == p[j]);
                }
            }
            assert forall|i: int| 0 <= i < s.len() implies r.contains(#[trigger] s[i]) by {
                if i < p.len() {
                    assert(s[i] == p[i]);
                    assert(d.contains(p[i]));
                    let j = choose|j: int| 0 <= j < d.len() && d[j] == p[i];
                    if d.len() > 0 && d.last().id == s.last().id {
                        assert(r[j] == d[j]);
                    } else {
                        assert(r[j] == d[j]);
                    }
                } else {
                    if d.len() > 0 && d.last().id == s.last().id {
                        assert(p.contains(d.last())) by {
                            assert(d[d.len() - 1] == d.last());
                        }
                        let j = choose|j: int| 0 <= j < p.len() && p[j] == d.last();
                        assert(s[j] == p[j]);
                        assert(s[s.len() - 1] == s.last());
                        assert(d.last() == s.last());
                        assert(r[d.len() - 1] == s.last());
                    } else {
                        assert(r[d.len() as int] == s.last());
                    }
                }
            }
        }
    }
}

/// With ids that determine their claims, the distinct claims kept by a
/// reduction are exactly the claims given.
proof fn lemma_unique_members(claims: Seq<Claim>)
    requires
        ids_determine(claims),
    ensures
        forall|c: Claim| #[trigger] unique_by_id(claims).contains(c) <==> claims.contains(c),
{
    broadcast use vstd::seq_lib::group_to_multiset_ensures;

    let t = sort_stable(claims, id_before());
    crate::ordering::lemma_sort_multiset(claims, id_before());
    assert(ids_determine(t)) by {
        assert forall|i: int, j: int|
            0 <= i < t.len() && 0 <= j < t.len() && (#[trigger] t[i]).id == (#[trigger] t[j]).id implies t[i]
            == t[j] by {
            assert(t.to_multiset().count(t[i]) > 0);
            assert(t.to_multiset().count(t[j]) > 0);
            assert(claims.contains(t[i]));
            assert(claims.contains(t[j]));
            let p = choose|p: int| 0 <= p < claims.len() && claims[p] == t[i];
            let q = choose|q: int| 0 <= q < claims.len() && claims[q] == t[j];
        }
    }
    lemma_dedup_members(t);
    let u = unique_by_id(claims);
    assert forall|c: Claim| #[trigger] u.contains(c) <==> claims.contains(c) by {
        if u.contains(c) {
            let i = choose|i: int| 0 <= i < u.len() && u[i] == c;
            assert(t.contains(u[i]));
            assert(t.to_multiset().count(c) > 0);
        }
        if claims.contains(c) {
            assert(claims.to_multiset().count(c) > 0);
            assert(t.contains(c));
            let i = choose|i: int| 0 <= i < t.len() && t[i] == c;
            assert(u.contains(t[i]));
        }
    }
}

/// A Summary spans the ticks of the claims it reduces: when ids determine
/// their claims, its window starts at the earliest tick of the reduced
/// claims and ends at the latest (each bound is the tick of one of them),
/// with or without reputations.
pub proof fn law_summary_window_spans_ticks(
    claims: Seq<Claim>,
    rep: spec_fn([u8; 32]) -> Reputation,
    discount_bps: u16,
)
    requires
        ids_determine(claims),
    ensures
        reduce_fields(claims) matches Some(f) ==> {
            &&& forall|i: int| 0 <= i < claims.len() ==> f.tick_start <= (#[trigger] claims[i]).tick <= f.tick_end
            &&& exists|i: int| 0 <= i < claims.len() && (#[trigger] claims[i]).tick == f.tick_start
            &&& exists|i: int| 0 <= i < claims.len() && (#[trigger] claims[i]).tick == f.tick_end
        },
        reduce_rep_fields(claims, rep, discount_bps) matches Some(f) ==> {
            &&& forall|i: int| 0 <= i < claims.len() ==> f.tick_start <= (#[trigger] claims[i]).tick <= f.tick_end
            &&& exists|i: int| 0 <= i < claims.len() && (#[trigger] claims[i]).tick == f.tick_start
            &&& exists|i: int| 0 <= i < claims.len() && (#[trigger] claims[i]).tick == f.tick_end
        },
{
    if claims.len() > 0 {
        lemma_unique_members(claims);
        let u = unique_by_id(claims);
        assert(claims.contains(claims[0]));
        assert(u.contains(claims[0]));
        lemma_tick_bounds(u);
        assert(0 <= min_tick(u) <= u64::MAX) by {
            assert(u[0].tick >= min_tick(u));
            let a = choose|i: int| 0 <= i < u.len() && (#[trigger] u[i]).tick == min_tick(u);
        }
        assert(0 <= max_tick(u) <= u64::MAX) by {
            let b = choose|i: int| 0 <= i < u.len() && (#[trigger] u[i]).tick == max_tick(u);
        }
        assert forall|i: int| 0 <= i < claims.len() implies min_tick(u) <= (#[trigger] claims[i]).tick <= max_tick(u) by {
            assert(claims.contains(claims[i]));
            assert(u.contains(claims[i]));
            let j = choose|j: int| 0 <= j < u.len() && u[j] == claims[i];
            assert(min_tick(u) <= u[j].tick <= max_tick(u));
        }
        let a = choose|i: int| 0 <= i < u.len() && (#[trigger] u[i]).tick == min_tick(u);
        let b = choose|i: int| 0 <= i < u.len() && (#[trigger] u[i]).tick == max_tick(u);
        assert(u.contains(u[a]) && u.contains(u[b]));
        assert(claims.contains(u[a]) && claims.contains(u[b]));
        let pa = choose|p: int| 0 <= p < claims.len() && claims[p] == u[a];
        let pb = choose|p: int| 0 <= p < claims.len() && claims[p] == u[b];
        assert(claims[pa].tick == min_tick(u));
        assert(claims[pb].tick == max_tick(u));
    }
}

} // verus!
