use vstd::prelude::*;
use crate::ordering::{compare_hash, hash_lt, lemma_insert_at, sort_stable};

verus! {

/// Integer division rounded toward zero, as Rust's `/` does, for a positive divisor.
pub open spec fn trunc_div(a: int, b: int) -> int {
    if a >= 0 {
        a / b
    } else {
        -((-a) / b)
    }
}

pub open spec fn clamp(v: int, lo: int, hi: int) -> int {
    if v < lo {
        lo
    } else if v > hi {
        hi
    } else {
        v
    }
}

/// The value of a saturating `i64` operation whose exact result is `v`.
pub open spec fn sat_i64(v: int) -> int {
    clamp(v, i64::MIN as int, i64::MAX as int)
}

pub open spec fn clamp_i32(v: int) -> int {
    clamp(v, i32::MIN as int, i32::MAX as int)
}

pub open spec fn safe_min() -> int {
    -1_000_000_000
}

pub open spec fn safe_max() -> int {
    1_000_000_000
}

/// Clamping into the safe operational range of log-odds.
pub open spec fn clamp_safe(v: int) -> int {
    clamp(v, safe_min(), safe_max())
}

/// Log-odds confidence, scaled by 1000 (milli-log-odds).
/// Bayesian update in log-odds space is addition.
#[derive(Clone, Copy, Debug, PartialEq, Eq, Structural, PartialOrd, Ord, Hash)]
pub struct LogOdds(i32);

impl View for LogOdds {
    type V = i32;

    closed spec fn view(&self) -> i32 {
        self.0
    }
}

/// Two log-odds values with the same milli-log-odds are the same value.
pub proof fn lemma_logodds_eq(a: LogOdds, b: LogOdds)
    requires
        a@ == b@,
    ensures
        a == b,
{
}

impl LogOdds {
    /// The log-odds with the given milli-log-odds (taken modulo `i32`).
    pub closed spec fn from_milli(v: int) -> LogOdds {
        LogOdds(v as i32)
    }
}

pub proof fn lemma_from_milli(v: int)
    requires
        i32::MIN <= v <= i32::MAX,
    ensures
        LogOdds::from_milli(v)@ == v,
{
}

/// The lookup table used by `LogOdds::from_percent`.
pub open spec fn percent_to_milli(pct: u8) -> int {
    if pct == 0 {
        -13816
    } else if pct <= 5 {
        -2944
    } else if pct <= 10 {
        -2197
    } else if pct <= 20 {
        -1386
    } else if pct <= 30 {
        -847
    } else if pct <= 40 {
        -405
    } else if pct <= 49 {
        -100
    } else if pct == 50 {
        0
    } else if pct <= 59 {
        100
    } else if pct <= 69 {
        405
    } else if pct <= 79 {
        847
    } else if pct <= 89 {
        1386
    } else if pct <= 94 {
        2197
    } else if pct <= 99 {
        2944
    } else if pct == 100 {
        13816
    } else {
        0
    }
}

/// The quantization brackets used by `LogOdds::to_percent`.
pub open spec fn milli_to_percent(v: i32) -> u8 {
    if v <= -6908 {
        0
    } else if v <= -2945 {
        2
    } else if v <= -2198 {
        5
    } else if v <= -1387 {
        10
    } else if v <= -848 {
        20
    } else if v <= -406 {
        30
    } else if v <= -101 {
        40
    } else if v <= 99 {
        50
    } else if v <= 404 {
        60
    } else if v <= 846 {
        70
    } else if v <= 1385 {
        80
    } else if v <= 2196 {
        90
    } else if v <= 2943 {
        95
    } else if v <= 6906 {
        99
    } else {
        100
    }
}

/// Running sum of the evidence, each step a saturating `i64` addition.
pub open spec fn sat_sum(s: Seq<LogOdds>) -> int
    decreases s.len(),
{
    if s.len() == 0 {
        0
    } else {
        sat_i64(sat_sum(s.drop_last()) + s.last()@)
    }
}

/// The exact sum of the evidence.
pub open spec fn exact_sum(s: Seq<LogOdds>) -> int
    decreases s.len(),
{
    if s.len() == 0 {
        0
    } else {
        exact_sum(s.drop_last()) + s.last()@
    }
}

/// What `LogOdds::aggregate` returns on the given evidence.
pub open spec fn aggregate_spec(s: Seq<LogOdds>) -> int {
    clamp_safe(sat_sum(s))
}

impl LogOdds {
    /// Upper end of the safe operational range.
    pub const SAFE_MAX: i32 = 1_000_000_000;

    /// Lower end of the safe operational range.
    pub const SAFE_MIN: i32 = -1_000_000_000;

    pub fn new(milli_logodds: i32) -> (r: Self)
        ensures
            r@ == milli_logodds,
    {
        LogOdds(milli_logodds)
    }

    /// 50% confidence (total uncertainty).
    pub fn neutral() -> (r: Self)
        ensures
            r@ == 0,
    {
        LogOdds(0)
    }

    /// About 99.9% confidence.
    pub fn very_high() -> (r: Self)
        ensures
            r@ == 6907,
    {
        LogOdds(6907)
    }

    /// About 0.1% confidence.
    pub fn very_low() -> (r: Self)
        ensures
            r@ == -6907,
    {
        LogOdds(-6907)
    }

    /// Largest representable value.
    pub fn max_value() -> (r: Self)
        ensures
            r@ == i32::MAX,
    {
        LogOdds(i32::MAX)
    }

    /// Smallest representable value.
    pub fn min_value() -> (r: Self)
        ensures
            r@ == i32::MIN,
    {
        LogOdds(i32::MIN)
    }

    pub fn value(self) -> (r: i32)
        ensures
            r == self@,
    {
        self.0
    }

    /// Create from a percentage (0..=100) using a lookup table (no floats).
    pub fn from_percent(pct: u8) -> (r: Self)
        ensures
            r@ == percent_to_milli(pct),
    {
        let v: i32 = if pct == 0 {
            -13816
        } else if pct <= 5 {
            -2944
        } else if pct <= 10 {
            -2197
        } else if pct <= 20 {
            -1386
        } else if pct <= 30 {
            -847
        } else if pct <= 40 {
            -405
        } else if pct <= 49 {
            -100
        } else if pct == 50 {
            0
        } else if pct <= 59 {
            100
        } else if pct <= 69 {
            405
        } else if pct <= 79 {
            847
        } else if pct <= 89 {
            1386
        } else if pct <= 94 {
            2197
        } else if pct <= 99 {
            2944
        } else if pct == 100 {
            13816
        } else {
            0
        };
        LogOdds(v)
    }

    /// Convert back to an approximate percentage using coarse brackets.
    pub fn to_percent(self) -> (r: u8)
        ensures
            r == milli_to_percent(self@),
    {
        let v = self.0;
        if v <= -6908 {
            0
        } else if v <= -2945 {
            2
        } else if v <= -2198 {
            5
        } else if v <= -1387 {
            10
        } else if v <= -848 {
            20
        } else if v <= -406 {
            30
        } else if v <= -101 {
            40
        } else if v <= 99 {
            50
        } else if v <= 404 {
            60
        } else if v <= 846 {
            70
        } else if v <= 1385 {
            80
        } else if v <= 2196 {
            90
        } else if v <= 2943 {
            95
        } else if v <= 6906 {
            99
        } else {
            100
        }
    }

    /// Bayesian aggregation: the sum of the log-odds of independent evidence,
    /// accumulated with saturating `i64` additions and clamped to the safe range.
    pub fn aggregate(evidence: &[LogOdds]) -> (r: LogOdds)
        ensures
            r@ == aggregate_spec(evidence@),
    {
        let mut sum: i64 = 0;
        let mut i: usize = 0;
        while i < evidence.len()
            invariant
                i <= evidence@.len(),
                sum == sat_sum(evidence@.take(i as int)),
            decreases evidence@.len() - i,
        {
            proof {
                assert(evidence@.take(i + 1).drop_last() =~= evidence@.take(i as int));
            }
            sum = sat_add_i64(sum, evidence[i].0 as i64);
            i = i + 1;
        }
        proof {
            assert(evidence@.take(i as int) =~= evidence@);
        }
        LogOdds(clamp_i64_to_i32(sum, -1_000_000_000, 1_000_000_000))
    }

    /// Bayesian update: posterior = prior + evidence, clamped to the safe range.
    pub fn update(self, evidence: LogOdds) -> (r: LogOdds)
        ensures
            r@ == clamp_safe(self@ + evidence@),
    {
        let sum = (self.0 as i64) + (evidence.0 as i64);
        LogOdds(clamp_i64_to_i32(sum, -1_000_000_000, 1_000_000_000))
    }

    /// Is this belief more likely true than false?
    pub fn is_positive(self) -> (r: bool)
        ensures
            r == (self@ > 0),
    {
        self.0 > 0
    }
}

/// Saturating `i64` addition.
pub fn sat_add_i64(a: i64, b: i64) -> (r: i64)
    ensures
        r == sat_i64(a + b),
{
    if b > 0 && a > i64::MAX - b {
        i64::MAX
    } else if b < 0 && a < i64::MIN - b {
        i64::MIN
    } else {
        a + b
    }
}

/// Clamp an `i64` into `[lo, hi]`, a range within `i32`.
pub fn clamp_i64_to_i32(v: i64, lo: i32, hi: i32) -> (r: i32)
    requires
        lo <= hi,
    ensures
        r == clamp(v as int, lo as int, hi as int),
{
    if v < lo as i64 {
        lo
    } else if v > hi as i64 {
        hi
    } else {
        v as i32
    }
}

/// Aggregation is associative within the operational range: aggregating all
/// evidence at once equals aggregating the two partial aggregates, whenever
/// each part sums into the safe range (and the evidence is short enough
/// never to saturate `i64`).
pub proof fn law_aggregate_associative(s1: Seq<LogOdds>, s2: Seq<LogOdds>, a: LogOdds, b: LogOdds)
    requires
        s1.len() + s2.len() <= 0x1_0000_0000,
        safe_min() <= exact_sum(s1) <= safe_max(),
        safe_min() <= exact_sum(s2) <= safe_max(),
        a@ == aggregate_spec(s1),
        b@ == aggregate_spec(s2),
    ensures
        aggregate_spec(s1 + s2) == aggregate_spec(seq![a, b]),
{
    lemma_sat_sum_exact(s1);
    lemma_sat_sum_exact(s2);
    lemma_sat_sum_exact(s1 + s2);
    lemma_exact_sum_concat(s1, s2);
    let p = seq![a, b];
    let q = seq![a];
    assert(p.drop_last() =~= q);
    assert(q.drop_last() =~= Seq::<LogOdds>::empty());
    assert(q.last() == a);
    assert(p.last() == b);
    assert(sat_sum(q.drop_last()) == 0);
    assert(sat_sum(q) == a@);
    assert(sat_sum(p) == a@ + b@);
}

pub proof fn lemma_exact_sum_concat(s1: Seq<LogOdds>, s2: Seq<LogOdds>)
    ensures
        exact_sum(s1 + s2) == exact_sum(s1) + exact_sum(s2),
    decreases s2.len(),
{
    if s2.len() == 0 {
        assert(s1 + s2 =~= s1);
    } else {
        lemma_exact_sum_concat(s1, s2.drop_last());
        assert((s1 + s2).drop_last() =~= s1 + s2.drop_last());
    }
}

/// Saturation never happens when every element has `i32` magnitude and the
/// sequence is short enough.
pub proof fn lemma_sat_sum_exact(s: Seq<LogOdds>)
    requires
        s.len() <= 0x1_0000_0000,
    ensures
        sat_sum(s) == exact_sum(s),
        -(s.len() * 0x8000_0000) <= exact_sum(s) <= s.len() * 0x8000_0000,
    decreases s.len(),
{
    if s.len() > 0 {
        lemma_sat_sum_exact(s.drop_last());
        let n = s.len() - 1;
        assert(n * 0x8000_0000 <= 0x1_0000_0000 * 0x8000_0000) by (nonlinear_arith)
            requires
                n <= 0x1_0000_0000,
        ;
        assert(s.len() * 0x8000_0000 == n * 0x8000_0000 + 0x8000_0000) by (nonlinear_arith)
            requires
                s.len() == n + 1,
        ;
    }
}

/// Aggregation of evidence does not depend on the order of the two halves
/// (commutativity), for evidence short enough never to saturate `i64`.
pub proof fn law_aggregate_commutative(s1: Seq<LogOdds>, s2: Seq<LogOdds>)
    requires
        s1.len() + s2.len() <= 0x1_0000_0000,
    ensures
        aggregate_spec(s1 + s2) == aggregate_spec(s2 + s1),
{
    lemma_sat_sum_exact(s1 + s2);
    lemma_sat_sum_exact(s2 + s1);
    lemma_exact_sum_concat(s1, s2);
    lemma_exact_sum_concat(s2, s1);
}


/// What `ConfidenceInterval::midpoint` returns, in milli-log-odds.
pub open spec fn midpoint_spec(lower: int, upper: int) -> int {
    trunc_div(lower + upper, 2)
}

pub open spec fn min_int(a: int, b: int) -> int {
    if a <= b {
        a
    } else {
        b
    }
}

pub open spec fn max_int(a: int, b: int) -> int {
    if a >= b {
        a
    } else {
        b
    }
}

/// Confidence interval in log-odds space: `[lower, upper]`.
/// A local analysis tool; its aggregation is not associative.
#[derive(Clone, Copy, Debug, PartialEq, Eq, Structural, Hash)]
pub struct ConfidenceInterval {
    /// Lower bound of the confidence range (pessimistic estimate)
    pub lower: LogOdds,
    /// Upper bound of the confidence range (optimistic estimate)
    pub upper: LogOdds,
}

/// Smallest lower bound of a non-empty sequence of intervals.
pub open spec fn min_lower(s: Seq<ConfidenceInterval>) -> int
    decreases s.len(),
{
    if s.len() <= 1 {
        s[0].lower@ as int
    } else {
        min_int(min_lower(s.drop_last()), s.last().lower@ as int)
    }
}

/// Largest upper bound of a non-empty sequence of intervals.
pub open spec fn max_upper(s: Seq<ConfidenceInterval>) -> int
    decreases s.len(),
{
    if s.len() <= 1 {
        s[0].upper@ as int
    } else {
        max_int(max_upper(s.drop_last()), s.last().upper@ as int)
    }
}

/// Exact sum of the midpoints of the intervals.
pub open spec fn midpoint_sum(s: Seq<ConfidenceInterval>) -> int
    decreases s.len(),
{
    if s.len() == 0 {
        0
    } else {
        midpoint_sum(s.drop_last()) + midpoint_spec(s.last().lower@ as int, s.last().upper@ as int)
    }
}

/// Every running sum of the midpoints fits in an `i64` (the summation
/// overflows otherwise).
pub open spec fn midpoint_sums_fit(s: Seq<ConfidenceInterval>) -> bool {
    forall|k: int|
        0 <= k <= s.len() ==> i64::MIN <= #[trigger] midpoint_sum(s.take(k)) <= i64::MAX
}

/// Half of the aggregate width, as `ConfidenceInterval::aggregate` computes it.
pub open spec fn half_width_spec(lower: int, upper: int) -> int {
    clamp(trunc_div(upper - lower, 2), 0, i32::MAX as int)
}

impl ConfidenceInterval {
    /// Create from a point estimate with zero uncertainty.
    pub fn exact(value: LogOdds) -> (r: Self)
        ensures
            r.lower == value,
            r.upper == value,
    {
        ConfidenceInterval { lower: value, upper: value }
    }

    /// Create from bounds (given in either order).
    pub fn new(lower: LogOdds, upper: LogOdds) -> (r: Self)
        ensures
            r.lower@ == min_int(lower@ as int, upper@ as int),
            r.upper@ == max_int(lower@ as int, upper@ as int),
    {
        let (lo, hi) = if lower.0 <= upper.0 {
            (lower.0, upper.0)
        } else {
            (upper.0, lower.0)
        };
        ConfidenceInterval { lower: LogOdds(lo), upper: LogOdds(hi) }
    }

    /// Midpoint estimate (the "best guess"): half the sum of the bounds,
    /// rounded toward zero, so it lies between them.
    pub fn midpoint(self) -> (r: LogOdds)
        ensures
            r@ == midpoint_spec(self.lower@ as int, self.upper@ as int),
            self.lower@ <= self.upper@ ==> self.lower@ <= r@ <= self.upper@,
    {
        let s = (self.lower.0 as i64) + (self.upper.0 as i64);
        let h = s / 2;
        assert(i32::MIN <= h <= i32::MAX);
        LogOdds(h as i32)
    }

    /// Uncertainty width (0 = certain, large = uncertain), saturating.
    pub fn width(self) -> (r: i32)
        ensures
            r == clamp_i32(self.upper@ - self.lower@),
    {
        let d = (self.upper.0 as i64) - (self.lower.0 as i64);
        clamp_i64_to_i32(d, i32::MIN, i32::MAX)
    }

    /// Aggregation of intervals: the union of the ranges, re-centred on the
    /// sum of the midpoints.
    pub fn aggregate(intervals: &[ConfidenceInterval]) -> (r: ConfidenceInterval)
        requires
            midpoint_sums_fit(intervals@),
        ensures
            intervals@.len() == 0 ==> r.lower@ == 0 && r.upper@ == 0,
            intervals@.len() > 0 ==> ({
                let mid = clamp_i32(midpoint_sum(intervals@));
                let half = half_width_spec(min_lower(intervals@), max_upper(intervals@));
                &&& r.lower@ == clamp_i32(mid - half)
                &&& r.upper@ == clamp_i32(mid + half)
            }),
    {
        if intervals.len() == 0 {
            return Self::exact(LogOdds(0));
        }
        let mut lower: i32 = intervals[0].lower.0;
        let mut upper: i32 = intervals[0].upper.0;
        let mut mid_sum: i64 = 0;
        let mut i: usize = 0;
        while i < intervals.len()
            invariant
                0 < intervals@.len(),
                i <= intervals@.len(),
                midpoint_sums_fit(intervals@),
                i == 0 ==> lower == intervals@[0].lower@ && upper == intervals@[0].upper@,
                i > 0 ==> lower == min_lower(intervals@.take(i as int)),
                i > 0 ==> upper == max_upper(intervals@.take(i as int)),
                mid_sum == midpoint_sum(intervals@.take(i as int)),
            decreases intervals@.len() - i,
        {
            let ci = intervals[i];
            proof {
                let t = intervals@.take(i + 1);
                assert(t.drop_last() =~= intervals@.take(i as int));
                assert(t.last() == ci);
                if i == 0 {
                    assert(t.len() == 1);
                }
                assert(i64::MIN <= midpoint_sum(intervals@.take(i + 1)) <= i64::MAX);
            }
            if ci.lower.0 < lower {
                lower = ci.lower.0;
            }
            if ci.upper.0 > upper {
                upper = ci.upper.0;
            }
            let m = ci.midpoint();
            mid_sum = mid_sum + m.0 as i64;
            i = i + 1;
        }
        proof {
            assert(intervals@.take(i as int) =~= intervals@);
        }
        let mid = clamp_i64_to_i32(mid_sum, i32::MIN, i32::MAX);
        let hw = clamp_i64_to_i32(((upper as i64) - (lower as i64)) / 2, 0, i32::MAX);
        let lo = clamp_i64_to_i32((mid as i64) - (hw as i64), i32::MIN, i32::MAX);
        let hi = clamp_i64_to_i32((mid as i64) + (hw as i64), i32::MIN, i32::MAX);
        ConfidenceInterval { lower: LogOdds(lo), upper: LogOdds(hi) }
    }

    /// Intersection; when the intervals do not overlap, their union.
    pub fn narrow(self, other: ConfidenceInterval) -> (r: ConfidenceInterval)
        ensures
            ({
                let lo = max_int(self.lower@ as int, other.lower@ as int);
                let hi = min_int(self.upper@ as int, other.upper@ as int);
                if lo > hi {
                    &&& r.lower@ == min_int(self.lower@ as int, other.lower@ as int)
                    &&& r.upper@ == max_int(self.upper@ as int, other.upper@ as int)
                } else {
                    r.lower@ == lo && r.upper@ == hi
                }
            }),
    {
        let lower = if self.lower.0 >= other.lower.0 {
            self.lower.0
        } else {
            other.lower.0
        };
        let upper = if self.upper.0 <= other.upper.0 {
            self.upper.0
        } else {
            other.upper.0
        };
        if lower > upper {
            let l = if self.lower.0 <= other.lower.0 {
                self.lower.0
            } else {
                other.lower.0
            };
            let u = if self.upper.0 >= other.upper.0 {
                self.upper.0
            } else {
                other.upper.0
            };
            ConfidenceInterval { lower: LogOdds(l), upper: LogOdds(u) }
        } else {
            ConfidenceInterval { lower: LogOdds(lower), upper: LogOdds(upper) }
        }
    }
}

/// Fixed-point utility score: 0..=10000 (basis points).
#[derive(Clone, Copy, Debug, PartialEq, Eq, Structural, PartialOrd, Ord, Hash)]
pub struct Utility(u16);

impl View for Utility {
    type V = u16;

    closed spec fn view(&self) -> u16 {
        self.0
    }
}

impl Utility {
    #[verifier::type_invariant]
    spec fn utility_bounded(self) -> bool {
        self.0 <= 10000
    }

    /// Zero utility.
    pub fn zero() -> (r: Self)
        ensures
            r@ == 0,
    {
        Utility(0)
    }

    /// Full utility (10000 bps).
    pub fn max_value() -> (r: Self)
        ensures
            r@ == 10000,
    {
        Utility(10000)
    }

    pub fn from_bps(bps: u16) -> (r: Self)
        ensures
            r@ == min_int(bps as int, 10000),
    {
        Utility(if bps <= 10000 {
            bps
        } else {
            10000
        })
    }

    pub fn bps(self) -> (r: u16)
        ensures
            r == self@,
            r <= 10000,
    {
        proof {
            use_type_invariant(&self);
        }
        self.0
    }
}

/// Peer reputation: 0..=10000 (basis points).
#[derive(Clone, Copy, Debug, PartialEq, Eq, Structural, PartialOrd, Ord, Hash)]
pub struct Reputation(u16);

impl View for Reputation {
    type V = u16;

    closed spec fn view(&self) -> u16 {
        self.0
    }
}

/// Reputation-weighted log-odds: `evidence * reputation / 10000`, rounded
/// toward zero and clamped into `i32`.
pub open spec fn weight_spec(rep: int, evidence: int) -> int {
    clamp_i32(trunc_div(evidence * rep, 10000))
}

impl Reputation {
    #[verifier::type_invariant]
    spec fn reputation_bounded(self) -> bool {
        self.0 <= 10000
    }

    /// No reputation (unknown or slashed node).
    pub fn zero() -> (r: Self)
        ensures
            r@ == 0,
    {
        Reputation(0)
    }

    /// Half reputation (5000 bps).
    pub fn neutral() -> (r: Self)
        ensures
            r@ == 5000,
    {
        Reputation(5000)
    }

    /// Full reputation (10000 bps).
    pub fn full() -> (r: Self)
        ensures
            r@ == 10000,
    {
        Reputation(10000)
    }

    /// The reputation made of a basis-point value, capped at 10000.
    pub closed spec fn spec_from_bps(bps: int) -> Reputation {
        Reputation(min_int(bps, 10000) as u16)
    }

    pub fn from_bps(bps: u16) -> (r: Self)
        ensures
            r@ == min_int(bps as int, 10000),
            r == Self::spec_from_bps(bps as int),
    {
        Reputation(if bps <= 10000 {
            bps
        } else {
            10000
        })
    }

    pub fn bps(self) -> (r: u16)
        ensures
            r == self@,
            r <= 10000,
    {
        proof {
            use_type_invariant(&self);
        }
        self.0
    }

    /// Scale evidence by reputation. A node with 0 reputation contributes 0.
    pub fn weight_evidence(self, evidence: LogOdds) -> (r: LogOdds)
        ensures
            r@ == weight_spec(self@ as int, evidence@ as int),
    {
        let e = evidence.0 as i64;
        let w = self.0 as i64;
        assert(-0x8000_0000 * 0x10000 <= e * w <= 0x8000_0000 * 0x10000) by (nonlinear_arith)
            requires
                -0x8000_0000 <= e <= 0x8000_0000,
                0 <= w <= 0x10000,
        ;
        let scaled = e * w / 10000;
        LogOdds(clamp_i64_to_i32(scaled, i32::MIN, i32::MAX))
    }
}


/// Full cryptographic identifier for network/persistence.
pub type ClaimHash = [u8; 32];

/// Discrete correlation coordinate for spatial/semantic proximity.
/// Two claims in the same cell are treated as correlated.
#[derive(Clone, Copy, Debug, PartialEq, Eq, Structural, Hash, PartialOrd, Ord)]
pub struct CorrelationCell(pub u64);

/// Default discount factor in basis points (30%).
pub const DEFAULT_DISCOUNT_BPS: u16 = 3000;

/// Maximum geometric decay depth.
pub const MAX_DISCOUNT_DEPTH: u32 = 30;

/// The factor after `n` multiplications by `discount_bps / 10000`.
pub open spec fn factor_spec(n: nat, discount_bps: u16) -> int
    decreases n,
{
    if n == 0 {
        10000
    } else {
        factor_spec((n - 1) as nat, discount_bps) * discount_bps / 10000
    }
}

pub open spec fn capped_rank(rank: int) -> nat {
    if rank < 30 {
        rank as nat
    } else {
        30
    }
}

/// The geometric discount factor of the claim at `rank` (basis points).
pub open spec fn discount_spec(rank: int, discount_bps: u16) -> int {
    factor_spec(capped_rank(rank), discount_bps)
}

/// No step of the factor computation for `rank` overflows a `u64`.
pub open spec fn factor_fits(rank: int, discount_bps: u16) -> bool {
    forall|k: nat| k < capped_rank(rank) ==> #[trigger] factor_spec(k, discount_bps) * discount_bps <= u64::MAX
}

pub proof fn lemma_factor_bounded(n: nat, d: u16)
    requires
        d <= 10000,
    ensures
        0 <= factor_spec(n, d) <= 10000,
    decreases n,
{
    if n > 0 {
        lemma_factor_bounded((n - 1) as nat, d);
        let f = factor_spec((n - 1) as nat, d);
        assert(0 <= f * d <= 10000 * 10000) by (nonlinear_arith)
            requires
                0 <= f <= 10000,
                0 <= d <= 10000,
        ;
    }
}

pub proof fn lemma_factor_fits(rank: int, d: u16)
    requires
        d <= 10000,
    ensures
        factor_fits(rank, d),
        0 <= discount_spec(rank, d) <= 10000,
{
    assert forall|k: nat| k < capped_rank(rank) implies #[trigger] factor_spec(k, d) * d
        <= u64::MAX by {
        lemma_factor_bounded(k, d);
        let f = factor_spec(k, d);
        assert(f * d <= 10000 * 10000) by (nonlinear_arith)
            requires
                0 <= f <= 10000,
                0 <= d <= 10000,
        ;
    }
    lemma_factor_bounded(capped_rank(rank), d);
}

proof fn lemma_factor_step_down(n: nat, d: u16)
    requires
        d <= 10000,
    ensures
        factor_spec(n + 1, d) <= factor_spec(n, d),
{
    lemma_factor_bounded(n, d);
    let f = factor_spec(n, d);
    assert(f * d / 10000 <= f) by (nonlinear_arith)
        requires
            0 <= f,
            0 <= d <= 10000,
    ;
}

proof fn lemma_factor_extremes(n: nat, d: u16)
    ensures
        d == 10000 ==> factor_spec(n, d) == 10000,
        d == 0 && n >= 1 ==> factor_spec(n, d) == 0,
    decreases n,
{
    if n > 0 {
        lemma_factor_extremes((n - 1) as nat, d);
    }
}

/// The discount factor of a rank: within 0..=10000, the same for every rank
/// from the depth cap on, never larger for a later rank, full (10000) at
/// rank 0 and for a discount of 10000, and zero past rank 0 for a discount
/// of 0.
pub proof fn law_discount_factor_shape(rank: int, d: u16)
    requires
        0 <= rank,
        d <= 10000,
    ensures
        0 <= discount_spec(rank, d) <= 10000,
        discount_spec(rank, d) == discount_spec(if rank < 30 { rank } else { 30 }, d),
        discount_spec(rank + 1, d) <= discount_spec(rank, d),
        discount_spec(0, d) == 10000,
        d == 10000 ==> discount_spec(rank, d) == 10000,
        d == 0 && rank >= 1 ==> discount_spec(rank, d) == 0,
{
    lemma_factor_bounded(capped_rank(rank), d);
    if rank < 30 {
        lemma_factor_step_down(rank as nat, d);
    }
    lemma_factor_extremes(capped_rank(rank), d);
}

/// Compute the geometric discount factor for the i-th correlated claim
/// (0-indexed), in basis points: rank 0 gets 10000, rank 1 gets
/// `discount_bps`, rank 2 `discount_bps^2 / 10000`, and so on, stopping
/// after `MAX_DISCOUNT_DEPTH` steps.
pub fn discount_factor(rank: u32, discount_bps: u16) -> (r: u64)
    requires
        factor_fits(rank as int, discount_bps),
    ensures
        r == discount_spec(rank as int, discount_bps),
{
    let mut factor: u64 = 10000;
    let n: u32 = if rank < MAX_DISCOUNT_DEPTH {
        rank
    } else {
        MAX_DISCOUNT_DEPTH
    };
    let mut i: u32 = 0;
    while i < n
        invariant
            i <= n,
            n == capped_rank(rank as int),
            factor_fits(rank as int, discount_bps),
            factor == factor_spec(i as nat, discount_bps),
        decreases n - i,
    {
        assert(factor_spec(i as nat, discount_bps) * discount_bps <= u64::MAX);
        factor = factor * (discount_bps as u64) / 10000;
        i = i + 1;
    }
    factor
}

/// One piece of evidence: weighted log-odds, correlation cell, claim id.
pub type Evidence = (LogOdds, Option<CorrelationCell>, ClaimHash);

/// Grouping key of a cell; `None` sorts before every cell.
pub open spec fn cell_key(c: Option<CorrelationCell>) -> Option<u64> {
    match c {
        Some(x) => Some(x.0),
        None => None,
    }
}

pub open spec fn key_lt(a: Option<u64>, b: Option<u64>) -> bool {
    match (a, b) {
        (None, Some(_)) => true,
        (Some(x), Some(y)) => x < y,
        _ => false,
    }
}

/// Number of keys in `ks` smaller than `k`.
pub open spec fn count_lt(ks: Seq<Option<u64>>, k: Option<u64>) -> nat
    decreases ks.len(),
{
    if ks.len() == 0 {
        0
    } else {
        count_lt(ks.drop_last(), k) + if key_lt(ks.last(), k) {
            1nat
        } else {
            0nat
        }
    }
}

/// Insert a key into an ordered key list unless it is already there.
pub open spec fn insert_key(ks: Seq<Option<u64>>, k: Option<u64>) -> Seq<Option<u64>> {
    if ks.contains(k) {
        ks
    } else {
        let p = count_lt(ks, k) as int;
        ks.take(p) + seq![k] + ks.skip(p)
    }
}

/// The distinct cell keys of the evidence, in ascending order
/// (the iteration order of an ordered map keyed by cell).
pub open spec fn keys_of(ev: Seq<Evidence>) -> Seq<Option<u64>>
    decreases ev.len(),
{
    if ev.len() == 0 {
        Seq::empty()
    } else {
        insert_key(keys_of(ev.drop_last()), cell_key(ev.last().1))
    }
}

/// The evidence in cell `k`, in input order.
pub open spec fn select_cell(ev: Seq<Evidence>, k: Option<u64>) -> Seq<Evidence>
    decreases ev.len(),
{
    if ev.len() == 0 {
        Seq::empty()
    } else if cell_key(ev.last().1) == k {
        select_cell(ev.drop_last(), k).push(ev.last())
    } else {
        select_cell(ev.drop_last(), k)
    }
}

pub open spec fn abs_int(v: int) -> int {
    if v < 0 {
        -v
    } else {
        v
    }
}

/// `a` is ranked before `b`: larger magnitude first, then smaller id.
pub open spec fn stronger(a: Evidence, b: Evidence) -> bool {
    abs_int(a.0@ as int) > abs_int(b.0@ as int) || (abs_int(a.0@ as int) == abs_int(b.0@ as int)
        && hash_lt(a.2, b.2))
}

pub open spec fn stronger_rel() -> spec_fn(Evidence, Evidence) -> bool {
    |a: Evidence, b: Evidence| stronger(a, b)
}

/// The contribution of the piece of evidence at `rank` within its cell.
pub open spec fn discounted(lo: int, rank: int, d: u16) -> int {
    trunc_div(lo * ((discount_spec(rank, d) as u64) as i64), 10000)
}

/// Saturating accumulation of evidence at full weight.
pub open spec fn full_sum(acc: int, g: Seq<Evidence>) -> int
    decreases g.len(),
{
    if g.len() == 0 {
        acc
    } else {
        sat_i64(full_sum(acc, g.drop_last()) + g.last().0@)
    }
}

/// Saturating accumulation of ranked evidence with geometric discount.
pub open spec fn discounted_sum(acc: int, g: Seq<Evidence>, d: u16) -> int
    decreases g.len(),
{
    if g.len() == 0 {
        acc
    } else {
        sat_i64(
            discounted_sum(acc, g.drop_last(), d) + discounted(
                g.last().0@ as int,
                ((g.len() - 1) as u32) as int,
                d,
            ),
        )
    }
}

/// Total over the cells listed in `ks`, in that order.
pub open spec fn correlated_total(ev: Seq<Evidence>, ks: Seq<Option<u64>>, d: u16) -> int
    decreases ks.len(),
{
    if ks.len() == 0 {
        0
    } else {
        let acc = correlated_total(ev, ks.drop_last(), d);
        let k = ks.last();
        if k is None {
            full_sum(acc, select_cell(ev, k))
        } else {
            discounted_sum(acc, sort_stable(select_cell(ev, k), stronger_rel()), d)
        }
    }
}

/// What `LogOdds::aggregate_correlated` returns.
pub open spec fn aggregate_correlated_spec(ev: Seq<Evidence>, d: u16) -> int {
    if ev.len() == 0 {
        0
    } else {
        clamp_safe(correlated_total(ev, keys_of(ev), d))
    }
}

/// The inputs on which correlation-aware aggregation is defined: ranking a
/// cell of two or more claims takes the absolute value of each (which
/// overflows for `i32::MIN`), and discounting must not overflow.
pub open spec fn correlated_ok(ev: Seq<Evidence>, d: u16) -> bool {
    forall|k: Option<u64>|
        #![trigger select_cell(ev, k)]
        k is Some ==> {
            &&& select_cell(ev, k).len() >= 2 ==> no_min(select_cell(ev, k))
            &&& ranked_ok(sort_stable(select_cell(ev, k), stronger_rel()), d)
        }
}

/// No piece of evidence holds `i32::MIN`.
pub open spec fn no_min(g: Seq<Evidence>) -> bool {
    forall|i: int| 0 <= i < g.len() ==> (#[trigger] g[i]).0@ != i32::MIN
}

/// Discounting the evidence at `rank` does not overflow.
pub open spec fn rank_ok(e: Evidence, rank: int, d: u16) -> bool {
    let rk = (rank as u32) as int;
    &&& factor_fits(rk, d)
    &&& i64::MIN <= (e.0@ as int) * ((discount_spec(rk, d) as u64) as i64) <= i64::MAX
}

pub open spec fn ranked_ok(sg: Seq<Evidence>, d: u16) -> bool {
    forall|r: int| 0 <= r < sg.len() ==> rank_ok(#[trigger] sg[r], r, d)
}

/// `stronger` as an executable comparison.
fn is_stronger(a: &Evidence, b: &Evidence) -> (r: bool)
    requires
        a.0@ != i32::MIN,
        b.0@ != i32::MIN,
    ensures
        r == stronger(*a, *b),
{
    let va = a.0.0;
    let vb = b.0.0;
    let aa: i32 = if va < 0 {
        -va
    } else {
        va
    };
    let ab: i32 = if vb < 0 {
        -vb
    } else {
        vb
    };
    if aa > ab {
        true
    } else if aa == ab {
        compare_hash(&a.2, &b.2) < 0
    } else {
        false
    }
}

/// Stable sort of one cell's evidence by decreasing magnitude, then id.
fn sort_by_strength(g: &Vec<Evidence>) -> (r: Vec<Evidence>)
    requires
        g@.len() >= 2 ==> no_min(g@),
    ensures
        r@ == sort_stable(g@, stronger_rel()),
{
    let mut res: Vec<Evidence> = Vec::new();
    let mut i: usize = 0;
    while i < g.len()
        invariant
            i <= g@.len(),
            g@.len() >= 2 ==> no_min(g@),
            res@ == sort_stable(g@.take(i as int), stronger_rel()),
            res@.len() == i,
            forall|k: int| 0 <= k < res@.len() ==> res@[k].0@ != i32::MIN || g@.len() < 2,
        decreases g@.len() - i,
    {
        let x = g[i];
        let ghost r0 = res@;
        proof {
            assert(g@.take(i + 1).drop_last() =~= g@.take(i as int));
            assert(g@.take(i + 1).last() == x);
        }
        res.push(x);
        let mut j: usize = i;
        while j > 0 && is_stronger(&res[j], &res[j - 1])
            invariant
                j <= i,
                i < g@.len(),
                res@.len() == i + 1,
                r0.len() == i,
                g@.len() >= 2 ==> no_min(g@),
                res@ == r0.take(j as int) + seq![x] + r0.skip(j as int),
                forall|k: int| j <= k < r0.len() ==> stronger(x, #[trigger] r0[k]),
                forall|k: int| 0 <= k < res@.len() ==> res@[k].0@ != i32::MIN || g@.len() < 2,
            decreases j,
        {
            let a = res[j];
            let b = res[j - 1];
            res.set(j, b);
            res.set(j - 1, a);
            proof {
                assert(res@ =~= r0.take(j - 1) + seq![x] + r0.skip(j - 1));
            }
            j = j - 1;
        }
        proof {
            lemma_insert_at(r0, x, stronger_rel(), j as int);
        }
        i = i + 1;
    }
    proof {
        assert(g@.take(i as int) =~= g@);
    }
    res
}


fn cell_key_of(c: Option<CorrelationCell>) -> (r: Option<u64>)
    ensures
        r == cell_key(c),
{
    match c {
        Some(x) => Some(x.0),
        None => None,
    }
}

fn key_eq(a: Option<u64>, b: Option<u64>) -> (r: bool)
    ensures
        r == (a == b),
{
    match (a, b) {
        (None, None) => true,
        (Some(x), Some(y)) => x == y,
        _ => false,
    }
}

fn key_less(a: Option<u64>, b: Option<u64>) -> (r: bool)
    ensures
        r == key_lt(a, b),
{
    match (a, b) {
        (None, Some(_)) => true,
        (Some(x), Some(y)) => x < y,
        _ => false,
    }
}

fn contains_key(ks: &Vec<Option<u64>>, k: Option<u64>) -> (r: bool)
    ensures
        r == ks@.contains(k),
{
    let mut i: usize = 0;
    while i < ks.len()
        invariant
            i <= ks@.len(),
            forall|j: int| 0 <= j < i ==> ks@[j] != k,
        decreases ks@.len() - i,
    {
        if key_eq(ks[i], k) {
            return true;
        }
        i = i + 1;
    }
    false
}

fn count_less(ks: &Vec<Option<u64>>, k: Option<u64>) -> (r: usize)
    ensures
        r == count_lt(ks@, k),
        r <= ks@.len(),
{
    let mut c: usize = 0;
    let mut i: usize = 0;
    while i < ks.len()
        invariant
            i <= ks@.len(),
            c == count_lt(ks@.take(i as int), k),
            c <= i,
        decreases ks@.len() - i,
    {
        proof {
            assert(ks@.take(i + 1).drop_last() =~= ks@.take(i as int));
        }
        if key_less(ks[i], k) {
            c = c + 1;
        }
        i = i + 1;
    }
    proof {
        assert(ks@.take(i as int) =~= ks@);
    }
    c
}

fn select_evidence(ev: &[Evidence], k: Option<u64>) -> (r: Vec<Evidence>)
    ensures
        r@ == select_cell(ev@, k),
{
    let mut g: Vec<Evidence> = Vec::new();
    let mut i: usize = 0;
    while i < ev.len()
        invariant
            i <= ev@.len(),
            g@ == select_cell(ev@.take(i as int), k),
        decreases ev@.len() - i,
    {
        proof {
            assert(ev@.take(i + 1).drop_last() =~= ev@.take(i as int));
        }
        let e = ev[i];
        if key_eq(cell_key_of(e.1), k) {
            g.push(e);
        }
        i = i + 1;
    }
    proof {
        assert(ev@.take(i as int) =~= ev@);
    }
    g
}

impl LogOdds {
    /// Correlation-aware aggregation: evidence is grouped by correlation
    /// cell; within a cell, claims are ranked by decreasing magnitude (then
    /// by id) and the claim at rank `i` is weighted by
    /// `discount_factor(i, discount_bps)`; claims without a cell count in
    /// full. Cells are summed in key order, with saturating additions, and
    /// the total is clamped to the safe range.
    pub fn aggregate_correlated(evidence: &[Evidence], discount_bps: u16) -> (r: LogOdds)
        requires
            correlated_ok(evidence@, discount_bps),
        ensures
            r@ == aggregate_correlated_spec(evidence@, discount_bps),
    {
        if evidence.len() == 0 {
            return LogOdds(0);
        }
        let mut keys: Vec<Option<u64>> = Vec::new();
        let mut i: usize = 0;
        while i < evidence.len()
            invariant
                i <= evidence@.len(),
                keys@ == keys_of(evidence@.take(i as int)),
            decreases evidence@.len() - i,
        {
            proof {
                assert(evidence@.take(i + 1).drop_last() =~= evidence@.take(i as int));
            }
            let k = cell_key_of(evidence[i].1);
            if !contains_key(&keys, k) {
                let p = count_less(&keys, k);
                let ghost old_keys = keys@;
                keys.insert(p, k);
                proof {
                    assert(keys@ =~= old_keys.take(p as int) + seq![k] + old_keys.skip(p as int));
                }
            }
            i = i + 1;
        }
        proof {
            assert(evidence@.take(i as int) =~= evidence@);
        }
        let mut total: i64 = 0;
        let mut j: usize = 0;
        while j < keys.len()
            invariant
                j <= keys@.len(),
                correlated_ok(evidence@, discount_bps),
                total == correlated_total(evidence@, keys@.take(j as int), discount_bps),
            decreases keys@.len() - j,
        {
            let k = keys[j];
            proof {
                assert(keys@.take(j + 1).drop_last() =~= keys@.take(j as int));
                assert(keys@.take(j + 1).last() == k);
            }
            let g = select_evidence(evidence, k);
            match k {
                None => {
                    let ghost acc0 = total as int;
                    let mut t: usize = 0;
                    while t < g.len()
                        invariant
                            t <= g@.len(),
                            total == full_sum(acc0, g@.take(t as int)),
                        decreases g@.len() - t,
                    {
                        proof {
                            assert(g@.take(t + 1).drop_last() =~= g@.take(t as int));
                        }
                        total = sat_add_i64(total, g[t].0.0 as i64);
                        t = t + 1;
                    }
                    proof {
                        assert(g@.take(t as int) =~= g@);
                    }
                },
                Some(_) => {
                    let sg = sort_by_strength(&g);
                    proof {
                        crate::ordering::lemma_sort_len(g@, stronger_rel());
                    }
                    let ghost acc0 = total as int;
                    let mut t: usize = 0;
                    while t < sg.len()
                        invariant
                            t <= sg@.len(),
                            sg@.len() == g@.len(),
                            g@ == select_cell(evidence@, k),
                            k is Some,
                            sg@ == sort_stable(g@, stronger_rel()),
                            correlated_ok(evidence@, discount_bps),
                            total == discounted_sum(acc0, sg@.take(t as int), discount_bps),
                        decreases sg@.len() - t,
                    {
                        proof {
                            assert(sg@.take(t + 1).drop_last() =~= sg@.take(t as int));
                            assert(sg@.take(t + 1).last() == sg@[t as int]);
                            let rr = t as int;
                            assert(0 <= rr < g@.len());
                        }
                        let f = discount_factor(t as u32, discount_bps);
                        let lo = sg[t].0.0 as i64;
                        let prod = lo * (f as i64);
                        total = sat_add_i64(total, prod / 10000);
                        t = t + 1;
                    }
                    proof {
                        assert(sg@.take(t as int) =~= sg@);
                    }
                },
            }
            j = j + 1;
        }
        proof {
            assert(keys@.take(j as int) =~= keys@);
        }
        LogOdds(clamp_i64_to_i32(total, -1_000_000_000, 1_000_000_000))
    }
}

/// Every cell key of the evidence is listed, once, in `keys_of`.
pub proof fn lemma_keys_of_contains(ev: Seq<Evidence>, i: int)
    requires
        0 <= i < ev.len(),
    ensures
        keys_of(ev).contains(cell_key(ev[i].1)),
    decreases ev.len(),
{
    let k = cell_key(ev.last().1);
    let ks = keys_of(ev.drop_last());
    if i < ev.len() - 1 {
        lemma_keys_of_contains(ev.drop_last(), i);
        let kk = cell_key(ev[i].1);
        assert(ev.drop_last()[i] == ev[i]);
        if !ks.contains(k) {
            let p = count_lt(ks, k) as int;
            lemma_count_lt_bound(ks, k);
            let j = choose|j: int| 0 <= j < ks.len() && ks[j] == kk;
            let r = ks.take(p) + seq![k] + ks.skip(p);
            if j < p {
                assert(r[j] == kk);
            } else {
                assert(r[j + 1] == kk);
            }
        }
    } else {
        if !ks.contains(k) {
            let p = count_lt(ks, k) as int;
            lemma_count_lt_bound(ks, k);
            let r = ks.take(p) + seq![k] + ks.skip(p);
            assert(r[p] == k);
        }
    }
}

pub proof fn lemma_count_lt_bound(ks: Seq<Option<u64>>, k: Option<u64>)
    ensures
        count_lt(ks, k) <= ks.len(),
    decreases ks.len(),
{
    if ks.len() > 0 {
        lemma_count_lt_bound(ks.drop_last(), k);
    }
}

/// With a discount of at most 100%, correlation-aware aggregation is
/// defined whenever no cell of two or more claims holds `i32::MIN`.
pub proof fn lemma_correlated_ok(ev: Seq<Evidence>, d: u16)
    requires
        d <= 10000,
        forall|k: Option<u64>|
            #![trigger select_cell(ev, k)]
            k is Some && select_cell(ev, k).len() >= 2 ==> no_min(select_cell(ev, k)),
    ensures
        correlated_ok(ev, d),
{
    assert forall|k: Option<u64>| k is Some implies ranked_ok(
        sort_stable(#[trigger] select_cell(ev, k), stronger_rel()),
        d,
    ) by {
        let sg = sort_stable(select_cell(ev, k), stronger_rel());
        assert forall|r: int| 0 <= r < sg.len() implies rank_ok(#[trigger] sg[r], r, d) by {
            let rk = (r as u32) as int;
            lemma_factor_fits(rk, d);
            let f = discount_spec(rk, d);
            assert((f as u64) as i64 == f);
            let v = sg[r].0@ as int;
            assert(-0x8000_0000 * 10000 <= v * f <= 0x8000_0000 * 10000) by (nonlinear_arith)
                requires
                    -0x8000_0000 <= v <= 0x8000_0000,
                    0 <= f <= 10000,
            ;
        }
    }
}

/// Sum of the discount factors of ranks `0..n`.
pub open spec fn factor_total(n: nat, d: u16) -> int
    decreases n,
{
    if n == 0 {
        0
    } else {
        factor_total((n - 1) as nat, d) + discount_spec(n - 1, d)
    }
}

/// Sum of the uncapped factors of ranks `0..n`.
spec fn raw_total(n: nat, d: u16) -> int
    decreases n,
{
    if n == 0 {
        0
    } else {
        raw_total((n - 1) as nat, d) + factor_spec((n - 1) as nat, d)
    }
}

/// The truncated geometric series stays below its limit:
/// `total * (10000 - d) + 10000 * f(n) <= 10000^2`.
proof fn lemma_raw_total(n: nat, d: u16)
    requires
        d < 10000,
    ensures
        raw_total(n, d) * (10000 - d) + 10000 * factor_spec(n, d) <= 100_000_000,
        raw_total(n, d) >= 0,
    decreases n,
{
    lemma_factor_bounded(n, d);
    if n > 0 {
        let m = (n - 1) as nat;
        lemma_raw_total(m, d);
        lemma_factor_bounded(m, d);
        let f = factor_spec(m, d);
        let g = factor_spec(n, d);
        let t = raw_total(m, d);
        assert(g == f * d / 10000);
        assert(10000 * g <= f * d) by (nonlinear_arith)
            requires
                g == f * d / 10000,
                f >= 0,
                d >= 0,
        ;
        assert((t + f) * (10000 - d) + 10000 * g <= 100_000_000) by (nonlinear_arith)
            requires
                t * (10000 - d) + 10000 * f <= 100_000_000,
                10000 * g <= f * d,
                d < 10000,
        ;
    }
}

/// Once zero, the factor stays zero.
proof fn lemma_factor_zero_after(k: nat, n: nat, d: u16)
    requires
        k <= n,
        factor_spec(k, d) == 0,
    ensures
        factor_spec(n, d) == 0,
    decreases n - k,
{
    if k < n {
        lemma_factor_zero_after(k, (n - 1) as nat, d);
    }
}

/// With a factor already zero at the depth cap, capping changes nothing.
proof fn lemma_capped_total(n: nat, d: u16)
    requires
        factor_spec(MAX_DISCOUNT_DEPTH as nat, d) == 0,
    ensures
        factor_total(n, d) == raw_total(n, d),
    decreases n,
{
    if n > 0 {
        lemma_capped_total((n - 1) as nat, d);
        let r = (n - 1) as nat;
        if r >= 30 {
            lemma_factor_zero_after(30, r, d);
        }
    }
}

/// Correlated evidence cannot add up without bound: when the discount
/// reaches zero within `MAX_DISCOUNT_DEPTH` ranks (as the default 30% does),
/// the discount factors of any number of ranks sum to at most
/// `10000 * 10000 / (10000 - d)` basis points (about 1.43 times one full
/// piece of evidence at 30%).
pub proof fn law_discount_total_bounded(n: nat, d: u16)
    requires
        d < 10000,
        factor_spec(MAX_DISCOUNT_DEPTH as nat, d) == 0,
    ensures
        factor_total(n, d) * (10000 - d) <= 100_000_000,
{
    lemma_raw_total(n, d);
    lemma_capped_total(n, d);
    lemma_factor_bounded(n, d);
}

/// One correlation cell of any size holding evidence between 0 and `v`
/// contributes at most `v * 10000 / (10000 - d)`: with the default
/// discount, about 1.43 times one piece of evidence, however many share
/// the cell.
pub proof fn law_correlated_cell_bounded(g: Seq<Evidence>, d: u16, v: int)
    requires
        d < 10000,
        factor_spec(MAX_DISCOUNT_DEPTH as nat, d) == 0,
        0 <= v <= i32::MAX,
        g.len() <= u32::MAX,
        forall|i: int| 0 <= i < g.len() ==> 0 <= (#[trigger] g[i]).0@ <= v,
    ensures
        discounted_sum(0, g, d) * (10000 - d) <= v * 10000,
        discounted_sum(0, g, d) >= 0,
{
    lemma_cell_sum(g, d, v);
    law_discount_total_bounded(g.len(), d);
    let t = factor_total(g.len(), d);
    let s = discounted_sum(0, g, d);
    assert(s * (10000 - d) <= v * 10000) by (nonlinear_arith)
        requires
            s * 10000 <= v * t,
            t * (10000 - d) <= 100_000_000,
            0 <= s,
            0 <= v,
            0 <= t,
            d < 10000,
    ;
}

proof fn lemma_cell_sum(g: Seq<Evidence>, d: u16, v: int)
    requires
        d < 10000,
        factor_spec(MAX_DISCOUNT_DEPTH as nat, d) == 0,
        0 <= v <= i32::MAX,
        g.len() <= u32::MAX,
        forall|i: int| 0 <= i < g.len() ==> 0 <= (#[trigger] g[i]).0@ <= v,
    ensures
        0 <= discounted_sum(0, g, d),
        discounted_sum(0, g, d) * 10000 <= v * factor_total(g.len(), d),
        0 <= factor_total(g.len(), d),
    decreases g.len(),
{
    lemma_raw_total(g.len(), d);
    lemma_capped_total(g.len(), d);
    if g.len() > 0 {
        let h = g.drop_last();
        assert forall|i: int| 0 <= i < h.len() implies 0 <= (#[trigger] h[i]).0@ <= v by {
            assert(h[i] == g[i]);
        }
        lemma_cell_sum(h, d, v);
        let rank = ((g.len() - 1) as u32) as int;
        assert(rank == g.len() - 1);
        lemma_factor_fits(rank, d);
        let f = discount_spec(rank, d);
        let lo = g.last().0@ as int;
        assert(0 <= lo <= v) by {
            assert(g.last() == g[g.len() - 1]);
        }
        assert(((f as u64) as i64) == f);
        let p = discounted(lo, rank, d);
        assert(p == (lo * f) / 10000);
        assert(0 <= lo * f <= v * f) by (nonlinear_arith)
            requires
                0 <= lo <= v,
                0 <= f,
        ;
        assert(0 <= p && p * 10000 <= lo * f) by (nonlinear_arith)
            requires
                p == (lo * f) / 10000,
                0 <= lo * f,
        ;
        let s0 = discounted_sum(0, h, d);
        let t0 = factor_total(h.len(), d);
        assert(t0 + f == factor_total(g.len(), d));
        assert(s0 * 10000 <= v * t0);
        lemma_raw_total(h.len(), d);
        lemma_capped_total(h.len(), d);
        lemma_factor_bounded(h.len(), d);
        assert(0 <= t0 <= 100_000_000) by (nonlinear_arith)
            requires
                t0 * (10000 - d) <= 100_000_000,
                0 <= t0,
                d < 10000,
        ;
        assert((s0 + p) * 10000 <= v * (t0 + f)) by (nonlinear_arith)
            requires
                s0 * 10000 <= v * t0,
                p * 10000 <= lo * f,
                lo * f <= v * f,
        ;
        assert(s0 + p <= i64::MAX) by (nonlinear_arith)
            requires
                (s0 + p) * 10000 <= v * (t0 + f),
                0 <= v <= i32::MAX,
                0 <= t0 + f <= 100_010_000,
                0 <= s0,
                0 <= p,
        ;
    }
}


/// The strengths of the evidence.
pub open spec fn strengths(ev: Seq<Evidence>) -> Seq<LogOdds> {
    ev.map_values(|e: Evidence| e.0)
}

proof fn lemma_uncorrelated_keys(ev: Seq<Evidence>)
    requires
        ev.len() > 0,
        forall|i: int| 0 <= i < ev.len() ==> (#[trigger] ev[i]).1 is None,
    ensures
        keys_of(ev) == seq![None::<u64>],
    decreases ev.len(),
{
    let rest = ev.drop_last();
    if rest.len() > 0 {
        assert forall|i: int| 0 <= i < rest.len() implies (#[trigger] rest[i]).1 is None by {
            assert(rest[i] == ev[i]);
        }
        lemma_uncorrelated_keys(rest);
        assert(seq![None::<u64>].contains(None::<u64>)) by {
            assert(seq![None::<u64>][0] == None::<u64>);
        }
    } else {
        let ks = keys_of(rest);
        assert(ks == Seq::<Option<u64>>::empty());
        assert(!ks.contains(None::<u64>));
        assert(ks.take(0) + seq![None::<u64>] + ks.skip(0) =~= seq![None::<u64>]);
    }
}

proof fn lemma_uncorrelated_cell(ev: Seq<Evidence>)
    requires
        forall|i: int| 0 <= i < ev.len() ==> (#[trigger] ev[i]).1 is None,
    ensures
        select_cell(ev, None) == ev,
    decreases ev.len(),
{
    if ev.len() > 0 {
        let rest = ev.drop_last();
        assert forall|i: int| 0 <= i < rest.len() implies (#[trigger] rest[i]).1 is None by {
            assert(rest[i] == ev[i]);
        }
        lemma_uncorrelated_cell(rest);
        assert(ev.last().1 is None);
        assert(rest.push(ev.last()) =~= ev);
    }
}

proof fn lemma_full_sum_strengths(ev: Seq<Evidence>)
    ensures
        full_sum(0, ev) == sat_sum(strengths(ev)),
    decreases ev.len(),
{
    if ev.len() > 0 {
        lemma_full_sum_strengths(ev.drop_last());
        assert(strengths(ev).drop_last() =~= strengths(ev.drop_last()));
        assert(strengths(ev).last() == ev.last().0);
    }
}

/// Evidence outside every correlation cell is aggregated at full weight:
/// without cells, correlation-aware aggregation gives what plain
/// aggregation of the strengths gives.
pub proof fn law_uncorrelated_matches_aggregate(ev: Seq<Evidence>, d: u16)
    requires
        forall|i: int| 0 <= i < ev.len() ==> (#[trigger] ev[i]).1 is None,
    ensures
        aggregate_correlated_spec(ev, d) == aggregate_spec(strengths(ev)),
{
    if ev.len() == 0 {
        assert(strengths(ev) =~= Seq::<LogOdds>::empty());
    } else {
        lemma_uncorrelated_keys(ev);
        lemma_uncorrelated_cell(ev);
        lemma_full_sum_strengths(ev);
        let ks = seq![None::<u64>];
        assert(ks.drop_last() =~= Seq::<Option<u64>>::empty());
        assert(correlated_total(ev, ks.drop_last(), d) == 0);
        assert(ks.last() == None::<u64>);
        assert(ks.len() == 1);
        assert(correlated_total(ev, ks, d) == full_sum(0, select_cell(ev, None)));
    }
}


/// Sum, over the keys `ks`, of the exact sum of the strengths in each cell.
pub open spec fn cells_sum(ev: Seq<Evidence>, ks: Seq<Option<u64>>) -> int
    decreases ks.len(),
{
    if ks.len() == 0 {
        0
    } else {
        cells_sum(ev, ks.drop_last()) + exact_sum(strengths(select_cell(ev, ks.last())))
    }
}

/// Number of pieces of evidence in the cells `ks`.
pub open spec fn cells_count(ev: Seq<Evidence>, ks: Seq<Option<u64>>) -> int
    decreases ks.len(),
{
    if ks.len() == 0 {
        0
    } else {
        cells_count(ev, ks.drop_last()) + select_cell(ev, ks.last()).len()
    }
}

proof fn lemma_strengths_push(g: Seq<Evidence>, e: Evidence)
    ensures
        exact_sum(strengths(g.push(e))) == exact_sum(strengths(g)) + e.0@,
{
    assert(strengths(g.push(e)).drop_last() =~= strengths(g));
    assert(strengths(g.push(e)).last() == e.0);
}

proof fn lemma_cells_concat(ev: Seq<Evidence>, a: Seq<Option<u64>>, b: Seq<Option<u64>>)
    ensures
        cells_sum(ev, a + b) == cells_sum(ev, a) + cells_sum(ev, b),
        cells_count(ev, a + b) == cells_count(ev, a) + cells_count(ev, b),
    decreases b.len(),
{
    if b.len() == 0 {
        assert(a + b =~= a);
    } else {
        lemma_cells_concat(ev, a, b.drop_last());
        assert((a + b).drop_last() =~= a + b.drop_last());
        assert((a + b).last() == b.last());
    }
}

proof fn lemma_cells_push_evidence(ev: Seq<Evidence>, e: Evidence, ks: Seq<Option<u64>>)
    requires
        ks.no_duplicates(),
    ensures
        cells_sum(ev.push(e), ks) == cells_sum(ev, ks) + if ks.contains(cell_key(e.1)) {
            e.0@ as int
        } else {
            0
        },
        cells_count(ev.push(e), ks) == cells_count(ev, ks) + if ks.contains(cell_key(e.1)) {
            1int
        } else {
            0
        },
    decreases ks.len(),
{
    let ke = cell_key(e.1);
    if ks.len() > 0 {
        let d = ks.drop_last();
        assert(d.no_duplicates());
        lemma_cells_push_evidence(ev, e, d);
        let k = ks.last();
        assert(ev.push(e).drop_last() =~= ev);
        if k == ke {
            lemma_strengths_push(select_cell(ev, k), e);
            assert(!d.contains(ke)) by {
                if d.contains(ke) {
                    let j = choose|j: int| 0 <= j < d.len() && d[j] == ke;
                    assert(ks[j] == ks[ks.len() - 1]);
                }
            }
            assert(ks.contains(ke)) by {
                assert(ks[ks.len() - 1] == ke);
            }
        } else {
            assert(ks.contains(ke) <==> d.contains(ke)) by {
                if ks.contains(ke) {
                    let j = choose|j: int| 0 <= j < ks.len() && ks[j] == ke;
                    assert(j < ks.len() - 1);
                    assert(d[j] == ke);
                }
                if d.contains(ke) {
                    let j = choose|j: int| 0 <= j < d.len() && d[j] == ke;
                    assert(ks[j] == ke);
                }
            }
        }
    }
}

proof fn lemma_select_absent(ev: Seq<Evidence>, k: Option<u64>)
    requires
        !keys_of(ev).contains(k),
    ensures
        select_cell(ev, k).len() == 0,
    decreases ev.len(),
{
    if ev.len() > 0 {
        lemma_keys_of_contains(ev, ev.len() - 1);
        let p = ev.drop_last();
        let ks = keys_of(p);
        let kl = cell_key(ev.last().1);
        assert(!ks.contains(k)) by {
            if ks.contains(k) {
                let j = choose|j: int| 0 <= j < ks.len() && ks[j] == k;
                if !ks.contains(kl) {
                    let q = count_lt(ks, kl) as int;
                    lemma_count_lt_bound(ks, kl);
                    let r = ks.take(q) + seq![kl] + ks.skip(q);
                    if j < q {
                        assert(r[j] == k);
                    } else {
                        assert(r[j + 1] == k);
                    }
                }
            }
        }
        lemma_select_absent(p, k);
    }
}

/// The cells of `keys_of` partition the evidence: listed once each, their
/// sums add up to the whole sum and their sizes to its length.
proof fn lemma_cells_partition(ev: Seq<Evidence>)
    ensures
        keys_of(ev).no_duplicates(),
        cells_sum(ev, keys_of(ev)) == exact_sum(strengths(ev)),
        cells_count(ev, keys_of(ev)) == ev.len(),
    decreases ev.len(),
{
    if ev.len() > 0 {
        let p = ev.drop_last();
        let e = ev.last();
        let ke = cell_key(e.1);
        lemma_cells_partition(p);
        let ks = keys_of(p);
        assert(p.push(e) =~= ev);
        lemma_strengths_push(p, e);
        if ks.contains(ke) {
            lemma_cells_push_evidence(p, e, ks);
            assert(keys_of(ev) == ks);
            assert(cells_sum(ev, ks) == cells_sum(p.push(e), ks));
            assert(cells_count(ev, ks) == cells_count(p.push(e), ks));
        } else {
            let q = count_lt(ks, ke) as int;
            lemma_count_lt_bound(ks, ke);
            let r = ks.take(q) + seq![ke] + ks.skip(q);
            assert(keys_of(ev) == r);
            assert(r.no_duplicates()) by {
                assert forall|i: int, j: int| 0 <= i < r.len() && 0 <= j < r.len() && i != j implies r[i] != r[j] by {
                    if i < q && j < q {
                        assert(r[i] == ks[i] && r[j] == ks[j]);
                    } else if i > q && j > q {
                        assert(r[i] == ks[i - 1] && r[j] == ks[j - 1]);
                    } else if i < q && j > q {
                        assert(r[i] == ks[i] && r[j] == ks[j - 1]);
                    } else if i > q && j < q {
                        assert(r[i] == ks[i - 1] && r[j] == ks[j]);
                    } else if i == q {
                        if j < q {
                            assert(r[j] == ks[j]);
                        } else {
                            assert(r[j] == ks[j - 1]);
                        }
                    } else {
                        if i < q {
                            assert(r[i] == ks[i]);
                        } else {
                            assert(r[i] == ks[i - 1]);
                        }
                    }
                }
            }
            lemma_cells_push_evidence(p, e, r);
            assert(r.contains(ke)) by {
                assert(r[q] == ke);
            }
            lemma_select_absent(p, ke);
            assert(strengths(select_cell(p, ke)) =~= Seq::<LogOdds>::empty());
            assert(ks =~= ks.take(q) + ks.skip(q));
            lemma_cells_concat(p, ks.take(q), ks.skip(q));
            lemma_cells_concat(p, ks.take(q) + seq![ke], ks.skip(q));
            lemma_cells_concat(p, ks.take(q), seq![ke]);
            assert(seq![ke].drop_last() =~= Seq::<Option<u64>>::empty());
            assert(seq![ke].last() == ke);
            assert(cells_sum(p, Seq::<Option<u64>>::empty()) == 0);
            assert(cells_count(p, Seq::<Option<u64>>::empty()) == 0);
            assert(exact_sum(strengths(select_cell(p, ke))) == 0);
            assert(cells_sum(p, seq![ke]) == 0);
            assert(cells_count(p, seq![ke]) == 0);
            assert(cells_sum(p, r) == cells_sum(p, ks));
            assert(cells_count(p, r) == cells_count(p, ks));
            assert(cells_sum(ev, r) == cells_sum(p.push(e), r));
            assert(cells_count(ev, r) == cells_count(p.push(e), r));
        }
    } else {
        assert(strengths(ev) =~= Seq::<LogOdds>::empty());
    }
}

proof fn lemma_strengths_bound(g: Seq<Evidence>)
    ensures
        -(0x8000_0000 * g.len()) <= exact_sum(strengths(g)) <= 0x8000_0000 * g.len(),
    decreases g.len(),
{
    if g.len() > 0 {
        lemma_strengths_bound(g.drop_last());
        lemma_strengths_push(g.drop_last(), g.last());
        assert(g.drop_last().push(g.last()) =~= g);
    } else {
        assert(strengths(g) =~= Seq::<LogOdds>::empty());
    }
}

proof fn lemma_full_sum_exact(acc: int, g: Seq<Evidence>)
    requires
        -0x7fff_ffff_ffff_ffff <= acc - 0x8000_0000 * g.len(),
        acc + 0x8000_0000 * g.len() <= 0x7fff_ffff_ffff_ffff,
    ensures
        full_sum(acc, g) == acc + exact_sum(strengths(g)),
    decreases g.len(),
{
    if g.len() > 0 {
        let d = g.drop_last();
        lemma_full_sum_exact(acc, d);
        lemma_strengths_bound(d);
        lemma_strengths_push(d, g.last());
        assert(d.push(g.last()) =~= g);
    } else {
        assert(strengths(g) =~= Seq::<LogOdds>::empty());
    }
}

proof fn lemma_single_discounted(acc: int, g: Seq<Evidence>, d: u16)
    requires
        g.len() <= 1,
        -0x7fff_ffff_ffff_ffff <= acc - 0x8000_0000 * g.len(),
        acc + 0x8000_0000 * g.len() <= 0x7fff_ffff_ffff_ffff,
    ensures
        discounted_sum(acc, sort_stable(g, stronger_rel()), d) == acc + exact_sum(strengths(g)),
{
    if g.len() == 0 {
        assert(g =~= Seq::<Evidence>::empty());
        assert(sort_stable(g, stronger_rel()) == Seq::<Evidence>::empty());
        assert(strengths(g) =~= Seq::<LogOdds>::empty());
        assert(discounted_sum(acc, Seq::<Evidence>::empty(), d) == acc);
        assert(exact_sum(Seq::<LogOdds>::empty()) == 0);
    } else {
        let e = g[0];
        assert(g.drop_last() =~= Seq::<Evidence>::empty());
        assert(g.last() == e);
        assert(sort_stable(Seq::<Evidence>::empty(), stronger_rel()) == Seq::<Evidence>::empty());
        assert(crate::ordering::insert_stable(Seq::<Evidence>::empty(), e, stronger_rel()) == seq![e]);
        let sg = sort_stable(g, stronger_rel());
        assert(sg == seq![e]);
        assert(sg.drop_last() =~= Seq::<Evidence>::empty());
        assert(discount_spec(0, d) == 10000);
        let v = e.0@ as int;
        assert(trunc_div(v * 10000, 10000) == v) by (nonlinear_arith);
        assert(discounted(v, 0, d) == v);
        lemma_strengths_push(Seq::<Evidence>::empty(), e);
        assert(Seq::<Evidence>::empty().push(e) =~= g);
        assert(strengths(Seq::<Evidence>::empty()) =~= Seq::<LogOdds>::empty());
        assert(exact_sum(Seq::<LogOdds>::empty()) == 0);
        assert(exact_sum(strengths(g)) == v);
        assert(discounted_sum(acc, Seq::<Evidence>::empty(), d) == acc);
        assert(sg.last() == e);
        assert(((sg.len() - 1) as u32) as int == 0);
        assert(discounted_sum(acc, sg, d) == sat_i64(acc + discounted(v, 0, d)));
    }
}

/// Cells of at most one piece of evidence (but for evidence without a
/// cell) are not discounted: when no partial total can saturate, the
/// correlation-aware total is the plain sum of the cells.
proof fn lemma_correlated_total_plain(ev: Seq<Evidence>, ks: Seq<Option<u64>>, d: u16)
    requires
        forall|k: Option<u64>| #[trigger] ks.contains(k) && k is Some ==> select_cell(ev, k).len() <= 1,
        0x8000_0000 * cells_count(ev, ks) <= 0x7fff_ffff_ffff_ffff,
    ensures
        correlated_total(ev, ks, d) == cells_sum(ev, ks),
        -(0x8000_0000 * cells_count(ev, ks)) <= cells_sum(ev, ks) <= 0x8000_0000 * cells_count(ev, ks),
        cells_count(ev, ks) >= 0,
    decreases ks.len(),
{
    if ks.len() > 0 {
        let p = ks.drop_last();
        let k = ks.last();
        let g = select_cell(ev, k);
        assert forall|x: Option<u64>| #[trigger] p.contains(x) && x is Some implies select_cell(ev, x).len() <= 1 by {
            let j = choose|j: int| 0 <= j < p.len() && p[j] == x;
            assert(ks[j] == x);
            assert(ks.contains(x));
        }
        assert(cells_count(ev, ks) == cells_count(ev, p) + g.len());
        lemma_correlated_total_plain(ev, p, d);
        let acc = correlated_total(ev, p, d);
        assert(0x8000_0000 * cells_count(ev, ks) == 0x8000_0000 * cells_count(ev, p) + 0x8000_0000 * g.len());
        lemma_strengths_bound(g);
        if k is None {
            lemma_full_sum_exact(acc, g);
        } else {
            assert(ks[ks.len() - 1] == k);
            assert(ks.contains(k));
            lemma_single_discounted(acc, g, d);
        }
    }
}

/// Correlation-aware aggregation equals plain aggregation of the strengths
/// when no cell holds two or more pieces of evidence (evidence without a
/// cell aside), for fewer than 2^32 pieces of evidence.
pub proof fn law_distinct_cells_match_aggregate(ev: Seq<Evidence>, d: u16)
    requires
        ev.len() < 0x1_0000_0000,
        forall|i: int, j: int|
            0 <= i < ev.len() && 0 <= j < ev.len() && i != j && (#[trigger] ev[i]).1 is Some
                ==> ev[i].1 != (#[trigger] ev[j]).1,
    ensures
        aggregate_correlated_spec(ev, d) == aggregate_spec(strengths(ev)),
{
    if ev.len() == 0 {
        assert(strengths(ev) =~= Seq::<LogOdds>::empty());
    } else {
        lemma_cells_partition(ev);
        let ks = keys_of(ev);
        assert forall|k: Option<u64>| #[trigger] ks.contains(k) && k is Some implies select_cell(ev, k).len() <= 1 by {
            lemma_select_at_most_one(ev, k);
        }
        assert(0x8000_0000 * cells_count(ev, ks) <= 0x7fff_ffff_ffff_ffff);
        lemma_correlated_total_plain(ev, ks, d);
        lemma_sat_sum_exact(strengths(ev));
    }
}

/// A cell that no two pieces of evidence share holds at most one.
proof fn lemma_select_at_most_one(ev: Seq<Evidence>, k: Option<u64>)
    requires
        k is Some,
        forall|i: int, j: int|
            0 <= i < ev.len() && 0 <= j < ev.len() && i != j && (#[trigger] ev[i]).1 is Some
                ==> ev[i].1 != (#[trigger] ev[j]).1,
    ensures
        select_cell(ev, k).len() <= 1,
        select_cell(ev, k).len() == 1 ==> exists|i: int| 0 <= i < ev.len() && cell_key(ev[i].1) == k,
    decreases ev.len(),
{
    if ev.len() > 0 {
        let p = ev.drop_last();
        assert forall|i: int, j: int|
            0 <= i < p.len() && 0 <= j < p.len() && i != j && (#[trigger] p[i]).1 is Some
                implies p[i].1 != (#[trigger] p[j]).1 by {
            assert(p[i] == ev[i] && p[j] == ev[j]);
        }
        lemma_select_at_most_one(p, k);
        let l = ev.last();
        if cell_key(l.1) == k {
            assert(l.1 is Some);
            if select_cell(p, k).len() == 1 {
                let i = choose|i: int| 0 <= i < p.len() && cell_key(p[i].1) == k;
                assert(p[i] == ev[i]);
                assert(ev[i].1 == l.1);
                assert(ev[ev.len() - 1] == l);
            }
            assert(cell_key(ev[ev.len() - 1].1) == k);
        } else if select_cell(p, k).len() == 1 {
            let i = choose|i: int| 0 <= i < p.len() && cell_key(p[i].1) == k;
            assert(p[i] == ev[i]);
        }
    }
}


/// Strictly ascending cell keys.
pub open spec fn keys_sorted(ks: Seq<Option<u64>>) -> bool {
    forall|i: int, j: int| 0 <= i < j < ks.len() ==> key_lt(#[trigger] ks[i], #[trigger] ks[j])
}

proof fn lemma_key_order(a: Option<u64>, b: Option<u64>, c: Option<u64>)
    ensures
        !key_lt(a, a),
        key_lt(a, b) && key_lt(b, c) ==> key_lt(a, c),
        a != b ==> key_lt(a, b) || key_lt(b, a),
        !(key_lt(a, b) && key_lt(b, a)),
        !key_lt(a, None::<u64>),
{
}

proof fn lemma_count_lt_sorted(ks: Seq<Option<u64>>, k: Option<u64>)
    requires
        keys_sorted(ks),
        !ks.contains(k),
    ensures
        count_lt(ks, k) <= ks.len(),
        forall|i: int| 0 <= i < count_lt(ks, k) ==> key_lt(#[trigger] ks[i], k),
        forall|i: int| count_lt(ks, k) <= i < ks.len() ==> key_lt(k, #[trigger] ks[i]),
    decreases ks.len(),
{
    if ks.len() > 0 {
        let d = ks.drop_last();
        let l = ks.last();
        assert(keys_sorted(d)) by {
            assert forall|i: int, j: int| 0 <= i < j < d.len() implies key_lt(#[trigger] d[i], #[trigger] d[j]) by {
                assert(d[i] == ks[i] && d[j] == ks[j]);
            }
        }
        assert(!d.contains(k)) by {
            if d.contains(k) {
                let j = choose|j: int| 0 <= j < d.len() && d[j] == k;
                assert(ks[j] == k);
            }
        }
        lemma_count_lt_sorted(d, k);
        assert(ks[ks.len() - 1] == l);
        lemma_key_order(l, k, k);
        if key_lt(l, k) {
            assert forall|i: int| 0 <= i < d.len() implies key_lt(#[trigger] ks[i], k) by {
                assert(key_lt(ks[i], ks[ks.len() - 1]));
                lemma_key_order(ks[i], l, k);
            }
            assert forall|i: int| 0 <= i < count_lt(ks, k) implies key_lt(#[trigger] ks[i], k) by {
                if i < d.len() {
                    assert(key_lt(ks[i], ks[ks.len() - 1]));
                    lemma_key_order(ks[i], l, k);
                }
            }
            assert(count_lt(d, k) == d.len()) by {
                if count_lt(d, k) < d.len() {
                    let i = count_lt(d, k) as int;
                    assert(key_lt(k, d[i]));
                    assert(d[i] == ks[i]);
                    assert(key_lt(ks[i], k));
                    lemma_key_order(k, ks[i], k);
                }
            }
        } else {
            assert(l != k);
            assert(key_lt(k, l));
            assert forall|i: int| count_lt(ks, k) <= i < ks.len() implies key_lt(k, #[trigger] ks[i]) by {
                if i < d.len() {
                    assert(d[i] == ks[i]);
                }
            }
            assert forall|i: int| 0 <= i < count_lt(ks, k) implies key_lt(#[trigger] ks[i], k) by {
                assert(d[i] == ks[i]);
            }
        }
    }
}

/// The keys of the evidence ascend strictly, and are exactly the keys of
/// its pieces.
proof fn lemma_keys_of_sorted(ev: Seq<Evidence>)
    ensures
        keys_sorted(keys_of(ev)),
        forall|k: Option<u64>| #[trigger] keys_of(ev).contains(k) ==> exists|i: int|
            0 <= i < ev.len() && cell_key(ev[i].1) == k,
    decreases ev.len(),
{
    if ev.len() > 0 {
        let p = ev.drop_last();
        let kl = cell_key(ev.last().1);
        lemma_keys_of_sorted(p);
        let ks = keys_of(p);
        if !ks.contains(kl) {
            lemma_count_lt_sorted(ks, kl);
            let q = count_lt(ks, kl) as int;
            let r = ks.take(q) + seq![kl] + ks.skip(q);
            assert(keys_of(ev) == r);
            assert forall|i: int, j: int| 0 <= i < j < r.len() implies key_lt(#[trigger] r[i], #[trigger] r[j]) by {
                if j < q {
                    assert(r[i] == ks[i] && r[j] == ks[j]);
                } else if j == q {
                    assert(r[i] == ks[i]);
                } else if i < q {
                    assert(r[i] == ks[i] && r[j] == ks[j - 1]);
                    assert(key_lt(ks[i], kl));
                    assert(key_lt(kl, ks[j - 1]));
                    lemma_key_order(ks[i], kl, ks[j - 1]);
                } else if i == q {
                    assert(r[j] == ks[j - 1]);
                } else {
                    assert(r[i] == ks[i - 1] && r[j] == ks[j - 1]);
                }
            }
            assert forall|k: Option<u64>| #[trigger] r.contains(k) implies exists|i: int|
                0 <= i < ev.len() && cell_key(ev[i].1) == k by {
                let j = choose|j: int| 0 <= j < r.len() && r[j] == k;
                if j == q {
                    assert(cell_key(ev[ev.len() - 1].1) == k);
                } else {
                    if j < q {
                        assert(r[j] == ks[j]);
                    } else {
                        assert(r[j] == ks[j - 1]);
                    }
                    assert(ks.contains(k));
                    let i = choose|i: int| 0 <= i < p.len() && cell_key(p[i].1) == k;
                    assert(p[i] == ev[i]);
                }
            }
        } else {
            assert forall|k: Option<u64>| #[trigger] ks.contains(k) implies exists|i: int|
                0 <= i < ev.len() && cell_key(ev[i].1) == k by {
                let i = choose|i: int| 0 <= i < p.len() && cell_key(p[i].1) == k;
                assert(p[i] == ev[i]);
            }
        }
    }
}


proof fn lemma_keys_sorted_unique(a: Seq<Option<u64>>, b: Seq<Option<u64>>)
    requires
        keys_sorted(a),
        keys_sorted(b),
        forall|k: Option<u64>| a.contains(k) <==> b.contains(k),
    ensures
        a == b,
    decreases a.len() + b.len(),
{
    if a.len() > 0 && b.len() > 0 {
        let x = a[0];
        let y = b[0];
        assert(a.contains(x));
        assert(b.contains(y));
        let kx = choose|k: int| 0 <= k < b.len() && b[k] == x;
        let ky = choose|k: int| 0 <= k < a.len() && a[k] == y;
        if x != y {
            lemma_key_order(x, y, y);
            assert(ky > 0 && kx > 0);
            assert(key_lt(a[0], a[ky]));
            assert(key_lt(b[0], b[kx]));
        }
        let a1 = a.drop_first();
        let b1 = b.drop_first();
        assert(keys_sorted(a1)) by {
            assert forall|i: int, j: int| 0 <= i < j < a1.len() implies key_lt(#[trigger] a1[i], #[trigger] a1[j]) by {
                assert(a1[i] == a[i + 1] && a1[j] == a[j + 1]);
            }
        }
        assert(keys_sorted(b1)) by {
            assert forall|i: int, j: int| 0 <= i < j < b1.len() implies key_lt(#[trigger] b1[i], #[trigger] b1[j]) by {
                assert(b1[i] == b[i + 1] && b1[j] == b[j + 1]);
            }
        }
        assert forall|k: Option<u64>| a1.contains(k) <==> b1.contains(k) by {
            if a1.contains(k) {
                let i = choose|i: int| 0 <= i < a1.len() && a1[i] == k;
                assert(a[i + 1] == k);
                assert(key_lt(a[0], a[i + 1]));
                lemma_key_order(k, k, k);
                assert(b.contains(k));
                let j = choose|j: int| 0 <= j < b.len() && b[j] == k;
                assert(j != 0);
                assert(b1[j - 1] == k);
            }
            if b1.contains(k) {
                let i = choose|i: int| 0 <= i < b1.len() && b1[i] == k;
                assert(b[i + 1] == k);
                assert(key_lt(b[0], b[i + 1]));
                lemma_key_order(k, k, k);
                assert(a.contains(k));
                let j = choose|j: int| 0 <= j < a.len() && a[j] == k;
                assert(j != 0);
                assert(a1[j - 1] == k);
            }
        }
        lemma_keys_sorted_unique(a1, b1);
        assert(a =~= seq![x] + a1);
        assert(b =~= seq![y] + b1);
    } else if a.len() > 0 {
        assert(a.contains(a[0]));
    } else if b.len() > 0 {
        assert(b.contains(b[0]));
    }
}

proof fn lemma_select_count(ev: Seq<Evidence>, k: Option<u64>, x: Evidence)
    ensures
        select_cell(ev, k).to_multiset().count(x) == if cell_key(x.1) == k {
            ev.to_multiset().count(x)
        } else {
            0
        },
        select_cell(ev, k).len() <= ev.len(),
    decreases ev.len(),
{
    broadcast use vstd::seq_lib::group_to_multiset_ensures;

    if ev.len() > 0 {
        lemma_select_count(ev.drop_last(), k, x);
        assert(ev.drop_last().push(ev.last()) =~= ev);
    }
}

proof fn lemma_select_distinct(ev: Seq<Evidence>, k: Option<u64>)
    requires
        forall|i: int, j: int| 0 <= i < j < ev.len() ==> (#[trigger] ev[i]).2 != (#[trigger] ev[j]).2,
    ensures
        forall|i: int, j: int|
            0 <= i < j < select_cell(ev, k).len() ==> (#[trigger] select_cell(ev, k)[i]).2 != (
            #[trigger] select_cell(ev, k)[j]).2,
        forall|x: Evidence| #[trigger] select_cell(ev, k).contains(x) ==> ev.contains(x),
    decreases ev.len(),
{
    if ev.len() > 0 {
        let p = ev.drop_last();
        assert forall|i: int, j: int| 0 <= i < j < p.len() implies (#[trigger] p[i]).2 != (#[trigger] p[j]).2 by {
            assert(p[i] == ev[i] && p[j] == ev[j]);
        }
        lemma_select_distinct(p, k);
        let g = select_cell(p, k);
        let l = ev.last();
        assert forall|x: Evidence| #[trigger] g.contains(x) implies ev.contains(x) by {
            assert(p.contains(x));
            let i = choose|i: int| 0 <= i < p.len() && p[i] == x;
            assert(ev[i] == x);
        }
        if cell_key(l.1) == k {
            let s2 = g.push(l);
            assert forall|i: int, j: int| 0 <= i < j < s2.len() implies (#[trigger] s2[i]).2 != (#[trigger] s2[j]).2 by {
                if j == s2.len() - 1 {
                    assert(g.contains(s2[i]));
                    assert(p.contains(s2[i]));
                    let t = choose|t: int| 0 <= t < p.len() && p[t] == s2[i];
                    assert(ev[t] == s2[i]);
                    assert(ev[ev.len() - 1] == l);
                } else {
                    assert(s2[i] == g[i] && s2[j] == g[j]);
                }
            }
            assert forall|x: Evidence| #[trigger] s2.contains(x) implies ev.contains(x) by {
                let i = choose|i: int| 0 <= i < s2.len() && s2[i] == x;
                if i == s2.len() - 1 {
                    assert(ev[ev.len() - 1] == x);
                } else {
                    assert(g.contains(x));
                }
            }
        }
    }
}

proof fn lemma_stronger_total(s: Seq<Evidence>)
    requires
        forall|i: int, j: int| 0 <= i < j < s.len() ==> (#[trigger] s[i]).2 != (#[trigger] s[j]).2,
    ensures
        crate::ordering::strict_total_on(s, stronger_rel()),
{
    assert forall|i: int, j: int| 0 <= i < s.len() && 0 <= j < s.len() && i != j implies (
    stronger_rel())(s[i], s[j]) || (stronger_rel())(s[j], s[i]) by {
        if i < j {
            assert(s[i].2 != s[j].2);
        } else {
            assert(s[j].2 != s[i].2);
        }
        crate::ordering::lemma_hash_order(s[i].2, s[j].2, s[j].2);
    }
    assert forall|i: int| 0 <= i < s.len() implies !(stronger_rel())(#[trigger] s[i], s[i]) by {
        crate::ordering::lemma_hash_order(s[i].2, s[i].2, s[i].2);
    }
    assert forall|x: Evidence, y: Evidence, z: Evidence|
        #[trigger] (stronger_rel())(x, y) && #[trigger] (stronger_rel())(y, z) && s.contains(x)
            && s.contains(y) && s.contains(z) implies (stronger_rel())(x, z) by {
        crate::ordering::lemma_hash_order(x.2, y.2, z.2);
    }
}

proof fn lemma_strengths_split(s: Seq<Evidence>, k: int)
    requires
        0 <= k < s.len(),
    ensures
        exact_sum(strengths(s)) == exact_sum(strengths(s.remove(k))) + s[k].0@,
    decreases s.len(),
{
    if k < s.len() - 1 {
        lemma_strengths_split(s.drop_last(), k);
        assert(s.remove(k).drop_last() =~= s.drop_last().remove(k));
        assert(s.remove(k).drop_last().push(s.last()) =~= s.remove(k));
        lemma_strengths_push(s.remove(k).drop_last(), s.last());
        assert(s.drop_last().push(s.last()) =~= s);
        lemma_strengths_push(s.drop_last(), s.last());
    } else {
        assert(s.remove(k) =~= s.drop_last());
        assert(s.drop_last().push(s.last()) =~= s);
        lemma_strengths_push(s.drop_last(), s.last());
    }
}

proof fn lemma_strengths_perm(s: Seq<Evidence>, t: Seq<Evidence>)
    requires
        s.to_multiset() == t.to_multiset(),
    ensures
        exact_sum(strengths(s)) == exact_sum(strengths(t)),
    decreases s.len(),
{
    broadcast use vstd::seq_lib::group_to_multiset_ensures;

    vstd::seq_lib::to_multiset_len(s);
    vstd::seq_lib::to_multiset_len(t);
    if s.len() > 0 {
        let x = s.last();
        assert(s.to_multiset().count(x) > 0);
        assert(t.contains(x));
        let k = choose|k: int| 0 <= k < t.len() && t[k] == x;
        vstd::seq_lib::to_multiset_remove(t, k);
        assert(s.drop_last().push(x) =~= s);
        assert(s.drop_last().to_multiset() == s.to_multiset().remove(x));
        lemma_strengths_perm(s.drop_last(), t.remove(k));
        lemma_strengths_split(t, k);
        lemma_strengths_push(s.drop_last(), x);
    } else {
        assert(strengths(s) =~= Seq::<LogOdds>::empty());
        assert(strengths(t) =~= Seq::<LogOdds>::empty());
    }
}


proof fn lemma_keys_of_same(e1: Seq<Evidence>, e2: Seq<Evidence>)
    requires
        e1.to_multiset() == e2.to_multiset(),
    ensures
        keys_of(e1) == keys_of(e2),
{
    broadcast use vstd::seq_lib::group_to_multiset_ensures;

    lemma_keys_of_sorted(e1);
    lemma_keys_of_sorted(e2);
    assert forall|k: Option<u64>| keys_of(e1).contains(k) <==> keys_of(e2).contains(k) by {
        if keys_of(e1).contains(k) {
            let i = choose|i: int| 0 <= i < e1.len() && cell_key(e1[i].1) == k;
            assert(e1.to_multiset().count(e1[i]) > 0);
            assert(e2.contains(e1[i]));
            let j = choose|j: int| 0 <= j < e2.len() && e2[j] == e1[i];
            lemma_keys_of_contains(e2, j);
        }
        if keys_of(e2).contains(k) {
            let i = choose|i: int| 0 <= i < e2.len() && cell_key(e2[i].1) == k;
            assert(e2.to_multiset().count(e2[i]) > 0);
            assert(e1.contains(e2[i]));
            let j = choose|j: int| 0 <= j < e1.len() && e1[j] == e2[i];
            lemma_keys_of_contains(e1, j);
        }
    }
    lemma_keys_sorted_unique(keys_of(e1), keys_of(e2));
}

proof fn lemma_cell_same(e1: Seq<Evidence>, e2: Seq<Evidence>, k: Option<u64>)
    requires
        e1.to_multiset() == e2.to_multiset(),
        forall|i: int, j: int| 0 <= i < j < e1.len() ==> (#[trigger] e1[i]).2 != (#[trigger] e1[j]).2,
        forall|i: int, j: int| 0 <= i < j < e2.len() ==> (#[trigger] e2[i]).2 != (#[trigger] e2[j]).2,
    ensures
        select_cell(e1, k).to_multiset() == select_cell(e2, k).to_multiset(),
        sort_stable(select_cell(e1, k), stronger_rel()) == sort_stable(select_cell(e2, k), stronger_rel()),
        select_cell(e1, k).len() <= e1.len(),
{
    let g1 = select_cell(e1, k);
    let g2 = select_cell(e2, k);
    assert(g1.to_multiset() =~= g2.to_multiset()) by {
        assert forall|x: Evidence| g1.to_multiset().count(x) == g2.to_multiset().count(x) by {
            lemma_select_count(e1, k, x);
            lemma_select_count(e2, k, x);
        }
    }
    lemma_select_count(e1, k, e1[0]);
    lemma_select_distinct(e1, k);
    lemma_select_distinct(e2, k);
    lemma_stronger_total(g1);
    lemma_stronger_total(g2);
    crate::ordering::lemma_sort_unique(g1, g2, stronger_rel());
}

proof fn lemma_total_same(e1: Seq<Evidence>, e2: Seq<Evidence>, ks: Seq<Option<u64>>, d: u16)
    requires
        e1.to_multiset() == e2.to_multiset(),
        forall|i: int, j: int| 0 <= i < j < e1.len() ==> (#[trigger] e1[i]).2 != (#[trigger] e1[j]).2,
        forall|i: int, j: int| 0 <= i < j < e2.len() ==> (#[trigger] e2[i]).2 != (#[trigger] e2[j]).2,
        e1.len() < 0x1_0000_0000,
        e1.len() > 0,
        keys_sorted(ks),
    ensures
        correlated_total(e1, ks, d) == correlated_total(e2, ks, d),
    decreases ks.len(),
{
    if ks.len() > 0 {
        let p = ks.drop_last();
        let k = ks.last();
        assert(keys_sorted(p)) by {
            assert forall|i: int, j: int| 0 <= i < j < p.len() implies key_lt(#[trigger] p[i], #[trigger] p[j]) by {
                assert(p[i] == ks[i] && p[j] == ks[j]);
            }
        }
        lemma_total_same(e1, e2, p, d);
        lemma_cell_same(e1, e2, k);
        if k is None {
            if p.len() > 0 {
                assert(key_lt(ks[0], ks[ks.len() - 1]));
                lemma_key_order(ks[0], ks[0], ks[0]);
            }
            assert(p.len() == 0);
            assert(correlated_total(e1, p, d) == 0);
            assert(correlated_total(e2, p, d) == 0);
            let g1 = select_cell(e1, k);
            let g2 = select_cell(e2, k);
            vstd::seq_lib::to_multiset_len(g1);
            vstd::seq_lib::to_multiset_len(g2);
            assert(0x8000_0000 * g1.len() <= 0x8000_0000 * 0x1_0000_0000) by (nonlinear_arith)
                requires
                    g1.len() < 0x1_0000_0000,
            ;
            lemma_full_sum_exact(0, g1);
            lemma_full_sum_exact(0, g2);
            lemma_strengths_perm(g1, g2);
        }
    }
}

/// Correlation-aware aggregation does not depend on the order of the
/// evidence: two arrangements of the same pieces of evidence (with
/// distinct ids, fewer than 2^32) aggregate to the same value.
pub proof fn law_correlated_order_independent(e1: Seq<Evidence>, e2: Seq<Evidence>, d: u16)
    requires
        e1.to_multiset() == e2.to_multiset(),
        forall|i: int, j: int| 0 <= i < j < e1.len() ==> (#[trigger] e1[i]).2 != (#[trigger] e1[j]).2,
        e1.len() < 0x1_0000_0000,
    ensures
        aggregate_correlated_spec(e1, d) == aggregate_correlated_spec(e2, d),
{
    broadcast use vstd::seq_lib::group_to_multiset_ensures;

    vstd::seq_lib::to_multiset_len(e1);
    vstd::seq_lib::to_multiset_len(e2);
    assert forall|i: int, j: int| 0 <= i < j < e2.len() implies (#[trigger] e2[i]).2 != (#[trigger] e2[j]).2 by {
        assert(e2.to_multiset().count(e2[i]) > 0);
        assert(e2.to_multiset().count(e2[j]) > 0);
        assert(e1.contains(e2[i]) && e1.contains(e2[j]));
        let p = choose|p: int| 0 <= p < e1.len() && e1[p] == e2[i];
        let q = choose|q: int| 0 <= q < e1.len() && e1[q] == e2[j];
        if e2[i].2 == e2[j].2 {
            assert(p == q);
            assert(e2[i] == e2[j]);
            assert(e1.no_duplicates()) by {
                assert forall|a: int, b: int| 0 <= a < e1.len() && 0 <= b < e1.len() && a != b implies e1[a] != e1[b] by {
                    if a < b {
                        assert(e1[a].2 != e1[b].2);
                    } else {
                        assert(e1[b].2 != e1[a].2);
                    }
                }
            }
            e1.lemma_multiset_has_no_duplicates();
            assert(e1.to_multiset().count(e2[i]) == 1);
            assert(e2.to_multiset().count(e2[i]) >= 2) by {
                let r = e2.remove(j);
                vstd::seq_lib::to_multiset_remove(e2, j);
                assert(r[i] == e2[i]);
                assert(r.contains(e2[i]));
                assert(r.to_multiset().count(e2[i]) > 0);
            }
        }
    }
    if e1.len() > 0 {
        lemma_keys_of_same(e1, e2);
        lemma_keys_of_sorted(e1);
        lemma_total_same(e1, e2, keys_of(e1), d);
    }
}

} // verus!
