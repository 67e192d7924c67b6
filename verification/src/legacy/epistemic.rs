//! The earlier epistemic arithmetic: log-odds summed exactly and clamped to
//! the `i32` range, updates saturating in `i32`.
use vstd::prelude::*;
use crate::epistemic::logodds::{clamp_i32, milli_to_percent, min_int, percent_to_milli, trunc_div};

verus! {

/// Log-odds confidence, scaled by 1000 (milli-log-odds).
#[derive(Clone, Copy, Debug, PartialEq, Eq, Structural, PartialOrd, Ord, Hash)]
pub struct LogOdds(i32);

impl View for LogOdds {
    type V = i32;

    closed spec fn view(&self) -> i32 {
        self.0
    }
}

/// The brackets of `LogOdds::to_percent`: those of the current log-odds,
/// with 2197 counted in the 90% bracket.
pub open spec fn legacy_percent(v: i32) -> u8 {
    if v == 2197 {
        90
    } else {
        milli_to_percent(v)
    }
}

/// Exact sum of the evidence.
pub open spec fn legacy_sum(s: Seq<LogOdds>) -> int
    decreases s.len(),
{
    if s.len() == 0 {
        0
    } else {
        legacy_sum(s.drop_last()) + s.last()@
    }
}

proof fn lemma_legacy_sum_bound(s: Seq<LogOdds>)
    ensures
        -0x8000_0000 * s.len() <= legacy_sum(s) <= 0x8000_0000 * s.len(),
    decreases s.len(),
{
    if s.len() > 0 {
        lemma_legacy_sum_bound(s.drop_last());
    }
}

impl LogOdds {
    pub fn new(milli_logodds: i32) -> (r: Self)
        ensures
            r@ == milli_logodds,
    {
        LogOdds(milli_logodds)
    }

    /// 50% confidence.
    pub fn neutral() -> (r: Self)
        ensures
            r@ == 0,
    {
        LogOdds(0)
    }

    /// About 99.9% confidence.
    pub fn very_high() -> (r: Self)
        ensures
            r@ == 6907,
    {
        LogOdds(6907)
    }

    /// About 0.1% confidence.
    pub fn very_low() -> (r: Self)
        ensures
            r@ == -6907,
    {
        LogOdds(-6907)
    }

    /// Largest representable value.
    pub fn max_value() -> (r: Self)
        ensures
            r@ == i32::MAX,
    {
        LogOdds(i32::MAX)
    }

    /// Smallest representable value.
    pub fn min_value() -> (r: Self)
        ensures
            r@ == i32::MIN,
    {
        LogOdds(i32::MIN)
    }

    pub fn value(self) -> (r: i32)
        ensures
            r == self@,
    {
        self.0
    }

    /// Create from a percentage (0..=100) using a lookup table.
    pub fn from_percent(pct: u8) -> (r: Self)
        ensures
            r@ == percent_to_milli(pct),
    {
        LogOdds(crate::epistemic::logodds::LogOdds::from_percent(pct).value())
    }

    /// Convert back to an approximate percentage using coarse brackets;
    /// the 90% bracket ends at 2197 (the log-odds of 90%) inclusive.
    pub fn to_percent(self) -> (r: u8)
        ensures
            r == legacy_percent(self@),
    {
        if self.0 == 2197 {
            90
        } else {
            crate::epistemic::logodds::LogOdds::new(self.0).to_percent()
        }
    }

    /// Bayesian aggregation: the exact sum of the evidence, clamped to `i32`.
    pub fn aggregate(evidence: &[LogOdds]) -> (r: LogOdds)
        requires
            evidence@.len() <= u32::MAX,
        ensures
            r@ == clamp_i32(legacy_sum(evidence@)),
    {
        let mut sum: i64 = 0;
        let mut i: usize = 0;
        proof {
            lemma_legacy_sum_bound(evidence@);
        }
        while i < evidence.len()
            invariant
                i <= evidence@.len(),
                evidence@.len() <= u32::MAX,
                sum == legacy_sum(evidence@.take(i as int)),
            decreases evidence@.len() - i,
        {
            proof {
                assert(evidence@.take(i + 1).drop_last() =~= evidence@.take(i as int));
                lemma_legacy_sum_bound(evidence@.take(i + 1));
                assert(0x8000_0000 * (i + 1) <= 0x8000_0000 * 0x1_0000_0000);
            }
            sum = sum + evidence[i].0 as i64;
            i = i + 1;
        }
        proof {
            assert(evidence@.take(i as int) =~= evidence@);
        }
        LogOdds(
            if sum < i32::MIN as i64 {
                i32::MIN
            } else if sum > i32::MAX as i64 {
                i32::MAX
            } else {
                sum as i32
            },
        )
    }

    /// Bayesian update: posterior = prior + evidence, saturating in `i32`.
    pub fn update(self, evidence: LogOdds) -> (r: LogOdds)
        ensures
            r@ == clamp_i32(self@ + evidence@),
    {
        let sum = (self.0 as i64) + (evidence.0 as i64);
        LogOdds(
            if sum < i32::MIN as i64 {
                i32::MIN
            } else if sum > i32::MAX as i64 {
                i32::MAX
            } else {
                sum as i32
            },
        )
    }

    /// Is this belief more likely true than false?
    pub fn is_positive(self) -> (r: bool)
        ensures
            r == (self@ > 0),
    {
        self.0 > 0
    }
}

/// Fixed-point utility score: 0..=10000 (basis points).
#[derive(Clone, Copy, Debug, PartialEq, Eq, Structural, PartialOrd, Ord, Hash)]
pub struct Utility(u16);

impl View for Utility {
    type V = u16;

    closed spec fn view(&self) -> u16 {
        self.0
    }
}

impl Utility {
    #[verifier::type_invariant]
    spec fn utility_bounded(self) -> bool {
        self.0 <= 10000
    }

    pub fn zero() -> (r: Self)
        ensures
            r@ == 0,
    {
        Utility(0)
    }

    pub fn max_value() -> (r: Self)
        ensures
            r@ == 10000,
    {
        Utility(10000)
    }

    pub fn from_bps(bps: u16) -> (r: Self)
        ensures
            r@ == min_int(bps as int, 10000),
    {
        Utility(
            if bps <= 10000 {
                bps
            } else {
                10000
            },
        )
    }

    pub fn bps(self) -> (r: u16)
        ensures
            r == self@,
            r <= 10000,
    {
        proof {
            use_type_invariant(&self);
        }
        self.0
    }
}

/// Peer reputation: 0..=10000 (basis points).
#[derive(Clone, Copy, Debug, PartialEq, Eq, Structural, PartialOrd, Ord, Hash)]
pub struct Reputation(u16);

impl View for Reputation {
    type V = u16;

    closed spec fn view(&self) -> u16 {
        self.0
    }
}

impl Reputation {
    #[verifier::type_invariant]
    spec fn reputation_bounded(self) -> bool {
        self.0 <= 10000
    }

    pub fn zero() -> (r: Self)
        ensures
            r@ == 0,
    {
        Reputation(0)
    }

    pub fn neutral() -> (r: Self)
        ensures
            r@ == 5000,
    {
        Reputation(5000)
    }

    pub fn full() -> (r: Self)
        ensures
            r@ == 10000,
    {
        Reputation(10000)
    }

    pub fn from_bps(bps: u16) -> (r: Self)
        ensures
            r@ == min_int(bps as int, 10000),
    {
        Reputation(
            if bps <= 10000 {
                bps
            } else {
                10000
            },
        )
    }

    pub fn bps(self) -> (r: u16)
        ensures
            r == self@,
            r <= 10000,
    {
        proof {
            use_type_invariant(&self);
        }
        self.0
    }

    /// Scale evidence by reputation, rounding toward zero. A node with 0
    /// reputation contributes 0.
    pub fn weight_evidence(self, evidence: LogOdds) -> (r: LogOdds)
        ensures
            r@ == clamp_i32(trunc_div(evidence@ * self@, 10000)),
    {
        proof {
            use_type_invariant(&self);
        }
        let e = evidence.0 as i64;
        let w = self.0 as i64;
        assert(-0x8000_0000 * 0x10000 <= e * w <= 0x8000_0000 * 0x10000) by (nonlinear_arith)
            requires
                -0x8000_0000 <= e <= 0x8000_0000,
                0 <= w <= 0x10000,
        ;
        let scaled = e * w / 10000;
        LogOdds(
            if scaled < i32::MIN as i64 {
                i32::MIN
            } else if scaled > i32::MAX as i64 {
                i32::MAX
            } else {
                scaled as i32
            },
        )
    }
}

} // verus!
