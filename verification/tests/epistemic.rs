use aimp_node::epistemic::{
    discount_factor, ConfidenceInterval, CorrelationCell, LogOdds, Reputation,
    DEFAULT_DISCOUNT_BPS, MAX_DISCOUNT_DEPTH,
};

#[test]
fn test_logodds_aggregation_is_addition() {
    let a = LogOdds::from_percent(90);
    let b = LogOdds::from_percent(90);
    let combined = LogOdds::aggregate(&[a, b]);
    assert_eq!(combined.value(), 4394);
    assert_eq!(combined.to_percent(), 99);
}

#[test]
fn test_logodds_no_underflow() {
    let weak_evidence: Vec<LogOdds> = (0..100).map(|_| LogOdds::from_percent(10)).collect();
    let combined = LogOdds::aggregate(&weak_evidence);
    assert!(combined.value() < -200000);
    assert_eq!(combined.to_percent(), 0);
}

#[test]
fn test_logodds_deterministic_across_calls() {
    let evidence = vec![LogOdds::new(1500), LogOdds::new(-800), LogOdds::new(2200)];
    let r1 = LogOdds::aggregate(&evidence);
    let r2 = LogOdds::aggregate(&evidence);
    assert_eq!(r1, r2);
}

#[test]
fn test_logodds_update_bayesian() {
    let prior = LogOdds::neutral();
    let strong_evidence = LogOdds::new(2197);
    let posterior = prior.update(strong_evidence);
    assert_eq!(posterior.to_percent(), 95);
    assert_eq!(posterior.value(), 2197);
}

#[test]
fn test_byzantine_zero_influence() {
    let byzantine = Reputation::zero();
    let max_conf = LogOdds::very_high();
    let weighted = byzantine.weight_evidence(max_conf);
    assert_eq!(weighted.value(), 0);
}

#[test]
fn test_reputation_scales_evidence() {
    let good = Reputation::from_bps(8000);
    let bad = Reputation::from_bps(2000);
    let evidence = LogOdds::new(1000);
    let good_weighted = good.weight_evidence(evidence);
    let bad_weighted = bad.weight_evidence(evidence);
    assert_eq!(good_weighted.value(), 800);
    assert_eq!(bad_weighted.value(), 200);
}

#[test]
fn test_aggregate_associativity_within_operational_range() {
    for &(a_val, b_val, c_val) in &[
        (5000, 5000, -3000),
        (6907, 6907, -6907),
        (-5000, -5000, 5000),
        (100000, 100000, -100000),
    ] {
        let a = LogOdds::new(a_val);
        let b = LogOdds::new(b_val);
        let c = LogOdds::new(c_val);
        let abc = LogOdds::aggregate(&[a, b, c]);
        let ab_then_c = LogOdds::aggregate(&[LogOdds::aggregate(&[a, b]), c]);
        let a_then_bc = LogOdds::aggregate(&[a, LogOdds::aggregate(&[b, c])]);
        assert_eq!(abc, ab_then_c, "associativity broken at ({},{},{})", a_val, b_val, c_val);
        assert_eq!(abc, a_then_bc, "associativity broken at ({},{},{})", a_val, b_val, c_val);
    }
}

#[test]
fn test_aggregate_clamping_is_documented() {
    let a = LogOdds::new(LogOdds::SAFE_MAX);
    let b = LogOdds::new(LogOdds::SAFE_MAX);
    let c = LogOdds::new(LogOdds::SAFE_MIN);
    let abc = LogOdds::aggregate(&[a, b, c]);
    let ab_then_c = LogOdds::aggregate(&[LogOdds::aggregate(&[a, b]), c]);
    assert!(abc.value() == LogOdds::SAFE_MAX, "got {}", abc.value());
    assert!(ab_then_c.value() == 0, "got {}", ab_then_c.value());
}

#[test]
fn test_confidence_interval_exact() {
    let ci = ConfidenceInterval::exact(LogOdds::new(2000));
    assert_eq!(ci.width(), 0);
    assert_eq!(ci.midpoint().value(), 2000);
}

#[test]
fn test_confidence_interval_aggregate_grows_width() {
    let agree = ConfidenceInterval::aggregate(&[
        ConfidenceInterval::new(LogOdds::new(1800), LogOdds::new(2200)),
        ConfidenceInterval::new(LogOdds::new(1900), LogOdds::new(2100)),
    ]);
    let disagree = ConfidenceInterval::aggregate(&[
        ConfidenceInterval::new(LogOdds::new(-2000), LogOdds::new(-1000)),
        ConfidenceInterval::new(LogOdds::new(1000), LogOdds::new(3000)),
    ]);
    assert!(
        disagree.width() > agree.width(),
        "agree={}, disagree={}",
        agree.width(),
        disagree.width()
    );
}

#[test]
fn test_confidence_interval_narrow_intersection() {
    let a = ConfidenceInterval::new(LogOdds::new(1000), LogOdds::new(3000));
    let b = ConfidenceInterval::new(LogOdds::new(2000), LogOdds::new(4000));
    let narrowed = a.narrow(b);
    assert_eq!(narrowed.lower.value(), 2000);
    assert_eq!(narrowed.upper.value(), 3000);
    assert!(narrowed.width() < a.width());
}

#[test]
fn test_confidence_interval_no_overlap_widens() {
    let a = ConfidenceInterval::new(LogOdds::new(1000), LogOdds::new(2000));
    let b = ConfidenceInterval::new(LogOdds::new(3000), LogOdds::new(4000));
    let result = a.narrow(b);
    assert_eq!(result.lower.value(), 1000);
    assert_eq!(result.upper.value(), 4000);
}

#[test]
fn test_confidence_interval_deterministic() {
    let intervals = vec![
        ConfidenceInterval::new(LogOdds::new(500), LogOdds::new(1500)),
        ConfidenceInterval::new(LogOdds::new(-1000), LogOdds::new(2000)),
        ConfidenceInterval::new(LogOdds::new(800), LogOdds::new(1200)),
    ];
    let r1 = ConfidenceInterval::aggregate(&intervals);
    let r2 = ConfidenceInterval::aggregate(&intervals);
    assert_eq!(r1, r2, "aggregate must be deterministic");
}

#[test]
fn test_discount_factor_geometric_decay() {
    assert_eq!(discount_factor(0, 3000), 10000);
    assert_eq!(discount_factor(1, 3000), 3000);
    assert_eq!(discount_factor(2, 3000), 900);
    assert_eq!(discount_factor(3, 3000), 270);
    assert_eq!(discount_factor(10, 3000), 0);
    assert_eq!(discount_factor(100, 3000), discount_factor(30, 3000));
}

#[test]
fn test_discount_factor_full_weight() {
    assert_eq!(discount_factor(0, 10000), 10000);
    assert_eq!(discount_factor(1, 10000), 10000);
    assert_eq!(discount_factor(5, 10000), 10000);
}

#[test]
fn test_discount_factor_zero_kills_all() {
    assert_eq!(discount_factor(0, 0), 10000);
    assert_eq!(discount_factor(1, 0), 0);
}

#[test]
fn test_uncorrelated_aggregate_unchanged() {
    let id_a = [1u8; 32];
    let id_b = [2u8; 32];
    let evidence = vec![(LogOdds::new(1000), None, id_a), (LogOdds::new(2000), None, id_b)];
    let result = LogOdds::aggregate_correlated(&evidence, DEFAULT_DISCOUNT_BPS);
    assert_eq!(result.value(), 3000);
    assert_eq!(result, LogOdds::aggregate(&[LogOdds::new(1000), LogOdds::new(2000)]));
}

#[test]
fn test_same_cell_discounted() {
    let cell = Some(CorrelationCell(42));
    let evidence: Vec<_> = (0..5u8)
        .map(|i| {
            let mut id = [0u8; 32];
            id[0] = i;
            (LogOdds::new(1000), cell, id)
        })
        .collect();
    let correlated = LogOdds::aggregate_correlated(&evidence, 3000);
    let independent = LogOdds::aggregate(&vec![LogOdds::new(1000); 5]);
    assert_eq!(independent.value(), 5000);
    assert!(correlated.value() < independent.value());
    assert!(correlated.value() > 1000, "at least one full claim");
    assert!(correlated.value() < 2000, "heavily discounted: {}", correlated.value());
}

#[test]
fn test_different_cells_independent() {
    let evidence = vec![
        (LogOdds::new(1000), Some(CorrelationCell(1)), [1u8; 32]),
        (LogOdds::new(1000), Some(CorrelationCell(2)), [2u8; 32]),
        (LogOdds::new(1000), Some(CorrelationCell(3)), [3u8; 32]),
    ];
    let result = LogOdds::aggregate_correlated(&evidence, 3000);
    assert_eq!(result.value(), 3000);
}

#[test]
fn test_mixed_correlated_and_independent() {
    let evidence = vec![
        (LogOdds::new(1000), Some(CorrelationCell(1)), [1u8; 32]),
        (LogOdds::new(1000), Some(CorrelationCell(1)), [2u8; 32]),
        (LogOdds::new(1000), Some(CorrelationCell(2)), [3u8; 32]),
    ];
    let result = LogOdds::aggregate_correlated(&evidence, 3000);
    assert_eq!(result.value(), 2300);
}

#[test]
fn test_discount_commutativity() {
    let cell = Some(CorrelationCell(1));
    let ev_a = vec![
        (LogOdds::new(2000), cell, [1u8; 32]),
        (LogOdds::new(1000), cell, [2u8; 32]),
        (LogOdds::new(500), cell, [3u8; 32]),
    ];
    let ev_b = vec![
        (LogOdds::new(500), cell, [3u8; 32]),
        (LogOdds::new(2000), cell, [1u8; 32]),
        (LogOdds::new(1000), cell, [2u8; 32]),
    ];
    let r_a = LogOdds::aggregate_correlated(&ev_a, 3000);
    let r_b = LogOdds::aggregate_correlated(&ev_b, 3000);
    assert_eq!(r_a, r_b, "must be commutative: {} vs {}", r_a.value(), r_b.value());
}

#[test]
fn test_discount_idempotency() {
    let cell = Some(CorrelationCell(1));
    let id = [1u8; 32];
    let ev = vec![(LogOdds::new(1000), cell, id), (LogOdds::new(1000), cell, id)];
    let r1 = LogOdds::aggregate_correlated(&ev, 3000);
    let r2 = LogOdds::aggregate_correlated(&ev, 3000);
    assert_eq!(r1, r2);
}

#[test]
fn test_geometric_decay_bounds() {
    for bps in [1000u16, 3000, 5000] {
        let f = discount_factor(MAX_DISCOUNT_DEPTH, bps);
        assert_eq!(f, 0, "discount_bps={} at max depth should be 0, got {}", bps, f);
    }
    assert!(discount_factor(MAX_DISCOUNT_DEPTH, 7000) < 100);
    assert!(discount_factor(MAX_DISCOUNT_DEPTH, 9000) < 500);
    assert_eq!(discount_factor(MAX_DISCOUNT_DEPTH, 10000), 10000);
}

#[test]
fn correlated_cell_stays_below_one_and_a_half_singles() {
    let cell = Some(CorrelationCell(9));
    for n in [1usize, 2, 10, 100, 1000] {
        let evidence: Vec<_> = (0..n)
            .map(|i| {
                let mut id = [0u8; 32];
                id[..8].copy_from_slice(&(i as u64).to_le_bytes());
                (LogOdds::new(1000), cell, id)
            })
            .collect();
        let total = LogOdds::aggregate_correlated(&evidence, DEFAULT_DISCOUNT_BPS).value();
        assert!(total >= 1000);
        assert!(total * 7000 <= 1000 * 10000, "n = {}: {}", n, total);
    }
}

#[test]
fn evidence_without_cells_aggregates_at_full_weight() {
    let values = [847, -200, 1500, 847, 3];
    let evidence: Vec<_> = values
        .iter()
        .enumerate()
        .map(|(i, v)| {
            let mut id = [0u8; 32];
            id[0] = i as u8;
            (LogOdds::new(*v), None, id)
        })
        .collect();
    let plain: Vec<LogOdds> = values.iter().map(|v| LogOdds::new(*v)).collect();
    let correlated = LogOdds::aggregate_correlated(&evidence, DEFAULT_DISCOUNT_BPS);
    assert_eq!(correlated, LogOdds::aggregate(&plain));
    assert_eq!(correlated.value(), 2997);
}

#[test]
fn discount_factor_shape() {
    for d in [0u16, 1, 3000, 9999, 10000] {
        assert_eq!(discount_factor(0, d), 10000);
        let mut prev = discount_factor(0, d);
        for r in 1..40u32 {
            let f = discount_factor(r, d);
            assert!(f <= prev && f <= 10000);
            assert_eq!(f, discount_factor(r.min(30), d));
            if d == 10000 {
                assert_eq!(f, 10000);
            }
            if d == 0 {
                assert_eq!(f, 0);
            }
            prev = f;
        }
    }
}

#[test]
fn evidence_in_distinct_cells_aggregates_at_full_weight() {
    let values = [1000, 2000, -400, 77];
    let evidence: Vec<_> = values
        .iter()
        .enumerate()
        .map(|(i, v)| {
            let mut id = [0u8; 32];
            id[0] = i as u8;
            let cell = if i == 3 { None } else { Some(CorrelationCell(10 + i as u64)) };
            (LogOdds::new(*v), cell, id)
        })
        .collect();
    let plain: Vec<LogOdds> = values.iter().map(|v| LogOdds::new(*v)).collect();
    assert_eq!(LogOdds::aggregate_correlated(&evidence, DEFAULT_DISCOUNT_BPS), LogOdds::aggregate(&plain));
    assert_eq!(LogOdds::aggregate_correlated(&evidence, 0).value(), 2677);
}

#[test]
fn correlated_aggregation_ignores_order() {
    let mk = |v: i32, cell: Option<u64>, tag: u8| {
        let mut id = [0u8; 32];
        id[0] = tag;
        (LogOdds::new(v), cell.map(CorrelationCell), id)
    };
    let a = vec![
        mk(2000, Some(1), 1),
        mk(1000, Some(1), 2),
        mk(500, Some(1), 3),
        mk(-700, None, 4),
        mk(1000, Some(1), 5),
        mk(300, Some(2), 6),
        mk(900, None, 7),
    ];
    let mut b = a.clone();
    b.reverse();
    b.swap(1, 4);
    assert_eq!(
        LogOdds::aggregate_correlated(&a, 3000),
        LogOdds::aggregate_correlated(&b, 3000)
    );
}

#[test]
fn test_confidence_interval_midpoint_large_bounds() {
    let ci = ConfidenceInterval::exact(LogOdds::new(2_000_000_000));
    assert_eq!(ci.midpoint().value(), 2_000_000_000);
    let wide = ConfidenceInterval::new(LogOdds::new(i32::MAX), LogOdds::new(i32::MAX - 2));
    assert_eq!(wide.midpoint().value(), i32::MAX - 1);
    let neg = ConfidenceInterval::new(LogOdds::new(-3), LogOdds::new(0));
    assert_eq!(neg.midpoint().value(), -1);
}
