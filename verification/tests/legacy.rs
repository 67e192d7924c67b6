use aimp_node::legacy::epistemic::{LogOdds, Reputation};

#[test]
fn epistemic_test_logodds_aggregation_is_addition() {
    let a = LogOdds::from_percent(90);
    let b = LogOdds::from_percent(90);
    let combined = LogOdds::aggregate(&[a, b]);
    assert_eq!(combined.value(), 4394);
    assert_eq!(combined.to_percent(), 99);
}

#[test]
fn epistemic_test_logodds_no_underflow() {
    let weak_evidence: Vec<LogOdds> = (0..100).map(|_| LogOdds::from_percent(10)).collect();
    let combined = LogOdds::aggregate(&weak_evidence);
    assert!(combined.value() < -200000);
    assert_eq!(combined.to_percent(), 0);
}

#[test]
fn epistemic_test_logodds_deterministic_across_calls() {
    let evidence = vec![LogOdds::new(1500), LogOdds::new(-800), LogOdds::new(2200)];
    let r1 = LogOdds::aggregate(&evidence);
    let r2 = LogOdds::aggregate(&evidence);
    assert_eq!(r1, r2);
}

#[test]
fn epistemic_test_logodds_update_bayesian() {
    let prior = LogOdds::neutral();
    let strong_evidence = LogOdds::new(2197);
    let posterior = prior.update(strong_evidence);
    assert_eq!(posterior.to_percent(), 90);
}

#[test]
fn epistemic_test_byzantine_zero_influence() {
    let byzantine = Reputation::zero();
    let max_conf = LogOdds::very_high();
    let weighted = byzantine.weight_evidence(max_conf);
    assert_eq!(weighted.value(), 0);
}

#[test]
fn epistemic_test_reputation_scales_evidence() {
    let good = Reputation::from_bps(8000);
    let bad = Reputation::from_bps(2000);
    let evidence = LogOdds::new(1000);
    assert_eq!(good.weight_evidence(evidence).value(), 800);
    assert_eq!(bad.weight_evidence(evidence).value(), 200);
}
