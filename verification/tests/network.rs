use aimp_node::network::filter::GossipFilter;
use aimp_node::network::gate::{outgoing_ttl, Admission, PeerGate, Screen};
use aimp_node::network::noise::SecureState;
use aimp_node::network::sessions::{evict_stale, SessionStamp};

#[test]
fn rate_limit_spends_burst_then_refills() {
    let mut gate = PeerGate::new(10, 3, 100);
    let peer = "10.0.0.1".to_string();
    assert!(gate.check_rate_limit(&peer, 1000));
    assert!(gate.check_rate_limit(&peer, 1000));
    assert!(gate.check_rate_limit(&peer, 1000));
    assert!(!gate.check_rate_limit(&peer, 1000));
    // 10 tokens per second: 99 ms give none, 100 ms give one
    assert!(!gate.check_rate_limit(&peer, 1099));
    assert!(gate.check_rate_limit(&peer, 1100));
    assert!(!gate.check_rate_limit(&peer, 1100));
    // a long pause refills only up to the burst
    assert!(gate.check_rate_limit(&peer, 100_000));
    assert!(gate.check_rate_limit(&peer, 100_000));
    assert!(gate.check_rate_limit(&peer, 100_000));
    assert!(!gate.check_rate_limit(&peer, 100_000));
}

#[test]
fn rate_limit_is_per_peer() {
    let mut gate = PeerGate::new(1, 1, 100);
    let a = "a".to_string();
    let b = "b".to_string();
    assert!(gate.check_rate_limit(&a, 0));
    assert!(!gate.check_rate_limit(&a, 0));
    assert!(gate.check_rate_limit(&b, 0));
}

#[test]
fn circuit_opens_after_threshold_failures() {
    let mut gate = PeerGate::new(1000, 1000, 100);
    let peer = "p".to_string();
    for _ in 0..4 {
        gate.record_failure(&peer);
    }
    assert_eq!(gate.failure_count(&peer), 4);
    assert_eq!(gate.admission(&peer, 0), Admission::Pass);
    gate.record_failure(&peer);
    assert_eq!(gate.admission(&peer, 0), Admission::CircuitOpen);
    assert_eq!(gate.failure_count(&"q".to_string()), 0);
}

#[test]
fn rate_limit_comes_before_the_breaker() {
    let mut gate = PeerGate::new(0, 0, 100);
    let peer = "p".to_string();
    assert_eq!(gate.admission(&peer, 0), Admission::RateLimited);
}

#[test]
fn screening_counts_ttl_failures_and_dedups() {
    let mut gate = PeerGate::new(1000, 1000, 100);
    let peer = "p".to_string();
    let sig = [7u8; 64];
    assert_eq!(gate.screen(&peer, &sig, 0), Screen::TtlExhausted);
    assert_eq!(gate.failure_count(&peer), 1);
    assert_eq!(gate.screen(&peer, &sig, 3), Screen::Verify);
    assert!(!gate.conclude(&peer, sig, false));
    assert_eq!(gate.failure_count(&peer), 2);
    assert_eq!(gate.screen(&peer, &sig, 3), Screen::Verify);
    assert!(gate.conclude(&peer, sig, true));
    assert_eq!(gate.screen(&peer, &sig, 3), Screen::Duplicate);
    assert_eq!(gate.failure_count(&peer), 2);
}

#[test]
fn outgoing_ttl_decrements_and_stops_at_zero() {
    assert_eq!(outgoing_ttl(0), None);
    assert_eq!(outgoing_ttl(1), Some(0));
    assert_eq!(outgoing_ttl(5), Some(4));
}

#[test]
fn gossip_filter_evicts_oldest_at_capacity() {
    let mut f = GossipFilter::new(2);
    f.insert([1u8; 64]);
    f.insert([2u8; 64]);
    f.insert([1u8; 64]);
    assert!(f.contains(&[1u8; 64]));
    f.insert([3u8; 64]);
    assert!(!f.contains(&[1u8; 64]));
    assert!(f.contains(&[2u8; 64]));
    assert!(f.contains(&[3u8; 64]));
}

#[test]
fn sessions_expire_and_are_capped() {
    let now = 1_000_000u64;
    let stamps = vec![
        SessionStamp { last_used_ms: now - 10, invalid: false },
        SessionStamp { last_used_ms: now - 300_000, invalid: false },
        SessionStamp { last_used_ms: now - 299_999, invalid: false },
        SessionStamp { last_used_ms: now, invalid: true },
        SessionStamp { last_used_ms: now + 5, invalid: false },
    ];
    assert_eq!(evict_stale(&stamps, now), vec![0, 2, 4]);

    let many: Vec<SessionStamp> = (0..300u64)
        .map(|i| SessionStamp { last_used_ms: now - (i % 7), invalid: false })
        .collect();
    let kept = evict_stale(&many, now);
    assert_eq!(kept.len(), 256);
    let evicted: Vec<usize> = (0..300).filter(|i| !kept.contains(i)).collect();
    assert_eq!(evicted.len(), 44);
    for i in &evicted {
        assert!(i % 7 >= 5, "evicted session {} was not among the oldest", i);
    }
}

fn handshake(initiator: bool, key: [u8; 32]) -> SecureState {
    let builder = snow::Builder::new("Noise_XX_25519_ChaChaPoly_BLAKE2s".parse().unwrap());
    let builder = builder.local_private_key(&key);
    let hs = if initiator { builder.build_initiator() } else { builder.build_responder() };
    SecureState::Handshaking(Box::new(hs.unwrap()))
}

#[test]
fn noise_sessions_handshake_then_encrypt() {
    let mut a = handshake(true, [1u8; 32]);
    let mut b = handshake(false, [2u8; 32]);

    let (m1, hs1) = a.wrap(b"ignored");
    assert!(hs1 && !m1.is_empty());
    assert_eq!(b.unwrap(&m1), Some(Vec::new()));
    assert!(matches!(b, SecureState::Handshaking(_)));

    let (m2, hs2) = b.wrap(b"");
    assert!(hs2 && !m2.is_empty());
    assert_eq!(a.unwrap(&m2), Some(Vec::new()));
    assert!(matches!(a, SecureState::Handshaking(_)));

    let (m3, hs3) = a.wrap(b"");
    assert!(hs3 && !m3.is_empty());
    assert_eq!(b.unwrap(&m3), Some(Vec::new()));
    // Reading the last handshake message completes the responder.
    assert!(matches!(b, SecureState::Active(_)));
    // Writing it leaves the initiator handshaking.
    assert!(matches!(a, SecureState::Handshaking(_)));

    let (sealed, flagged) = b.wrap(b"payload");
    assert!(!flagged);
    assert_eq!(sealed.len(), b"payload".len() + 16);
    assert_ne!(&sealed[..7], b"payload");
    // The initiator's handshake refuses a transport message and stays put.
    assert_eq!(a.unwrap(&sealed), None);
    assert!(matches!(a, SecureState::Handshaking(_)));
    // A garbled message leaves the active session active.
    assert_eq!(b.unwrap(&[0u8; 40]), None);
    assert!(matches!(b, SecureState::Active(_)));
}

#[test]
fn dead_noise_sessions_send_and_accept_nothing() {
    let mut dead = SecureState::Invalid;
    assert_eq!(dead.wrap(b"data"), (Vec::new(), false));
    assert_eq!(dead.unwrap(b"data"), None);
    assert!(matches!(dead, SecureState::Invalid));
    // A handshake refuses a message that is not one.
    let mut b = handshake(false, [2u8; 32]);
    assert_eq!(b.unwrap(&[]), None);
    assert!(matches!(b, SecureState::Handshaking(_)));
}

#[test]
fn finished_handshake_without_transport_is_dead() {
    assert!(matches!(SecureState::completed(None), SecureState::Invalid));
}
