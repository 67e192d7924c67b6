use aimp_node::ai_bridge::RuleEngine;
use aimp_node::config::AimpConfig;
use aimp_node::crypto::SecurityFirewall;
use aimp_node::crdt::store::StoreCipher;
use aimp_node::dashboard;
use aimp_node::event::SystemEvent;
use aimp_node::protocol::{OpCode, Payload, ProtocolParser};

fn valid_config() -> AimpConfig {
    AimpConfig {
        port: 1337,
        network_log_capacity: 500,
        max_visible_logs: 20,
        dag_history_depth: 100,
        node_name: None,
        metrics_port: 9090,
        quorum_threshold: 2,
        gc_mutation_threshold: 1000,
        noise_required: true,
        peer_rate_limit: 50,
        peer_rate_burst: 100,
    }
}

fn message_of(r: Result<(), config::ConfigError>) -> String {
    match r {
        Err(config::ConfigError::Message(m)) => m,
        other => panic!("expected a message error, got {:?}", other),
    }
}

#[test]
fn config_validation_reports_first_invalid_setting() {
    assert!(valid_config().validate().is_ok());
    let mut c = valid_config();
    c.quorum_threshold = 0;
    c.peer_rate_burst = 0;
    assert_eq!(message_of(c.validate()), "quorum_threshold must be > 0");
    let mut c = valid_config();
    c.dag_history_depth = 0;
    assert_eq!(message_of(c.validate()), "dag_history_depth must be > 0");
    let mut c = valid_config();
    c.gc_mutation_threshold = 0;
    assert_eq!(message_of(c.validate()), "gc_mutation_threshold must be > 0");
    let mut c = valid_config();
    c.peer_rate_limit = 0;
    assert_eq!(message_of(c.validate()), "peer_rate_limit must be > 0");
    let mut c = valid_config();
    c.peer_rate_burst = 0;
    assert_eq!(message_of(c.validate()), "peer_rate_burst must be > 0");
}

#[test]
fn events_render_on_one_line() {
    assert_eq!(SystemEvent::StateMerged { nodes_added: 12 }.to_display(), "[SYNC] Merged 12 nodes");
    assert_eq!(
        SystemEvent::GarbageCollection { nodes_pruned: 0, remaining: 7 }.to_display(),
        "[GC] Pruned 0 orphan nodes"
    );
    assert_eq!(
        SystemEvent::SecurityDrop { peer: "1.2.3.4".into(), reason: "Rate limit exceeded".into() }
            .to_display(),
        "[SECURITY] Blocked 1.2.3.4: Rate limit exceeded"
    );
    assert_eq!(
        SystemEvent::MutationCommitted { hash: "0123456789abcdef".into(), author: "cafe".into() }
            .to_display(),
        "[AE] Committed 01234567 by cafe"
    );
    assert_eq!(
        SystemEvent::AiInference { prompt: "p".into(), decision: "OPEN".into() }.to_display(),
        "[AI] Decision: OPEN"
    );
    assert_eq!(SystemEvent::Status("ready".into()).to_display(), "[SYS] ready");
}

#[test]
fn rule_file_version_names_the_content_hash() {
    let content = "[]";
    let h = SecurityFirewall::hash(content.as_bytes());
    let expected = format!("rules.file.{:02x}{:02x}{:02x}{:02x}", h[0], h[1], h[2], h[3]);
    assert_eq!(RuleEngine::file_version(content), expected);
}

#[test]
fn opcodes_round_trip_through_bytes() {
    for op in [OpCode::Ping, OpCode::SyncReq, OpCode::SyncRes, OpCode::Infer] {
        assert_eq!(OpCode::from_byte(op.to_byte()), Some(op));
    }
    assert_eq!(OpCode::Ping.to_byte(), 0x01);
    assert_eq!(OpCode::Infer.to_byte(), 0x04);
    assert_eq!(OpCode::from_byte(0), None);
    assert_eq!(OpCode::from_byte(5), None);
}

#[test]
fn protocol_version_window() {
    assert!(ProtocolParser::version_supported(1));
    assert!(!ProtocolParser::version_supported(0));
    assert!(!ProtocolParser::version_supported(2));
}

#[test]
fn batch_hash_hashes_each_payload() {
    let payloads = vec![b"a".to_vec(), b"bc".to_vec()];
    let hashes = SecurityFirewall::batch_hash(&payloads);
    assert_eq!(hashes, vec![SecurityFirewall::hash(b"a"), SecurityFirewall::hash(b"bc")]);
    assert_ne!(hashes[0], hashes[1]);
}

#[test]
fn dashboard_log_keeps_the_newest_events() {
    let mut logs = Vec::new();
    for i in 0..25usize {
        dashboard::record_log(&mut logs, SystemEvent::StateMerged { nodes_added: i });
    }
    assert_eq!(logs.len(), 20);
    assert_eq!(logs[0].to_display(), "[SYNC] Merged 5 nodes");
    assert_eq!(logs[19].to_display(), "[SYNC] Merged 24 nodes");
}

#[test]
fn dashboard_panels_render_the_log() {
    let empty: Vec<SystemEvent> = Vec::new();
    assert_eq!(dashboard::log_panel(&empty), "\n Waiting for system events...");
    assert_eq!(dashboard::audit_panel(&empty), "\n No verified AI decisions yet.");
    let logs = vec![
        SystemEvent::Status("up".into()),
        SystemEvent::AiInference { prompt: "a".into(), decision: "OPEN".into() },
        SystemEvent::StateMerged { nodes_added: 3 },
        SystemEvent::AiInference { prompt: "b".into(), decision: "HOLD".into() },
    ];
    assert_eq!(
        dashboard::log_panel(&logs),
        "\n [SYS] up\n [AI] Decision: OPEN\n [SYNC] Merged 3 nodes\n [AI] Decision: HOLD"
    );
    assert_eq!(
        dashboard::audit_panel(&logs),
        "> [AI] Decision: OPEN\n> [AI] Decision: HOLD"
    );
    let quiet = vec![SystemEvent::Status("up".into())];
    assert_eq!(dashboard::audit_panel(&quiet), "\n No verified AI decisions yet.");
}

#[test]
fn dashboard_header_and_stats() {
    assert_eq!(
        dashboard::header_line("0.4.0", "node-a"),
        " AIMP Core v0.4.0 | Node: node-a | Press 'q' to exit"
    );
    assert_eq!(
        dashboard::stats_panel("ab12"),
        "\n DAG METRICS:\n\n - ROOT HASH:\n   ab12\n\n - NODE STATE: ACTIVE\n - ACTOR MODE: SYNC_PASS"
    );
}

#[test]
fn payloads_decode_by_opcode() {
    let root = [7u8; 32];
    match Payload::decode(OpCode::Ping, &root, None) {
        Payload::PingRoot(h) => assert_eq!(h, root),
        other => panic!("unexpected {:?}", other),
    }
    match Payload::decode(OpCode::Ping, &[1, 2, 3], None) {
        Payload::Raw(b) => assert_eq!(b, vec![1, 2, 3]),
        other => panic!("unexpected {:?}", other),
    }
    match Payload::decode(OpCode::Infer, "Pressure drop".as_bytes(), None) {
        Payload::InferPrompt(s) => assert_eq!(s, "Pressure drop"),
        other => panic!("unexpected {:?}", other),
    }
    match Payload::decode(OpCode::Infer, &[0xff, 0xfe], None) {
        Payload::Raw(b) => assert_eq!(b, vec![0xff, 0xfe]),
        other => panic!("unexpected {:?}", other),
    }
    let heads = vec![[1u8; 32], [2u8; 32]];
    let bytes = Payload::SyncRequest(heads.clone()).encode(None);
    assert!(!bytes.is_empty());
    match Payload::decode(OpCode::SyncReq, &bytes, None) {
        Payload::SyncRequest(v) => assert_eq!(v, heads),
        other => panic!("unexpected {:?}", other),
    }
    match Payload::decode(OpCode::SyncReq, &[0xc1], None) {
        Payload::Raw(b) => assert_eq!(b, vec![0xc1]),
        other => panic!("unexpected {:?}", other),
    }
    match Payload::decode(OpCode::SyncRes, &[0xc1], None) {
        Payload::Raw(b) => assert_eq!(b, vec![0xc1]),
        other => panic!("unexpected {:?}", other),
    }
    match Payload::decode(OpCode::SyncRes, &[0x90], Some(Vec::new())) {
        Payload::SyncResponse(ns) => assert!(ns.is_empty()),
        other => panic!("unexpected {:?}", other),
    }
}

#[test]
fn payloads_encode_to_wire_bytes() {
    assert_eq!(Payload::PingRoot([9u8; 32]).encode(None), vec![9u8; 32]);
    assert_eq!(Payload::InferPrompt("hi".to_string()).encode(None), b"hi".to_vec());
    assert_eq!(Payload::Raw(vec![4, 5]).encode(None), vec![4, 5]);
    assert_eq!(Payload::SyncResponse(Vec::new()).encode(None), Vec::<u8>::new());
    assert_eq!(Payload::SyncResponse(Vec::new()).encode(Some(vec![0x90])), vec![0x90]);
    let empty: Vec<[u8; 32]> = Vec::new();
    assert_eq!(Payload::SyncRequest(empty).encode(None), vec![0x90]);
}

#[test]
fn stored_nodes_open_to_what_was_sealed() {
    let cipher = StoreCipher::derive([5u8; 32]).unwrap();
    let hash = [3u8; 32];
    let plaintext = b"encoded node".to_vec();
    let sealed = cipher.seal(&hash, &plaintext).unwrap();
    assert_eq!(sealed.len(), plaintext.len() + 16);
    assert_ne!(&sealed[..plaintext.len()], plaintext.as_slice());
    assert_eq!(cipher.open(&hash, &sealed).unwrap(), plaintext);

    // The same secret derives the same key.
    let again = StoreCipher::derive([5u8; 32]).unwrap();
    assert_eq!(again.seal(&hash, &plaintext).unwrap(), sealed);
    assert_eq!(again.open(&hash, &sealed).unwrap(), plaintext);
}

#[test]
fn stored_nodes_refuse_other_keys_hashes_and_tampering() {
    let cipher = StoreCipher::derive([5u8; 32]).unwrap();
    let hash = [3u8; 32];
    let sealed = cipher.seal(&hash, b"encoded node").unwrap();

    let other = StoreCipher::derive([6u8; 32]).unwrap();
    assert!(other.open(&hash, &sealed).is_err());

    let mut other_hash = hash;
    other_hash[0] = 4;
    assert!(cipher.open(&other_hash, &sealed).is_err());
    // Only the first 12 bytes of the hash make the nonce.
    let mut tail_hash = hash;
    tail_hash[31] = 9;
    assert!(cipher.open(&tail_hash, &sealed).is_ok());

    let mut tampered = sealed.clone();
    tampered[0] ^= 1;
    assert!(cipher.open(&hash, &tampered).is_err());
}

#[test]
fn default_settings_are_valid() {
    let d = AimpConfig::defaults();
    assert_eq!(d.port, 1337);
    assert_eq!(d.network_log_capacity, 500);
    assert_eq!(d.max_visible_logs, 20);
    assert_eq!(d.dag_history_depth, 100);
    assert!(d.node_name.is_none());
    assert_eq!(d.metrics_port, 9090);
    assert_eq!(d.quorum_threshold, 2);
    assert_eq!(d.gc_mutation_threshold, 1000);
    assert!(d.noise_required);
    assert_eq!(d.peer_rate_limit, 50);
    assert_eq!(d.peer_rate_burst, 100);
    assert!(d.validate().is_ok());
}
