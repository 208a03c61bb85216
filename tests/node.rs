use p2p_node::handshake::{build_handshake, build_periodic_handshake, display_name, HandshakeMessage};
use p2p_node::orchestrator::{Command, ConnectError, Event, Orchestrator};
use p2p_node::wire::{decode, encode, DecodeError};

fn sample(name: Option<&str>, peer: &str, timestamp: u64, message: &str) -> HandshakeMessage {
    HandshakeMessage {
        node_name: name.map(|n| n.to_string()),
        peer_id: peer.to_string(),
        timestamp,
        message: message.to_string(),
    }
}

fn node(name: Option<&str>) -> Orchestrator {
    Orchestrator::new(name.map(|n| n.to_string()), "12D3KooWSelf".to_string())
}

fn publish_count(cmds: &[Command]) -> usize {
    cmds.iter().filter(|c| matches!(c, Command::Publish { .. })).count()
}

#[test]
fn display_name_defaults_to_anonymous() {
    assert_eq!(display_name(&None), "Anonymous Node");
    assert_eq!(display_name(&Some("alice".to_string())), "alice");
}

#[test]
fn connect_greeting_text() {
    let m = build_handshake(&Some("alice".to_string()), &"peerA".to_string(), 42);
    assert_eq!(m.message, "Hello from alice! 👋");
    assert_eq!(m.peer_id, "peerA");
    assert_eq!(m.timestamp, 42);
    assert_eq!(m.node_name, Some("alice".to_string()));
    let anon = build_handshake(&None, &"peerA".to_string(), 1);
    assert_eq!(anon.message, "Hello from Anonymous Node! 👋");
    assert_eq!(anon.node_name, None);
}

#[test]
fn periodic_greeting_text() {
    let m = build_periodic_handshake(&None, &"peerB".to_string(), 7, "12:34:56");
    assert_eq!(m.message, "Periodic handshake from Anonymous Node! Current time: 12:34:56");
}

#[test]
fn encode_exact_bytes() {
    let m = sample(Some("A"), "p", 5, "hi");
    let bytes = encode(&m);
    assert_eq!(
        String::from_utf8(bytes).unwrap(),
        "{\"node_name\":\"A\",\"peer_id\":\"p\",\"timestamp\":5,\"message\":\"hi\"}"
    );
    let anon = sample(None, "p", 18446744073709551615, "");
    assert_eq!(
        String::from_utf8(encode(&anon)).unwrap(),
        "{\"node_name\":null,\"peer_id\":\"p\",\"timestamp\":18446744073709551615,\"message\":\"\"}"
    );
}

#[test]
fn encode_escapes_like_json() {
    let text = "q\"b\\n\nt\tc\u{1}r\r\u{8}\u{c}é👋\u{1f}";
    let m = sample(None, "p", 0, text);
    let wire = String::from_utf8(encode(&m)).unwrap();
    let expected = format!(
        "{{\"node_name\":null,\"peer_id\":\"p\",\"timestamp\":0,\"message\":{}}}",
        serde_json::to_string(text).unwrap()
    );
    assert_eq!(wire, expected);
}

#[test]
fn round_trip_keeps_every_field() {
    let cases = vec![
        sample(Some("alice"), "12D3KooWPeer", 1700000000, "Hello from alice! 👋"),
        sample(None, "", 0, ""),
        sample(Some("q\"\\\n\u{0}"), "x\u{7f}y", 9, "tab\there"),
    ];
    for m in cases {
        let back = decode(&encode(&m)).unwrap();
        assert_eq!(back, m);
    }
}

#[test]
fn decode_rejects_truncated_payload() {
    let wire = encode(&sample(Some("alice"), "peer", 12, "hello"));
    for cut in 0..wire.len() {
        assert_eq!(decode(&wire[..cut]), Err(DecodeError::Malformed));
    }
}

#[test]
fn decode_rejects_non_canonical_payloads() {
    let bad = [
        "{\"node_name\": null,\"peer_id\":\"p\",\"timestamp\":5,\"message\":\"hi\"}",
        "{\"node_name\":null,\"peer_id\":\"p\",\"timestamp\":05,\"message\":\"hi\"}",
        "{\"node_name\":null,\"peer_id\":\"p\",\"timestamp\":18446744073709551616,\"message\":\"hi\"}",
        "{\"node_name\":null,\"peer_id\":\"p\",\"timestamp\":5,\"message\":\"\\u000a\"}",
        "{\"node_name\":null,\"peer_id\":\"p\",\"timestamp\":5,\"message\":\"hi\"} ",
        "not json at all",
        "",
    ];
    for b in bad.iter() {
        assert_eq!(decode(b.as_bytes()), Err(DecodeError::Malformed), "{}", b);
    }
    let invalid_utf8 = b"{\"node_name\":null,\"peer_id\":\"\xff\",\"timestamp\":5,\"message\":\"hi\"}";
    assert_eq!(decode(invalid_utf8), Err(DecodeError::Malformed));
}

#[test]
fn decode_accepts_json_escapes() {
    let payload = "{\"node_name\":\"a\\\"b\",\"peer_id\":\"p\",\"timestamp\":30,\"message\":\"x\\ny\\u0001\"}";
    let m = decode(payload.as_bytes()).unwrap();
    assert_eq!(m, sample(Some("a\"b"), "p", 30, "x\ny\u{1}"));
}

#[test]
fn handshake_tick_without_peers_publishes_nothing() {
    let cmds = node(Some("a")).handle_event(&Event::HandshakeTick {
        connected: vec![],
        now: 100,
        clock: "00:00:00".to_string(),
    });
    assert!(cmds.is_empty());
    assert_eq!(publish_count(&cmds), 0);
}

#[test]
fn handshake_tick_publishes_once_for_many_peers() {
    for n in 1..5usize {
        let connected: Vec<String> = (0..n).map(|i| format!("peer{}", i)).collect();
        let cmds = node(Some("a")).handle_event(&Event::HandshakeTick {
            connected,
            now: 100,
            clock: "01:02:03".to_string(),
        });
        assert_eq!(cmds.len(), 1);
        assert_eq!(publish_count(&cmds), 1);
        match &cmds[0] {
            Command::Publish { payload } => {
                let m = decode(payload).unwrap();
                assert_eq!(m.peer_id, "12D3KooWSelf");
                assert_eq!(m.timestamp, 100);
                assert_eq!(m.message, "Periodic handshake from a! Current time: 01:02:03");
            }
            other => panic!("unexpected {:?}", other),
        }
    }
}

#[test]
fn connection_established_sends_one_greeting() {
    let cmds = node(None).handle_event(&Event::ConnectionEstablished { peer: "remote".to_string(), now: 9 });
    assert_eq!(cmds.len(), 1);
    match &cmds[0] {
        Command::Publish { payload } => {
            let m = decode(payload).unwrap();
            assert_eq!(m, sample(None, "12D3KooWSelf", 9, "Hello from Anonymous Node! 👋"));
        }
        other => panic!("unexpected {:?}", other),
    }
}

#[test]
fn local_peer_found_registers_then_dials() {
    let found = vec![("p1".to_string(), "/ip4/10.0.0.1/tcp/1".to_string()), ("p2".to_string(), "/ip4/10.0.0.2/tcp/2".to_string())];
    let cmds = node(None).handle_event(&Event::LocalPeersFound { found });
    assert_eq!(
        cmds,
        vec![
            Command::AddAddress { peer: "p1".to_string(), address: "/ip4/10.0.0.1/tcp/1".to_string() },
            Command::DialAddress { address: "/ip4/10.0.0.1/tcp/1".to_string() },
            Command::AddAddress { peer: "p2".to_string(), address: "/ip4/10.0.0.2/tcp/2".to_string() },
            Command::DialAddress { address: "/ip4/10.0.0.2/tcp/2".to_string() },
        ]
    );
}

#[test]
fn repeated_local_discovery_gives_same_commands_without_error() {
    let found = vec![("p1".to_string(), "/ip4/10.0.0.1/tcp/1".to_string())];
    let o = node(None);
    let first = o.handle_event(&Event::LocalPeersFound { found: found.clone() });
    let second = o.handle_event(&Event::LocalPeersFound { found });
    assert_eq!(first, second);
    let mut table: Vec<(String, String)> = Vec::new();
    for c in first.iter().chain(second.iter()) {
        if let Command::AddAddress { peer, address } = c {
            if !table.contains(&(peer.clone(), address.clone())) {
                table.push((peer.clone(), address.clone()));
            }
        }
    }
    assert_eq!(table.len(), 1);
}

#[test]
fn expired_and_observed_events_do_nothing() {
    let o = node(None);
    assert!(o.handle_event(&Event::LocalPeersExpired { expired: vec![("p".to_string(), "a".to_string())] }).is_empty());
    assert!(o.handle_event(&Event::ConnectionClosed { peer: "p".to_string() }).is_empty());
    assert!(o.handle_event(&Event::BootstrapProgress { remaining: 3 }).is_empty());
    assert!(o.handle_event(&Event::Observed).is_empty());
}

#[test]
fn identity_registers_each_listen_address() {
    let cmds = node(None).handle_event(&Event::IdentityReceived {
        peer: "p".to_string(),
        listen_addrs: vec!["a1".to_string(), "a2".to_string()],
    });
    assert_eq!(
        cmds,
        vec![
            Command::AddAddress { peer: "p".to_string(), address: "a1".to_string() },
            Command::AddAddress { peer: "p".to_string(), address: "a2".to_string() },
        ]
    );
}

#[test]
fn closest_peers_dials_only_unconnected() {
    let cmds = node(None).handle_event(&Event::ClosestPeersFound {
        peers: vec![("a".to_string(), false), ("b".to_string(), true), ("c".to_string(), false)],
    });
    assert_eq!(cmds, vec![Command::DialPeer { peer: "a".to_string() }, Command::DialPeer { peer: "c".to_string() }]);
}

#[test]
fn listen_address_and_rebootstrap_rediscover() {
    let expected = vec![Command::BootstrapRouting, Command::FindClosestToRandom];
    assert_eq!(node(None).handle_event(&Event::NewListenAddr { address: "/ip4/0.0.0.0/tcp/1".to_string() }), expected);
    assert_eq!(node(None).handle_event(&Event::RebootstrapTick), expected);
}

#[test]
fn gossip_handshake_is_read_or_rejected() {
    let o = node(None);
    let m = sample(Some("bob"), "peerB", 3, "Hello from bob! 👋");
    let good = o.handle_event(&Event::GossipMessage { source: "peerB".to_string(), on_handshake_topic: true, data: encode(&m) });
    assert_eq!(good, vec![Command::Greeted { source: "peerB".to_string(), handshake: m }]);
    let bad = o.handle_event(&Event::GossipMessage { source: "peerB".to_string(), on_handshake_topic: true, data: b"{\"node_name\"".to_vec() });
    assert_eq!(bad, vec![Command::RejectedPayload { source: "peerB".to_string() }]);
    let other = o.handle_event(&Event::GossipMessage { source: "peerB".to_string(), on_handshake_topic: false, data: vec![1, 2] });
    assert!(other.is_empty());
}

#[test]
fn connect_without_peer_id_fails_before_dialing() {
    let o = node(None);
    let addr = "/ip4/127.0.0.1/tcp/4001".to_string();
    assert_eq!(o.connect_to_peer(&addr, &None), Err(ConnectError::MissingPeerId));
    let with_peer = "/ip4/127.0.0.1/tcp/4001/p2p/12D3KooWRemote".to_string();
    assert_eq!(
        o.connect_to_peer(&with_peer, &Some("12D3KooWRemote".to_string())),
        Ok(Command::DialAddress { address: with_peer.clone() })
    );
}

#[test]
fn bootstrap_commands() {
    let o = node(None);
    let cmds = o.bootstrap_global_network();
    assert_eq!(cmds.len(), 4);
    assert_eq!(cmds[3], Command::BootstrapRouting);
    assert_eq!(
        cmds[0],
        Command::DialAddress { address: "/dnsaddr/bootstrap.libp2p.io/p2p/QmNnooDu7bfjPFoTZYxMNLWUQJyrVwtbZg5gBMjTezGAJN".to_string() }
    );
    assert!(o.initial_routing(false, true).is_empty());
    assert!(o.initial_routing(true, false).is_empty());
    let seeded = o.initial_routing(true, true);
    assert_eq!(seeded.len(), 3);
    assert_eq!(
        seeded[2],
        Command::AddAddress {
            peer: "QmbLHAnMoJPWSCR5Zp9Kky4f5RmvJw2e6GrmNw9hxKL1MH".to_string(),
            address: "/dnsaddr/bootstrap.libp2p.io/p2p/QmbLHAnMoJPWSCR5Zp9Kky4f5RmvJw2e6GrmNw9hxKL1MH".to_string()
        }
    );
}
