use futures::executor::block_on;
use futures::io::AsyncReadExt;
use onionize::proxy::{
    combine_copy_results, drain_outcomes, is_expected_closure, parse_target, session_step,
    stream_step, AcceptOutcome, Bridge, BridgeError, BridgePhase, FanoutAction, HostAddr,
    TargetAddr,
};

#[test]
fn test_parse_target_valid() {
    let t = parse_target("127.0.0.1:3000").unwrap();
    assert_eq!(
        t,
        TargetAddr {
            host: HostAddr::V4 {
                a: 127,
                b: 0,
                c: 0,
                d: 1
            },
            port: 3000
        }
    );

    let t = parse_target("0.0.0.0:65535").unwrap();
    assert_eq!(
        t,
        TargetAddr {
            host: HostAddr::V4 {
                a: 0,
                b: 0,
                c: 0,
                d: 0
            },
            port: 65535
        }
    );
}

#[test]
fn test_parse_target_v6_valid() {
    let t = parse_target("[::1]:80").unwrap();
    assert_eq!(
        t,
        TargetAddr {
            host: HostAddr::V6 {
                g0: 0,
                g1: 0,
                g2: 0,
                g3: 0,
                g4: 0,
                g5: 0,
                g6: 0,
                g7: 1,
                zone: 0
            },
            port: 80
        }
    );

    let t = parse_target("[2001:db8::8:800:200c:417a]:443").unwrap();
    assert_eq!(
        t,
        TargetAddr {
            host: HostAddr::V6 {
                g0: 0x2001,
                g1: 0x0db8,
                g2: 0,
                g3: 0,
                g4: 0x8,
                g5: 0x800,
                g6: 0x200c,
                g7: 0x417a,
                zone: 0
            },
            port: 443
        }
    );

    let t = parse_target("[1:2:3:4:5:6:7:8]:9").unwrap();
    assert_eq!(
        t,
        TargetAddr {
            host: HostAddr::V6 {
                g0: 1,
                g1: 2,
                g2: 3,
                g3: 4,
                g4: 5,
                g5: 6,
                g6: 7,
                g7: 8,
                zone: 0
            },
            port: 9
        }
    );

    let t = parse_target("[::ffff:127.0.0.1]:80").unwrap();
    assert_eq!(
        t,
        TargetAddr {
            host: HostAddr::V6 {
                g0: 0,
                g1: 0,
                g2: 0,
                g3: 0,
                g4: 0,
                g5: 0xffff,
                g6: 0x7f00,
                g7: 0x0001,
                zone: 0
            },
            port: 80
        }
    );

    let t = parse_target("[1:2:3:4:5:6:7.8.9.10]:11").unwrap();
    assert_eq!(
        t,
        TargetAddr {
            host: HostAddr::V6 {
                g0: 1,
                g1: 2,
                g2: 3,
                g3: 4,
                g4: 5,
                g5: 6,
                g6: 0x0708,
                g7: 0x090a,
                zone: 0
            },
            port: 11
        }
    );

    let t = parse_target("[fe80::1%3]:80").unwrap();
    assert_eq!(
        t,
        TargetAddr {
            host: HostAddr::V6 {
                g0: 0xfe80,
                g1: 0,
                g2: 0,
                g3: 0,
                g4: 0,
                g5: 0,
                g6: 0,
                g7: 1,
                zone: 3
            },
            port: 80
        }
    );

    let t = parse_target("[fe80::]:8080").unwrap();
    assert_eq!(
        t,
        TargetAddr {
            host: HostAddr::V6 {
                g0: 0xfe80,
                g1: 0,
                g2: 0,
                g3: 0,
                g4: 0,
                g5: 0,
                g6: 0,
                g7: 0,
                zone: 0
            },
            port: 8080
        }
    );
}

#[test]
fn test_parse_target_v6_malformed() {
    for bad in [
        "[::1]",
        "[::1]80",
        "[]:80",
        "[:::1]:80",
        "[1::2::3]:80",
        "[12345::]:80",
        "[1:2:3:4:5:6:7]:80",
        "[1:2:3:4:5:6:7:8:9]:80",
        "[1:2:3:4:5:6:7:8::]:80",
        "[:1:2:3]:80",
        "[g::1]:80",
        "[::ffff:1.2.3]:80",
        "[::ffff:1.2.3.256]:80",
        "[1.2.3.4::]:80",
        "[1:2:3:4:5:6:7:7.8.9.10]:80",
        "[::1]x:80",
        "[::1]:",
        "[::1]:99999",
        "[::1%]:80",
        "[::1%eth0]:80",
        "[::1%4294967296]:80",
    ] {
        let r = parse_target(bad);
        assert!(
            matches!(r, Err(BridgeError::AddressError)),
            "expected AddressError for {:?}",
            bad
        );
    }
}

#[test]
fn test_parse_target_malformed() {
    // Malformed targets fail with AddressError, whatever the defect.
    for bad in [
        "",
        "localhost:80",
        "127.0.0.1",
        "127.0.0:80",
        "127.0.0.1.5:80",
        "256.0.0.1:80",
        "127.00.0.1:80",
        "127.0.0.1:",
        "127.0.0.1:70000",
        "127.0.0.1:8x0",
        ":80",
        "1.2.3.4:80:81",
    ] {
        let r = parse_target(bad);
        assert!(
            matches!(r, Err(BridgeError::AddressError)),
            "expected AddressError for {:?}",
            bad
        );
    }
}

#[test]
fn test_malformed_target_never_connects() {
    // A bridge whose target string is malformed faults immediately: it never
    // reaches the connecting phase.
    let mut bridge = Bridge::new();
    let resolved = bridge.resolve_target("not-an-address");
    assert!(resolved.is_none());
    assert!(matches!(
        bridge.phase,
        BridgePhase::Failed {
            error: BridgeError::AddressError
        }
    ));
}

#[test]
fn test_unreachable_target_fails_bridge() {
    // Target parses, but nothing listens: the connect outcome is negative and
    // the bridge fails with TargetUnreachable.
    let mut bridge = Bridge::new();
    let resolved = bridge.resolve_target("127.0.0.1:9999");
    assert!(resolved.is_some());
    assert!(matches!(bridge.phase, BridgePhase::Connecting { .. }));
    bridge.connect_outcome(false);
    assert!(matches!(
        bridge.phase,
        BridgePhase::Failed {
            error: BridgeError::TargetUnreachable
        }
    ));
}

#[test]
fn test_unreachable_v6_target_fails_bridge() {
    // The same refusal classification holds for a colon-hex target.
    let mut bridge = Bridge::new();
    let resolved = bridge.resolve_target("[::1]:9999");
    assert!(resolved.is_some());
    assert!(matches!(bridge.phase, BridgePhase::Connecting { .. }));
    bridge.connect_outcome(false);
    assert!(matches!(
        bridge.phase,
        BridgePhase::Failed {
            error: BridgeError::TargetUnreachable
        }
    ));
}

#[test]
fn test_bridge_closes_with_byte_counts() {
    let mut bridge = Bridge::new();
    bridge.resolve_target("10.0.0.2:8080").unwrap();
    bridge.connect_outcome(true);
    assert!(matches!(bridge.phase, BridgePhase::Bridging { .. }));
    bridge.finish(Ok(4), Ok(1024));
    match bridge.phase {
        BridgePhase::Closed { up, down } => {
            assert_eq!(up, 4);
            assert_eq!(down, 1024);
        }
        other => panic!("expected Closed, got {:?}", other),
    }
}

#[test]
fn test_first_copy_error_wins() {
    let r = combine_copy_results(Err("upstream broke".to_string()), Ok(7));
    match r {
        Err(BridgeError::CopyFailed { message }) => assert_eq!(message, "upstream broke"),
        other => panic!("expected CopyFailed, got {:?}", other),
    }

    let r = combine_copy_results(Err("up".to_string()), Err("down".to_string()));
    match r {
        Err(BridgeError::CopyFailed { message }) => assert_eq!(message, "up"),
        other => panic!("expected CopyFailed, got {:?}", other),
    }

    let r = combine_copy_results(Ok(3), Err("down".to_string()));
    match r {
        Err(BridgeError::CopyFailed { message }) => assert_eq!(message, "down"),
        other => panic!("expected CopyFailed, got {:?}", other),
    }

    assert_eq!(combine_copy_results(Ok(3), Ok(9)).unwrap(), (3, 9));
}

#[test]
fn test_expected_closure_classification() {
    assert!(is_expected_closure(
        "stream dropped: END cell with reason MISC received"
    ));
    assert!(is_expected_closure("END cell with reason MISC"));
    assert!(!is_expected_closure("connection reset by peer"));
    assert!(!is_expected_closure("END cell with reason DONE"));
    assert!(!is_expected_closure(""));
}

#[test]
fn test_fanout_decisions() {
    assert_eq!(session_step(true), FanoutAction::SpawnTask);
    assert_eq!(session_step(false), FanoutAction::LogDebugAndContinue);
    assert_eq!(stream_step(true), FanoutAction::SpawnTask);
    assert_eq!(stream_step(false), FanoutAction::LogWarnAndContinue);
}

#[test]
fn test_stream_failure_does_not_stop_session() {
    // One stream's accept failure leaves every later stream of the same
    // session dispatched.
    let events = vec![
        AcceptOutcome::Dispatched,
        AcceptOutcome::AcceptFailed,
        AcceptOutcome::Dispatched,
        AcceptOutcome::Dispatched,
    ];
    let stats = drain_outcomes(&events);
    assert_eq!(stats.handled, 4);
    assert_eq!(stats.dispatched, 3);
    assert_eq!(stats.dropped, 1);
}

#[test]
fn test_session_failure_does_not_stop_dispatcher() {
    // A failed session, or one whose task could not be spawned, drops only
    // itself; the dispatcher keeps accepting the sessions after it.
    let events = vec![
        AcceptOutcome::AcceptFailed,
        AcceptOutcome::SpawnFailed,
        AcceptOutcome::Dispatched,
        AcceptOutcome::AcceptFailed,
        AcceptOutcome::Dispatched,
    ];
    let stats = drain_outcomes(&events);
    assert_eq!(stats.handled, 5);
    assert_eq!(stats.dispatched, 2);
    assert_eq!(stats.dropped, 3);
}

#[test]
fn test_one_failure_changes_only_its_own_request() {
    let smooth = vec![
        AcceptOutcome::Dispatched,
        AcceptOutcome::Dispatched,
        AcceptOutcome::Dispatched,
    ];
    let with_failure = vec![
        AcceptOutcome::Dispatched,
        AcceptOutcome::AcceptFailed,
        AcceptOutcome::Dispatched,
    ];
    let a = drain_outcomes(&smooth);
    let b = drain_outcomes(&with_failure);
    assert_eq!(a.handled, b.handled);
    assert_eq!(a.dispatched, b.dispatched + 1);
}

#[test]
fn test_copy_round_trip_small() {
    // The overlay writes PING; the target echoes PONG; the overlay-side
    // reader receives exactly PONG. Both directions run through the same
    // copy engine the bridge uses.
    let mut overlay_out = futures::io::Cursor::new(b"PING".to_vec());
    let mut target_in: Vec<u8> = Vec::new();
    let up = block_on(futures::io::copy(&mut overlay_out, &mut target_in)).unwrap();
    assert_eq!(&target_in, b"PING");

    let mut target_out = futures::io::Cursor::new(b"PONG".to_vec());
    let mut overlay_in: Vec<u8> = Vec::new();
    let down = block_on(futures::io::copy(&mut target_out, &mut overlay_in)).unwrap();
    assert_eq!(&overlay_in, b"PONG");

    let mut bridge = Bridge::new();
    bridge.resolve_target("127.0.0.1:9090").unwrap();
    bridge.connect_outcome(true);
    bridge.finish(Ok(up), Ok(down));
    match bridge.phase {
        BridgePhase::Closed { up, down } => {
            assert_eq!(up, 4);
            assert_eq!(down, 4);
        }
        other => panic!("expected Closed, got {:?}", other),
    }
}

#[test]
fn test_copy_round_trip_large_payload() {
    // A 64 KiB pseudo-random payload crosses the copy engine byte-identical
    // in both directions.
    let data_size = 64 * 1024;
    let payload: Vec<u8> = (0..data_size).map(|i| (i % 255) as u8).collect();

    let mut upstream = futures::io::Cursor::new(payload.clone());
    let mut at_target: Vec<u8> = Vec::new();
    let up = block_on(futures::io::copy(&mut upstream, &mut at_target)).unwrap();
    assert_eq!(up, data_size as u64);
    assert_eq!(at_target, payload);

    let mut downstream = futures::io::Cursor::new(at_target);
    let mut at_overlay: Vec<u8> = Vec::new();
    let down = block_on(futures::io::copy(&mut downstream, &mut at_overlay)).unwrap();
    assert_eq!(down, data_size as u64);
    assert_eq!(at_overlay, payload);
}

#[test]
fn test_partial_data_then_close_is_graceful() {
    // The target sends three bytes and closes. The reader gets the three
    // bytes, a further read yields zero bytes, and the bridge result is
    // success, not an error.
    let total = block_on(async {
        let mut target_out = futures::io::Cursor::new(b"BYE".to_vec());
        let mut received: Vec<u8> = Vec::new();
        let n = futures::io::copy(&mut target_out, &mut received)
            .await
            .unwrap();
        assert_eq!(&received, b"BYE");

        // Reading past closure yields a zero-length read, not an error.
        let mut buf = [0u8; 8];
        let m = target_out.read(&mut buf).await.unwrap();
        assert_eq!(m, 0, "Expected connection to be closed by server");
        n
    });

    let mut bridge = Bridge::new();
    bridge.resolve_target("127.0.0.1:8082").unwrap();
    bridge.connect_outcome(true);
    bridge.finish(Ok(0), Ok(total));
    assert!(
        matches!(bridge.phase, BridgePhase::Closed { .. }),
        "Proxy should handle server disconnect gracefully"
    );
}

#[test]
fn test_independent_bridges_do_not_interfere() {
    // Two bridges over independent buffer pairs: data sent on bridge A never
    // shows up on bridge B's endpoints.
    let payload_a = b"alpha-data".to_vec();
    let payload_b = b"beta-data".to_vec();

    let mut source_a = futures::io::Cursor::new(payload_a.clone());
    let mut sink_a: Vec<u8> = Vec::new();
    let mut source_b = futures::io::Cursor::new(payload_b.clone());
    let mut sink_b: Vec<u8> = Vec::new();

    let (ra, rb) = block_on(futures::future::try_join(
        futures::io::copy(&mut source_a, &mut sink_a),
        futures::io::copy(&mut source_b, &mut sink_b),
    ))
    .unwrap();

    assert_eq!(ra, payload_a.len() as u64);
    assert_eq!(rb, payload_b.len() as u64);
    assert_eq!(sink_a, payload_a);
    assert_eq!(sink_b, payload_b);
}
