use session_broker::{ConnectionRegistry, PushEvent, SocketMessageType, UnitSide};

#[test]
fn register_send_unregister() {
    let mut r = ConnectionRegistry::new();
    assert!(!r.is_registered(&"c1".to_string()));

    r.register("c1".to_string());
    assert!(r.is_registered(&"c1".to_string()));

    // Delivery to an unregistered identity is a silent miss, not an error.
    assert!(!r.send(&"c2".to_string(), PushEvent::GameStarted { session_id: "x".to_string() }));

    assert!(r.send(&"c1".to_string(), PushEvent::GameStarted { session_id: "x".to_string() }));
    assert!(r.send(&"c1".to_string(), PushEvent::GameStarted { session_id: "y".to_string() }));

    // The queue drains in send order, and draining empties it.
    let evs = r.take_pending(&"c1".to_string());
    assert_eq!(evs.len(), 2);
    match (&evs[0], &evs[1]) {
        (
            PushEvent::GameStarted { session_id: first },
            PushEvent::GameStarted { session_id: second },
        ) => {
            assert_eq!(first, "x");
            assert_eq!(second, "y");
        },
        _ => panic!("expected two game-started events"),
    }
    assert!(r.take_pending(&"c1".to_string()).is_empty());

    // Registering again replaces the entry and drops its queue.
    assert!(r.send(&"c1".to_string(), PushEvent::GameStarted { session_id: "z".to_string() }));
    r.register("c1".to_string());
    assert!(r.take_pending(&"c1".to_string()).is_empty());

    // Unregistering is idempotent.
    r.unregister(&"c1".to_string());
    assert!(!r.is_registered(&"c1".to_string()));
    r.unregister(&"c1".to_string());
    assert!(!r.is_registered(&"c1".to_string()));
}

#[test]
fn model_enums_compare_by_variant() {
    assert_eq!(UnitSide::Friendly, UnitSide::Friendly);
    assert_ne!(UnitSide::Friendly, UnitSide::Enemy);
    assert_eq!(SocketMessageType::Welcome, SocketMessageType::Welcome);
    assert_ne!(SocketMessageType::Ping, SocketMessageType::Disconnect);
}
