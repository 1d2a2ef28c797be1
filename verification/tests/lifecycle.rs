use session_broker::{Broker, BrokerError, ErrorClass, PushEvent, ScenarioLookup, SessionState};

fn found(name: &str) -> ScenarioLookup {
    ScenarioLookup::Found { name: name.to_string() }
}

#[test]
fn create_and_join_notifies_owner_and_rejects_third() {
    let mut b = Broker::new();
    b.registry.register("A".to_string());
    b.registry.register("B".to_string());

    let x = b
        .create_session("S1".to_string(), "A".to_string(), found("Scenario One"))
        .unwrap();
    assert_eq!(x.len(), 36);

    // No notification on create: the owner's queue stays empty.
    assert!(b.registry.take_pending(&"A".to_string()).is_empty());

    b.join_session(&x, "B".to_string()).unwrap();

    // Player 1 receives exactly one SessionReady{session_id: x, player2: "B"}.
    let evs = b.registry.take_pending(&"A".to_string());
    assert_eq!(evs.len(), 1);
    match &evs[0] {
        PushEvent::SessionReady { session_id, player2 } => {
            assert_eq!(session_id, &x);
            assert_eq!(player2, "B");
        },
        _ => panic!("expected a session-ready event"),
    }

    // A third join attempt conflicts.
    let e = b.join_session(&x, "C".to_string()).unwrap_err();
    assert_eq!(e, BrokerError::SessionFull);
    assert_eq!(e.class(), ErrorClass::Conflict);
}

#[test]
fn join_progressing_session_conflicts_without_mutation() {
    let mut b = Broker::new();
    let x = b
        .create_session("S1".to_string(), "A".to_string(), found("Scenario One"))
        .unwrap();
    b.join_session(&x, "B".to_string()).unwrap();

    let before = b.get_session(&x).unwrap();
    let e = b.join_session(&x, "C".to_string()).unwrap_err();
    assert_eq!(e.class(), ErrorClass::Conflict);

    let after = b.get_session(&x).unwrap();
    assert_eq!(after.session_id, before.session_id);
    assert_eq!(after.state, SessionState::Progressing);
    assert_eq!(after.player1, "A");
    assert_eq!(after.player2.as_deref(), Some("B"));
}

#[test]
fn summary_round_trips_created_record() {
    let mut b = Broker::new();
    let x = b
        .create_session("S1".to_string(), "A".to_string(), found("Scenario One"))
        .unwrap();

    let sum = b.get_session(&x).unwrap();
    assert_eq!(sum.session_id, x);
    assert_eq!(sum.scenario_id, "S1");
    assert_eq!(sum.scenario_name, "Scenario One");
    assert_eq!(sum.state, SessionState::Idle);
    assert_eq!(sum.player1, "A");
    assert_eq!(sum.player2, None);

    let all = b.list_sessions();
    assert_eq!(all.len(), 1);
    assert_eq!(all[0].session_id, x);
}

#[test]
fn membership_matches_filled_slots() {
    let mut b = Broker::new();
    let x = b
        .create_session("S1".to_string(), "A".to_string(), found("Scenario One"))
        .unwrap();
    assert_eq!(b.store.entries[0].members.len(), 1);
    assert_eq!(b.store.entries[0].members[0], "A");

    b.join_session(&x, "B".to_string()).unwrap();
    assert_eq!(b.store.entries[0].members.len(), 2);
    assert!(b.store.entries[0].members.len() <= 2);
    assert_eq!(b.store.entries[0].members[1], "B");
}

#[test]
fn disconnect_of_opponent_ends_game_for_survivor() {
    let mut b = Broker::new();
    b.registry.register("A".to_string());
    b.registry.register("B".to_string());
    let x = b
        .create_session("S1".to_string(), "A".to_string(), found("Scenario One"))
        .unwrap();
    b.join_session(&x, "B".to_string()).unwrap();
    // Drain the session-ready event so only the game-ended one is left.
    b.registry.take_pending(&"A".to_string());

    b.on_disconnect(&"B".to_string());

    let evs = b.registry.take_pending(&"A".to_string());
    assert_eq!(evs.len(), 1);
    match &evs[0] {
        PushEvent::GameEnded { session_id, winner_id, reason } => {
            assert_eq!(session_id, &x);
            assert_eq!(winner_id, "A");
            assert_eq!(reason, "Player B disconnected");
        },
        _ => panic!("expected a game-ended event"),
    }

    // The session record and membership set are gone.
    assert_eq!(b.get_session(&x).unwrap_err(), BrokerError::SessionNotFound);
    assert!(b.list_sessions().is_empty());
}

#[test]
fn disconnect_cleanup_is_idempotent() {
    let mut b = Broker::new();
    b.registry.register("A".to_string());
    b.registry.register("B".to_string());
    let x = b
        .create_session("S1".to_string(), "A".to_string(), found("Scenario One"))
        .unwrap();
    b.join_session(&x, "B".to_string()).unwrap();
    b.registry.take_pending(&"A".to_string());

    b.cleanup_user_sessions(&"B".to_string());
    let first = b.registry.take_pending(&"A".to_string());
    assert_eq!(first.len(), 1);

    // A second cleanup for the same connection removes nothing and notifies
    // nobody.
    b.cleanup_user_sessions(&"B".to_string());
    assert!(b.registry.take_pending(&"A".to_string()).is_empty());
    assert!(b.list_sessions().is_empty());
}

#[test]
fn owner_disconnect_before_join_deletes_silently() {
    let mut b = Broker::new();
    b.registry.register("A".to_string());
    b.registry.register("W".to_string());
    let x = b
        .create_session("S1".to_string(), "A".to_string(), found("Scenario One"))
        .unwrap();

    b.on_disconnect(&"A".to_string());

    // Record and membership set deleted; no notification to anyone.
    assert_eq!(b.get_session(&x).unwrap_err(), BrokerError::SessionNotFound);
    assert!(b.list_sessions().is_empty());
    assert!(b.registry.take_pending(&"W".to_string()).is_empty());
    assert!(!b.registry.is_registered(&"A".to_string()));
}

#[test]
fn start_game_counts_only_registered_members() {
    let mut b = Broker::new();
    b.registry.register("A".to_string());
    let x = b
        .create_session("S1".to_string(), "A".to_string(), found("Scenario One"))
        .unwrap();
    b.join_session(&x, "B".to_string()).unwrap();
    b.registry.take_pending(&"A".to_string());

    // Only "A" is registered: one notification, "B" silently skipped.
    assert_eq!(b.start_game(&x), 1);
    let evs = b.registry.take_pending(&"A".to_string());
    assert_eq!(evs.len(), 1);
    match &evs[0] {
        PushEvent::GameStarted { session_id } => assert_eq!(session_id, &x),
        _ => panic!("expected a game-started event"),
    }

    // The session state is untouched.
    assert_eq!(b.get_session(&x).unwrap().state, SessionState::Progressing);

    b.registry.register("B".to_string());
    assert_eq!(b.start_game(&x), 2);

    // An absent session notifies nobody.
    assert_eq!(b.start_game(&"missing".to_string()), 0);
}

#[test]
fn close_session_notifies_members_and_deletes() {
    let mut b = Broker::new();
    b.registry.register("A".to_string());
    b.registry.register("B".to_string());
    let x = b
        .create_session("S1".to_string(), "A".to_string(), found("Scenario One"))
        .unwrap();
    b.join_session(&x, "B".to_string()).unwrap();
    b.registry.take_pending(&"A".to_string());

    b.close_session(&x, "Session closed by host".to_string());

    for who in ["A", "B"] {
        let evs = b.registry.take_pending(&who.to_string());
        assert_eq!(evs.len(), 1);
        match &evs[0] {
            PushEvent::GameEnded { session_id, winner_id, reason } => {
                assert_eq!(session_id, &x);
                assert_eq!(winner_id, "");
                assert_eq!(reason, "Session closed by host");
            },
            _ => panic!("expected a game-ended event"),
        }
    }
    assert_eq!(b.get_session(&x).unwrap_err(), BrokerError::SessionNotFound);

    // Closing an already-absent session is not an error and notifies nobody.
    b.close_session(&x, "again".to_string());
    assert!(b.registry.take_pending(&"A".to_string()).is_empty());
    assert!(b.registry.take_pending(&"B".to_string()).is_empty());
}

#[test]
fn error_variants_and_reasons() {
    let mut b = Broker::new();

    let e = b
        .create_session("@@".to_string(), "A".to_string(), ScenarioLookup::InvalidRef)
        .unwrap_err();
    assert_eq!(e, BrokerError::InvalidReference);
    assert_eq!(e.class(), ErrorClass::InvalidInput);
    assert_eq!(e.reason(), "Invalid scenario_id");

    let e = b
        .create_session("S9".to_string(), "A".to_string(), ScenarioLookup::NotFound)
        .unwrap_err();
    assert_eq!(e, BrokerError::ScenarioNotFound);
    assert_eq!(e.class(), ErrorClass::NotFound);
    assert_eq!(e.reason(), "Scenario not found");

    let e = b.join_session(&"missing".to_string(), "B".to_string()).unwrap_err();
    assert_eq!(e, BrokerError::SessionNotFound);
    assert_eq!(e.class(), ErrorClass::NotFound);
    assert_eq!(e.reason(), "Session does not exist");

    let e = b.get_session(&"missing".to_string()).unwrap_err();
    assert_eq!(e, BrokerError::SessionNotFound);

    // Nothing was created by the failing calls.
    assert!(b.list_sessions().is_empty());

    let x = b
        .create_session("S1".to_string(), "A".to_string(), found("Scenario One"))
        .unwrap();

    // The owner joining their own session is not joinable.
    let e = b.join_session(&x, "A".to_string()).unwrap_err();
    assert_eq!(e, BrokerError::SessionNotJoinable);
    assert_eq!(e.class(), ErrorClass::Conflict);
    assert_eq!(e.reason(), "Session is not joinable");
    assert_eq!(b.get_session(&x).unwrap().state, SessionState::Idle);

    b.join_session(&x, "B".to_string()).unwrap();
    let e = b.join_session(&x, "C".to_string()).unwrap_err();
    assert_eq!(e, BrokerError::SessionFull);
    assert_eq!(e.reason(), "Session is full");
}

#[test]
fn connect_handshake_sends_identity_first() {
    let mut b = Broker::new();
    let id = b.on_connect();
    assert_eq!(id.len(), 36);
    assert!(b.registry.is_registered(&id));

    let evs = b.registry.take_pending(&id);
    assert_eq!(evs.len(), 1);
    match &evs[0] {
        PushEvent::Welcome { connection_id } => assert_eq!(connection_id, &id),
        _ => panic!("expected the welcome handshake"),
    }
}
