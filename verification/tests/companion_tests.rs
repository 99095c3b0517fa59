use ctab_web::companion::{frame_action, FrameAction};
use ctab_web::protocol::{BridgeFrame, BridgeMessage};
use ctab_web::companion::{
    asset_path, browser_url, connection_state, constant_time_equal, content_type_for,
    expected_origin, heartbeat_expired, parse_options, random_hex, status_summary,
    validate_options, watchdog_decision, CompanionError, CompanionOptions, CompanionState,
    DiagnosticEvent, WatchdogDecision, HEARTBEAT_TIMEOUT_NANOS, STARTUP_IDLE_TIMEOUT_NANOS,
};
use ctab_web::protocol::{
    synthetic_snapshot, EntityDelta, Heartbeat, MarkerDelta, Point2, PositionDelta,
    PositionUpdate, TacticalMessage,
};
use ctab_web::reconcile::canonicalize_envelope;

const MILLISECOND: u64 = 1_000_000;

fn test_options(suffix: &str) -> CompanionOptions {
    CompanionOptions {
        pipe_name: format!(r"\\.\pipe\ctab-web-test-{suffix}-1"),
        pipe_token: "a".repeat(64),
        open_browser: false,
        arma_root: None,
    }
}

#[test]
fn heartbeat_timeout_has_a_grace_period() {
    let started = 5_000 * MILLISECOND;
    assert!(!heartbeat_expired(
        started,
        started + HEARTBEAT_TIMEOUT_NANOS - MILLISECOND
    ));
    assert!(heartbeat_expired(started, started + HEARTBEAT_TIMEOUT_NANOS));
    assert!(started + STARTUP_IDLE_TIMEOUT_NANOS > started + HEARTBEAT_TIMEOUT_NANOS);
}

#[test]
fn the_watchdog_stops_after_silence_or_an_idle_start() {
    assert_eq!(
        watchdog_decision(Some(0), HEARTBEAT_TIMEOUT_NANOS, 0),
        WatchdogDecision::HeartbeatTimeout
    );
    assert_eq!(
        watchdog_decision(Some(0), HEARTBEAT_TIMEOUT_NANOS - 1, 0),
        WatchdogDecision::KeepRunning
    );
    assert_eq!(
        watchdog_decision(None, STARTUP_IDLE_TIMEOUT_NANOS, 0),
        WatchdogDecision::StartupIdle
    );
    assert_eq!(
        watchdog_decision(None, STARTUP_IDLE_TIMEOUT_NANOS - 1, 0),
        WatchdogDecision::KeepRunning
    );
    assert_eq!(connection_state(Some(14_999)), "live");
    assert_eq!(connection_state(Some(15_000)), "waiting");
    assert_eq!(connection_state(None), "waiting");
}

#[test]
fn canonicalizes_duplicate_tactical_identifiers() {
    let mut envelope = synthetic_snapshot();
    let TacticalMessage::SessionSnapshot(snapshot) = &mut envelope.message else {
        panic!("expected snapshot");
    };
    let mut duplicate_entity = snapshot.entities[1].clone();
    duplicate_entity.label = "Updated BFT".to_owned();
    snapshot.entities.push(duplicate_entity);
    let mut duplicate_marker = snapshot.markers[0].clone();
    duplicate_marker.label = "Updated marker".to_owned();
    snapshot.markers.push(duplicate_marker);

    canonicalize_envelope(&mut envelope);

    let TacticalMessage::SessionSnapshot(snapshot) = envelope.message else {
        panic!("expected snapshot");
    };
    assert_eq!(snapshot.entities.len(), 2);
    assert_eq!(snapshot.entities[1].label, "Updated BFT");
    assert_eq!(snapshot.markers.len(), 1);
    assert_eq!(snapshot.markers[0].label, "Updated marker");
}

#[test]
fn startup_options_reject_non_ctab_pipe_names() {
    let mut options = test_options("invalid");
    options.pipe_name = r"\\.\pipe\foreign".to_owned();
    assert!(matches!(
        validate_options(&options, true),
        Err(CompanionError::InvalidOptions)
    ));
    assert!(validate_options(&test_options("valid"), false).is_ok());
    let mut with_root = test_options("root");
    with_root.arma_root = Some(r"X:\Games\Arma 3".to_owned());
    assert!(validate_options(&with_root, false).is_err());
    assert!(validate_options(&with_root, true).is_ok());
}

#[test]
fn token_comparison_checks_length_and_content() {
    assert!(constant_time_equal("abc", "abc"));
    assert!(!constant_time_equal("abc", "abd"));
    assert!(!constant_time_equal("abc", "ab"));
}

#[test]
fn serves_the_embedded_brand_logo_as_png() {
    assert_eq!(content_type_for("grp9-logo.png"), "image/png");
}

#[test]
fn static_assets_stay_inside_the_asset_directory() {
    assert_eq!(asset_path("/"), Some("index.html".to_owned()));
    assert_eq!(asset_path("/app.js"), Some("app.js".to_owned()));
    assert_eq!(asset_path("/../secret"), None);
    assert_eq!(content_type_for("index.html"), "text/html; charset=utf-8");
}

#[test]
fn parses_the_fixed_startup_contract() {
    let options = parse_options(
        &[
            "--pipe-name",
            r"\\.\pipe\ctab-web-test",
            "--pipe-token",
            "aaaaaaaaaaaaaaaaaaaaaaaaaaaaaaaa",
            "--no-browser",
            "--arma-root",
            r"X:\Games\Arma 3",
        ]
        .into_iter()
        .map(str::to_owned)
        .collect::<Vec<_>>(),
    )
    .expect("valid options");
    assert!(!options.open_browser);
    assert_eq!(options.arma_root, Some(r"X:\Games\Arma 3".to_owned()));
}

#[test]
fn rejects_unknown_options() {
    assert!(parse_options(&vec!["--listen-all".to_owned()]).is_err());
}

#[test]
fn reports_missing_pipe_options() {
    assert_eq!(
        parse_options(&Vec::new()),
        Err("missing --pipe-name".to_owned())
    );
    assert_eq!(
        parse_options(&vec!["--pipe-name".to_owned(), "x".to_owned()]),
        Err("missing --pipe-token".to_owned())
    );
}

#[test]
fn browser_addresses_carry_the_session_token() {
    assert_eq!(
        browser_url("127.0.0.1:8080", "abc"),
        "http://127.0.0.1:8080/#token=abc"
    );
    assert_eq!(expected_origin("127.0.0.1:8080"), "http://127.0.0.1:8080");
    let token = random_hex(32).expect("random token");
    assert_eq!(token.len(), 64);
}

#[test]
fn snapshot_and_deltas_are_reconciled_for_refresh() {
    let mut state = CompanionState::new(false);
    let snapshot = synthetic_snapshot();
    let mut entity_delta = synthetic_snapshot();
    entity_delta.sequence = 2;
    let TacticalMessage::SessionSnapshot(snapshot_payload) = &entity_delta.message else {
        panic!("expected a synthetic snapshot");
    };
    let mut added_entity = snapshot_payload.entities[1].clone();
    added_entity.id = "ctab-og-unit:1:2".to_owned();
    added_entity.label = "Rifleman".to_owned();
    entity_delta.message = TacticalMessage::EntityDelta(EntityDelta {
        updated: vec![added_entity],
        removed: vec!["bft-alpha-1".to_owned()],
    });
    let mut position_delta = synthetic_snapshot();
    position_delta.sequence = 3;
    position_delta.message = TacticalMessage::PositionDelta(PositionDelta {
        updated: vec![
            PositionUpdate {
                id: "player-local".to_owned(),
                position: Point2 {
                    x: 900.0f64.to_bits(),
                    y: 800.0f64.to_bits(),
                },
                direction: 180.0f64.to_bits(),
            },
            PositionUpdate {
                id: "ctab-og-unit:1:2".to_owned(),
                position: Point2 {
                    x: 700.0f64.to_bits(),
                    y: 600.0f64.to_bits(),
                },
                direction: 45.0f64.to_bits(),
            },
        ],
        removed: Vec::new(),
    });
    let mut marker_delta = synthetic_snapshot();
    marker_delta.sequence = 4;
    marker_delta.message = TacticalMessage::MarkerDelta(MarkerDelta {
        updated: Vec::new(),
        removed: vec!["marker-objective".to_owned()],
    });
    let mut heartbeat = synthetic_snapshot();
    heartbeat.sequence = 5;
    heartbeat.message = TacticalMessage::Heartbeat(Heartbeat {
        uptime_ms: 42.0f64.to_bits(),
    });

    let mut now = 0u64;
    for envelope in [snapshot, entity_delta, position_delta, marker_delta, heartbeat] {
        now += 50 * MILLISECOND;
        let outcome = state.apply_publish(envelope, now);
        assert!(outcome.accepted);
    }
    let stored = state.current.clone().expect("stored state");
    assert_eq!(stored.sequence, 5);
    let TacticalMessage::SessionSnapshot(snapshot) = stored.message else {
        panic!("expected a reconciled session snapshot");
    };
    assert_eq!(
        snapshot.entities[0].position,
        Point2 {
            x: 900.0f64.to_bits(),
            y: 800.0f64.to_bits()
        }
    );
    assert_eq!(snapshot.entities[1].id, "ctab-og-unit:1:2");
    assert_eq!(
        snapshot.entities[1].position,
        Point2 {
            x: 700.0f64.to_bits(),
            y: 600.0f64.to_bits()
        }
    );
    assert!(snapshot.markers.is_empty());
    assert_eq!(state.last_heartbeat, Some(now));
    let (edition, _) = status_summary(&state.current);
    assert_eq!(edition, "original");
    assert!(state
        .diagnostics
        .events()
        .contains(&DiagnosticEvent::MissionReady));
}

#[test]
fn stale_and_foreign_envelopes_are_not_accepted() {
    let mut state = CompanionState::new(true);
    let first = state.apply_publish(synthetic_snapshot(), 1);
    assert!(first.accepted && first.forward && first.open_browser);
    let mut stale = synthetic_snapshot();
    stale.message = TacticalMessage::MarkerDelta(MarkerDelta {
        updated: Vec::new(),
        removed: Vec::new(),
    });
    let outcome = state.apply_publish(stale, 2);
    assert!(!outcome.accepted && !outcome.forward);
    let mut foreign = synthetic_snapshot();
    foreign.session_id = "other".to_owned();
    foreign.sequence = 9;
    foreign.message = TacticalMessage::MarkerDelta(MarkerDelta {
        updated: Vec::new(),
        removed: Vec::new(),
    });
    assert!(!state.apply_publish(foreign, 3).accepted);
    let again = state.apply_publish(synthetic_snapshot(), 4);
    assert!(!again.open_browser);
}

#[test]
fn repeated_identifiers_never_duplicate_stored_entities() {
    let mut state = CompanionState::new(false);
    let mut snapshot = synthetic_snapshot();
    let TacticalMessage::SessionSnapshot(payload) = &mut snapshot.message else {
        panic!("expected a synthetic snapshot");
    };
    let duplicate = payload.entities[0].clone();
    payload.entities.push(duplicate);
    let prepared = ctab_web::companion::prepare_publish(snapshot).expect("valid snapshot");
    assert!(state.apply_publish(prepared, 0).accepted);

    let mut delta = synthetic_snapshot();
    delta.sequence = 2;
    let TacticalMessage::SessionSnapshot(payload) = &delta.message else {
        panic!("expected a synthetic snapshot");
    };
    let mut renamed = payload.entities[0].clone();
    renamed.label = "Renamed".to_owned();
    delta.message = TacticalMessage::EntityDelta(EntityDelta {
        updated: vec![renamed.clone(), renamed],
        removed: Vec::new(),
    });
    let prepared = ctab_web::companion::prepare_publish(delta).expect("valid delta");
    assert!(state.apply_publish(prepared, 1).accepted);

    let Some(stored) = &state.current else {
        panic!("a stored snapshot");
    };
    let TacticalMessage::SessionSnapshot(payload) = &stored.message else {
        panic!("the stored state is a snapshot");
    };
    let mut ids: Vec<&str> = payload.entities.iter().map(|entity| entity.id.as_str()).collect();
    let count = ids.len();
    ids.sort_unstable();
    ids.dedup();
    assert_eq!(ids.len(), count);
    assert_eq!(payload.entities[0].label, "Renamed");
}

#[test]
fn update_age_is_reported_in_whole_milliseconds() {
    assert_eq!(ctab_web::companion::update_age_millis(None, 5 * MILLISECOND), None);
    assert_eq!(
        ctab_web::companion::update_age_millis(Some(MILLISECOND), 3_500_000),
        Some(2)
    );
    assert_eq!(ctab_web::companion::update_age_millis(Some(9 * MILLISECOND), MILLISECOND), Some(0));
}

#[test]
fn pipe_frames_are_authenticated_validated_and_canonicalized() {
    let token = "a".repeat(64);
    let foreign = BridgeFrame { pipe_token: "b".repeat(64), message: BridgeMessage::OpenBrowser };
    assert_eq!(frame_action(foreign, &token), FrameAction::Ignore);
    let request = BridgeFrame { pipe_token: token.clone(), message: BridgeMessage::OpenBrowser };
    assert_eq!(frame_action(request, &token), FrameAction::OpenBrowser);
    let mut invalid = synthetic_snapshot();
    invalid.protocol_version = 9;
    let frame = BridgeFrame {
        pipe_token: token.clone(),
        message: BridgeMessage::Publish { envelope: invalid },
    };
    assert_eq!(frame_action(frame, &token), FrameAction::Ignore);
    let mut duplicated = synthetic_snapshot();
    let TacticalMessage::SessionSnapshot(payload) = &mut duplicated.message else {
        panic!("expected snapshot");
    };
    let copy = payload.markers[0].clone();
    payload.markers.push(copy);
    let frame = BridgeFrame {
        pipe_token: token.clone(),
        message: BridgeMessage::Publish { envelope: duplicated },
    };
    assert_eq!(frame_action(frame, &token), FrameAction::Publish(synthetic_snapshot()));
}

#[test]
fn the_watchdog_logs_why_it_stops() {
    let mut state = CompanionState::new(false);
    assert!(!state.watchdog_check(STARTUP_IDLE_TIMEOUT_NANOS - 1, 0));
    assert!(state.watchdog_check(STARTUP_IDLE_TIMEOUT_NANOS, 0));
    assert_eq!(
        state.diagnostics.events().last(),
        Some(&DiagnosticEvent::StartupIdleShutdown)
    );
    state.last_heartbeat = Some(5);
    assert!(!state.watchdog_check(5 + HEARTBEAT_TIMEOUT_NANOS - 1, 0));
    assert!(state.watchdog_check(5 + HEARTBEAT_TIMEOUT_NANOS, 0));
    assert_eq!(
        state.diagnostics.events().last(),
        Some(&DiagnosticEvent::HeartbeatTimeoutShutdown)
    );
}

fn arguments(words: &[&str]) -> Vec<String> {
    words.iter().map(|word| (*word).to_owned()).collect()
}

#[test]
fn only_arguments_read_as_options_decide_the_command_line() {
    let token = "a".repeat(32);
    let options = parse_options(&arguments(&["--pipe-name", "--no-browser", "--pipe-token", &token]))
        .expect("a value that looks like an option is still a value");
    assert_eq!(options.pipe_name, "--no-browser");
    assert!(options.open_browser);
    let options = parse_options(&arguments(&["--pipe-name", "n", "--pipe-token", &token, "--no-browser"]))
        .expect("valid options");
    assert!(!options.open_browser);
    assert_eq!(
        parse_options(&arguments(&["--pipe-name", "n", "--pipe-token", &token, "extra"])),
        Err("unsupported command-line option".to_owned())
    );
    assert_eq!(
        parse_options(&arguments(&["--pipe-token", &token, "--pipe-name"])),
        Err("missing --pipe-name".to_owned())
    );
    assert_eq!(
        parse_options(&arguments(&["--pipe-name", "n", "--pipe-token"])),
        Err("missing --pipe-token".to_owned())
    );
}

#[test]
fn only_an_accepted_heartbeat_with_the_pipe_token_refreshes_the_heartbeat() {
    let token = "a".repeat(64);
    let mut state = CompanionState::new(false);
    let beat = |sequence: u64| {
        let mut envelope = synthetic_snapshot();
        envelope.sequence = sequence;
        envelope.message = TacticalMessage::Heartbeat(Heartbeat { uptime_ms: 10.0f64.to_bits() });
        envelope
    };
    let foreign = BridgeFrame {
        pipe_token: "b".repeat(64),
        message: BridgeMessage::Publish { envelope: beat(2) },
    };
    assert_eq!(frame_action(foreign, &token), FrameAction::Ignore);
    let early = BridgeFrame { pipe_token: token.clone(), message: BridgeMessage::Publish { envelope: beat(2) } };
    let FrameAction::Publish(envelope) = frame_action(early, &token) else {
        panic!("a valid heartbeat is published");
    };
    let outcome = state.apply_publish(envelope, 7);
    assert!(!outcome.accepted);
    assert_eq!(state.last_heartbeat, None);
    let FrameAction::Publish(snapshot) = frame_action(
        BridgeFrame { pipe_token: token.clone(), message: BridgeMessage::Publish { envelope: synthetic_snapshot() } },
        &token,
    ) else {
        panic!("the fixture is published");
    };
    assert!(state.apply_publish(snapshot, 8).accepted);
    assert_eq!(state.last_heartbeat, None);
    let late = BridgeFrame { pipe_token: token.clone(), message: BridgeMessage::Publish { envelope: beat(2) } };
    let FrameAction::Publish(envelope) = frame_action(late, &token) else {
        panic!("a valid heartbeat is published");
    };
    let outcome = state.apply_publish(envelope, 9);
    assert!(outcome.accepted && !outcome.forward);
    assert_eq!(state.last_heartbeat, Some(9));
}

#[test]
fn the_diagnostic_log_keeps_the_newest_events_within_its_bound() {
    let mut state = CompanionState::new(false);
    for _ in 0..100 {
        state.record(DiagnosticEvent::WebsocketResynchronized);
    }
    state.record(DiagnosticEvent::MissionReady);
    let events = state.diagnostics.events();
    assert_eq!(events.len(), ctab_web::companion::MAX_DIAGNOSTIC_EVENTS);
    assert_eq!(events.last(), Some(&DiagnosticEvent::MissionReady));
    assert_eq!(events[0], DiagnosticEvent::WebsocketResynchronized);
}

#[test]
fn the_status_report_needs_the_browser_token_and_holds_no_tokens() {
    let browser_token = "c".repeat(64);
    let mut state = CompanionState::new(false);
    assert!(state.status_report(&"d".repeat(64), &browser_token, 0).is_none());
    assert!(state.status_report("", &browser_token, 0).is_none());
    let report = state.status_report(&browser_token, &browser_token, 0).expect("authorized");
    assert_eq!(report.connection, "waiting");
    assert_eq!(report.edition, "none");
    assert_eq!(report.terrain, None);
    assert_eq!(report.update_age_ms, None);
    assert_eq!(report.diagnostics, vec![DiagnosticEvent::CompanionStarted]);
    let mut snapshot = synthetic_snapshot();
    canonicalize_envelope(&mut snapshot);
    assert!(state.apply_publish(snapshot, 1_000).accepted);
    let mut beat = synthetic_snapshot();
    beat.sequence = 2;
    beat.message = TacticalMessage::Heartbeat(Heartbeat { uptime_ms: 1.0f64.to_bits() });
    assert!(state.apply_publish(beat, 2 * MILLISECOND).accepted);
    let report = state
        .status_report(&browser_token, &browser_token, 2 * MILLISECOND + 14_999 * MILLISECOND)
        .expect("authorized");
    assert_eq!(report.update_age_ms, Some(14_999));
    assert_eq!(report.connection, "live");
    let (edition, terrain) = status_summary(&state.current);
    assert_eq!((report.edition, report.terrain.clone()), (edition, terrain));
    let report = state
        .status_report(&browser_token, &browser_token, 2 * MILLISECOND + 15_000 * MILLISECOND)
        .expect("authorized");
    assert_eq!(report.connection, "waiting");
}
