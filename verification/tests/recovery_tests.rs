use ctab_web::protocol::{
    synthetic_snapshot, BridgeFrame, BridgeMessage, Envelope, Heartbeat, MarkerDelta,
    TacticalMessage, PROTOCOL_VERSION,
};
use ctab_web::recovery::{restart_browser, RecoveryError, ReplayBuffer, RestartLimiter};

const SECOND: u64 = 1_000_000_000;

fn publish(envelope: Envelope) -> Option<BridgeFrame> {
    Some(BridgeFrame {
        pipe_token: "a".repeat(64),
        message: BridgeMessage::Publish { envelope },
    })
}

fn browser_request() -> Option<BridgeFrame> {
    Some(BridgeFrame {
        pipe_token: "a".repeat(64),
        message: BridgeMessage::OpenBrowser,
    })
}

fn heartbeat(sequence: u64) -> Envelope {
    Envelope {
        protocol_version: PROTOCOL_VERSION,
        session_id: "phase1-session".to_owned(),
        sequence,
        message: TacticalMessage::Heartbeat(Heartbeat {
            uptime_ms: 42.0f64.to_bits(),
        }),
    }
}

#[test]
fn restart_limiter_prevents_crash_loops_and_recovers_after_the_window() {
    let start = 1_000 * SECOND;
    let mut limiter = RestartLimiter::new();
    assert!(limiter.allow(start));
    assert!(!limiter.allow(start + SECOND));
    assert!(limiter.allow(start + 5 * SECOND));
    assert!(limiter.allow(start + 10 * SECOND));
    assert!(!limiter.allow(start + 15 * SECOND));
    assert!(limiter.allow(start + 61 * SECOND));
}

#[test]
fn restart_limiter_counts_a_clock_step_back_as_no_time() {
    let mut limiter = RestartLimiter::default();
    assert!(limiter.allow(100 * SECOND));
    assert!(!limiter.allow(50 * SECOND));
}

#[test]
fn recovery_delivers_browser_request_once_after_the_tactical_state() {
    let mut replay = ReplayBuffer::new();
    let snapshot_frame = publish(synthetic_snapshot());
    let snapshot = b"snapshot-frame".to_vec();
    let mut delta_envelope = synthetic_snapshot();
    delta_envelope.sequence = 2;
    delta_envelope.message = TacticalMessage::MarkerDelta(MarkerDelta {
        updated: Vec::new(),
        removed: vec!["marker-objective".to_owned()],
    });
    let delta_frame = publish(delta_envelope);
    let delta = b"delta-frame".to_vec();
    let request_frame = browser_request();
    let request = b"request-frame".to_vec();
    replay.observe(&snapshot, &snapshot_frame);
    replay.observe(&delta, &delta_frame);
    assert!(!replay.observe(&request, &request_frame));

    assert_eq!(
        replay
            .recovery_payloads(&request, &request_frame)
            .expect("recover browser request"),
        vec![snapshot.clone(), delta.clone(), request.clone()]
    );
    assert_eq!(
        replay
            .recovery_payloads(&delta, &delta_frame)
            .expect("recover tactical delta"),
        vec![snapshot.clone(), delta.clone()]
    );

    let heartbeat_frame = publish(heartbeat(3));
    let heartbeat_bytes = b"heartbeat-frame".to_vec();
    replay.observe(&heartbeat_bytes, &heartbeat_frame);
    assert_eq!(
        replay
            .recovery_payloads(&heartbeat_bytes, &heartbeat_frame)
            .expect("recover heartbeat"),
        vec![snapshot, delta, heartbeat_bytes]
    );
}

#[test]
fn browser_request_can_recover_before_a_snapshot_is_available() {
    let request = b"request-frame".to_vec();
    assert_eq!(
        ReplayBuffer::new()
            .recovery_payloads(&request, &browser_request())
            .expect("recover browser request"),
        vec![request]
    );
}

#[test]
fn recovery_needs_a_snapshot_and_a_parsed_frame() {
    let replay = ReplayBuffer::new();
    let payload = b"x".to_vec();
    assert_eq!(
        replay.recovery_payloads(&payload, &publish(heartbeat(2))),
        Err(RecoveryError::NoSnapshot)
    );
    assert_eq!(
        replay.recovery_payloads(&payload, &None),
        Err(RecoveryError::InvalidFrame)
    );
    assert_eq!(
        RecoveryError::NoSnapshot.describe(),
        "no mission snapshot is available for recovery"
    );
}

#[test]
fn recovery_orders_frames_by_sequence() {
    let mut replay = ReplayBuffer::new();
    let mut snapshot = synthetic_snapshot();
    snapshot.sequence = 5;
    replay.observe(&b"snapshot".to_vec(), &publish(snapshot));
    let mut marker = synthetic_snapshot();
    marker.sequence = 7;
    marker.message = TacticalMessage::MarkerDelta(MarkerDelta {
        updated: Vec::new(),
        removed: Vec::new(),
    });
    replay.observe(&b"marker".to_vec(), &publish(marker));
    let mut entity = synthetic_snapshot();
    entity.sequence = 6;
    entity.message = TacticalMessage::EntityDelta(ctab_web::protocol::EntityDelta {
        updated: Vec::new(),
        removed: Vec::new(),
    });
    replay.observe(&b"entity".to_vec(), &publish(entity));
    let pending = b"pending".to_vec();
    assert_eq!(
        replay
            .recovery_payloads(&pending, &browser_request())
            .expect("recover"),
        vec![
            b"snapshot".to_vec(),
            b"entity".to_vec(),
            b"marker".to_vec(),
            pending
        ]
    );
}

#[test]
fn replay_buffer_keeps_a_bounded_recovery_snapshot_and_skips_heartbeats() {
    let mut replay = ReplayBuffer::new();
    let snapshot_payload = b"snapshot-frame".to_vec();
    assert!(replay.observe(&snapshot_payload, &publish(synthetic_snapshot())));

    let heartbeat_payload = b"heartbeat-frame".to_vec();
    assert!(!replay.observe(&heartbeat_payload, &publish(heartbeat(2))));

    let same_snapshot = replay.snapshot().expect("stored snapshot").payload;
    assert!(!replay.observe(&same_snapshot, &publish(synthetic_snapshot())));

    let mut next_session = synthetic_snapshot();
    next_session.session_id = "phase1-session-next".to_owned();
    assert!(replay.observe(&b"next-session".to_vec(), &publish(next_session)));
    assert_eq!(replay.session_id().as_deref(), Some("phase1-session-next"));

    assert_eq!(replay.snapshot().map(|frame| frame.sequence), Some(1));
    assert_eq!(replay.retained_counts(), (0, 0, 0, 0));
}

#[test]
fn replay_buffer_drops_the_oldest_deltas_beyond_its_bounds() {
    let mut replay = ReplayBuffer::new();
    replay.observe(&b"snapshot".to_vec(), &publish(synthetic_snapshot()));
    for sequence in 0..100u64 {
        let mut position = synthetic_snapshot();
        position.sequence = sequence;
        position.message = TacticalMessage::PositionDelta(ctab_web::protocol::PositionDelta {
            updated: Vec::new(),
            removed: Vec::new(),
        });
        replay.observe(&vec![0u8; 10], &publish(position));
        let mut marker = synthetic_snapshot();
        marker.sequence = sequence;
        marker.message = TacticalMessage::MarkerDelta(MarkerDelta {
            updated: Vec::new(),
            removed: Vec::new(),
        });
        replay.observe(&vec![0u8; 200_000], &publish(marker));
    }
    let (entities, positions, markers, marker_bytes) = replay.retained_counts();
    assert_eq!(entities, 0);
    assert_eq!(positions, 16);
    assert_eq!(markers, 41);
    assert_eq!(marker_bytes, 41 * 200_000);
    assert!(!replay.observe(&b"garbage".to_vec(), &None));
}

#[test]
fn a_session_gets_one_replacement_tab_per_restart_run() {
    let session = Some("phase1-session".to_owned());
    let mut replaced: Option<String> = None;
    assert!(restart_browser(false, false, &session, &mut replaced, true));
    assert_eq!(replaced.as_deref(), Some("phase1-session"));
    assert!(!restart_browser(false, false, &session, &mut replaced, true));
    assert!(!restart_browser(true, true, &session, &mut replaced, true));
    assert!(restart_browser(false, true, &session, &mut replaced, true));
    assert_eq!(replaced, None);
    assert!(!restart_browser(false, false, &None, &mut replaced, true));
}
