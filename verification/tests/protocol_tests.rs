use ctab_web::protocol::{
    synthetic_snapshot, EntityDelta, Envelope, ErrorPayload, Heartbeat, MarkerDelta, Point2,
    PositionDelta, PositionUpdate, TacticalMessage, ValidationError, MAX_DELTA_ITEMS,
    MAX_SESSION_ID_BYTES, PROTOCOL_VERSION,
};

#[test]
fn synthetic_fixture_validates() {
    let fixture = synthetic_snapshot();
    fixture.validate().expect("fixture should validate");
    assert_eq!(fixture.sequence, 1);
    assert_eq!(fixture.session_id, "phase1-session");
}

#[test]
fn rejects_non_finite_coordinates_and_oversized_text() {
    let mut fixture = synthetic_snapshot();
    fixture.session_id = "x".repeat(MAX_SESSION_ID_BYTES + 1);
    assert_eq!(fixture.validate(), Err(ValidationError::InvalidText));

    let mut fixture = synthetic_snapshot();
    if let TacticalMessage::SessionSnapshot(snapshot) = &mut fixture.message {
        snapshot.entities[0].position.x = f64::NAN.to_bits();
    }
    assert_eq!(fixture.validate(), Err(ValidationError::InvalidNumber));
}

#[test]
fn accepts_empty_regular_marker_labels() {
    let mut fixture = synthetic_snapshot();
    if let TacticalMessage::SessionSnapshot(snapshot) = &mut fixture.message {
        snapshot.markers[0].label.clear();
    }
    fixture.validate().expect("marker text is optional in Arma");
}

#[test]
fn validates_normalized_entity_deltas() {
    let fixture = synthetic_snapshot();
    let TacticalMessage::SessionSnapshot(snapshot) = fixture.message else {
        panic!("expected a synthetic snapshot");
    };
    let envelope = Envelope {
        protocol_version: PROTOCOL_VERSION,
        session_id: "phase4-session".to_owned(),
        sequence: 2,
        message: TacticalMessage::EntityDelta(EntityDelta {
            updated: vec![snapshot.entities[1].clone()],
            removed: vec!["old-ctab-entity".to_owned()],
        }),
    };
    envelope.validate().expect("entity delta should validate");
}

#[test]
fn accepts_arma_floating_point_heartbeat_uptime() {
    let envelope = Envelope {
        protocol_version: PROTOCOL_VERSION,
        session_id: "heartbeat-session".to_owned(),
        sequence: 2,
        message: TacticalMessage::Heartbeat(Heartbeat {
            uptime_ms: 17_568_300.0f64.to_bits(),
        }),
    };
    envelope
        .validate()
        .expect("finite Arma uptime should validate");
}

#[test]
fn rejects_negative_heartbeat_uptime() {
    let envelope = Envelope {
        protocol_version: PROTOCOL_VERSION,
        session_id: "heartbeat-session".to_owned(),
        sequence: 2,
        message: TacticalMessage::Heartbeat(Heartbeat {
            uptime_ms: (-1.0f64).to_bits(),
        }),
    };
    assert_eq!(envelope.validate(), Err(ValidationError::InvalidNumber));
}

#[test]
fn rejects_other_protocol_versions() {
    let mut envelope = synthetic_snapshot();
    envelope.protocol_version = PROTOCOL_VERSION + 1;
    assert_eq!(envelope.validate(), Err(ValidationError::ProtocolVersion));
    assert_eq!(
        ValidationError::ProtocolVersion.describe(),
        "unsupported protocol version"
    );
}

#[test]
fn rejects_collections_over_the_protocol_limit() {
    let mut envelope = synthetic_snapshot();
    let TacticalMessage::SessionSnapshot(snapshot) = &mut envelope.message else {
        panic!("expected snapshot");
    };
    let entity = snapshot.entities[0].clone();
    snapshot.entities = vec![entity; ctab_web::protocol::MAX_ENTITIES + 1];
    assert_eq!(envelope.validate(), Err(ValidationError::TooManyItems));
}

#[test]
fn synthetic_fixture_holds_the_player_the_unit_and_the_objective() {
    let fixture = synthetic_snapshot();
    assert_eq!(fixture.validate(), Ok(()));
    let TacticalMessage::SessionSnapshot(snapshot) = &fixture.message else {
        panic!("expected snapshot");
    };
    let ids: Vec<&str> = snapshot.entities.iter().map(|entity| entity.id.as_str()).collect();
    assert_eq!(ids, vec!["player-local", "bft-alpha-1"]);
    assert_eq!(snapshot.markers.len(), 1);
    assert_eq!(snapshot.markers[0].id, "marker-objective");
    assert_eq!(snapshot.terrain.world_name, "Synthetic_Altis");
}

fn envelope_with(message: TacticalMessage) -> Envelope {
    Envelope {
        protocol_version: PROTOCOL_VERSION,
        session_id: "delta-session".to_owned(),
        sequence: 3,
        message,
    }
}

fn position_update(id: &str) -> PositionUpdate {
    PositionUpdate {
        id: id.to_owned(),
        position: Point2 { x: 10.0f64.to_bits(), y: 20.0f64.to_bits() },
        direction: 90.0f64.to_bits(),
    }
}

#[test]
fn deltas_that_pass_have_every_item_and_removed_identifier_checked() {
    let fixture = synthetic_snapshot();
    let TacticalMessage::SessionSnapshot(snapshot) = fixture.message else {
        panic!("expected a synthetic snapshot");
    };
    let good = envelope_with(TacticalMessage::PositionDelta(PositionDelta {
        updated: vec![position_update("unit-1")],
        removed: vec!["unit-2".to_owned()],
    }));
    assert_eq!(good.validate(), Ok(()));
    let empty_removed = envelope_with(TacticalMessage::EntityDelta(EntityDelta {
        updated: vec![snapshot.entities[0].clone()],
        removed: vec![String::new()],
    }));
    assert_eq!(empty_removed.validate(), Err(ValidationError::InvalidText));
    let mut bad_position = position_update("unit-1");
    bad_position.position.x = f64::INFINITY.to_bits();
    let bad = envelope_with(TacticalMessage::PositionDelta(PositionDelta {
        updated: vec![bad_position],
        removed: vec![],
    }));
    assert_eq!(bad.validate(), Err(ValidationError::InvalidNumber));
    let mut nul_marker = snapshot.markers[0].clone();
    nul_marker.id = "marker\0".to_owned();
    let markers = envelope_with(TacticalMessage::MarkerDelta(MarkerDelta {
        updated: vec![nul_marker],
        removed: vec![],
    }));
    assert_eq!(markers.validate(), Err(ValidationError::InvalidText));
    let too_many = envelope_with(TacticalMessage::PositionDelta(PositionDelta {
        updated: vec![],
        removed: vec!["unit".to_owned(); MAX_DELTA_ITEMS + 1],
    }));
    assert_eq!(too_many.validate(), Err(ValidationError::TooManyItems));
}

#[test]
fn error_messages_need_a_code_and_a_message() {
    let ok = envelope_with(TacticalMessage::Error(ErrorPayload {
        code: "bridge".to_owned(),
        message: "lost".to_owned(),
    }));
    assert_eq!(ok.validate(), Ok(()));
    let missing = envelope_with(TacticalMessage::Error(ErrorPayload {
        code: "bridge".to_owned(),
        message: String::new(),
    }));
    assert_eq!(missing.validate(), Err(ValidationError::InvalidText));
    let mut wrong_version = ok.clone();
    wrong_version.protocol_version = PROTOCOL_VERSION + 1;
    wrong_version.session_id = String::new();
    assert_eq!(wrong_version.validate(), Err(ValidationError::ProtocolVersion));
}
