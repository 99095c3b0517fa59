//! The tactical protocol shared by the Arma bridge, the companion and the
//! browser: message types, their limits and their validation.
//!
//! Every floating-point quantity of the wire format (coordinates, directions,
//! sizes, alpha, uptime) is held here as its IEEE-754 binary64 bit pattern,
//! which is exactly what validation inspects.
use crate::float_bits::{
    finite, finite_non_negative, finite_positive, is_finite, is_finite_non_negative,
    is_finite_positive, is_unit_interval, unit_interval,
};
use crate::text::{
    is_valid_optional_text, is_valid_text, lemma_utf8_len_bound, valid_optional_text, valid_text,
};
use vstd::prelude::*;

verus! {

pub const PROTOCOL_VERSION: u16 = 1;

pub const MAX_FRAME_BYTES: usize = 262144;

pub const MAX_SESSION_ID_BYTES: usize = 96;

pub const MAX_TEXT_BYTES: usize = 512;

pub const MAX_ENTITIES: usize = 2048;

pub const MAX_MARKERS: usize = 4096;

pub const MAX_DELTA_ITEMS: usize = 2048;

pub const MAX_POLYLINE_POINTS: usize = 4096;

/// A protocol message with its session and sequence number.
#[derive(Debug, Clone, PartialEq)]
pub struct Envelope {
    pub protocol_version: u16,
    pub session_id: String,
    pub sequence: u64,
    pub message: TacticalMessage,
}

/// The payload kinds of an [`Envelope`].
#[derive(Debug, Clone, PartialEq)]
pub enum TacticalMessage {
    SessionSnapshot(SessionSnapshot),
    EntityDelta(EntityDelta),
    PositionDelta(PositionDelta),
    MarkerDelta(MarkerDelta),
    Heartbeat(Heartbeat),
    Error(ErrorPayload),
}

/// The complete tactical state of a mission.
#[derive(Debug, Clone, PartialEq)]
pub struct SessionSnapshot {
    pub mission_name: String,
    pub ctab_edition: CtabEdition,
    pub capabilities: TacticalCapabilities,
    pub terrain: TerrainInfo,
    pub entities: Vec<TacticalEntity>,
    pub markers: Vec<TacticalMarker>,
}

/// Which navigation equipment the local player carries.
#[derive(Debug, Clone, Copy, Default, PartialEq, Eq)]
pub struct TacticalCapabilities {
    pub map: bool,
    pub own_position: bool,
    pub bft: bool,
}

/// The detected cTab edition.
#[derive(Debug, Clone, Copy, PartialEq, Eq)]
pub enum CtabEdition {
    /// No cTab edition is loaded (`"none"` on the wire).
    Absent,
    Original,
    Devastator,
    Unsupported,
}

impl CtabEdition {
    /// The edition of a snapshot that names none: [`CtabEdition::Absent`].
    pub fn default_edition() -> (r: CtabEdition)
        ensures
            r == CtabEdition::Absent,
    {
        CtabEdition::Absent
    }
}

/// The active terrain; `world_size` is a binary64 bit pattern.
#[derive(Debug, Clone, PartialEq)]
pub struct TerrainInfo {
    pub world_name: String,
    pub display_name: String,
    pub world_size: u64,
}

/// A tracked unit, vehicle or the local player.
#[derive(Debug, Clone, PartialEq)]
pub struct TacticalEntity {
    pub id: String,
    pub label: String,
    pub kind: EntityKind,
    pub position: Point2,
    pub direction: u64,
    pub side: Side,
    pub color: String,
    pub icon_path: String,
    pub overlay_icon_path: String,
}

#[derive(Debug, Clone, Copy, PartialEq, Eq)]
pub enum EntityKind {
    Player,
    BftUnit,
    BftVehicle,
}

#[derive(Debug, Clone, Copy, PartialEq, Eq)]
pub enum Side {
    West,
    East,
    Independent,
    Civilian,
    Unknown,
}

/// A map point; both coordinates are binary64 bit patterns.
#[derive(Debug, Clone, Copy, PartialEq, Eq)]
pub struct Point2 {
    pub x: u64,
    pub y: u64,
}

/// A regular Arma map marker or a cTab user marker.
#[derive(Debug, Clone, PartialEq)]
pub struct TacticalMarker {
    pub id: String,
    pub label: String,
    pub kind: MarkerKind,
    pub position: Point2,
    pub direction: u64,
    pub color: String,
    pub alpha: u64,
    pub marker_type: String,
    pub icon_path: String,
    pub overlay_icon_path: String,
    pub brush: String,
    pub size: Point2,
    pub polyline: Vec<Point2>,
    pub channel: i16,
}

#[derive(Debug, Clone, Copy, PartialEq, Eq)]
pub enum MarkerKind {
    Icon,
    Rectangle,
    Ellipse,
    Polyline,
}

/// Position-only updates of known entities.
#[derive(Debug, Clone, PartialEq)]
pub struct PositionDelta {
    pub updated: Vec<PositionUpdate>,
    pub removed: Vec<String>,
}

/// Inserted, replaced and removed entities.
#[derive(Debug, Clone, PartialEq)]
pub struct EntityDelta {
    pub updated: Vec<TacticalEntity>,
    pub removed: Vec<String>,
}

#[derive(Debug, Clone, PartialEq)]
pub struct PositionUpdate {
    pub id: String,
    pub position: Point2,
    pub direction: u64,
}

/// Inserted, replaced and removed markers.
#[derive(Debug, Clone, PartialEq)]
pub struct MarkerDelta {
    pub updated: Vec<TacticalMarker>,
    pub removed: Vec<String>,
}

/// Liveness signal; `uptime_ms` is a binary64 bit pattern.
#[derive(Debug, Clone, Copy, PartialEq, Eq)]
pub struct Heartbeat {
    pub uptime_ms: u64,
}

#[derive(Debug, Clone, PartialEq, Eq)]
pub struct ErrorPayload {
    pub code: String,
    pub message: String,
}

/// What the bridge asks the companion to do.
#[derive(Debug, Clone, PartialEq)]
pub enum BridgeMessage {
    Publish { envelope: Envelope },
    OpenBrowser,
}

/// An authenticated frame on the bridge-to-companion pipe.
#[derive(Debug, Clone, PartialEq)]
pub struct BridgeFrame {
    pub pipe_token: String,
    pub message: BridgeMessage,
}

/// What a browser sends over its WebSocket.
#[derive(Debug, Clone, PartialEq, Eq)]
pub enum BrowserCommand {
    Authenticate { token: String },
}

/// Why a message was refused.
#[derive(Debug, Clone, Copy, PartialEq, Eq)]
pub enum ValidationError {
    ProtocolVersion,
    InvalidText,
    InvalidNumber,
    TooManyItems,
}

/// The human-readable description of a validation error.
pub open spec fn validation_message(error: ValidationError) -> Seq<char> {
    match error {
        ValidationError::ProtocolVersion => "unsupported protocol version"@,
        ValidationError::InvalidText => "a required identifier or text field is empty or too long"@,
        ValidationError::InvalidNumber => "a numeric coordinate, direction, size, or alpha is invalid"@,
        ValidationError::TooManyItems => "a collection exceeds the protocol limit"@,
    }
}

impl ValidationError {
    /// The human-readable description of the error.
    pub fn describe(&self) -> (r: &'static str)
        ensures
            r@ == validation_message(*self),
    {
        match self {
            ValidationError::ProtocolVersion => "unsupported protocol version",
            ValidationError::InvalidText => "a required identifier or text field is empty or too long",
            ValidationError::InvalidNumber => "a numeric coordinate, direction, size, or alpha is invalid",
            ValidationError::TooManyItems => "a collection exceeds the protocol limit",
        }
    }
}

// ---------------------------------------------------------------------------
// Specification of validation
// ---------------------------------------------------------------------------

/// A required text within the general text limit.
pub open spec fn text_ok(s: String) -> bool {
    is_valid_text(s@, MAX_TEXT_BYTES as nat)
}

/// An optional text within the general text limit.
pub open spec fn optional_text_ok(s: String) -> bool {
    is_valid_optional_text(s@, MAX_TEXT_BYTES as nat)
}

/// Position and direction are finite.
pub open spec fn pose_ok(position: Point2, direction: u64) -> bool {
    is_finite(position.x) && is_finite(position.y) && is_finite(direction)
}

/// The first error of a sequence of checks, in order.
pub open spec fn first_error(results: Seq<Result<(), ValidationError>>) -> Result<(), ValidationError>
    decreases results.len(),
{
    if results.len() == 0 {
        Ok(())
    } else if results[0] is Err {
        results[0]
    } else {
        first_error(results.drop_first())
    }
}

/// All strings of `s` are valid required texts.
pub open spec fn all_texts_ok(s: Seq<String>) -> bool {
    forall|i: int| 0 <= i < s.len() ==> text_ok(#[trigger] s[i])
}

/// Outcome of validating a list of identifiers.
pub open spec fn texts_check(s: Seq<String>) -> Result<(), ValidationError> {
    if all_texts_ok(s) {
        Ok(())
    } else {
        Err(ValidationError::InvalidText)
    }
}

/// Outcome of validating one entity.
pub open spec fn entity_check(e: TacticalEntity) -> Result<(), ValidationError> {
    if !(text_ok(e.id) && text_ok(e.label) && text_ok(e.color)) {
        Err(ValidationError::InvalidText)
    } else if !(optional_text_ok(e.icon_path) && optional_text_ok(e.overlay_icon_path)) {
        Err(ValidationError::InvalidText)
    } else if !pose_ok(e.position, e.direction) {
        Err(ValidationError::InvalidNumber)
    } else {
        Ok(())
    }
}

/// Both coordinates of a point are finite.
pub open spec fn point_finite(p: Point2) -> bool {
    is_finite(p.x) && is_finite(p.y)
}

/// All points of a polyline are finite.
pub open spec fn polyline_finite(points: Seq<Point2>) -> bool {
    forall|i: int| 0 <= i < points.len() ==> point_finite(#[trigger] points[i])
}

/// The numeric fields of a marker besides its pose.
pub open spec fn marker_numbers_ok(m: TacticalMarker) -> bool {
    &&& is_finite(m.alpha) && is_unit_interval(m.alpha)
    &&& is_finite_non_negative(m.size.x)
    &&& is_finite_non_negative(m.size.y)
    &&& -1 <= m.channel <= 15
}

/// Outcome of validating one marker.
pub open spec fn marker_check(m: TacticalMarker) -> Result<(), ValidationError> {
    if !(text_ok(m.id) && text_ok(m.color)) {
        Err(ValidationError::InvalidText)
    } else if !(optional_text_ok(m.label) && optional_text_ok(m.marker_type) && optional_text_ok(
        m.icon_path,
    ) && optional_text_ok(m.overlay_icon_path) && optional_text_ok(m.brush)) {
        Err(ValidationError::InvalidText)
    } else if !pose_ok(m.position, m.direction) {
        Err(ValidationError::InvalidNumber)
    } else if !marker_numbers_ok(m) {
        Err(ValidationError::InvalidNumber)
    } else if m.polyline@.len() > MAX_POLYLINE_POINTS {
        Err(ValidationError::TooManyItems)
    } else if !polyline_finite(m.polyline@) {
        Err(ValidationError::InvalidNumber)
    } else {
        Ok(())
    }
}

/// Outcome of validating one position update.
pub open spec fn position_update_check(u: PositionUpdate) -> Result<(), ValidationError> {
    if !text_ok(u.id) {
        Err(ValidationError::InvalidText)
    } else if !pose_ok(u.position, u.direction) {
        Err(ValidationError::InvalidNumber)
    } else {
        Ok(())
    }
}

pub open spec fn entities_check(s: Seq<TacticalEntity>) -> Result<(), ValidationError> {
    first_error(s.map_values(|e: TacticalEntity| entity_check(e)))
}

pub open spec fn markers_check(s: Seq<TacticalMarker>) -> Result<(), ValidationError> {
    first_error(s.map_values(|m: TacticalMarker| marker_check(m)))
}

pub open spec fn position_updates_check(s: Seq<PositionUpdate>) -> Result<(), ValidationError> {
    first_error(s.map_values(|u: PositionUpdate| position_update_check(u)))
}

/// Outcome of validating a snapshot payload.
pub open spec fn snapshot_check(s: SessionSnapshot) -> Result<(), ValidationError> {
    if !(text_ok(s.mission_name) && text_ok(s.terrain.world_name) && text_ok(
        s.terrain.display_name,
    )) {
        Err(ValidationError::InvalidText)
    } else if !is_finite_positive(s.terrain.world_size) {
        Err(ValidationError::InvalidNumber)
    } else if s.entities@.len() > MAX_ENTITIES || s.markers@.len() > MAX_MARKERS {
        Err(ValidationError::TooManyItems)
    } else if entities_check(s.entities@) is Err {
        entities_check(s.entities@)
    } else {
        markers_check(s.markers@)
    }
}

pub open spec fn entity_delta_check(d: EntityDelta) -> Result<(), ValidationError> {
    if d.updated@.len() > MAX_DELTA_ITEMS || d.removed@.len() > MAX_DELTA_ITEMS {
        Err(ValidationError::TooManyItems)
    } else if entities_check(d.updated@) is Err {
        entities_check(d.updated@)
    } else {
        texts_check(d.removed@)
    }
}

pub open spec fn position_delta_check(d: PositionDelta) -> Result<(), ValidationError> {
    if d.updated@.len() > MAX_DELTA_ITEMS || d.removed@.len() > MAX_DELTA_ITEMS {
        Err(ValidationError::TooManyItems)
    } else if position_updates_check(d.updated@) is Err {
        position_updates_check(d.updated@)
    } else {
        texts_check(d.removed@)
    }
}

pub open spec fn marker_delta_check(d: MarkerDelta) -> Result<(), ValidationError> {
    if d.updated@.len() > MAX_DELTA_ITEMS || d.removed@.len() > MAX_DELTA_ITEMS {
        Err(ValidationError::TooManyItems)
    } else if markers_check(d.updated@) is Err {
        markers_check(d.updated@)
    } else {
        texts_check(d.removed@)
    }
}

/// Outcome of validating a message payload.
pub open spec fn message_check(m: TacticalMessage) -> Result<(), ValidationError> {
    match m {
        TacticalMessage::SessionSnapshot(s) => snapshot_check(s),
        TacticalMessage::EntityDelta(d) => entity_delta_check(d),
        TacticalMessage::PositionDelta(d) => position_delta_check(d),
        TacticalMessage::MarkerDelta(d) => marker_delta_check(d),
        TacticalMessage::Heartbeat(h) => if is_finite_non_negative(h.uptime_ms) {
            Ok(())
        } else {
            Err(ValidationError::InvalidNumber)
        },
        TacticalMessage::Error(e) => if text_ok(e.code) && text_ok(e.message) {
            Ok(())
        } else {
            Err(ValidationError::InvalidText)
        },
    }
}

/// Outcome of [`Envelope::validate`].
pub open spec fn envelope_check(e: Envelope) -> Result<(), ValidationError> {
    if e.protocol_version != PROTOCOL_VERSION {
        Err(ValidationError::ProtocolVersion)
    } else if !is_valid_text(e.session_id@, MAX_SESSION_ID_BYTES as nat) {
        Err(ValidationError::InvalidText)
    } else {
        message_check(e.message)
    }
}

/// A sequence of checks with no first error has no error at all.
proof fn lemma_no_first_error_means_none(results: Seq<Result<(), ValidationError>>)
    requires
        first_error(results) is Ok,
    ensures
        forall|i: int| 0 <= i < results.len() ==> #[trigger] results[i] is Ok,
    decreases results.len(),
{
    if results.len() > 0 {
        lemma_no_first_error_means_none(results.drop_first());
        assert forall|i: int| 0 <= i < results.len() implies #[trigger] results[i] is Ok by {
            if i > 0 {
                assert(results[i] == results.drop_first()[i - 1]);
            }
        }
    }
}

/// Law (what validation guarantees): the protocol version is checked first,
/// then the session identifier; a message that passes has its texts,
/// numbers and list sizes within the protocol's limits, down to every
/// entity, marker, position update and removed identifier.
pub proof fn law_validation_checks_and_guarantees(e: Envelope)
    ensures
        e.protocol_version != PROTOCOL_VERSION ==> envelope_check(e) == Err::<(), ValidationError>(
            ValidationError::ProtocolVersion,
        ),
        e.protocol_version == PROTOCOL_VERSION && !is_valid_text(
            e.session_id@,
            MAX_SESSION_ID_BYTES as nat,
        ) ==> envelope_check(e) == Err::<(), ValidationError>(ValidationError::InvalidText),
        envelope_check(e) is Ok ==> is_valid_text(e.session_id@, MAX_SESSION_ID_BYTES as nat),
        envelope_check(e) is Ok ==> match e.message {
            TacticalMessage::SessionSnapshot(s) => {
                &&& text_ok(s.mission_name) && text_ok(s.terrain.world_name) && text_ok(
                    s.terrain.display_name,
                )
                &&& is_finite_positive(s.terrain.world_size)
                &&& s.entities@.len() <= MAX_ENTITIES && s.markers@.len() <= MAX_MARKERS
                &&& forall|i: int| 0 <= i < s.entities@.len() ==> #[trigger] entity_check(s.entities@[i]) is Ok
                &&& forall|i: int| 0 <= i < s.markers@.len() ==> #[trigger] marker_check(s.markers@[i]) is Ok
            },
            TacticalMessage::EntityDelta(d) => {
                &&& d.updated@.len() <= MAX_DELTA_ITEMS && d.removed@.len() <= MAX_DELTA_ITEMS
                &&& forall|i: int| 0 <= i < d.updated@.len() ==> #[trigger] entity_check(d.updated@[i]) is Ok
                &&& all_texts_ok(d.removed@)
            },
            TacticalMessage::PositionDelta(d) => {
                &&& d.updated@.len() <= MAX_DELTA_ITEMS && d.removed@.len() <= MAX_DELTA_ITEMS
                &&& forall|i: int|
                    0 <= i < d.updated@.len() ==> #[trigger] position_update_check(d.updated@[i]) is Ok
                &&& all_texts_ok(d.removed@)
            },
            TacticalMessage::MarkerDelta(d) => {
                &&& d.updated@.len() <= MAX_DELTA_ITEMS && d.removed@.len() <= MAX_DELTA_ITEMS
                &&& forall|i: int| 0 <= i < d.updated@.len() ==> #[trigger] marker_check(d.updated@[i]) is Ok
                &&& all_texts_ok(d.removed@)
            },
            TacticalMessage::Heartbeat(h) => is_finite_non_negative(h.uptime_ms),
            TacticalMessage::Error(x) => text_ok(x.code) && text_ok(x.message),
        },
{
    if envelope_check(e) is Ok {
        match e.message {
            TacticalMessage::SessionSnapshot(s) => {
                lemma_entities_pass(s.entities@);
                lemma_markers_pass(s.markers@);
            },
            TacticalMessage::EntityDelta(d) => {
                lemma_entities_pass(d.updated@);
            },
            TacticalMessage::PositionDelta(d) => {
                let ur = d.updated@.map_values(|u: PositionUpdate| position_update_check(u));
                lemma_no_first_error_means_none(ur);
                assert forall|i: int| 0 <= i < d.updated@.len() implies #[trigger] position_update_check(
                    d.updated@[i],
                ) is Ok by {
                    assert(ur[i] is Ok);
                }
            },
            TacticalMessage::MarkerDelta(d) => {
                lemma_markers_pass(d.updated@);
            },
            _ => {},
        }
    }
}

/// Entities that pass together pass one by one.
proof fn lemma_entities_pass(s: Seq<TacticalEntity>)
    requires
        entities_check(s) is Ok,
    ensures
        forall|i: int| 0 <= i < s.len() ==> #[trigger] entity_check(s[i]) is Ok,
{
    let er = s.map_values(|x: TacticalEntity| entity_check(x));
    lemma_no_first_error_means_none(er);
    assert forall|i: int| 0 <= i < s.len() implies #[trigger] entity_check(s[i]) is Ok by {
        assert(er[i] is Ok);
    }
}

/// Markers that pass together pass one by one.
proof fn lemma_markers_pass(s: Seq<TacticalMarker>)
    requires
        markers_check(s) is Ok,
    ensures
        forall|i: int| 0 <= i < s.len() ==> #[trigger] marker_check(s[i]) is Ok,
{
    let mr = s.map_values(|m: TacticalMarker| marker_check(m));
    lemma_no_first_error_means_none(mr);
    assert forall|i: int| 0 <= i < s.len() implies #[trigger] marker_check(s[i]) is Ok by {
        assert(mr[i] is Ok);
    }
}

/// `first_error` of a sequence whose prefix before `i` passed and whose
/// `i`-th element failed is that element.
proof fn lemma_first_error_at(results: Seq<Result<(), ValidationError>>, i: int)
    requires
        0 <= i < results.len(),
        forall|k: int| 0 <= k < i ==> (#[trigger] results[k]) is Ok,
        results[i] is Err,
    ensures
        first_error(results) == results[i],
    decreases i,
{
    if i > 0 {
        assert(results.drop_first()[i - 1] == results[i]);
        lemma_first_error_at(results.drop_first(), i - 1);
    }
}

/// `first_error` of a sequence of passing checks is `Ok`.
proof fn lemma_first_error_ok(results: Seq<Result<(), ValidationError>>)
    requires
        forall|k: int| 0 <= k < results.len() ==> (#[trigger] results[k]) is Ok,
    ensures
        first_error(results) == Ok::<(), ValidationError>(()),
    decreases results.len(),
{
    if results.len() > 0 {
        lemma_first_error_ok(results.drop_first());
    }
}

// ---------------------------------------------------------------------------
// Executable validation
// ---------------------------------------------------------------------------

/// `validate_pose`: position and direction must be finite.
pub fn validate_pose(position: Point2, direction: u64) -> (r: Result<(), ValidationError>)
    ensures
        r == (if pose_ok(position, direction) {
            Ok(())
        } else {
            Err(ValidationError::InvalidNumber)
        }),
{
    if finite(position.x) && finite(position.y) && finite(direction) {
        Ok(())
    } else {
        Err(ValidationError::InvalidNumber)
    }
}

/// `validate_texts`: every string is a valid required text.
pub fn validate_texts(values: &Vec<String>) -> (r: Result<(), ValidationError>)
    ensures
        r == texts_check(values@),
{
    let mut i: usize = 0;
    while i < values.len()
        invariant
            i <= values.len(),
            forall|k: int| 0 <= k < i ==> text_ok(#[trigger] values@[k]),
        decreases values.len() - i,
    {
        if !valid_text(values[i].as_str(), MAX_TEXT_BYTES) {
            return Err(ValidationError::InvalidText);
        }
        i = i + 1;
    }
    Ok(())
}

fn texts_ok3(a: &String, b: &String, c: &String) -> (r: bool)
    ensures
        r == (text_ok(*a) && text_ok(*b) && text_ok(*c)),
{
    valid_text(a.as_str(), MAX_TEXT_BYTES) && valid_text(b.as_str(), MAX_TEXT_BYTES)
        && valid_text(c.as_str(), MAX_TEXT_BYTES)
}

fn optional_ok(a: &String) -> (r: bool)
    ensures
        r == optional_text_ok(*a),
{
    valid_optional_text(a.as_str(), MAX_TEXT_BYTES)
}

impl TacticalEntity {
    /// Validates the entity's texts and pose.
    pub fn validate(&self) -> (r: Result<(), ValidationError>)
        ensures
            r == entity_check(*self),
    {
        if !texts_ok3(&self.id, &self.label, &self.color) {
            return Err(ValidationError::InvalidText);
        }
        if !optional_ok(&self.icon_path) || !optional_ok(&self.overlay_icon_path) {
            return Err(ValidationError::InvalidText);
        }
        validate_pose(self.position, self.direction)
    }
}

/// Whether every point of a polyline is finite.
pub fn points_finite(points: &Vec<Point2>) -> (r: bool)
    ensures
        r == polyline_finite(points@),
{
    let mut i: usize = 0;
    while i < points.len()
        invariant
            i <= points.len(),
            forall|k: int| 0 <= k < i ==> point_finite(#[trigger] points@[k]),
        decreases points.len() - i,
    {
        let point = points[i];
        if !finite(point.x) || !finite(point.y) {
            return false;
        }
        assert(point_finite(points@[i as int]));
        i = i + 1;
    }
    true
}

impl TacticalMarker {
    /// Validates the marker's texts, numbers and polyline.
    pub fn validate(&self) -> (r: Result<(), ValidationError>)
        ensures
            r == marker_check(*self),
    {
        if !(valid_text(self.id.as_str(), MAX_TEXT_BYTES) && valid_text(
            self.color.as_str(),
            MAX_TEXT_BYTES,
        )) {
            return Err(ValidationError::InvalidText);
        }
        if !optional_ok(&self.label) || !optional_ok(&self.marker_type) || !optional_ok(
            &self.icon_path,
        ) || !optional_ok(&self.overlay_icon_path) || !optional_ok(&self.brush) {
            return Err(ValidationError::InvalidText);
        }
        if validate_pose(self.position, self.direction).is_err() {
            return Err(ValidationError::InvalidNumber);
        }
        if !finite(self.alpha) || !unit_interval(self.alpha) || !finite_non_negative(self.size.x)
            || !finite_non_negative(self.size.y) || self.channel < -1 || self.channel > 15 {
            return Err(ValidationError::InvalidNumber);
        }
        if self.polyline.len() > MAX_POLYLINE_POINTS {
            return Err(ValidationError::TooManyItems);
        }
        if !points_finite(&self.polyline) {
            return Err(ValidationError::InvalidNumber);
        }
        Ok(())
    }
}

impl PositionUpdate {
    /// Validates the update's identifier and pose.
    pub fn validate(&self) -> (r: Result<(), ValidationError>)
        ensures
            r == position_update_check(*self),
    {
        if !valid_text(self.id.as_str(), MAX_TEXT_BYTES) {
            return Err(ValidationError::InvalidText);
        }
        validate_pose(self.position, self.direction)
    }
}

/// Validates each entity in order and returns the first error.
pub fn validate_entities(items: &Vec<TacticalEntity>) -> (r: Result<(), ValidationError>)
    ensures
        r == entities_check(items@),
{
    let ghost results = items@.map_values(|e: TacticalEntity| entity_check(e));
    let mut i: usize = 0;
    while i < items.len()
        invariant
            i <= items.len(),
            results == items@.map_values(|e: TacticalEntity| entity_check(e)),
            forall|k: int| 0 <= k < i ==> (#[trigger] results[k]) is Ok,
        decreases items.len() - i,
    {
        let r = items[i].validate();
        if r.is_err() {
            proof {
                lemma_first_error_at(results, i as int);
            }
            return r;
        }
        i = i + 1;
    }
    proof {
        lemma_first_error_ok(results);
    }
    Ok(())
}

/// Validates each marker in order and returns the first error.
pub fn validate_markers(items: &Vec<TacticalMarker>) -> (r: Result<(), ValidationError>)
    ensures
        r == markers_check(items@),
{
    let ghost results = items@.map_values(|m: TacticalMarker| marker_check(m));
    let mut i: usize = 0;
    while i < items.len()
        invariant
            i <= items.len(),
            results == items@.map_values(|m: TacticalMarker| marker_check(m)),
            forall|k: int| 0 <= k < i ==> (#[trigger] results[k]) is Ok,
        decreases items.len() - i,
    {
        let r = items[i].validate();
        if r.is_err() {
            proof {
                lemma_first_error_at(results, i as int);
            }
            return r;
        }
        i = i + 1;
    }
    proof {
        lemma_first_error_ok(results);
    }
    Ok(())
}

/// Validates each position update in order and returns the first error.
pub fn validate_position_updates(items: &Vec<PositionUpdate>) -> (r: Result<(), ValidationError>)
    ensures
        r == position_updates_check(items@),
{
    let ghost results = items@.map_values(|u: PositionUpdate| position_update_check(u));
    let mut i: usize = 0;
    while i < items.len()
        invariant
            i <= items.len(),
            results == items@.map_values(|u: PositionUpdate| position_update_check(u)),
            forall|k: int| 0 <= k < i ==> (#[trigger] results[k]) is Ok,
        decreases items.len() - i,
    {
        let r = items[i].validate();
        if r.is_err() {
            proof {
                lemma_first_error_at(results, i as int);
            }
            return r;
        }
        i = i + 1;
    }
    proof {
        lemma_first_error_ok(results);
    }
    Ok(())
}

impl SessionSnapshot {
    /// Validates the snapshot's texts, terrain size, limits and items.
    pub fn validate(&self) -> (r: Result<(), ValidationError>)
        ensures
            r == snapshot_check(*self),
    {
        if !texts_ok3(&self.mission_name, &self.terrain.world_name, &self.terrain.display_name) {
            return Err(ValidationError::InvalidText);
        }
        if !finite_positive(self.terrain.world_size) {
            return Err(ValidationError::InvalidNumber);
        }
        if self.entities.len() > MAX_ENTITIES || self.markers.len() > MAX_MARKERS {
            return Err(ValidationError::TooManyItems);
        }
        let entities = validate_entities(&self.entities);
        if entities.is_err() {
            return entities;
        }
        validate_markers(&self.markers)
    }
}

impl EntityDelta {
    /// Validates the delta's limits, updated entities and removed ids.
    pub fn validate(&self) -> (r: Result<(), ValidationError>)
        ensures
            r == entity_delta_check(*self),
    {
        if self.updated.len() > MAX_DELTA_ITEMS || self.removed.len() > MAX_DELTA_ITEMS {
            return Err(ValidationError::TooManyItems);
        }
        let updated = validate_entities(&self.updated);
        if updated.is_err() {
            return updated;
        }
        validate_texts(&self.removed)
    }
}

impl PositionDelta {
    /// Validates the delta's limits, updates and removed ids.
    pub fn validate(&self) -> (r: Result<(), ValidationError>)
        ensures
            r == position_delta_check(*self),
    {
        if self.updated.len() > MAX_DELTA_ITEMS || self.removed.len() > MAX_DELTA_ITEMS {
            return Err(ValidationError::TooManyItems);
        }
        let updated = validate_position_updates(&self.updated);
        if updated.is_err() {
            return updated;
        }
        validate_texts(&self.removed)
    }
}

impl MarkerDelta {
    /// Validates the delta's limits, updated markers and removed ids.
    pub fn validate(&self) -> (r: Result<(), ValidationError>)
        ensures
            r == marker_delta_check(*self),
    {
        if self.updated.len() > MAX_DELTA_ITEMS || self.removed.len() > MAX_DELTA_ITEMS {
            return Err(ValidationError::TooManyItems);
        }
        let updated = validate_markers(&self.updated);
        if updated.is_err() {
            return updated;
        }
        validate_texts(&self.removed)
    }
}

impl Envelope {
    /// Validates the protocol version, the session id and the payload;
    /// returns the first error found.
    pub fn validate(&self) -> (r: Result<(), ValidationError>)
        ensures
            r == envelope_check(*self),
    {
        if self.protocol_version != PROTOCOL_VERSION || !valid_text(
            self.session_id.as_str(),
            MAX_SESSION_ID_BYTES,
        ) {
            return Err(
                if self.protocol_version != PROTOCOL_VERSION {
                    ValidationError::ProtocolVersion
                } else {
                    ValidationError::InvalidText
                },
            );
        }
        match &self.message {
            TacticalMessage::SessionSnapshot(snapshot) => snapshot.validate(),
            TacticalMessage::EntityDelta(delta) => delta.validate(),
            TacticalMessage::PositionDelta(delta) => delta.validate(),
            TacticalMessage::MarkerDelta(delta) => delta.validate(),
            TacticalMessage::Heartbeat(heartbeat) => {
                if finite_non_negative(heartbeat.uptime_ms) {
                    Ok(())
                } else {
                    Err(ValidationError::InvalidNumber)
                }
            },
            TacticalMessage::Error(error) => {
                if valid_text(error.code.as_str(), MAX_TEXT_BYTES) && valid_text(
                    error.message.as_str(),
                    MAX_TEXT_BYTES,
                ) {
                    Ok(())
                } else {
                    Err(ValidationError::InvalidText)
                }
            },
        }
    }
}

} // verus!

verus! {

proof fn lemma_short_text(s: Seq<char>)
    requires
        0 < s.len() <= 24,
        !s.contains('\0'),
    ensures
        is_valid_text(s, MAX_SESSION_ID_BYTES as nat),
        is_valid_text(s, MAX_TEXT_BYTES as nat),
{
    lemma_utf8_len_bound(s);
}

#[verifier::spinoff_prover]
#[verifier::rlimit(40)]
proof fn lemma_synthetic_texts()
    ensures
        is_valid_text("player-local"@, MAX_SESSION_ID_BYTES as nat),
        is_valid_text("player-local"@, MAX_TEXT_BYTES as nat),
        is_valid_text("You"@, MAX_SESSION_ID_BYTES as nat),
        is_valid_text("You"@, MAX_TEXT_BYTES as nat),
        is_valid_text("#155a93"@, MAX_SESSION_ID_BYTES as nat),
        is_valid_text("#155a93"@, MAX_TEXT_BYTES as nat),
        is_valid_text("bft-alpha-1"@, MAX_SESSION_ID_BYTES as nat),
        is_valid_text("bft-alpha-1"@, MAX_TEXT_BYTES as nat),
        is_valid_text("Alpha 1-2"@, MAX_SESSION_ID_BYTES as nat),
        is_valid_text("Alpha 1-2"@, MAX_TEXT_BYTES as nat),
        is_valid_text("marker-objective"@, MAX_SESSION_ID_BYTES as nat),
        is_valid_text("marker-objective"@, MAX_TEXT_BYTES as nat),
        is_valid_text("Objective Orion"@, MAX_SESSION_ID_BYTES as nat),
        is_valid_text("Objective Orion"@, MAX_TEXT_BYTES as nat),
        is_valid_text("#f3ba4f"@, MAX_SESSION_ID_BYTES as nat),
        is_valid_text("#f3ba4f"@, MAX_TEXT_BYTES as nat),
        is_valid_text("mil_objective"@, MAX_SESSION_ID_BYTES as nat),
        is_valid_text("mil_objective"@, MAX_TEXT_BYTES as nat),
        is_valid_text("Solid"@, MAX_SESSION_ID_BYTES as nat),
        is_valid_text("Solid"@, MAX_TEXT_BYTES as nat),
        is_valid_text("Synthetic_Altis"@, MAX_SESSION_ID_BYTES as nat),
        is_valid_text("Synthetic_Altis"@, MAX_TEXT_BYTES as nat),
        is_valid_text("Synthetic Altis Grid"@, MAX_SESSION_ID_BYTES as nat),
        is_valid_text("Synthetic Altis Grid"@, MAX_TEXT_BYTES as nat),
        is_valid_text("phase1-session"@, MAX_SESSION_ID_BYTES as nat),
        is_valid_text("phase1-session"@, MAX_TEXT_BYTES as nat),
        is_valid_text("\\A3\\ui_f\\data\\map\\vehicleicons\\iconMan_ca.paa"@, MAX_TEXT_BYTES as nat),
        is_valid_text("\\A3\\ui_f\\data\\map\\markers\\military\\objective_CA.paa"@, MAX_TEXT_BYTES as nat),
        is_valid_text("Phase 1 <img src=x onerror=alert('unsafe')>"@, MAX_TEXT_BYTES as nat),
{
    assert(is_valid_text("player-local"@, MAX_TEXT_BYTES as nat) && is_valid_text("player-local"@, MAX_SESSION_ID_BYTES as nat)) by {
        reveal_strlit("player-local");
        lemma_short_text("player-local"@);
    }
    assert(is_valid_text("You"@, MAX_TEXT_BYTES as nat) && is_valid_text("You"@, MAX_SESSION_ID_BYTES as nat)) by {
        reveal_strlit("You");
        lemma_short_text("You"@);
    }
    assert(is_valid_text("#155a93"@, MAX_TEXT_BYTES as nat) && is_valid_text("#155a93"@, MAX_SESSION_ID_BYTES as nat)) by {
        reveal_strlit("#155a93");
        lemma_short_text("#155a93"@);
    }
    assert(is_valid_text("bft-alpha-1"@, MAX_TEXT_BYTES as nat) && is_valid_text("bft-alpha-1"@, MAX_SESSION_ID_BYTES as nat)) by {
        reveal_strlit("bft-alpha-1");
        lemma_short_text("bft-alpha-1"@);
    }
    assert(is_valid_text("Alpha 1-2"@, MAX_TEXT_BYTES as nat) && is_valid_text("Alpha 1-2"@, MAX_SESSION_ID_BYTES as nat)) by {
        reveal_strlit("Alpha 1-2");
        lemma_short_text("Alpha 1-2"@);
    }
    assert(is_valid_text("marker-objective"@, MAX_TEXT_BYTES as nat) && is_valid_text("marker-objective"@, MAX_SESSION_ID_BYTES as nat)) by {
        reveal_strlit("marker-objective");
        lemma_short_text("marker-objective"@);
    }
    assert(is_valid_text("Objective Orion"@, MAX_TEXT_BYTES as nat) && is_valid_text("Objective Orion"@, MAX_SESSION_ID_BYTES as nat)) by {
        reveal_strlit("Objective Orion");
        lemma_short_text("Objective Orion"@);
    }
    assert(is_valid_text("#f3ba4f"@, MAX_TEXT_BYTES as nat) && is_valid_text("#f3ba4f"@, MAX_SESSION_ID_BYTES as nat)) by {
        reveal_strlit("#f3ba4f");
        lemma_short_text("#f3ba4f"@);
    }
    assert(is_valid_text("mil_objective"@, MAX_TEXT_BYTES as nat) && is_valid_text("mil_objective"@, MAX_SESSION_ID_BYTES as nat)) by {
        reveal_strlit("mil_objective");
        lemma_short_text("mil_objective"@);
    }
    assert(is_valid_text("Solid"@, MAX_TEXT_BYTES as nat) && is_valid_text("Solid"@, MAX_SESSION_ID_BYTES as nat)) by {
        reveal_strlit("Solid");
        lemma_short_text("Solid"@);
    }
    assert(is_valid_text("Synthetic_Altis"@, MAX_TEXT_BYTES as nat) && is_valid_text("Synthetic_Altis"@, MAX_SESSION_ID_BYTES as nat)) by {
        reveal_strlit("Synthetic_Altis");
        lemma_short_text("Synthetic_Altis"@);
    }
    assert(is_valid_text("Synthetic Altis Grid"@, MAX_TEXT_BYTES as nat) && is_valid_text("Synthetic Altis Grid"@, MAX_SESSION_ID_BYTES as nat)) by {
        reveal_strlit("Synthetic Altis Grid");
        lemma_short_text("Synthetic Altis Grid"@);
    }
    assert(is_valid_text("phase1-session"@, MAX_TEXT_BYTES as nat) && is_valid_text("phase1-session"@, MAX_SESSION_ID_BYTES as nat)) by {
        reveal_strlit("phase1-session");
        lemma_short_text("phase1-session"@);
    }
    assert(is_valid_text("\\A3\\ui_f\\data\\map\\vehicleicons\\iconMan_ca.paa"@, MAX_TEXT_BYTES as nat)) by {
        reveal_strlit("\\A3\\ui_f\\data\\map\\vehicleicons\\iconMan_ca.paa");
        lemma_utf8_len_bound("\\A3\\ui_f\\data\\map\\vehicleicons\\iconMan_ca.paa"@);
        assert(!"\\A3\\ui_f\\data\\map\\vehicleicons\\iconMan_ca.paa"@.contains('\0'));
    }
    assert(is_valid_text("\\A3\\ui_f\\data\\map\\markers\\military\\objective_CA.paa"@, MAX_TEXT_BYTES as nat)) by {
        reveal_strlit("\\A3\\ui_f\\data\\map\\markers\\military\\objective_CA.paa");
        lemma_utf8_len_bound("\\A3\\ui_f\\data\\map\\markers\\military\\objective_CA.paa"@);
        assert(!"\\A3\\ui_f\\data\\map\\markers\\military\\objective_CA.paa"@.contains('\0'));
    }
    assert(is_valid_text("Phase 1 <img src=x onerror=alert('unsafe')>"@, MAX_TEXT_BYTES as nat)) by {
        reveal_strlit("Phase 1 <img src=x onerror=alert('unsafe')>");
        lemma_utf8_len_bound("Phase 1 <img src=x onerror=alert('unsafe')>"@);
        assert(!"Phase 1 <img src=x onerror=alert('unsafe')>"@.contains('\0'));
    }
}

fn owned(s: &str) -> (r: String)
    ensures
        r@ == s@,
{
    s.to_owned()
}

/// The fixture's local player.
pub open spec fn is_fixture_player(e: TacticalEntity) -> bool {
    &&& e.id@ == "player-local"@
    &&& e.label@ == "You"@
    &&& e.kind == EntityKind::Player
    &&& e.position == Point2 { x: 0x40c8100000000000, y: 0x40cde20000000000 }
    &&& e.direction == 0x4045000000000000
    &&& e.side == Side::West
    &&& e.color@ == "#155a93"@
    &&& e.icon_path@ == Seq::<char>::empty()
    &&& e.overlay_icon_path@ == Seq::<char>::empty()
}

/// The fixture's BFT unit.
pub open spec fn is_fixture_bft_unit(e: TacticalEntity) -> bool {
    &&& e.id@ == "bft-alpha-1"@
    &&& e.label@ == "Alpha 1-2"@
    &&& e.kind == EntityKind::BftUnit
    &&& e.position == Point2 { x: 0x40cb8a0000000000, y: 0x40d0680000000000 }
    &&& e.direction == 0x405d800000000000
    &&& e.side == Side::West
    &&& e.color@ == "#155a93"@
    &&& e.icon_path@ == "\\A3\\ui_f\\data\\map\\vehicleicons\\iconMan_ca.paa"@
    &&& e.overlay_icon_path@ == Seq::<char>::empty()
}

/// The fixture's objective marker.
pub open spec fn is_fixture_marker(m: TacticalMarker) -> bool {
    &&& m.id@ == "marker-objective"@
    &&& m.label@ == "Objective Orion"@
    &&& m.kind == MarkerKind::Icon
    &&& m.position == Point2 { x: 0x40d1f80000000000, y: 0x40c89c0000000000 }
    &&& m.direction == 0
    &&& m.color@ == "#f3ba4f"@
    &&& m.alpha == 0x3ff0000000000000
    &&& m.marker_type@ == "mil_objective"@
    &&& m.icon_path@ == "\\A3\\ui_f\\data\\map\\markers\\military\\objective_CA.paa"@
    &&& m.overlay_icon_path@ == Seq::<char>::empty()
    &&& m.brush@ == "Solid"@
    &&& m.size == Point2 { x: 0x3ff0000000000000, y: 0x3ff0000000000000 }
    &&& m.polyline@.len() == 0
    &&& m.channel == 0
}

/// The whole fixture: protocol version 1, session `phase1-session`,
/// sequence 1, and a snapshot of the mission `Phase 1 <img ...>` on the
/// terrain `Synthetic_Altis` (15360 m) with the original cTab edition, all
/// capabilities, the local player then the BFT unit `bft-alpha-1`, and the
/// objective marker.
pub open spec fn is_fixture(r: Envelope) -> bool {
    &&& r.protocol_version == PROTOCOL_VERSION
    &&& r.session_id@ == "phase1-session"@
    &&& r.sequence == 1
    &&& r.message matches TacticalMessage::SessionSnapshot(s) && {
        &&& s.mission_name@ == "Phase 1 <img src=x onerror=alert('unsafe')>"@
        &&& s.ctab_edition == CtabEdition::Original
        &&& s.capabilities == (TacticalCapabilities { map: true, own_position: true, bft: true })
        &&& s.terrain.world_name@ == "Synthetic_Altis"@
        &&& s.terrain.display_name@ == "Synthetic Altis Grid"@
        &&& s.terrain.world_size == 0x40de000000000000
        &&& s.entities@.len() == 2
        &&& is_fixture_player(s.entities@[0])
        &&& is_fixture_bft_unit(s.entities@[1])
        &&& s.markers@.len() == 1
        &&& is_fixture_marker(s.markers@[0])
    }
}

/// The deterministic fixture used by tests and by the companion's
/// diagnostics: a snapshot with the local player, one BFT unit and one
/// objective marker (see [`is_fixture`]).
pub fn synthetic_snapshot() -> (r: Envelope)
    ensures
        is_fixture(r),
        envelope_check(r) == Ok::<(), ValidationError>(()),
{
    let player = TacticalEntity {
        id: owned("player-local"),
        label: owned("You"),
        kind: EntityKind::Player,
        position: Point2 { x: 0x40c8100000000000, y: 0x40cde20000000000 },
        direction: 0x4045000000000000,
        side: Side::West,
        color: owned("#155a93"),
        icon_path: String::new(),
        overlay_icon_path: String::new(),
    };
    let bft = TacticalEntity {
        id: owned("bft-alpha-1"),
        label: owned("Alpha 1-2"),
        kind: EntityKind::BftUnit,
        position: Point2 { x: 0x40cb8a0000000000, y: 0x40d0680000000000 },
        direction: 0x405d800000000000,
        side: Side::West,
        color: owned("#155a93"),
        icon_path: owned("\\A3\\ui_f\\data\\map\\vehicleicons\\iconMan_ca.paa"),
        overlay_icon_path: String::new(),
    };
    let marker = TacticalMarker {
        id: owned("marker-objective"),
        label: owned("Objective Orion"),
        kind: MarkerKind::Icon,
        position: Point2 { x: 0x40d1f80000000000, y: 0x40c89c0000000000 },
        direction: 0,
        color: owned("#f3ba4f"),
        alpha: 0x3ff0000000000000,
        marker_type: owned("mil_objective"),
        icon_path: owned("\\A3\\ui_f\\data\\map\\markers\\military\\objective_CA.paa"),
        overlay_icon_path: String::new(),
        brush: owned("Solid"),
        size: Point2 { x: 0x3ff0000000000000, y: 0x3ff0000000000000 },
        polyline: Vec::new(),
        channel: 0,
    };
    let mut entities: Vec<TacticalEntity> = Vec::new();
    entities.push(player);
    entities.push(bft);
    let mut markers: Vec<TacticalMarker> = Vec::new();
    markers.push(marker);
    let ghost es = entities@;
    let ghost ms = markers@;
    let snapshot = SessionSnapshot {
        mission_name: owned("Phase 1 <img src=x onerror=alert('unsafe')>"),
        ctab_edition: CtabEdition::Original,
        capabilities: TacticalCapabilities { map: true, own_position: true, bft: true },
        terrain: TerrainInfo {
            world_name: owned("Synthetic_Altis"),
            display_name: owned("Synthetic Altis Grid"),
            world_size: 0x40de000000000000,
        },
        entities,
        markers,
    };
    let envelope = Envelope {
        protocol_version: PROTOCOL_VERSION,
        session_id: owned("phase1-session"),
        sequence: 1,
        message: TacticalMessage::SessionSnapshot(snapshot),
    };
    proof {
        lemma_synthetic_texts();
        lemma_utf8_len_bound(Seq::<char>::empty());
        assert(!Seq::<char>::empty().contains('\0'));
        reveal_with_fuel(first_error, 3);
        assert(entity_check(es[0]) is Ok);
        assert(entity_check(es[1]) is Ok);
        assert(marker_check(ms[0]) is Ok);
        assert(es.map_values(|e: TacticalEntity| entity_check(e)).drop_first().drop_first().len() == 0);
        assert(ms.map_values(|m: TacticalMarker| marker_check(m)).drop_first().len() == 0);
    }
    envelope
}

} // verus!
