//! The bridge's recovery bookkeeping: the limiter that keeps a crashing
//! companion from being restarted in a loop, the buffer of frames that
//! rebuild the companion's state after a restart, and the choice of
//! whether a restarted companion opens a browser tab.
use crate::paa::slice_range;
use crate::protocol::{BridgeFrame, BridgeMessage, Envelope, TacticalMessage};
use crate::sorting::{goes_before, is_stable_order, stable_order};
use crate::text::{clone_string, str_eq};
use vstd::prelude::*;
use std::collections::VecDeque;

verus! {

/// Span of time over which restarts are counted, in nanoseconds.
pub const RESTART_WINDOW_NANOS: u64 = 60_000_000_000;

/// Least time between two restarts, in nanoseconds.
pub const RESTART_COOLDOWN_NANOS: u64 = 5_000_000_000;

/// Most restarts within [`RESTART_WINDOW_NANOS`].
pub const MAX_RESTARTS_PER_WINDOW: usize = 3;

// ---------------------------------------------------------------------------
// Restart limiter
// ---------------------------------------------------------------------------

/// `Instant::duration_since` in nanoseconds: the time from `earlier` to
/// `now`, or zero when `earlier` is later.
pub open spec fn elapsed(now: u64, earlier: u64) -> int {
    if now >= earlier {
        now - earlier
    } else {
        0
    }
}

/// The attempts that remain once those a full window old are dropped from
/// the front.
pub open spec fn prune_attempts(attempts: Seq<u64>, now: u64) -> Seq<u64>
    decreases attempts.len(),
{
    if attempts.len() > 0 && elapsed(now, attempts[0]) >= RESTART_WINDOW_NANOS {
        prune_attempts(attempts.drop_first(), now)
    } else {
        attempts
    }
}

/// `RestartLimiter::allow` on the recorded attempts: after pruning, a
/// restart is allowed when fewer than [`MAX_RESTARTS_PER_WINDOW`] attempts
/// remain and the last one is at least [`RESTART_COOLDOWN_NANOS`] old; an
/// allowed restart is recorded.
pub open spec fn allow_spec(attempts: Seq<u64>, now: u64) -> (Seq<u64>, bool) {
    let kept = prune_attempts(attempts, now);
    if kept.len() >= MAX_RESTARTS_PER_WINDOW || (kept.len() > 0 && elapsed(now, kept.last())
        < RESTART_COOLDOWN_NANOS) {
        (kept, false)
    } else {
        (kept.push(now), true)
    }
}

/// Limits how often the bridge restarts a companion that has stopped.
#[derive(Debug)]
pub struct RestartLimiter {
    attempts: VecDeque<u64>,
}

impl View for RestartLimiter {
    type V = Seq<u64>;

    /// The times of the recorded restarts, oldest first.
    closed spec fn view(&self) -> Seq<u64> {
        self.attempts@
    }
}

fn elapsed_nanos(now: u64, earlier: u64) -> (r: u64)
    ensures
        r == elapsed(now, earlier),
{
    if now >= earlier {
        now - earlier
    } else {
        0
    }
}

impl RestartLimiter {
    /// A limiter with no recorded restart.
    pub fn new() -> (r: RestartLimiter)
        ensures
            r@ == Seq::<u64>::empty(),
    {
        RestartLimiter { attempts: VecDeque::new() }
    }

    /// `allow`: whether a restart at `now` (nanoseconds on a monotonic
    /// clock) may go ahead; an allowed restart is recorded.
    pub fn allow(&mut self, now: u64) -> (r: bool)
        ensures
            (final(self)@, r) == allow_spec(old(self)@, now),
    {
        while self.attempts.len() > 0 && elapsed_nanos(now, self.attempts[0])
            >= RESTART_WINDOW_NANOS
            invariant
                prune_attempts(self@, now) == prune_attempts(old(self)@, now),
            decreases self.attempts@.len(),
        {
            let ghost before = self@;
            self.attempts.pop_front();
            proof {
                assert(self@ =~= before.drop_first());
            }
        }
        let count = self.attempts.len();
        if count >= MAX_RESTARTS_PER_WINDOW || (count > 0 && elapsed_nanos(
            now,
            self.attempts[count - 1],
        ) < RESTART_COOLDOWN_NANOS) {
            return false;
        }
        self.attempts.push_back(now);
        true
    }
}

impl Default for RestartLimiter {
    fn default() -> (r: RestartLimiter)
        ensures
            r@ == Seq::<u64>::empty(),
    {
        RestartLimiter::new()
    }
}

/// The recorded attempts after a limiter, new at first, has been asked at
/// each of `times` in turn.
pub open spec fn limiter_state(times: Seq<u64>) -> Seq<u64>
    decreases times.len(),
{
    if times.len() == 0 {
        Seq::empty()
    } else {
        allow_spec(limiter_state(times.drop_last()), times.last()).0
    }
}

/// Whether the `i`-th request of `times` to a new limiter was allowed.
pub open spec fn limiter_grants(times: Seq<u64>, i: int) -> bool {
    allow_spec(limiter_state(times.take(i)), times[i]).1
}

/// The times never go backwards.
pub open spec fn non_decreasing(times: Seq<u64>) -> bool {
    forall|i: int, j: int| 0 <= i <= j < times.len() ==> times[i] <= times[j]
}

/// Pruning only drops attempts that are a full window old, from the front.
proof fn lemma_prune_keeps_recent(attempts: Seq<u64>, now: u64, x: u64)
    requires
        attempts.contains(x),
        elapsed(now, x) < RESTART_WINDOW_NANOS,
    ensures
        prune_attempts(attempts, now).contains(x),
    decreases attempts.len(),
{
    if attempts.len() > 0 && elapsed(now, attempts[0]) >= RESTART_WINDOW_NANOS {
        let i = choose|i: int| 0 <= i < attempts.len() && attempts[i] == x;
        assert(i != 0);
        assert(attempts.drop_first()[i - 1] == x);
        lemma_prune_keeps_recent(attempts.drop_first(), now, x);
    }
}

/// What pruning keeps is a suffix of the attempts.
proof fn lemma_prune_suffix(attempts: Seq<u64>, now: u64)
    ensures
        prune_attempts(attempts, now).len() <= attempts.len(),
        prune_attempts(attempts, now) == attempts.skip(
            attempts.len() - prune_attempts(attempts, now).len(),
        ),
    decreases attempts.len(),
{
    if attempts.len() > 0 && elapsed(now, attempts[0]) >= RESTART_WINDOW_NANOS {
        lemma_prune_suffix(attempts.drop_first(), now);
        let kept = prune_attempts(attempts, now);
        assert(attempts.drop_first().skip(attempts.len() - 1 - kept.len()) =~= attempts.skip(
            attempts.len() - kept.len(),
        ));
    } else {
        assert(attempts.skip(0) =~= attempts);
    }
}

/// What the limiter's record holds after the first `k` requests of
/// non-decreasing `times`: it is sorted, no later than the last request,
/// its last entry is the latest allowed time, and it still holds every
/// allowed time less than a window before the last request.
pub open spec fn limiter_record_inv(times: Seq<u64>, k: int) -> bool {
    let state = limiter_state(times.take(k));
    &&& non_decreasing(state)
    &&& forall|a: int| 0 <= a < state.len() ==> (k > 0 && #[trigger] state[a] <= times[k - 1])
    &&& forall|i: int|
        0 <= i < k && #[trigger] limiter_grants(times, i) && state.len() > 0 ==> times[i]
            <= state.last()
    &&& forall|i: int|
        0 <= i < k && #[trigger] limiter_grants(times, i) && times[k - 1] - times[i]
            < RESTART_WINDOW_NANOS ==> state.contains(times[i])
}

proof fn lemma_limiter_record(times: Seq<u64>, k: int)
    requires
        non_decreasing(times),
        0 <= k <= times.len(),
    ensures
        limiter_record_inv(times, k),
    decreases k,
{
    if k == 0 {
        assert(times.take(0) =~= Seq::<u64>::empty());
    } else {
        lemma_limiter_record(times, k - 1);
        let prev = limiter_state(times.take(k - 1));
        let now = times[k - 1];
        assert(times.take(k).drop_last() =~= times.take(k - 1));
        assert(times.take(k).last() == now);
        let kept = prune_attempts(prev, now);
        lemma_prune_suffix(prev, now);
        let state = limiter_state(times.take(k));
        assert(state == allow_spec(prev, now).0);
        let granted = allow_spec(prev, now).1;
        assert(limiter_grants(times, k - 1) == granted);
        // Sorted, and no later than `now`.
        assert forall|a: int, b: int| 0 <= a <= b < state.len() implies state[a] <= state[b] by {
            if b < kept.len() {
                assert(kept[a] == prev[prev.len() - kept.len() + a]);
                assert(kept[b] == prev[prev.len() - kept.len() + b]);
            } else {
                if a < kept.len() {
                    assert(kept[a] == prev[prev.len() - kept.len() + a]);
                    assert(prev[prev.len() - kept.len() + a] <= times[k - 2]);
                }
            }
        }
        assert forall|a: int| 0 <= a < state.len() implies (k > 0 && #[trigger] state[a] <= times[k
            - 1]) by {
            if a < kept.len() {
                assert(kept[a] == prev[prev.len() - kept.len() + a]);
                assert(prev[prev.len() - kept.len() + a] <= times[k - 2]);
            }
        }
        // The last entry is the latest allowed time.
        assert forall|i: int|
            0 <= i < k && #[trigger] limiter_grants(times, i) && state.len() > 0 implies times[i]
            <= state.last() by {
            if granted {
                assert(state.last() == now);
                assert(times[i] <= times[k - 1]);
            } else {
                assert(kept.last() == prev.last());
            }
        }
        assert forall|i: int|
            0 <= i < k && #[trigger] limiter_grants(times, i) && times[k - 1] - times[i]
                < RESTART_WINDOW_NANOS implies state.contains(times[i]) by {
            if i == k - 1 {
                assert(state.last() == now);
                assert(state[state.len() - 1] == now);
            } else {
                assert(times[k - 2] - times[i] < RESTART_WINDOW_NANOS);
                assert(prev.contains(times[i]));
                lemma_prune_keeps_recent(prev, now, times[i]);
                if granted {
                    let j = choose|j: int| 0 <= j < kept.len() && kept[j] == times[i];
                    assert(state[j] == times[i]);
                }
            }
        }
    }
}

/// Whether an attempt at `earlier` is less than a window old at `now`.
pub open spec fn in_window(now: u64) -> spec_fn(u64) -> bool {
    |earlier: u64| elapsed(now, earlier) < RESTART_WINDOW_NANOS
}

/// On times in non-decreasing order, pruning keeps exactly the attempts
/// less than a window old.
proof fn lemma_prune_is_filter(attempts: Seq<u64>, now: u64)
    requires
        non_decreasing(attempts),
    ensures
        prune_attempts(attempts, now) == attempts.filter(in_window(now)),
    decreases attempts.len(),
{
    if attempts.len() > 0 {
        let rest = attempts.drop_first();
        assert(non_decreasing(rest)) by {
            assert forall|i: int, j: int| 0 <= i <= j < rest.len() implies rest[i] <= rest[j] by {
                assert(rest[i] == attempts[i + 1] && rest[j] == attempts[j + 1]);
            }
        }
        lemma_prune_is_filter(rest, now);
        assert(attempts =~= seq![attempts[0]] + rest);
        rest.lemma_filter_prepend(attempts[0], in_window(now));
        if elapsed(now, attempts[0]) < RESTART_WINDOW_NANOS && rest.len() > 0 {
            assert(attempts[0] <= attempts[1]);
            assert(rest[0] == attempts[1]);
            assert(elapsed(now, rest[0]) < RESTART_WINDOW_NANOS);
            assert(prune_attempts(rest, now) == rest);
        }
        if elapsed(now, attempts[0]) < RESTART_WINDOW_NANOS && rest.len() == 0 {
            assert(prune_attempts(rest, now) == rest);
        }
    } else {
        reveal(Seq::filter);
        assert(attempts.filter(in_window(now)) =~= attempts);
    }
}

/// Law (a restart is judged on the last window only): on recorded times
/// in non-decreasing order, [`allow_spec`] keeps exactly the attempts less
/// than a window old, in order (a suffix: every dropped attempt is a window old or
/// more, every kept one is younger), and allows the restart exactly when
/// fewer than [`MAX_RESTARTS_PER_WINDOW`] are kept and the newest kept is
/// at least [`RESTART_COOLDOWN_NANOS`] old; an allowed restart is recorded
/// after them.
pub proof fn law_allow_judges_the_last_window(attempts: Seq<u64>, now: u64)
    requires
        non_decreasing(attempts),
    ensures
        ({
            let kept = prune_attempts(attempts, now);
            let dropped = attempts.len() - kept.len();
            &&& kept == attempts.filter(in_window(now))
            &&& kept == attempts.skip(dropped)
            &&& forall|k: int| 0 <= k < dropped ==> elapsed(now, #[trigger] attempts[k]) >= RESTART_WINDOW_NANOS
            &&& forall|k: int| 0 <= k < kept.len() ==> elapsed(now, #[trigger] kept[k]) < RESTART_WINDOW_NANOS
            &&& forall|x: u64| #[trigger] kept.contains(x) <==> (attempts.contains(x) && elapsed(now, x)
                < RESTART_WINDOW_NANOS)
            &&& allow_spec(attempts, now).1 == (kept.len() < MAX_RESTARTS_PER_WINDOW && (kept.len() == 0
                || elapsed(now, kept.last()) >= RESTART_COOLDOWN_NANOS))
            &&& allow_spec(attempts, now).0 == if allow_spec(attempts, now).1 {
                kept.push(now)
            } else {
                kept
            }
        }),
{
    lemma_prune_suffix(attempts, now);
    let kept = prune_attempts(attempts, now);
    let dropped = attempts.len() - kept.len();
    assert forall|x: u64| #[trigger] kept.contains(x) <==> (attempts.contains(x) && elapsed(now, x)
        < RESTART_WINDOW_NANOS) by {
        lemma_pruning_parts(attempts, now);
        if kept.contains(x) {
            let k = choose|k: int| 0 <= k < kept.len() && kept[k] == x;
            assert(attempts[dropped + k] == x);
        }
        if attempts.contains(x) && elapsed(now, x) < RESTART_WINDOW_NANOS {
            let k = choose|k: int| 0 <= k < attempts.len() && attempts[k] == x;
            assert(k >= dropped);
            assert(kept[k - dropped] == x);
        }
    }
    lemma_pruning_parts(attempts, now);
    lemma_prune_is_filter(attempts, now);
}

proof fn lemma_pruning_parts(attempts: Seq<u64>, now: u64)
    requires
        non_decreasing(attempts),
    ensures
        ({
            let kept = prune_attempts(attempts, now);
            let dropped = attempts.len() - kept.len();
            &&& kept == attempts.skip(dropped)
            &&& forall|k: int| 0 <= k < dropped ==> elapsed(now, #[trigger] attempts[k]) >= RESTART_WINDOW_NANOS
            &&& forall|k: int| 0 <= k < kept.len() ==> elapsed(now, #[trigger] kept[k]) < RESTART_WINDOW_NANOS
        }),
    decreases attempts.len(),
{
    lemma_prune_suffix(attempts, now);
    let kept = prune_attempts(attempts, now);
    if attempts.len() > 0 && elapsed(now, attempts[0]) >= RESTART_WINDOW_NANOS {
        let rest = attempts.drop_first();
        lemma_pruning_parts(rest, now);
        assert forall|k: int| 0 <= k < attempts.len() - kept.len() implies elapsed(
            now,
            #[trigger] attempts[k],
        ) >= RESTART_WINDOW_NANOS by {
            if k > 0 {
                assert(attempts[k] == rest[k - 1]);
            }
        }
    } else if attempts.len() > 0 {
        assert forall|k: int| 0 <= k < kept.len() implies elapsed(now, #[trigger] kept[k])
            < RESTART_WINDOW_NANOS by {
            assert(attempts[0] <= attempts[k]);
        }
    }
}

/// Law: two restarts that a new limiter allows, asked at non-decreasing
/// times, are at least [`RESTART_COOLDOWN_NANOS`] apart.
pub proof fn law_restarts_respect_cooldown(times: Seq<u64>, i: int, j: int)
    requires
        non_decreasing(times),
        0 <= i < j < times.len(),
        limiter_grants(times, i),
        limiter_grants(times, j),
    ensures
        times[j] - times[i] >= RESTART_COOLDOWN_NANOS,
{
    if times[j] - times[i] < RESTART_COOLDOWN_NANOS {
        lemma_limiter_record(times, j);
        let state = limiter_state(times.take(j));
        let now = times[j];
        assert(times[j - 1] <= times[j]);
        assert(state.contains(times[i]));
        let kept = prune_attempts(state, now);
        lemma_prune_keeps_recent(state, now, times[i]);
        lemma_prune_suffix(state, now);
        assert(kept.len() > 0);
        assert(kept.last() == state.last());
        assert(state[state.len() - 1] <= times[j - 1]);
        assert(!allow_spec(state, now).1);
    }
}

/// Three distinct values need three places.
proof fn lemma_three_distinct(s: Seq<u64>, x: u64, y: u64, z: u64)
    requires
        s.contains(x),
        s.contains(y),
        s.contains(z),
        x != y,
        y != z,
        x != z,
    ensures
        s.len() >= 3,
{
    let a = choose|a: int| 0 <= a < s.len() && s[a] == x;
    let b = choose|b: int| 0 <= b < s.len() && s[b] == y;
    let c = choose|c: int| 0 <= c < s.len() && s[c] == z;
    assert(a != b && b != c && a != c);
}

/// Law: of the restarts that a new limiter allows, asked at non-decreasing
/// times, no four fall within one [`RESTART_WINDOW_NANOS`]: the first and
/// the fourth of any four are a full window apart.
pub proof fn law_restarts_per_window_bounded(
    times: Seq<u64>,
    i1: int,
    i2: int,
    i3: int,
    i4: int,
)
    requires
        non_decreasing(times),
        0 <= i1 < i2 < i3 < i4 < times.len(),
        limiter_grants(times, i1),
        limiter_grants(times, i2),
        limiter_grants(times, i3),
        limiter_grants(times, i4),
    ensures
        times[i4] - times[i1] >= RESTART_WINDOW_NANOS,
{
    if times[i4] - times[i1] < RESTART_WINDOW_NANOS {
        law_restarts_respect_cooldown(times, i1, i2);
        law_restarts_respect_cooldown(times, i2, i3);
        law_restarts_respect_cooldown(times, i1, i3);
        lemma_limiter_record(times, i4);
        let state = limiter_state(times.take(i4));
        let now = times[i4];
        assert(times[i4 - 1] <= times[i4]);
        assert(times[i1] <= times[i2] <= times[i3] <= times[i4 - 1]);
        assert(state.contains(times[i1]));
        assert(state.contains(times[i2]));
        assert(state.contains(times[i3]));
        let kept = prune_attempts(state, now);
        lemma_prune_keeps_recent(state, now, times[i1]);
        lemma_prune_keeps_recent(state, now, times[i2]);
        lemma_prune_keeps_recent(state, now, times[i3]);
        lemma_three_distinct(kept, times[i1], times[i2], times[i3]);
        assert(!allow_spec(state, now).1);
    }
}

/// Law: a limiter whose recorded attempts are all a full window old
/// allows the next restart.
pub proof fn law_limiter_recovers_after_window(attempts: Seq<u64>, now: u64)
    requires
        forall|k: int| 0 <= k < attempts.len() ==> elapsed(now, #[trigger] attempts[k])
            >= RESTART_WINDOW_NANOS,
    ensures
        allow_spec(attempts, now).1,
        allow_spec(attempts, now).0 == seq![now],
    decreases attempts.len(),
{
    if attempts.len() > 0 {
        law_limiter_recovers_after_window(attempts.drop_first(), now);
    }
}

// ---------------------------------------------------------------------------
// Replay buffer
// ---------------------------------------------------------------------------

/// Most bytes of marker frames retained.
pub const MAX_REPLAY_BYTES: usize = 8_388_608;

/// Most marker frames retained.
pub const MAX_REPLAY_MARKER_FRAMES: usize = 512;

/// Most entity frames retained.
pub const MAX_REPLAY_ENTITY_FRAMES: usize = 64;

/// Most position frames retained.
pub const MAX_REPLAY_POSITION_FRAMES: usize = 16;

/// A retained frame: its envelope's sequence number and its bytes.
#[derive(Debug, Clone)]
pub struct ReplayFrame {
    pub sequence: u64,
    pub payload: Vec<u8>,
}

/// A retained frame as a sequence number and the frame's bytes.
pub open spec fn frame_view(frame: ReplayFrame) -> (u64, Seq<u8>) {
    (frame.sequence, frame.payload@)
}

/// The views of retained frames.
pub open spec fn frames_view(frames: Seq<ReplayFrame>) -> Seq<(u64, Seq<u8>)> {
    frames.map_values(|frame: ReplayFrame| frame_view(frame))
}

/// What a replay buffer retains.
pub struct ReplayState {
    /// The session of the last snapshot.
    pub session_id: Option<Seq<char>>,
    /// The last snapshot.
    pub snapshot: Option<(u64, Seq<u8>)>,
    /// Entity deltas since that snapshot, oldest first.
    pub entities: Seq<(u64, Seq<u8>)>,
    /// Position deltas since that snapshot, oldest first.
    pub positions: Seq<(u64, Seq<u8>)>,
    /// Marker deltas since that snapshot, oldest first.
    pub markers: Seq<(u64, Seq<u8>)>,
    /// The running count of marker bytes.
    pub marker_bytes: nat,
}

/// The frames that rebuild the companion's state after a restart: the
/// last snapshot and the deltas since, within bounds.
#[derive(Debug)]
pub struct ReplayBuffer {
    session_id: Option<String>,
    snapshot: Option<ReplayFrame>,
    entities: VecDeque<ReplayFrame>,
    positions: VecDeque<ReplayFrame>,
    markers: VecDeque<ReplayFrame>,
    marker_bytes: usize,
}

/// The characters of an optional string.
pub open spec fn optional_chars(s: Option<String>) -> Option<Seq<char>> {
    match s {
        Some(v) => Some(v@),
        None => None,
    }
}

impl View for ReplayBuffer {
    type V = ReplayState;

    closed spec fn view(&self) -> ReplayState {
        ReplayState {
            session_id: optional_chars(self.session_id),
            snapshot: match self.snapshot {
                Some(frame) => Some(frame_view(frame)),
                None => None,
            },
            entities: frames_view(self.entities@),
            positions: frames_view(self.positions@),
            markers: frames_view(self.markers@),
            marker_bytes: self.marker_bytes as nat,
        }
    }
}

/// The total size of the frames' bytes.
pub open spec fn payload_total(frames: Seq<(u64, Seq<u8>)>) -> nat
    decreases frames.len(),
{
    if frames.len() == 0 {
        0
    } else {
        payload_total(frames.drop_last()) + frames.last().1.len()
    }
}

/// The last `n` frames.
pub open spec fn keep_last(frames: Seq<(u64, Seq<u8>)>, n: nat) -> Seq<(u64, Seq<u8>)> {
    if frames.len() > n {
        frames.skip(frames.len() - n)
    } else {
        frames
    }
}

/// `usize::saturating_add`.
pub open spec fn saturating_add(a: nat, b: nat) -> nat {
    if a + b > usize::MAX {
        usize::MAX as nat
    } else {
        a + b
    }
}

/// `usize::saturating_sub`.
pub open spec fn saturating_sub(a: nat, b: nat) -> nat {
    if a >= b {
        (a - b) as nat
    } else {
        0
    }
}

/// Marker frames dropped from the front while more than
/// [`MAX_REPLAY_MARKER_FRAMES`] frames or [`MAX_REPLAY_BYTES`] bytes are
/// retained, with the byte count kept in step.
pub open spec fn trim_markers(frames: Seq<(u64, Seq<u8>)>, bytes: nat) -> (Seq<(u64, Seq<u8>)>, nat)
    decreases frames.len(),
{
    if frames.len() > 0 && (frames.len() > MAX_REPLAY_MARKER_FRAMES || bytes > MAX_REPLAY_BYTES) {
        trim_markers(frames.drop_first(), saturating_sub(bytes, frames[0].1.len()))
    } else {
        (frames, bytes)
    }
}

/// `ReplayBuffer::observe`: a published snapshot replaces everything and
/// reports whether it opened a new session; entity, position and marker
/// deltas are appended and the oldest dropped beyond their bounds;
/// heartbeats, errors, browser requests and bytes that did not parse leave
/// the buffer as it was.
pub open spec fn observe_spec(
    state: ReplayState,
    payload: Seq<u8>,
    frame: Option<BridgeFrame>,
) -> (ReplayState, bool) {
    match frame {
        Some(BridgeFrame { message: BridgeMessage::Publish { envelope }, .. }) => {
            let retained = (envelope.sequence, payload);
            match envelope.message {
                TacticalMessage::SessionSnapshot(_) => (
                    ReplayState {
                        session_id: Some(envelope.session_id@),
                        snapshot: Some(retained),
                        entities: Seq::empty(),
                        positions: Seq::empty(),
                        markers: Seq::empty(),
                        marker_bytes: 0,
                    },
                    state.session_id != Some(envelope.session_id@),
                ),
                TacticalMessage::EntityDelta(_) => (
                    ReplayState {
                        entities: keep_last(
                            state.entities.push(retained),
                            MAX_REPLAY_ENTITY_FRAMES as nat,
                        ),
                        ..state
                    },
                    false,
                ),
                TacticalMessage::PositionDelta(_) => (
                    ReplayState {
                        positions: keep_last(
                            state.positions.push(retained),
                            MAX_REPLAY_POSITION_FRAMES as nat,
                        ),
                        ..state
                    },
                    false,
                ),
                TacticalMessage::MarkerDelta(_) => {
                    let (markers, bytes) = trim_markers(
                        state.markers.push(retained),
                        saturating_add(state.marker_bytes, payload.len()),
                    );
                    (ReplayState { markers, marker_bytes: bytes, ..state }, false)
                },
                _ => (state, false),
            }
        },
        _ => (state, false),
    }
}

/// Keeping the last `n` frames of a run that ends with `x`, for `n > 0`,
/// keeps a suffix that ends with `x`, as long as the run or `n` frames.
proof fn lemma_keep_last_keeps_newest(frames: Seq<(u64, Seq<u8>)>, x: (u64, Seq<u8>), n: nat)
    requires
        n > 0,
    ensures
        ({
            let kept = keep_last(frames.push(x), n);
            &&& kept.len() > 0 && kept.last() == x
            &&& kept.len() == (if frames.len() + 1 > n { n as int } else { frames.len() + 1 as int })
            &&& kept == frames.push(x).skip(frames.len() + 1 - kept.len())
        }),
{
    let all = frames.push(x);
    assert(all.skip(0) =~= all);
}

/// Law (a delta frame is retained as the newest of its kind): after an
/// entity or position delta is observed, the retained frames of its kind end
/// with that frame and are the newest of the earlier ones followed by it
/// (frames are dropped only from the oldest end, and only beyond the bound);
/// the other retained frames do not change.
pub proof fn law_observed_delta_is_retained_newest(
    state: ReplayState,
    payload: Seq<u8>,
    frame: BridgeFrame,
    envelope: Envelope,
)
    requires
        frame.message == (BridgeMessage::Publish { envelope }),
        envelope.message is EntityDelta || envelope.message is PositionDelta,
    ensures
        ({
            let after = observe_spec(state, payload, Some(frame)).0;
            let retained = (envelope.sequence, payload);
            let (before_kind, after_kind, bound) = if envelope.message is EntityDelta {
                (state.entities, after.entities, MAX_REPLAY_ENTITY_FRAMES as int)
            } else {
                (state.positions, after.positions, MAX_REPLAY_POSITION_FRAMES as int)
            };
            &&& after_kind.len() > 0 && after_kind.last() == retained
            &&& after_kind.len() == (if before_kind.len() + 1 > bound {
                bound
            } else {
                before_kind.len() + 1 as int
            })
            &&& after_kind == before_kind.push(retained).skip(before_kind.len() + 1 - after_kind.len())
            &&& after.session_id == state.session_id && after.snapshot == state.snapshot
            &&& after.markers == state.markers && after.marker_bytes == state.marker_bytes
            &&& envelope.message is EntityDelta ==> after.positions == state.positions
            &&& envelope.message is PositionDelta ==> after.entities == state.entities
            &&& !observe_spec(state, payload, Some(frame)).1
        }),
{
    let retained = (envelope.sequence, payload);
    if envelope.message is EntityDelta {
        lemma_keep_last_keeps_newest(state.entities, retained, MAX_REPLAY_ENTITY_FRAMES as nat);
    } else {
        lemma_keep_last_keeps_newest(state.positions, retained, MAX_REPLAY_POSITION_FRAMES as nat);
    }
}

/// The bounds a replay buffer keeps: at most 64 entity, 16 position and
/// 512 marker frames, and the marker byte count is the size of the marker
/// frames, at most [`MAX_REPLAY_BYTES`].
pub open spec fn replay_bounded(state: ReplayState) -> bool {
    &&& state.entities.len() <= MAX_REPLAY_ENTITY_FRAMES
    &&& state.positions.len() <= MAX_REPLAY_POSITION_FRAMES
    &&& state.markers.len() <= MAX_REPLAY_MARKER_FRAMES
    &&& state.marker_bytes == payload_total(state.markers)
    &&& state.marker_bytes <= MAX_REPLAY_BYTES
}

proof fn lemma_payload_total_front(frames: Seq<(u64, Seq<u8>)>)
    requires
        frames.len() > 0,
    ensures
        payload_total(frames) == frames[0].1.len() + payload_total(frames.drop_first()),
    decreases frames.len(),
{
    if frames.len() > 1 {
        lemma_payload_total_front(frames.drop_last());
        assert(frames.drop_last().drop_first() =~= frames.drop_first().drop_last());
    } else {
        assert(frames.drop_first() =~= Seq::<(u64, Seq<u8>)>::empty());
        assert(frames.drop_last() =~= Seq::<(u64, Seq<u8>)>::empty());
    }
}

/// Law (markers are dropped only as the bounds need): trimming a run of
/// marker frames whose byte count is right keeps a suffix of them, within
/// [`MAX_REPLAY_MARKER_FRAMES`] frames and [`MAX_REPLAY_BYTES`] bytes, with
/// the byte count still right; and when it dropped any frame, keeping one
/// more would break a bound.
pub proof fn law_marker_trim_drops_only_what_bounds_need(frames: Seq<(u64, Seq<u8>)>, bytes: nat)
    requires
        bytes == payload_total(frames),
    ensures
        ({
            let (kept, b) = trim_markers(frames, bytes);
            let dropped = frames.len() - kept.len();
            &&& kept.len() <= frames.len()
            &&& kept == frames.skip(dropped)
            &&& b == payload_total(kept)
            &&& kept.len() <= MAX_REPLAY_MARKER_FRAMES
            &&& b <= MAX_REPLAY_BYTES
            &&& dropped > 0 ==> (kept.len() + 1 > MAX_REPLAY_MARKER_FRAMES || payload_total(
                frames.skip(dropped - 1),
            ) > MAX_REPLAY_BYTES)
        }),
    decreases frames.len(),
{
    if frames.len() > 0 && (frames.len() > MAX_REPLAY_MARKER_FRAMES || bytes > MAX_REPLAY_BYTES) {
        let rest = frames.drop_first();
        lemma_payload_total_front(frames);
        assert(saturating_sub(bytes, frames[0].1.len()) == payload_total(rest));
        law_marker_trim_drops_only_what_bounds_need(rest, payload_total(rest));
        let (kept, b) = trim_markers(rest, payload_total(rest));
        let d = rest.len() - kept.len();
        assert(rest.skip(d) =~= frames.skip(d + 1));
        if d == 0 {
            assert(frames.skip(0) =~= frames);
        } else {
            assert(rest.skip(d - 1) =~= frames.skip(d));
        }
    } else {
        assert(frames.skip(0) =~= frames);
        if frames.len() == 0 {
            assert(payload_total(frames) == 0);
        }
    }
}

/// Appends a frame and drops the oldest beyond `bound`.
fn push_bounded(frames: &mut VecDeque<ReplayFrame>, frame: ReplayFrame, bound: usize)
    requires
        old(frames)@.len() <= bound,
    ensures
        frames_view(final(frames)@) == keep_last(
            frames_view(old(frames)@).push(frame_view(frame)),
            bound as nat,
        ),
        final(frames)@.len() <= bound,
{
    let ghost full = frames_view(old(frames)@).push(frame_view(frame));
    frames.push_back(frame);
    assert(frames_view(frames@) =~= full);
    assert(full.skip(0) =~= full);
    while frames.len() > bound
        invariant
            frames@.len() <= full.len(),
            frames@.len() >= bound || frames@.len() == full.len(),
            frames_view(frames@) == full.skip(full.len() - frames@.len()),
        decreases frames@.len(),
    {
        let ghost current = frames@;
        frames.pop_front();
        proof {
            assert(frames@ =~= current.drop_first());
            assert(frames_view(frames@) =~= frames_view(current).drop_first());
            assert(frames_view(current).drop_first() =~= full.skip(full.len() - frames@.len()));
        }
    }
}

/// A copy of a frame.
fn copy_frame(frame: &ReplayFrame) -> (r: ReplayFrame)
    ensures
        frame_view(r) == frame_view(*frame),
{
    ReplayFrame {
        sequence: frame.sequence,
        payload: slice_range(frame.payload.as_slice(), 0, frame.payload.len()),
    }
}

impl ReplayBuffer {
    /// The buffer keeps its bounds and its marker byte count.
    #[verifier::type_invariant]
    spec fn bounded(self) -> bool {
        replay_bounded(self@)
    }

    /// An empty buffer.
    pub fn new() -> (r: ReplayBuffer)
        ensures
            r@ == (ReplayState {
                session_id: None,
                snapshot: None,
                entities: Seq::empty(),
                positions: Seq::empty(),
                markers: Seq::empty(),
                marker_bytes: 0,
            }),
            replay_bounded(r@),
    {
        let r = ReplayBuffer {
            session_id: None,
            snapshot: None,
            entities: VecDeque::new(),
            positions: VecDeque::new(),
            markers: VecDeque::new(),
            marker_bytes: 0,
        };
        assert(frames_view(r.entities@) =~= Seq::empty());
        assert(frames_view(r.positions@) =~= Seq::empty());
        assert(frames_view(r.markers@) =~= Seq::empty());
        r
    }

    /// The session of the last snapshot.
    pub fn session_id(&self) -> (r: Option<String>)
        ensures
            optional_chars(r) == self@.session_id,
    {
        match &self.session_id {
            Some(id) => Some(clone_string(id)),
            None => None,
        }
    }

    /// The last snapshot frame.
    pub fn snapshot(&self) -> (r: Option<ReplayFrame>)
        ensures
            r matches Some(frame) ==> self@.snapshot == Some(frame_view(frame)),
            r is None ==> self@.snapshot is None,
    {
        match &self.snapshot {
            Some(frame) => Some(copy_frame(frame)),
            None => None,
        }
    }

    /// Numbers of retained entity, position and marker frames, and the
    /// marker byte count.
    pub fn retained_counts(&self) -> (r: (usize, usize, usize, usize))
        ensures
            r.0 == self@.entities.len(),
            r.1 == self@.positions.len(),
            r.2 == self@.markers.len(),
            r.3 == self@.marker_bytes,
    {
        (self.entities.len(), self.positions.len(), self.markers.len(), self.marker_bytes)
    }
}

/// Appends a marker frame to `markers`, whose byte count is `marker_bytes`,
/// then drops the oldest while more than [`MAX_REPLAY_MARKER_FRAMES`] frames
/// or [`MAX_REPLAY_BYTES`] bytes are retained.
fn push_marker(markers: &mut VecDeque<ReplayFrame>, marker_bytes: &mut usize, frame: ReplayFrame)
    requires
        old(markers)@.len() <= MAX_REPLAY_MARKER_FRAMES,
        *old(marker_bytes) as nat == payload_total(frames_view(old(markers)@)),
        *old(marker_bytes) <= MAX_REPLAY_BYTES,
        frame.payload@.len() <= isize::MAX,
    ensures
        (frames_view(final(markers)@), *final(marker_bytes) as nat) == trim_markers(
            frames_view(old(markers)@).push(frame_view(frame)),
            saturating_add(*old(marker_bytes) as nat, frame.payload@.len()),
        ),
        final(markers)@.len() <= MAX_REPLAY_MARKER_FRAMES,
        *final(marker_bytes) as nat == payload_total(frames_view(final(markers)@)),
        *final(marker_bytes) <= MAX_REPLAY_BYTES,
{
    let ghost start = frames_view(old(markers)@).push(frame_view(frame));
    let ghost start_bytes = saturating_add(*old(marker_bytes) as nat, frame.payload@.len());
    proof {
        assert(start.drop_last() =~= frames_view(old(markers)@));
    }
    let added = frame.payload.len();
    *marker_bytes = *marker_bytes + added;
    markers.push_back(frame);
    proof {
        assert(frames_view(markers@) =~= start);
    }
    while markers.len() > MAX_REPLAY_MARKER_FRAMES || *marker_bytes > MAX_REPLAY_BYTES
        invariant
            *marker_bytes as nat == payload_total(frames_view(markers@)),
            trim_markers(frames_view(markers@), *marker_bytes as nat) == trim_markers(
                start,
                start_bytes,
            ),
        decreases markers@.len(),
    {
        let ghost current = frames_view(markers@);
        if markers.len() == 0 {
            assert(current =~= Seq::<(u64, Seq<u8>)>::empty());
        }
        proof {
            lemma_payload_total_front(current);
        }
        match markers.pop_front() {
            Some(removed) => {
                *marker_bytes = *marker_bytes - removed.payload.len();
                proof {
                    assert(frames_view(markers@) =~= current.drop_first());
                }
            },
            None => {},
        }
    }
}

impl ReplayBuffer {
    /// `observe`: records a frame on its way to the companion. `frame` is
    /// `payload` parsed as a bridge frame, or `None` when it does not
    /// parse. Returns whether a snapshot of a new session arrived.
    pub fn observe(&mut self, payload: &Vec<u8>, frame: &Option<BridgeFrame>) -> (new_session: bool)
        requires
            payload@.len() <= isize::MAX,
        ensures
            (final(self)@, new_session) == observe_spec(old(self)@, payload@, *frame),
    {
        proof {
            use_type_invariant(&*self);
        }
        let envelope = match frame {
            Some(BridgeFrame { message: BridgeMessage::Publish { envelope }, .. }) => envelope,
            _ => return false,
        };
        let retained = ReplayFrame {
            sequence: envelope.sequence,
            payload: slice_range(payload.as_slice(), 0, payload.len()),
        };
        assert(payload@.subrange(0, payload@.len() as int) =~= payload@);
        let mut taken = ReplayBuffer::new();
        std::mem::swap(self, &mut taken);
        let ReplayBuffer {
            mut session_id,
            mut snapshot,
            mut entities,
            mut positions,
            mut markers,
            mut marker_bytes,
        } = taken;
        let new_session = match &envelope.message {
            TacticalMessage::SessionSnapshot(_) => {
                let new_session = match &session_id {
                    Some(current) => !str_eq(current.as_str(), envelope.session_id.as_str()),
                    None => true,
                };
                session_id = Some(clone_string(&envelope.session_id));
                snapshot = Some(retained);
                entities.clear();
                positions.clear();
                markers.clear();
                marker_bytes = 0;
                proof {
                    assert(frames_view(entities@) =~= Seq::empty());
                    assert(frames_view(positions@) =~= Seq::empty());
                    assert(frames_view(markers@) =~= Seq::empty());
                }
                new_session
            },
            TacticalMessage::EntityDelta(_) => {
                push_bounded(&mut entities, retained, MAX_REPLAY_ENTITY_FRAMES);
                false
            },
            TacticalMessage::PositionDelta(_) => {
                push_bounded(&mut positions, retained, MAX_REPLAY_POSITION_FRAMES);
                false
            },
            TacticalMessage::MarkerDelta(_) => {
                push_marker(&mut markers, &mut marker_bytes, retained);
                false
            },
            _ => false,
        };
        *self = ReplayBuffer { session_id, snapshot, entities, positions, markers, marker_bytes };
        new_session
    }
}

/// Why the retained frames cannot be replayed.
#[derive(Debug, Clone, Copy, PartialEq, Eq, Structural)]
pub enum RecoveryError {
    /// The pending bytes are not a bridge frame.
    InvalidFrame,
    /// No mission snapshot is available for recovery.
    NoSnapshot,
}

/// The message of a recovery error.
pub open spec fn recovery_error_message(error: RecoveryError) -> Seq<char> {
    match error {
        RecoveryError::InvalidFrame => "the pending frame is not a bridge frame"@,
        RecoveryError::NoSnapshot => "no mission snapshot is available for recovery"@,
    }
}

impl RecoveryError {
    /// The error's message.
    pub fn describe(&self) -> (r: &'static str)
        ensures
            r@ == recovery_error_message(*self),
    {
        match self {
            RecoveryError::InvalidFrame => "the pending frame is not a bridge frame",
            RecoveryError::NoSnapshot => "no mission snapshot is available for recovery",
        }
    }
}

/// The retained frames in the order the buffer holds them: the snapshot,
/// then the entity, position and marker deltas; nothing without a snapshot.
pub open spec fn retained_frames(state: ReplayState) -> Seq<(u64, Seq<u8>)> {
    match state.snapshot {
        Some(snapshot) => seq![snapshot] + state.entities + state.positions + state.markers,
        None => Seq::empty(),
    }
}

/// The sequence numbers of frames, as sort keys.
pub open spec fn sequence_keys(frames: Seq<(u64, Seq<u8>)>) -> Seq<i128> {
    frames.map_values(|frame: (u64, Seq<u8>)| frame.0 as i128)
}

/// A pending frame that is delivered again after the retained ones,
/// because the buffer does not keep it: a browser request or a heartbeat.
pub open spec fn resends_pending(frame: BridgeFrame) -> bool {
    match frame.message {
        BridgeMessage::OpenBrowser => true,
        BridgeMessage::Publish { envelope } => envelope.message is Heartbeat,
    }
}

/// The bytes of a list of payloads.
pub open spec fn payload_views(payloads: Seq<Vec<u8>>) -> Seq<Seq<u8>> {
    payloads.map_values(|payload: Vec<u8>| payload@)
}

/// `payloads` replays `state` before `pending`: the retained frames
/// ordered by sequence number, frames with equal numbers in the order the
/// buffer holds them, followed by `pending` when it is resent.
pub open spec fn is_recovery_sequence(
    state: ReplayState,
    pending: Seq<u8>,
    frame: BridgeFrame,
    payloads: Seq<Seq<u8>>,
) -> bool {
    let frames = retained_frames(state);
    exists|order: Seq<usize>|
        #[trigger] is_stable_order(sequence_keys(frames), order) && payloads == order.map_values(
            |k: usize| frames[k as int].1,
        ) + (if resends_pending(frame) {
            seq![pending]
        } else {
            Seq::empty()
        })
}

/// Law (a restarted companion gets each retained frame once, in order):
/// a recovery sequence holds each retained frame exactly once, by
/// non-decreasing sequence number, followed by the pending frame exactly
/// when it is a browser request or a heartbeat.
pub proof fn law_recovery_replays_each_frame_once_in_order(
    state: ReplayState,
    pending: Seq<u8>,
    frame: BridgeFrame,
    payloads: Seq<Seq<u8>>,
)
    requires
        is_recovery_sequence(state, pending, frame, payloads),
    ensures
        ({
            let frames = retained_frames(state);
            let n = frames.len() as int;
            &&& payloads.len() == n + (if resends_pending(frame) {
                1int
            } else {
                0int
            })
            &&& resends_pending(frame) ==> payloads[n] == pending
            &&& exists|order: Seq<usize>|
                {
                    &&& order.len() == n
                    &&& forall|k: int| 0 <= k < n ==> #[trigger] order[k] < n
                    &&& forall|a: int, b: int| 0 <= a < b < n ==> #[trigger] order[a] != #[trigger] order[b]
                    &&& forall|m: usize| m < n ==> #[trigger] order.contains(m)
                    &&& forall|a: int, b: int|
                        0 <= a < b < n ==> frames[#[trigger] order[a] as int].0 <= frames[#[trigger] order[b] as int].0
                    &&& forall|k: int| 0 <= k < n ==> payloads[k] == frames[#[trigger] order[k] as int].1
                }
        }),
{
    let frames = retained_frames(state);
    let n = frames.len() as int;
    let order = choose|order: Seq<usize>|
        #[trigger] is_stable_order(sequence_keys(frames), order) && payloads == order.map_values(
            |k: usize| frames[k as int].1,
        ) + (if resends_pending(frame) {
            seq![pending]
        } else {
            Seq::empty()
        });
    let keys = sequence_keys(frames);
    let prefix = order.map_values(|k: usize| frames[k as int].1);
    assert forall|a: int, b: int| 0 <= a < b < n implies #[trigger] order[a] != #[trigger] order[b] by {
        assert(goes_before(keys, order[a] as int, order[b] as int));
    }
    assert forall|a: int, b: int|
        0 <= a < b < n implies frames[#[trigger] order[a] as int].0 <= frames[#[trigger] order[b] as int].0 by {
        assert(goes_before(keys, order[a] as int, order[b] as int));
        assert(keys[order[a] as int] == frames[order[a] as int].0 as i128);
        assert(keys[order[b] as int] == frames[order[b] as int].0 as i128);
    }
    assert forall|k: int| 0 <= k < n implies payloads[k] == frames[#[trigger] order[k] as int].1 by {
        assert(payloads[k] == prefix[k]);
    }
    if resends_pending(frame) {
        assert(payloads[n] == pending);
    }
}

/// Appends copies of the frames of `from`.
fn append_frames(out: &mut Vec<ReplayFrame>, from: &VecDeque<ReplayFrame>)
    ensures
        frames_view(final(out)@) == frames_view(old(out)@) + frames_view(from@),
{
    let ghost start = frames_view(out@);
    let mut i: usize = 0;
    while i < from.len()
        invariant
            i <= from@.len(),
            frames_view(out@) == start + frames_view(from@).take(i as int),
        decreases from@.len() - i,
    {
        let ghost before = out@;
        let copy = copy_frame(&from[i]);
        out.push(copy);
        proof {
            assert(out@ =~= before.push(copy));
            assert(frames_view(out@) =~= frames_view(before).push(frame_view(copy)));
            assert(frames_view(from@).take(i + 1) =~= frames_view(from@).take(i as int).push(
                frame_view(from@[i as int]),
            ));
            assert(frames_view(out@) =~= start + frames_view(from@).take(i + 1));
        }
        i = i + 1;
    }
    assert(frames_view(from@).take(from@.len() as int) =~= frames_view(from@));
}

impl ReplayBuffer {
    /// `recovery_payloads`: the frames that rebuild a restarted companion's
    /// state before `pending`, the frame whose delivery failed, is handled.
    /// `pending_frame` is `pending` parsed as a bridge frame.
    pub fn recovery_payloads(&self, pending: &Vec<u8>, pending_frame: &Option<BridgeFrame>) -> (r:
        Result<Vec<Vec<u8>>, RecoveryError>)
        ensures
            pending_frame is None ==> r == Err::<Vec<Vec<u8>>, RecoveryError>(
                RecoveryError::InvalidFrame,
            ),
            pending_frame matches Some(frame) ==> if self@.snapshot is None && !(frame.message is OpenBrowser) {
                r == Err::<Vec<Vec<u8>>, RecoveryError>(RecoveryError::NoSnapshot)
            } else {
                r matches Ok(payloads) && is_recovery_sequence(
                    self@,
                    pending@,
                    *frame,
                    payload_views(payloads@),
                )
            },
    {
        let frame = match pending_frame {
            Some(frame) => frame,
            None => return Err(RecoveryError::InvalidFrame),
        };
        let browser_requested = match frame.message {
            BridgeMessage::OpenBrowser => true,
            _ => false,
        };
        if self.snapshot.is_none() && !browser_requested {
            return Err(RecoveryError::NoSnapshot);
        }
        let mut frames: Vec<ReplayFrame> = Vec::new();
        if let Some(snapshot) = &self.snapshot {
            frames.push(copy_frame(snapshot));
            append_frames(&mut frames, &self.entities);
            append_frames(&mut frames, &self.positions);
            append_frames(&mut frames, &self.markers);
        }
        let ghost all = frames_view(frames@);
        assert(all =~= retained_frames(self@));
        let mut keys: Vec<i128> = Vec::new();
        let mut i: usize = 0;
        while i < frames.len()
            invariant
                i <= frames@.len(),
                all == frames_view(frames@),
                keys@ == sequence_keys(all).take(i as int),
            decreases frames@.len() - i,
        {
            keys.push(frames[i].sequence as i128);
            proof {
                assert(keys@ =~= sequence_keys(all).take(i + 1));
            }
            i = i + 1;
        }
        assert(keys@ =~= sequence_keys(all));
        let order = stable_order(&keys);
        let mut payloads: Vec<Vec<u8>> = Vec::new();
        let mut k: usize = 0;
        while k < order.len()
            invariant
                k <= order@.len(),
                all == frames_view(frames@),
                is_stable_order(sequence_keys(all), order@),
                payload_views(payloads@) == order@.take(k as int).map_values(
                    |j: usize| all[j as int].1,
                ),
            decreases order@.len() - k,
        {
            let j = order[k];
            let payload = &frames[j].payload;
            let ghost before = payloads@;
            let copy = slice_range(payload.as_slice(), 0, payload.len());
            payloads.push(copy);
            proof {
                assert(payload@.subrange(0, payload@.len() as int) =~= payload@);
                assert(all[j as int] == frame_view(frames@[j as int]));
                assert(copy@ == all[j as int].1);
                assert(payloads@ =~= before.push(copy));
                assert(payload_views(payloads@) =~= payload_views(before).push(copy@));
                assert(order@.take(k + 1).map_values(|j: usize| all[j as int].1) =~= order@.take(
                    k as int,
                ).map_values(|j: usize| all[j as int].1).push(all[order@[k as int] as int].1));
            }
            k = k + 1;
        }
        let ghost retained = payload_views(payloads@);
        assert(order@.take(order@.len() as int) =~= order@);
        let resend = match &frame.message {
            BridgeMessage::OpenBrowser => true,
            BridgeMessage::Publish { envelope } => match envelope.message {
                TacticalMessage::Heartbeat(_) => true,
                _ => false,
            },
        };
        if resend {
            payloads.push(slice_range(pending.as_slice(), 0, pending.len()));
            proof {
                assert(pending@.subrange(0, pending@.len() as int) =~= pending@);
                assert(payload_views(payloads@) =~= retained + seq![pending@]);
            }
        } else {
            assert(retained =~= retained + Seq::<Seq<u8>>::empty());
        }
        proof {
            assert(is_stable_order(sequence_keys(retained_frames(self@)), order@));
        }
        Ok(payloads)
    }
}

// ---------------------------------------------------------------------------
// Browser tabs of restarted companions
// ---------------------------------------------------------------------------

/// Whether a companion restarted after a failed delivery opens a browser
/// tab, and the session that has had a replacement tab afterwards. A
/// pending browser request opens its own tab after the replay, so none is
/// opened for it; a new session opens one and forgets earlier replacements;
/// otherwise a session opens one replacement tab, once.
pub open spec fn restart_browser_spec(
    browser_requested: bool,
    new_session: bool,
    current_session: Option<Seq<char>>,
    replacement_tab_session: Option<Seq<char>>,
    open_browser: bool,
) -> (bool, Option<Seq<char>>) {
    if browser_requested {
        (false, replacement_tab_session)
    } else if new_session {
        (open_browser, None)
    } else if current_session is Some && current_session != replacement_tab_session {
        (open_browser, current_session)
    } else {
        (false, replacement_tab_session)
    }
}

fn same_session(a: &Option<String>, b: &Option<String>) -> (r: bool)
    ensures
        r == (optional_chars(*a) == optional_chars(*b)),
{
    match (a, b) {
        (Some(x), Some(y)) => str_eq(x.as_str(), y.as_str()),
        (None, None) => true,
        _ => false,
    }
}

/// Decides whether the restarted companion opens a browser tab (see
/// [`restart_browser_spec`]) and records the session of a replacement tab.
pub fn restart_browser(
    browser_requested: bool,
    new_session: bool,
    current_session: &Option<String>,
    replacement_tab_session: &mut Option<String>,
    open_browser: bool,
) -> (r: bool)
    ensures
        (r, optional_chars(*final(replacement_tab_session))) == restart_browser_spec(
            browser_requested,
            new_session,
            optional_chars(*current_session),
            optional_chars(*old(replacement_tab_session)),
            open_browser,
        ),
{
    if browser_requested {
        false
    } else if new_session {
        *replacement_tab_session = None;
        open_browser
    } else if current_session.is_some() && !same_session(current_session, replacement_tab_session) {
        *replacement_tab_session = match current_session {
            Some(id) => Some(clone_string(id)),
            None => None,
        };
        open_browser
    } else {
        false
    }
}

/// Law: within one session a restart opens at most one replacement tab:
/// once a restart has opened one for the current session, the next restart
/// in that session, without a new snapshot, opens none.
pub proof fn law_one_replacement_tab_per_session(
    first_request: bool,
    second_request: bool,
    session: Seq<char>,
    replaced: Option<Seq<char>>,
    open_browser: bool,
)
    requires
        restart_browser_spec(first_request, false, Some(session), replaced, open_browser).0,
    ensures
        !restart_browser_spec(
            second_request,
            false,
            Some(session),
            restart_browser_spec(first_request, false, Some(session), replaced, open_browser).1,
            open_browser,
        ).0,
{
}

} // verus!
