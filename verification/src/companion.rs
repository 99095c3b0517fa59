//! The companion's decisions: startup options, session tokens, heartbeat
//! supervision, the diagnostic log, static assets, icon and terrain lookups
//! in the stored snapshot, and the handling of authenticated pipe frames.
use crate::protocol::{
    BridgeFrame, BridgeMessage, BrowserCommand, CtabEdition, Envelope, TacticalMessage, TerrainInfo,
    ValidationError, envelope_check, MAX_FRAME_BYTES,
};
use crate::reconcile::{
    accept_envelope, accepted_state, accepts, canonicalize_envelope, is_canonical_form,
    snapshot_of, starts_mission, Acceptance,
};
use crate::text::{
    ascii_alphanumeric, chars_of, contains_char, ends_with, eq_ignore_ascii_case, eq_ignore_case,
    clone_string, has_prefix, has_suffix, is_ascii_alphanumeric, lit, push_char, starts_with, str_eq,
    string_from_range,
};
use subtle::ConstantTimeEq;
use vstd::prelude::*;
use vstd::utf8::encode_utf8;

verus! {

broadcast use vstd::string::group_string_axioms;

/// Time after the last heartbeat at which the companion stops, in
/// nanoseconds.
pub const HEARTBEAT_TIMEOUT_NANOS: u64 = 15_000_000_000;

/// Time after startup without any heartbeat at which the companion stops,
/// in nanoseconds.
pub const STARTUP_IDLE_TIMEOUT_NANOS: u64 = 60_000_000_000;

/// `HEARTBEAT_TIMEOUT` in milliseconds, as reported to the browser.
pub const HEARTBEAT_TIMEOUT_MILLIS: u64 = 15_000;

pub const MAX_AUTH_MESSAGE_BYTES: usize = 1024;

pub const MAX_DIAGNOSTIC_EVENTS: usize = 32;

/// Length of the random browser and pipe tokens, in random bytes.
pub const TOKEN_BYTES: usize = 32;

/// Startup options of the companion. `arma_root` is the game directory as
/// given on the command line.
#[derive(Debug, Clone, PartialEq, Eq)]
pub struct CompanionOptions {
    pub pipe_name: String,
    pub pipe_token: String,
    pub open_browser: bool,
    pub arma_root: Option<String>,
}

/// Why the companion could not start or stopped.
#[derive(Debug, Clone, PartialEq, Eq)]
pub enum CompanionError {
    InvalidOptions,
    Io(String),
    Task(String),
    RandomSource(String),
    Terrain,
    MarkerIcons,
}

// ---------------------------------------------------------------------------
// Startup options
// ---------------------------------------------------------------------------

/// The prefix of every companion pipe name: `\\.\pipe\ctab-web-`.
pub open spec fn pipe_name_prefix() -> Seq<char> {
    seq!['\\', '\\', '.', '\\', 'p', 'i', 'p', 'e', '\\', 'c', 't', 'a', 'b', '-', 'w', 'e', 'b', '-']
}

/// Length of `\\.\pipe\`, the part of the prefix that is not a name.
pub const PIPE_NAMESPACE_CHARS: usize = 9;

/// A companion pipe name: the fixed prefix, at most 180 bytes, and only ASCII
/// letters, digits and `-` after `\\.\pipe\`.
pub open spec fn valid_pipe_name(name: Seq<char>) -> bool {
    &&& has_prefix(name, pipe_name_prefix())
    &&& encode_utf8(name).len() <= 180
    &&& forall|i: int|
        PIPE_NAMESPACE_CHARS <= i < name.len() ==> is_ascii_alphanumeric(#[trigger] name[i])
            || name[i] == '-'
}

/// A pipe token: 32 to 128 bytes, all ASCII letters or digits.
pub open spec fn valid_pipe_token(token: Seq<char>) -> bool {
    let bytes = encode_utf8(token);
    &&& 32 <= bytes.len() <= 128
    &&& forall|i: int| 0 <= i < bytes.len() ==> is_ascii_alphanumeric_byte(#[trigger] bytes[i])
}

/// `u8::is_ascii_alphanumeric`.
pub open spec fn is_ascii_alphanumeric_byte(b: u8) -> bool {
    (48 <= b <= 57) || (65 <= b <= 90) || (97 <= b <= 122)
}

fn pipe_prefix() -> (r: &'static str)
    ensures
        r@ == pipe_name_prefix(),
{
    let r = "\\\\.\\pipe\\ctab-web-";
    proof {
        reveal_strlit("\\\\.\\pipe\\ctab-web-");
    }
    assert(r@ =~= pipe_name_prefix());
    r
}

/// Whether `name` is a companion pipe name.
pub fn check_pipe_name(name: &str) -> (r: bool)
    ensures
        r == valid_pipe_name(name@),
{
    if !starts_with(name, pipe_prefix()) || name.as_bytes().len() > 180 {
        return false;
    }
    let chars = chars_of(name);
    let mut i: usize = PIPE_NAMESPACE_CHARS;
    while i < chars.len()
        invariant
            chars@ == name@,
            PIPE_NAMESPACE_CHARS <= i,
            forall|k: int|
                PIPE_NAMESPACE_CHARS <= k < i && k < chars@.len() ==> is_ascii_alphanumeric(
                    #[trigger] chars@[k],
                ) || chars@[k] == '-',
        decreases chars.len() - i,
    {
        let c = chars[i];
        if !ascii_alphanumeric(c) && c != '-' {
            return false;
        }
        i = i + 1;
    }
    true
}

/// Whether `token` is a pipe token.
pub fn check_pipe_token(token: &str) -> (r: bool)
    ensures
        r == valid_pipe_token(token@),
{
    let bytes = token.as_bytes();
    if bytes.len() < 32 || bytes.len() > 128 {
        return false;
    }
    let mut i: usize = 0;
    while i < bytes.len()
        invariant
            bytes@ == encode_utf8(token@),
            i <= bytes.len(),
            forall|k: int| 0 <= k < i ==> is_ascii_alphanumeric_byte(#[trigger] bytes@[k]),
        decreases bytes.len() - i,
    {
        let b = bytes[i];
        if !((48 <= b && b <= 57) || (65 <= b && b <= 90) || (97 <= b && b <= 122)) {
            return false;
        }
        i = i + 1;
    }
    true
}

/// `validate_options`: the pipe name and token have the expected form, and
/// a given game directory is an Arma 3 installation. Whether the directory
/// holds `arma3_x64.exe` and `Addons` is looked up on disk by the caller and
/// passed as `arma_root_valid`.
pub fn validate_options(options: &CompanionOptions, arma_root_valid: bool) -> (r: Result<
    (),
    CompanionError,
>)
    ensures
        r is Ok <==> (valid_pipe_name(options.pipe_name@) && valid_pipe_token(
            options.pipe_token@,
        ) && (options.arma_root is None || arma_root_valid)),
        r matches Err(e) ==> e == CompanionError::InvalidOptions,
{
    let valid_arma_root = match &options.arma_root {
        None => true,
        Some(_) => arma_root_valid,
    };
    if check_pipe_name(options.pipe_name.as_str()) && check_pipe_token(
        options.pipe_token.as_str(),
    ) && valid_arma_root {
        Ok(())
    } else {
        Err(CompanionError::InvalidOptions)
    }
}

/// What the command line has set so far.
pub struct ParsedArguments {
    pub pipe_name: Option<String>,
    pub pipe_token: Option<String>,
    pub open_browser: bool,
    pub arma_root: Option<String>,
}

/// The command-line grammar: `--pipe-name V`, `--pipe-token V`,
/// `--no-browser`, `--arma-root V`, in any order; a later option overrides
/// an earlier one, and an option whose value is missing at the end sets no
/// value. `None` for an unsupported argument.
pub open spec fn parse_arguments_from(
    args: Seq<Seq<char>>,
    i: int,
    name: Option<Seq<char>>,
    token: Option<Seq<char>>,
    open_browser: bool,
    root: Option<Seq<char>>,
) -> Option<(Option<Seq<char>>, Option<Seq<char>>, bool, Option<Seq<char>>)>
    decreases args.len() + 1 - i,
{
    if i < 0 || i >= args.len() {
        Some((name, token, open_browser, root))
    } else {
        let a = args[i];
        let value = if i + 1 < args.len() {
            Some(args[i + 1])
        } else {
            None
        };
        if a == "--pipe-name"@ {
            parse_arguments_from(args, i + 2, value, token, open_browser, root)
        } else if a == "--pipe-token"@ {
            parse_arguments_from(args, i + 2, name, value, open_browser, root)
        } else if a == "--no-browser"@ {
            parse_arguments_from(args, i + 1, name, token, false, root)
        } else if a == "--arma-root"@ {
            parse_arguments_from(args, i + 2, name, token, open_browser, value)
        } else {
            None
        }
    }
}

/// The view of an optional string.
pub open spec fn opt_view(o: Option<String>) -> Option<Seq<char>> {
    match o {
        Some(s) => Some(s@),
        None => None,
    }
}

/// The views of a list of strings.
pub open spec fn string_views(args: Seq<String>) -> Seq<Seq<char>> {
    args.map_values(|a: String| a@)
}

/// One of the four options that the command line accepts.
pub open spec fn is_known_option(a: Seq<char>) -> bool {
    a == "--pipe-name"@ || a == "--pipe-token"@ || a == "--no-browser"@ || a == "--arma-root"@
}

/// Whether the grammar reads argument `k` as an option, going from argument
/// `i`: an option that takes a value skips it, `--no-browser` does not, and
/// reading stops at an unsupported argument.
pub open spec fn read_as_option(args: Seq<Seq<char>>, i: int, k: int) -> bool
    decreases args.len() + 1 - i,
{
    if i < 0 || i >= args.len() {
        false
    } else if k == i {
        true
    } else if args[i] == "--no-browser"@ {
        read_as_option(args, i + 1, k)
    } else if is_known_option(args[i]) {
        read_as_option(args, i + 2, k)
    } else {
        false
    }
}

/// Law (what the command line decides): the command line is refused as
/// unsupported exactly when an argument read as an option is none of the
/// four; otherwise the browser is opened unless `--no-browser` is read as
/// an option, and the pipe name or token is missing when its option is not
/// read at all.
pub proof fn law_command_line(args: Seq<Seq<char>>)
    ensures
        parse_arguments_from(args, 0, None, None, true, None) is None <==> exists|k: int|
            #![trigger read_as_option(args, 0, k)]
            0 <= k < args.len() && read_as_option(args, 0, k) && !is_known_option(args[k]),
        parse_arguments_from(args, 0, None, None, true, None) matches Some(p) ==> {
            &&& !p.2 <==> exists|k: int|
                #![trigger read_as_option(args, 0, k)]
                0 <= k < args.len() && read_as_option(args, 0, k) && args[k] == "--no-browser"@
            &&& (forall|k: int|
                #![trigger read_as_option(args, 0, k)]
                0 <= k < args.len() && read_as_option(args, 0, k) ==> args[k] != "--pipe-name"@)
                ==> p.0 is None
            &&& (forall|k: int|
                #![trigger read_as_option(args, 0, k)]
                0 <= k < args.len() && read_as_option(args, 0, k) ==> args[k] != "--pipe-token"@)
                ==> p.1 is None
        },
{
    lemma_command_line_from(args, 0, None, None, true, None);
}

/// The four options are different words.
proof fn lemma_options_distinct()
    ensures
        "--pipe-name"@ != "--pipe-token"@,
        "--pipe-name"@ != "--no-browser"@,
        "--pipe-name"@ != "--arma-root"@,
        "--pipe-token"@ != "--no-browser"@,
        "--pipe-token"@ != "--arma-root"@,
        "--no-browser"@ != "--arma-root"@,
{
    reveal_strlit("--pipe-name");
    reveal_strlit("--pipe-token");
    reveal_strlit("--no-browser");
    reveal_strlit("--arma-root");
    assert("--pipe-name"@.len() == 11 && "--arma-root"@.len() == 11);
    assert("--pipe-token"@.len() == 12 && "--no-browser"@.len() == 12);
    assert("--pipe-name"@[2] == 'p' && "--arma-root"@[2] == 'a');
    assert("--pipe-token"@[2] == 'p' && "--no-browser"@[2] == 'n');
}

proof fn lemma_command_line_from(
    args: Seq<Seq<char>>,
    i: int,
    name: Option<Seq<char>>,
    token: Option<Seq<char>>,
    open_browser: bool,
    root: Option<Seq<char>>,
)
    requires
        0 <= i,
    ensures
        parse_arguments_from(args, i, name, token, open_browser, root) is None <==> exists|k: int|
            #![trigger read_as_option(args, i, k)]
            0 <= k < args.len() && read_as_option(args, i, k) && !is_known_option(args[k]),
        parse_arguments_from(args, i, name, token, open_browser, root) matches Some(p) ==> {
            &&& p.2 == (open_browser && !exists|k: int|
                #![trigger read_as_option(args, i, k)]
                0 <= k < args.len() && read_as_option(args, i, k) && args[k] == "--no-browser"@)
            &&& (forall|k: int|
                #![trigger read_as_option(args, i, k)]
                0 <= k < args.len() && read_as_option(args, i, k) ==> args[k] != "--pipe-name"@)
                ==> p.0 == name
            &&& (forall|k: int|
                #![trigger read_as_option(args, i, k)]
                0 <= k < args.len() && read_as_option(args, i, k) ==> args[k] != "--pipe-token"@)
                ==> p.1 == token
        },
    decreases args.len() + 1 - i,
{
    lemma_options_distinct();
    if i >= args.len() {
        assert forall|k: int| !read_as_option(args, i, k) by {}
    } else {
        let a = args[i];
        let value = if i + 1 < args.len() {
            Some(args[i + 1])
        } else {
            None
        };
        assert(read_as_option(args, i, i));
        if is_known_option(a) {
            let next = if a == "--no-browser"@ {
                i + 1
            } else {
                i + 2
            };
            assert forall|k: int|
                #![trigger read_as_option(args, i, k)]
                #![trigger read_as_option(args, next, k)]
                read_as_option(args, i, k) == (k == i || read_as_option(args, next, k)) by {}
            if a == "--pipe-name"@ {
                assert(parse_arguments_from(args, i, name, token, open_browser, root)
                    == parse_arguments_from(args, next, value, token, open_browser, root));
                lemma_command_line_from(args, next, value, token, open_browser, root);
            } else if a == "--pipe-token"@ {
                lemma_command_line_from(args, next, name, value, open_browser, root);
            } else if a == "--no-browser"@ {
                lemma_command_line_from(args, next, name, token, false, root);
            } else {
                lemma_command_line_from(args, next, name, token, open_browser, value);
            }
            if parse_arguments_from(args, i, name, token, open_browser, root) is None {
                let k = choose|k: int|
                    #![trigger read_as_option(args, next, k)]
                    0 <= k < args.len() && read_as_option(args, next, k) && !is_known_option(args[k]);
                assert(read_as_option(args, i, k));
            }
        }
    }
}

/// `parse_options`: reads the companion's command line.
pub fn parse_options(arguments: &Vec<String>) -> (r: Result<CompanionOptions, String>)
    ensures
        ({
            let parsed = parse_arguments_from(string_views(arguments@), 0, None, None, true, None);
            match r {
                Ok(o) => parsed matches Some((Some(n), Some(t), b, root)) && o.pipe_name@ == n
                    && o.pipe_token@ == t && o.open_browser == b && match (o.arma_root, root) {
                    (Some(x), Some(y)) => x@ == y,
                    (None, None) => true,
                    _ => false,
                },
                Err(m) => {
                    ||| parsed is None && m@ == "unsupported command-line option"@
                    ||| parsed matches Some((None, _, _, _)) && m@ == "missing --pipe-name"@
                    ||| parsed matches Some((Some(_), None, _, _)) && m@
                        == "missing --pipe-token"@
                },
            }
        }),
{
    let ghost args = string_views(arguments@);
    let mut pipe_name: Option<String> = None;
    let mut pipe_token: Option<String> = None;
    let mut open_browser = true;
    let mut arma_root: Option<String> = None;
    let mut i: usize = 0;
    proof {
        reveal_strlit("--pipe-name");
        reveal_strlit("--pipe-token");
        reveal_strlit("--no-browser");
        reveal_strlit("--arma-root");
    }
    while i < arguments.len()
        invariant
            args == string_views(arguments@),
            i <= arguments.len() + 1,
            parse_arguments_from(args, 0, None, None, true, None) == parse_arguments_from(
                args,
                i as int,
                opt_view(pipe_name),
                opt_view(pipe_token),
                open_browser,
                opt_view(arma_root),
            ),
        decreases arguments.len() + 1 - i,
    {
        let argument = arguments[i].as_str();
        let has_value = i + 1 < arguments.len();
        let value: Option<String> = if has_value {
            Some(clone_string(&arguments[i + 1]))
        } else {
            None
        };
        let after_value = if has_value {
            i + 2
        } else {
            arguments.len()
        };
        assert(args[i as int] == argument@);
        let ghost cur_name = opt_view(pipe_name);
        let ghost cur_token = opt_view(pipe_token);
        let ghost cur_root = opt_view(arma_root);
        let ghost vview = opt_view(value);
        assert(vview == (if i + 1 < args.len() { Some(args[i + 1]) } else { None }));
        if str_eq(argument, "--pipe-name") {
            assert(parse_arguments_from(args, i as int, cur_name, cur_token, open_browser, cur_root)
                == parse_arguments_from(args, i + 2, vview, cur_token, open_browser, cur_root));
            assert(parse_arguments_from(args, i + 2, vview, cur_token, open_browser, cur_root)
                == parse_arguments_from(args, after_value as int, vview, cur_token, open_browser, cur_root));
            pipe_name = value;
            i = after_value;
        } else if str_eq(argument, "--pipe-token") {
            assert(parse_arguments_from(args, i as int, cur_name, cur_token, open_browser, cur_root)
                == parse_arguments_from(args, i + 2, cur_name, vview, open_browser, cur_root));
            assert(parse_arguments_from(args, i + 2, cur_name, vview, open_browser, cur_root)
                == parse_arguments_from(args, after_value as int, cur_name, vview, open_browser, cur_root));
            pipe_token = value;
            i = after_value;
        } else if str_eq(argument, "--no-browser") {
            assert(parse_arguments_from(args, i as int, cur_name, cur_token, open_browser, cur_root)
                == parse_arguments_from(args, i + 1, cur_name, cur_token, false, cur_root));
            open_browser = false;
            i = i + 1;
        } else if str_eq(argument, "--arma-root") {
            assert(parse_arguments_from(args, i as int, cur_name, cur_token, open_browser, cur_root)
                == parse_arguments_from(args, i + 2, cur_name, cur_token, open_browser, vview));
            assert(parse_arguments_from(args, i + 2, cur_name, cur_token, open_browser, vview)
                == parse_arguments_from(args, after_value as int, cur_name, cur_token, open_browser, vview));
            arma_root = value;
            i = after_value;
        } else {
            proof {
                reveal_strlit("unsupported command-line option");
            }
            return Err(lit("unsupported command-line option"));
        }
    }
    match (pipe_name, pipe_token) {
        (Some(name), Some(token)) => Ok(
            CompanionOptions { pipe_name: name, pipe_token: token, open_browser, arma_root },
        ),
        (None, _) => Err(lit("missing --pipe-name")),
        (Some(_), None) => Err(lit("missing --pipe-token")),
    }
}

// ---------------------------------------------------------------------------
// Heartbeat supervision
// ---------------------------------------------------------------------------

/// `heartbeat_expired`: at least the heartbeat timeout has passed since the
/// last heartbeat; an instant before the heartbeat counts as no time.
pub fn heartbeat_expired(last_nanos: u64, now_nanos: u64) -> (r: bool)
    ensures
        r == (now_nanos >= last_nanos && now_nanos - last_nanos >= HEARTBEAT_TIMEOUT_NANOS),
{
    now_nanos.saturating_sub(last_nanos) >= HEARTBEAT_TIMEOUT_NANOS
}

/// What the heartbeat watchdog decides at one check.
#[derive(Debug, Clone, Copy, PartialEq, Eq)]
pub enum WatchdogDecision {
    KeepRunning,
    HeartbeatTimeout,
    StartupIdle,
}

/// What the watchdog decides at a check at `now`: stop when the last
/// heartbeat is [`HEARTBEAT_TIMEOUT_NANOS`] old, or, without any heartbeat,
/// when the companion has run [`STARTUP_IDLE_TIMEOUT_NANOS`].
pub open spec fn watchdog_spec(last_heartbeat: Option<u64>, now: u64, started: u64) -> WatchdogDecision {
    match last_heartbeat {
        Some(last) => if now >= last && now - last >= HEARTBEAT_TIMEOUT_NANOS {
            WatchdogDecision::HeartbeatTimeout
        } else {
            WatchdogDecision::KeepRunning
        },
        None => if now >= started && now - started >= STARTUP_IDLE_TIMEOUT_NANOS {
            WatchdogDecision::StartupIdle
        } else {
            WatchdogDecision::KeepRunning
        },
    }
}

/// The watchdog's check: stop after the heartbeat timeout once a heartbeat
/// was seen, or after the startup idle timeout when none was.
pub fn watchdog_decision(last_heartbeat: Option<u64>, now_nanos: u64, started_nanos: u64) -> (r:
    WatchdogDecision)
    ensures
        r == watchdog_spec(last_heartbeat, now_nanos, started_nanos),
{
    match last_heartbeat {
        Some(last) => {
            if heartbeat_expired(last, now_nanos) {
                WatchdogDecision::HeartbeatTimeout
            } else {
                WatchdogDecision::KeepRunning
            }
        },
        None => {
            if now_nanos.saturating_sub(started_nanos) >= STARTUP_IDLE_TIMEOUT_NANOS {
                WatchdogDecision::StartupIdle
            } else {
                WatchdogDecision::KeepRunning
            }
        },
    }
}

/// The connection state shown in diagnostics: `live` while the last
/// heartbeat is younger than the heartbeat timeout.
pub fn connection_state(update_age_millis: Option<u64>) -> (r: &'static str)
    ensures
        r@ == connection_spec(update_age_millis),
{
    match update_age_millis {
        Some(age) => if age < HEARTBEAT_TIMEOUT_MILLIS {
            "live"
        } else {
            "waiting"
        },
        None => "waiting",
    }
}

/// Milliseconds since the last heartbeat, if one arrived; a heartbeat
/// stamped after `now_nanos` counts as just now.
pub fn update_age_millis(last_heartbeat: Option<u64>, now_nanos: u64) -> (r: Option<u64>)
    ensures
        r == match last_heartbeat {
            Some(last) => Some(
                (if now_nanos >= last {
                    ((now_nanos - last) / 1_000_000) as u64
                } else {
                    0u64
                }),
            ),
            None => None,
        },
{
    match last_heartbeat {
        Some(last) => Some(now_nanos.saturating_sub(last) / 1_000_000),
        None => None,
    }
}

// ---------------------------------------------------------------------------
// Diagnostics
// ---------------------------------------------------------------------------

/// A privacy-safe diagnostic event.
#[derive(Debug, Clone, Copy, PartialEq, Eq)]
pub enum DiagnosticEvent {
    CompanionStarted,
    BrowserOpened,
    BrowserOpenFailed,
    MissionReady,
    InvalidPipeFrameRejected,
    WebsocketResynchronized,
    HeartbeatTimeoutShutdown,
    StartupIdleShutdown,
}

/// The name of a diagnostic event in the diagnostics report.
pub open spec fn diagnostic_name(event: DiagnosticEvent) -> Seq<char> {
    match event {
        DiagnosticEvent::CompanionStarted => "companion_started"@,
        DiagnosticEvent::BrowserOpened => "browser_opened"@,
        DiagnosticEvent::BrowserOpenFailed => "browser_open_failed"@,
        DiagnosticEvent::MissionReady => "mission_ready"@,
        DiagnosticEvent::InvalidPipeFrameRejected => "invalid_pipe_frame_rejected"@,
        DiagnosticEvent::WebsocketResynchronized => "websocket_resynchronized"@,
        DiagnosticEvent::HeartbeatTimeoutShutdown => "heartbeat_timeout_shutdown"@,
        DiagnosticEvent::StartupIdleShutdown => "startup_idle_shutdown"@,
    }
}

impl DiagnosticEvent {
    /// The event's name in the diagnostics report.
    pub fn name(&self) -> (r: &'static str)
        ensures
            r@ == diagnostic_name(*self),
    {
        match self {
            DiagnosticEvent::CompanionStarted => "companion_started",
            DiagnosticEvent::BrowserOpened => "browser_opened",
            DiagnosticEvent::BrowserOpenFailed => "browser_open_failed",
            DiagnosticEvent::MissionReady => "mission_ready",
            DiagnosticEvent::InvalidPipeFrameRejected => "invalid_pipe_frame_rejected",
            DiagnosticEvent::WebsocketResynchronized => "websocket_resynchronized",
            DiagnosticEvent::HeartbeatTimeoutShutdown => "heartbeat_timeout_shutdown",
            DiagnosticEvent::StartupIdleShutdown => "startup_idle_shutdown",
        }
    }
}

/// The most recent diagnostic events, oldest first, at most
/// [`MAX_DIAGNOSTIC_EVENTS`].
pub struct DiagnosticLog {
    events: Vec<DiagnosticEvent>,
}

impl View for DiagnosticLog {
    type V = Seq<DiagnosticEvent>;

    closed spec fn view(&self) -> Seq<DiagnosticEvent> {
        self.events@
    }
}

impl DiagnosticLog {
    /// The log holds at most [`MAX_DIAGNOSTIC_EVENTS`] events.
    #[verifier::type_invariant]
    spec fn bounded(self) -> bool {
        self.events@.len() <= MAX_DIAGNOSTIC_EVENTS
    }

    /// A log that holds only `first`.
    pub fn new(first: DiagnosticEvent) -> (r: DiagnosticLog)
        ensures
            r@ == seq![first],
    {
        let mut events = Vec::new();
        events.push(first);
        DiagnosticLog { events }
    }

    /// Appends `event`, dropping the oldest event when
    /// the log is full.
    pub fn record(&mut self, event: DiagnosticEvent)
        ensures
            final(self)@.len() <= MAX_DIAGNOSTIC_EVENTS,
            final(self)@ == (if old(self)@.len() == MAX_DIAGNOSTIC_EVENTS {
                old(self)@.drop_first().push(event)
            } else {
                old(self)@.push(event)
            }),
    {
        proof {
            use_type_invariant(&*self);
        }
        let mut events: Vec<DiagnosticEvent> = Vec::new();
        std::mem::swap(&mut events, &mut self.events);
        if events.len() == MAX_DIAGNOSTIC_EVENTS {
            events.remove(0);
        }
        events.push(event);
        self.events = events;
    }

    /// The events, oldest first: at most [`MAX_DIAGNOSTIC_EVENTS`] of them.
    pub fn events(&self) -> (r: Vec<DiagnosticEvent>)
        ensures
            r@ == self@,
            r@.len() <= MAX_DIAGNOSTIC_EVENTS,
    {
        proof {
            use_type_invariant(self);
        }
        let mut out = Vec::new();
        let mut i: usize = 0;
        while i < self.events.len()
            invariant
                i <= self.events.len(),
                out@ == self.events@.take(i as int),
            decreases self.events.len() - i,
        {
            out.push(self.events[i]);
            i = i + 1;
        }
        assert(self.events@.take(self.events@.len() as int) =~= self.events@);
        out
    }
}

/// Law (bounded diagnostics): however many events are recorded, the log
/// keeps at most [`MAX_DIAGNOSTIC_EVENTS`] of them and the newest one is
/// last.
pub proof fn law_diagnostics_bounded(before: Seq<DiagnosticEvent>, event: DiagnosticEvent)
    requires
        before.len() <= MAX_DIAGNOSTIC_EVENTS,
    ensures
        ({
            let after = if before.len() == MAX_DIAGNOSTIC_EVENTS {
                before.drop_first().push(event)
            } else {
                before.push(event)
            };
            after.len() <= MAX_DIAGNOSTIC_EVENTS && after.last() == event && after.drop_last()
                == (if before.len() == MAX_DIAGNOSTIC_EVENTS {
                before.drop_first()
            } else {
                before
            })
        }),
{
    if before.len() == MAX_DIAGNOSTIC_EVENTS {
        assert(before.drop_first().push(event).drop_last() =~= before.drop_first());
    } else {
        assert(before.push(event).drop_last() =~= before);
    }
}

// ---------------------------------------------------------------------------
// Tokens
// ---------------------------------------------------------------------------

/// Compares two byte strings with `subtle`'s constant-time slice equality.
#[verifier::external_body]
fn bytes_ct_eq(left: &[u8], right: &[u8]) -> (r: bool)
    ensures
        r == (left@ == right@),
{
    bool::from(left.ct_eq(right))
}

/// `constant_time_equal`: equal strings, compared without an early exit on
/// the first differing byte.
pub fn constant_time_equal(left: &str, right: &str) -> (r: bool)
    ensures
        r == (left@ == right@),
{
    let l = left.as_bytes();
    let rb = right.as_bytes();
    if l.len() != rb.len() {
        proof {
            if left@ == right@ {
                assert(l@ == rb@);
            }
        }
        return false;
    }
    let equal = bytes_ct_eq(l, rb);
    proof {
        if equal {
            vstd::utf8::encode_utf8_decode_utf8(left@);
            vstd::utf8::encode_utf8_decode_utf8(right@);
        }
    }
    equal
}

#[verifier::external_type_specification]
#[verifier::external_body]
pub struct ExRandomError(getrandom::Error);

/// `len` bytes from `getrandom::fill`, the operating system's
/// cryptographic random source. Nothing is promised of the bytes beyond
/// their number.
#[verifier::external_body]
pub(crate) fn random_bytes(len: usize) -> (r: Result<Vec<u8>, getrandom::Error>)
    ensures
        r matches Ok(bytes) ==> bytes@.len() == len,
{
    let mut buffer = vec![0u8; len];
    getrandom::fill(&mut buffer).map(|()| buffer)
}

/// The `Display` text of a random-source error.
#[verifier::external_body]
pub(crate) fn random_error_text(error: &getrandom::Error) -> String {
    error.to_string()
}

/// The lower-case hexadecimal digit of `n`.
pub open spec fn hex_digit(n: u8) -> char {
    if n < 10 {
        ((n as u32) + 48) as char
    } else {
        ((n as u32) + 87) as char
    }
}

/// Two lower-case hexadecimal digits per byte, most significant first.
pub open spec fn hex_lower(bytes: Seq<u8>) -> Seq<char>
    decreases bytes.len(),
{
    if bytes.len() == 0 {
        Seq::empty()
    } else {
        hex_lower(bytes.drop_last()) + seq![hex_digit(bytes.last() / 16), hex_digit(bytes.last() % 16)]
    }
}

fn hex_digit_char(n: u8) -> (r: char)
    requires
        n < 16,
    ensures
        r == hex_digit(n),
{
    if n < 10 {
        (n + 48) as char
    } else {
        (n + 87) as char
    }
}

/// `{byte:02x}` for each byte, concatenated.
pub fn encode_hex(bytes: &Vec<u8>) -> (r: String)
    ensures
        r@ == hex_lower(bytes@),
{
    let mut out = String::new();
    let mut i: usize = 0;
    while i < bytes.len()
        invariant
            i <= bytes.len(),
            out@ == hex_lower(bytes@.take(i as int)),
        decreases bytes.len() - i,
    {
        let b = bytes[i];
        push_char(&mut out, hex_digit_char(b / 16));
        push_char(&mut out, hex_digit_char(b % 16));
        proof {
            let t = bytes@.take(i + 1);
            assert(t.drop_last() =~= bytes@.take(i as int));
            assert(t.last() == b);
            assert(out@ =~= hex_lower(t));
        }
        i = i + 1;
    }
    assert(bytes@.take(bytes@.len() as int) =~= bytes@);
    out
}

/// `random_hex`: `bytes` random bytes in lower-case hexadecimal, or the
/// random source's error.
pub fn random_hex(bytes: usize) -> (r: Result<String, CompanionError>)
    ensures
        r matches Ok(s) ==> exists|raw: Seq<u8>| raw.len() == bytes && s@ == hex_lower(raw),
        r matches Err(e) ==> e is RandomSource,
{
    match random_bytes(bytes) {
        Ok(random) => {
            let s = encode_hex(&random);
            assert(random@.len() == bytes && s@ == hex_lower(random@));
            Ok(s)
        },
        Err(error) => Err(CompanionError::RandomSource(random_error_text(&error))),
    }
}

/// The loopback URL that opens the browser on the session:
/// `http://{address}/#token={token}`.
pub fn browser_url(address: &str, token: &str) -> (r: String)
    ensures
        r@ == "http://"@ + address@ + "/#token="@ + token@,
{
    let mut out = String::new();
    out.append("http://");
    out.append(address);
    out.append("/#token=");
    out.append(token);
    out
}

/// `http://{address}`, the only origin allowed to open the WebSocket.
pub fn expected_origin(address: &str) -> (r: String)
    ensures
        r@ == "http://"@ + address@,
{
    let mut out = String::new();
    out.append("http://");
    out.append(address);
    out
}

// ---------------------------------------------------------------------------
// Static assets
// ---------------------------------------------------------------------------

/// The kinds of embedded assets.
#[derive(Debug, Clone, Copy, PartialEq, Eq)]
pub enum PathExtension {
    Html,
    JavaScript,
    Css,
    Png,
    Svg,
    Other,
}

impl PathExtension {
    /// The kind of `path`, by its extension.
    pub fn of(path: &str) -> (r: PathExtension)
        ensures
            r == (if has_suffix(path@, ".html"@) {
                PathExtension::Html
            } else if has_suffix(path@, ".js"@) {
                PathExtension::JavaScript
            } else if has_suffix(path@, ".css"@) {
                PathExtension::Css
            } else if has_suffix(path@, ".png"@) {
                PathExtension::Png
            } else if has_suffix(path@, ".svg"@) {
                PathExtension::Svg
            } else {
                PathExtension::Other
            }),
    {
        if ends_with(path, ".html") {
            PathExtension::Html
        } else if ends_with(path, ".js") {
            PathExtension::JavaScript
        } else if ends_with(path, ".css") {
            PathExtension::Css
        } else if ends_with(path, ".png") {
            PathExtension::Png
        } else if ends_with(path, ".svg") {
            PathExtension::Svg
        } else {
            PathExtension::Other
        }
    }
}

/// The media type of an embedded asset.
pub open spec fn content_type_of(kind: PathExtension) -> Seq<char> {
    match kind {
        PathExtension::Html => "text/html; charset=utf-8"@,
        PathExtension::JavaScript => "text/javascript; charset=utf-8"@,
        PathExtension::Css => "text/css; charset=utf-8"@,
        PathExtension::Png => "image/png"@,
        PathExtension::Svg => "image/svg+xml"@,
        PathExtension::Other => "application/octet-stream"@,
    }
}

/// `content_type_for`: the media type of the asset at `path`.
pub fn content_type_for(path: &str) -> (r: &'static str)
    ensures
        ({
            let kind = if has_suffix(path@, ".html"@) {
                PathExtension::Html
            } else if has_suffix(path@, ".js"@) {
                PathExtension::JavaScript
            } else if has_suffix(path@, ".css"@) {
                PathExtension::Css
            } else if has_suffix(path@, ".png"@) {
                PathExtension::Png
            } else if has_suffix(path@, ".svg"@) {
                PathExtension::Svg
            } else {
                PathExtension::Other
            };
            r@ == content_type_of(kind)
        }),
{
    match PathExtension::of(path) {
        PathExtension::Html => "text/html; charset=utf-8",
        PathExtension::JavaScript => "text/javascript; charset=utf-8",
        PathExtension::Css => "text/css; charset=utf-8",
        PathExtension::Png => "image/png",
        PathExtension::Svg => "image/svg+xml",
        PathExtension::Other => "application/octet-stream",
    }
}

/// `s` without its leading `/` characters.
pub open spec fn trim_leading_slashes(s: Seq<char>) -> Seq<char>
    decreases s.len(),
{
    if s.len() > 0 && s[0] == '/' {
        trim_leading_slashes(s.drop_first())
    } else {
        s
    }
}

/// `needle` occurs in `s`.
pub open spec fn contains_seq(s: Seq<char>, needle: Seq<char>) -> bool {
    exists|i: int| 0 <= i && i + needle.len() <= s.len() && #[trigger] s.subrange(i, i + needle.len()) == needle
}

/// The embedded asset a request path names: the path without leading `/`,
/// `index.html` for the root, and nothing for a path with `..`, `\` or NUL.
pub open spec fn asset_path_spec(uri_path: Seq<char>) -> Option<Seq<char>> {
    let requested = trim_leading_slashes(uri_path);
    let path = if requested.len() == 0 {
        "index.html"@
    } else {
        requested
    };
    if contains_seq(path, ".."@) || path.contains('\\') || path.contains('\0') {
        None
    } else {
        Some(path)
    }
}

proof fn lemma_trim_slashes(s: Seq<char>, i: int)
    requires
        0 <= i <= s.len(),
        forall|k: int| 0 <= k < i ==> #[trigger] s[k] == '/',
        i == s.len() || s[i] != '/',
    ensures
        trim_leading_slashes(s) == s.skip(i),
    decreases i,
{
    if i > 0 {
        lemma_trim_slashes(s.drop_first(), i - 1);
        assert(s.drop_first().skip(i - 1) =~= s.skip(i));
    } else {
        assert(s.skip(0) =~= s);
    }
}

/// Whether `..` occurs in `chars`.
fn has_double_dot(chars: &Vec<char>) -> (r: bool)
    ensures
        r == contains_seq(chars@, ".."@),
{
    proof {
        reveal_strlit("..");
    }
    if chars.len() < 2 {
        assert forall|k: int|
            0 <= k && k + 2 <= chars@.len() implies #[trigger] chars@.subrange(k, k + 2) != ".."@ by {}
        return false;
    }
    let mut i: usize = 0;
    while i < chars.len() - 1
        invariant
            chars.len() >= 2,
            ".."@ == seq!['.', '.'],
            forall|k: int|
                0 <= k < i && k + 1 < chars@.len() ==> !(#[trigger] chars@[k] == '.' && chars@[k
                    + 1] == '.'),
        decreases chars.len() - i,
    {
        if chars[i] == '.' && chars[i + 1] == '.' {
            assert(chars@.subrange(i as int, i + 2) =~= ".."@);
            return true;
        }
        i = i + 1;
    }
    assert forall|k: int|
        0 <= k && k + 2 <= chars@.len() implies #[trigger] chars@.subrange(k, k + 2) != ".."@ by {
        assert(chars@.subrange(k, k + 2)[0] == chars@[k]);
        assert(chars@.subrange(k, k + 2)[1] == chars@[k + 1]);
    }
    false
}

/// `static_asset`'s choice of the embedded file for a request path.
pub fn asset_path(uri_path: &str) -> (r: Option<String>)
    ensures
        match r {
            Some(p) => asset_path_spec(uri_path@) == Some(p@),
            None => asset_path_spec(uri_path@) is None,
        },
{
    let chars = chars_of(uri_path);
    let mut start: usize = 0;
    while start < chars.len() && chars[start] == '/'
        invariant
            chars@ == uri_path@,
            start <= chars.len(),
            forall|k: int| 0 <= k < start ==> #[trigger] chars@[k] == '/',
        decreases chars.len() - start,
    {
        start = start + 1;
    }
    proof {
        lemma_trim_slashes(chars@, start as int);
    }
    let path = if start == chars.len() {
        proof {
            reveal_strlit("index.html");
        }
        chars_of("index.html")
    } else {
        let s = string_from_range(&chars, start, chars.len());
        assert(s@ =~= chars@.skip(start as int));
        chars_of(s.as_str())
    };
    let text = string_from_range(&path, 0, path.len());
    assert(path@.subrange(0, path@.len() as int) =~= path@);
    if has_double_dot(&path) || contains_char(text.as_str(), '\\') || contains_char(
        text.as_str(),
        '\0',
    ) {
        None
    } else {
        Some(text)
    }
}

// ---------------------------------------------------------------------------
// Lookups in the stored snapshot
// ---------------------------------------------------------------------------

/// The name of an edition in diagnostics.
pub fn edition_name(edition: CtabEdition) -> (r: &'static str)
    ensures
        r@ == match edition {
            CtabEdition::Absent => "none"@,
            CtabEdition::Original => "original"@,
            CtabEdition::Devastator => "devastator"@,
            CtabEdition::Unsupported => "unsupported"@,
        },
{
    match edition {
        CtabEdition::Absent => "none",
        CtabEdition::Original => "original",
        CtabEdition::Devastator => "devastator",
        CtabEdition::Unsupported => "unsupported",
    }
}

/// The edition and terrain name that `companion_status` reports: those of
/// the stored snapshot, or `none` and no terrain; an empty terrain name is
/// reported as no terrain.
pub open spec fn status_summary_spec(
    current: Option<Envelope>,
    edition: Seq<char>,
    terrain: Option<Seq<char>>,
) -> bool {
    match current {
        Some(e) => match e.message {
            TacticalMessage::SessionSnapshot(s) => {
                &&& edition == match s.ctab_edition {
                    CtabEdition::Absent => "none"@,
                    CtabEdition::Original => "original"@,
                    CtabEdition::Devastator => "devastator"@,
                    CtabEdition::Unsupported => "unsupported"@,
                }
                &&& match terrain {
                    Some(t) => t == s.terrain.display_name@ && t.len() > 0,
                    None => s.terrain.display_name@.len() == 0,
                }
            },
            _ => edition == "none"@ && terrain is None,
        },
        None => edition == "none"@ && terrain is None,
    }
}

/// The edition and terrain name of the stored snapshot, as
/// [`status_summary_spec`] says.
pub fn status_summary(current: &Option<Envelope>) -> (r: (&'static str, Option<String>))
    ensures
        status_summary_spec(*current, r.0@, opt_view(r.1)),
{
    match current {
        Some(envelope) => match &envelope.message {
            TacticalMessage::SessionSnapshot(snapshot) => {
                let edition = edition_name(snapshot.ctab_edition);
                if snapshot.terrain.display_name.as_str().is_empty() {
                    (edition, None)
                } else {
                    (edition, Some(clone_string(&snapshot.terrain.display_name)))
                }
            },
            _ => ("none", None),
        },
        None => ("none", None),
    }
}

/// The icon slot of an entity icon request.
#[derive(Debug, Clone, Copy, PartialEq, Eq)]
pub enum IconSlot {
    Primary,
    Overlay,
}

/// The slot that a request path segment names: `primary` or `overlay`.
pub fn icon_slot(segment: &str) -> (r: Option<IconSlot>)
    ensures
        r == (if segment@ == "primary"@ {
            Some(IconSlot::Primary)
        } else if segment@ == "overlay"@ {
            Some(IconSlot::Overlay)
        } else {
            None
        }),
{
    if str_eq(segment, "primary") {
        Some(IconSlot::Primary)
    } else if str_eq(segment, "overlay") {
        Some(IconSlot::Overlay)
    } else {
        None
    }
}

/// The entities of the stored snapshot, if one is stored.
pub open spec fn stored_entities(current: Option<Envelope>) -> Option<Seq<crate::protocol::TacticalEntity>> {
    match current {
        Some(e) => match e.message {
            TacticalMessage::SessionSnapshot(s) => Some(s.entities@),
            _ => None,
        },
        None => None,
    }
}

/// The markers of the stored snapshot, if one is stored.
pub open spec fn stored_markers(current: Option<Envelope>) -> Option<Seq<crate::protocol::TacticalMarker>> {
    match current {
        Some(e) => match e.message {
            TacticalMessage::SessionSnapshot(s) => Some(s.markers@),
            _ => None,
        },
        None => None,
    }
}

/// The icon path of an entity in a slot.
pub open spec fn slot_path(e: crate::protocol::TacticalEntity, slot: IconSlot) -> Seq<char> {
    match slot {
        IconSlot::Primary => e.icon_path@,
        IconSlot::Overlay => e.overlay_icon_path@,
    }
}

/// `i` is the first entity of `s` with identifier `id`.
pub open spec fn is_first_entity_with_id(s: Seq<crate::protocol::TacticalEntity>, id: Seq<char>, i: int) -> bool {
    &&& 0 <= i < s.len()
    &&& s[i].id@ == id
    &&& forall|k: int| 0 <= k < i ==> (#[trigger] s[k]).id@ != id
}

/// The icon path that an entity icon request resolves to.
pub open spec fn entity_icon_spec(
    s: Seq<crate::protocol::TacticalEntity>,
    slot: IconSlot,
    id: Seq<char>,
) -> Option<Seq<char>> {
    if exists|i: int| is_first_entity_with_id(s, id, i) {
        let i = choose|i: int| is_first_entity_with_id(s, id, i);
        if slot_path(s[i], slot).len() > 0 {
            Some(slot_path(s[i], slot))
        } else {
            None
        }
    } else {
        None
    }
}

proof fn lemma_first_entity_unique(s: Seq<crate::protocol::TacticalEntity>, id: Seq<char>, i: int)
    requires
        is_first_entity_with_id(s, id, i),
    ensures
        (choose|j: int| is_first_entity_with_id(s, id, j)) == i,
{
    let j = choose|j: int| is_first_entity_with_id(s, id, j);
    assert(is_first_entity_with_id(s, id, j));
    if j < i {
        assert(s[j].id@ != id);
    } else if i < j {
        assert(s[i].id@ != id);
    }
}

/// `entity_icon`'s lookup: the first entity with identifier `entity_id`
/// supplies its primary or overlay icon path when that path is not empty.
pub fn entity_icon_path(current: &Option<Envelope>, slot: IconSlot, entity_id: &str) -> (r:
    Option<String>)
    ensures
        match stored_entities(*current) {
            None => r is None,
            Some(entities) => opt_view(r) == entity_icon_spec(entities, slot, entity_id@),
        },
{
    let envelope = match current {
        Some(e) => e,
        None => return None,
    };
    let snapshot = match &envelope.message {
        TacticalMessage::SessionSnapshot(s) => s,
        _ => return None,
    };
    let mut i: usize = 0;
    while i < snapshot.entities.len()
        invariant
            i <= snapshot.entities.len(),
            stored_entities(*current) == Some(snapshot.entities@),
            forall|k: int| 0 <= k < i ==> (#[trigger] snapshot.entities@[k]).id@ != entity_id@,
        decreases snapshot.entities.len() - i,
    {
        let entity = &snapshot.entities[i];
        if str_eq(entity.id.as_str(), entity_id) {
            proof {
                assert(is_first_entity_with_id(snapshot.entities@, entity_id@, i as int));
                lemma_first_entity_unique(snapshot.entities@, entity_id@, i as int);
            }
            let path = match slot {
                IconSlot::Primary => &entity.icon_path,
                IconSlot::Overlay => &entity.overlay_icon_path,
            };
            assert(path@ == slot_path(snapshot.entities@[i as int], slot));
            if path.as_str().is_empty() {
                return None;
            }
            return Some(clone_string(path));
        }
        i = i + 1;
    }
    assert(!exists|j: int| is_first_entity_with_id(snapshot.entities@, entity_id@, j));
    None
}

/// The icon path of a marker, primary or overlay.
pub open spec fn marker_slot_path(m: crate::protocol::TacticalMarker, overlay: bool) -> Seq<char> {
    if overlay {
        m.overlay_icon_path@
    } else {
        m.icon_path@
    }
}

/// Marker `m` has type `t` and a non-empty icon path in the slot.
pub open spec fn marker_serves(m: crate::protocol::TacticalMarker, t: Seq<char>, overlay: bool) -> bool {
    m.marker_type@ == t && marker_slot_path(m, overlay).len() > 0
}

/// The icon path that a marker icon request resolves to: that of the first
/// marker serving it.
pub open spec fn marker_icon_spec(s: Seq<crate::protocol::TacticalMarker>, t: Seq<char>, overlay: bool) -> Option<
    Seq<char>,
> {
    if exists|i: int| 0 <= i < s.len() && #[trigger] marker_serves(s[i], t, overlay) {
        let i = choose|i: int|
            0 <= i < s.len() && marker_serves(s[i], t, overlay) && forall|k: int|
                0 <= k < i ==> !#[trigger] marker_serves(s[k], t, overlay);
        Some(marker_slot_path(s[i], overlay))
    } else {
        None
    }
}

/// `marker_icon` and `marker_overlay_icon`'s lookup: the first marker of
/// type `marker_type` whose primary (or overlay) icon path is not empty
/// supplies that path.
pub fn marker_icon_path(current: &Option<Envelope>, marker_type: &str, overlay: bool) -> (r:
    Option<String>)
    ensures
        match stored_markers(*current) {
            None => r is None,
            Some(markers) => opt_view(r) == marker_icon_spec(markers, marker_type@, overlay),
        },
{
    let envelope = match current {
        Some(e) => e,
        None => return None,
    };
    let snapshot = match &envelope.message {
        TacticalMessage::SessionSnapshot(s) => s,
        _ => return None,
    };
    let mut i: usize = 0;
    while i < snapshot.markers.len()
        invariant
            i <= snapshot.markers.len(),
            stored_markers(*current) == Some(snapshot.markers@),
            forall|k: int|
                0 <= k < i ==> !#[trigger] marker_serves(snapshot.markers@[k], marker_type@, overlay),
        decreases snapshot.markers.len() - i,
    {
        let marker = &snapshot.markers[i];
        let path = if overlay {
            &marker.overlay_icon_path
        } else {
            &marker.icon_path
        };
        if str_eq(marker.marker_type.as_str(), marker_type) && !path.as_str().is_empty() {
            proof {
                let s = snapshot.markers@;
                let t = marker_type@;
                assert(marker_serves(s[i as int], t, overlay));
                let c = choose|c: int|
                    0 <= c < s.len() && marker_serves(s[c], t, overlay) && forall|k: int|
                        0 <= k < c ==> !#[trigger] marker_serves(s[k], t, overlay);
                assert(0 <= c < s.len() && marker_serves(s[c], t, overlay) && forall|k: int|
                    0 <= k < c ==> !#[trigger] marker_serves(s[k], t, overlay)) by {
                    assert(forall|k: int| 0 <= k < i ==> !#[trigger] marker_serves(s[k], t, overlay));
                }
                if c < i {
                } else if i < c {
                    assert(!marker_serves(s[i as int], t, overlay));
                }
            }
            return Some(clone_string(path));
        }
        proof {
            assert(!marker_serves(snapshot.markers@[i as int], marker_type@, overlay));
        }
        i = i + 1;
    }
    None
}

/// `active_terrain`: the stored snapshot's terrain when the player carries
/// a map and the requested world is that terrain, ignoring ASCII case.
pub fn active_terrain(current: &Option<Envelope>, requested_world_name: &str) -> (r: Option<
    TerrainInfo,
>)
    ensures
        match current {
            Some(e) => match e.message {
                TacticalMessage::SessionSnapshot(s) => if s.capabilities.map
                    && eq_ignore_ascii_case(s.terrain.world_name@, requested_world_name@) {
                    r matches Some(t) && t.world_name@ == s.terrain.world_name@
                        && t.display_name@ == s.terrain.display_name@ && t.world_size
                        == s.terrain.world_size
                } else {
                    r is None
                },
                _ => r is None,
            },
            None => r is None,
        },
{
    let envelope = match current {
        Some(e) => e,
        None => return None,
    };
    match &envelope.message {
        TacticalMessage::SessionSnapshot(snapshot) => {
            if !snapshot.capabilities.map {
                return None;
            }
            if eq_ignore_case(snapshot.terrain.world_name.as_str(), requested_world_name) {
                Some(
                    TerrainInfo {
                        world_name: clone_string(&snapshot.terrain.world_name),
                        display_name: clone_string(&snapshot.terrain.display_name),
                        world_size: snapshot.terrain.world_size,
                    },
                )
            } else {
                None
            }
        },
        _ => None,
    }
}

// ---------------------------------------------------------------------------
// Browser and pipe authentication
// ---------------------------------------------------------------------------

/// `websocket_session`'s authentication: the first message is a text of at
/// most [`MAX_AUTH_MESSAGE_BYTES`] bytes that parses as an `authenticate`
/// command carrying the browser token. `text_bytes` is the length of that
/// text and `command` the result of parsing it.
pub fn browser_authenticated(text_bytes: usize, command: &Option<BrowserCommand>, browser_token: &str) -> (r:
    bool)
    ensures
        r == (text_bytes <= MAX_AUTH_MESSAGE_BYTES && match command {
            Some(BrowserCommand::Authenticate { token }) => token@ == browser_token@,
            None => false,
        }),
{
    if text_bytes > MAX_AUTH_MESSAGE_BYTES {
        return false;
    }
    match command {
        Some(BrowserCommand::Authenticate { token }) => constant_time_equal(
            token.as_str(),
            browser_token,
        ),
        None => false,
    }
}

/// A pipe frame length announces a payload of 1 to [`MAX_FRAME_BYTES`]
/// bytes.
pub fn frame_length_ok(length: u32) -> (r: bool)
    ensures
        r == (0 < length && length <= MAX_FRAME_BYTES),
{
    length > 0 && (length as usize) <= MAX_FRAME_BYTES
}

// ---------------------------------------------------------------------------
// The companion's state machine
// ---------------------------------------------------------------------------

/// What the status page shows of the companion, apart from the cache sizes:
/// the connection state, the edition and terrain of the current mission,
/// the age of the last heartbeat and the diagnostic events. It holds no
/// token, and nothing of the mission's units, markers or positions.
pub struct StatusReport {
    pub connection: &'static str,
    pub edition: &'static str,
    pub terrain: Option<String>,
    pub update_age_ms: Option<u64>,
    pub diagnostics: Vec<DiagnosticEvent>,
}

/// The connection state for a heartbeat age: `live` while the last
/// heartbeat is younger than the heartbeat timeout, else `waiting`.
pub open spec fn connection_spec(update_age_millis: Option<u64>) -> Seq<char> {
    if update_age_millis matches Some(a) && a < HEARTBEAT_TIMEOUT_MILLIS {
        "live"@
    } else {
        "waiting"@
    }
}

/// The state that the pipe loop, the watchdog and the HTTP handlers share.
pub struct CompanionState {
    pub current: Option<Envelope>,
    pub diagnostics: DiagnosticLog,
    pub last_heartbeat: Option<u64>,
    pub browser_opened: bool,
    pub open_browser: bool,
}

/// What the pipe loop does after a publish frame.
#[derive(Debug, Clone, Copy, PartialEq, Eq)]
pub struct PublishOutcome {
    /// The envelope was accepted into the stored state.
    pub accepted: bool,
    /// The envelope goes to the connected browsers.
    pub forward: bool,
    /// The browser is to be opened now.
    pub open_browser: bool,
}

/// What publishing `envelope` at `now` does: `new` is the state after it
/// and `r` the answer. The envelope is accepted into the stored snapshot as
/// [`accepts`] and [`accepted_state`] say; a new mission is logged; an
/// accepted heartbeat refreshes the heartbeat time; the first accepted
/// snapshot opens the browser when that was asked for; and everything but
/// a heartbeat is forwarded to the browsers.
pub open spec fn publish_effect(
    old: CompanionState,
    envelope: Envelope,
    now: u64,
    new: CompanionState,
    r: PublishOutcome,
) -> bool {
    &&& r.accepted == accepts(old.current, envelope)
    &&& r.accepted ==> accepted_state(old.current, envelope, new.current)
    &&& !r.accepted ==> new.current == old.current
    &&& new.diagnostics@ == (if starts_mission(old.current, envelope) {
        (if old.diagnostics@.len() == MAX_DIAGNOSTIC_EVENTS {
            old.diagnostics@.drop_first()
        } else {
            old.diagnostics@
        }).push(DiagnosticEvent::MissionReady)
    } else {
        old.diagnostics@
    })
    &&& new.last_heartbeat == (if r.accepted && envelope.message is Heartbeat {
        Some(now)
    } else {
        old.last_heartbeat
    })
    &&& r.open_browser == (r.accepted && envelope.message is SessionSnapshot && old.open_browser
        && !old.browser_opened)
    &&& new.browser_opened == (old.browser_opened || (r.accepted && envelope.message is SessionSnapshot
        && old.open_browser))
    &&& r.forward == (r.accepted && !(envelope.message is Heartbeat))
    &&& new.open_browser == old.open_browser
}

/// What the companion does with a frame from the bridge.
#[derive(Debug, Clone, PartialEq)]
pub enum FrameAction {
    /// Nothing: the frame is not authenticated or its envelope is invalid.
    Ignore,
    /// Open the browser tab now, as the player asked.
    OpenBrowser,
    /// Publish this envelope, validated and in canonical form, with
    /// [`CompanionState::apply_publish`].
    Publish(Envelope),
}

/// Validates and canonicalizes a published envelope; a refused envelope is
/// dropped by the caller.
pub fn prepare_publish(envelope: Envelope) -> (r: Result<Envelope, ValidationError>)
    ensures
        match r {
            Ok(e) => envelope_check(envelope) is Ok && is_canonical_form(envelope, e),
            Err(err) => envelope_check(envelope) == Err::<(), ValidationError>(err),
        },
{
    match envelope.validate() {
        Ok(()) => {
            let mut canonical = envelope;
            canonicalize_envelope(&mut canonical);
            Ok(canonical)
        },
        Err(error) => Err(error),
    }
}

/// What the companion does with `frame` when its pipe token is
/// `pipe_token`: a frame with another token is ignored; an explicit browser
/// request opens a tab; a published envelope that passes validation is
/// published in canonical form, and one that fails is ignored.
pub open spec fn frame_action_spec(frame: BridgeFrame, pipe_token: Seq<char>, r: FrameAction) -> bool {
    if frame.pipe_token@ != pipe_token {
        r == FrameAction::Ignore
    } else {
        match frame.message {
            BridgeMessage::OpenBrowser => r == FrameAction::OpenBrowser,
            BridgeMessage::Publish { envelope } => match envelope_check(envelope) {
                Err(_) => r == FrameAction::Ignore,
                Ok(_) => (r matches FrameAction::Publish(e) && is_canonical_form(envelope, e)),
            },
        }
    }
}

/// `pipe_server_loop`, for one decoded frame: what [`frame_action_spec`]
/// says.
pub fn frame_action(frame: BridgeFrame, pipe_token: &str) -> (r: FrameAction)
    ensures
        frame_action_spec(frame, pipe_token@, r),
{
    if !constant_time_equal(frame.pipe_token.as_str(), pipe_token) {
        return FrameAction::Ignore;
    }
    match frame.message {
        BridgeMessage::OpenBrowser => FrameAction::OpenBrowser,
        BridgeMessage::Publish { envelope } => match prepare_publish(envelope) {
            Ok(canonical) => FrameAction::Publish(canonical),
            Err(_) => FrameAction::Ignore,
        },
    }
}

/// The state after the browser opener ran, successfully or not: the browser
/// counts as opened and the outcome is logged; nothing else changes.
pub open spec fn browser_open_effect(old: CompanionState, succeeded: bool, new: CompanionState) -> bool {
    &&& new.browser_opened
    &&& new.diagnostics@ == with_event(
        old.diagnostics@,
        if succeeded {
            DiagnosticEvent::BrowserOpened
        } else {
            DiagnosticEvent::BrowserOpenFailed
        },
    )
    &&& new.current == old.current
    &&& new.last_heartbeat == old.last_heartbeat
    &&& new.open_browser == old.open_browser
}

/// Law (only an accepted heartbeat from the bridge keeps the companion
/// alive): when a frame is handled as [`frame_action`],
/// [`CompanionState::apply_publish`] and
/// [`CompanionState::record_browser_open`] say, the heartbeat time changes only
/// for a frame with the companion's pipe token that publishes a heartbeat
/// which passes validation and is accepted; the time it is set to is the
/// time of handling. A frame with another token is ignored.
pub proof fn law_only_accepted_heartbeats_refresh(
    frame: BridgeFrame,
    pipe_token: Seq<char>,
    action: FrameAction,
    old: CompanionState,
    now: u64,
    new: CompanionState,
    r: PublishOutcome,
)
    requires
        frame_action_spec(frame, pipe_token, action),
        action matches FrameAction::Publish(e) ==> publish_effect(old, e, now, new, r),
        action is OpenBrowser ==> exists|succeeded: bool| browser_open_effect(old, succeeded, new),
        action is Ignore ==> new == old,
    ensures
        frame.pipe_token@ != pipe_token ==> action == FrameAction::Ignore,
        new.last_heartbeat != old.last_heartbeat ==> {
            &&& frame.pipe_token@ == pipe_token
            &&& frame.message matches BridgeMessage::Publish { envelope } && {
                &&& envelope.message is Heartbeat
                &&& envelope_check(envelope) is Ok
                &&& action matches FrameAction::Publish(e) && accepts(old.current, e)
            }
            &&& new.last_heartbeat == Some(now)
        },
{
}

/// `log` with `event` appended, the oldest event dropped when the log is
/// full.
pub open spec fn with_event(log: Seq<DiagnosticEvent>, event: DiagnosticEvent) -> Seq<DiagnosticEvent> {
    (if log.len() == MAX_DIAGNOSTIC_EVENTS {
        log.drop_first()
    } else {
        log
    }).push(event)
}

/// Whether the browser opens at a call of
/// [`CompanionState::open_browser_once`], given whether opening was asked
/// for and whether it has opened, and whether it has opened after the call.
pub open spec fn browser_open_step(enabled: bool, opened: bool) -> (bool, bool) {
    (enabled && !opened, opened || enabled)
}

/// Law (the browser opens at most once): over any run of calls of
/// [`CompanionState::open_browser_once`] (`opened[i]` before call `i`,
/// `results[i]` its answer), at most one call opens the browser, and none
/// does when opening was not asked for or had happened before the run.
pub proof fn law_browser_opens_at_most_once(enabled: bool, opened: Seq<bool>, results: Seq<bool>)
    requires
        opened.len() == results.len() + 1,
        forall|i: int|
            0 <= i < results.len() ==> (#[trigger] results[i], opened[i + 1]) == browser_open_step(
                enabled,
                opened[i],
            ),
    ensures
        forall|i: int, j: int| 0 <= i < j < results.len() ==> !(#[trigger] results[i] && #[trigger] results[j]),
        !enabled || opened[0] ==> forall|i: int| 0 <= i < results.len() ==> !#[trigger] results[i],
{
    assert forall|i: int, j: int| 0 <= i < j < results.len() implies !(#[trigger] results[i]
        && #[trigger] results[j]) by {
        if results[i] {
            assert(opened[i + 1]);
            if i + 1 < j {
                lemma_opened_stays(enabled, opened, results, i + 1, j);
            }
            assert(opened[j]);
        }
    }
    if !enabled || opened[0] {
        assert forall|i: int| 0 <= i < results.len() implies !#[trigger] results[i] by {
            if enabled && i > 0 {
                lemma_opened_stays(enabled, opened, results, 0, i);
            }
        }
    }
}

proof fn lemma_opened_stays(enabled: bool, opened: Seq<bool>, results: Seq<bool>, i: int, k: int)
    requires
        opened.len() == results.len() + 1,
        forall|i: int|
            0 <= i < results.len() ==> (#[trigger] results[i], opened[i + 1]) == browser_open_step(
                enabled,
                opened[i],
            ),
        0 <= i <= k <= results.len(),
        opened[i],
    ensures
        opened[k],
    decreases k - i,
{
    if i < k {
        assert((results[i], opened[i + 1]) == browser_open_step(enabled, opened[i]));
        lemma_opened_stays(enabled, opened, results, i + 1, k);
    }
}

impl CompanionState {
    /// A freshly started companion.
    pub fn new(open_browser: bool) -> (r: CompanionState)
        ensures
            r.current is None,
            r.diagnostics@ == seq![DiagnosticEvent::CompanionStarted],
            r.last_heartbeat is None,
            !r.browser_opened,
            r.open_browser == open_browser,
    {
        CompanionState {
            current: None,
            diagnostics: DiagnosticLog::new(DiagnosticEvent::CompanionStarted),
            last_heartbeat: None,
            browser_opened: false,
            open_browser,
        }
    }

    /// `open_browser_once`: the browser is opened for the first snapshot
    /// only, and only when the companion was started to open it.
    pub fn open_browser_once(&mut self) -> (r: bool)
        ensures
            r == (old(self).open_browser && !old(self).browser_opened),
            final(self).browser_opened == (old(self).browser_opened || old(self).open_browser),
            (r, final(self).browser_opened) == browser_open_step(
                old(self).open_browser,
                old(self).browser_opened,
            ),
            final(self).current == old(self).current,
            final(self).diagnostics == old(self).diagnostics,
            final(self).last_heartbeat == old(self).last_heartbeat,
            final(self).open_browser == old(self).open_browser,
    {
        if !self.open_browser || self.browser_opened {
            return false;
        }
        self.browser_opened = true;
        true
    }

    /// `open_browser_now`'s bookkeeping after the browser opener ran.
    pub fn record_browser_open(&mut self, succeeded: bool)
        ensures
            browser_open_effect(*old(self), succeeded, *final(self)),
    {
        self.browser_opened = true;
        if succeeded {
            self.diagnostics.record(DiagnosticEvent::BrowserOpened);
        } else {
            self.diagnostics.record(DiagnosticEvent::BrowserOpenFailed);
        }
    }

    /// Records a diagnostic event.
    pub fn record(&mut self, event: DiagnosticEvent)
        ensures
            final(self).diagnostics@ == (if old(self).diagnostics@.len() == MAX_DIAGNOSTIC_EVENTS {
                old(self).diagnostics@.drop_first()
            } else {
                old(self).diagnostics@
            }).push(event),
            final(self).current == old(self).current,
            final(self).last_heartbeat == old(self).last_heartbeat,
            final(self).browser_opened == old(self).browser_opened,
            final(self).open_browser == old(self).open_browser,
    {
        self.diagnostics.record(event);
    }

    /// `heartbeat_watchdog`, at one check at `now_nanos` of a companion
    /// started at `started_nanos`: whether it stops now (see
    /// [`watchdog_spec`]); when it stops, the reason is logged.
    pub fn watchdog_check(&mut self, now_nanos: u64, started_nanos: u64) -> (stop: bool)
        ensures
            stop == (watchdog_spec(old(self).last_heartbeat, now_nanos, started_nanos)
                != WatchdogDecision::KeepRunning),
            final(self).diagnostics@ == match watchdog_spec(
                old(self).last_heartbeat,
                now_nanos,
                started_nanos,
            ) {
                WatchdogDecision::KeepRunning => old(self).diagnostics@,
                WatchdogDecision::HeartbeatTimeout => with_event(
                    old(self).diagnostics@,
                    DiagnosticEvent::HeartbeatTimeoutShutdown,
                ),
                WatchdogDecision::StartupIdle => with_event(
                    old(self).diagnostics@,
                    DiagnosticEvent::StartupIdleShutdown,
                ),
            },
            final(self).current == old(self).current,
            final(self).last_heartbeat == old(self).last_heartbeat,
            final(self).browser_opened == old(self).browser_opened,
            final(self).open_browser == old(self).open_browser,
    {
        match watchdog_decision(self.last_heartbeat, now_nanos, started_nanos) {
            WatchdogDecision::KeepRunning => false,
            WatchdogDecision::HeartbeatTimeout => {
                self.record(DiagnosticEvent::HeartbeatTimeoutShutdown);
                true
            },
            WatchdogDecision::StartupIdle => {
                self.record(DiagnosticEvent::StartupIdleShutdown);
                true
            },
        }
    }

    /// `companion_status`: nothing, answered as not found, unless `token` is
    /// the browser token; otherwise the status of the companion at
    /// `now_nanos`.
    pub fn status_report(&self, token: &str, browser_token: &str, now_nanos: u64) -> (r: Option<
        StatusReport,
    >)
        ensures
            r is None <==> token@ != browser_token@,
            r matches Some(report) ==> {
                &&& report.update_age_ms == match self.last_heartbeat {
                    Some(last) => Some(
                        (if now_nanos >= last {
                            ((now_nanos - last) / 1_000_000) as u64
                        } else {
                            0u64
                        }),
                    ),
                    None => None,
                }
                &&& report.connection@ == connection_spec(report.update_age_ms)
                &&& status_summary_spec(self.current, report.edition@, opt_view(report.terrain))
                &&& report.diagnostics@ == self.diagnostics@
            },
    {
        if !constant_time_equal(token, browser_token) {
            return None;
        }
        let (edition, terrain) = status_summary(&self.current);
        let age = update_age_millis(self.last_heartbeat, now_nanos);
        Some(
            StatusReport {
                connection: connection_state(age),
                edition,
                terrain,
                update_age_ms: age,
                diagnostics: self.diagnostics.events(),
            },
        )
    }

    /// `pipe_server_loop`'s handling of a validated, canonical envelope at
    /// time `now_nanos`: it is accepted into the stored snapshot; a new
    /// session is recorded as `mission_ready`; an accepted heartbeat stamps
    /// the heartbeat time; an accepted snapshot opens the browser once; every
    /// accepted envelope but a heartbeat is forwarded to the browsers.
    pub fn apply_publish(&mut self, envelope: Envelope, now_nanos: u64) -> (r: PublishOutcome)
        ensures
            publish_effect(*old(self), envelope, now_nanos, *final(self), r),
    {
        let is_heartbeat = match &envelope.message {
            TacticalMessage::Heartbeat(_) => true,
            _ => false,
        };
        let is_snapshot = match &envelope.message {
            TacticalMessage::SessionSnapshot(_) => true,
            _ => false,
        };
        let acceptance: Acceptance = accept_envelope(&mut self.current, envelope);
        if acceptance.mission_ready {
            self.diagnostics.record(DiagnosticEvent::MissionReady);
        }
        if !acceptance.accepted {
            return PublishOutcome { accepted: false, forward: false, open_browser: false };
        }
        if is_heartbeat {
            self.last_heartbeat = Some(now_nanos);
        }
        let open = if is_snapshot {
            self.open_browser_once()
        } else {
            false
        };
        PublishOutcome { accepted: true, forward: !is_heartbeat, open_browser: open }
    }
}

} // verus!
