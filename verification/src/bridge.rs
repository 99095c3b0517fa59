//! The game-side bridge: its errors, the queue that carries frames to the
//! pipe writer, the companion's command line and pipe name, the decoding
//! of Arma's string arguments and the planning of extension calls.
use crate::companion::{
    encode_hex, hex_lower, opt_view, parse_arguments_from, pipe_name_prefix, random_bytes,
    random_error_text, string_views, valid_pipe_name, valid_pipe_token,
};
use crate::protocol::{
    envelope_check, validation_message, BridgeFrame, BridgeMessage, Envelope, ValidationError,
    MAX_FRAME_BYTES,
};
use crate::paa::slice_range;
use crate::text::{
    chars_of, clone_string, eq_ignore_ascii_case, eq_ignore_case, is_ascii_seq, lemma_ascii_utf8,
    lit, push_char, str_eq, utf8_len,
};
use std::sync::mpsc::{SyncSender, TrySendError};
use vstd::prelude::*;
use vstd::utf8::encode_utf8;

verus! {

broadcast use vstd::string::group_string_axioms;

/// Most bytes of a JSON envelope passed to `publish`.
pub const MAX_EXTENSION_ARGUMENT_BYTES: usize = 262144;

/// Most frames waiting for the pipe writer.
pub const QUEUE_CAPACITY: usize = 128;

/// Random bytes in a pipe token.
pub const PIPE_TOKEN_BYTES: usize = 32;

/// Random bytes in the pipe name's suffix.
pub const PIPE_SUFFIX_BYTES: usize = 8;

/// Why a bridge call failed.
#[derive(Debug, Clone, PartialEq, Eq)]
pub enum BridgeError {
    NotRunning,
    CompanionMissing,
    QueueFull,
    WriterStopped,
    InvalidPayload(String),
    FrameTooLarge,
    Launch(String),
    ModulePath,
    RandomSource(String),
}

/// The message of a bridge error.
pub open spec fn bridge_error_message(error: BridgeError) -> Seq<char> {
    match error {
        BridgeError::NotRunning => "the bridge is not running"@,
        BridgeError::CompanionMissing => "the companion executable was not found at the trusted sibling path"@,
        BridgeError::QueueFull => "the bridge queue is full"@,
        BridgeError::WriterStopped => "the bridge writer has stopped"@,
        BridgeError::InvalidPayload(detail) => "the payload is invalid: "@ + detail@,
        BridgeError::FrameTooLarge => "the payload exceeds the bridge frame limit"@,
        BridgeError::Launch(detail) => "failed to launch the companion: "@ + detail@,
        BridgeError::ModulePath => "failed to resolve the bridge module path"@,
        BridgeError::RandomSource(detail) => "the Windows cryptographic random source is unavailable: "@
            + detail@,
    }
}

impl BridgeError {
    /// The error's message.
    pub fn describe(&self) -> (r: String)
        ensures
            r@ == bridge_error_message(*self),
    {
        match self {
            BridgeError::NotRunning => lit("the bridge is not running"),
            BridgeError::CompanionMissing => lit(
                "the companion executable was not found at the trusted sibling path",
            ),
            BridgeError::QueueFull => lit("the bridge queue is full"),
            BridgeError::WriterStopped => lit("the bridge writer has stopped"),
            BridgeError::InvalidPayload(detail) => {
                let mut out = lit("the payload is invalid: ");
                out.append(detail.as_str());
                out
            },
            BridgeError::FrameTooLarge => lit("the payload exceeds the bridge frame limit"),
            BridgeError::Launch(detail) => {
                let mut out = lit("failed to launch the companion: ");
                out.append(detail.as_str());
                out
            },
            BridgeError::ModulePath => lit("failed to resolve the bridge module path"),
            BridgeError::RandomSource(detail) => {
                let mut out = lit("the Windows cryptographic random source is unavailable: ");
                out.append(detail.as_str());
                out
            },
        }
    }
}

// ---------------------------------------------------------------------------
// The queue to the pipe writer
// ---------------------------------------------------------------------------

#[verifier::external_type_specification]
#[verifier::external_body]
#[verifier::reject_recursive_types(T)]
pub struct ExSyncSender<T>(SyncSender<T>);

/// What became of a frame handed to the queue.
#[derive(Debug, Clone, Copy, PartialEq, Eq, Structural)]
pub enum SendOutcome {
    Sent,
    Full,
    Disconnected,
}

/// `SyncSender::try_send`: queues the payload unless the queue is full or
/// the writer has gone. Which of these happens depends on the writer
/// thread, so nothing is promised of the outcome; the second result is the
/// frame that was handed to `try_send`, which is `payload` itself.
#[verifier::external_body]
fn try_send_payload(sender: &SyncSender<Vec<u8>>, payload: Vec<u8>) -> (r: (SendOutcome, Ghost<Seq<u8>>))
    ensures
        r.1@ == payload@,
{
    let handed = Ghost(payload@);
    let outcome = match sender.try_send(payload) {
        Ok(()) => SendOutcome::Sent,
        Err(TrySendError::Full(_)) => SendOutcome::Full,
        Err(TrySendError::Disconnected(_)) => SendOutcome::Disconnected,
    };
    (outcome, handed)
}

/// A running bridge: the queue to its pipe writer and the token that
/// authenticates its frames.
pub struct BridgeService {
    sender: SyncSender<Vec<u8>>,
    pipe_token: String,
    /// The frames queued so far, oldest first.
    sent: Ghost<Seq<Seq<u8>>>,
}

/// A frame fits on the pipe.
pub open spec fn frame_fits(length: int) -> bool {
    length <= MAX_FRAME_BYTES
}

/// The error for a refused envelope: its validation message.
pub open spec fn invalid_payload_of(error: ValidationError, e: BridgeError) -> bool {
    e matches BridgeError::InvalidPayload(m) && m@ == validation_message(error)
}

impl BridgeService {
    /// A bridge that queues frames on `sender`, authenticated by
    /// `pipe_token`.
    pub fn new(sender: SyncSender<Vec<u8>>, pipe_token: String) -> (r: BridgeService)
        ensures
            r.token()@ == pipe_token@,
            r.sent_frames() == Seq::<Seq<u8>>::empty(),
    {
        BridgeService { sender, pipe_token, sent: Ghost(Seq::empty()) }
    }

    /// The frames this bridge has queued for the pipe writer, oldest first.
    pub closed spec fn sent_frames(&self) -> Seq<Seq<u8>> {
        self.sent@
    }

    /// The pipe token.
    pub closed spec fn token(&self) -> String {
        self.pipe_token
    }

    /// The pipe token.
    pub fn pipe_token(&self) -> (r: &str)
        ensures
            r@ == self.token()@,
    {
        self.pipe_token.as_str()
    }

    /// `enqueue`, up to the encoding: an envelope that passes validation,
    /// framed for publication with this bridge's token; a refused envelope
    /// gives `InvalidPayload` with the validation message.
    pub fn publish_frame(&self, envelope: Envelope) -> (r: Result<BridgeFrame, BridgeError>)
        ensures
            envelope_check(envelope) is Ok ==> (r matches Ok(frame) && frame.pipe_token@
                == self.token()@ && frame.message == (BridgeMessage::Publish { envelope })),
            envelope_check(envelope) matches Err(error) ==> (r matches Err(e) && invalid_payload_of(
                error,
                e,
            )),
    {
        match envelope.validate() {
            Ok(()) => Ok(
                BridgeFrame {
                    pipe_token: clone_string(&self.pipe_token),
                    message: BridgeMessage::Publish { envelope },
                },
            ),
            Err(error) => Err(BridgeError::InvalidPayload(lit(error.describe()))),
        }
    }

    /// `request_browser_open`, up to the encoding: the browser request
    /// framed with this bridge's token.
    pub fn browser_open_frame(&self) -> (r: BridgeFrame)
        ensures
            r.pipe_token@ == self.token()@,
            r.message == BridgeMessage::OpenBrowser,
    {
        BridgeFrame { pipe_token: clone_string(&self.pipe_token), message: BridgeMessage::OpenBrowser }
    }

    /// Queues an encoded frame for
    /// the pipe writer. A frame larger than the pipe allows is refused
    /// before it is queued; otherwise the outcome of the queue decides.
    /// A frame that is queued is added, as it is, to [`Self::sent_frames`];
    /// a refused one leaves them as they were.
    pub fn enqueue_encoded(&mut self, payload: Vec<u8>) -> (r: Result<(), BridgeError>)
        ensures
            !frame_fits(payload@.len() as int) ==> r == Err::<(), BridgeError>(
                BridgeError::FrameTooLarge,
            ),
            frame_fits(payload@.len() as int) ==> (r is Ok || r == Err::<(), BridgeError>(
                BridgeError::QueueFull,
            ) || r == Err::<(), BridgeError>(BridgeError::WriterStopped)),
            r is Ok ==> final(self).sent_frames() == old(self).sent_frames().push(payload@),
            r is Err ==> final(self).sent_frames() == old(self).sent_frames(),
            final(self).token() == old(self).token(),
    {
        if payload.len() > MAX_FRAME_BYTES {
            return Err(BridgeError::FrameTooLarge);
        }
        let (outcome, handed) = try_send_payload(&self.sender, payload);
        match outcome {
            SendOutcome::Sent => {
                self.sent = Ghost(self.sent@.push(handed@));
                Ok(())
            },
            SendOutcome::Full => Err(BridgeError::QueueFull),
            SendOutcome::Disconnected => Err(BridgeError::WriterStopped),
        }
    }
}

/// `send_frame_to_pipe`, up to the encoding: the envelope must pass
/// validation; it is framed for publication with `pipe_token`.
pub fn direct_publish_frame(pipe_token: &str, envelope: Envelope) -> (r: Result<
    BridgeFrame,
    BridgeError,
>)
    ensures
        envelope_check(envelope) is Ok ==> (r matches Ok(frame) && frame.pipe_token@ == pipe_token@
            && frame.message == (BridgeMessage::Publish { envelope })),
        envelope_check(envelope) matches Err(error) ==> (r matches Err(e) && invalid_payload_of(
            error,
            e,
        )),
{
    match envelope.validate() {
        Ok(()) => Ok(
            BridgeFrame { pipe_token: lit(pipe_token), message: BridgeMessage::Publish { envelope } },
        ),
        Err(error) => Err(BridgeError::InvalidPayload(lit(error.describe()))),
    }
}

/// `send_frame_to_pipe`, after the encoding: a frame larger than the pipe
/// allows is refused.
pub fn check_frame_size(length: usize) -> (r: Result<(), BridgeError>)
    ensures
        r is Ok <==> frame_fits(length as int),
        r matches Err(e) ==> e == BridgeError::FrameTooLarge,
{
    if length > MAX_FRAME_BYTES {
        Err(BridgeError::FrameTooLarge)
    } else {
        Ok(())
    }
}

// ---------------------------------------------------------------------------
// Pipe names, tokens and the companion's command line
// ---------------------------------------------------------------------------

/// `random_hex`: `bytes` random bytes in lower-case hexadecimal, or the
/// random source's error.
pub fn random_hex(bytes: usize) -> (r: Result<String, BridgeError>)
    ensures
        r matches Ok(s) ==> exists|raw: Seq<u8>| raw.len() == bytes && s@ == hex_lower(raw),
        r matches Err(e) ==> e is RandomSource,
{
    match random_bytes(bytes) {
        Ok(random) => {
            let s = encode_hex(&random);
            assert(random@.len() == bytes && s@ == hex_lower(random@));
            Ok(s)
        },
        Err(error) => Err(BridgeError::RandomSource(random_error_text(&error))),
    }
}

/// The decimal digit `d`.
pub open spec fn digit_char(d: int) -> char {
    (48 + d) as char
}

/// The decimal representation of `n`, without leading zeros.
pub open spec fn decimal(n: nat) -> Seq<char>
    decreases n,
{
    if n < 10 {
        seq![digit_char(n as int)]
    } else {
        decimal(n / 10).push(digit_char((n % 10) as int))
    }
}

/// Appends the decimal representation of `n`.
pub(crate) fn push_decimal(out: &mut String, n: u64)
    ensures
        final(out)@ == old(out)@ + decimal(n as nat),
    decreases n,
{
    if n >= 10 {
        push_decimal(out, n / 10);
    }
    let digit = (n % 10) as u8;
    push_char(out, (48u8 + digit) as char);
    proof {
        assert((48u8 + digit) as char == digit_char((n % 10) as int));
    }
}

/// The name of the pipe of one bridge: `\\.\pipe\ctab-web-` followed by the
/// process id, `-` and a random suffix.
pub open spec fn pipe_name_spec(process_id: u32, suffix: Seq<char>) -> Seq<char> {
    pipe_name_prefix() + decimal(process_id as nat) + seq!['-'] + suffix
}

/// The pipe name of the bridge in process `process_id`.
pub fn pipe_name(process_id: u32, suffix: &str) -> (r: String)
    ensures
        r@ == pipe_name_spec(process_id, suffix@),
{
    let mut out = lit("\\\\.\\pipe\\ctab-web-");
    proof {
        reveal_strlit("\\\\.\\pipe\\ctab-web-");
        assert(out@ =~= pipe_name_prefix());
    }
    push_decimal(&mut out, process_id as u64);
    push_char(&mut out, '-');
    out.append(suffix);
    out
}

proof fn lemma_decimal_digits(n: nat)
    ensures
        decimal(n).len() >= 1,
        forall|i: int| 0 <= i < decimal(n).len() ==> '0' <= #[trigger] decimal(n)[i] <= '9',
    decreases n,
{
    if n >= 10 {
        lemma_decimal_digits(n / 10);
    }
}

/// `10` to the power `k`.
pub open spec fn pow10(k: nat) -> nat
    decreases k,
{
    if k == 0 {
        1
    } else {
        10 * pow10((k - 1) as nat)
    }
}

/// A number below `10^k` has at most `k` digits.
proof fn lemma_decimal_len_bound(n: nat, k: nat)
    requires
        1 <= k,
        n < pow10(k),
    ensures
        decimal(n).len() <= k,
    decreases k,
{
    if n >= 10 {
        if k == 1 {
            assert(pow10(1) == 10 * pow10(0));
        }
        let smaller = pow10((k - 1) as nat);
        assert(n / 10 < smaller) by (nonlinear_arith)
            requires
                n < 10 * smaller,
        ;
        lemma_decimal_len_bound(n / 10, (k - 1) as nat);
    }
}

/// Law: the pipe name a bridge makes from its process id and a random
/// hexadecimal suffix of up to 64 digits is one the companion accepts.
pub proof fn law_bridge_pipe_name_accepted(process_id: u32, raw: Seq<u8>)
    requires
        raw.len() <= 32,
    ensures
        valid_pipe_name(pipe_name_spec(process_id, hex_lower(raw))),
{
    let suffix = hex_lower(raw);
    lemma_hex_lower_chars(raw);
    assert(pow10(10) == 10000000000) by {
        reveal_with_fuel(pow10, 11);
    }
    lemma_decimal_len_bound(process_id as nat, 10);
    lemma_decimal_digits(process_id as nat);
    let name = pipe_name_spec(process_id, suffix);
    let digits = decimal(process_id as nat);
    let prefix = pipe_name_prefix();
    assert(name.take(prefix.len() as int) =~= prefix);
    assert forall|i: int| 0 <= i < name.len() implies (#[trigger] name[i] as u32) < 128 by {
        if i < prefix.len() {
        } else if i < prefix.len() + digits.len() {
            assert(name[i] == digits[i - prefix.len()]);
        } else if i == prefix.len() + digits.len() {
        } else {
            assert(name[i] == suffix[i - prefix.len() - digits.len() - 1]);
        }
    }
    lemma_ascii_utf8(name);
    assert forall|i: int| crate::companion::PIPE_NAMESPACE_CHARS <= i < name.len() implies crate::text::is_ascii_alphanumeric(
        #[trigger] name[i],
    ) || name[i] == '-' by {
        if i < prefix.len() {
        } else if i < prefix.len() + digits.len() {
            assert(name[i] == digits[i - prefix.len()]);
        } else if i == prefix.len() + digits.len() {
        } else {
            assert(name[i] == suffix[i - prefix.len() - digits.len() - 1]);
        }
    }
}

/// Hexadecimal digits are ASCII letters and digits, two per byte.
proof fn lemma_hex_lower_chars(raw: Seq<u8>)
    ensures
        hex_lower(raw).len() == 2 * raw.len(),
        forall|i: int| 0 <= i < hex_lower(raw).len() ==> (('0' <= #[trigger] hex_lower(raw)[i]
            <= '9') || ('a' <= hex_lower(raw)[i] <= 'f')),
    decreases raw.len(),
{
    if raw.len() > 0 {
        lemma_hex_lower_chars(raw.drop_last());
        let last = raw.last();
        assert(last / 16 < 16 && last % 16 < 16);
    }
}

/// Law: a pipe token of 16 to 64 random bytes in hexadecimal is one the
/// companion accepts; the bridge uses 32.
pub proof fn law_bridge_pipe_token_accepted(raw: Seq<u8>)
    requires
        16 <= raw.len() <= 64,
    ensures
        valid_pipe_token(hex_lower(raw)),
{
    let token = hex_lower(raw);
    lemma_hex_lower_chars(raw);
    assert(is_ascii_seq(token));
    lemma_ascii_utf8(token);
    let bytes = encode_utf8(token);
    assert forall|i: int| 0 <= i < bytes.len() implies crate::companion::is_ascii_alphanumeric_byte(
        #[trigger] bytes[i],
    ) by {
        assert(bytes[i] as u32 == token[i] as u32);
    }
}

/// The companion's command line: its pipe and token, `--arma-root` with the
/// game directory when one is known, and `--no-browser` unless it opens a
/// browser.
pub open spec fn companion_arguments_spec(
    pipe_name: Seq<char>,
    pipe_token: Seq<char>,
    open_browser: bool,
    arma_root: Option<Seq<char>>,
) -> Seq<Seq<char>> {
    seq!["--pipe-name"@, pipe_name, "--pipe-token"@, pipe_token] + match arma_root {
        Some(root) => seq!["--arma-root"@, root],
        None => Seq::empty(),
    } + if open_browser {
        Seq::empty()
    } else {
        seq!["--no-browser"@]
    }
}

/// `spawn_companion`, up to the launch: the companion's arguments.
pub fn companion_arguments(
    pipe_name: &str,
    pipe_token: &str,
    open_browser: bool,
    arma_root: Option<&str>,
) -> (r: Vec<String>)
    ensures
        string_views(r@) == companion_arguments_spec(
            pipe_name@,
            pipe_token@,
            open_browser,
            match arma_root {
                Some(root) => Some(root@),
                None => None,
            },
        ),
{
    let mut arguments: Vec<String> = Vec::new();
    arguments.push(lit("--pipe-name"));
    arguments.push(lit(pipe_name));
    arguments.push(lit("--pipe-token"));
    arguments.push(lit(pipe_token));
    if let Some(root) = arma_root {
        arguments.push(lit("--arma-root"));
        arguments.push(lit(root));
    }
    if !open_browser {
        arguments.push(lit("--no-browser"));
    }
    assert(string_views(arguments@) =~= companion_arguments_spec(
        pipe_name@,
        pipe_token@,
        open_browser,
        match arma_root {
            Some(root) => Some(root@),
            None => None,
        },
    ));
    arguments
}

/// Law: the companion reads back from the command line the bridge gives it
/// exactly the pipe name, token, browser choice and game directory it was
/// given, whatever these values are.
pub proof fn law_companion_arguments_round_trip(
    pipe_name: Seq<char>,
    pipe_token: Seq<char>,
    open_browser: bool,
    arma_root: Option<Seq<char>>,
)
    ensures
        parse_arguments_from(
            companion_arguments_spec(pipe_name, pipe_token, open_browser, arma_root),
            0,
            None,
            None,
            true,
            None,
        ) == Some((Some(pipe_name), Some(pipe_token), open_browser, arma_root)),
{
    reveal_strlit("--pipe-name");
    reveal_strlit("--pipe-token");
    reveal_strlit("--no-browser");
    reveal_strlit("--arma-root");
    let args = companion_arguments_spec(pipe_name, pipe_token, open_browser, arma_root);
    let name = Some(pipe_name);
    let token = Some(pipe_token);
    assert("--pipe-token"@ != "--pipe-name"@) by {
        assert("--pipe-token"@[7] != "--pipe-name"@[7]);
    }
    assert("--arma-root"@ != "--pipe-name"@) by {
        assert("--arma-root"@[2] != "--pipe-name"@[2]);
    }
    assert("--arma-root"@ != "--pipe-token"@) by {
        assert("--arma-root"@[2] != "--pipe-token"@[2]);
    }
    assert("--arma-root"@ != "--no-browser"@) by {
        assert("--arma-root"@[2] != "--no-browser"@[2]);
    }
    assert("--no-browser"@ != "--pipe-name"@) by {
        assert("--no-browser"@[2] != "--pipe-name"@[2]);
    }
    assert("--no-browser"@ != "--pipe-token"@) by {
        assert("--no-browser"@[2] != "--pipe-token"@[2]);
    }
    assert(args[0] == "--pipe-name"@);
    assert(args[1] == pipe_name);
    assert(args[2] == "--pipe-token"@);
    assert(args[3] == pipe_token);
    let end = args.len() as int;
    match arma_root {
        Some(root) => {
            assert(args[4] == "--arma-root"@);
            assert(args[5] == root);
            if open_browser {
                assert(end == 6);
            } else {
                assert(args[6] == "--no-browser"@);
                assert(end == 7);
                assert(parse_arguments_from(args, 6, name, token, true, arma_root) == parse_arguments_from(
                    args,
                    7,
                    name,
                    token,
                    false,
                    arma_root,
                ));
            }
            assert(parse_arguments_from(args, 4, name, token, true, None) == parse_arguments_from(
                args,
                6,
                name,
                token,
                true,
                arma_root,
            ));
        },
        None => {
            if open_browser {
                assert(end == 4);
            } else {
                assert(args[4] == "--no-browser"@);
                assert(end == 5);
                assert(parse_arguments_from(args, 4, name, token, true, None) == parse_arguments_from(
                    args,
                    5,
                    name,
                    token,
                    false,
                    None,
                ));
            }
        },
    }
    assert(parse_arguments_from(args, 2, name, None, true, None) == parse_arguments_from(
        args,
        4,
        name,
        token,
        true,
        None,
    ));
    assert(parse_arguments_from(args, 0, None, None, true, None) == parse_arguments_from(
        args,
        2,
        name,
        None,
        true,
        None,
    ));
}

// ---------------------------------------------------------------------------
// Extension calls
// ---------------------------------------------------------------------------

/// `s.replace("\"\"", "\"")`: from the left, each pair of quotes becomes
/// one quote.
pub open spec fn collapse_doubled_quotes(s: Seq<char>) -> Seq<char>
    decreases s.len(),
{
    if s.len() >= 2 && s[0] == '"' && s[1] == '"' {
        seq!['"'] + collapse_doubled_quotes(s.skip(2))
    } else if s.len() == 0 {
        s
    } else {
        seq![s[0]] + collapse_doubled_quotes(s.skip(1))
    }
}

/// An argument as Arma passes it: a string in quotes, with each quote
/// inside doubled, is unquoted; anything else is taken as it is.
pub open spec fn decoded_argument(s: Seq<char>) -> Seq<char> {
    if s.len() >= 2 && s[0] == '"' && s.last() == '"' {
        collapse_doubled_quotes(s.subrange(1, s.len() - 1))
    } else {
        s
    }
}

/// `decode_arma_string_argument`: see [`decoded_argument`].
pub fn decode_arma_string_argument(value: String) -> (r: String)
    ensures
        r@ == decoded_argument(value@),
{
    let chars = chars_of(value.as_str());
    let n = chars.len();
    if !(n >= 2 && chars[0] == '"' && chars[n - 1] == '"') {
        return value;
    }
    let end = n - 1;
    let mut out = String::new();
    let mut i: usize = 1;
    while i < end
        invariant
            chars@ == value@,
            n == chars@.len(),
            end == n - 1,
            1 <= i <= end,
            collapse_doubled_quotes(chars@.subrange(1, end as int)) == out@
                + collapse_doubled_quotes(chars@.subrange(i as int, end as int)),
        decreases end - i,
    {
        let ghost rest = chars@.subrange(i as int, end as int);
        if i + 1 < end && chars[i] == '"' && chars[i + 1] == '"' {
            push_char(&mut out, '"');
            proof {
                assert(rest.skip(2) =~= chars@.subrange(i + 2, end as int));
            }
            i = i + 2;
        } else {
            push_char(&mut out, chars[i]);
            proof {
                assert(rest.skip(1) =~= chars@.subrange(i + 1, end as int));
            }
            i = i + 1;
        }
    }
    proof {
        assert(chars@.subrange(i as int, end as int) =~= Seq::<char>::empty());
    }
    out
}

/// A call of the extension, once its arguments are checked.
#[derive(Debug, Clone, PartialEq, Eq)]
pub enum DispatchCall {
    /// Start the bridge.
    Start,
    /// Publish the JSON envelope.
    Publish(String),
    /// Ask the companion to open a browser tab.
    OpenBrowser,
    /// Report the extension's version.
    Version,
}

/// `dispatch`, before the bridge is used: the call that `function` and
/// `arguments` make, or the error that refuses them.
pub fn plan_dispatch(function: &str, arguments: &Vec<String>) -> (r: Result<DispatchCall, BridgeError>)
    ensures
        function@ == "start"@ ==> r == Ok::<DispatchCall, BridgeError>(DispatchCall::Start),
        function@ == "publish"@ ==> {
            if arguments@.len() == 0 {
                r matches Err(BridgeError::InvalidPayload(m)) && m@
                    == "publish requires one JSON envelope"@
            } else if utf8_len(arguments@[0]@) > MAX_EXTENSION_ARGUMENT_BYTES {
                r == Err::<DispatchCall, BridgeError>(BridgeError::FrameTooLarge)
            } else {
                r matches Ok(DispatchCall::Publish(encoded)) && encoded@ == arguments@[0]@
            }
        },
        function@ == "open_browser"@ ==> r == Ok::<DispatchCall, BridgeError>(
            DispatchCall::OpenBrowser,
        ),
        function@ == "version"@ ==> r == Ok::<DispatchCall, BridgeError>(DispatchCall::Version),
        function@ != "start"@ && function@ != "publish"@ && function@ != "open_browser"@
            && function@ != "version"@ ==> (r matches Err(BridgeError::InvalidPayload(m)) && m@
            == "unsupported bridge function"@),
{
    proof {
        reveal_strlit("start");
        reveal_strlit("publish");
        reveal_strlit("open_browser");
        reveal_strlit("version");
        // The four names differ in their first character.
        assert("start"@ != "publish"@ && "start"@ != "open_browser"@ && "start"@ != "version"@) by {
            assert("start"@[0] != "publish"@[0]);
            assert("start"@[0] != "open_browser"@[0]);
            assert("start"@[0] != "version"@[0]);
        }
        assert("publish"@ != "open_browser"@ && "publish"@ != "version"@) by {
            assert("publish"@[0] != "open_browser"@[0]);
            assert("publish"@[0] != "version"@[0]);
        }
        assert("open_browser"@ != "version"@) by {
            assert("open_browser"@[0] != "version"@[0]);
        }
    }
    if str_eq(function, "start") {
        Ok(DispatchCall::Start)
    } else if str_eq(function, "publish") {
        if arguments.len() == 0 {
            return Err(BridgeError::InvalidPayload(lit("publish requires one JSON envelope")));
        }
        let encoded = &arguments[0];
        if encoded.as_str().as_bytes().len() > MAX_EXTENSION_ARGUMENT_BYTES {
            return Err(BridgeError::FrameTooLarge);
        }
        Ok(DispatchCall::Publish(clone_string(encoded)))
    } else if str_eq(function, "open_browser") {
        Ok(DispatchCall::OpenBrowser)
    } else if str_eq(function, "version") {
        Ok(DispatchCall::Version)
    } else {
        Err(BridgeError::InvalidPayload(lit("unsupported bridge function")))
    }
}

/// The JSON answer to a call that succeeded: its status, or for `version`
/// the extension's version.
pub fn dispatch_response(call: &DispatchCall, version: &str) -> (r: String)
    ensures
        r@ == match call {
            DispatchCall::Start => "{\"ok\":true,\"status\":\"started\"}"@,
            DispatchCall::Publish(_) => "{\"ok\":true,\"status\":\"queued\"}"@,
            DispatchCall::OpenBrowser => "{\"ok\":true,\"status\":\"browser_open_requested\"}"@,
            DispatchCall::Version => "{\"ok\":true,\"version\":\""@ + version@ + "\"}"@,
        },
{
    match call {
        DispatchCall::Start => lit("{\"ok\":true,\"status\":\"started\"}"),
        DispatchCall::Publish(_) => lit("{\"ok\":true,\"status\":\"queued\"}"),
        DispatchCall::OpenBrowser => lit("{\"ok\":true,\"status\":\"browser_open_requested\"}"),
        DispatchCall::Version => {
            let mut out = lit("{\"ok\":true,\"version\":\"");
            out.append(version);
            out.append("\"}");
            out
        },
    }
}

/// What `write_output` leaves in Arma's buffer of `output_size` bytes:
/// nothing without room; otherwise as much of `value` as fits before a
/// terminating NUL.
pub open spec fn output_spec(value: Seq<u8>, output_size: i32) -> Option<Seq<u8>> {
    if output_size <= 0 {
        None
    } else {
        let room = output_size - 1;
        let copied = if value.len() < room {
            value.len() as int
        } else {
            room
        };
        Some(value.take(copied).push(0u8))
    }
}

/// `write_output`, less the copy into Arma's buffer: the bytes to write.
pub fn output_bytes(value: &[u8], output_size: i32) -> (r: Option<Vec<u8>>)
    ensures
        match r {
            Some(bytes) => output_spec(value@, output_size) == Some(bytes@),
            None => output_spec(value@, output_size) is None,
        },
{
    if output_size <= 0 {
        return None;
    }
    let room = (output_size - 1) as usize;
    let copied = if value.len() < room {
        value.len()
    } else {
        room
    };
    let mut bytes = slice_range(value, 0, copied);
    bytes.push(0u8);
    proof {
        assert(value@.subrange(0, copied as int) =~= value@.take(copied as int));
    }
    Some(bytes)
}

/// The name of the companion executable.
pub open spec fn companion_file_name() -> Seq<char> {
    "ctab-web-companion.exe"@
}

/// `validate_companion_path`: the path's file name, which the caller takes
/// from the path (`None` when it has none or it is not text), must be
/// `ctab-web-companion.exe` up to ASCII case, and the path must be a file,
/// which the caller looks up.
pub fn validate_companion_path(file_name: Option<&str>, is_file: bool) -> (r: Result<
    (),
    BridgeError,
>)
    ensures
        r is Ok <==> is_file && match file_name {
            Some(name) => eq_ignore_ascii_case(name@, companion_file_name()),
            None => false,
        },
        r matches Err(e) ==> e == BridgeError::CompanionMissing,
{
    let expected_name = match file_name {
        Some(name) => eq_ignore_case(name, "ctab-web-companion.exe"),
        None => false,
    };
    if !expected_name || !is_file {
        return Err(BridgeError::CompanionMissing);
    }
    Ok(())
}

// ---------------------------------------------------------------------------
// The pipe
// ---------------------------------------------------------------------------

/// Why opening the companion's pipe failed.
#[derive(Debug, Clone, Copy, PartialEq, Eq, Structural)]
pub enum OpenErrorKind {
    NotFound,
    WouldBlock,
    PermissionDenied,
    Other,
}

/// `write_payload_with_retry`, after a failed open: try again while the
/// timeout has not passed and the pipe is missing, busy or not yet open to
/// this process.
pub fn should_retry_open(elapsed_nanos: u64, timeout_nanos: u64, kind: OpenErrorKind) -> (r: bool)
    ensures
        r == (elapsed_nanos < timeout_nanos && kind != OpenErrorKind::Other),
{
    elapsed_nanos < timeout_nanos && match kind {
        OpenErrorKind::NotFound | OpenErrorKind::WouldBlock | OpenErrorKind::PermissionDenied => true,
        OpenErrorKind::Other => false,
    }
}

/// The little-endian bytes of a `u32`.
pub open spec fn le_bytes(n: u32) -> Seq<u8> {
    seq![(n % 256) as u8, ((n / 256) % 256) as u8, ((n / 65536) % 256) as u8, (n / 16777216) as u8]
}

/// `write_framed`, for the header: the payload's length as four
/// little-endian bytes, if it fits in a `u32`.
pub fn frame_length_prefix(length: usize) -> (r: Option<[u8; 4]>)
    ensures
        length > u32::MAX ==> r is None,
        length <= u32::MAX ==> (r matches Some(bytes) && bytes@ == le_bytes(length as u32)),
{
    if length > u32::MAX as usize {
        return None;
    }
    let n = length as u32;
    let bytes = [(n % 256) as u8, ((n / 256) % 256) as u8, ((n / 65536) % 256) as u8, (n / 16777216) as u8];
    assert(bytes@ =~= le_bytes(n));
    Some(bytes)
}

/// The `u32` whose little-endian bytes are `bytes`.
pub open spec fn le_value(bytes: Seq<u8>) -> int {
    bytes[0] + 256 * bytes[1] + 65536 * bytes[2] + 16777216 * bytes[3]
}

/// The companion's reading of a frame header: `u32::from_le_bytes`.
pub fn frame_length_from_prefix(bytes: [u8; 4]) -> (r: u32)
    ensures
        r == le_value(bytes@),
{
    (bytes[0] as u32) + 256 * (bytes[1] as u32) + 65536 * (bytes[2] as u32) + 16777216 * (
    bytes[3] as u32)
}

/// Law: the companion reads from a frame header the length the bridge
/// wrote into it.
pub proof fn law_frame_length_round_trip(length: u32)
    ensures
        le_value(le_bytes(length)) == length,
{
    let b0 = length % 256;
    let b1 = (length / 256) % 256;
    let b2 = (length / 65536) % 256;
    let b3 = length / 16777216;
    assert(le_bytes(length)[0] == b0 && le_bytes(length)[1] == b1 && le_bytes(length)[2] == b2
        && le_bytes(length)[3] == b3);
    assert(b0 + 256 * b1 + 65536 * b2 + 16777216 * b3 == length) by (nonlinear_arith)
        requires
            b0 == length % 256,
            b1 == (length / 256) % 256,
            b2 == (length / 65536) % 256,
            b3 == length / 16777216,
    ;
}

} // verus!
