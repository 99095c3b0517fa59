use ctab_web::bridge::{
    companion_arguments, decode_arma_string_argument, dispatch_response, frame_length_from_prefix,
    frame_length_prefix, output_bytes, pipe_name, plan_dispatch, random_hex, should_retry_open,
    validate_companion_path, BridgeError, BridgeService, DispatchCall, OpenErrorKind,
};
use ctab_web::companion::{check_pipe_name, check_pipe_token, parse_options};
use ctab_web::protocol::{synthetic_snapshot, BridgeMessage};

#[test]
fn decodes_legacy_arma_string_arguments() {
    let encoded = r#""{""protocol_version"":1}""#.to_owned();
    assert_eq!(
        decode_arma_string_argument(encoded),
        r#"{"protocol_version":1}"#
    );
    assert_eq!(decode_arma_string_argument("plain".to_owned()), "plain");
}

#[test]
fn decoding_keeps_unpaired_and_lone_quotes() {
    assert_eq!(decode_arma_string_argument("\"".to_owned()), "\"");
    assert_eq!(decode_arma_string_argument("\"\"".to_owned()), "");
    assert_eq!(decode_arma_string_argument("\"a\"\"\"b\"".to_owned()), "a\"\"b");
    assert_eq!(decode_arma_string_argument("\"\"\"\"\"".to_owned()), "\"\"");
}

#[test]
fn validates_the_exact_companion_filename() {
    assert!(matches!(
        validate_companion_path(Some("not-the-companion.exe"), false),
        Err(BridgeError::CompanionMissing)
    ));
}

#[test]
fn companion_filename_is_matched_without_regard_to_case_and_must_exist() {
    assert!(validate_companion_path(Some("CTAB-Web-Companion.EXE"), true).is_ok());
    assert!(matches!(
        validate_companion_path(Some("ctab-web-companion.exe"), false),
        Err(BridgeError::CompanionMissing)
    ));
    assert!(matches!(
        validate_companion_path(None, true),
        Err(BridgeError::CompanionMissing)
    ));
}

#[test]
fn dispatch_version_does_not_start_a_process() {
    let call = plan_dispatch("version", &Vec::new()).expect("version call");
    assert_eq!(call, DispatchCall::Version);
    let response = dispatch_response(&call, "1.0.0");
    assert!(response.contains("1.0.0"));
    assert_eq!(response, r#"{"ok":true,"version":"1.0.0"}"#);
}

#[test]
fn dispatch_plans_each_supported_call_and_refuses_the_rest() {
    assert_eq!(plan_dispatch("start", &Vec::new()), Ok(DispatchCall::Start));
    assert_eq!(
        plan_dispatch("open_browser", &Vec::new()),
        Ok(DispatchCall::OpenBrowser)
    );
    assert_eq!(
        plan_dispatch("publish", &vec!["{}".to_owned()]),
        Ok(DispatchCall::Publish("{}".to_owned()))
    );
    assert_eq!(
        plan_dispatch("publish", &Vec::new()),
        Err(BridgeError::InvalidPayload(
            "publish requires one JSON envelope".to_owned()
        ))
    );
    assert_eq!(
        plan_dispatch("publish", &vec!["x".repeat(262_145)]),
        Err(BridgeError::FrameTooLarge)
    );
    assert_eq!(
        plan_dispatch("unknown", &Vec::new()),
        Err(BridgeError::InvalidPayload(
            "unsupported bridge function".to_owned()
        ))
    );
    assert_eq!(
        dispatch_response(&DispatchCall::Start, "1.0.0"),
        r#"{"ok":true,"status":"started"}"#
    );
    assert_eq!(
        dispatch_response(&DispatchCall::Publish(String::new()), "1.0.0"),
        r#"{"ok":true,"status":"queued"}"#
    );
    assert_eq!(
        dispatch_response(&DispatchCall::OpenBrowser, "1.0.0"),
        r#"{"ok":true,"status":"browser_open_requested"}"#
    );
}

#[test]
fn browser_open_request_uses_the_authenticated_control_channel() {
    let (sender, receiver) = std::sync::mpsc::sync_channel(1);
    let mut service = BridgeService::new(sender, "a".repeat(64));
    let frame = service.browser_open_frame();
    assert_eq!(frame.pipe_token, "a".repeat(64));
    assert_eq!(frame.message, BridgeMessage::OpenBrowser);
    service
        .enqueue_encoded(b"browser-open".to_vec())
        .expect("enqueue browser-open request");
    let payload = receiver.recv().expect("receive browser-open request");
    assert_eq!(payload, b"browser-open".to_vec());
}

#[test]
fn enqueue_reports_a_full_queue_a_stopped_writer_and_oversized_frames() {
    let (sender, receiver) = std::sync::mpsc::sync_channel(1);
    let mut service = BridgeService::new(sender, "a".repeat(64));
    assert!(service.enqueue_encoded(vec![1]).is_ok());
    assert_eq!(service.enqueue_encoded(vec![2]), Err(BridgeError::QueueFull));
    assert_eq!(
        service.enqueue_encoded(vec![0; 262_145]),
        Err(BridgeError::FrameTooLarge)
    );
    drop(receiver);
    assert_eq!(service.enqueue_encoded(vec![3]), Err(BridgeError::WriterStopped));
}

#[test]
fn publish_frames_carry_the_token_and_refuse_invalid_envelopes() {
    let (sender, _receiver) = std::sync::mpsc::sync_channel(1);
    let service = BridgeService::new(sender, "b".repeat(64));
    let frame = service
        .publish_frame(synthetic_snapshot())
        .expect("valid envelope");
    assert_eq!(frame.pipe_token, "b".repeat(64));
    assert_eq!(
        frame.message,
        BridgeMessage::Publish {
            envelope: synthetic_snapshot()
        }
    );
    let mut invalid = synthetic_snapshot();
    invalid.protocol_version = 9;
    assert_eq!(
        service.publish_frame(invalid),
        Err(BridgeError::InvalidPayload(
            "unsupported protocol version".to_owned()
        ))
    );
}

#[test]
fn error_messages_name_their_cause() {
    assert_eq!(
        BridgeError::InvalidPayload("bad".to_owned()).describe(),
        "the payload is invalid: bad"
    );
    assert_eq!(
        BridgeError::QueueFull.describe(),
        "the bridge queue is full"
    );
    assert_eq!(
        BridgeError::RandomSource("gone".to_owned()).describe(),
        "the Windows cryptographic random source is unavailable: gone"
    );
}

#[test]
fn output_is_bounded_and_null_terminated() {
    assert_eq!(output_bytes(b"1.0.0", 5), Some(b"1.0.\0".to_vec()));
    assert_eq!(output_bytes(b"ok", 10), Some(b"ok\0".to_vec()));
    assert_eq!(output_bytes(b"ok", 1), Some(b"\0".to_vec()));
    assert_eq!(output_bytes(b"ok", 0), None);
    assert_eq!(output_bytes(b"ok", -4), None);
}

#[test]
fn bridge_pipe_names_and_tokens_are_accepted_by_the_companion() {
    let suffix = random_hex(8).expect("random suffix");
    assert_eq!(suffix.len(), 16);
    let name = pipe_name(4242, &suffix);
    assert!(name.starts_with(r"\\.\pipe\ctab-web-4242-"));
    assert!(check_pipe_name(&name));
    let token = random_hex(32).expect("random token");
    assert_eq!(token.len(), 64);
    assert!(token.bytes().all(|b| b.is_ascii_hexdigit()));
    assert!(check_pipe_token(&token));
    assert_eq!(pipe_name(0, "ab"), r"\\.\pipe\ctab-web-0-ab");
}

#[test]
fn the_companion_reads_back_the_bridge_command_line() {
    let arguments = companion_arguments(
        r"\\.\pipe\ctab-web-1-ab",
        "token",
        false,
        Some(r"X:\Games\Arma 3"),
    );
    assert_eq!(
        arguments,
        vec![
            "--pipe-name",
            r"\\.\pipe\ctab-web-1-ab",
            "--pipe-token",
            "token",
            "--arma-root",
            r"X:\Games\Arma 3",
            "--no-browser"
        ]
    );
    let options = parse_options(&arguments).expect("options");
    assert_eq!(options.pipe_name, r"\\.\pipe\ctab-web-1-ab");
    assert_eq!(options.pipe_token, "token");
    assert!(!options.open_browser);
    assert_eq!(options.arma_root.as_deref(), Some(r"X:\Games\Arma 3"));
    let plain = companion_arguments("name", "--no-browser", true, None);
    let options = parse_options(&plain).expect("options");
    assert_eq!(options.pipe_token, "--no-browser");
    assert!(options.open_browser);
    assert_eq!(options.arma_root, None);
}

#[test]
fn frame_lengths_round_trip_through_the_header() {
    let header = frame_length_prefix(0x0102_0304).expect("fits");
    assert_eq!(header, [4, 3, 2, 1]);
    assert_eq!(frame_length_from_prefix(header), 0x0102_0304);
    assert_eq!(frame_length_prefix(usize::MAX), None);
}

#[test]
fn opening_the_pipe_is_retried_only_for_transient_errors() {
    assert!(should_retry_open(10, 20, OpenErrorKind::NotFound));
    assert!(should_retry_open(10, 20, OpenErrorKind::WouldBlock));
    assert!(should_retry_open(10, 20, OpenErrorKind::PermissionDenied));
    assert!(!should_retry_open(10, 20, OpenErrorKind::Other));
    assert!(!should_retry_open(20, 20, OpenErrorKind::NotFound));
}

#[test]
fn version_call_is_bounded_and_null_terminated() {
    let version = "1.0.0";
    let output = output_bytes(version.as_bytes(), 5).expect("room for output");
    assert_eq!(output.len(), 5);
    assert_eq!(output[4], 0);
    assert_eq!(&output[..4], &version.as_bytes()[..4]);
}

#[test]
fn args_reject_unknown_function_without_panicking() {
    let error = plan_dispatch("unknown", &Vec::new()).expect_err("unknown function");
    assert!(error.describe().contains("unsupported bridge function"));
}

#[test]
fn enqueue_path_stays_below_the_five_millisecond_p99_budget() {
    let (sender, receiver) = std::sync::mpsc::sync_channel(ctab_web::bridge::QUEUE_CAPACITY);
    let mut service = BridgeService::new(sender, "a".repeat(64));
    let mut samples = Vec::with_capacity(1_000);
    for sequence in 0..1_000 {
        let mut envelope = synthetic_snapshot();
        envelope.sequence = sequence;
        let started = std::time::Instant::now();
        let frame = service.publish_frame(envelope).expect("valid snapshot");
        let payload = frame.pipe_token.into_bytes();
        service.enqueue_encoded(payload).expect("enqueue snapshot");
        samples.push(started.elapsed());
        receiver.recv().expect("drain queue");
    }
    samples.sort_unstable();
    let p99 = samples[989];
    assert!(
        p99 < std::time::Duration::from_millis(5),
        "enqueue p99 exceeded 5 ms: {p99:?}"
    );
}
