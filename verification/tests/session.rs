use petals_client::GenerateParamsBuilder;
use petals_client::HandshakeEvent;
use petals_client::InferenceSession;
use petals_client::Model;
use petals_client::OpenInferenceSessionError;
use petals_client::Response;

/// A mock transport: it records every outbound frame and serves scripted
/// inbound frames, exactly one per read.
struct MockTransport {
    sent: Vec<String>,
    replies: Vec<String>,
}

impl MockTransport {
    fn new(replies: Vec<String>) -> MockTransport {
        MockTransport { sent: Vec::new(), replies }
    }

    fn send(&mut self, frame: String) {
        self.sent.push(frame);
    }

    fn read(&mut self) -> String {
        self.replies.remove(0)
    }
}

/// Drives the open handshake over a mock transport, as an I/O layer would.
fn open_over(
    t: &mut MockTransport,
    max_length: u32,
    model: Option<Model>,
) -> Result<InferenceSession, OpenInferenceSessionError> {
    t.send(InferenceSession::open_frame(max_length, &model));
    let frame = t.read();
    InferenceSession::open(max_length, model, HandshakeEvent::Reply { frame })
}

#[test]
fn open_succeeds_on_ok_true_and_session_is_usable() {
    let mut t = MockTransport::new(vec!["{\"ok\": true}".to_string()]);
    let session = open_over(&mut t, 100, None).unwrap();
    let p = GenerateParamsBuilder::new().max_new_tokens(8).build().unwrap();
    t.send(session.generate(p));
    assert_eq!(t.sent.len(), 2);
    assert_eq!(t.sent[1], "{\"type\":\"generate\",\"max_new_tokens\":8}");
}

#[test]
fn open_fails_with_api_error_on_ok_false() {
    let mut t = MockTransport::new(vec![
        "{\"ok\": false, \"traceback\": \"boom\"}".to_string(),
    ]);
    let err = open_over(&mut t, 100, None).unwrap_err();
    match err {
        OpenInferenceSessionError::ApiError { traceback } => assert_eq!(traceback, "boom"),
        other => panic!("expected an api error, got {:?}", other),
    }
}

#[test]
fn transport_failure_is_never_an_api_error() {
    for stage in ["connect refused", "send failed", "read failed"] {
        let err = InferenceSession::open(
            100,
            None,
            HandshakeEvent::TransportFailed { detail: stage.to_string() },
        )
        .unwrap_err();
        match err {
            OpenInferenceSessionError::TransportError { detail } => assert_eq!(detail, stage),
            other => panic!("expected a transport error, got {:?}", other),
        }
    }
}

#[test]
fn malformed_handshake_reply_is_a_decode_error() {
    let err = InferenceSession::open(
        100,
        None,
        HandshakeEvent::Reply { frame: "not a frame".to_string() },
    )
    .unwrap_err();
    assert!(matches!(err, OpenInferenceSessionError::ProtocolDecodeError { .. }));
}

#[test]
fn generate_completes_without_any_response() {
    // The mock transport has no reply scripted at all: generate still
    // completes, since it only produces the outbound frame and reads nothing.
    let mut t = MockTransport::new(Vec::new());
    let session = InferenceSession::open(
        100,
        None,
        HandshakeEvent::Reply { frame: "{\"ok\":true}".to_string() },
    )
    .unwrap();
    let p = GenerateParamsBuilder::new().inputs("x".to_string()).max_length(3).build().unwrap();
    t.send(session.generate(p));
    assert_eq!(t.sent.len(), 1);
    assert!(t.replies.is_empty());
}

#[test]
fn end_to_end_two_frames_in_order() {
    let mut t = MockTransport::new(vec!["{\"ok\": true}".to_string()]);
    let session = open_over(&mut t, 100, Some(Model::Llama2_70bChatHf)).unwrap();
    let p = GenerateParamsBuilder::new()
        .inputs("Hello".to_string())
        .max_new_tokens(20)
        .build()
        .unwrap();
    t.send(session.generate(p));
    assert_eq!(t.sent.len(), 2);
    assert_eq!(
        t.sent[0],
        "{\"type\":\"open_inference_session\",\"max_length\":100,\"model\":\"meta-llama/Llama-2-70b-chat-hf\"}"
    );
    assert_eq!(t.sent[1], "{\"type\":\"generate\",\"inputs\":\"Hello\",\"max_new_tokens\":20}");
}

#[test]
fn stream_response_decodes() {
    let r = Response::decode("{\"ok\": true, \"outputs\": \"Hello w\", \"stop\": false}").unwrap();
    assert!(r.ok);
    assert_eq!(r.outputs, "Hello w");
    assert!(!r.stop);

    let r = Response::decode("{\"ok\":true,\"outputs\":\"!\",\"stop\":true}").unwrap();
    assert!(r.stop);
}

#[test]
fn stream_response_without_stop_flag_is_rejected() {
    assert!(Response::decode("{\"ok\": true, \"outputs\": \"x\"}").is_none());
    assert!(Response::decode("{\"ok\": true}").is_none());
    assert!(Response::decode("garbage").is_none());
}

#[test]
fn open_session_remembers_its_bounds() {
    let session = InferenceSession::open(
        77,
        Some(Model::Bloomz),
        HandshakeEvent::Reply { frame: "{\"ok\":true}".to_string() },
    )
    .unwrap();
    assert_eq!(session.max_length, 77);
    assert_eq!(session.model, Some(Model::Bloomz));
}

#[test]
fn ok_false_without_traceback_gives_empty_traceback() {
    let err = InferenceSession::open(
        1,
        None,
        HandshakeEvent::Reply { frame: "{\"ok\": false}".to_string() },
    )
    .unwrap_err();
    match err {
        OpenInferenceSessionError::ApiError { traceback } => assert_eq!(traceback, ""),
        other => panic!("expected an api error, got {:?}", other),
    }
}
