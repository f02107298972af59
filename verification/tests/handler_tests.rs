use rust_messaging::codec::decode_frame;
use rust_messaging::codec::encode_frame;
use rust_messaging::envelope::Credentials;
use rust_messaging::envelope::Envelope;
use rust_messaging::envelope::serialize_envelope;
use rust_messaging::handlers::handle_register;
use rust_messaging::handlers::handle_login;
use rust_messaging::handlers::handle_chat;
use rust_messaging::handlers::plan_broadcast;
use rust_messaging::handlers::make_register_request;
use rust_messaging::handlers::make_login_request;
use rust_messaging::handlers::make_chat_frame;
use rust_messaging::handlers::parse_token_reply;
use rust_messaging::handlers::render_broadcast;
use rust_messaging::handlers::ChatError;
use rust_messaging::handlers::ChatMessage;
use rust_messaging::handlers::DecodeFailure;
use rust_messaging::registry::Registry;
use rust_messaging::codec::EncodeError;
use rust_messaging::DATA_FRAME_LEN;
use rust_messaging::TOKEN_FRAME_LEN;

fn chat_envelope(username: &str, token: &str, to: &str, content: &str) -> Envelope {
    Envelope {
        from: Credentials {
            username: username.to_string(),
            pwd: String::new(),
            token: token.to_string(),
        },
        to: to.to_string(),
        content: content.to_string(),
    }
}

/// The full scenario: register alice (token of length 30), a second
/// registration of alice fails, login issues a fresh token, and a chat
/// frame from alice reaches every other connected account's handle and
/// never her own.
#[test]
fn register_login_relay_scenario() {
    let mut reg = Registry::new();

    let f1 = make_register_request("alice", "pw1").unwrap();
    let r1 = handle_register(&mut reg, &f1).unwrap();
    assert_eq!(r1.len(), TOKEN_FRAME_LEN);
    let t1 = parse_token_reply(&r1).unwrap().expect("first registration must succeed");
    assert_eq!(t1.len(), 30);
    assert!(!t1.is_empty());

    let f2 = make_register_request("alice", "pw2").unwrap();
    let r2 = handle_register(&mut reg, &f2).unwrap();
    assert_eq!(parse_token_reply(&r2).unwrap(), None);

    let fb = make_register_request("bob", "pwb").unwrap();
    let rb = handle_register(&mut reg, &fb).unwrap();
    assert!(parse_token_reply(&rb).unwrap().is_some());

    let f3 = make_login_request("alice", "pw1").unwrap();
    let r3 = handle_login(&mut reg, &f3, 1).unwrap();
    let t2 = parse_token_reply(&r3).unwrap().expect("login with the right password succeeds");
    assert_ne!(t2, t1);

    let fbl = make_login_request("bob", "pwb").unwrap();
    let rbl = handle_login(&mut reg, &fbl, 2).unwrap();
    parse_token_reply(&rbl).unwrap().expect("bob's login succeeds");

    let chat = make_chat_frame(&chat_envelope("alice", &t2, "general", "hi")).unwrap();
    let msg = handle_chat(&mut reg, &chat, 1).unwrap();
    assert_eq!(msg.username, "alice");
    assert_eq!(msg.content, "hi");

    let (frame, targets) = plan_broadcast(&reg, &msg).unwrap();
    // bob receives it, alice's own handle does not
    assert_eq!(targets, vec![2]);
    assert_eq!(decode_frame(&frame).unwrap(), "alice : hi");
}

#[test]
fn relay_with_stale_token_is_rejected() {
    let mut reg = Registry::new();
    let rf = make_register_request("alice", "pw1").unwrap();
    handle_register(&mut reg, &rf).unwrap();
    let lf = make_login_request("alice", "pw1").unwrap();
    let t2 = parse_token_reply(&handle_login(&mut reg, &lf, 1).unwrap()).unwrap().unwrap();
    // a second login invalidates t2 immediately
    let lf2 = make_login_request("alice", "pw1").unwrap();
    let t3 = parse_token_reply(&handle_login(&mut reg, &lf2, 3).unwrap()).unwrap().unwrap();
    assert_ne!(t3, t2);
    let stale = make_chat_frame(&chat_envelope("alice", &t2, "general", "hi")).unwrap();
    let r = handle_chat(&mut reg, &stale, 1);
    assert_eq!(r.unwrap_err(), ChatError::UnauthenticatedRelay);
    let live = make_chat_frame(&chat_envelope("alice", &t3, "general", "hi")).unwrap();
    assert!(handle_chat(&mut reg, &live, 3).is_ok());
}

#[test]
fn login_with_wrong_password_gets_the_empty_frame() {
    let mut reg = Registry::new();
    let rf = make_register_request("alice", "pw1").unwrap();
    handle_register(&mut reg, &rf).unwrap();
    let lf = make_login_request("alice", "nope").unwrap();
    let reply = handle_login(&mut reg, &lf, 1).unwrap();
    assert_eq!(reply, vec![0u8; TOKEN_FRAME_LEN]);
    assert_eq!(parse_token_reply(&reply).unwrap(), None);
}

#[test]
fn unreadable_frames_are_fatal() {
    let mut reg = Registry::new();
    let mut bad = vec![0u8; DATA_FRAME_LEN];
    bad[0] = 0xff;
    bad[1] = 0xfe;
    assert_eq!(handle_register(&mut reg, &bad), Err(DecodeFailure::InvalidUtf8));
    assert_eq!(handle_login(&mut reg, &bad, 1), Err(DecodeFailure::InvalidUtf8));
    assert_eq!(
        handle_chat(&mut reg, &bad, 1).unwrap_err(),
        ChatError::Decode(DecodeFailure::InvalidUtf8)
    );
    let junk = encode_frame("junk", DATA_FRAME_LEN).unwrap();
    assert_eq!(handle_register(&mut reg, &junk), Err(DecodeFailure::MalformedEnvelope));
    assert_eq!(
        handle_chat(&mut reg, &junk, 1).unwrap_err(),
        ChatError::Decode(DecodeFailure::MalformedEnvelope)
    );
}

#[test]
fn empty_content_is_not_relayed() {
    let mut reg = Registry::new();
    let rf = make_register_request("alice", "pw1").unwrap();
    handle_register(&mut reg, &rf).unwrap();
    let lf = make_login_request("alice", "pw1").unwrap();
    let t = parse_token_reply(&handle_login(&mut reg, &lf, 1).unwrap()).unwrap().unwrap();
    let empty = make_chat_frame(&chat_envelope("alice", &t, "general", "")).unwrap();
    assert_eq!(handle_chat(&mut reg, &empty, 1).unwrap_err(), ChatError::EmptyContent);
}

#[test]
fn relay_rebinds_the_senders_handle() {
    let mut reg = Registry::new();
    let rf = make_register_request("alice", "pw1").unwrap();
    handle_register(&mut reg, &rf).unwrap();
    let lf = make_login_request("alice", "pw1").unwrap();
    let t = parse_token_reply(&handle_login(&mut reg, &lf, 1).unwrap()).unwrap().unwrap();
    // the same session reconnects on a new handle; a relayed frame
    // rebinds the live handle to the new connection
    let chat = make_chat_frame(&chat_envelope("alice", &t, "general", "hi")).unwrap();
    handle_chat(&mut reg, &chat, 5).unwrap();
    let snap = reg.snapshot();
    assert_eq!(snap[0].handle, Some(5));
}

/// An envelope whose serialized text is exactly the frame capacity
/// round-trips; one character more is rejected at encode time.
#[test]
fn chat_frame_boundary() {
    let base = serialize_envelope(&chat_envelope("a", "t", "general", "")).len();
    let fill = "x".repeat(DATA_FRAME_LEN - base);
    let exact = chat_envelope("a", "t", "general", &fill);
    assert_eq!(serialize_envelope(&exact).len(), DATA_FRAME_LEN);
    let frame = make_chat_frame(&exact).unwrap();
    let text = decode_frame(&frame).unwrap();
    let back = rust_messaging::envelope::parse_envelope(&text).unwrap();
    assert_eq!(back.content, fill);

    let over = chat_envelope("a", "t", "general", &"x".repeat(DATA_FRAME_LEN - base + 1));
    assert_eq!(make_chat_frame(&over), Err(EncodeError::Oversize));
}

#[test]
fn rendered_line_has_the_expected_shape() {
    let m = ChatMessage {
        username: "alice".to_string(),
        token: "t".to_string(),
        content: "hi".to_string(),
    };
    assert_eq!(render_broadcast(&m), "alice : hi");
}
