use rust_messaging::envelope::Credentials;
use rust_messaging::envelope::Envelope;
use rust_messaging::envelope::serialize_envelope;
use rust_messaging::envelope::parse_envelope;
use rust_messaging::envelope::serialize_credentials;
use rust_messaging::envelope::parse_credentials;
use rust_messaging::hashing::digest_password;

fn envelope(username: &str, pwd: &str, token: &str, to: &str, content: &str) -> Envelope {
    Envelope {
        from: Credentials {
            username: username.to_string(),
            pwd: pwd.to_string(),
            token: token.to_string(),
        },
        to: to.to_string(),
        content: content.to_string(),
    }
}

#[test]
fn serialized_envelope_has_canonical_shape() {
    let e = envelope("alice", "secret", "tok", "general", "hi");
    let text = serialize_envelope(&e);
    assert_eq!(
        text,
        "{\"from\":{\"username\":\"alice\",\"pwd\":\"secret\",\"token\":\"tok\"},\"to\":\"general\",\"content\":\"hi\"}"
    );
}

#[test]
fn envelope_round_trip_plain() {
    let e = envelope("alice", "secret", "tok", "general", "hello there");
    let text = serialize_envelope(&e);
    let back = parse_envelope(&text).unwrap();
    assert_eq!(back.from.username, "alice");
    assert_eq!(back.from.pwd, "secret");
    assert_eq!(back.from.token, "tok");
    assert_eq!(back.to, "general");
    assert_eq!(back.content, "hello there");
}

#[test]
fn envelope_round_trip_with_escapes() {
    let e = envelope("a\"b", "p\\q", "", "general", "say \"hi\" \\ done");
    let text = serialize_envelope(&e);
    let back = parse_envelope(&text).unwrap();
    assert_eq!(back.from.username, "a\"b");
    assert_eq!(back.from.pwd, "p\\q");
    assert_eq!(back.content, "say \"hi\" \\ done");
}

#[test]
fn envelope_round_trip_unicode() {
    let e = envelope("ålice", "pässwörd", "tok", "general", "héllo ✓ {}");
    let text = serialize_envelope(&e);
    let back = parse_envelope(&text).unwrap();
    assert_eq!(back.from.username, "ålice");
    assert_eq!(back.content, "héllo ✓ {}");
}

#[test]
fn malformed_envelopes_are_rejected() {
    assert!(parse_envelope("").is_none());
    assert!(parse_envelope("junk").is_none());
    assert!(parse_envelope("{\"from\":{\"username\":\"a\"}}").is_none());
    // unterminated string
    assert!(parse_envelope("{\"from\":{\"username\":\"alice").is_none());
    // trailing garbage after a well-formed envelope
    let e = envelope("a", "b", "c", "d", "e");
    let mut text = serialize_envelope(&e);
    text.push(' ');
    assert!(parse_envelope(&text).is_none());
}

#[test]
fn credentials_round_trip() {
    let text = serialize_credentials("bob", "hunter\"2\\");
    let (u, p) = parse_credentials(&text).unwrap();
    assert_eq!(u, "bob");
    assert_eq!(p, "hunter\"2\\");
    assert_eq!(serialize_credentials("bob", "pw"), "{\"username\":\"bob\",\"pwd\":\"pw\"}");
    assert!(parse_credentials("{\"username\":\"bob\"}").is_none());
}

#[test]
fn test_get_pseudo() {
    let user = Credentials::new(String::from("toto"), digest_password("toto"));
    assert_eq!(user.username.to_string(), String::from("toto"));
}
