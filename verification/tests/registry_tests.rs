use rust_messaging::registry::Registry;
use rust_messaging::registry::RegisterError;
use rust_messaging::registry::AuthError;
use rust_messaging::hashing::digest_password;
use rust_messaging::token::create_token;
use rust_messaging::TOKEN_LEN;

#[test]
fn first_register_succeeds_second_fails() {
    let mut reg = Registry::new();
    let t1 = reg.register("alice".to_string(), digest_password("pw1")).unwrap();
    assert_eq!(t1.len(), TOKEN_LEN);
    assert!(!t1.is_empty());
    // a second registration of the same username fails, whatever the password
    let r2 = reg.register("alice".to_string(), digest_password("pw2"));
    assert_eq!(r2, Err(RegisterError::DuplicateUsername));
    let r3 = reg.register("alice".to_string(), digest_password("pw1"));
    assert_eq!(r3, Err(RegisterError::DuplicateUsername));
    assert_eq!(reg.len(), 1);
}

#[test]
fn authenticate_matches_digest_exactly() {
    let mut reg = Registry::new();
    let t1 = reg.register("alice".to_string(), digest_password("pw1")).unwrap();
    // right digest: a fresh token, different from the registration token
    let t2 = reg.authenticate(&"alice".to_string(), &digest_password("pw1"), 7).unwrap();
    assert_eq!(t2.len(), TOKEN_LEN);
    assert_ne!(t2, t1);
    // wrong digest
    let bad = reg.authenticate(&"alice".to_string(), &digest_password("wrong"), 7);
    assert_eq!(bad, Err(AuthError::InvalidCredentials));
    // unknown username
    let unknown = reg.authenticate(&"nobody".to_string(), &digest_password("pw1"), 7);
    assert_eq!(unknown, Err(AuthError::InvalidCredentials));
}

#[test]
fn login_invalidates_previous_token() {
    let mut reg = Registry::new();
    reg.register("alice".to_string(), digest_password("pw1")).unwrap();
    let t2 = reg.authenticate(&"alice".to_string(), &digest_password("pw1"), 1).unwrap();
    assert!(reg.is_session_valid(&"alice".to_string(), &t2));
    let t3 = reg.authenticate(&"alice".to_string(), &digest_password("pw1"), 2).unwrap();
    assert_ne!(t3, t2);
    // the old token is no longer a live session, the new one is
    assert!(!reg.is_session_valid(&"alice".to_string(), &t2));
    assert!(reg.is_session_valid(&"alice".to_string(), &t3));
}

#[test]
fn session_checks_both_username_and_token() {
    let mut reg = Registry::new();
    reg.register("alice".to_string(), digest_password("a")).unwrap();
    reg.register("bob".to_string(), digest_password("b")).unwrap();
    let ta = reg.authenticate(&"alice".to_string(), &digest_password("a"), 1).unwrap();
    assert!(!reg.is_session_valid(&"bob".to_string(), &ta));
    assert!(!reg.is_session_valid(&"alice".to_string(), &"".to_string()));
}

#[test]
fn snapshot_copies_the_accounts() {
    let mut reg = Registry::new();
    reg.register("alice".to_string(), digest_password("a")).unwrap();
    let t = reg.authenticate(&"alice".to_string(), &digest_password("a"), 9).unwrap();
    let snap = reg.snapshot();
    assert_eq!(snap.len(), 1);
    assert_eq!(snap[0].username, "alice");
    assert_eq!(snap[0].token, t);
    assert_eq!(snap[0].handle, Some(9));
}

#[test]
fn tokens_are_alphanumeric_and_full_length() {
    let t = create_token();
    assert_eq!(t.len(), TOKEN_LEN);
    assert!(t.chars().all(|c| c.is_ascii_alphanumeric()));
    // two fresh tokens of thirty random alphanumeric characters
    // collide with negligible probability
    let u = create_token();
    assert_ne!(t, u);
}

#[test]
fn digest_is_deterministic_and_not_the_password() {
    let h = digest_password("test");
    assert_eq!(h, digest_password("test"));
    assert_ne!(h, digest_password("ok"));
    assert_ne!(h, "test");
    assert!(!h.is_empty());
}
