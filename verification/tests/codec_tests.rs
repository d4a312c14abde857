use secretstore::{decode, encode, Entry, VaultError};

fn entry(platform: &str, username: &str, password: &str) -> Entry {
    Entry::new(
        platform.to_string(),
        username.to_string(),
        password.to_string(),
    )
}

#[test]
fn encode_exact_bytes() {
    let entries = vec![entry("p", "u", "a\nb")];
    let encoded = encode(&entries);
    assert_eq!(
        encoded,
        vec![b'p', 0x0A, b'u', 0x0A, b'a', 0x5C, b'n', b'b', 0x0A]
    );
}

#[test]
fn encode_escapes_backslash() {
    let entries = vec![entry("a\\b", "u", "w")];
    let encoded = encode(&entries);
    assert_eq!(
        encoded,
        vec![b'a', 0x5C, 0x5C, b'b', 0x0A, b'u', 0x0A, b'w', 0x0A]
    );
}

#[test]
fn encode_decode_round_trip() {
    let entries = vec![
        entry("github", "alice", "p@ss1"),
        entry("github", "bob", "dup\\icate"),
        entry("email", "café", "line\nbreak\\and\\more\n"),
        entry("", "", ""),
    ];
    let decoded = decode(&encode(&entries)).expect("canonical encoding must decode");
    assert_eq!(decoded.len(), entries.len());
    for (d, e) in decoded.iter().zip(entries.iter()) {
        assert_eq!(d.platform, e.platform);
        assert_eq!(d.username, e.username);
        assert_eq!(d.password, e.password);
    }
}

#[test]
fn decode_empty_is_empty_vault() {
    let decoded = decode(b"").expect("empty text is the empty vault");
    assert!(decoded.is_empty());
}

#[test]
fn decode_rejects_missing_terminator() {
    assert_eq!(decode(b"github").err(), Some(VaultError::DecodeFailure));
    assert_eq!(decode(b"a\nb\nc\nd").err(), Some(VaultError::DecodeFailure));
}

#[test]
fn decode_rejects_unknown_escape() {
    assert_eq!(decode(b"a\\qb\nu\nw\n").err(), Some(VaultError::DecodeFailure));
}

#[test]
fn decode_rejects_dangling_escape() {
    assert_eq!(decode(b"ab\\").err(), Some(VaultError::DecodeFailure));
}

#[test]
fn decode_rejects_partial_record() {
    assert_eq!(decode(b"github\n").err(), Some(VaultError::DecodeFailure));
    assert_eq!(decode(b"github\nalice\n").err(), Some(VaultError::DecodeFailure));
    assert_eq!(
        decode(b"a\nb\nc\nd\n").err(),
        Some(VaultError::DecodeFailure)
    );
}

#[test]
fn decode_rejects_invalid_utf8() {
    assert_eq!(
        decode(&[0xFF, 0x0A, b'u', 0x0A, b'w', 0x0A]).err(),
        Some(VaultError::DecodeFailure)
    );
}
