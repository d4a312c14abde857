use secretstore::{decrypt_data, encrypt_data, VaultError};

#[test]
fn seal_open_round_trip() {
    let plaintext = b"the quick brown fox";
    let envelope = encrypt_data("M1", plaintext);
    let opened = decrypt_data("M1", &envelope).expect("correct password must open");
    assert_eq!(opened, plaintext.to_vec());
}

#[test]
fn seal_open_round_trip_empty_plaintext() {
    let envelope = encrypt_data("M1", b"");
    assert_eq!(envelope.len(), 44);
    let opened = decrypt_data("M1", &envelope).expect("correct password must open");
    assert_eq!(opened, Vec::<u8>::new());
}

#[test]
fn envelope_structure() {
    let plaintext = b"0123456789";
    let envelope = encrypt_data("M1", plaintext);
    // salt (16) || nonce (12) || ciphertext+tag (len + 16)
    assert_eq!(envelope.len(), plaintext.len() + 44);
    // the ciphertext region is not the plaintext handed back unchanged
    assert_ne!(&envelope[28..28 + plaintext.len()], plaintext.as_slice());
}

#[test]
fn wrong_password_fails() {
    let envelope = encrypt_data("M1", b"attack at dawn");
    let r = decrypt_data("M2", &envelope);
    assert_eq!(r, Err(VaultError::AuthenticationFailure));
}

#[test]
fn seal_twice_differs() {
    let a = encrypt_data("M1", b"same input");
    let b = encrypt_data("M1", b"same input");
    // fresh salt and nonce on every call: identical inputs, distinct envelopes
    assert_ne!(a, b);
    assert_ne!(&a[0..16], &b[0..16]);
    assert_ne!(&a[16..28], &b[16..28]);
}

#[test]
fn bit_flip_fails_in_every_region() {
    let envelope = encrypt_data("M1", b"vault body");
    // one flipped bit in the salt, the nonce, the ciphertext and the tag
    let positions = [0, 15, 16, 27, 28, envelope.len() - 17, envelope.len() - 1];
    for (n, &i) in positions.iter().enumerate() {
        let mut tampered = envelope.clone();
        tampered[i] ^= 1 << (n % 8);
        let r = decrypt_data("M1", &tampered);
        assert_eq!(r, Err(VaultError::AuthenticationFailure), "byte {i} accepted");
    }
}

#[test]
fn truncated_envelope_fails() {
    let envelope = encrypt_data("M1", b"short");
    assert_eq!(
        decrypt_data("M1", &envelope[..20]),
        Err(VaultError::AuthenticationFailure)
    );
    assert_eq!(
        decrypt_data("M1", &envelope[..envelope.len() - 1]),
        Err(VaultError::AuthenticationFailure)
    );
    assert_eq!(decrypt_data("M1", b""), Err(VaultError::AuthenticationFailure));
}
