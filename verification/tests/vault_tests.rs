use secretstore::{encrypt_data, Entry, Vault, VaultError};

fn entry(platform: &str, username: &str, password: &str) -> Entry {
    Entry::new(
        platform.to_string(),
        username.to_string(),
        password.to_string(),
    )
}

#[test]
fn fresh_vault_is_empty() {
    let vault = Vault::new();
    assert_eq!(vault.len(), 0);
    assert!(vault.list().is_empty());
}

#[test]
fn empty_file_lists_nothing() {
    // zero bytes on disk is the valid "initialized but empty" state, opened
    // without invoking the cipher, whatever the password
    let vault = Vault::open("anything", b"").expect("empty file is not an error");
    assert_eq!(vault.len(), 0);
    assert!(vault.list().is_empty());
}

#[test]
fn add_then_find() {
    let mut vault = Vault::new();
    vault.add(entry("github", "alice", "p@ss1"));
    let found = vault.find("github").expect("just-added entry must be found");
    assert_eq!(found.username, "alice");
    assert_eq!(found.password, "p@ss1");
    assert!(vault.find("email").is_none());
}

#[test]
fn find_first_match_wins_under_duplicates() {
    let mut vault = Vault::new();
    vault.add(entry("github", "alice", "p@ss1"));
    vault.add(entry("github", "bob", "p@ss2"));
    let found = vault.find("github").unwrap();
    assert_eq!(found.username, "alice");
}

#[test]
fn remove_deletes_all_duplicates() {
    let mut vault = Vault::new();
    vault.add(entry("github", "alice", "a"));
    vault.add(entry("email", "alice", "b"));
    vault.add(entry("github", "bob", "c"));
    vault.add(entry("github", "carol", "d"));
    let removed = vault.remove("github");
    assert_eq!(removed, 3);
    assert_eq!(vault.len(), 1);
    assert!(vault.find("github").is_none());
    assert_eq!(vault.find("email").unwrap().username, "alice");
}

#[test]
fn remove_missing_platform_removes_nothing() {
    let mut vault = Vault::new();
    vault.add(entry("github", "alice", "a"));
    assert_eq!(vault.remove("email"), 0);
    assert_eq!(vault.len(), 1);
}

#[test]
fn save_empty_vault_round_trips() {
    let vault = Vault::new();
    let bytes = vault.save("M1").expect("empty vault must save");
    assert_eq!(bytes.len(), 44);
    let reopened = Vault::open("M1", &bytes).expect("saved vault must open");
    assert_eq!(reopened.len(), 0);
}

#[test]
fn scenario_add_then_get() {
    // the empty vault gains one entry; get under the same master returns it
    let mut vault = Vault::open("M1", b"").unwrap();
    vault.add(entry("github", "alice", "p@ss1"));
    let stored = vault.save("M1").expect("vault must save");
    let reopened = Vault::open("M1", &stored).expect("correct master must open");
    assert_eq!(reopened.len(), 1);
    let found = reopened.find("github").expect("stored entry must be found");
    assert_eq!(found.username, "alice");
    assert_eq!(found.password, "p@ss1");
}

#[test]
fn scenario_second_add_then_list() {
    let mut vault = Vault::open("M1", b"").unwrap();
    vault.add(entry("github", "alice", "p@ss1"));
    let stored = vault.save("M1").unwrap();
    let mut vault = Vault::open("M1", &stored).unwrap();
    vault.add(entry("email", "alice", "p@ss2"));
    let stored = vault.save("M1").unwrap();
    let reopened = Vault::open("M1", &stored).unwrap();
    assert_eq!(reopened.len(), 2);
    let listed = reopened.list();
    assert_eq!(listed[0].platform, "github");
    assert_eq!(listed[0].username, "alice");
    assert_eq!(listed[1].platform, "email");
    assert_eq!(listed[1].username, "alice");
}

#[test]
fn scenario_wrong_master_then_right() {
    let mut vault = Vault::new();
    vault.add(entry("github", "alice", "p@ss1"));
    let stored = vault.save("M1").unwrap();
    assert_eq!(
        Vault::open("M2", &stored).err(),
        Some(VaultError::AuthenticationFailure)
    );
    let retried = Vault::open("M1", &stored).expect("retry under the right master succeeds");
    assert_eq!(retried.find("github").unwrap().password, "p@ss1");
}

#[test]
fn scenario_delete_then_get() {
    let mut vault = Vault::new();
    vault.add(entry("github", "alice", "p@ss1"));
    vault.add(entry("email", "alice", "p@ss2"));
    let stored = vault.save("M1").unwrap();
    let mut vault = Vault::open("M1", &stored).unwrap();
    assert_eq!(vault.remove("github"), 1);
    let stored = vault.save("M1").unwrap();
    let reopened = Vault::open("M1", &stored).unwrap();
    assert_eq!(reopened.len(), 1);
    assert!(reopened.find("github").is_none());
    assert_eq!(reopened.find("email").unwrap().password, "p@ss2");
}

#[test]
fn scenario_tampered_ciphertext_never_accepted() {
    let mut vault = Vault::new();
    vault.add(entry("email", "alice", "p@ss2"));
    let mut stored = vault.save("M1").unwrap();
    // flip one byte inside the ciphertext region (it starts at offset 28)
    stored[30] ^= 0x01;
    assert_eq!(
        Vault::open("M1", &stored).err(),
        Some(VaultError::AuthenticationFailure)
    );
    assert_eq!(
        Vault::open("M2", &stored).err(),
        Some(VaultError::AuthenticationFailure)
    );
}

#[test]
fn corrupt_plaintext_is_decode_failure_not_empty_vault() {
    // a sealed envelope whose plaintext is no canonical encoding decodes to
    // DecodeFailure: corruption is surfaced, never reset to an empty vault
    let envelope = encrypt_data("M1", b"not a vault encoding");
    assert_eq!(
        Vault::open("M1", &envelope).err(),
        Some(VaultError::DecodeFailure)
    );
}
