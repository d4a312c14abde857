//! A local, single-user encrypted credential vault.
//!
//! The vault is an ordered sequence of platform/username/password entries,
//! persisted as one authenticated-encryption envelope per file:
//! `salt (16) || nonce (12) || ciphertext+tag`.  The master password is never
//! stored; it is verified only implicitly, by successful authenticated
//! decryption.  File and console I/O live outside this crate; the engine here
//! works on plain byte buffers and returns typed results.

pub mod cipher;
pub mod codec;
pub mod entry;
pub mod store;

pub use cipher::{decrypt_data, encrypt_data};
pub use codec::{decode, encode};
pub use entry::{Entry, VaultError};
pub use store::Vault;
