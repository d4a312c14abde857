use vstd::prelude::*;

verus! {

/// One stored credential: a platform name, a username, and a password.
///
/// There is no uniqueness constraint on `platform`: the vault is a
/// multi-valued store, not a map.  Lookup returns the first match and
/// deletion removes every match.
pub struct Entry {
    pub platform: String,
    pub username: String,
    pub password: String,
}

/// The mathematical value of an [`Entry`]: its three fields as character
/// sequences.
pub struct EntryView {
    pub platform: Seq<char>,
    pub username: Seq<char>,
    pub password: Seq<char>,
}

impl View for Entry {
    type V = EntryView;

    open spec fn view(&self) -> EntryView {
        EntryView {
            platform: self.platform@,
            username: self.username@,
            password: self.password@,
        }
    }
}

impl Entry {
    /// Builds an entry from its three fields.
    pub fn new(platform: String, username: String, password: String) -> (r: Entry)
        ensures
            r@.platform == platform@,
            r@.username == username@,
            r@.password == password@,
    {
        Entry { platform, username, password }
    }
}

/// Why a vault operation failed.
///
/// `AuthenticationFailure` covers a wrong master password as well as any
/// tampering with the stored envelope; `DecodeFailure` means authentication
/// succeeded but the recovered plaintext is not a canonical vault encoding,
/// which indicates corruption and is surfaced rather than treated as an
/// empty vault.
#[derive(Clone, Copy, Debug, PartialEq, Eq, Structural)]
pub enum VaultError {
    AuthenticationFailure,
    DecodeFailure,
}

} // verus!
