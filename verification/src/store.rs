//! The vault store: the load/mutate/persist cycle every command drives.
//!
//! A `Vault` is the in-memory ordered credential list of one command
//! invocation.  `Vault::open` turns the vault file's bytes into entries
//! (decrypt, then decode; an empty file is the valid "initialized but
//! empty" state and needs no password), the mutators work on the list, and
//! `Vault::save` encodes and re-seals the whole list under a freshly
//! generated salt and nonce.  The store is multi-valued by design: `add`
//! never deduplicates, `find` returns the first match, `remove` deletes
//! every match.

use vstd::prelude::*;
use vstd::utf8::encode_utf8;

use crate::cipher::{decrypt_data, encrypt_data, sealed_envelope, INPUT_MAX};
use crate::codec::{decode, decoded_entries, encode, encoded_entries, entry_views};
use crate::entry::{Entry, EntryView, VaultError};

verus! {

/// The first entry whose platform equals `platform`, if any.
pub open spec fn find_first(es: Seq<EntryView>, platform: Seq<char>) -> Option<EntryView>
    decreases es.len(),
{
    if es.len() == 0 {
        None
    } else if es[0].platform == platform {
        Some(es[0])
    } else {
        find_first(es.drop_first(), platform)
    }
}

/// What deleting `platform` leaves: every entry whose platform differs,
/// in their original order.
pub open spec fn remove_platform(es: Seq<EntryView>, platform: Seq<char>) -> Seq<EntryView>
    decreases es.len(),
{
    if es.len() == 0 {
        Seq::empty()
    } else if es[0].platform == platform {
        remove_platform(es.drop_first(), platform)
    } else {
        seq![es[0]] + remove_platform(es.drop_first(), platform)
    }
}

/// A failed lookup means exactly that no entry carries the platform.
pub proof fn lemma_find_first_none(es: Seq<EntryView>, platform: Seq<char>)
    ensures
        (find_first(es, platform) is None) <==> (forall|k: int|
            0 <= k < es.len() ==> es[k].platform != platform),
    decreases es.len(),
{
    if es.len() > 0 {
        lemma_find_first_none(es.drop_first(), platform);
        assert(forall|k: int|
            1 <= k < es.len() ==> es[k].platform == es.drop_first()[k - 1].platform);
    }
}

/// A lookup skips a prefix in which nothing matches.
proof fn lemma_find_first_skip_prefix(es: Seq<EntryView>, platform: Seq<char>, i: int)
    requires
        0 <= i <= es.len(),
        forall|k: int| 0 <= k < i ==> es[k].platform != platform,
    ensures
        find_first(es, platform) == find_first(es.skip(i), platform),
    decreases i,
{
    if i > 0 {
        lemma_find_first_skip_prefix(es.drop_first(), platform, i - 1);
        assert(forall|k: int|
            0 <= k < i - 1 ==> es.drop_first()[k].platform == es[k + 1].platform);
        assert(es.drop_first().skip(i - 1) =~= es.skip(i));
    } else {
        assert(es.skip(0) =~= es);
    }
}

proof fn lemma_remove_platform_push(es: Seq<EntryView>, e: EntryView, platform: Seq<char>)
    ensures
        remove_platform(es.push(e), platform) == remove_platform(es, platform) + (if e.platform
            == platform {
            Seq::<EntryView>::empty()
        } else {
            seq![e]
        }),
    decreases es.len(),
{
    if es.len() == 0 {
        assert(es.push(e)[0] == e);
        assert(es.push(e).drop_first() =~= Seq::<EntryView>::empty());
        assert(es =~= Seq::<EntryView>::empty());
        assert(remove_platform(Seq::<EntryView>::empty(), platform) == Seq::<EntryView>::empty());
        if e.platform == platform {
            assert(remove_platform(es.push(e), platform) =~= remove_platform(es, platform)
                + Seq::<EntryView>::empty());
        } else {
            assert(remove_platform(es.push(e), platform) =~= remove_platform(es, platform)
                + seq![e]);
        }
    } else {
        assert(es.push(e)[0] == es[0]);
        assert(es.push(e).drop_first() =~= es.drop_first().push(e));
        lemma_remove_platform_push(es.drop_first(), e, platform);
        if es[0].platform != platform {
            assert(seq![es[0]] + (remove_platform(es.drop_first(), platform) + (if e.platform
                == platform {
                Seq::<EntryView>::empty()
            } else {
                seq![e]
            })) =~= remove_platform(es, platform) + (if e.platform == platform {
                Seq::<EntryView>::empty()
            } else {
                seq![e]
            }));
        }
    }
}

/// Deletion never grows the vault.
proof fn lemma_remove_platform_len(es: Seq<EntryView>, platform: Seq<char>)
    ensures
        remove_platform(es, platform).len() <= es.len(),
    decreases es.len(),
{
    if es.len() > 0 {
        lemma_remove_platform_len(es.drop_first(), platform);
    }
}

/// How many entries carry `platform`.
pub open spec fn count_platform(es: Seq<EntryView>, platform: Seq<char>) -> nat
    decreases es.len(),
{
    if es.len() == 0 {
        0
    } else {
        (if es[0].platform == platform {
            1nat
        } else {
            0nat
        }) + count_platform(es.drop_first(), platform)
    }
}

/// Deletion removes exactly the matching entries: the survivors and the
/// matches together account for every entry.
pub proof fn lemma_remove_platform_count(es: Seq<EntryView>, platform: Seq<char>)
    ensures
        remove_platform(es, platform).len() + count_platform(es, platform) == es.len(),
    decreases es.len(),
{
    if es.len() > 0 {
        lemma_remove_platform_count(es.drop_first(), platform);
    }
}

/// Adding an entry for a platform the vault does not yet hold, then looking
/// that platform up, returns exactly the just-added entry.  (With the
/// platform already present the lookup returns the earlier entry instead:
/// first match wins under duplicates.)
pub proof fn lemma_add_then_find(es: Seq<EntryView>, e: EntryView)
    requires
        find_first(es, e.platform) is None,
    ensures
        find_first(es.push(e), e.platform) == Some(e),
    decreases es.len(),
{
    if es.len() == 0 {
        assert(es.push(e)[0] == e);
    } else {
        assert(es.push(e)[0] == es[0]);
        assert(es.push(e).drop_first() =~= es.drop_first().push(e));
        lemma_add_then_find(es.drop_first(), e);
    }
}

/// Deleting a platform removes every duplicate: no entry for it survives,
/// and a subsequent lookup reports not-found.
pub proof fn lemma_remove_then_find(es: Seq<EntryView>, platform: Seq<char>)
    ensures
        forall|k: int|
            0 <= k < remove_platform(es, platform).len() ==> remove_platform(
                es,
                platform,
            )[k].platform != platform,
        find_first(remove_platform(es, platform), platform) is None,
    decreases es.len(),
{
    if es.len() > 0 {
        lemma_remove_then_find(es.drop_first(), platform);
        if es[0].platform != platform {
            let rest = remove_platform(es.drop_first(), platform);
            assert(forall|k: int|
                1 <= k < remove_platform(es, platform).len() ==> remove_platform(
                    es,
                    platform,
                )[k] == rest[k - 1]);
        }
    }
    lemma_find_first_none(remove_platform(es, platform), platform);
}

/// Relies on `str`'s `PartialEq`: two string slices are equal exactly when
/// their character sequences are.
#[verifier::external_body]
fn str_eq(a: &str, b: &str) -> (r: bool)
    ensures
        r == (a@ == b@),
{
    a == b
}

/// The in-memory vault of one command invocation: an ordered credential
/// list, viewed as the sequence of its entries' values.
pub struct Vault {
    entries: Vec<Entry>,
}

impl View for Vault {
    type V = Seq<EntryView>;

    closed spec fn view(&self) -> Seq<EntryView> {
        entry_views(self.entries@)
    }
}

impl Vault {
    /// The freshly initialized, empty vault.
    pub fn new() -> (r: Vault)
        ensures
            r@ == Seq::<EntryView>::empty(),
    {
        let v = Vault { entries: Vec::new() };
        proof {
            assert(v@ =~= Seq::<EntryView>::empty());
        }
        v
    }

    /// Loads a vault from its file's bytes.
    ///
    /// An empty file is the valid empty vault and is returned without
    /// invoking the cipher, whatever the password.  Otherwise the bytes
    /// must be an envelope sealed under `master_password` whose plaintext
    /// is a canonical encoding: a wrong password or a tampered envelope is
    /// `AuthenticationFailure`; a sealed but non-canonical plaintext is
    /// corruption, reported as `DecodeFailure` rather than reset to empty.
    pub fn open(master_password: &str, file_bytes: &[u8]) -> (r: Result<Vault, VaultError>)
        requires
            encode_utf8(master_password@).len() <= INPUT_MAX,
        ensures
            file_bytes@.len() == 0 ==> (r matches Ok(v) && v@ == Seq::<EntryView>::empty()),
            forall|m: Seq<u8>|
                sealed_envelope(encode_utf8(master_password@), m, file_bytes@) ==> match
                decoded_entries(m) {
                    Some(es) => r matches Ok(v) && v@ == es,
                    None => r == Err::<Vault, VaultError>(VaultError::DecodeFailure),
                },
            r matches Ok(v) ==> (file_bytes@.len() > 0 ==> exists|m: Seq<u8>|
                sealed_envelope(encode_utf8(master_password@), m, file_bytes@)
                    && decoded_entries(m) == Some(v@)),
            file_bytes@.len() > 0 ==> ((r == Err::<Vault, VaultError>(
                VaultError::AuthenticationFailure,
            )) <==> !(exists|m: Seq<u8>|
                sealed_envelope(encode_utf8(master_password@), m, file_bytes@))),
    {
        if file_bytes.len() == 0 {
            proof {
                assert(entry_views(Seq::<Entry>::empty()) =~= Seq::<EntryView>::empty());
            }
            return Ok(Vault { entries: Vec::new() });
        }
        let plaintext = match decrypt_data(master_password, file_bytes) {
            Ok(p) => p,
            Err(_) => {
                return Err(VaultError::AuthenticationFailure);
            },
        };
        match decode(plaintext.as_slice()) {
            Ok(entries) => Ok(Vault { entries }),
            Err(_) => Err(VaultError::DecodeFailure),
        }
    }

    /// Encodes the entries and seals them into a fresh envelope: the bytes
    /// to overwrite the vault file with.
    ///
    /// `None` only when the encoded vault outgrows the cipher layer's input
    /// bound, far beyond any real vault.
    pub fn save(&self, master_password: &str) -> (r: Option<Vec<u8>>)
        requires
            encode_utf8(master_password@).len() <= INPUT_MAX,
        ensures
            r matches Some(env) ==> sealed_envelope(
                encode_utf8(master_password@),
                encoded_entries(self@),
                env@,
            ),
            r is Some <==> encoded_entries(self@).len() <= INPUT_MAX,
    {
        let plaintext = encode(&self.entries);
        if plaintext.len() as u64 <= INPUT_MAX {
            Some(encrypt_data(master_password, plaintext.as_slice()))
        } else {
            None
        }
    }

    /// Appends an entry; order preserved, no uniqueness check, no dedup.
    pub fn add(&mut self, entry: Entry)
        ensures
            final(self)@ == old(self)@.push(entry@),
    {
        let ghost e = entry@;
        self.entries.push(entry);
        proof {
            assert(entry_views(self.entries@) =~= entry_views(old(self).entries@).push(e));
        }
    }

    /// Deletes every entry whose platform equals `platform` and reports how
    /// many were removed.
    pub fn remove(&mut self, platform: &str) -> (removed: usize)
        ensures
            final(self)@ == remove_platform(old(self)@, platform@),
            removed == count_platform(old(self)@, platform@),
    {
        let n = self.entries.len();
        let mut kept: Vec<Entry> = Vec::new();
        proof {
            assert(entry_views(self.entries@).take(0) =~= Seq::<EntryView>::empty());
            assert(entry_views(kept@) =~= remove_platform(
                entry_views(self.entries@).take(0),
                platform@,
            ));
        }
        let mut i: usize = 0;
        while i < n
            invariant
                i <= n,
                n == self.entries@.len(),
                self.entries@ == old(self).entries@,
                entry_views(kept@) == remove_platform(
                    entry_views(self.entries@).take(i as int),
                    platform@,
                ),
            decreases n - i,
        {
            let e = &self.entries[i];
            let ghost kept_before = kept@;
            if !str_eq(e.platform.as_str(), platform) {
                kept.push(
                    Entry {
                        platform: e.platform.clone(),
                        username: e.username.clone(),
                        password: e.password.clone(),
                    },
                );
            }
            proof {
                let views = entry_views(self.entries@);
                lemma_remove_platform_push(views.take(i as int), views[i as int], platform@);
                assert(views.take(i as int + 1) =~= views.take(i as int).push(views[i as int]));
                if views[i as int].platform == platform@ {
                    assert(entry_views(kept@) =~= remove_platform(
                        views.take(i as int),
                        platform@,
                    ) + Seq::<EntryView>::empty());
                } else {
                    assert(entry_views(kept@) =~= entry_views(kept_before).push(
                        views[i as int],
                    ));
                    assert(entry_views(kept@) =~= remove_platform(views.take(i as int), platform@)
                        + seq![views[i as int]]);
                }
            }
            i += 1;
        }
        proof {
            assert(entry_views(self.entries@).take(n as int) =~= entry_views(self.entries@));
            lemma_remove_platform_len(entry_views(self.entries@), platform@);
            lemma_remove_platform_count(entry_views(self.entries@), platform@);
        }
        let removed = n - kept.len();
        self.entries = kept;
        removed
    }

    /// Returns the first entry stored for `platform`, or `None` when the
    /// vault holds no entry for it.  First match wins under duplicates.
    pub fn find(&self, platform: &str) -> (r: Option<&Entry>)
        ensures
            r matches Some(e) ==> find_first(self@, platform@) == Some(e@),
            r is None ==> find_first(self@, platform@) is None,
    {
        let n = self.entries.len();
        let mut i: usize = 0;
        while i < n
            invariant
                i <= n,
                n == self.entries@.len(),
                forall|k: int| 0 <= k < i ==> entry_views(self.entries@)[k].platform != platform@,
            decreases n - i,
        {
            let e = &self.entries[i];
            if str_eq(e.platform.as_str(), platform) {
                proof {
                    lemma_find_first_skip_prefix(self@, platform@, i as int);
                    assert(self@.skip(i as int)[0] == self@[i as int]);
                    assert(self@.skip(i as int).len() > 0);
                }
                return Some(e);
            }
            i += 1;
        }
        proof {
            lemma_find_first_skip_prefix(self@, platform@, n as int);
            assert(self@.skip(n as int).len() == 0);
        }
        None
    }

    /// The entries, unchanged, for read-only enumeration.
    pub fn list(&self) -> (r: &Vec<Entry>)
        ensures
            entry_views(r@) == self@,
    {
        &self.entries
    }

    /// How many entries the vault holds.
    pub fn len(&self) -> (n: usize)
        ensures
            n == self@.len(),
    {
        self.entries.len()
    }
}

} // verus!
