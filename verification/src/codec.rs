//! The canonical vault text encoding carried inside the envelope's plaintext.
//!
//! Each entry is written as three fields — platform, username, password — in
//! that order.  A field is its UTF-8 bytes with `\` written as `\\` and the
//! line feed written as `\n`, terminated by a bare line feed.  Decoding is
//! exact: every stray byte, dangling escape, missing terminator, non-UTF-8
//! field or trailing partial record is a `DecodeFailure`, never silently an
//! empty vault.

use vstd::prelude::*;
use vstd::utf8::{decode_utf8, encode_utf8, valid_utf8};

use crate::entry::{Entry, EntryView, VaultError};

verus! {

/// The field terminator: an unescaped line feed.
pub const FIELD_END: u8 = 0x0A;

/// The escape lead-in: a backslash.
pub const ESCAPE: u8 = 0x5C;

/// Second byte of an escaped line feed: the letter `n`.
pub const ESCAPED_LF: u8 = 0x6E;

/// How one byte of a field is written: `\` and the line feed are escaped,
/// every other byte stands for itself.
pub open spec fn esc_byte(b: u8) -> Seq<u8> {
    if b == ESCAPE {
        seq![ESCAPE, ESCAPE]
    } else if b == FIELD_END {
        seq![ESCAPE, ESCAPED_LF]
    } else {
        seq![b]
    }
}

/// A field's bytes, escaped.
pub open spec fn esc(s: Seq<u8>) -> Seq<u8>
    decreases s.len(),
{
    if s.len() == 0 {
        Seq::empty()
    } else {
        esc_byte(s[0]) + esc(s.drop_first())
    }
}

/// One encoded field: the escaped UTF-8 bytes of the text, then the
/// terminator.
pub open spec fn encoded_field(s: Seq<char>) -> Seq<u8> {
    esc(encode_utf8(s)) + seq![FIELD_END]
}

/// One encoded entry: its three fields in order.
pub open spec fn encoded_entry(e: EntryView) -> Seq<u8> {
    encoded_field(e.platform) + encoded_field(e.username) + encoded_field(e.password)
}

/// The whole encoding: the entries one after another, in order.
pub open spec fn encoded_entries(es: Seq<EntryView>) -> Seq<u8>
    decreases es.len(),
{
    if es.len() == 0 {
        Seq::empty()
    } else {
        encoded_entry(es[0]) + encoded_entries(es.drop_first())
    }
}

/// The views of a sequence of entries.
pub open spec fn entry_views(entries: Seq<Entry>) -> Seq<EntryView> {
    entries.map_values(|e: Entry| e@)
}

/// Reads one field off the head of `bytes`: unescapes up to the first bare
/// terminator and returns the field with the remainder.  `None` on a
/// dangling or unknown escape and on a missing terminator.
pub open spec fn parse_field(bytes: Seq<u8>) -> Option<(Seq<u8>, Seq<u8>)>
    decreases bytes.len(),
{
    if bytes.len() == 0 {
        None
    } else if bytes[0] == FIELD_END {
        Some((Seq::empty(), bytes.drop_first()))
    } else if bytes[0] == ESCAPE {
        if bytes.len() >= 2 && (bytes[1] == ESCAPE || bytes[1] == ESCAPED_LF) {
            let unescaped: u8 = if bytes[1] == ESCAPE {
                ESCAPE
            } else {
                FIELD_END
            };
            match parse_field(bytes.skip(2)) {
                Some(p) => Some((seq![unescaped] + p.0, p.1)),
                None => None,
            }
        } else {
            None
        }
    } else {
        match parse_field(bytes.drop_first()) {
            Some(p) => Some((seq![bytes[0]] + p.0, p.1)),
            None => None,
        }
    }
}

/// Whatever `parse_field` accepts, it consumes at least the terminator.
proof fn lemma_parse_field_shrinks(bytes: Seq<u8>)
    ensures
        parse_field(bytes) matches Some(p) ==> p.1.len() < bytes.len(),
    decreases bytes.len(),
{
    if bytes.len() == 0 {
    } else if bytes[0] == FIELD_END {
    } else if bytes[0] == ESCAPE {
        if bytes.len() >= 2 && (bytes[1] == ESCAPE || bytes[1] == ESCAPED_LF) {
            lemma_parse_field_shrinks(bytes.skip(2));
        }
    } else {
        lemma_parse_field_shrinks(bytes.drop_first());
    }
}

/// Reads fields until the input is exhausted; `None` as soon as one field
/// is malformed.
pub open spec fn parse_fields(bytes: Seq<u8>) -> Option<Seq<Seq<u8>>>
    decreases bytes.len()
    via parse_fields_decreases
{
    if bytes.len() == 0 {
        Some(Seq::empty())
    } else {
        match parse_field(bytes) {
            Some(p) => match parse_fields(p.1) {
                Some(fields) => Some(seq![p.0] + fields),
                None => None,
            },
            None => None,
        }
    }
}

#[via_fn]
proof fn parse_fields_decreases(bytes: Seq<u8>) {
    lemma_parse_field_shrinks(bytes);
}

/// Groups parsed fields into entries, three at a time and in order; `None`
/// on a trailing partial record and on a field that is not UTF-8.
pub open spec fn entries_of_fields(fields: Seq<Seq<u8>>) -> Option<Seq<EntryView>>
    decreases fields.len(),
{
    if fields.len() == 0 {
        Some(Seq::empty())
    } else if fields.len() < 3 {
        None
    } else if valid_utf8(fields[0]) && valid_utf8(fields[1]) && valid_utf8(fields[2]) {
        let e = EntryView {
            platform: decode_utf8(fields[0]),
            username: decode_utf8(fields[1]),
            password: decode_utf8(fields[2]),
        };
        match entries_of_fields(fields.skip(3)) {
            Some(es) => Some(seq![e] + es),
            None => None,
        }
    } else {
        None
    }
}

/// What a byte sequence decodes to, if it is a canonical encoding.
pub open spec fn decoded_entries(bytes: Seq<u8>) -> Option<Seq<EntryView>> {
    match parse_fields(bytes) {
        Some(fields) => entries_of_fields(fields),
        None => None,
    }
}

/// Escaping distributes over concatenation.
proof fn lemma_esc_append(a: Seq<u8>, b: Seq<u8>)
    ensures
        esc(a + b) == esc(a) + esc(b),
    decreases a.len(),
{
    if a.len() == 0 {
        assert(a + b =~= b);
        assert(esc(a) + esc(b) =~= esc(b));
    } else {
        assert((a + b).drop_first() =~= a.drop_first() + b);
        assert((a + b)[0] == a[0]);
        lemma_esc_append(a.drop_first(), b);
        assert(esc(a + b) =~= esc(a) + esc(b));
    }
}

proof fn lemma_esc_singleton(b: u8)
    ensures
        esc(seq![b]) == esc_byte(b),
{
    assert(seq![b].drop_first() =~= Seq::<u8>::empty());
    assert(esc_byte(b) + esc(Seq::<u8>::empty()) =~= esc_byte(b));
}

/// Reading a field back off its own encoding recovers it exactly, along
/// with whatever follows the terminator.
proof fn lemma_parse_field_of_encoded(s: Seq<u8>, rest: Seq<u8>)
    ensures
        parse_field(esc(s) + seq![FIELD_END] + rest) == Some((s, rest)),
    decreases s.len(),
{
    let bytes = esc(s) + seq![FIELD_END] + rest;
    if s.len() == 0 {
        assert(esc(s) =~= Seq::<u8>::empty());
        assert(bytes[0] == FIELD_END);
        assert(bytes.drop_first() =~= rest);
        assert(s =~= Seq::<u8>::empty());
    } else {
        let b = s[0];
        let tail = s.drop_first();
        lemma_parse_field_of_encoded(tail, rest);
        let tail_bytes = esc(tail) + seq![FIELD_END] + rest;
        if b == ESCAPE {
            assert(bytes[0] == ESCAPE && bytes[1] == ESCAPE);
            assert(bytes.skip(2) =~= tail_bytes);
            assert(seq![ESCAPE] + tail =~= s);
        } else if b == FIELD_END {
            assert(bytes[0] == ESCAPE && bytes[1] == ESCAPED_LF);
            assert(bytes.skip(2) =~= tail_bytes);
            assert(seq![FIELD_END] + tail =~= s);
        } else {
            assert(bytes[0] == b);
            assert(bytes.drop_first() =~= tail_bytes);
            assert(seq![b] + tail =~= s);
        }
    }
}

/// The fields that the encoding of `es` carries: the UTF-8 bytes of each
/// entry's three texts, in order.
pub open spec fn fields_of(es: Seq<EntryView>) -> Seq<Seq<u8>>
    decreases es.len(),
{
    if es.len() == 0 {
        Seq::empty()
    } else {
        seq![
            encode_utf8(es[0].platform),
            encode_utf8(es[0].username),
            encode_utf8(es[0].password),
        ] + fields_of(es.drop_first())
    }
}

proof fn lemma_parse_fields_of_encoded(es: Seq<EntryView>)
    ensures
        parse_fields(encoded_entries(es)) == Some(fields_of(es)),
    decreases es.len(),
{
    if es.len() == 0 {
        assert(encoded_entries(es) =~= Seq::<u8>::empty());
        assert(fields_of(es) =~= Seq::<Seq<u8>>::empty());
    } else {
        let e = es[0];
        let tail = es.drop_first();
        lemma_parse_fields_of_encoded(tail);
        let bytes = encoded_entries(es);
        let r3 = encoded_entries(tail);
        let r2 = encoded_field(e.password) + r3;
        let r1 = encoded_field(e.username) + r2;
        assert(bytes =~= esc(encode_utf8(e.platform)) + seq![FIELD_END] + r1);
        assert(r1 =~= esc(encode_utf8(e.username)) + seq![FIELD_END] + r2);
        assert(r2 =~= esc(encode_utf8(e.password)) + seq![FIELD_END] + r3);
        lemma_parse_field_of_encoded(encode_utf8(e.platform), r1);
        lemma_parse_field_of_encoded(encode_utf8(e.username), r2);
        lemma_parse_field_of_encoded(encode_utf8(e.password), r3);
        assert(bytes.len() > 0);
        assert(r1.len() > 0);
        assert(r2.len() > 0);
        assert(parse_fields(r2) == Some(seq![encode_utf8(e.password)] + fields_of(tail)));
        assert(parse_fields(r1) == Some(
            seq![encode_utf8(e.username)] + (seq![encode_utf8(e.password)] + fields_of(tail)),
        ));
        assert(parse_fields(bytes) == Some(
            seq![encode_utf8(e.platform)] + (seq![encode_utf8(e.username)] + (seq![
                encode_utf8(e.password),
            ] + fields_of(tail))),
        ));
        assert(seq![encode_utf8(e.platform)] + (seq![encode_utf8(e.username)] + (seq![
            encode_utf8(e.password),
        ] + fields_of(tail))) =~= fields_of(es));
    }
}

proof fn lemma_entries_of_fields_of(es: Seq<EntryView>)
    ensures
        entries_of_fields(fields_of(es)) == Some(es),
    decreases es.len(),
{
    broadcast use vstd::utf8::encode_utf8_valid_utf8;
    broadcast use vstd::utf8::encode_utf8_decode_utf8;

    if es.len() == 0 {
        assert(fields_of(es) =~= Seq::<Seq<u8>>::empty());
    } else {
        let e = es[0];
        let tail = es.drop_first();
        lemma_entries_of_fields_of(tail);
        let fields = fields_of(es);
        assert(fields[0] == encode_utf8(e.platform));
        assert(fields[1] == encode_utf8(e.username));
        assert(fields[2] == encode_utf8(e.password));
        assert(fields.skip(3) =~= fields_of(tail));
        assert(seq![e] + tail =~= es);
    }
}

/// The codec round trip: decoding a canonical encoding recovers exactly the
/// entries that were encoded, order included.
pub proof fn lemma_codec_round_trip(es: Seq<EntryView>)
    ensures
        decoded_entries(encoded_entries(es)) == Some(es),
{
    lemma_parse_fields_of_encoded(es);
    lemma_entries_of_fields_of(es);
}

/// Appending one entry to an encoding appends its record.
proof fn lemma_encoded_entries_push(es: Seq<EntryView>, e: EntryView)
    ensures
        encoded_entries(es.push(e)) == encoded_entries(es) + encoded_entry(e),
    decreases es.len(),
{
    if es.len() == 0 {
        assert(es.push(e).drop_first() =~= Seq::<EntryView>::empty());
        assert(encoded_entries(es) =~= Seq::<u8>::empty());
        assert(encoded_entry(e) + encoded_entries(Seq::<EntryView>::empty()) =~= encoded_entry(
            e,
        ));
        assert(encoded_entries(es) + encoded_entry(e) =~= encoded_entry(e));
    } else {
        assert(es.push(e).drop_first() =~= es.drop_first().push(e));
        assert(es.push(e)[0] == es[0]);
        lemma_encoded_entries_push(es.drop_first(), e);
        assert(encoded_entries(es.push(e)) =~= encoded_entries(es) + encoded_entry(e));
    }
}

/// Writes one field of the canonical encoding.
fn encode_field(field: &str) -> (r: Vec<u8>)
    ensures
        r@ == encoded_field(field@),
{
    let bytes = field.as_bytes();
    let mut out: Vec<u8> = Vec::new();
    proof {
        assert(bytes@.take(0) =~= Seq::<u8>::empty());
    }
    let mut i: usize = 0;
    while i < bytes.len()
        invariant
            i <= bytes@.len(),
            bytes@ == encode_utf8(field@),
            out@ == esc(bytes@.take(i as int)),
        decreases bytes@.len() - i,
    {
        let b = bytes[i];
        if b == ESCAPE {
            out.push(ESCAPE);
            out.push(ESCAPE);
        } else if b == FIELD_END {
            out.push(ESCAPE);
            out.push(ESCAPED_LF);
        } else {
            out.push(b);
        }
        proof {
            lemma_esc_append(bytes@.take(i as int), seq![bytes@[i as int]]);
            lemma_esc_singleton(bytes@[i as int]);
            assert(bytes@.take(i as int + 1) =~= bytes@.take(i as int) + seq![bytes@[i as int]]);
            assert(out@ =~= esc(bytes@.take(i as int + 1)));
        }
        i += 1;
    }
    proof {
        assert(bytes@.take(bytes@.len() as int) =~= bytes@);
    }
    out.push(FIELD_END);
    proof {
        assert(out@ =~= encoded_field(field@));
    }
    out
}

/// Writes one entry's record: its three fields in order.
fn encode_entry(e: &Entry) -> (r: Vec<u8>)
    ensures
        r@ == encoded_entry(e@),
{
    let mut out = encode_field(e.platform.as_str());
    let mut second = encode_field(e.username.as_str());
    let mut third = encode_field(e.password.as_str());
    out.append(&mut second);
    out.append(&mut third);
    proof {
        assert(out@ =~= encoded_entry(e@));
    }
    out
}

/// Encodes an ordered entry sequence into the canonical text carried inside
/// the envelope's plaintext.
pub fn encode(entries: &Vec<Entry>) -> (r: Vec<u8>)
    ensures
        r@ == encoded_entries(entry_views(entries@)),
{
    let mut out: Vec<u8> = Vec::new();
    proof {
        assert(entry_views(entries@).take(0) =~= Seq::<EntryView>::empty());
    }
    let mut i: usize = 0;
    while i < entries.len()
        invariant
            i <= entries@.len(),
            out@ == encoded_entries(entry_views(entries@).take(i as int)),
        decreases entries@.len() - i,
    {
        let mut record = encode_entry(&entries[i]);
        out.append(&mut record);
        proof {
            lemma_encoded_entries_push(
                entry_views(entries@).take(i as int),
                entry_views(entries@)[i as int],
            );
            assert(entry_views(entries@).take(i as int + 1) =~= entry_views(entries@).take(
                i as int,
            ).push(entry_views(entries@)[i as int]));
        }
        i += 1;
    }
    proof {
        assert(entry_views(entries@).take(entries@.len() as int) =~= entry_views(entries@));
    }
    out
}

/// What the rest of a parse yields, with an already-read prefix put back in
/// front of the field under construction.
spec fn with_prefix(pre: Seq<u8>, r: Option<(Seq<u8>, Seq<u8>)>) -> Option<(Seq<u8>, Seq<u8>)> {
    match r {
        Some(p) => Some((pre + p.0, p.1)),
        None => None,
    }
}

/// Reads one field starting at byte `i`; on success hands the field back
/// with the index just past its terminator.
fn parse_field_at(bytes: &[u8], i: usize) -> (r: Option<(Vec<u8>, usize)>)
    requires
        i <= bytes@.len(),
    ensures
        r matches Some(p) ==> {
            &&& i < p.1 <= bytes@.len()
            &&& parse_field(bytes@.skip(i as int)) == Some((p.0@, bytes@.skip(p.1 as int)))
        },
        r is None ==> parse_field(bytes@.skip(i as int)) is None,
{
    let mut acc: Vec<u8> = Vec::new();
    let mut j: usize = i;
    while j < bytes.len()
        invariant
            i <= j <= bytes@.len(),
            parse_field(bytes@.skip(i as int)) == with_prefix(
                acc@,
                parse_field(bytes@.skip(j as int)),
            ),
        decreases bytes@.len() - j,
    {
        let b = bytes[j];
        if b == FIELD_END {
            proof {
                assert(bytes@.skip(j as int).drop_first() =~= bytes@.skip(j as int + 1));
                assert(acc@ + Seq::<u8>::empty() =~= acc@);
            }
            return Some((acc, j + 1));
        } else if b == ESCAPE {
            if j + 1 < bytes.len() && (bytes[j + 1] == ESCAPE || bytes[j + 1] == ESCAPED_LF) {
                let unescaped: u8 = if bytes[j + 1] == ESCAPE {
                    ESCAPE
                } else {
                    FIELD_END
                };
                let ghost old_acc = acc@;
                acc.push(unescaped);
                proof {
                    assert(bytes@.skip(j as int).skip(2) =~= bytes@.skip(j as int + 2));
                    assert forall|p: (Seq<u8>, Seq<u8>)|
                        parse_field(bytes@.skip(j as int + 2)) == Some::<(Seq<u8>, Seq<u8>)>(
                            p,
                        ) implies old_acc + (seq![unescaped] + p.0) == acc@ + p.0 by {
                        assert(old_acc + (seq![unescaped] + p.0) =~= acc@ + p.0);
                    }
                }
                j += 2;
            } else {
                proof {
                    assert(parse_field(bytes@.skip(j as int)) is None);
                }
                return None;
            }
        } else {
            let ghost old_acc = acc@;
            acc.push(b);
            proof {
                assert(bytes@.skip(j as int).drop_first() =~= bytes@.skip(j as int + 1));
                assert forall|p: (Seq<u8>, Seq<u8>)|
                    parse_field(bytes@.skip(j as int + 1)) == Some::<(Seq<u8>, Seq<u8>)>(
                        p,
                    ) implies old_acc + (seq![b] + p.0) == acc@ + p.0 by {
                    assert(old_acc + (seq![b] + p.0) =~= acc@ + p.0);
                }
            }
            j += 1;
        }
    }
    proof {
        assert(bytes@.skip(j as int).len() == 0);
    }
    None
}

/// A parse that fails on its very first field decodes to nothing.
proof fn lemma_decode_stuck_first(t0: Seq<u8>)
    requires
        t0.len() > 0,
        parse_field(t0) is None,
    ensures
        decoded_entries(t0) is None,
{
}

/// A parse that fails on the second field decodes to nothing: either the
/// remainder is malformed, or the input ends after one lone field.
proof fn lemma_decode_stuck_second(t0: Seq<u8>, f1: Seq<u8>, t1: Seq<u8>)
    requires
        parse_field(t0) == Some((f1, t1)),
        parse_field(t1) is None,
    ensures
        decoded_entries(t0) is None,
{
    assert(t0.len() > 0);
    if t1.len() == 0 {
        assert(parse_fields(t1) == Some(Seq::<Seq<u8>>::empty()));
        assert(parse_fields(t0) == Some(seq![f1] + Seq::<Seq<u8>>::empty()));
        assert((seq![f1] + Seq::<Seq<u8>>::empty()).len() == 1);
    }
}

/// A parse that fails on the third field decodes to nothing, for the same
/// two reasons.
proof fn lemma_decode_stuck_third(t0: Seq<u8>, f1: Seq<u8>, t1: Seq<u8>, f2: Seq<u8>, t2: Seq<u8>)
    requires
        parse_field(t0) == Some((f1, t1)),
        parse_field(t1) == Some((f2, t2)),
        parse_field(t2) is None,
    ensures
        decoded_entries(t0) is None,
{
    assert(t0.len() > 0);
    assert(t1.len() > 0);
    if t2.len() == 0 {
        assert(parse_fields(t2) == Some(Seq::<Seq<u8>>::empty()));
        assert(parse_fields(t1) == Some(seq![f2] + Seq::<Seq<u8>>::empty()));
        assert(parse_fields(t0) == Some(seq![f1] + (seq![f2] + Seq::<Seq<u8>>::empty())));
        assert((seq![f1] + (seq![f2] + Seq::<Seq<u8>>::empty())).len() == 2);
    }
}

/// One full record read off the head of the input: what the whole input
/// decodes to, in terms of what the remainder decodes to.
proof fn lemma_decode_step(
    t0: Seq<u8>,
    f1: Seq<u8>,
    t1: Seq<u8>,
    f2: Seq<u8>,
    t2: Seq<u8>,
    f3: Seq<u8>,
    t3: Seq<u8>,
)
    requires
        parse_field(t0) == Some((f1, t1)),
        parse_field(t1) == Some((f2, t2)),
        parse_field(t2) == Some((f3, t3)),
    ensures
        !(valid_utf8(f1) && valid_utf8(f2) && valid_utf8(f3)) ==> decoded_entries(t0) is None,
        valid_utf8(f1) && valid_utf8(f2) && valid_utf8(f3) ==> decoded_entries(t0) == (match
        decoded_entries(t3) {
            Some(es) => Some(
                seq![
                    EntryView {
                        platform: decode_utf8(f1),
                        username: decode_utf8(f2),
                        password: decode_utf8(f3),
                    },
                ] + es,
            ),
            None => None::<Seq<EntryView>>,
        }),
{
    assert(t0.len() > 0);
    assert(t1.len() > 0);
    assert(t2.len() > 0);
    match parse_fields(t3) {
        Some(fs3) => {
            assert(parse_fields(t2) == Some(seq![f3] + fs3));
            assert(parse_fields(t1) == Some(seq![f2] + (seq![f3] + fs3)));
            assert(parse_fields(t0) == Some(seq![f1] + (seq![f2] + (seq![f3] + fs3))));
            let fields = seq![f1] + (seq![f2] + (seq![f3] + fs3));
            assert(fields.len() == fs3.len() + 3);
            assert(fields[0] == f1);
            assert(fields[1] == f2);
            assert(fields[2] == f3);
            assert(fields.skip(3) =~= fs3);
        },
        None => {
            assert(parse_fields(t2) is None);
            assert(parse_fields(t1) is None);
            assert(parse_fields(t0) is None);
        },
    }
}

/// Relies on `String::from_utf8`: succeeds exactly on valid UTF-8 and then
/// returns the text those bytes encode.
#[verifier::external_body]
fn bytes_to_string(bytes: Vec<u8>) -> (r: Option<String>)
    ensures
        r is Some <==> valid_utf8(bytes@),
        r matches Some(s) ==> s@ == decode_utf8(bytes@),
{
    String::from_utf8(bytes).ok()
}

/// Decodes a canonical encoding back into its ordered entry sequence.
///
/// Anything that is not exactly such an encoding — which after a successful
/// authenticated decryption indicates corruption — is reported as
/// `DecodeFailure`, never passed off as an empty vault.
pub fn decode(bytes: &[u8]) -> (r: Result<Vec<Entry>, VaultError>)
    ensures
        r matches Ok(v) ==> decoded_entries(bytes@) == Some(entry_views(v@)),
        r is Err ==> decoded_entries(bytes@) is None && r == Err::<Vec<Entry>, VaultError>(
            VaultError::DecodeFailure,
        ),
{
    let mut entries: Vec<Entry> = Vec::new();
    let mut i: usize = 0;
    proof {
        assert(bytes@.skip(0) =~= bytes@);
        assert(entry_views(entries@) =~= Seq::<EntryView>::empty());
        if let Some(es) = decoded_entries(bytes@) {
            assert(entry_views(entries@) + es =~= es);
        }
    }
    while i < bytes.len()
        invariant
            i <= bytes@.len(),
            match decoded_entries(bytes@.skip(i as int)) {
                Some(es) => decoded_entries(bytes@) == Some(entry_views(entries@) + es),
                None => decoded_entries(bytes@) is None,
            },
        decreases bytes@.len() - i,
    {
        let ghost t0 = bytes@.skip(i as int);
        let first = match parse_field_at(bytes, i) {
            Some(p) => p,
            None => {
                proof {
                    lemma_decode_stuck_first(t0);
                }
                return Err(VaultError::DecodeFailure);
            },
        };
        let ghost f1 = first.0@;
        let ghost t1 = bytes@.skip(first.1 as int);
        let second = match parse_field_at(bytes, first.1) {
            Some(p) => p,
            None => {
                proof {
                    lemma_decode_stuck_second(t0, f1, t1);
                }
                return Err(VaultError::DecodeFailure);
            },
        };
        let ghost f2 = second.0@;
        let ghost t2 = bytes@.skip(second.1 as int);
        let third = match parse_field_at(bytes, second.1) {
            Some(p) => p,
            None => {
                proof {
                    lemma_decode_stuck_third(t0, f1, t1, f2, t2);
                }
                return Err(VaultError::DecodeFailure);
            },
        };
        let ghost f3 = third.0@;
        let ghost t3 = bytes@.skip(third.1 as int);
        let next = third.1;
        proof {
            lemma_decode_step(t0, f1, t1, f2, t2, f3, t3);
        }
        let platform = match bytes_to_string(first.0) {
            Some(s) => s,
            None => {
                return Err(VaultError::DecodeFailure);
            },
        };
        let username = match bytes_to_string(second.0) {
            Some(s) => s,
            None => {
                return Err(VaultError::DecodeFailure);
            },
        };
        let password = match bytes_to_string(third.0) {
            Some(s) => s,
            None => {
                return Err(VaultError::DecodeFailure);
            },
        };
        let ghost old_entries = entries@;
        entries.push(Entry { platform, username, password });
        proof {
            assert(entry_views(entries@) =~= entry_views(old_entries).push(
                entries@[entries@.len() - 1]@,
            ));
            if let Some(es3) = decoded_entries(t3) {
                assert(entry_views(old_entries) + (seq![
                    EntryView {
                        platform: decode_utf8(f1),
                        username: decode_utf8(f2),
                        password: decode_utf8(f3),
                    },
                ] + es3) =~= entry_views(entries@) + es3);
            }
        }
        i = next;
    }
    proof {
        assert(bytes@.skip(i as int).len() == 0);
        assert(parse_fields(bytes@.skip(i as int)) == Some(Seq::<Seq<u8>>::empty()));
        assert(decoded_entries(bytes@.skip(i as int)) == Some(Seq::<EntryView>::empty()));
        assert(entry_views(entries@) + Seq::<EntryView>::empty() =~= entry_views(entries@));
    }
    Ok(entries)
}

} // verus!
