//! The byte layout of keys and records.
//!
//! A number is eight bytes, most significant first. A text is the number of
//! its UTF-8 bytes and then those bytes. An optional text is one byte, 0 for
//! none and 1 for some, and then the text if there is one. A public key is
//! its 32 bytes. A record is its fields, one after the other, with nothing
//! behind the last.

use crate::bytes::{
    be_bytes, be_value, lemma_be_bytes_of_value, lemma_be_value_of_bytes, prefix_of, read_u64,
    timestamp_key, HASH_PREFIX_LEN,
};
use crate::error::StoreError;
use crate::model::{
    opt_text_view, Contact, ContactView, EventId, Profile, ProfileView, PublicKey, TextNote,
    TextNoteView, PUBLIC_KEY_LEN,
};
use vstd::prelude::*;
use vstd::slice::{slice_subrange, slice_to_vec};
use vstd::string::*;
use vstd::utf8::*;

verus! {

/// The UTF-8 length of a text fits the number that goes before it.
pub open spec fn text_fits(text: Seq<char>) -> bool {
    encode_utf8(text).len() <= u64::MAX
}

pub open spec fn opt_text_fits(text: Option<Seq<char>>) -> bool {
    match text {
        Some(t) => text_fits(t),
        None => true,
    }
}

impl ProfileView {
    /// Every text of the profile can be laid out.
    pub open spec fn fits(self) -> bool {
        &&& opt_text_fits(self.name)
        &&& opt_text_fits(self.display_name)
        &&& opt_text_fits(self.about)
        &&& opt_text_fits(self.picture)
    }
}

impl ContactView {
    /// The key has its width and every text can be laid out.
    pub open spec fn fits(self) -> bool {
        &&& self.pk.len() == PUBLIC_KEY_LEN
        &&& opt_text_fits(self.relay_url)
        &&& opt_text_fits(self.alias)
    }
}

impl TextNoteView {
    /// The key has its width and the content can be laid out.
    pub open spec fn fits(self) -> bool {
        &&& self.pubkey.len() == PUBLIC_KEY_LEN
        &&& text_fits(self.content)
    }
}

/// The layout of a text.
pub open spec fn text_bytes(text: Seq<char>) -> Seq<u8> {
    be_bytes(encode_utf8(text).len() as u64) + encode_utf8(text)
}

/// The layout of an optional text.
pub open spec fn opt_text_bytes(text: Option<Seq<char>>) -> Seq<u8> {
    match text {
        None => seq![0u8],
        Some(t) => seq![1u8] + text_bytes(t),
    }
}

/// The layout of a profile.
pub open spec fn encode_profile(profile: ProfileView) -> Seq<u8> {
    opt_text_bytes(profile.name) + opt_text_bytes(profile.display_name) + opt_text_bytes(
        profile.about,
    ) + opt_text_bytes(profile.picture)
}

/// The layout of a contact.
pub open spec fn encode_contact(contact: ContactView) -> Seq<u8> {
    contact.pk + opt_text_bytes(contact.relay_url) + opt_text_bytes(contact.alias)
}

/// The layout of a post.
pub open spec fn encode_textnote(note: TextNoteView) -> Seq<u8> {
    note.pubkey + be_bytes(note.timestamp) + text_bytes(note.content)
}

/// A number read from the front of `bytes`, and what follows it.
pub open spec fn take_u64(bytes: Seq<u8>) -> Option<(u64, Seq<u8>)> {
    if bytes.len() >= 8 {
        Some((be_value(bytes.take(8)) as u64, bytes.skip(8)))
    } else {
        None
    }
}

/// A public key read from the front of `bytes`, and what follows it.
pub open spec fn take_key(bytes: Seq<u8>) -> Option<(Seq<u8>, Seq<u8>)> {
    if bytes.len() >= PUBLIC_KEY_LEN {
        Some((bytes.take(PUBLIC_KEY_LEN as int), bytes.skip(PUBLIC_KEY_LEN as int)))
    } else {
        None
    }
}

/// A text read from the front of `bytes`, and what follows it.
pub open spec fn take_text(bytes: Seq<u8>) -> Option<(Seq<char>, Seq<u8>)> {
    match take_u64(bytes) {
        Some((len, rest)) => if len <= rest.len() && valid_utf8(rest.take(len as int)) {
            Some((decode_utf8(rest.take(len as int)), rest.skip(len as int)))
        } else {
            None
        },
        None => None,
    }
}

/// An optional text read from the front of `bytes`, and what follows it.
pub open spec fn take_opt_text(bytes: Seq<u8>) -> Option<(Option<Seq<char>>, Seq<u8>)> {
    if bytes.len() == 0 {
        None
    } else if bytes[0] == 0 {
        Some((None, bytes.skip(1)))
    } else if bytes[0] == 1 {
        match take_text(bytes.skip(1)) {
            Some((text, rest)) => Some((Some(text), rest)),
            None => None,
        }
    } else {
        None
    }
}

/// The profile that `bytes` lay out, if they lay out one.
pub open spec fn decode_profile(bytes: Seq<u8>) -> Option<ProfileView> {
    match take_opt_text(bytes) {
        Some((name, r1)) => match take_opt_text(r1) {
            Some((display_name, r2)) => match take_opt_text(r2) {
                Some((about, r3)) => match take_opt_text(r3) {
                    Some((picture, r4)) => if r4.len() == 0 {
                        Some(ProfileView { name, display_name, about, picture })
                    } else {
                        None
                    },
                    None => None,
                },
                None => None,
            },
            None => None,
        },
        None => None,
    }
}

/// The contact that `bytes` lay out, if they lay out one.
pub open spec fn decode_contact(bytes: Seq<u8>) -> Option<ContactView> {
    match take_key(bytes) {
        Some((pk, r1)) => match take_opt_text(r1) {
            Some((relay_url, r2)) => match take_opt_text(r2) {
                Some((alias, r3)) => if r3.len() == 0 {
                    Some(ContactView { pk, relay_url, alias })
                } else {
                    None
                },
                None => None,
            },
            None => None,
        },
        None => None,
    }
}

/// The post that `bytes` lay out, if they lay out one.
pub open spec fn decode_textnote(bytes: Seq<u8>) -> Option<TextNoteView> {
    match take_key(bytes) {
        Some((pubkey, r1)) => match take_u64(r1) {
            Some((timestamp, r2)) => match take_text(r2) {
                Some((content, r3)) => if r3.len() == 0 {
                    Some(TextNoteView { pubkey, content, timestamp })
                } else {
                    None
                },
                None => None,
            },
            None => None,
        },
        None => None,
    }
}

/// The public key that `bytes` are, if they have its width.
pub open spec fn decode_key(bytes: Seq<u8>) -> Option<Seq<u8>> {
    if bytes.len() == PUBLIC_KEY_LEN {
        Some(bytes)
    } else {
        None
    }
}

pub proof fn lemma_take_u64_of_bytes(x: u64, rest: Seq<u8>)
    ensures
        take_u64(be_bytes(x) + rest) == Some((x, rest)),
{
    let bytes = be_bytes(x) + rest;
    lemma_be_value_of_bytes(x);
    assert(bytes.take(8) =~= be_bytes(x));
    assert(bytes.skip(8) =~= rest);
}

pub proof fn lemma_bytes_of_take_u64(bytes: Seq<u8>)
    requires
        take_u64(bytes) is Some,
    ensures
        bytes == be_bytes(take_u64(bytes).unwrap().0) + take_u64(bytes).unwrap().1,
{
    lemma_be_bytes_of_value(bytes.take(8));
    assert(bytes =~= bytes.take(8) + bytes.skip(8));
}

pub proof fn lemma_take_key_of_bytes(key: Seq<u8>, rest: Seq<u8>)
    requires
        key.len() == PUBLIC_KEY_LEN,
    ensures
        take_key(key + rest) == Some((key, rest)),
{
    let bytes = key + rest;
    assert(bytes.take(PUBLIC_KEY_LEN as int) =~= key);
    assert(bytes.skip(PUBLIC_KEY_LEN as int) =~= rest);
}

pub proof fn lemma_bytes_of_take_key(bytes: Seq<u8>)
    requires
        take_key(bytes) is Some,
    ensures
        bytes == take_key(bytes).unwrap().0 + take_key(bytes).unwrap().1,
        take_key(bytes).unwrap().0.len() == PUBLIC_KEY_LEN,
{
    assert(bytes =~= bytes.take(PUBLIC_KEY_LEN as int) + bytes.skip(PUBLIC_KEY_LEN as int));
}

pub proof fn lemma_take_text_of_bytes(text: Seq<char>, rest: Seq<u8>)
    requires
        text_fits(text),
    ensures
        take_text(text_bytes(text) + rest) == Some((text, rest)),
{
    let body = encode_utf8(text);
    let len = body.len() as u64;
    let bytes = text_bytes(text) + rest;
    assert(bytes =~= be_bytes(len) + (body + rest));
    lemma_take_u64_of_bytes(len, body + rest);
    assert((body + rest).take(len as int) =~= body);
    assert((body + rest).skip(len as int) =~= rest);
    encode_utf8_valid_utf8(text);
    encode_utf8_decode_utf8(text);
}

pub proof fn lemma_bytes_of_take_text(bytes: Seq<u8>)
    requires
        take_text(bytes) is Some,
    ensures
        bytes == text_bytes(take_text(bytes).unwrap().0) + take_text(bytes).unwrap().1,
        text_fits(take_text(bytes).unwrap().0),
{
    let (len, rest) = take_u64(bytes).unwrap();
    let body = rest.take(len as int);
    lemma_bytes_of_take_u64(bytes);
    decode_utf8_encode_utf8(body);
    assert(rest =~= body + rest.skip(len as int));
    assert(bytes =~= be_bytes(len) + body + rest.skip(len as int));
}

pub proof fn lemma_take_opt_text_of_bytes(text: Option<Seq<char>>, rest: Seq<u8>)
    requires
        opt_text_fits(text),
    ensures
        take_opt_text(opt_text_bytes(text) + rest) == Some((text, rest)),
{
    let bytes = opt_text_bytes(text) + rest;
    match text {
        None => {
            assert(bytes.skip(1) =~= rest);
        },
        Some(t) => {
            assert(bytes.skip(1) =~= text_bytes(t) + rest);
            lemma_take_text_of_bytes(t, rest);
        },
    }
}

pub proof fn lemma_bytes_of_take_opt_text(bytes: Seq<u8>)
    requires
        take_opt_text(bytes) is Some,
    ensures
        bytes == opt_text_bytes(take_opt_text(bytes).unwrap().0) + take_opt_text(
            bytes,
        ).unwrap().1,
        opt_text_fits(take_opt_text(bytes).unwrap().0),
{
    if bytes[0] == 0 {
        assert(bytes =~= seq![0u8] + bytes.skip(1));
    } else {
        lemma_bytes_of_take_text(bytes.skip(1));
        let (text, rest) = take_text(bytes.skip(1)).unwrap();
        assert(bytes =~= seq![1u8] + bytes.skip(1));
        assert(bytes =~= seq![1u8] + text_bytes(text) + rest);
    }
}

/// Decoding the layout of a profile gives the profile back.
pub proof fn law_profile_decode_encode(profile: ProfileView)
    requires
        profile.fits(),
    ensures
        decode_profile(encode_profile(profile)) == Some(profile),
{
    let e = Seq::<u8>::empty();
    let b4 = opt_text_bytes(profile.picture) + e;
    let b3 = opt_text_bytes(profile.about) + b4;
    let b2 = opt_text_bytes(profile.display_name) + b3;
    let b1 = opt_text_bytes(profile.name) + b2;
    assert(encode_profile(profile) =~= b1);
    lemma_take_opt_text_of_bytes(profile.name, b2);
    lemma_take_opt_text_of_bytes(profile.display_name, b3);
    lemma_take_opt_text_of_bytes(profile.about, b4);
    lemma_take_opt_text_of_bytes(profile.picture, e);
}

proof fn lemma_join_four(a: Seq<u8>, b: Seq<u8>, c: Seq<u8>, d: Seq<u8>)
    ensures
        a + (b + (c + (d + Seq::<u8>::empty()))) == a + b + c + d,
{
    assert(a + (b + (c + (d + Seq::<u8>::empty()))) =~= a + b + c + d);
}

/// Bytes that decode to a profile are the layout of that profile.
pub proof fn law_profile_encode_decode(bytes: Seq<u8>)
    requires
        decode_profile(bytes) is Some,
    ensures
        encode_profile(decode_profile(bytes).unwrap()) == bytes,
        decode_profile(bytes).unwrap().fits(),
{
    let first = take_opt_text(bytes).unwrap();
    let second = take_opt_text(first.1).unwrap();
    let third = take_opt_text(second.1).unwrap();
    let fourth = take_opt_text(third.1).unwrap();
    lemma_bytes_of_take_opt_text(bytes);
    lemma_bytes_of_take_opt_text(first.1);
    lemma_bytes_of_take_opt_text(second.1);
    lemma_bytes_of_take_opt_text(third.1);
    assert(fourth.1 =~= Seq::<u8>::empty());
    lemma_join_four(
        opt_text_bytes(first.0),
        opt_text_bytes(second.0),
        opt_text_bytes(third.0),
        opt_text_bytes(fourth.0),
    );
}

/// Decoding the layout of a contact gives the contact back.
pub proof fn law_contact_decode_encode(contact: ContactView)
    requires
        contact.fits(),
    ensures
        decode_contact(encode_contact(contact)) == Some(contact),
{
    let e = Seq::<u8>::empty();
    let b2 = opt_text_bytes(contact.alias) + e;
    let b1 = opt_text_bytes(contact.relay_url) + b2;
    assert(encode_contact(contact) =~= contact.pk + b1);
    lemma_take_key_of_bytes(contact.pk, b1);
    lemma_take_opt_text_of_bytes(contact.relay_url, b2);
    lemma_take_opt_text_of_bytes(contact.alias, e);
}

/// Bytes that decode to a contact are the layout of that contact.
pub proof fn law_contact_encode_decode(bytes: Seq<u8>)
    requires
        decode_contact(bytes) is Some,
    ensures
        encode_contact(decode_contact(bytes).unwrap()) == bytes,
        decode_contact(bytes).unwrap().fits(),
{
    lemma_bytes_of_take_key(bytes);
    let (pk, r1) = take_key(bytes).unwrap();
    lemma_bytes_of_take_opt_text(r1);
    let (relay_url, r2) = take_opt_text(r1).unwrap();
    lemma_bytes_of_take_opt_text(r2);
    let (alias, r3) = take_opt_text(r2).unwrap();
    assert(r3 =~= Seq::<u8>::empty());
    assert(encode_contact(decode_contact(bytes).unwrap()) =~= bytes);
}

/// Decoding the layout of a post gives the post back.
pub proof fn law_textnote_decode_encode(note: TextNoteView)
    requires
        note.fits(),
    ensures
        decode_textnote(encode_textnote(note)) == Some(note),
{
    let e = Seq::<u8>::empty();
    let b2 = text_bytes(note.content) + e;
    let b1 = be_bytes(note.timestamp) + b2;
    assert(encode_textnote(note) =~= note.pubkey + b1);
    lemma_take_key_of_bytes(note.pubkey, b1);
    lemma_take_u64_of_bytes(note.timestamp, b2);
    lemma_take_text_of_bytes(note.content, e);
}

/// Bytes that decode to a post are the layout of that post.
pub proof fn law_textnote_encode_decode(bytes: Seq<u8>)
    requires
        decode_textnote(bytes) is Some,
    ensures
        encode_textnote(decode_textnote(bytes).unwrap()) == bytes,
        decode_textnote(bytes).unwrap().fits(),
{
    lemma_bytes_of_take_key(bytes);
    let (pubkey, r1) = take_key(bytes).unwrap();
    lemma_bytes_of_take_u64(r1);
    let (timestamp, r2) = take_u64(r1).unwrap();
    lemma_bytes_of_take_text(r2);
    let (content, r3) = take_text(r2).unwrap();
    assert(r3 =~= Seq::<u8>::empty());
    assert(encode_textnote(decode_textnote(bytes).unwrap()) =~= bytes);
}

/// `String::from_utf8` of std: the text whose UTF-8 bytes are `bytes`, or
/// nothing where `bytes` are not UTF-8.
#[verifier::external_body]
fn string_from_utf8(bytes: Vec<u8>) -> (text: Option<String>)
    ensures
        match text {
            Some(t) => encode_utf8(t@) == bytes@,
            None => !valid_utf8(bytes@),
        },
{
    String::from_utf8(bytes).ok()
}

/// Reads a number at `at`; gives it with the place behind it.
fn read_number(bytes: &Vec<u8>, at: usize) -> (r: Option<(u64, usize)>)
    requires
        at <= bytes@.len(),
    ensures
        match take_u64(bytes@.skip(at as int)) {
            Some((x, rest)) => r == Some((x, (at + 8) as usize)) && at + 8 <= bytes@.len()
                && bytes@.skip(at + 8) == rest,
            None => r is None,
        },
{
    if bytes.len() - at < 8 {
        return None;
    }
    let x = read_u64(bytes, at);
    proof {
        let tail = bytes@.skip(at as int);
        assert(tail.take(8) =~= bytes@.subrange(at as int, at + 8));
        assert(tail.skip(8) =~= bytes@.skip(at + 8));
    }
    Some((x, at + 8))
}

/// Reads a public key at `at`; gives it with the place behind it.
fn read_key(bytes: &Vec<u8>, at: usize) -> (r: Option<(PublicKey, usize)>)
    requires
        at <= bytes@.len(),
    ensures
        match take_key(bytes@.skip(at as int)) {
            Some((key, rest)) => r is Some && r.unwrap().0@ == key && r.unwrap().1 == at
                + PUBLIC_KEY_LEN && at + PUBLIC_KEY_LEN <= bytes@.len() && bytes@.skip(
                at + PUBLIC_KEY_LEN,
            ) == rest,
            None => r is None,
        },
{
    if bytes.len() - at < PUBLIC_KEY_LEN {
        return None;
    }
    let mut key = PublicKey { bytes: [0u8;32] };
    let mut i: usize = 0;
    while i < PUBLIC_KEY_LEN
        invariant
            i <= PUBLIC_KEY_LEN,
            at + PUBLIC_KEY_LEN <= bytes.len(),
            forall|j: int| 0 <= j < i ==> key.bytes@[j] == bytes@[at + j],
        decreases PUBLIC_KEY_LEN - i,
    {
        key.bytes[i] = bytes[at + i];
        i += 1;
    }
    proof {
        let tail = bytes@.skip(at as int);
        assert(key@ =~= tail.take(PUBLIC_KEY_LEN as int));
        assert(tail.skip(PUBLIC_KEY_LEN as int) =~= bytes@.skip(at + PUBLIC_KEY_LEN));
    }
    Some((key, at + PUBLIC_KEY_LEN))
}

/// Reads a text at `at`; gives it with the place behind it.
fn read_text(bytes: &Vec<u8>, at: usize) -> (r: Option<(String, usize)>)
    requires
        at <= bytes@.len(),
    ensures
        match take_text(bytes@.skip(at as int)) {
            Some((text, rest)) => r is Some && r.unwrap().0@ == text && at <= r.unwrap().1
                <= bytes@.len() && bytes@.skip(r.unwrap().1 as int) == rest,
            None => r is None,
        },
{
    let (len, start) = match read_number(bytes, at) {
        Some(read) => read,
        None => {
            return None;
        },
    };
    if len > (bytes.len() - start) as u64 {
        return None;
    }
    let end = start + len as usize;
    let body = slice_to_vec(slice_subrange(bytes.as_slice(), start, end));
    proof {
        let tail = bytes@.skip(start as int);
        assert(tail.take(len as int) =~= body@);
        assert(tail.skip(len as int) =~= bytes@.skip(end as int));
    }
    match string_from_utf8(body) {
        Some(text) => {
            proof {
                encode_utf8_valid_utf8(text@);
                encode_utf8_decode_utf8(text@);
            }
            Some((text, end))
        },
        None => None,
    }
}

/// Reads an optional text at `at`; gives it with the place behind it.
fn read_opt_text(bytes: &Vec<u8>, at: usize) -> (r: Option<(Option<String>, usize)>)
    requires
        at <= bytes@.len(),
    ensures
        match take_opt_text(bytes@.skip(at as int)) {
            Some((text, rest)) => r is Some && opt_text_view(r.unwrap().0) == text && at
                <= r.unwrap().1 <= bytes@.len() && bytes@.skip(r.unwrap().1 as int) == rest,
            None => r is None,
        },
{
    if at == bytes.len() {
        return None;
    }
    let tag = bytes[at];
    proof {
        let tail = bytes@.skip(at as int);
        assert(tail[0] == tag);
        assert(tail.skip(1) =~= bytes@.skip(at + 1));
    }
    if tag == 0 {
        Some((None, at + 1))
    } else if tag == 1 {
        match read_text(bytes, at + 1) {
            Some((text, end)) => Some((Some(text), end)),
            None => None,
        }
    } else {
        None
    }
}

/// Appends the layout of a text.
fn write_text(out: &mut Vec<u8>, text: &String)
    ensures
        final(out)@ == old(out)@ + text_bytes(text@),
        text_fits(text@),
{
    let mut body = text.as_str().as_bytes_vec();
    let mut len = timestamp_key(body.len() as u64);
    out.append(&mut len);
    out.append(&mut body);
    assert(out@ =~= old(out)@ + text_bytes(text@));
}

/// Appends the layout of an optional text.
fn write_opt_text(out: &mut Vec<u8>, text: &Option<String>)
    ensures
        final(out)@ == old(out)@ + opt_text_bytes(opt_text_view(*text)),
        opt_text_fits(opt_text_view(*text)),
{
    match text {
        None => {
            out.push(0u8);
            assert(out@ =~= old(out)@ + opt_text_bytes(None));
        },
        Some(t) => {
            out.push(1u8);
            write_text(out, t);
            assert(out@ =~= old(out)@ + opt_text_bytes(Some(t@)));
        },
    }
}

/// Appends the bytes of a public key.
fn write_key(out: &mut Vec<u8>, key: &PublicKey)
    ensures
        final(out)@ == old(out)@ + key@,
{
    let mut i: usize = 0;
    while i < PUBLIC_KEY_LEN
        invariant
            i <= PUBLIC_KEY_LEN,
            out@ == old(out)@ + key@.take(i as int),
        decreases PUBLIC_KEY_LEN - i,
    {
        out.push(key.bytes[i]);
        i += 1;
        assert(out@ =~= old(out)@ + key@.take(i as int));
    }
    assert(key@.take(PUBLIC_KEY_LEN as int) =~= key@);
}

impl PublicKey {
    /// The key as it is stored.
    pub fn encode(&self) -> (bytes: Vec<u8>)
        ensures
            bytes@ == self@,
            decode_key(bytes@) == Some(self@),
    {
        let mut bytes: Vec<u8> = Vec::with_capacity(PUBLIC_KEY_LEN);
        write_key(&mut bytes, self);
        assert(bytes@ =~= self@);
        bytes
    }

    /// The key that `bytes` are; they must have its width.
    pub fn decode(bytes: &Vec<u8>) -> (r: Result<PublicKey, StoreError>)
        ensures
            match decode_key(bytes@) {
                Some(key) => r is Ok && r.unwrap()@ == key,
                None => r == Err::<PublicKey, StoreError>(StoreError::Decode),
            },
    {
        if bytes.len() != PUBLIC_KEY_LEN {
            return Err(StoreError::Decode);
        }
        match read_key(bytes, 0) {
            Some((key, _)) => {
                assert(bytes@.skip(0) =~= bytes@);
                assert(bytes@.take(PUBLIC_KEY_LEN as int) =~= bytes@);
                Ok(key)
            },
            None => Err(StoreError::Decode),
        }
    }
}

/// The storage key of an event: the leading bytes of its identifier.
pub fn hash_prefix(id: &EventId) -> (prefix: Vec<u8>)
    ensures
        prefix@ == prefix_of(id@),
        prefix@.len() == HASH_PREFIX_LEN,
{
    let mut prefix: Vec<u8> = Vec::with_capacity(HASH_PREFIX_LEN);
    let mut i: usize = 0;
    while i < HASH_PREFIX_LEN
        invariant
            i <= HASH_PREFIX_LEN,
            prefix@ == id@.take(i as int),
        decreases HASH_PREFIX_LEN - i,
    {
        prefix.push(id.bytes[i]);
        i += 1;
        assert(prefix@ =~= id@.take(i as int));
    }
    prefix
}

impl Profile {
    /// The profile as it is stored.
    pub fn encode(&self) -> (bytes: Vec<u8>)
        ensures
            bytes@ == encode_profile(self@),
            self@.fits(),
    {
        let mut bytes: Vec<u8> = Vec::new();
        write_opt_text(&mut bytes, &self.name);
        write_opt_text(&mut bytes, &self.display_name);
        write_opt_text(&mut bytes, &self.about);
        write_opt_text(&mut bytes, &self.picture);
        assert(bytes@ =~= encode_profile(self@));
        bytes
    }

    /// The profile that `bytes` lay out.
    pub fn decode(bytes: &Vec<u8>) -> (r: Result<Profile, StoreError>)
        ensures
            match decode_profile(bytes@) {
                Some(profile) => r is Ok && r.unwrap()@ == profile,
                None => r == Err::<Profile, StoreError>(StoreError::Decode),
            },
    {
        assert(bytes@.skip(0) =~= bytes@);
        let (name, at) = match read_opt_text(bytes, 0) {
            Some(read) => read,
            None => {
                return Err(StoreError::Decode);
            },
        };
        let (display_name, at) = match read_opt_text(bytes, at) {
            Some(read) => read,
            None => {
                return Err(StoreError::Decode);
            },
        };
        let (about, at) = match read_opt_text(bytes, at) {
            Some(read) => read,
            None => {
                return Err(StoreError::Decode);
            },
        };
        let (picture, at) = match read_opt_text(bytes, at) {
            Some(read) => read,
            None => {
                return Err(StoreError::Decode);
            },
        };
        if at != bytes.len() {
            return Err(StoreError::Decode);
        }
        Ok(Profile { name, display_name, about, picture })
    }
}

impl Contact {
    /// The contact as it is stored.
    pub fn encode(&self) -> (bytes: Vec<u8>)
        ensures
            bytes@ == encode_contact(self@),
            self@.fits(),
    {
        let mut bytes: Vec<u8> = Vec::new();
        write_key(&mut bytes, &self.pk);
        write_opt_text(&mut bytes, &self.relay_url);
        write_opt_text(&mut bytes, &self.alias);
        assert(bytes@ =~= encode_contact(self@));
        bytes
    }

    /// The contact that `bytes` lay out.
    pub fn decode(bytes: &Vec<u8>) -> (r: Result<Contact, StoreError>)
        ensures
            match decode_contact(bytes@) {
                Some(contact) => r is Ok && r.unwrap()@ == contact,
                None => r == Err::<Contact, StoreError>(StoreError::Decode),
            },
    {
        assert(bytes@.skip(0) =~= bytes@);
        let (pk, at) = match read_key(bytes, 0) {
            Some(read) => read,
            None => {
                return Err(StoreError::Decode);
            },
        };
        let (relay_url, at) = match read_opt_text(bytes, at) {
            Some(read) => read,
            None => {
                return Err(StoreError::Decode);
            },
        };
        let (alias, at) = match read_opt_text(bytes, at) {
            Some(read) => read,
            None => {
                return Err(StoreError::Decode);
            },
        };
        if at != bytes.len() {
            return Err(StoreError::Decode);
        }
        Ok(Contact { pk, relay_url, alias })
    }
}

impl TextNote {
    /// The post as it is stored.
    pub fn encode(&self) -> (bytes: Vec<u8>)
        ensures
            bytes@ == encode_textnote(self@),
            self@.fits(),
    {
        let mut bytes: Vec<u8> = Vec::new();
        write_key(&mut bytes, &self.pubkey);
        let mut timestamp = timestamp_key(self.timestamp);
        bytes.append(&mut timestamp);
        write_text(&mut bytes, &self.content);
        assert(bytes@ =~= encode_textnote(self@));
        bytes
    }

    /// The post that `bytes` lay out.
    pub fn decode(bytes: &Vec<u8>) -> (r: Result<TextNote, StoreError>)
        ensures
            match decode_textnote(bytes@) {
                Some(note) => r is Ok && r.unwrap()@ == note,
                None => r == Err::<TextNote, StoreError>(StoreError::Decode),
            },
    {
        assert(bytes@.skip(0) =~= bytes@);
        let (pubkey, at) = match read_key(bytes, 0) {
            Some(read) => read,
            None => {
                return Err(StoreError::Decode);
            },
        };
        let (timestamp, at) = match read_number(bytes, at) {
            Some(read) => read,
            None => {
                return Err(StoreError::Decode);
            },
        };
        let (content, at) = match read_text(bytes, at) {
            Some(read) => read,
            None => {
                return Err(StoreError::Decode);
            },
        };
        if at != bytes.len() {
            return Err(StoreError::Decode);
        }
        Ok(TextNote { pubkey, content, timestamp })
    }
}

} // verus!
