//! The records that the store keeps, and what each stands for in contracts.

use vstd::prelude::*;

verus! {

/// The width of a public key.
pub const PUBLIC_KEY_LEN: usize = 32;

/// The width of an event identifier.
pub const EVENT_ID_LEN: usize = 32;

/// The identity of an author: the 32 bytes of an x-only public key.
#[derive(Clone, Copy, Debug, PartialEq, Eq, Hash)]
pub struct PublicKey {
    pub bytes: [u8; 32],
}

impl View for PublicKey {
    type V = Seq<u8>;

    open spec fn view(&self) -> Seq<u8> {
        self.bytes@
    }
}

/// The identifier of an event: the 32 bytes of the hash of its content.
#[derive(Clone, Copy, Debug, PartialEq, Eq, Hash)]
pub struct EventId {
    pub bytes: [u8; 32],
}

impl View for EventId {
    type V = Seq<u8>;

    open spec fn view(&self) -> Seq<u8> {
        self.bytes@
    }
}

/// What an author tells of themselves.
#[derive(Clone, Debug, PartialEq, Eq, Default)]
pub struct Profile {
    pub name: Option<String>,
    pub display_name: Option<String>,
    pub about: Option<String>,
    pub picture: Option<String>,
}

pub struct ProfileView {
    pub name: Option<Seq<char>>,
    pub display_name: Option<Seq<char>>,
    pub about: Option<Seq<char>>,
    pub picture: Option<Seq<char>>,
}

/// The characters of an optional text.
pub open spec fn opt_text_view(text: Option<String>) -> Option<Seq<char>> {
    match text {
        Some(s) => Some(s@),
        None => None,
    }
}

impl View for Profile {
    type V = ProfileView;

    open spec fn view(&self) -> ProfileView {
        ProfileView {
            name: opt_text_view(self.name),
            display_name: opt_text_view(self.display_name),
            about: opt_text_view(self.about),
            picture: opt_text_view(self.picture),
        }
    }
}

/// An entry of the contact list: whom to follow, where to find them, and the
/// name they go by here.
#[derive(Clone, Debug, PartialEq, Eq)]
pub struct Contact {
    pub pk: PublicKey,
    pub relay_url: Option<String>,
    pub alias: Option<String>,
}

pub struct ContactView {
    pub pk: Seq<u8>,
    pub relay_url: Option<Seq<char>>,
    pub alias: Option<Seq<char>>,
}

impl View for Contact {
    type V = ContactView;

    open spec fn view(&self) -> ContactView {
        ContactView {
            pk: self.pk@,
            relay_url: opt_text_view(self.relay_url),
            alias: opt_text_view(self.alias),
        }
    }
}

/// A post: who wrote it, what it says, and when.
#[derive(Clone, Debug, PartialEq, Eq)]
pub struct TextNote {
    pub pubkey: PublicKey,
    pub content: String,
    pub timestamp: u64,
}

pub struct TextNoteView {
    pub pubkey: Seq<u8>,
    pub content: Seq<char>,
    pub timestamp: u64,
}

impl View for TextNote {
    type V = TextNoteView;

    open spec fn view(&self) -> TextNoteView {
        TextNoteView { pubkey: self.pubkey@, content: self.content@, timestamp: self.timestamp }
    }
}

/// The records that a vector of posts stands for.
pub open spec fn textnote_views(notes: Seq<TextNote>) -> Seq<TextNoteView> {
    notes.map_values(|n: TextNote| n@)
}

/// The records that a vector of contacts stands for.
pub open spec fn contact_views(contacts: Seq<Contact>) -> Seq<ContactView> {
    contacts.map_values(|c: Contact| c@)
}

/// The keys that a vector of public keys stands for.
pub open spec fn key_views(keys: Seq<PublicKey>) -> Seq<Seq<u8>> {
    keys.map_values(|k: PublicKey| k@)
}

} // verus!
