//! What the store's operations mean: each write as a function from tables to
//! tables, each read as a function of the tables.

use crate::bytes::{be_bytes, prefix_of};
use crate::codec::{
    decode_contact, decode_key, decode_profile, decode_textnote, encode_contact, encode_profile,
    encode_textnote,
};
use crate::engine::{ColumnFamily, Staged, Tables};
use crate::error::StoreError;
use crate::model::{ContactView, ProfileView, TextNoteView};
use crate::partition::Direction;
use crate::table::{
    at_most, lookup, put, scan_end, scan_forward, scan_reverse, Row, Table,
};
use vstd::prelude::*;

verus! {

/// The tables after a profile has been stored under a public key, in place
/// of any profile stored there before.
pub open spec fn with_profile(s: Tables, key: Seq<u8>, profile: ProfileView) -> Tables {
    s.insert(
        ColumnFamily::Profile,
        put(s[ColumnFamily::Profile], key, encode_profile(profile)),
    )
}

/// The profile stored under a public key.
pub open spec fn profile_at(s: Tables, key: Seq<u8>) -> Result<ProfileView, StoreError> {
    match lookup(s[ColumnFamily::Profile], key) {
        None => Err(StoreError::NotFound),
        Some(bytes) => match decode_profile(bytes) {
            Some(profile) => Ok(profile),
            None => Err(StoreError::Decode),
        },
    }
}

/// The tables after an author has been marked as known.
pub open spec fn with_author(s: Tables, key: Seq<u8>) -> Tables {
    s.insert(ColumnFamily::Author, put(s[ColumnFamily::Author], key, Seq::<u8>::empty()))
}

/// The tables after each of `keys` has been marked as known.
pub open spec fn with_authors(s: Tables, keys: Seq<Seq<u8>>) -> Tables
    decreases keys.len(),
{
    if keys.len() == 0 {
        s
    } else {
        with_author(with_authors(s, keys.drop_last()), keys.last())
    }
}

/// The keys of a table, in its order.
pub open spec fn keys_of(t: Table) -> Seq<Seq<u8>> {
    t.map_values(|row: Row| row.0)
}

/// The values of a table, in its order.
pub open spec fn values_of(t: Table) -> Seq<Seq<u8>> {
    t.map_values(|row: Row| row.1)
}

/// Every key of the author table is a public key.
pub open spec fn authors_decode(s: Tables) -> bool {
    forall|i: int|
        0 <= i < s[ColumnFamily::Author].len() ==> decode_key(
            #[trigger] s[ColumnFamily::Author][i].0,
        ) is Some
}

/// The tables after a contact has been stored under its own key.
pub open spec fn with_contact(s: Tables, contact: ContactView) -> Tables {
    s.insert(
        ColumnFamily::Contact,
        put(s[ColumnFamily::Contact], contact.pk, encode_contact(contact)),
    )
}

/// The tables after each contact of `list` has been stored, one after the
/// other: of two with the same key the later stays.
pub open spec fn with_contacts(s: Tables, list: Seq<ContactView>) -> Tables
    decreases list.len(),
{
    if list.len() == 0 {
        s
    } else {
        with_contact(with_contacts(s, list.drop_last()), list.last())
    }
}

/// Every value of the contact table lays out a contact.
pub open spec fn contacts_decode(s: Tables) -> bool {
    forall|i: int|
        0 <= i < s[ColumnFamily::Contact].len() ==> decode_contact(
            #[trigger] s[ColumnFamily::Contact][i].1,
        ) is Some
}

/// The contacts that the contact table holds, in the order of its keys.
pub open spec fn stored_contacts(s: Tables) -> Seq<ContactView> {
    s[ColumnFamily::Contact].map_values(|row: Row| decode_contact(row.1).unwrap())
}

/// The tables after a post has been delivered. The index gets a row for the
/// post's timestamp unless it has one; the post table gets the post under
/// its identifier's prefix unless something is stored there. Each is decided
/// on the tables as they were before.
pub open spec fn with_textnote(s: Tables, id: Seq<u8>, note: TextNoteView) -> Tables {
    let index = s[ColumnFamily::TextNoteByTimestamp];
    let posts = s[ColumnFamily::TextNote];
    let at = be_bytes(note.timestamp);
    let prefix = prefix_of(id);
    let index_after = if lookup(index, at) is None {
        put(index, at, prefix)
    } else {
        index
    };
    let posts_after = if lookup(posts, prefix) is None {
        put(posts, prefix, encode_textnote(note))
    } else {
        posts
    };
    s.insert(ColumnFamily::TextNoteByTimestamp, index_after).insert(
        ColumnFamily::TextNote,
        posts_after,
    )
}

/// The rows that a delivery stages.
pub open spec fn textnote_batch(s: Tables, id: Seq<u8>, note: TextNoteView) -> Seq<Staged> {
    let at = be_bytes(note.timestamp);
    let prefix = prefix_of(id);
    let first = if lookup(s[ColumnFamily::TextNoteByTimestamp], at) is None {
        seq![(ColumnFamily::TextNoteByTimestamp, at, prefix)]
    } else {
        Seq::<Staged>::empty()
    };
    if lookup(s[ColumnFamily::TextNote], prefix) is None {
        first.push((ColumnFamily::TextNote, prefix, encode_textnote(note)))
    } else {
        first
    }
}

/// The post that a table holds under a storage key, if one is stored there
/// and decodes.
pub open spec fn textnote_in(posts: Table, key: Seq<u8>) -> Option<TextNoteView> {
    match lookup(posts, key) {
        Some(bytes) => decode_textnote(bytes),
        None => None,
    }
}

/// The post stored for an identifier.
pub open spec fn textnote_at(s: Tables, id: Seq<u8>) -> Result<TextNoteView, StoreError> {
    match lookup(s[ColumnFamily::TextNote], prefix_of(id)) {
        None => Err(StoreError::NotFound),
        Some(bytes) => match decode_textnote(bytes) {
            Some(note) => Ok(note),
            None => Err(StoreError::Decode),
        },
    }
}

/// The posts that a sequence of storage keys leads to, in its order. A key
/// under which nothing is stored, or nothing that decodes, is passed over.
pub open spec fn resolve(posts: Table, pointers: Seq<Seq<u8>>) -> Seq<TextNoteView> {
    pointers.filter_map(|key: Seq<u8>| textnote_in(posts, key))
}

/// The newest posts: at most `limit` index rows from the last back, each
/// resolved in the post table.
pub open spec fn newest_textnotes(s: Tables, limit: int) -> Seq<TextNoteView> {
    resolve(
        s[ColumnFamily::TextNote],
        values_of(scan_end(s[ColumnFamily::TextNoteByTimestamp], limit)),
    )
}

/// The index rows of a page that starts at `timestamp`.
pub open spec fn page_rows(index: Table, timestamp: u64, direction: Direction, limit: int) -> Table {
    match direction {
        Direction::Forward => scan_forward(index, be_bytes(timestamp), limit),
        Direction::Reverse => scan_reverse(index, be_bytes(timestamp), limit),
    }
}

/// A page of posts: at most `limit` index rows from `timestamp` on in the
/// given direction, each resolved in the post table.
pub open spec fn textnotes_from(s: Tables, timestamp: u64, direction: Direction, limit: int) -> Seq<
    TextNoteView,
> {
    resolve(
        s[ColumnFamily::TextNote],
        values_of(page_rows(s[ColumnFamily::TextNoteByTimestamp], timestamp, direction, limit)),
    )
}

/// The index rows of page `page` of the feed, `limit` rows to a page: the
/// index is walked from the last row back, and the rows of the pages before
/// are passed over.
pub open spec fn feed_rows(index: Table, limit: int, page: int) -> Table {
    let walked = scan_end(index, limit * (page + 1));
    walked.subrange(at_most(limit * page, walked.len() as int), walked.len() as int)
}

/// Page `page` of the feed, newest first: its index rows, each resolved in
/// the post table.
pub open spec fn feed_page(s: Tables, limit: int, page: int) -> Seq<TextNoteView> {
    resolve(
        s[ColumnFamily::TextNote],
        values_of(feed_rows(s[ColumnFamily::TextNoteByTimestamp], limit, page)),
    )
}

} // verus!
