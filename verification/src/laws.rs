//! What holds of the store whatever it holds: reads after writes, repeated
//! deliveries, and the order of feeds.

use crate::bytes::{
    be_bytes, lemma_be_bytes_order, lemma_lex_asymmetric, lex_lt, prefix_of,
};
use crate::codec::{
    decode_contact, encode_contact, encode_profile, encode_textnote, law_contact_decode_encode,
    law_profile_decode_encode, law_textnote_decode_encode,
};
use crate::contacts::{contact_lt, contacts_ascend};
use crate::engine::{tables_wf, ColumnFamily, Tables};
use crate::error::StoreError;
use crate::model::{ContactView, ProfileView, TextNoteView};
use crate::partition::Direction;
use crate::state::{
    contacts_decode, feed_page, feed_rows, newest_textnotes, page_rows, profile_at, resolve,
    stored_contacts, textnote_at, textnote_in, textnotes_from, values_of, with_author,
    with_contacts, with_profile, with_textnote,
};
use crate::table::{
    holds_once, lemma_found_once, lemma_lookup_put_other, lemma_lookup_put_same,
    lemma_put_idempotent, lemma_put_rows, lemma_put_sorted, lemma_rank_bounds, lemma_rank_parts,
    lookup, put, rank,
    rank_through, scan_end, scan_forward, scan_reverse, sorted, Row, Table,
};
use vstd::prelude::*;

verus! {

/// Storing a profile keeps the tables well formed.
pub proof fn lemma_with_profile_wf(s: Tables, key: Seq<u8>, profile: ProfileView)
    requires
        tables_wf(s),
    ensures
        tables_wf(with_profile(s, key, profile)),
{
    let after = with_profile(s, key, profile);
    assert(s.dom().contains(ColumnFamily::Profile));
    lemma_put_sorted(s[ColumnFamily::Profile], key, encode_profile(profile));
    assert forall|cf: ColumnFamily| #[trigger] after.dom().contains(cf) by {
        assert(s.dom().contains(cf));
    }
    assert forall|cf: ColumnFamily| sorted(#[trigger] after[cf]) by {
        assert(s.dom().contains(cf));
        if cf != ColumnFamily::Profile {
            assert(sorted(s[cf]));
        }
    }
}

/// A profile that was stored under a key is the profile read under that key,
/// and a second profile stored there takes its place whole.
pub proof fn law_profile_read_after_write(
    s: Tables,
    key: Seq<u8>,
    first: ProfileView,
    second: ProfileView,
)
    requires
        tables_wf(s),
        first.fits(),
        second.fits(),
    ensures
        profile_at(with_profile(s, key, first), key) == Ok::<ProfileView, StoreError>(first),
        profile_at(with_profile(with_profile(s, key, first), key, second), key) == Ok::<
            ProfileView,
            StoreError,
        >(second),
{
    let once = with_profile(s, key, first);
    assert(sorted(s[ColumnFamily::Profile]));
    lemma_lookup_put_same(s[ColumnFamily::Profile], key, encode_profile(first));
    law_profile_decode_encode(first);
    lemma_with_profile_wf(s, key, first);
    assert(sorted(once[ColumnFamily::Profile]));
    lemma_lookup_put_same(once[ColumnFamily::Profile], key, encode_profile(second));
    law_profile_decode_encode(second);
}

/// An author marked twice is marked once: the second marking changes
/// nothing, and one row stands for the author.
pub proof fn law_author_marked_once(s: Tables, key: Seq<u8>)
    requires
        tables_wf(s),
    ensures
        with_author(with_author(s, key), key) == with_author(s, key),
        holds_once(with_author(s, key)[ColumnFamily::Author], key),
{
    let authors = s[ColumnFamily::Author];
    let empty = Seq::<u8>::empty();
    assert(sorted(authors));
    lemma_put_idempotent(authors, key, empty);
    lemma_put_sorted(authors, key, empty);
    lemma_lookup_put_same(authors, key, empty);
    lemma_found_once(put(authors, key, empty), key);
    assert(with_author(with_author(s, key), key) =~= with_author(s, key));
}

/// Delivering a post keeps the tables well formed.
pub proof fn lemma_with_textnote_wf(s: Tables, id: Seq<u8>, note: TextNoteView)
    requires
        tables_wf(s),
    ensures
        tables_wf(with_textnote(s, id, note)),
{
    let after = with_textnote(s, id, note);
    let index = s[ColumnFamily::TextNoteByTimestamp];
    let posts = s[ColumnFamily::TextNote];
    assert(s.dom().contains(ColumnFamily::TextNoteByTimestamp));
    assert(s.dom().contains(ColumnFamily::TextNote));
    assert(sorted(index) && sorted(posts));
    lemma_put_sorted(index, be_bytes(note.timestamp), prefix_of(id));
    lemma_put_sorted(posts, prefix_of(id), encode_textnote(note));
    assert forall|cf: ColumnFamily| #[trigger] after.dom().contains(cf) by {
        assert(s.dom().contains(cf));
    }
    assert forall|cf: ColumnFamily| sorted(#[trigger] after[cf]) by {
        assert(s.dom().contains(cf));
        if cf != ColumnFamily::TextNoteByTimestamp && cf != ColumnFamily::TextNote {
            assert(sorted(s[cf]));
        }
    }
}

/// A post delivered twice is stored once: the second delivery changes
/// nothing, one row of the post table stands under the post's storage key and
/// one row of the index under its timestamp. Where the storage key was new,
/// the post that is read back is the post that was delivered.
pub proof fn law_textnote_delivered_once(s: Tables, id: Seq<u8>, note: TextNoteView)
    requires
        tables_wf(s),
    ensures
        with_textnote(with_textnote(s, id, note), id, note) == with_textnote(s, id, note),
        holds_once(with_textnote(s, id, note)[ColumnFamily::TextNote], prefix_of(id)),
        holds_once(
            with_textnote(s, id, note)[ColumnFamily::TextNoteByTimestamp],
            be_bytes(note.timestamp),
        ),
        lookup(s[ColumnFamily::TextNote], prefix_of(id)) is Some ==> with_textnote(
            s,
            id,
            note,
        )[ColumnFamily::TextNote] == s[ColumnFamily::TextNote],
        lookup(s[ColumnFamily::TextNote], prefix_of(id)) is None && note.fits() ==> textnote_at(
            with_textnote(s, id, note),
            id,
        ) == Ok::<TextNoteView, StoreError>(note),
{
    let once = with_textnote(s, id, note);
    let index = s[ColumnFamily::TextNoteByTimestamp];
    let posts = s[ColumnFamily::TextNote];
    let at = be_bytes(note.timestamp);
    let prefix = prefix_of(id);
    assert(s.dom().contains(ColumnFamily::TextNoteByTimestamp));
    assert(s.dom().contains(ColumnFamily::TextNote));
    assert(sorted(index) && sorted(posts));
    lemma_with_textnote_wf(s, id, note);
    lemma_lookup_put_same(index, at, prefix);
    lemma_lookup_put_same(posts, prefix, encode_textnote(note));
    assert(lookup(once[ColumnFamily::TextNoteByTimestamp], at) is Some);
    assert(lookup(once[ColumnFamily::TextNote], prefix) is Some);
    assert(sorted(once[ColumnFamily::TextNoteByTimestamp]));
    assert(sorted(once[ColumnFamily::TextNote]));
    lemma_found_once(once[ColumnFamily::TextNoteByTimestamp], at);
    lemma_found_once(once[ColumnFamily::TextNote], prefix);
    assert(with_textnote(once, id, note) =~= once);
    if note.fits() {
        law_textnote_decode_encode(note);
    }
}

/// An index row agrees with the post table: where its pointer leads to a
/// post, the post's timestamp is the row's key.
pub open spec fn row_agrees(posts: Table, row: Row) -> bool {
    match textnote_in(posts, row.1) {
        Some(note) => be_bytes(note.timestamp) == row.0,
        None => true,
    }
}

/// Every index row agrees with the post table.
pub open spec fn index_agrees(s: Tables) -> bool {
    forall|i: int|
        0 <= i < s[ColumnFamily::TextNoteByTimestamp].len() ==> row_agrees(
            s[ColumnFamily::TextNote],
            #[trigger] s[ColumnFamily::TextNoteByTimestamp][i],
        )
}

/// Every index row leads to a post with the row's timestamp.
pub open spec fn index_sound(s: Tables) -> bool {
    forall|i: int|
        0 <= i < s[ColumnFamily::TextNoteByTimestamp].len() ==> {
            let row = #[trigger] s[ColumnFamily::TextNoteByTimestamp][i];
            match textnote_in(s[ColumnFamily::TextNote], row.1) {
                Some(note) => be_bytes(note.timestamp) == row.0,
                None => false,
            }
        }
}

/// The keys of the rows walked go one way: down, or up.
pub open spec fn walks(walked: Table, down: bool) -> bool {
    forall|i: int, j: int|
        0 <= i < j < walked.len() ==> if down {
            lex_lt(#[trigger] walked[j].0, #[trigger] walked[i].0)
        } else {
            lex_lt(#[trigger] walked[i].0, #[trigger] walked[j].0)
        }
}

/// The timestamps of the posts go one way: down, or up.
pub open spec fn timestamps_go(notes: Seq<TextNoteView>, down: bool) -> bool {
    forall|a: int, b: int|
        0 <= a < b < notes.len() ==> if down {
            (#[trigger] notes[a]).timestamp > (#[trigger] notes[b]).timestamp
        } else {
            (#[trigger] notes[a]).timestamp < (#[trigger] notes[b]).timestamp
        }
}

/// The timestamp of each post is the key of a row that was walked.
pub open spec fn stamped_by(notes: Seq<TextNoteView>, walked: Table) -> bool {
    forall|a: int|
        0 <= a < notes.len() ==> exists|i: int|
            0 <= i < walked.len() && (#[trigger] walked[i]).0 == be_bytes(
                (#[trigger] notes[a]).timestamp,
            )
}

/// Rows that agree with the post table and are walked one way resolve to
/// posts whose timestamps go the same way, no more posts than rows.
pub proof fn lemma_resolve_in_order(posts: Table, walked: Table, down: bool)
    requires
        walks(walked, down),
        forall|i: int| 0 <= i < walked.len() ==> row_agrees(posts, #[trigger] walked[i]),
    ensures
        resolve(posts, values_of(walked)).len() <= walked.len(),
        timestamps_go(resolve(posts, values_of(walked)), down),
        stamped_by(resolve(posts, values_of(walked)), walked),
    decreases walked.len(),
{
    let pick = |key: Seq<u8>| textnote_in(posts, key);
    let notes = resolve(posts, values_of(walked));
    if walked.len() > 0 {
        let front = walked.drop_last();
        let last = walked.last();
        let n = walked.len() - 1;
        assert(values_of(walked).drop_last() =~= values_of(front));
        assert(values_of(walked).last() == last.1);
        assert forall|i: int, j: int| 0 <= i < j < front.len() implies if down {
            lex_lt(#[trigger] front[j].0, #[trigger] front[i].0)
        } else {
            lex_lt(#[trigger] front[i].0, #[trigger] front[j].0)
        } by {
            assert(front[i] == walked[i] && front[j] == walked[j]);
        }
        assert forall|i: int| 0 <= i < front.len() implies row_agrees(
            posts,
            #[trigger] front[i],
        ) by {
            assert(front[i] == walked[i]);
        }
        lemma_resolve_in_order(posts, front, down);
        let earlier = resolve(posts, values_of(front));
        assert forall|a: int| 0 <= a < earlier.len() implies exists|i: int|
            0 <= i < n && (#[trigger] walked[i]).0 == be_bytes(
                (#[trigger] earlier[a]).timestamp,
            ) by {
            let i = choose|i: int|
                0 <= i < front.len() && (#[trigger] front[i]).0 == be_bytes(
                    earlier[a].timestamp,
                );
            assert(walked[i] == front[i]);
        }
        match textnote_in(posts, last.1) {
            Some(note) => {
                assert(notes =~= earlier + seq![note]);
                assert(row_agrees(posts, walked[n]));
                assert(walked[n].0 == be_bytes(note.timestamp));
                assert forall|a: int, b: int| 0 <= a < b < notes.len() implies if down {
                    (#[trigger] notes[a]).timestamp > (#[trigger] notes[b]).timestamp
                } else {
                    (#[trigger] notes[a]).timestamp < (#[trigger] notes[b]).timestamp
                } by {
                    if b == notes.len() - 1 {
                        assert(notes[a] == earlier[a]);
                        let i = choose|i: int|
                            0 <= i < n && (#[trigger] walked[i]).0 == be_bytes(
                                earlier[a].timestamp,
                            );
                        assert(if down {
                            lex_lt(walked[n].0, walked[i].0)
                        } else {
                            lex_lt(walked[i].0, walked[n].0)
                        });
                        lemma_be_bytes_order(note.timestamp, earlier[a].timestamp);
                        lemma_be_bytes_order(earlier[a].timestamp, note.timestamp);
                    } else {
                        assert(notes[a] == earlier[a] && notes[b] == earlier[b]);
                    }
                }
                assert forall|a: int| 0 <= a < notes.len() implies exists|i: int|
                    0 <= i < walked.len() && (#[trigger] walked[i]).0 == be_bytes(
                        (#[trigger] notes[a]).timestamp,
                    ) by {
                    if a == notes.len() - 1 {
                        assert(walked[n].0 == be_bytes(notes[a].timestamp));
                    } else {
                        assert(notes[a] == earlier[a]);
                        let i = choose|i: int|
                            0 <= i < n && (#[trigger] walked[i]).0 == be_bytes(
                                earlier[a].timestamp,
                            );
                        assert(walked[i].0 == be_bytes(notes[a].timestamp));
                    }
                }
            },
            None => {
                assert(notes =~= earlier);
                assert forall|a: int| 0 <= a < notes.len() implies exists|i: int|
                    0 <= i < walked.len() && (#[trigger] walked[i]).0 == be_bytes(
                        (#[trigger] notes[a]).timestamp,
                    ) by {
                    let i = choose|i: int|
                        0 <= i < n && (#[trigger] walked[i]).0 == be_bytes(
                            earlier[a].timestamp,
                        );
                    assert(walked[i].0 == be_bytes(notes[a].timestamp));
                }
            },
        }
    } else {
        assert(values_of(walked) =~= Seq::<Seq<u8>>::empty());
    }
}

/// The newest posts are at most `limit`, and none is older than one that
/// comes after it: where the index agrees with the post table, their
/// timestamps strictly fall.
pub proof fn law_newest_first(s: Tables, limit: int)
    requires
        tables_wf(s),
        index_agrees(s),
        limit >= 0,
    ensures
        newest_textnotes(s, limit).len() <= limit,
        forall|a: int, b: int|
            0 <= a < b < newest_textnotes(s, limit).len() ==> (#[trigger] newest_textnotes(
                s,
                limit,
            )[a]).timestamp >= (#[trigger] newest_textnotes(s, limit)[b]).timestamp,
        timestamps_go(newest_textnotes(s, limit), true),
{
    let index = s[ColumnFamily::TextNoteByTimestamp];
    let posts = s[ColumnFamily::TextNote];
    let walked = scan_end(index, limit);
    assert(sorted(index));
    crate::table::lemma_scan_end_rows(index, limit);
    assert forall|i: int, j: int| 0 <= i < j < walked.len() implies lex_lt(
        #[trigger] walked[j].0,
        #[trigger] walked[i].0,
    ) by {
        assert(walked[i] == index[index.len() - 1 - i]);
        assert(walked[j] == index[index.len() - 1 - j]);
    }
    assert forall|i: int| 0 <= i < walked.len() implies row_agrees(
        posts,
        #[trigger] walked[i],
    ) by {
        assert(walked[i] == index[index.len() - 1 - i]);
    }
    lemma_resolve_in_order(posts, walked, true);
}

/// A page walked forward from a timestamp holds at most `limit` posts, none
/// older than the timestamp and none older than one before it: where the
/// index agrees with the post table, their timestamps strictly rise.
pub proof fn law_page_forward(s: Tables, timestamp: u64, limit: int)
    requires
        tables_wf(s),
        index_agrees(s),
        limit >= 0,
    ensures
        textnotes_from(s, timestamp, Direction::Forward, limit).len() <= limit,
        forall|a: int|
            0 <= a < textnotes_from(s, timestamp, Direction::Forward, limit).len()
                ==> (#[trigger] textnotes_from(s, timestamp, Direction::Forward, limit)[a]).timestamp
                >= timestamp,
        forall|a: int, b: int|
            0 <= a < b < textnotes_from(s, timestamp, Direction::Forward, limit).len()
                ==> (#[trigger] textnotes_from(s, timestamp, Direction::Forward, limit)[a]).timestamp
                <= (#[trigger] textnotes_from(
                s,
                timestamp,
                Direction::Forward,
                limit,
            )[b]).timestamp,
        timestamps_go(textnotes_from(s, timestamp, Direction::Forward, limit), false),
{
    let index = s[ColumnFamily::TextNoteByTimestamp];
    let posts = s[ColumnFamily::TextNote];
    let key = be_bytes(timestamp);
    let walked = scan_forward(index, key, limit);
    let from = rank(index, key);
    let notes = textnotes_from(s, timestamp, Direction::Forward, limit);
    assert(sorted(index));
    assert(walked == page_rows(index, timestamp, Direction::Forward, limit));
    crate::table::lemma_scan_forward_rows(index, key, limit);
    lemma_rank_parts(index, key);
    assert forall|i: int, j: int| 0 <= i < j < walked.len() implies lex_lt(
        #[trigger] walked[i].0,
        #[trigger] walked[j].0,
    ) by {
        assert(walked[i] == index[from + i]);
        assert(walked[j] == index[from + j]);
    }
    assert forall|i: int| 0 <= i < walked.len() implies row_agrees(
        posts,
        #[trigger] walked[i],
    ) by {
        assert(walked[i] == index[from + i]);
    }
    lemma_resolve_in_order(posts, walked, false);
    assert forall|a: int| 0 <= a < notes.len() implies (#[trigger] notes[a]).timestamp
        >= timestamp by {
        let i = choose|i: int|
            0 <= i < walked.len() && (#[trigger] walked[i]).0 == be_bytes(notes[a].timestamp);
        assert(walked[i] == index[from + i]);
        assert(!lex_lt(index[from + i].0, key));
        lemma_be_bytes_order(notes[a].timestamp, timestamp);
    }
}

/// A page walked in reverse from a timestamp holds at most `limit` posts,
/// none newer than the timestamp and none newer than one before it: where
/// the index agrees with the post table, their timestamps strictly fall.
pub proof fn law_page_reverse(s: Tables, timestamp: u64, limit: int)
    requires
        tables_wf(s),
        index_agrees(s),
        limit >= 0,
    ensures
        textnotes_from(s, timestamp, Direction::Reverse, limit).len() <= limit,
        forall|a: int|
            0 <= a < textnotes_from(s, timestamp, Direction::Reverse, limit).len()
                ==> (#[trigger] textnotes_from(s, timestamp, Direction::Reverse, limit)[a]).timestamp
                <= timestamp,
        forall|a: int, b: int|
            0 <= a < b < textnotes_from(s, timestamp, Direction::Reverse, limit).len()
                ==> (#[trigger] textnotes_from(s, timestamp, Direction::Reverse, limit)[a]).timestamp
                >= (#[trigger] textnotes_from(
                s,
                timestamp,
                Direction::Reverse,
                limit,
            )[b]).timestamp,
        timestamps_go(textnotes_from(s, timestamp, Direction::Reverse, limit), true),
{
    let index = s[ColumnFamily::TextNoteByTimestamp];
    let posts = s[ColumnFamily::TextNote];
    let key = be_bytes(timestamp);
    let walked = scan_reverse(index, key, limit);
    let upto = rank_through(index, key);
    let notes = textnotes_from(s, timestamp, Direction::Reverse, limit);
    assert(sorted(index));
    assert(walked == page_rows(index, timestamp, Direction::Reverse, limit));
    crate::table::lemma_scan_reverse_rows(index, key, limit);
    lemma_rank_parts(index, key);
    assert forall|i: int, j: int| 0 <= i < j < walked.len() implies lex_lt(
        #[trigger] walked[j].0,
        #[trigger] walked[i].0,
    ) by {
        assert(walked[i] == index[upto - 1 - i]);
        assert(walked[j] == index[upto - 1 - j]);
    }
    assert forall|i: int| 0 <= i < walked.len() implies row_agrees(
        posts,
        #[trigger] walked[i],
    ) by {
        assert(walked[i] == index[upto - 1 - i]);
    }
    lemma_resolve_in_order(posts, walked, true);
    assert forall|a: int| 0 <= a < notes.len() implies (#[trigger] notes[a]).timestamp
        <= timestamp by {
        let i = choose|i: int|
            0 <= i < walked.len() && (#[trigger] walked[i]).0 == be_bytes(notes[a].timestamp);
        let at = upto - 1 - i;
        assert(walked[i] == index[at]);
        assert(index[at].0 == key || lex_lt(index[at].0, key));
        lemma_be_bytes_order(notes[a].timestamp, timestamp);
        lemma_be_bytes_order(timestamp, notes[a].timestamp);
        if lex_lt(index[at].0, key) {
            lemma_lex_asymmetric(index[at].0, key);
        }
    }
}

/// An index whose every row leads to its post agrees with the post table.
pub proof fn law_sound_index_agrees(s: Tables)
    requires
        index_sound(s),
    ensures
        index_agrees(s),
{
    let index = s[ColumnFamily::TextNoteByTimestamp];
    assert forall|i: int| 0 <= i < index.len() implies row_agrees(
        s[ColumnFamily::TextNote],
        #[trigger] index[i],
    ) by {
        let row = index[i];
    }
}

/// A delivery keeps every index row leading to its post, provided the
/// post's storage key is new or holds a post of the same timestamp, as it
/// does when the same post arrives again.
pub proof fn law_delivery_keeps_index_sound(s: Tables, id: Seq<u8>, note: TextNoteView)
    requires
        tables_wf(s),
        index_sound(s),
        note.fits(),
        match textnote_in(s[ColumnFamily::TextNote], prefix_of(id)) {
            Some(stored) => stored.timestamp == note.timestamp,
            None => lookup(s[ColumnFamily::TextNote], prefix_of(id)) is None,
        },
    ensures
        index_sound(with_textnote(s, id, note)),
{
    let after = with_textnote(s, id, note);
    let index = s[ColumnFamily::TextNoteByTimestamp];
    let posts = s[ColumnFamily::TextNote];
    let index_after = after[ColumnFamily::TextNoteByTimestamp];
    let posts_after = after[ColumnFamily::TextNote];
    let at = be_bytes(note.timestamp);
    let prefix = prefix_of(id);
    let p = rank(index, at);
    assert(s.dom().contains(ColumnFamily::TextNoteByTimestamp));
    assert(s.dom().contains(ColumnFamily::TextNote));
    assert(sorted(index) && sorted(posts));
    lemma_rank_bounds(index, at);
    law_textnote_decode_encode(note);
    lemma_lookup_put_same(posts, prefix, encode_textnote(note));
    assert(match textnote_in(posts_after, prefix) {
        Some(stored) => stored.timestamp == note.timestamp,
        None => false,
    });
    assert forall|i: int| 0 <= i < index_after.len() implies {
        let row = #[trigger] index_after[i];
        match textnote_in(posts_after, row.1) {
            Some(stored) => be_bytes(stored.timestamp) == row.0,
            None => false,
        }
    } by {
        let row = index_after[i];
        if lookup(index, at) is None && i == p {
            assert(row == (at, prefix));
        } else {
            let i0 = if lookup(index, at) is None && i > p {
                i - 1
            } else {
                i
            };
            assert(row == index[i0]);
            let old_row = index[i0];
            assert(textnote_in(posts, old_row.1) is Some);
            if lookup(posts, prefix) is None {
                assert(old_row.1 != prefix);
                lemma_lookup_put_other(posts, prefix, encode_textnote(note), old_row.1);
            }
        }
    }
}

/// One post at most stands for each row that was walked, and where every
/// index row leads to its post, one post stands for each.
pub proof fn lemma_resolve_sound_len(posts: Table, walked: Table)
    requires
        forall|i: int| 0 <= i < walked.len() ==> textnote_in(posts, (#[trigger] walked[i]).1) is Some,
    ensures
        resolve(posts, values_of(walked)).len() == walked.len(),
        forall|i: int|
            0 <= i < walked.len() ==> Some(#[trigger] resolve(posts, values_of(walked))[i])
                == textnote_in(posts, walked[i].1),
    decreases walked.len(),
{
    if walked.len() > 0 {
        let front = walked.drop_last();
        assert(values_of(walked).drop_last() =~= values_of(front));
        assert(values_of(walked).last() == walked.last().1);
        assert forall|i: int| 0 <= i < front.len() implies textnote_in(
            posts,
            (#[trigger] front[i]).1,
        ) is Some by {
            assert(front[i] == walked[i]);
        }
        lemma_resolve_sound_len(posts, front);
        let earlier = resolve(posts, values_of(front));
        let notes = resolve(posts, values_of(walked));
        assert(textnote_in(posts, walked[walked.len() - 1].1) is Some);
        let note = textnote_in(posts, walked.last().1).unwrap();
        assert(notes =~= earlier + seq![note]);
        assert forall|i: int| 0 <= i < walked.len() implies Some(#[trigger] notes[i])
            == textnote_in(posts, walked[i].1) by {
            if i < front.len() {
                assert(notes[i] == earlier[i]);
                assert(front[i] == walked[i]);
            }
        }
    } else {
        assert(values_of(walked) =~= Seq::<Seq<u8>>::empty());
    }
}

/// Where every index row leads to its post, the newest posts are as many as
/// the limit allows and the index holds, and the post at each place is the
/// post of the index row that many rows from the end.
pub proof fn law_newest_complete(s: Tables, limit: int)
    requires
        tables_wf(s),
        index_sound(s),
        limit >= 0,
    ensures
        newest_textnotes(s, limit).len() == if limit < s[ColumnFamily::TextNoteByTimestamp].len() {
            limit
        } else {
            s[ColumnFamily::TextNoteByTimestamp].len() as int
        },
        forall|k: int|
            0 <= k < newest_textnotes(s, limit).len() ==> be_bytes(
                (#[trigger] newest_textnotes(s, limit)[k]).timestamp,
            ) == s[ColumnFamily::TextNoteByTimestamp][s[ColumnFamily::TextNoteByTimestamp].len() - 1
                - k].0,
{
    let index = s[ColumnFamily::TextNoteByTimestamp];
    let posts = s[ColumnFamily::TextNote];
    let walked = scan_end(index, limit);
    let notes = newest_textnotes(s, limit);
    crate::table::lemma_scan_end_rows(index, limit);
    assert forall|i: int| 0 <= i < walked.len() implies textnote_in(
        posts,
        (#[trigger] walked[i]).1,
    ) is Some by {
        let row = index[index.len() - 1 - i];
        assert(walked[i] == row);
    }
    lemma_resolve_sound_len(posts, walked);
    assert forall|k: int| 0 <= k < notes.len() implies be_bytes((#[trigger] notes[k]).timestamp)
        == index[index.len() - 1 - k].0 by {
        let row = index[index.len() - 1 - k];
        assert(walked[k] == row);
        assert(Some(notes[k]) == textnote_in(posts, walked[k].1));
    }
}

/// Every row of the contact table holds a contact under the contact's own
/// key.
pub open spec fn contacts_keyed(s: Tables) -> bool {
    forall|i: int|
        0 <= i < s[ColumnFamily::Contact].len() ==> {
            let row = #[trigger] s[ColumnFamily::Contact][i];
            match decode_contact(row.1) {
                Some(contact) => contact.pk == row.0,
                None => false,
            }
        }
}

/// Storing contacts keeps every contact under its own key.
pub proof fn law_contacts_stay_keyed(s: Tables, list: Seq<ContactView>)
    requires
        tables_wf(s),
        contacts_keyed(s),
        forall|i: int| 0 <= i < list.len() ==> (#[trigger] list[i]).fits(),
    ensures
        tables_wf(with_contacts(s, list)),
        contacts_keyed(with_contacts(s, list)),
    decreases list.len(),
{
    if list.len() > 0 {
        let front = list.drop_last();
        let contact = list.last();
        assert forall|i: int| 0 <= i < front.len() implies (#[trigger] front[i]).fits() by {
            assert(front[i] == list[i]);
        }
        law_contacts_stay_keyed(s, front);
        let before = with_contacts(s, front);
        let after = with_contacts(s, list);
        let table = before[ColumnFamily::Contact];
        assert(before.dom().contains(ColumnFamily::Contact));
        assert(sorted(table));
        lemma_put_sorted(table, contact.pk, encode_contact(contact));
        assert forall|cf: ColumnFamily| #[trigger] after.dom().contains(cf) by {
            assert(before.dom().contains(cf));
        }
        assert forall|cf: ColumnFamily| sorted(#[trigger] after[cf]) by {
            assert(before.dom().contains(cf));
            if cf != ColumnFamily::Contact {
                assert(sorted(before[cf]));
            }
        }
        assert(list[list.len() - 1].fits());
        law_contact_decode_encode(contact);
        assert forall|i: int| 0 <= i < after[ColumnFamily::Contact].len() implies {
            let row = #[trigger] after[ColumnFamily::Contact][i];
            match decode_contact(row.1) {
                Some(c) => c.pk == row.0,
                None => false,
            }
        } by {
            let row = after[ColumnFamily::Contact][i];
            lemma_put_rows(table, contact.pk, encode_contact(contact), i);
            if row != (contact.pk, encode_contact(contact)) {
                let j = choose|j: int| 0 <= j < table.len() && table[j] == row;
                assert(table[j] == row);
            }
        }
    }
}

/// Where every contact is stored under its own key, the contacts come out
/// of the table in their natural order: the list that is read is the
/// stored contacts as they stand, in ascending key order.
pub proof fn law_keyed_contacts_ascend(s: Tables)
    requires
        tables_wf(s),
        contacts_keyed(s),
    ensures
        contacts_decode(s),
        contacts_ascend(stored_contacts(s)),
        forall|i: int, j: int|
            0 <= i < j < stored_contacts(s).len() ==> lex_lt(
                (#[trigger] stored_contacts(s)[i]).pk,
                (#[trigger] stored_contacts(s)[j]).pk,
            ),
{
    let table = s[ColumnFamily::Contact];
    let stored = stored_contacts(s);
    assert(sorted(table));
    assert forall|i: int| 0 <= i < table.len() implies decode_contact(
        (#[trigger] table[i]).1,
    ) is Some by {
        let row = table[i];
    }
    assert forall|i: int, j: int| 0 <= i < j < stored.len() implies lex_lt(
        (#[trigger] stored[i]).pk,
        (#[trigger] stored[j]).pk,
    ) by {
        let a = table[i];
        let b = table[j];
        assert(lex_lt(a.0, b.0));
    }
    assert forall|i: int, j: int| 0 <= i < j < stored.len() implies !contact_lt(
        #[trigger] stored[j],
        #[trigger] stored[i],
    ) by {
        lemma_lex_asymmetric(stored[i].pk, stored[j].pk);
    }
}

/// A page of the feed holds at most `limit` posts, none older than one that
/// comes after it; where the index agrees with the post table, their
/// timestamps strictly fall. The first page is the newest posts.
pub proof fn law_feed_page_newest_first(s: Tables, limit: int, page: int)
    requires
        tables_wf(s),
        index_agrees(s),
        limit >= 0,
        page >= 0,
    ensures
        feed_page(s, limit, page).len() <= limit,
        forall|a: int, b: int|
            0 <= a < b < feed_page(s, limit, page).len() ==> (#[trigger] feed_page(
                s,
                limit,
                page,
            )[a]).timestamp >= (#[trigger] feed_page(s, limit, page)[b]).timestamp,
        timestamps_go(feed_page(s, limit, page), true),
        feed_page(s, limit, 0) == newest_textnotes(s, limit),
{
    let index = s[ColumnFamily::TextNoteByTimestamp];
    let posts = s[ColumnFamily::TextNote];
    let through = limit * (page + 1);
    let before = limit * page;
    assert(through == before + limit && before >= 0) by (nonlinear_arith)
        requires
            through == limit * (page + 1),
            before == limit * page,
            limit >= 0,
            page >= 0,
    ;
    let walked = scan_end(index, through);
    let rows = feed_rows(index, limit, page);
    let from = if before < walked.len() {
        before
    } else {
        walked.len() as int
    };
    assert(sorted(index));
    crate::table::lemma_scan_end_rows(index, through);
    assert(rows == walked.subrange(from, walked.len() as int));
    assert forall|i: int, j: int| 0 <= i < j < rows.len() implies lex_lt(
        #[trigger] rows[j].0,
        #[trigger] rows[i].0,
    ) by {
        assert(rows[i] == walked[from + i]);
        assert(rows[j] == walked[from + j]);
        assert(walked[from + i] == index[index.len() - 1 - (from + i)]);
        assert(walked[from + j] == index[index.len() - 1 - (from + j)]);
    }
    assert forall|i: int| 0 <= i < rows.len() implies row_agrees(posts, #[trigger] rows[i]) by {
        assert(rows[i] == walked[from + i]);
        assert(walked[from + i] == index[index.len() - 1 - (from + i)]);
    }
    lemma_resolve_in_order(posts, rows, true);
    let first = scan_end(index, limit * (0 + 1));
    assert(limit * (0 + 1) == limit && limit * 0 == 0) by (nonlinear_arith);
    assert(feed_rows(index, limit, 0) =~= scan_end(index, limit));
}

} // verus!
