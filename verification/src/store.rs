//! The store: typed reads and writes over the engine's partitions, and the
//! time-ordered index of posts.

use crate::bytes::timestamp_key;
use crate::codec::{decode_contact, decode_key, encode_textnote, hash_prefix};
use crate::contacts::{contacts_ascend, insert_contact};
use crate::engine::{apply, tables_wf, ColumnFamily, Engine, Tables, WriteBatch};
use crate::error::StoreError;
use crate::model::{
    contact_views, key_views, textnote_views, Contact, EventId, Profile, PublicKey, TextNote,
};
use crate::partition::{copy_bytes, rows, Direction, Entry, IteratorMode};
use crate::state::{
    authors_decode, contacts_decode, feed_page, keys_of, newest_textnotes, profile_at, resolve,
    stored_contacts, textnote_at, textnote_batch, textnote_in, textnotes_from, values_of,
    with_author, with_authors, with_contacts, with_profile, with_textnote,
};
use crate::table::{at_most, lemma_scan_end_rows, lookup, put, scan_end, Row};
use vstd::prelude::*;
use vstd::seq_lib::to_multiset_build;

verus! {

#[derive(Debug)]
pub struct Store {
    db: Engine,
}

impl View for Store {
    type V = Tables;

    closed spec fn view(&self) -> Tables {
        self.db@
    }
}

impl Store {
    /// Every partition is there and in key order.
    pub open spec fn wf(&self) -> bool {
        tables_wf(self@)
    }

    /// The path at which the store was opened.
    pub closed spec fn spec_path(&self) -> Seq<char> {
        self.db.spec_path()
    }

    /// Whether something was written since the last flush.
    pub closed spec fn spec_unflushed(&self) -> bool {
        self.db.spec_unflushed()
    }

    /// Opens a store at `path` with every partition empty. The empty path is
    /// refused.
    pub fn open(path: &str) -> (r: Result<Store, StoreError>)
        ensures
            match r {
                Ok(store) => {
                    &&& path@.len() > 0
                    &&& store.wf()
                    &&& store.spec_path() == path@
                    &&& !store.spec_unflushed()
                    &&& forall|cf: ColumnFamily| #[trigger] store@[cf] == Seq::<Row>::empty()
                },
                Err(e) => path@.len() == 0 && e == StoreError::Open,
            },
    {
        match Engine::open(path) {
            Ok(db) => Ok(Store { db }),
            Err(e) => Err(e),
        }
    }

    /// A store over an engine that was filled elsewhere. Nothing is asked of
    /// what the engine holds: rows that do not decode are met by the reads.
    pub fn from_engine(db: Engine) -> (store: Store)
        requires
            db.wf(),
        ensures
            store.wf(),
            store@ == db@,
            store.spec_path() == db.spec_path(),
            store.spec_unflushed() == db.spec_unflushed(),
    {
        Store { db }
    }

    pub fn path(&self) -> (path: &str)
        ensures
            path@ == self.spec_path(),
    {
        self.db.path()
    }

    pub fn unflushed(&self) -> (unflushed: bool)
        ensures
            unflushed == self.spec_unflushed(),
    {
        self.db.unflushed()
    }

    /// The partition of known authors.
    pub fn author_cf(&self) -> (cf: ColumnFamily)
        ensures
            cf == ColumnFamily::Author,
    {
        ColumnFamily::Author
    }

    /// The partition of profiles.
    pub fn profile_cf(&self) -> (cf: ColumnFamily)
        ensures
            cf == ColumnFamily::Profile,
    {
        ColumnFamily::Profile
    }

    /// The partition of contacts.
    pub fn contact_cf(&self) -> (cf: ColumnFamily)
        ensures
            cf == ColumnFamily::Contact,
    {
        ColumnFamily::Contact
    }

    /// The partition of posts.
    pub fn textnote_cf(&self) -> (cf: ColumnFamily)
        ensures
            cf == ColumnFamily::TextNote,
    {
        ColumnFamily::TextNote
    }

    /// The partition that indexes posts by timestamp.
    pub fn textnote_by_timestamp(&self) -> (cf: ColumnFamily)
        ensures
            cf == ColumnFamily::TextNoteByTimestamp,
    {
        ColumnFamily::TextNoteByTimestamp
    }

    /// Stores a profile under a public key, in place of any stored there.
    pub fn set_profile(&mut self, public_key: PublicKey, profile: Profile) -> (r: Result<
        (),
        StoreError,
    >)
        requires
            old(self).wf(),
        ensures
            final(self).wf(),
            r is Ok,
            final(self)@ == with_profile(old(self)@, public_key@, profile@),
            final(self).spec_path() == old(self).spec_path(),
            final(self).spec_unflushed(),
    {
        let cf = self.profile_cf();
        self.db.put(cf, public_key.encode(), profile.encode());
        Ok(())
    }

    /// The profile stored under a public key.
    pub fn get_profile(&self, public_key: PublicKey) -> (r: Result<Profile, StoreError>)
        requires
            self.wf(),
        ensures
            match profile_at(self@, public_key@) {
                Ok(profile) => r is Ok && r.unwrap()@ == profile,
                Err(e) => r == Err::<Profile, StoreError>(e),
            },
    {
        match self.db.get(self.profile_cf(), &public_key.encode()) {
            Some(bytes) => Profile::decode(&bytes),
            None => Err(StoreError::NotFound),
        }
    }

    /// Stores each contact of `list` under its own key, all in one write.
    pub fn set_contacts(&mut self, list: Vec<Contact>) -> (r: Result<(), StoreError>)
        requires
            old(self).wf(),
        ensures
            final(self).wf(),
            r is Ok,
            final(self)@ == with_contacts(old(self)@, contact_views(list@)),
            final(self).spec_path() == old(self).spec_path(),
            final(self).spec_unflushed() == (old(self).spec_unflushed() || list@.len() > 0),
    {
        let cf = self.contact_cf();
        let ghost want = contact_views(list@);
        let mut batch = WriteBatch::new();
        let mut i: usize = 0;
        while i < list.len()
            invariant
                i <= list@.len(),
                cf == ColumnFamily::Contact,
                want == contact_views(list@),
                batch@.len() == i,
                apply(self@, batch@) == with_contacts(self@, want.take(i as int)),
            decreases list@.len() - i,
        {
            let contact = &list[i];
            let ghost staged = batch@;
            batch.put_cf(cf, contact.pk.encode(), contact.encode());
            proof {
                assert(batch@.drop_last() =~= staged);
                assert(want.take(i + 1).drop_last() =~= want.take(i as int));
                assert(want.take(i + 1).last() == contact@);
            }
            i += 1;
        }
        assert(want.take(i as int) =~= want);
        self.db.write(batch);
        Ok(())
    }

    /// Every stored contact, in the natural order of contacts.
    pub fn get_contacts(&self) -> (r: Result<Vec<Contact>, StoreError>)
        requires
            self.wf(),
        ensures
            match r {
                Ok(list) => {
                    &&& contacts_decode(self@)
                    &&& contacts_ascend(contact_views(list@))
                    &&& contact_views(list@).to_multiset() == stored_contacts(self@).to_multiset()
                },
                Err(e) => e == StoreError::Decode && !contacts_decode(self@),
            },
    {
        let entries = self.db.entries(self.contact_cf());
        let ghost table = self@[ColumnFamily::Contact];
        let ghost stored = stored_contacts(self@);
        let mut contacts: Vec<Contact> = Vec::new();
        let mut i: usize = 0;
        proof {
            assert(contact_views(contacts@) =~= stored.take(0));
        }
        while i < entries.len()
            invariant
                i <= entries@.len(),
                self.wf(),
                rows(entries@) == table,
                table == self@[ColumnFamily::Contact],
                stored == stored_contacts(self@),
                forall|j: int| 0 <= j < i ==> decode_contact(#[trigger] table[j].1) is Some,
                contacts_ascend(contact_views(contacts@)),
                contact_views(contacts@).to_multiset() == stored.take(i as int).to_multiset(),
            decreases entries@.len() - i,
        {
            assert(table[i as int] == entries@[i as int]@);
            match Contact::decode(&entries[i].value) {
                Ok(contact) => {
                    insert_contact(&mut contacts, contact);
                    proof {
                        assert(stored.take(i + 1) =~= stored.take(i as int).push(contact@));
                        to_multiset_build(stored.take(i as int), contact@);
                    }
                },
                Err(e) => {
                    assert(decode_contact(table[i as int].1) is None);
                    return Err(e);
                },
            }
            i += 1;
        }
        assert(stored.take(i as int) =~= stored);
        Ok(contacts)
    }

    /// Marks an author as known. Marking one twice is marking them once.
    pub fn set_author(&mut self, public_key: PublicKey) -> (r: Result<(), StoreError>)
        requires
            old(self).wf(),
        ensures
            final(self).wf(),
            r is Ok,
            final(self)@ == with_author(old(self)@, public_key@),
            final(self).spec_path() == old(self).spec_path(),
            final(self).spec_unflushed(),
    {
        let cf = self.author_cf();
        self.db.put(cf, public_key.encode(), Vec::new());
        Ok(())
    }

    /// Marks each of `authors` as known, all in one write.
    pub fn set_authors(&mut self, authors: Vec<PublicKey>) -> (r: Result<(), StoreError>)
        requires
            old(self).wf(),
        ensures
            final(self).wf(),
            r is Ok,
            final(self)@ == with_authors(old(self)@, key_views(authors@)),
            final(self).spec_path() == old(self).spec_path(),
            final(self).spec_unflushed() == (old(self).spec_unflushed() || authors@.len() > 0),
    {
        let cf = self.author_cf();
        let ghost want = key_views(authors@);
        let mut batch = WriteBatch::new();
        let mut i: usize = 0;
        while i < authors.len()
            invariant
                i <= authors@.len(),
                cf == ColumnFamily::Author,
                want == key_views(authors@),
                batch@.len() == i,
                apply(self@, batch@) == with_authors(self@, want.take(i as int)),
            decreases authors@.len() - i,
        {
            let ghost staged = batch@;
            batch.put_cf(cf, authors[i].encode(), Vec::new());
            proof {
                assert(batch@.drop_last() =~= staged);
                assert(want.take(i + 1).drop_last() =~= want.take(i as int));
                assert(want.take(i + 1).last() == authors@[i as int]@);
            }
            i += 1;
        }
        assert(want.take(i as int) =~= want);
        self.db.write(batch);
        Ok(())
    }

    /// Every known author, in the order of the stored keys.
    pub fn get_authors(&self) -> (r: Result<Vec<PublicKey>, StoreError>)
        requires
            self.wf(),
        ensures
            match r {
                Ok(authors) => authors_decode(self@) && key_views(authors@) == keys_of(
                    self@[ColumnFamily::Author],
                ),
                Err(e) => e == StoreError::Decode && !authors_decode(self@),
            },
    {
        let entries = self.db.entries(self.author_cf());
        let ghost table = self@[ColumnFamily::Author];
        let mut authors: Vec<PublicKey> = Vec::with_capacity(entries.len());
        let mut i: usize = 0;
        while i < entries.len()
            invariant
                i <= entries@.len(),
                self.wf(),
                rows(entries@) == table,
                table == self@[ColumnFamily::Author],
                forall|j: int| 0 <= j < i ==> decode_key(#[trigger] table[j].0) is Some,
                authors@.len() == i,
                forall|j: int| 0 <= j < i ==> (#[trigger] authors@[j])@ == table[j].0,
            decreases entries@.len() - i,
        {
            assert(table[i as int] == entries@[i as int]@);
            match PublicKey::decode(&entries[i].key) {
                Ok(key) => {
                    authors.push(key);
                },
                Err(e) => {
                    assert(decode_key(table[i as int].0) is None);
                    return Err(e);
                },
            }
            i += 1;
        }
        assert(key_views(authors@) =~= keys_of(table));
        Ok(authors)
    }

    /// Takes delivery of a post. The index and the post table are each
    /// probed first, and a row is staged only where the key is new, so a
    /// post that arrives again changes nothing.
    pub fn set_textnote(&mut self, event_id: EventId, note: TextNote) -> (r: Result<
        (),
        StoreError,
    >)
        requires
            old(self).wf(),
        ensures
            final(self).wf(),
            r is Ok,
            final(self)@ == with_textnote(old(self)@, event_id@, note@),
            final(self)@ == apply(old(self)@, textnote_batch(old(self)@, event_id@, note@)),
            final(self).spec_path() == old(self).spec_path(),
            final(self).spec_unflushed() == (old(self).spec_unflushed() || textnote_batch(
                old(self)@,
                event_id@,
                note@,
            ).len() > 0),
    {
        let mut batch = WriteBatch::new();
        let event_id_prefix = hash_prefix(&event_id);
        let timestamp = timestamp_key(note.timestamp);
        let ghost before = self@;
        let ghost none = batch@;

        if !self.db.key_may_exist(self.textnote_by_timestamp(), &timestamp) {
            batch.put_cf(
                self.textnote_by_timestamp(),
                copy_bytes(&timestamp),
                copy_bytes(&event_id_prefix),
            );
        }
        let ghost first = batch@;
        if !self.db.key_may_exist(self.textnote_cf(), &event_id_prefix) {
            batch.put_cf(self.textnote_cf(), event_id_prefix, note.encode());
        }
        proof {
            let staged = batch@;
            assert(staged =~= textnote_batch(before, event_id@, note@));
            assert(apply(before, none) == before);
            if first.len() > 0 {
                assert(first.drop_last() =~= none);
            }
            if staged.len() > first.len() {
                assert(staged.drop_last() =~= first);
            }
            assert(before.dom().contains(ColumnFamily::TextNote));
            assert(before.dom().contains(ColumnFamily::TextNoteByTimestamp));
            let index = before[ColumnFamily::TextNoteByTimestamp];
            let posts = before[ColumnFamily::TextNote];
            let indexed = if first.len() > 0 {
                before.insert(
                    ColumnFamily::TextNoteByTimestamp,
                    put(index, timestamp@, event_id_prefix@),
                )
            } else {
                before
            };
            assert(apply(before, first) == indexed);
            assert(indexed[ColumnFamily::TextNote] == posts);
            let written = if staged.len() > first.len() {
                indexed.insert(
                    ColumnFamily::TextNote,
                    put(posts, event_id_prefix@, encode_textnote(note@)),
                )
            } else {
                indexed
            };
            assert(apply(before, staged) == written);
            assert(written =~= with_textnote(before, event_id@, note@));
        }
        self.db.write(batch);
        Ok(())
    }

    /// The post stored for an identifier.
    pub fn get_textnote(&self, event_id: EventId) -> (r: Result<TextNote, StoreError>)
        requires
            self.wf(),
        ensures
            match textnote_at(self@, event_id@) {
                Ok(note) => r is Ok && r.unwrap()@ == note,
                Err(e) => r == Err::<TextNote, StoreError>(e),
            },
    {
        match self.db.get(self.textnote_cf(), &hash_prefix(&event_id)) {
            Some(bytes) => TextNote::decode(&bytes),
            None => Err(StoreError::NotFound),
        }
    }

    /// The values of the index rows from `from` on: the storage keys of the
    /// posts they point to.
    fn pointers(entries: &Vec<Entry>, from: usize) -> (ids: Vec<Vec<u8>>)
        requires
            from <= entries@.len(),
        ensures
            ids@.map_values(|id: Vec<u8>| id@) == values_of(
                rows(entries@).subrange(from as int, entries@.len() as int),
            ),
    {
        let ghost walked = rows(entries@).subrange(from as int, entries@.len() as int);
        let mut ids: Vec<Vec<u8>> = Vec::with_capacity(entries.len() - from);
        let mut i: usize = from;
        while i < entries.len()
            invariant
                from <= i <= entries@.len(),
                ids@.len() == i - from,
                forall|j: int| 0 <= j < i - from ==> (#[trigger] ids@[j])@ == entries@[from + j].value@,
            decreases entries@.len() - i,
        {
            ids.push(copy_bytes(&entries[i].value));
            i += 1;
        }
        assert(ids@.map_values(|id: Vec<u8>| id@) =~= values_of(walked));
        ids
    }

    /// Looks all of `ids` up in the post table at once and decodes what is
    /// found. What is missing or does not decode is left out.
    fn resolve_textnotes(&self, ids: Vec<Vec<u8>>) -> (notes: Vec<TextNote>)
        requires
            self.wf(),
        ensures
            textnote_views(notes@) == resolve(
                self@[ColumnFamily::TextNote],
                ids@.map_values(|id: Vec<u8>| id@),
            ),
    {
        let ghost posts = self@[ColumnFamily::TextNote];
        let ghost keys = ids@.map_values(|id: Vec<u8>| id@);
        let ghost pick = |key: Seq<u8>| textnote_in(posts, key);
        let found = self.db.multi_get(self.textnote_cf(), &ids);
        let mut notes: Vec<TextNote> = Vec::new();
        let mut i: usize = 0;
        proof {
            assert(keys.take(0) =~= Seq::<Seq<u8>>::empty());
        }
        while i < found.len()
            invariant
                i <= found@.len(),
                found@.len() == ids@.len(),
                posts == self@[ColumnFamily::TextNote],
                keys == ids@.map_values(|id: Vec<u8>| id@),
                pick == |key: Seq<u8>| textnote_in(posts, key),
                forall|j: int|
                    0 <= j < ids@.len() ==> match #[trigger] found@[j] {
                        Some(v) => lookup(posts, ids@[j]@) == Some(v@),
                        None => lookup(posts, ids@[j]@) is None,
                    },
                textnote_views(notes@) == keys.take(i as int).filter_map(pick),
            decreases found@.len() - i,
        {
            let ghost so_far = textnote_views(notes@);
            proof {
                assert(keys.take(i + 1).drop_last() =~= keys.take(i as int));
                assert(keys.take(i + 1).last() == ids@[i as int]@);
            }
            match &found[i] {
                Some(bytes) => match TextNote::decode(bytes) {
                    Ok(note) => {
                        let ghost view = note@;
                        notes.push(note);
                        assert(textnote_views(notes@) =~= so_far + seq![view]);
                    },
                    Err(_) => {},
                },
                None => {},
            }
            i += 1;
        }
        assert(keys.take(i as int) =~= keys);
        notes
    }

    /// The newest posts, newest first: at most `limit` index rows are walked
    /// from the last back, and a row whose post is missing or does not
    /// decode yields nothing.
    pub fn get_textnotes_with_limit(&self, limit: usize) -> (notes: Vec<TextNote>)
        requires
            self.wf(),
        ensures
            textnote_views(notes@) == newest_textnotes(self@, limit as int),
    {
        let entries = self.db.scan(self.textnote_by_timestamp(), &IteratorMode::End, limit);
        let ids = Store::pointers(&entries, 0);
        assert(rows(entries@).subrange(0, entries@.len() as int) =~= rows(entries@));
        self.resolve_textnotes(ids)
    }

    /// A page of posts: at most `limit` index rows are walked from
    /// `timestamp` on, forward to later posts or in reverse to earlier ones,
    /// and a row whose post is missing or does not decode yields nothing.
    pub fn get_textnotes_from_timestamp(
        &self,
        timestamp: u64,
        direction: Direction,
        limit: usize,
    ) -> (notes: Vec<TextNote>)
        requires
            self.wf(),
        ensures
            textnote_views(notes@) == textnotes_from(self@, timestamp, direction, limit as int),
    {
        let mode = IteratorMode::From(timestamp_key(timestamp), direction);
        let entries = self.db.scan(self.textnote_by_timestamp(), &mode, limit);
        let ids = Store::pointers(&entries, 0);
        assert(rows(entries@).subrange(0, entries@.len() as int) =~= rows(entries@));
        self.resolve_textnotes(ids)
    }

    /// Page `page` of the feed, counted from 0 and `limit` posts to a page,
    /// newest first: the index is walked from the last row back, the rows of
    /// the pages before are passed over, and a row whose post is missing or
    /// does not decode yields nothing.
    pub fn get_feed(&self, limit: usize, page: usize) -> (notes: Vec<TextNote>)
        requires
            self.wf(),
        ensures
            textnote_views(notes@) == feed_page(self@, limit as int, page as int),
    {
        let ghost index = self@[ColumnFamily::TextNoteByTimestamp];
        let ghost through: int = limit * (page + 1);
        let ghost before: int = limit * page;
        proof {
            assert(through == before + limit) by (nonlinear_arith)
                requires
                    through == limit * (page + 1),
                    before == limit * page,
            ;
            assert(0 <= before) by (nonlinear_arith)
                requires
                    before == limit * page,
            ;
        }
        let skipped = match limit.checked_mul(page) {
            Some(skipped) => skipped,
            None => usize::MAX,
        };
        let shown = match skipped.checked_add(limit) {
            Some(shown) => shown,
            None => usize::MAX,
        };
        let entries = self.db.scan(self.textnote_by_timestamp(), &IteratorMode::End, shown);
        let from = if skipped < entries.len() {
            skipped
        } else {
            entries.len()
        };
        proof {
            lemma_scan_end_rows(index, shown as int);
            lemma_scan_end_rows(index, through);
            self.db.lemma_len_fits(ColumnFamily::TextNoteByTimestamp);
            let total = index.len() as int;
            assert(at_most(shown as int, total) == at_most(through, total));
            assert(rows(entries@) =~= scan_end(index, through));
            assert(from == at_most(before, entries@.len() as int));
        }
        let ids = Store::pointers(&entries, from);
        self.resolve_textnotes(ids)
    }

    /// Hands what was written to durable storage. What is stored stays as it
    /// is.
    pub fn flush(&mut self)
        ensures
            final(self)@ == old(self)@,
            final(self).spec_path() == old(self).spec_path(),
            !final(self).spec_unflushed(),
    {
        self.db.flush();
    }
}

} // verus!
