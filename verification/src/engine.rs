//! The engine: a fixed set of named partitions, each an ordered table of
//! byte rows, written one row at a time or in batches that take effect as
//! one.

use crate::error::StoreError;
use crate::partition::{copy_bytes, rows, scan, Entry, IteratorMode, Partition};
use crate::table::{lookup, put, sorted, Row, Table};
use vstd::prelude::*;

verus! {

/// The partitions of the engine. `Chat` and `Channel` are kept for later
/// use and hold nothing yet.
#[derive(Clone, Copy, Debug, PartialEq, Eq, Structural)]
pub enum ColumnFamily {
    Author,
    Contact,
    Profile,
    Chat,
    Channel,
    TextNote,
    TextNoteByTimestamp,
}

impl ColumnFamily {
    /// The name under which the partition is kept.
    pub fn name(&self) -> (name: &'static str)
        ensures
            name@ == match *self {
                ColumnFamily::Author => "author"@,
                ColumnFamily::Contact => "contact"@,
                ColumnFamily::Profile => "profile"@,
                ColumnFamily::Chat => "chat"@,
                ColumnFamily::Channel => "channel"@,
                ColumnFamily::TextNote => "textnote"@,
                ColumnFamily::TextNoteByTimestamp => "textnotebytimestamp"@,
            },
    {
        match self {
            ColumnFamily::Author => "author",
            ColumnFamily::Contact => "contact",
            ColumnFamily::Profile => "profile",
            ColumnFamily::Chat => "chat",
            ColumnFamily::Channel => "channel",
            ColumnFamily::TextNote => "textnote",
            ColumnFamily::TextNoteByTimestamp => "textnotebytimestamp",
        }
    }
}

/// What every partition holds.
pub type Tables = Map<ColumnFamily, Table>;

/// Every partition is there and in key order.
pub open spec fn tables_wf(tables: Tables) -> bool {
    &&& forall|cf: ColumnFamily| #[trigger] tables.dom().contains(cf)
    &&& forall|cf: ColumnFamily| sorted(#[trigger] tables[cf])
}

/// A row waiting in a batch: the partition, the key and the value.
pub type Staged = (ColumnFamily, Seq<u8>, Seq<u8>);

/// The tables after the rows of a batch have been stored, in the order in
/// which they were staged.
pub open spec fn apply(tables: Tables, batch: Seq<Staged>) -> Tables
    decreases batch.len(),
{
    if batch.len() == 0 {
        tables
    } else {
        let before = apply(tables, batch.drop_last());
        let staged = batch.last();
        before.insert(staged.0, put(before[staged.0], staged.1, staged.2))
    }
}

#[derive(Debug)]
struct StagedPut {
    cf: ColumnFamily,
    key: Vec<u8>,
    value: Vec<u8>,
}

/// Rows staged for one write.
#[derive(Debug)]
pub struct WriteBatch {
    puts: Vec<StagedPut>,
}

impl View for WriteBatch {
    type V = Seq<Staged>;

    closed spec fn view(&self) -> Seq<Staged> {
        self.puts@.map_values(|p: StagedPut| (p.cf, p.key@, p.value@))
    }
}

impl WriteBatch {
    pub fn new() -> (batch: WriteBatch)
        ensures
            batch@ == Seq::<Staged>::empty(),
    {
        let batch = WriteBatch { puts: Vec::new() };
        assert(batch@ =~= Seq::<Staged>::empty());
        batch
    }

    /// The number of rows staged.
    pub fn len(&self) -> (n: usize)
        ensures
            n == self@.len(),
    {
        self.puts.len()
    }

    /// Stages a row for the partition `cf`.
    pub fn put_cf(&mut self, cf: ColumnFamily, key: Vec<u8>, value: Vec<u8>)
        ensures
            final(self)@ == old(self)@.push((cf, key@, value@)),
    {
        self.puts.push(StagedPut { cf, key, value });
        assert(self@ =~= old(self)@.push((cf, key@, value@)));
    }
}

#[derive(Debug)]
pub struct Engine {
    path: String,
    unflushed: bool,
    author: Partition,
    contact: Partition,
    profile: Partition,
    chat: Partition,
    channel: Partition,
    textnote: Partition,
    textnote_by_timestamp: Partition,
}

impl View for Engine {
    type V = Tables;

    closed spec fn view(&self) -> Tables {
        Map::new(
            |cf: ColumnFamily| true,
            |cf: ColumnFamily|
                match cf {
                    ColumnFamily::Author => self.author@,
                    ColumnFamily::Contact => self.contact@,
                    ColumnFamily::Profile => self.profile@,
                    ColumnFamily::Chat => self.chat@,
                    ColumnFamily::Channel => self.channel@,
                    ColumnFamily::TextNote => self.textnote@,
                    ColumnFamily::TextNoteByTimestamp => self.textnote_by_timestamp@,
                },
        )
    }
}

impl Engine {
    pub open spec fn wf(&self) -> bool {
        tables_wf(self@)
    }

    /// The path at which the engine was opened.
    pub closed spec fn spec_path(&self) -> Seq<char> {
        self.path@
    }

    /// Whether rows were written since the last flush.
    pub closed spec fn spec_unflushed(&self) -> bool {
        self.unflushed
    }

    proof fn lemma_fields_wf(&self)
        requires
            self.wf(),
        ensures
            self.author.wf(),
            self.contact.wf(),
            self.profile.wf(),
            self.chat.wf(),
            self.channel.wf(),
            self.textnote.wf(),
            self.textnote_by_timestamp.wf(),
    {
        assert(sorted(self@[ColumnFamily::Author]));
        assert(sorted(self@[ColumnFamily::Contact]));
        assert(sorted(self@[ColumnFamily::Profile]));
        assert(sorted(self@[ColumnFamily::Chat]));
        assert(sorted(self@[ColumnFamily::Channel]));
        assert(sorted(self@[ColumnFamily::TextNote]));
        assert(sorted(self@[ColumnFamily::TextNoteByTimestamp]));
    }

    /// A partition holds no more rows than can be counted.
    pub proof fn lemma_len_fits(&self, cf: ColumnFamily)
        ensures
            self@[cf].len() <= usize::MAX,
    {
        self.author.lemma_len_fits();
        self.contact.lemma_len_fits();
        self.profile.lemma_len_fits();
        self.chat.lemma_len_fits();
        self.channel.lemma_len_fits();
        self.textnote.lemma_len_fits();
        self.textnote_by_timestamp.lemma_len_fits();
    }

    /// Opens an engine with every partition empty. The empty path names no
    /// place and is refused.
    pub fn open(path: &str) -> (r: Result<Engine, StoreError>)
        ensures
            match r {
                Ok(engine) => {
                    &&& path@.len() > 0
                    &&& engine.wf()
                    &&& engine.spec_path() == path@
                    &&& !engine.spec_unflushed()
                    &&& forall|cf: ColumnFamily| #[trigger] engine@[cf] == Seq::<Row>::empty()
                },
                Err(e) => path@.len() == 0 && e == StoreError::Open,
            },
    {
        if path.is_empty() {
            return Err(StoreError::Open);
        }
        Ok(
            Engine {
                path: path.to_owned(),
                unflushed: false,
                author: Partition::new(),
                contact: Partition::new(),
                profile: Partition::new(),
                chat: Partition::new(),
                channel: Partition::new(),
                textnote: Partition::new(),
                textnote_by_timestamp: Partition::new(),
            },
        )
    }

    pub fn path(&self) -> (path: &str)
        ensures
            path@ == self.spec_path(),
    {
        self.path.as_str()
    }

    pub fn unflushed(&self) -> (unflushed: bool)
        ensures
            unflushed == self.spec_unflushed(),
    {
        self.unflushed
    }

    fn partition(&self, cf: ColumnFamily) -> (p: &Partition)
        requires
            self.wf(),
        ensures
            p.wf(),
            p@ == self@[cf],
    {
        proof {
            self.lemma_fields_wf();
        }
        match cf {
            ColumnFamily::Author => &self.author,
            ColumnFamily::Contact => &self.contact,
            ColumnFamily::Profile => &self.profile,
            ColumnFamily::Chat => &self.chat,
            ColumnFamily::Channel => &self.channel,
            ColumnFamily::TextNote => &self.textnote,
            ColumnFamily::TextNoteByTimestamp => &self.textnote_by_timestamp,
        }
    }

    /// Whether a row with this key is stored in `cf`.
    pub fn key_may_exist(&self, cf: ColumnFamily, key: &Vec<u8>) -> (found: bool)
        requires
            self.wf(),
        ensures
            found == (lookup(self@[cf], key@) is Some),
    {
        self.partition(cf).key_may_exist(key)
    }

    /// The value stored under `key` in `cf`, if any.
    pub fn get(&self, cf: ColumnFamily, key: &Vec<u8>) -> (value: Option<Vec<u8>>)
        requires
            self.wf(),
        ensures
            match value {
                Some(v) => lookup(self@[cf], key@) == Some(v@),
                None => lookup(self@[cf], key@) is None,
            },
    {
        self.partition(cf).get(key)
    }

    /// The values stored in `cf` under each of `keys`, in their order.
    pub fn multi_get(&self, cf: ColumnFamily, keys: &Vec<Vec<u8>>) -> (values: Vec<Option<Vec<u8>>>)
        requires
            self.wf(),
        ensures
            values@.len() == keys@.len(),
            forall|i: int|
                0 <= i < keys@.len() ==> match #[trigger] values@[i] {
                    Some(v) => lookup(self@[cf], keys@[i]@) == Some(v@),
                    None => lookup(self@[cf], keys@[i]@) is None,
                },
    {
        let partition = self.partition(cf);
        let mut values: Vec<Option<Vec<u8>>> = Vec::with_capacity(keys.len());
        let mut i: usize = 0;
        while i < keys.len()
            invariant
                i <= keys@.len(),
                partition.wf(),
                partition@ == self@[cf],
                values@.len() == i,
                forall|j: int|
                    0 <= j < i ==> match #[trigger] values@[j] {
                        Some(v) => lookup(self@[cf], keys@[j]@) == Some(v@),
                        None => lookup(self@[cf], keys@[j]@) is None,
                    },
            decreases keys@.len() - i,
        {
            values.push(partition.get(&keys[i]));
            i += 1;
        }
        values
    }

    /// At most `limit` rows of `cf`, walked as `mode` says.
    pub fn scan(&self, cf: ColumnFamily, mode: &IteratorMode, limit: usize) -> (out: Vec<Entry>)
        requires
            self.wf(),
        ensures
            rows(out@) == scan(self@[cf], *mode, limit as int),
    {
        self.partition(cf).scan(mode, limit)
    }

    /// All rows of `cf`, in key order.
    pub fn entries(&self, cf: ColumnFamily) -> (entries: &Vec<Entry>)
        requires
            self.wf(),
        ensures
            rows(entries@) == self@[cf],
    {
        self.partition(cf).entries()
    }

    /// Stores one row in `cf`.
    pub fn put(&mut self, cf: ColumnFamily, key: Vec<u8>, value: Vec<u8>)
        requires
            old(self).wf(),
        ensures
            final(self).wf(),
            final(self)@ == old(self)@.insert(cf, put(old(self)@[cf], key@, value@)),
            final(self).spec_path() == old(self).spec_path(),
            final(self).spec_unflushed(),
    {
        proof {
            self.lemma_fields_wf();
        }
        match cf {
            ColumnFamily::Author => self.author.put(key, value),
            ColumnFamily::Contact => self.contact.put(key, value),
            ColumnFamily::Profile => self.profile.put(key, value),
            ColumnFamily::Chat => self.chat.put(key, value),
            ColumnFamily::Channel => self.channel.put(key, value),
            ColumnFamily::TextNote => self.textnote.put(key, value),
            ColumnFamily::TextNoteByTimestamp => self.textnote_by_timestamp.put(key, value),
        }
        self.unflushed = true;
        proof {
            let want = old(self)@.insert(cf, put(old(self)@[cf], key@, value@));
            assert(self@ =~= want);
            assert forall|c: ColumnFamily| sorted(#[trigger] self@[c]) by {
                if c != cf {
                    assert(sorted(old(self)@[c]));
                }
            }
        }
    }

    /// Stores the rows of a batch as one: a reader sees all of them or none.
    pub fn write(&mut self, batch: WriteBatch)
        requires
            old(self).wf(),
        ensures
            final(self).wf(),
            final(self)@ == apply(old(self)@, batch@),
            final(self).spec_path() == old(self).spec_path(),
            final(self).spec_unflushed() == (old(self).spec_unflushed() || batch@.len() > 0),
    {
        let mut i: usize = 0;
        while i < batch.puts.len()
            invariant
                i <= batch.puts@.len(),
                self.wf(),
                self@ == apply(old(self)@, batch@.take(i as int)),
                self.spec_path() == old(self).spec_path(),
                self.spec_unflushed() == (old(self).spec_unflushed() || i > 0),
            decreases batch.puts@.len() - i,
        {
            let staged = &batch.puts[i];
            assert(batch@.take(i + 1).drop_last() =~= batch@.take(i as int));
            assert(batch@.take(i + 1).last() == (staged.cf, staged.key@, staged.value@));
            self.put(staged.cf, copy_bytes(&staged.key), copy_bytes(&staged.value));
            i += 1;
        }
        assert(batch@.take(i as int) =~= batch@);
    }

    /// Marks everything written so far as handed to durable storage. The
    /// tables are as before.
    pub fn flush(&mut self)
        ensures
            final(self)@ == old(self)@,
            final(self).spec_path() == old(self).spec_path(),
            !final(self).spec_unflushed(),
    {
        self.unflushed = false;
    }
}

} // verus!
