//! One partition of the engine: rows kept in a vector in key order, found by
//! binary search.

use crate::bytes::{compare, lemma_lex_asymmetric, lemma_lex_transitive, lex_lt, Order};
use crate::table::{
    lemma_rank_is, lookup, put, rank, scan_end, scan_forward, scan_reverse, scan_start, sorted,
    Row, Table,
};
use vstd::prelude::*;

verus! {

/// A stored key with its value.
#[derive(Debug, PartialEq, Eq)]
pub struct Entry {
    pub key: Vec<u8>,
    pub value: Vec<u8>,
}

impl View for Entry {
    type V = Row;

    open spec fn view(&self) -> Row {
        (self.key@, self.value@)
    }
}

/// The rows that a vector of entries stands for.
pub open spec fn rows(entries: Seq<Entry>) -> Table {
    entries.map_values(|e: Entry| e@)
}

/// The way a scan walks the keys.
#[derive(Clone, Copy, Debug, PartialEq, Eq, Structural)]
pub enum Direction {
    Forward,
    Reverse,
}

/// Where a scan starts, and which way it goes.
#[derive(Debug)]
pub enum IteratorMode {
    /// From the first key on, ascending.
    Start,
    /// From the last key back, descending.
    End,
    /// From the given key: forward over the keys that are not before it, or
    /// in reverse over the keys that are not after it.
    From(Vec<u8>, Direction),
}

/// The rows that a scan of `t` in the given mode yields, at most `limit`.
pub open spec fn scan(t: Table, mode: IteratorMode, limit: int) -> Table {
    match mode {
        IteratorMode::Start => scan_start(t, limit),
        IteratorMode::End => scan_end(t, limit),
        IteratorMode::From(key, Direction::Forward) => scan_forward(t, key@, limit),
        IteratorMode::From(key, Direction::Reverse) => scan_reverse(t, key@, limit),
    }
}

/// A copy of a byte string.
pub fn copy_bytes(bytes: &Vec<u8>) -> (copy: Vec<u8>)
    ensures
        copy@ == bytes@,
{
    let copy = bytes.clone();
    assert(copy@ =~= bytes@);
    copy
}

#[derive(Debug)]
pub struct Partition {
    entries: Vec<Entry>,
}

impl View for Partition {
    type V = Table;

    closed spec fn view(&self) -> Table {
        rows(self.entries@)
    }
}

impl Partition {
    /// The rows are in strictly ascending key order.
    pub open spec fn wf(&self) -> bool {
        sorted(self@)
    }

    pub fn new() -> (p: Partition)
        ensures
            p.wf(),
            p@ == Seq::<Row>::empty(),
    {
        let p = Partition { entries: Vec::new() };
        assert(p@ =~= Seq::<Row>::empty());
        p
    }

    /// A partition holds no more rows than can be counted.
    pub proof fn lemma_len_fits(&self)
        ensures
            self@.len() <= usize::MAX,
    {
        assert(self@.len() == self.entries.len());
    }

    pub fn len(&self) -> (n: usize)
        ensures
            n == self@.len(),
    {
        self.entries.len()
    }

    /// The rows, in key order.
    pub fn entries(&self) -> (entries: &Vec<Entry>)
        ensures
            rows(entries@) == self@,
    {
        &self.entries
    }

    /// The place of `key` in the order: the number of keys before it.
    pub fn lower_bound(&self, key: &Vec<u8>) -> (p: usize)
        requires
            self.wf(),
        ensures
            p == rank(self@, key@),
            p <= self@.len(),
    {
        let ghost t = self@;
        let mut lo: usize = 0;
        let mut hi: usize = self.entries.len();
        while lo < hi
            invariant
                t == self@,
                sorted(t),
                lo <= hi <= t.len(),
                t.len() == self.entries.len(),
                forall|i: int| 0 <= i < lo ==> lex_lt(#[trigger] t[i].0, key@),
                forall|i: int| hi <= i < t.len() ==> !lex_lt(#[trigger] t[i].0, key@),
            decreases hi - lo,
        {
            let mid = lo + (hi - lo) / 2;
            assert(t[mid as int] == self.entries[mid as int]@);
            match compare(self.entries[mid].key.as_slice(), key.as_slice()) {
                Order::Less => {
                    assert forall|i: int| 0 <= i < mid + 1 implies lex_lt(
                        #[trigger] t[i].0,
                        key@,
                    ) by {
                        if i < mid {
                            lemma_lex_transitive(t[i].0, t[mid as int].0, key@);
                        }
                    }
                    lo = mid + 1;
                },
                _ => {
                    assert forall|i: int| mid <= i < t.len() implies !lex_lt(
                        #[trigger] t[i].0,
                        key@,
                    ) by {
                        if lex_lt(t[i].0, key@) {
                            if i > mid {
                                lemma_lex_transitive(t[mid as int].0, t[i].0, key@);
                            }
                            lemma_lex_asymmetric(t[mid as int].0, key@);
                        }
                    }
                    hi = mid;
                },
            }
        }
        proof {
            lemma_rank_is(t, key@, lo as int);
        }
        lo
    }

    /// Whether a row with this key is stored.
    pub fn key_may_exist(&self, key: &Vec<u8>) -> (found: bool)
        requires
            self.wf(),
        ensures
            found == (lookup(self@, key@) is Some),
    {
        let p = self.lower_bound(key);
        if p < self.entries.len() {
            assert(self@[p as int] == self.entries[p as int]@);
            match compare(self.entries[p].key.as_slice(), key.as_slice()) {
                Order::Equal => true,
                _ => false,
            }
        } else {
            false
        }
    }

    /// The value stored under `key`, if any.
    pub fn get(&self, key: &Vec<u8>) -> (value: Option<Vec<u8>>)
        requires
            self.wf(),
        ensures
            match value {
                Some(v) => lookup(self@, key@) == Some(v@),
                None => lookup(self@, key@) is None,
            },
    {
        let p = self.lower_bound(key);
        if p < self.entries.len() {
            assert(self@[p as int] == self.entries[p as int]@);
            match compare(self.entries[p].key.as_slice(), key.as_slice()) {
                Order::Equal => Some(copy_bytes(&self.entries[p].value)),
                _ => None,
            }
        } else {
            None
        }
    }

    /// Stores `value` under `key`, in place of what was stored there.
    pub fn put(&mut self, key: Vec<u8>, value: Vec<u8>)
        requires
            old(self).wf(),
        ensures
            final(self).wf(),
            final(self)@ == put(old(self)@, key@, value@),
    {
        let p = self.lower_bound(&key);
        let ghost before = self@;
        let mut replace = false;
        if p < self.entries.len() {
            assert(self@[p as int] == self.entries[p as int]@);
            match compare(self.entries[p].key.as_slice(), key.as_slice()) {
                Order::Equal => {
                    replace = true;
                },
                _ => {},
            }
        }
        if replace {
            self.entries[p] = Entry { key, value };
        } else {
            self.entries.insert(p, Entry { key, value });
        }
        proof {
            assert(self@ =~= put(before, key@, value@));
            crate::table::lemma_put_sorted(before, key@, value@);
        }
    }
    /// Copies of the `count` rows from `from` on, in ascending order.
    fn copy_ascending(&self, from: usize, count: usize) -> (out: Vec<Entry>)
        requires
            from + count <= self@.len(),
        ensures
            rows(out@) == self@.subrange(from as int, from + count),
    {
        let ghost want = self@.subrange(from as int, from + count);
        let mut out: Vec<Entry> = Vec::with_capacity(count);
        let mut i: usize = 0;
        while i < count
            invariant
                i <= count,
                from + count <= self.entries.len(),
                want == self@.subrange(from as int, from + count),
                out@.len() == i,
                forall|j: int| 0 <= j < i ==> (#[trigger] out@[j])@ == want[j],
            decreases count - i,
        {
            let entry = &self.entries[from + i];
            assert(self@[from + i] == entry@);
            out.push(Entry { key: copy_bytes(&entry.key), value: copy_bytes(&entry.value) });
            i += 1;
        }
        assert(rows(out@) =~= want);
        out
    }

    /// Copies of the `count` rows that end before `upto`, in descending order.
    fn copy_descending(&self, upto: usize, count: usize) -> (out: Vec<Entry>)
        requires
            count <= upto <= self@.len(),
        ensures
            rows(out@) == self@.subrange(upto - count, upto as int).reverse(),
    {
        let ghost want = self@.subrange(upto - count, upto as int).reverse();
        let mut out: Vec<Entry> = Vec::with_capacity(count);
        let mut i: usize = 0;
        while i < count
            invariant
                i <= count <= upto <= self.entries.len(),
                want == self@.subrange(upto - count, upto as int).reverse(),
                want.len() == count,
                out@.len() == i,
                forall|j: int| 0 <= j < i ==> (#[trigger] out@[j])@ == want[j],
            decreases count - i,
        {
            let entry = &self.entries[upto - 1 - i];
            assert(self@[upto - 1 - i] == entry@);
            out.push(Entry { key: copy_bytes(&entry.key), value: copy_bytes(&entry.value) });
            i += 1;
        }
        assert(rows(out@) =~= want);
        out
    }

    /// At most `limit` rows, walked as `mode` says.
    pub fn scan(&self, mode: &IteratorMode, limit: usize) -> (out: Vec<Entry>)
        requires
            self.wf(),
        ensures
            rows(out@) == scan(self@, *mode, limit as int),
    {
        let len = self.entries.len();
        match mode {
            IteratorMode::Start => {
                let count = if limit < len { limit } else { len };
                self.copy_ascending(0, count)
            },
            IteratorMode::End => {
                let count = if limit < len { limit } else { len };
                self.copy_descending(len, count)
            },
            IteratorMode::From(key, Direction::Forward) => {
                let from = self.lower_bound(key);
                let count = if limit < len - from { limit } else { len - from };
                self.copy_ascending(from, count)
            },
            IteratorMode::From(key, Direction::Reverse) => {
                let p = self.lower_bound(key);
                let upto = if self.key_may_exist(key) { p + 1 } else { p };
                let count = if limit < upto { limit } else { upto };
                self.copy_descending(upto, count)
            },
        }
    }
}

} // verus!
