//! The mathematical model of a partition: a sequence of rows in strictly
//! ascending key order, with point lookups, overwriting inserts and bounded
//! scans from either end or from a key.

use crate::bytes::{lemma_lex_asymmetric, lemma_lex_total, lemma_lex_transitive, lex_lt};
use vstd::prelude::*;

verus! {

/// A key and the value stored under it.
pub type Row = (Seq<u8>, Seq<u8>);

/// The rows of a partition, in key order.
pub type Table = Seq<Row>;

/// Keys strictly ascend, so no key occurs twice.
pub open spec fn sorted(t: Table) -> bool {
    forall|i: int, j: int| 0 <= i < j < t.len() ==> lex_lt(#[trigger] t[i].0, #[trigger] t[j].0)
}

/// The number of rows of `t` whose key comes before `key`: in a sorted table,
/// the place of `key` or the place where it would be inserted.
pub open spec fn rank(t: Table, key: Seq<u8>) -> int
    decreases t.len(),
{
    if t.len() == 0 {
        0
    } else {
        rank(t.drop_last(), key) + if lex_lt(t.last().0, key) {
            1int
        } else {
            0int
        }
    }
}

/// The value stored under `key`, if any.
pub open spec fn lookup(t: Table, key: Seq<u8>) -> Option<Seq<u8>> {
    let p = rank(t, key);
    if p < t.len() && t[p].0 == key {
        Some(t[p].1)
    } else {
        None
    }
}

/// The table after `value` has been stored under `key`: the row with that key
/// is replaced, or a new row takes its place in the order.
pub open spec fn put(t: Table, key: Seq<u8>, value: Seq<u8>) -> Table {
    let p = rank(t, key);
    if p < t.len() && t[p].0 == key {
        t.update(p, (key, value))
    } else {
        t.insert(p, (key, value))
    }
}

/// The number of rows whose key is `key` or comes before it.
pub open spec fn rank_through(t: Table, key: Seq<u8>) -> int {
    if lookup(t, key) is Some {
        rank(t, key) + 1
    } else {
        rank(t, key)
    }
}

/// The smaller of a limit and what is there.
pub open spec fn at_most(limit: int, len: int) -> int {
    if limit < len {
        limit
    } else {
        len
    }
}

/// At most `limit` rows, starting at the first row whose key is `key` or
/// comes after it, in ascending order.
pub open spec fn scan_forward(t: Table, key: Seq<u8>, limit: int) -> Table {
    let from = rank(t, key);
    t.subrange(from, from + at_most(limit, t.len() - from))
}

/// At most `limit` rows, starting at the last row whose key is `key` or
/// comes before it, in descending order.
pub open spec fn scan_reverse(t: Table, key: Seq<u8>, limit: int) -> Table {
    let upto = rank_through(t, key);
    t.subrange(upto - at_most(limit, upto), upto).reverse()
}

/// At most `limit` rows from the first on, in ascending order.
pub open spec fn scan_start(t: Table, limit: int) -> Table {
    t.subrange(0, at_most(limit, t.len() as int))
}

/// At most `limit` rows from the last back, in descending order.
pub open spec fn scan_end(t: Table, limit: int) -> Table {
    t.subrange(t.len() - at_most(limit, t.len() as int), t.len() as int).reverse()
}

pub proof fn lemma_rank_bounds(t: Table, key: Seq<u8>)
    ensures
        0 <= rank(t, key) <= t.len(),
    decreases t.len(),
{
    if t.len() > 0 {
        lemma_rank_bounds(t.drop_last(), key);
    }
}

/// A place that parts the rows before `key` from the others is the rank.
pub proof fn lemma_rank_is(t: Table, key: Seq<u8>, p: int)
    requires
        0 <= p <= t.len(),
        forall|i: int| 0 <= i < p ==> lex_lt(#[trigger] t[i].0, key),
        forall|i: int| p <= i < t.len() ==> !lex_lt(#[trigger] t[i].0, key),
    ensures
        rank(t, key) == p,
    decreases t.len(),
{
    if t.len() > 0 {
        let front = t.drop_last();
        if p == t.len() {
            assert(lex_lt(t[p - 1].0, key));
            assert forall|i: int| 0 <= i < p - 1 implies lex_lt(#[trigger] front[i].0, key) by {
                assert(front[i] == t[i]);
            }
            lemma_rank_is(front, key, p - 1);
        } else {
            assert(!lex_lt(t[t.len() - 1].0, key));
            assert forall|i: int| 0 <= i < p implies lex_lt(#[trigger] front[i].0, key) by {
                assert(front[i] == t[i]);
            }
            assert forall|i: int| p <= i < front.len() implies !lex_lt(
                #[trigger] front[i].0,
                key,
            ) by {
                assert(front[i] == t[i]);
            }
            lemma_rank_is(front, key, p);
        }
    }
}

/// In a sorted table the rank parts the rows before `key` from the others.
pub proof fn lemma_rank_parts(t: Table, key: Seq<u8>)
    requires
        sorted(t),
    ensures
        0 <= rank(t, key) <= t.len(),
        forall|i: int| 0 <= i < rank(t, key) ==> lex_lt(#[trigger] t[i].0, key),
        forall|i: int| rank(t, key) <= i < t.len() ==> !lex_lt(#[trigger] t[i].0, key),
    decreases t.len(),
{
    if t.len() > 0 {
        let front = t.drop_last();
        let n = t.len() - 1;
        assert forall|i: int, j: int| 0 <= i < j < front.len() implies lex_lt(
            #[trigger] front[i].0,
            #[trigger] front[j].0,
        ) by {
            assert(front[i] == t[i] && front[j] == t[j]);
        }
        lemma_rank_parts(front, key);
        lemma_rank_bounds(front, key);
        if lex_lt(t[n].0, key) {
            assert forall|i: int| 0 <= i < n implies lex_lt(#[trigger] t[i].0, key) by {
                lemma_lex_transitive(t[i].0, t[n].0, key);
            }
            lemma_rank_is(front, key, n);
        } else {
            assert forall|i: int| 0 <= i < rank(t, key) implies lex_lt(#[trigger] t[i].0, key) by {
                assert(front[i] == t[i]);
            }
            assert forall|i: int| rank(t, key) <= i < t.len() implies !lex_lt(
                #[trigger] t[i].0,
                key,
            ) by {
                if i < n {
                    assert(front[i] == t[i]);
                }
            }
        }
    }
}

/// In a sorted table a key stands at its rank.
pub proof fn lemma_rank_of_row(t: Table, i: int)
    requires
        sorted(t),
        0 <= i < t.len(),
    ensures
        rank(t, t[i].0) == i,
        lookup(t, t[i].0) == Some(t[i].1),
{
    let key = t[i].0;
    assert forall|j: int| i <= j < t.len() implies !lex_lt(#[trigger] t[j].0, key) by {
        if j > i {
            lemma_lex_asymmetric(key, t[j].0);
        } else if lex_lt(key, key) {
            lemma_lex_asymmetric(key, key);
        }
    }
    lemma_rank_is(t, key, i);
}

/// Storing a row keeps the order, and the table grows by one row exactly
/// when the key is new.
pub proof fn lemma_put_sorted(t: Table, key: Seq<u8>, value: Seq<u8>)
    requires
        sorted(t),
    ensures
        sorted(put(t, key, value)),
        put(t, key, value).len() == if lookup(t, key) is Some {
            t.len()
        } else {
            t.len() + 1
        },
        rank(put(t, key, value), key) == rank(t, key),
{
    let p = rank(t, key);
    let u = put(t, key, value);
    lemma_rank_parts(t, key);
    if p < t.len() && t[p].0 == key {
        assert forall|i: int, j: int| 0 <= i < j < u.len() implies lex_lt(
            #[trigger] u[i].0,
            #[trigger] u[j].0,
        ) by {
            assert(u[i].0 == t[i].0 && u[j].0 == t[j].0);
        }
        assert forall|i: int| 0 <= i < p implies lex_lt(#[trigger] u[i].0, key) by {
            assert(u[i].0 == t[i].0);
        }
        assert forall|i: int| p <= i < u.len() implies !lex_lt(#[trigger] u[i].0, key) by {
            assert(u[i].0 == t[i].0);
        }
    } else {
        assert forall|i: int| p <= i < t.len() implies lex_lt(key, #[trigger] t[i].0) by {
            lemma_lex_total(key, t[i].0);
            if t[i].0 == key {
                lemma_rank_of_row(t, i);
            }
        }
        assert forall|i: int, j: int| 0 <= i < j < u.len() implies lex_lt(
            #[trigger] u[i].0,
            #[trigger] u[j].0,
        ) by {
            let a = if i < p { t[i] } else if i == p { (key, value) } else { t[i - 1] };
            let b = if j < p { t[j] } else if j == p { (key, value) } else { t[j - 1] };
            assert(u[i] == a && u[j] == b);
        }
        assert forall|i: int| 0 <= i < p implies lex_lt(#[trigger] u[i].0, key) by {
            assert(u[i] == t[i]);
        }
        assert forall|i: int| p <= i < u.len() implies !lex_lt(#[trigger] u[i].0, key) by {
            if i == p {
                if lex_lt(key, key) {
                    lemma_lex_asymmetric(key, key);
                }
            } else {
                assert(u[i] == t[i - 1]);
                lemma_lex_asymmetric(key, t[i - 1].0);
            }
        }
    }
    lemma_rank_is(u, key, p);
}

/// What was stored under a key is what a lookup of that key finds.
pub proof fn lemma_lookup_put_same(t: Table, key: Seq<u8>, value: Seq<u8>)
    requires
        sorted(t),
    ensures
        lookup(put(t, key, value), key) == Some(value),
{
    lemma_put_sorted(t, key, value);
    lemma_rank_bounds(t, key);
}

/// Storing under one key leaves every other key as it was.
pub proof fn lemma_lookup_put_other(t: Table, key: Seq<u8>, value: Seq<u8>, other: Seq<u8>)
    requires
        sorted(t),
        other != key,
    ensures
        lookup(put(t, key, value), other) == lookup(t, other),
{
    let u = put(t, key, value);
    let p = rank(t, key);
    lemma_put_sorted(t, key, value);
    lemma_rank_bounds(t, key);
    lemma_rank_bounds(t, other);
    lemma_rank_bounds(u, other);
    match lookup(t, other) {
        Some(v) => {
            let q = rank(t, other);
            let q2 = if p < t.len() && t[p].0 == key { q } else if q < p { q } else { q + 1 };
            assert(u[q2] == t[q]);
            lemma_rank_of_row(u, q2);
        },
        None => {
            if lookup(u, other) is Some {
                let q = rank(u, other);
                assert(u[q].0 == other);
                let q0 = if p < t.len() && t[p].0 == key { q } else if q < p { q } else { q - 1 };
                assert(t[q0] == u[q]);
                lemma_rank_of_row(t, q0);
            }
        },
    }
}

/// Storing again what is already stored changes nothing.
pub proof fn lemma_put_idempotent(t: Table, key: Seq<u8>, value: Seq<u8>)
    requires
        sorted(t),
    ensures
        put(put(t, key, value), key, value) == put(t, key, value),
{
    lemma_put_sorted(t, key, value);
    lemma_rank_bounds(t, key);
    let u = put(t, key, value);
    assert(put(u, key, value) =~= u);
}

/// Exactly one row of `t` has the key `key`.
pub open spec fn holds_once(t: Table, key: Seq<u8>) -> bool {
    exists|i: int|
        0 <= i < t.len() && (#[trigger] t[i]).0 == key && forall|j: int|
            0 <= j < t.len() && (#[trigger] t[j]).0 == key ==> j == i
}

/// A sorted table holds a key that it holds only once.
pub proof fn lemma_found_once(t: Table, key: Seq<u8>)
    requires
        sorted(t),
        lookup(t, key) is Some,
    ensures
        holds_once(t, key),
{
    let p = rank(t, key);
    lemma_rank_bounds(t, key);
    assert(t[p].0 == key);
    assert forall|j: int| 0 <= j < t.len() && (#[trigger] t[j]).0 == key implies j == p by {
        lemma_rank_of_row(t, j);
    }
}

/// A scan from the last row back walks the rows in descending order.
pub proof fn lemma_scan_end_rows(t: Table, limit: int)
    requires
        limit >= 0,
    ensures
        scan_end(t, limit).len() == at_most(limit, t.len() as int),
        forall|k: int|
            0 <= k < scan_end(t, limit).len() ==> #[trigger] scan_end(t, limit)[k] == t[t.len() - 1
                - k],
{
}

/// A forward scan walks the rows from the rank of the key on.
pub proof fn lemma_scan_forward_rows(t: Table, key: Seq<u8>, limit: int)
    requires
        limit >= 0,
    ensures
        scan_forward(t, key, limit).len() == at_most(limit, t.len() - rank(t, key)),
        forall|k: int|
            0 <= k < scan_forward(t, key, limit).len() ==> #[trigger] scan_forward(t, key, limit)[k]
                == t[rank(t, key) + k],
{
    lemma_rank_bounds(t, key);
}

/// A reverse scan walks the rows back from the last whose key is not after
/// the given one.
pub proof fn lemma_scan_reverse_rows(t: Table, key: Seq<u8>, limit: int)
    requires
        limit >= 0,
    ensures
        scan_reverse(t, key, limit).len() == at_most(limit, rank_through(t, key)),
        0 <= rank_through(t, key) <= t.len(),
        forall|k: int|
            0 <= k < scan_reverse(t, key, limit).len() ==> #[trigger] scan_reverse(t, key, limit)[k]
                == t[rank_through(t, key) - 1 - k],
{
    lemma_rank_bounds(t, key);
}

/// Every row of a table after a store is the row that was stored or a row
/// that was there before.
pub proof fn lemma_put_rows(t: Table, key: Seq<u8>, value: Seq<u8>, i: int)
    requires
        0 <= i < put(t, key, value).len(),
    ensures
        put(t, key, value)[i] == (key, value) || t.contains(put(t, key, value)[i]),
{
    let p = rank(t, key);
    let u = put(t, key, value);
    lemma_rank_bounds(t, key);
    if p < t.len() && t[p].0 == key {
        if i != p {
            assert(u[i] == t[i]);
        }
    } else if i < p {
        assert(u[i] == t[i]);
    } else if i > p {
        assert(u[i] == t[i - 1]);
    }
}

} // verus!
