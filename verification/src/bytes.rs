//! Byte strings as keys: their lexicographic order, the fixed-width
//! big-endian layout of timestamps, and the truncated identifier prefix.

use vstd::prelude::*;

verus! {

/// The result of comparing two byte strings.
#[derive(Clone, Copy, Debug, PartialEq, Eq, Structural)]
pub enum Order {
    Less,
    Equal,
    Greater,
}

/// `a` and `b` hold the same bytes at every position below `i`.
pub open spec fn agree_below(a: Seq<u8>, b: Seq<u8>, i: int) -> bool {
    &&& 0 <= i <= a.len()
    &&& i <= b.len()
    &&& forall|k: int| 0 <= k < i ==> a[k] == b[k]
}

/// Position `i` shows that `a` comes before `b`: up to there they agree, and
/// either `a` ends at `i` while `b` goes on, or `a` holds the smaller byte.
pub open spec fn precedes_at(a: Seq<u8>, b: Seq<u8>, i: int) -> bool {
    &&& agree_below(a, b, i)
    &&& i < b.len()
    &&& (i == a.len() || a[i] < b[i])
}

/// The lexicographic order of byte strings, the order in which a partition
/// keeps its keys.
pub open spec fn lex_lt(a: Seq<u8>, b: Seq<u8>) -> bool {
    exists|i: int| precedes_at(a, b, i)
}

/// No byte string comes before itself, and no two come before each other.
pub proof fn lemma_lex_asymmetric(a: Seq<u8>, b: Seq<u8>)
    requires
        lex_lt(a, b),
    ensures
        a != b,
        !lex_lt(b, a),
{
    let i = choose|i: int| precedes_at(a, b, i);
    if lex_lt(b, a) {
        let j = choose|j: int| precedes_at(b, a, j);
        if i < j {
            assert(b[i] == a[i]);
        } else if j < i {
            assert(a[j] == b[j]);
        }
    }
}

/// Of two different byte strings one comes before the other.
pub proof fn lemma_lex_total(a: Seq<u8>, b: Seq<u8>)
    ensures
        a == b || lex_lt(a, b) || lex_lt(b, a),
{
    lemma_lex_total_from(a, b, 0);
}

proof fn lemma_lex_total_from(a: Seq<u8>, b: Seq<u8>, i: int)
    requires
        agree_below(a, b, i),
    ensures
        a == b || lex_lt(a, b) || lex_lt(b, a),
    decreases a.len() - i,
{
    if i == a.len() && i == b.len() {
        assert(a =~= b);
    } else if i == a.len() {
        assert(precedes_at(a, b, i));
    } else if i == b.len() {
        assert(precedes_at(b, a, i));
    } else if a[i] < b[i] {
        assert(precedes_at(a, b, i));
    } else if b[i] < a[i] {
        assert(precedes_at(b, a, i));
    } else {
        lemma_lex_total_from(a, b, i + 1);
    }
}

/// The order is transitive.
pub proof fn lemma_lex_transitive(a: Seq<u8>, b: Seq<u8>, c: Seq<u8>)
    requires
        lex_lt(a, b),
        lex_lt(b, c),
    ensures
        lex_lt(a, c),
{
    let i = choose|i: int| precedes_at(a, b, i);
    let j = choose|j: int| precedes_at(b, c, j);
    if i <= j {
        assert(precedes_at(a, c, i));
    } else {
        assert(precedes_at(a, c, j));
    }
}

/// What `compare` returns for two byte strings.
pub open spec fn order_of(a: Seq<u8>, b: Seq<u8>) -> Order {
    if a == b {
        Order::Equal
    } else if lex_lt(a, b) {
        Order::Less
    } else {
        Order::Greater
    }
}

/// Compares two byte strings lexicographically.
pub fn compare(a: &[u8], b: &[u8]) -> (r: Order)
    ensures
        r == order_of(a@, b@),
        r == Order::Greater <==> lex_lt(b@, a@),
{
    let mut i: usize = 0;
    while i < a.len() && i < b.len()
        invariant
            agree_below(a@, b@, i as int),
        decreases a.len() - i,
    {
        if a[i] < b[i] {
            proof {
                assert(precedes_at(a@, b@, i as int));
                lemma_lex_asymmetric(a@, b@);
            }
            return Order::Less;
        }
        if a[i] > b[i] {
            proof {
                assert(precedes_at(b@, a@, i as int));
                lemma_lex_asymmetric(b@, a@);
            }
            return Order::Greater;
        }
        i += 1;
    }
    if i < b.len() {
        proof {
            assert(precedes_at(a@, b@, i as int));
            lemma_lex_asymmetric(a@, b@);
        }
        Order::Less
    } else if i < a.len() {
        proof {
            assert(precedes_at(b@, a@, i as int));
            lemma_lex_asymmetric(b@, a@);
        }
        Order::Greater
    } else {
        proof {
            assert(a@ =~= b@);
            if lex_lt(b@, a@) {
                lemma_lex_asymmetric(b@, a@);
            }
        }
        Order::Equal
    }
}

/// Whether `a` comes before `b`.
pub fn precedes(a: &[u8], b: &[u8]) -> (r: bool)
    ensures
        r == lex_lt(a@, b@),
{
    proof {
        if lex_lt(a@, b@) {
            lemma_lex_asymmetric(a@, b@);
        }
    }
    match compare(a, b) {
        Order::Less => true,
        _ => false,
    }
}

/// The width of a timestamp key.
pub const TIMESTAMP_KEY_LEN: usize = 8;

/// The number of leading identifier bytes that make a post's storage key.
/// Shorter keys compare and store faster; the price is that two posts whose
/// identifiers share this prefix share a key.
pub const HASH_PREFIX_LEN: usize = 8;

/// The eight bytes of `x`, most significant first: each is what is left of
/// `x` after the less significant bytes have been divided away.
pub open spec fn be_bytes(x: u64) -> Seq<u8> {
    let q1 = x / 256;
    let q2 = q1 / 256;
    let q3 = q2 / 256;
    let q4 = q3 / 256;
    let q5 = q4 / 256;
    let q6 = q5 / 256;
    let q7 = q6 / 256;
    seq![
        (q7 % 256) as u8,
        (q6 % 256) as u8,
        (q5 % 256) as u8,
        (q4 % 256) as u8,
        (q3 % 256) as u8,
        (q2 % 256) as u8,
        (q1 % 256) as u8,
        (x % 256) as u8,
    ]
}

/// The number that eight bytes spell, most significant first.
pub open spec fn be_value(b: Seq<u8>) -> int
    recommends
        b.len() == 8,
{
    ((((((b[0] * 256 + b[1]) * 256 + b[2]) * 256 + b[3]) * 256 + b[4]) * 256 + b[5]) * 256
        + b[6]) * 256 + b[7]
}

/// Reading back what was laid out gives the number.
pub proof fn lemma_be_value_of_bytes(x: u64)
    ensures
        be_bytes(x).len() == 8,
        be_value(be_bytes(x)) == x,
{
}

/// Every eight bytes are the layout of the number they spell.
pub proof fn lemma_be_bytes_of_value(b: Seq<u8>)
    requires
        b.len() == 8,
    ensures
        0 <= be_value(b) <= u64::MAX,
        be_bytes(be_value(b) as u64) == b,
{
    let h0: int = b[0] as int;
    let h1: int = h0 * 256 + b[1];
    let h2: int = h1 * 256 + b[2];
    let h3: int = h2 * 256 + b[3];
    let h4: int = h3 * 256 + b[4];
    let h5: int = h4 * 256 + b[5];
    let h6: int = h5 * 256 + b[6];
    let h7: int = h6 * 256 + b[7];
    assert(h7 == be_value(b));
    assert(0 <= h7 <= u64::MAX);
    assert(h7 / 256 == h6 && h7 % 256 == b[7]);
    assert(h6 / 256 == h5 && h6 % 256 == b[6]);
    assert(h5 / 256 == h4 && h5 % 256 == b[5]);
    assert(h4 / 256 == h3 && h4 % 256 == b[4]);
    assert(h3 / 256 == h2 && h3 % 256 == b[3]);
    assert(h2 / 256 == h1 && h2 % 256 == b[2]);
    assert(h1 / 256 == h0 && h1 % 256 == b[1]);
    assert(h0 % 256 == b[0]);
    let x = h7 as u64;
    let laid = be_bytes(x);
    assert(laid.len() == 8);
    assert(laid[7] == b[7]);
    assert(laid[6] == b[6]);
    assert(laid[5] == b[5]);
    assert(laid[4] == b[4]);
    assert(laid[3] == b[3]);
    assert(laid[2] == b[2]);
    assert(laid[1] == b[1]);
    assert(laid[0] == b[0]);
    assert(laid =~= b);
}

/// The layout preserves order: keys compare as their timestamps do.
pub proof fn lemma_be_bytes_order(x: u64, y: u64)
    ensures
        lex_lt(be_bytes(x), be_bytes(y)) <==> x < y,
        be_bytes(x) == be_bytes(y) <==> x == y,
{
    let a = be_bytes(x);
    let b = be_bytes(y);
    lemma_be_value_of_bytes(x);
    lemma_be_value_of_bytes(y);
    if lex_lt(a, b) {
        let i = choose|i: int| precedes_at(a, b, i);
        assert(forall|k: int| 0 <= k < i ==> a[k] == b[k]);
        assert(be_value(a) < be_value(b));
    }
    if x < y {
        if a[0] != b[0] {
            assert(precedes_at(a, b, 0));
        } else if a[1] != b[1] {
            assert(precedes_at(a, b, 1));
        } else if a[2] != b[2] {
            assert(precedes_at(a, b, 2));
        } else if a[3] != b[3] {
            assert(precedes_at(a, b, 3));
        } else if a[4] != b[4] {
            assert(precedes_at(a, b, 4));
        } else if a[5] != b[5] {
            assert(precedes_at(a, b, 5));
        } else if a[6] != b[6] {
            assert(precedes_at(a, b, 6));
        } else {
            assert(precedes_at(a, b, 7));
        }
    }
}

/// Lays a timestamp out as an index key.
pub fn timestamp_key(timestamp: u64) -> (key: Vec<u8>)
    ensures
        key@ == be_bytes(timestamp),
{
    let q1: u64 = timestamp / 256;
    let q2: u64 = q1 / 256;
    let q3: u64 = q2 / 256;
    let q4: u64 = q3 / 256;
    let q5: u64 = q4 / 256;
    let q6: u64 = q5 / 256;
    let q7: u64 = q6 / 256;
    let mut key: Vec<u8> = Vec::with_capacity(TIMESTAMP_KEY_LEN);
    key.push((q7 % 256) as u8);
    key.push((q6 % 256) as u8);
    key.push((q5 % 256) as u8);
    key.push((q4 % 256) as u8);
    key.push((q3 % 256) as u8);
    key.push((q2 % 256) as u8);
    key.push((q1 % 256) as u8);
    key.push((timestamp % 256) as u8);
    assert(key@ =~= be_bytes(timestamp));
    key
}

/// Reads the eight bytes of `bytes` that start at `at` as a number.
pub fn read_u64(bytes: &Vec<u8>, at: usize) -> (x: u64)
    requires
        at + 8 <= bytes.len(),
    ensures
        x == be_value(bytes@.subrange(at as int, at + 8)),
        be_bytes(x) == bytes@.subrange(at as int, at + 8),
{
    let ghost field = bytes@.subrange(at as int, at + 8);
    proof {
        lemma_be_bytes_of_value(field);
    }
    let mut x: u64 = bytes[at] as u64;
    x = x * 256 + bytes[at + 1] as u64;
    x = x * 256 + bytes[at + 2] as u64;
    x = x * 256 + bytes[at + 3] as u64;
    x = x * 256 + bytes[at + 4] as u64;
    x = x * 256 + bytes[at + 5] as u64;
    x = x * 256 + bytes[at + 6] as u64;
    x = x * 256 + bytes[at + 7] as u64;
    x
}

/// The leading `HASH_PREFIX_LEN` bytes of `id`, or all of it where it is
/// shorter.
pub open spec fn prefix_of(id: Seq<u8>) -> Seq<u8> {
    if id.len() <= HASH_PREFIX_LEN {
        id
    } else {
        id.take(HASH_PREFIX_LEN as int)
    }
}

} // verus!
