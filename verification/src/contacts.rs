//! The natural order of contacts, and a contact list kept in that order.

use crate::bytes::{
    compare, lemma_lex_asymmetric, lemma_lex_total, lemma_lex_transitive, lex_lt, Order,
};
use crate::model::{contact_views, opt_text_view, Contact, ContactView};
use vstd::prelude::*;
use vstd::seq_lib::{to_multiset_contains, to_multiset_insert, to_multiset_len, to_multiset_remove};
use vstd::string::*;
use vstd::utf8::{encode_utf8, encode_utf8_decode_utf8};

verus! {

/// The order of optional texts: none comes before any text, and texts
/// compare byte by byte.
pub open spec fn opt_text_lt(a: Option<Seq<char>>, b: Option<Seq<char>>) -> bool {
    match (a, b) {
        (None, Some(_)) => true,
        (Some(x), Some(y)) => lex_lt(encode_utf8(x), encode_utf8(y)),
        _ => false,
    }
}

/// The natural order of contacts: by key, then by relay, then by alias.
pub open spec fn contact_lt(a: ContactView, b: ContactView) -> bool {
    if a.pk != b.pk {
        lex_lt(a.pk, b.pk)
    } else if a.relay_url != b.relay_url {
        opt_text_lt(a.relay_url, b.relay_url)
    } else {
        opt_text_lt(a.alias, b.alias)
    }
}

/// No contact of the list comes before an earlier one.
pub open spec fn contacts_ascend(list: Seq<ContactView>) -> bool {
    forall|i: int, j: int|
        0 <= i < j < list.len() ==> !contact_lt(#[trigger] list[j], #[trigger] list[i])
}

/// Two texts with the same UTF-8 bytes are the same text.
proof fn lemma_text_bytes_differ(a: Seq<char>, b: Seq<char>)
    requires
        a != b,
    ensures
        encode_utf8(a) != encode_utf8(b),
{
    encode_utf8_decode_utf8(a);
    encode_utf8_decode_utf8(b);
}

proof fn lemma_opt_text_lt_asymmetric(a: Option<Seq<char>>, b: Option<Seq<char>>)
    requires
        opt_text_lt(a, b),
    ensures
        a != b,
        !opt_text_lt(b, a),
{
    if a is Some && b is Some {
        lemma_lex_asymmetric(encode_utf8(a.unwrap()), encode_utf8(b.unwrap()));
    }
}

proof fn lemma_opt_text_lt_total(a: Option<Seq<char>>, b: Option<Seq<char>>)
    ensures
        a == b || opt_text_lt(a, b) || opt_text_lt(b, a),
{
    if a is Some && b is Some && a != b {
        lemma_text_bytes_differ(a.unwrap(), b.unwrap());
        lemma_lex_total(encode_utf8(a.unwrap()), encode_utf8(b.unwrap()));
    }
}

proof fn lemma_opt_text_lt_transitive(
    a: Option<Seq<char>>,
    b: Option<Seq<char>>,
    c: Option<Seq<char>>,
)
    requires
        opt_text_lt(a, b),
        opt_text_lt(b, c),
    ensures
        opt_text_lt(a, c),
{
    if a is Some {
        lemma_lex_transitive(
            encode_utf8(a.unwrap()),
            encode_utf8(b.unwrap()),
            encode_utf8(c.unwrap()),
        );
    }
}

/// No contact comes before itself, and no two come before each other.
pub proof fn lemma_contact_lt_asymmetric(a: ContactView, b: ContactView)
    requires
        contact_lt(a, b),
    ensures
        a != b,
        !contact_lt(b, a),
{
    if a.pk != b.pk {
        lemma_lex_asymmetric(a.pk, b.pk);
    } else if a.relay_url != b.relay_url {
        lemma_opt_text_lt_asymmetric(a.relay_url, b.relay_url);
    } else {
        lemma_opt_text_lt_asymmetric(a.alias, b.alias);
    }
}

/// Of two different contacts one comes before the other.
pub proof fn lemma_contact_lt_total(a: ContactView, b: ContactView)
    ensures
        a == b || contact_lt(a, b) || contact_lt(b, a),
{
    if a.pk != b.pk {
        lemma_lex_total(a.pk, b.pk);
    } else if a.relay_url != b.relay_url {
        lemma_opt_text_lt_total(a.relay_url, b.relay_url);
    } else if a.alias != b.alias {
        lemma_opt_text_lt_total(a.alias, b.alias);
    }
}

/// The order is transitive.
pub proof fn lemma_contact_lt_transitive(a: ContactView, b: ContactView, c: ContactView)
    requires
        contact_lt(a, b),
        contact_lt(b, c),
    ensures
        contact_lt(a, c),
{
    if a.pk != b.pk {
        if b.pk != c.pk {
            lemma_lex_transitive(a.pk, b.pk, c.pk);
        }
        lemma_lex_asymmetric(a.pk, b.pk);
    } else if b.pk != c.pk {
    } else if a.relay_url != b.relay_url {
        if b.relay_url != c.relay_url {
            lemma_opt_text_lt_transitive(a.relay_url, b.relay_url, c.relay_url);
        }
        lemma_opt_text_lt_asymmetric(a.relay_url, b.relay_url);
    } else if b.relay_url != c.relay_url {
    } else {
        lemma_opt_text_lt_transitive(a.alias, b.alias, c.alias);
        lemma_opt_text_lt_asymmetric(a.alias, c.alias);
    }
}

/// How two optional texts compare.
fn order_opt_texts(a: &Option<String>, b: &Option<String>) -> (r: Order)
    ensures
        r == Order::Less <==> opt_text_lt(opt_text_view(*a), opt_text_view(*b)),
        r == Order::Equal <==> opt_text_view(*a) == opt_text_view(*b),
{
    match (a, b) {
        (None, None) => Order::Equal,
        (None, Some(_)) => Order::Less,
        (Some(_), None) => Order::Greater,
        (Some(x), Some(y)) => {
            proof {
                if x@ != y@ {
                    lemma_text_bytes_differ(x@, y@);
                }
            }
            compare(x.as_str().as_bytes(), y.as_str().as_bytes())
        },
    }
}

/// Whether `a` comes before `b` in the natural order.
pub fn contact_precedes(a: &Contact, b: &Contact) -> (r: bool)
    ensures
        r == contact_lt(a@, b@),
{
    match compare(a.pk.bytes.as_slice(), b.pk.bytes.as_slice()) {
        Order::Less => true,
        Order::Greater => false,
        Order::Equal => match order_opt_texts(&a.relay_url, &b.relay_url) {
            Order::Less => true,
            Order::Greater => false,
            Order::Equal => match order_opt_texts(&a.alias, &b.alias) {
                Order::Less => true,
                _ => false,
            },
        },
    }
}

/// Puts a contact into an ascending list, behind those that do not come
/// after it.
pub fn insert_contact(list: &mut Vec<Contact>, contact: Contact)
    requires
        contacts_ascend(contact_views(old(list)@)),
    ensures
        contacts_ascend(contact_views(final(list)@)),
        contact_views(final(list)@).to_multiset() == contact_views(old(list)@).to_multiset().insert(
            contact@,
        ),
        final(list)@.len() == old(list)@.len() + 1,
{
    let ghost before = contact_views(list@);
    let mut at: usize = 0;
    while at < list.len() && !contact_precedes(&contact, &list[at])
        invariant
            at <= list@.len(),
            list@ == old(list)@,
            before == contact_views(list@),
            forall|i: int| 0 <= i < at ==> !contact_lt(contact@, #[trigger] before[i]),
        decreases list@.len() - at,
    {
        at += 1;
    }
    list.insert(at, contact);
    proof {
        let after = contact_views(list@);
        assert(after =~= before.insert(at as int, contact@));
        to_multiset_insert(before, at as int, contact@);
        assert forall|i: int, j: int| 0 <= i < j < after.len() implies !contact_lt(
            #[trigger] after[j],
            #[trigger] after[i],
        ) by {
            if j == at {
                assert(after[i] == before[i]);
            } else if i == at {
                assert(after[j] == before[j - 1]);
                if contact_lt(after[j], contact@) {
                    assert(contact_lt(contact@, before[at as int]));
                    lemma_contact_lt_transitive(after[j], contact@, before[at as int]);
                    if j - 1 == at {
                        lemma_contact_lt_asymmetric(after[j], after[j]);
                    }
                }
            } else {
                let i0 = if i < at { i } else { i - 1 };
                let j0 = if j < at { j } else { j - 1 };
                assert(after[i] == before[i0] && after[j] == before[j0]);
            }
        }
    }
}

/// An ascending list is the only ascending list of its contacts: the order
/// decides the place of each.
pub proof fn law_ascending_list_is_unique(a: Seq<ContactView>, b: Seq<ContactView>)
    requires
        contacts_ascend(a),
        contacts_ascend(b),
        a.to_multiset() == b.to_multiset(),
    ensures
        a == b,
    decreases a.len(),
{
    to_multiset_len(a);
    to_multiset_len(b);
    if a.len() > 0 {
        to_multiset_contains(a, a[0]);
        to_multiset_contains(b, a[0]);
        to_multiset_contains(a, b[0]);
        to_multiset_contains(b, b[0]);
        assert(a.contains(a[0]));
        assert(b.contains(b[0]));
        let k = choose|k: int| 0 <= k < b.len() && b[k] == a[0];
        let m = choose|m: int| 0 <= m < a.len() && a[m] == b[0];
        lemma_contact_lt_total(a[0], b[0]);
        if contact_lt(a[0], b[0]) {
            assert(!contact_lt(b[k], b[0]) || k == 0);
            lemma_contact_lt_asymmetric(a[0], b[0]);
        }
        if contact_lt(b[0], a[0]) {
            assert(!contact_lt(a[m], a[0]) || m == 0);
            lemma_contact_lt_asymmetric(b[0], a[0]);
        }
        let a1 = a.remove(0);
        let b1 = b.remove(0);
        to_multiset_remove(a, 0);
        to_multiset_remove(b, 0);
        assert forall|i: int, j: int| 0 <= i < j < a1.len() implies !contact_lt(
            #[trigger] a1[j],
            #[trigger] a1[i],
        ) by {
            assert(a1[i] == a[i + 1] && a1[j] == a[j + 1]);
        }
        assert forall|i: int, j: int| 0 <= i < j < b1.len() implies !contact_lt(
            #[trigger] b1[j],
            #[trigger] b1[i],
        ) by {
            assert(b1[i] == b[i + 1] && b1[j] == b[j + 1]);
        }
        law_ascending_list_is_unique(a1, b1);
        assert forall|i: int| 0 <= i < a.len() implies a[i] == b[i] by {
            if i > 0 {
                assert(a1[i - 1] == a[i] && b1[i - 1] == b[i]);
            }
        }
        assert(a =~= b);
    } else {
        assert(a =~= b);
    }
}

} // verus!
