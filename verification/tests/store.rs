use nostr_store::bytes::timestamp_key;
use nostr_store::codec::hash_prefix;
use nostr_store::engine::{ColumnFamily, Engine};
use nostr_store::error::StoreError;
use nostr_store::model::{Contact, EventId, Profile, PublicKey, TextNote};
use nostr_store::partition::Direction;
use nostr_store::store::Store;

fn key(fill: u8) -> PublicKey {
    PublicKey { bytes: [fill; 32] }
}

fn id(n: u64) -> EventId {
    let mut bytes = [0u8; 32];
    bytes[..8].copy_from_slice(&n.to_be_bytes());
    bytes[31] = 0x5a;
    EventId { bytes }
}

fn note(timestamp: u64) -> TextNote {
    TextNote { pubkey: key(1), content: format!("post {}", timestamp), timestamp }
}

fn profile(name: &str) -> Profile {
    Profile {
        name: Some(name.to_string()),
        display_name: Some(format!("{} (display)", name)),
        about: None,
        picture: None,
    }
}

fn contact(fill: u8, alias: &str) -> Contact {
    Contact {
        pk: key(fill),
        relay_url: Some("wss://relay".to_string()),
        alias: Some(alias.to_string()),
    }
}

fn timestamps(notes: &[TextNote]) -> Vec<u64> {
    notes.iter().map(|n| n.timestamp).collect()
}

fn open() -> Store {
    Store::open("./db").unwrap()
}

#[test]
fn open_refuses_the_empty_path() {
    assert_eq!(Store::open("").err(), Some(StoreError::Open));
    let store = Store::open("/var/lib/nostr").unwrap();
    assert_eq!(store.path(), "/var/lib/nostr");
    assert!(!store.unflushed());
    assert_eq!(store.get_authors(), Ok(Vec::new()));
    assert_eq!(store.get_contacts(), Ok(Vec::new()));
    assert!(store.get_textnotes_with_limit(10).is_empty());
}

#[test]
fn partitions_keep_their_names() {
    let store = open();
    assert_eq!(store.author_cf(), ColumnFamily::Author);
    assert_eq!(store.profile_cf(), ColumnFamily::Profile);
    assert_eq!(store.contact_cf(), ColumnFamily::Contact);
    assert_eq!(store.textnote_cf(), ColumnFamily::TextNote);
    assert_eq!(store.textnote_by_timestamp(), ColumnFamily::TextNoteByTimestamp);
    assert_eq!(ColumnFamily::Author.name(), "author");
    assert_eq!(ColumnFamily::Contact.name(), "contact");
    assert_eq!(ColumnFamily::Profile.name(), "profile");
    assert_eq!(ColumnFamily::Chat.name(), "chat");
    assert_eq!(ColumnFamily::Channel.name(), "channel");
    assert_eq!(ColumnFamily::TextNote.name(), "textnote");
    assert_eq!(ColumnFamily::TextNoteByTimestamp.name(), "textnotebytimestamp");
}

#[test]
fn profile_is_read_as_written_and_overwritten_whole() {
    let mut store = open();
    assert_eq!(store.get_profile(key(1)), Err(StoreError::NotFound));
    let p = profile("alice");
    assert_eq!(store.set_profile(key(1), p.clone()), Ok(()));
    assert_eq!(store.get_profile(key(1)), Ok(p));
    assert_eq!(store.get_profile(key(2)), Err(StoreError::NotFound));
    let second = Profile { name: None, display_name: None, about: Some("bio".to_string()), picture: None };
    assert_eq!(store.set_profile(key(1), second.clone()), Ok(()));
    assert_eq!(store.get_profile(key(1)), Ok(second));
}

#[test]
fn author_set_twice_is_listed_once() {
    let mut store = open();
    assert_eq!(store.set_author(key(9)), Ok(()));
    assert_eq!(store.set_author(key(9)), Ok(()));
    assert_eq!(store.get_authors(), Ok(vec![key(9)]));
    assert_eq!(store.set_author(key(3)), Ok(()));
    let authors = store.get_authors().unwrap();
    assert_eq!(authors.len(), 2);
    assert_eq!(authors.iter().filter(|k| **k == key(9)).count(), 1);
    assert_eq!(authors.iter().filter(|k| **k == key(3)).count(), 1);
}

#[test]
fn authors_set_in_a_batch() {
    let mut store = open();
    assert_eq!(store.set_authors(vec![key(5), key(2), key(5), key(8)]), Ok(()));
    assert_eq!(store.get_authors(), Ok(vec![key(2), key(5), key(8)]));
    assert_eq!(store.set_authors(Vec::new()), Ok(()));
    assert_eq!(store.get_authors(), Ok(vec![key(2), key(5), key(8)]));
}

#[test]
fn contacts_come_back_in_ascending_key_order() {
    let mut store = open();
    let (c1, c2, c3) = (contact(1, "one"), contact(2, "two"), contact(3, "three"));
    assert_eq!(store.set_contacts(vec![c3.clone(), c1.clone(), c2.clone()]), Ok(()));
    assert_eq!(store.get_contacts(), Ok(vec![c1, c2, c3]));
}

#[test]
fn a_contact_is_overwritten_by_key() {
    let mut store = open();
    assert_eq!(store.set_contacts(vec![contact(1, "old"), contact(2, "two")]), Ok(()));
    assert_eq!(store.set_contacts(vec![contact(1, "new"), contact(1, "newest")]), Ok(()));
    assert_eq!(store.get_contacts(), Ok(vec![contact(1, "newest"), contact(2, "two")]));
}

#[test]
fn contacts_sort_by_the_record_where_keys_are_equal() {
    let mut db = Engine::open("./db").unwrap();
    let text = |t: &str| Some(t.to_string());
    let a = Contact { pk: key(4), relay_url: text("b"), alias: text("z") };
    let b = Contact { pk: key(4), relay_url: text("a"), alias: text("z") };
    let c = Contact { pk: key(4), relay_url: text("a"), alias: text("y") };
    let d = Contact { pk: key(3), relay_url: text("z"), alias: text("z") };
    let e = Contact { pk: key(4), relay_url: None, alias: text("z") };
    let f = Contact { pk: key(4), relay_url: text("a"), alias: None };
    let g = Contact { pk: key(4), relay_url: text(""), alias: None };
    for (at, contact) in [&a, &b, &c, &d, &e, &f, &g].into_iter().enumerate() {
        db.put(ColumnFamily::Contact, vec![at as u8], contact.encode());
    }
    let store = Store::from_engine(db);
    assert_eq!(store.get_contacts(), Ok(vec![d, e, g, f, c, b, a]));
}

#[test]
fn textnote_delivered_twice_is_stored_once() {
    let mut store = open();
    assert_eq!(store.get_textnote(id(1)), Err(StoreError::NotFound));
    assert_eq!(store.set_textnote(id(1), note(100)), Ok(()));
    assert_eq!(store.set_textnote(id(1), note(100)), Ok(()));
    assert_eq!(store.get_textnote(id(1)), Ok(note(100)));
    assert_eq!(store.get_textnotes_with_limit(10), vec![note(100)]);
    assert_eq!(
        store.get_textnotes_from_timestamp(100, Direction::Forward, 10),
        vec![note(100)]
    );
}

#[test]
fn the_first_textnote_under_an_identifier_stays() {
    let mut store = open();
    let first = note(100);
    let mut second = note(100);
    second.content = "another".to_string();
    assert_eq!(store.set_textnote(id(1), first.clone()), Ok(()));
    assert_eq!(store.set_textnote(id(1), second), Ok(()));
    assert_eq!(store.get_textnote(id(1)), Ok(first));
}

#[test]
fn identifiers_with_the_same_prefix_share_a_key() {
    let mut store = open();
    let a = id(7);
    let mut b = id(7);
    b.bytes[20] = 0xee;
    assert_eq!(hash_prefix(&a), hash_prefix(&b));
    assert_eq!(store.set_textnote(a, note(1)), Ok(()));
    assert_eq!(store.set_textnote(b, note(2)), Ok(()));
    assert_eq!(store.get_textnote(b), Ok(note(1)));
    assert_eq!(timestamps(&store.get_textnotes_with_limit(10)), vec![1, 1]);
}

#[test]
fn posts_with_the_same_timestamp_share_an_index_row() {
    let mut store = open();
    assert_eq!(store.set_textnote(id(1), note(50)), Ok(()));
    let mut other = note(50);
    other.content = "same second".to_string();
    assert_eq!(store.set_textnote(id(2), other.clone()), Ok(()));
    assert_eq!(store.get_textnote(id(2)), Ok(other));
    assert_eq!(store.get_textnotes_with_limit(10), vec![note(50)]);
}

#[test]
fn fifty_posts_and_the_newest_ten() {
    let mut store = open();
    for t in 1..=50u64 {
        assert_eq!(store.set_textnote(id(t), note(t)), Ok(()));
    }
    let newest = store.get_textnotes_with_limit(10);
    assert_eq!(timestamps(&newest), vec![50, 49, 48, 47, 46, 45, 44, 43, 42, 41]);
    for n in &newest {
        assert_eq!(*n, note(n.timestamp));
    }
    assert_eq!(store.get_textnotes_with_limit(0), Vec::new());
    assert_eq!(store.get_textnotes_with_limit(1), vec![note(50)]);
    assert_eq!(store.get_textnotes_with_limit(1000).len(), 50);
}

#[test]
fn newest_posts_are_in_falling_order_whatever_the_order_of_arrival() {
    let mut store = open();
    for t in [30u64, 10, 50, 20, 40, u64::MAX, 0] {
        assert_eq!(store.set_textnote(id(t), note(t)), Ok(()));
    }
    assert_eq!(
        timestamps(&store.get_textnotes_with_limit(5)),
        vec![u64::MAX, 50, 40, 30, 20]
    );
    assert_eq!(
        timestamps(&store.get_textnotes_with_limit(7)),
        vec![u64::MAX, 50, 40, 30, 20, 10, 0]
    );
}

#[test]
fn pages_forward_and_in_reverse() {
    let mut store = open();
    for t in [10u64, 20, 30, 40, 50] {
        assert_eq!(store.set_textnote(id(t), note(t)), Ok(()));
    }
    let forward = |store: &Store, t, n| {
        timestamps(&store.get_textnotes_from_timestamp(t, Direction::Forward, n))
    };
    let reverse = |store: &Store, t, n| {
        timestamps(&store.get_textnotes_from_timestamp(t, Direction::Reverse, n))
    };
    assert_eq!(forward(&store, 30, 2), vec![30, 40]);
    assert_eq!(forward(&store, 31, 10), vec![40, 50]);
    assert_eq!(forward(&store, 0, 10), vec![10, 20, 30, 40, 50]);
    assert_eq!(forward(&store, 51, 10), Vec::<u64>::new());
    assert_eq!(forward(&store, 10, 0), Vec::<u64>::new());
    assert_eq!(reverse(&store, 30, 2), vec![30, 20]);
    assert_eq!(reverse(&store, 29, 10), vec![20, 10]);
    assert_eq!(reverse(&store, u64::MAX, 10), vec![50, 40, 30, 20, 10]);
    assert_eq!(reverse(&store, 9, 10), Vec::<u64>::new());
    assert_eq!(reverse(&store, 50, 0), Vec::<u64>::new());
}

#[test]
fn a_page_ends_where_the_next_begins() {
    let mut store = open();
    for t in 1..=25u64 {
        assert_eq!(store.set_textnote(id(t), note(t * 3)), Ok(()));
    }
    let mut seen = Vec::new();
    let mut cursor = 0u64;
    loop {
        let page = store.get_textnotes_from_timestamp(cursor, Direction::Forward, 4);
        if page.is_empty() {
            break;
        }
        seen.extend(timestamps(&page));
        cursor = page.last().unwrap().timestamp + 1;
    }
    assert_eq!(seen, (1..=25u64).map(|t| t * 3).collect::<Vec<_>>());
}

#[test]
fn feeds_pass_over_what_does_not_resolve() {
    let mut db = Engine::open("./db").unwrap();
    let index = ColumnFamily::TextNoteByTimestamp;
    let posts = ColumnFamily::TextNote;
    db.put(index, timestamp_key(1), vec![1; 8]);
    db.put(index, timestamp_key(2), vec![2; 8]);
    db.put(index, timestamp_key(3), vec![3; 8]);
    db.put(index, timestamp_key(4), vec![4; 8]);
    db.put(posts, vec![1; 8], note(1).encode());
    db.put(posts, vec![2; 8], vec![0xde, 0xad]);
    db.put(posts, vec![4; 8], note(4).encode());
    let store = Store::from_engine(db);
    assert_eq!(store.get_textnotes_with_limit(10), vec![note(4), note(1)]);
    assert_eq!(store.get_textnotes_with_limit(3), vec![note(4)]);
    assert_eq!(
        store.get_textnotes_from_timestamp(2, Direction::Forward, 10),
        vec![note(4)]
    );
    assert_eq!(
        store.get_textnotes_from_timestamp(3, Direction::Reverse, 10),
        vec![note(1)]
    );
}

#[test]
fn point_reads_tell_missing_from_malformed() {
    let mut db = Engine::open("./db").unwrap();
    db.put(ColumnFamily::Profile, key(1).encode(), vec![9, 9, 9]);
    db.put(ColumnFamily::TextNote, hash_prefix(&id(1)), vec![1, 2, 3]);
    let store = Store::from_engine(db);
    assert_eq!(store.get_profile(key(1)), Err(StoreError::Decode));
    assert_eq!(store.get_profile(key(2)), Err(StoreError::NotFound));
    assert_eq!(store.get_textnote(id(1)), Err(StoreError::Decode));
    assert_eq!(store.get_textnote(id(2)), Err(StoreError::NotFound));
}

#[test]
fn listings_fail_on_what_does_not_decode() {
    let mut db = Engine::open("./db").unwrap();
    db.put(ColumnFamily::Author, key(1).encode(), Vec::new());
    db.put(ColumnFamily::Author, vec![1, 2, 3], Vec::new());
    db.put(ColumnFamily::Contact, key(1).encode(), contact(1, "a").encode());
    db.put(ColumnFamily::Contact, key(2).encode(), vec![0]);
    let store = Store::from_engine(db);
    assert_eq!(store.get_authors(), Err(StoreError::Decode));
    assert_eq!(store.get_contacts(), Err(StoreError::Decode));
}

#[test]
fn flush_keeps_what_is_stored() {
    let mut store = open();
    assert!(!store.unflushed());
    store.flush();
    assert!(!store.unflushed());
    assert_eq!(store.set_author(key(1)), Ok(()));
    assert_eq!(store.set_textnote(id(1), note(1)), Ok(()));
    assert!(store.unflushed());
    store.flush();
    assert!(!store.unflushed());
    assert_eq!(store.get_authors(), Ok(vec![key(1)]));
    assert_eq!(store.get_textnote(id(1)), Ok(note(1)));
    assert_eq!(store.set_textnote(id(1), note(1)), Ok(()));
    assert!(!store.unflushed());
    assert_eq!(store.set_contacts(Vec::new()), Ok(()));
    assert!(!store.unflushed());
}

#[test]
fn tables_do_not_touch_each_other() {
    let mut store = open();
    assert_eq!(store.set_author(key(1)), Ok(()));
    assert_eq!(store.set_profile(key(1), profile("a")), Ok(()));
    assert_eq!(store.set_contacts(vec![contact(1, "a")]), Ok(()));
    assert_eq!(store.set_textnote(id(1), note(1)), Ok(()));
    assert_eq!(store.get_authors(), Ok(vec![key(1)]));
    assert_eq!(store.get_profile(key(1)), Ok(profile("a")));
    assert_eq!(store.get_contacts(), Ok(vec![contact(1, "a")]));
    assert_eq!(store.get_textnotes_with_limit(5), vec![note(1)]);
}

#[test]
fn the_feed_comes_a_page_at_a_time() {
    let mut store = open();
    for t in 1..=10u64 {
        assert_eq!(store.set_textnote(id(t), note(t)), Ok(()));
    }
    assert_eq!(timestamps(&store.get_feed(4, 0)), vec![10, 9, 8, 7]);
    assert_eq!(timestamps(&store.get_feed(4, 1)), vec![6, 5, 4, 3]);
    assert_eq!(timestamps(&store.get_feed(4, 2)), vec![2, 1]);
    assert_eq!(timestamps(&store.get_feed(4, 3)), Vec::<u64>::new());
    assert_eq!(timestamps(&store.get_feed(0, 0)), Vec::<u64>::new());
    assert_eq!(timestamps(&store.get_feed(0, 7)), Vec::<u64>::new());
    assert_eq!(store.get_feed(40, 0), store.get_textnotes_with_limit(40));
    assert_eq!(store.get_feed(3, 0), store.get_textnotes_with_limit(3));
    assert_eq!(timestamps(&store.get_feed(usize::MAX, 0)).len(), 10);
    assert_eq!(timestamps(&store.get_feed(usize::MAX, 1)), Vec::<u64>::new());
    assert_eq!(timestamps(&store.get_feed(usize::MAX, usize::MAX)), Vec::<u64>::new());
    assert_eq!(timestamps(&store.get_feed(3, usize::MAX)), Vec::<u64>::new());
    assert_eq!(timestamps(&store.get_feed(usize::MAX / 2 + 1, 1)), Vec::<u64>::new());
}

#[test]
fn an_index_row_may_lead_to_a_post_of_another_time() {
    let mut store = open();
    assert_eq!(store.set_textnote(id(1), note(100)), Ok(()));
    assert_eq!(store.set_textnote(id(1), note(1)), Ok(()));
    assert_eq!(store.set_textnote(id(2), note(50)), Ok(()));
    assert_eq!(store.get_textnote(id(1)), Ok(note(100)));
    assert_eq!(timestamps(&store.get_textnotes_with_limit(3)), vec![100, 50, 100]);
    assert_eq!(
        timestamps(&store.get_textnotes_from_timestamp(0, Direction::Forward, 3)),
        vec![100, 50, 100]
    );
}
