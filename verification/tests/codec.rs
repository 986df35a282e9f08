use nostr_store::bytes::{compare, read_u64, timestamp_key, Order};
use nostr_store::codec::hash_prefix;
use nostr_store::error::StoreError;
use nostr_store::model::{Contact, EventId, Profile, PublicKey, TextNote};

fn key(fill: u8) -> PublicKey {
    PublicKey { bytes: [fill; 32] }
}

fn note(content: &str, timestamp: u64) -> TextNote {
    TextNote { pubkey: key(7), content: content.to_string(), timestamp }
}

#[test]
fn timestamp_key_is_big_endian() {
    assert_eq!(timestamp_key(0), vec![0u8; 8]);
    assert_eq!(timestamp_key(1), vec![0, 0, 0, 0, 0, 0, 0, 1]);
    assert_eq!(timestamp_key(0x0102_0304_0506_0708), vec![1, 2, 3, 4, 5, 6, 7, 8]);
    assert_eq!(timestamp_key(u64::MAX), vec![0xff; 8]);
    assert_eq!(timestamp_key(1_700_000_000), 1_700_000_000u64.to_be_bytes().to_vec());
}

#[test]
fn timestamp_keys_order_as_timestamps() {
    let stamps = [0u64, 1, 255, 256, 65_535, 65_536, 1 << 32, u64::MAX - 1, u64::MAX];
    for a in stamps {
        for b in stamps {
            let expected = if a < b {
                Order::Less
            } else if a == b {
                Order::Equal
            } else {
                Order::Greater
            };
            assert_eq!(compare(&timestamp_key(a), &timestamp_key(b)), expected);
        }
    }
}

#[test]
fn read_u64_reads_back_what_was_laid_out() {
    let mut bytes = vec![9u8, 9];
    bytes.extend(timestamp_key(0xdead_beef_0000_0001));
    bytes.push(9);
    assert_eq!(read_u64(&bytes, 2), 0xdead_beef_0000_0001);
}

#[test]
fn compare_is_lexicographic() {
    assert_eq!(compare(&[], &[]), Order::Equal);
    assert_eq!(compare(&[], &[0]), Order::Less);
    assert_eq!(compare(&[0], &[]), Order::Greater);
    assert_eq!(compare(&[1, 2], &[1, 2, 0]), Order::Less);
    assert_eq!(compare(&[1, 3], &[1, 2, 9]), Order::Greater);
    assert_eq!(compare(&[5, 5, 5], &[5, 5, 5]), Order::Equal);
    assert_eq!(compare(&[0, 255], &[1]), Order::Less);
}

#[test]
fn hash_prefix_is_the_first_eight_bytes() {
    let mut bytes = [0u8; 32];
    for (i, b) in bytes.iter_mut().enumerate() {
        *b = (i as u8) + 1;
    }
    assert_eq!(hash_prefix(&EventId { bytes }), vec![1, 2, 3, 4, 5, 6, 7, 8]);
}

#[test]
fn public_key_round_trip() {
    let k = key(0xab);
    let bytes = k.encode();
    assert_eq!(bytes, vec![0xab; 32]);
    assert_eq!(PublicKey::decode(&bytes), Ok(k));
    assert_eq!(PublicKey::decode(&vec![0xab; 31]), Err(StoreError::Decode));
    assert_eq!(PublicKey::decode(&vec![0xab; 33]), Err(StoreError::Decode));
    assert_eq!(PublicKey::decode(&Vec::new()), Err(StoreError::Decode));
}

#[test]
fn textnote_layout_is_exact() {
    let bytes = note("hi", 258).encode();
    let mut expected = vec![7u8; 32];
    expected.extend([0, 0, 0, 0, 0, 0, 1, 2]);
    expected.extend([0, 0, 0, 0, 0, 0, 0, 2]);
    expected.extend(b"hi");
    assert_eq!(bytes, expected);
}

#[test]
fn textnote_round_trip_at_the_boundaries() {
    for n in [
        note("", 0),
        note("", u64::MAX),
        note("hello", 0),
        note("hello", u64::MAX),
        note("gr\u{fc}\u{df}e \u{1f980} \u{4e16}\u{754c}", 1_234_567_890),
    ] {
        let bytes = n.encode();
        let back = TextNote::decode(&bytes).unwrap();
        assert_eq!(back, n);
        assert_eq!(back.encode(), bytes);
    }
}

#[test]
fn textnote_decode_refuses_malformed_bytes() {
    let good = note("hello", 5).encode();
    assert_eq!(TextNote::decode(&Vec::new()), Err(StoreError::Decode));
    for cut in 0..good.len() {
        assert_eq!(TextNote::decode(&good[..cut].to_vec()), Err(StoreError::Decode));
    }
    let mut long = good.clone();
    long.push(0);
    assert_eq!(TextNote::decode(&long), Err(StoreError::Decode));
    let mut wrong_len = good.clone();
    wrong_len[47] = 6;
    assert_eq!(TextNote::decode(&wrong_len), Err(StoreError::Decode));
    let mut huge_len = good.clone();
    huge_len[40] = 0xff;
    assert_eq!(TextNote::decode(&huge_len), Err(StoreError::Decode));
}

#[test]
fn text_that_is_not_utf8_is_refused() {
    let mut bytes = note("ab", 5).encode();
    let n = bytes.len();
    bytes[n - 2] = 0xff;
    assert_eq!(TextNote::decode(&bytes), Err(StoreError::Decode));
    let mut cut_scalar = note("\u{e9}", 5).encode();
    let n = cut_scalar.len();
    cut_scalar[n - 1] = b'a';
    assert_eq!(TextNote::decode(&cut_scalar), Err(StoreError::Decode));
}

#[test]
fn profile_layout_is_exact() {
    let p = Profile {
        name: Some("a".to_string()),
        display_name: None,
        about: Some(String::new()),
        picture: None,
    };
    let expected = vec![
        1, 0, 0, 0, 0, 0, 0, 0, 1, b'a', // name
        0, // display name
        1, 0, 0, 0, 0, 0, 0, 0, 0, // about
        0, // picture
    ];
    assert_eq!(p.encode(), expected);
}

#[test]
fn profile_round_trip() {
    let profiles = [
        Profile::default(),
        Profile {
            name: Some("alice".to_string()),
            display_name: Some("Alice \u{2728}".to_string()),
            about: Some(String::new()),
            picture: Some("https://example.com/a.png".to_string()),
        },
        Profile { name: None, display_name: Some("x".to_string()), about: None, picture: None },
    ];
    for p in profiles {
        let bytes = p.encode();
        let back = Profile::decode(&bytes).unwrap();
        assert_eq!(back, p);
        assert_eq!(back.encode(), bytes);
    }
}

#[test]
fn profile_decode_refuses_malformed_bytes() {
    assert_eq!(Profile::decode(&Vec::new()), Err(StoreError::Decode));
    assert_eq!(Profile::decode(&vec![0, 0, 0]), Err(StoreError::Decode));
    assert_eq!(Profile::decode(&vec![0, 0, 0, 0, 0]), Err(StoreError::Decode));
    assert_eq!(Profile::decode(&vec![2, 0, 0, 0]), Err(StoreError::Decode));
    assert_eq!(Profile::decode(&vec![0, 0, 0, 1]), Err(StoreError::Decode));
    assert_eq!(Profile::decode(&vec![0, 0, 0, 0]), Ok(Profile::default()));
}

#[test]
fn contact_layout_is_exact() {
    let c = Contact { pk: key(2), relay_url: Some("r".to_string()), alias: None };
    let mut expected = vec![2u8; 32];
    expected.extend([1, 0, 0, 0, 0, 0, 0, 0, 1, b'r']);
    expected.push(0);
    assert_eq!(c.encode(), expected);
}

#[test]
fn contact_round_trip() {
    let contacts = [
        Contact { pk: key(1), relay_url: None, alias: None },
        Contact { pk: key(1), relay_url: Some(String::new()), alias: Some(String::new()) },
        Contact {
            pk: key(0xff),
            relay_url: Some("wss://relay.example.com".to_string()),
            alias: Some("bob".to_string()),
        },
    ];
    for c in contacts {
        let bytes = c.encode();
        let back = Contact::decode(&bytes).unwrap();
        assert_eq!(back, c);
        assert_eq!(back.encode(), bytes);
    }
}

#[test]
fn contact_decode_refuses_malformed_bytes() {
    let good = Contact {
        pk: key(3),
        relay_url: Some("r".to_string()),
        alias: Some("a".to_string()),
    }
    .encode();
    for cut in 0..good.len() {
        assert_eq!(Contact::decode(&good[..cut].to_vec()), Err(StoreError::Decode));
    }
    let mut long = good.clone();
    long.push(1);
    assert_eq!(Contact::decode(&long), Err(StoreError::Decode));
    let mut tag = good.clone();
    tag[32] = 2;
    assert_eq!(Contact::decode(&tag), Err(StoreError::Decode));
}

#[test]
fn error_messages() {
    assert_eq!(StoreError::Open.message(), "the store cannot be opened at this path");
    assert_eq!(StoreError::Decode.message(), "stored bytes do not decode");
    assert_eq!(StoreError::NotFound.message(), "not found");
}
