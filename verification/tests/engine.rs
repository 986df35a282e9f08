use nostr_store::engine::{ColumnFamily, Engine, WriteBatch};
use nostr_store::error::StoreError;
use nostr_store::partition::{copy_bytes, Direction, Entry, IteratorMode, Partition};

fn entry(key: &[u8], value: &[u8]) -> Entry {
    Entry { key: key.to_vec(), value: value.to_vec() }
}

fn filled() -> Partition {
    let mut p = Partition::new();
    p.put(vec![3], vec![30]);
    p.put(vec![1], vec![10]);
    p.put(vec![2, 0], vec![20]);
    p.put(vec![2], vec![21]);
    p.put(vec![5], vec![50]);
    p
}

#[test]
fn partition_keeps_rows_in_key_order() {
    let p = filled();
    assert_eq!(p.len(), 5);
    assert_eq!(
        *p.entries(),
        vec![
            entry(&[1], &[10]),
            entry(&[2], &[21]),
            entry(&[2, 0], &[20]),
            entry(&[3], &[30]),
            entry(&[5], &[50]),
        ]
    );
}

#[test]
fn partition_put_overwrites() {
    let mut p = filled();
    p.put(vec![3], vec![33, 33]);
    assert_eq!(p.len(), 5);
    assert_eq!(p.get(&vec![3]), Some(vec![33, 33]));
    assert_eq!(p.get(&vec![1]), Some(vec![10]));
}

#[test]
fn partition_get_and_probe() {
    let p = filled();
    assert_eq!(p.get(&vec![2, 0]), Some(vec![20]));
    assert_eq!(p.get(&vec![2, 1]), None);
    assert_eq!(p.get(&vec![]), None);
    assert!(p.key_may_exist(&vec![5]));
    assert!(!p.key_may_exist(&vec![4]));
    assert!(!Partition::new().key_may_exist(&vec![1]));
}

#[test]
fn partition_lower_bound_counts_the_keys_before() {
    let p = filled();
    assert_eq!(p.lower_bound(&vec![]), 0);
    assert_eq!(p.lower_bound(&vec![1]), 0);
    assert_eq!(p.lower_bound(&vec![1, 0]), 1);
    assert_eq!(p.lower_bound(&vec![2, 0]), 2);
    assert_eq!(p.lower_bound(&vec![4]), 4);
    assert_eq!(p.lower_bound(&vec![9]), 5);
}

#[test]
fn scan_from_either_end() {
    let p = filled();
    assert_eq!(p.scan(&IteratorMode::Start, 2), vec![entry(&[1], &[10]), entry(&[2], &[21])]);
    assert_eq!(p.scan(&IteratorMode::End, 2), vec![entry(&[5], &[50]), entry(&[3], &[30])]);
    assert_eq!(p.scan(&IteratorMode::Start, 0), Vec::new());
    assert_eq!(p.scan(&IteratorMode::End, 0), Vec::new());
    assert_eq!(p.scan(&IteratorMode::Start, 99).len(), 5);
    assert_eq!(p.scan(&IteratorMode::End, 99).len(), 5);
    assert_eq!(Partition::new().scan(&IteratorMode::End, 3), Vec::new());
}

#[test]
fn scan_from_a_key() {
    let p = filled();
    let forward = |key: &[u8], n| p.scan(&IteratorMode::From(key.to_vec(), Direction::Forward), n);
    let reverse = |key: &[u8], n| p.scan(&IteratorMode::From(key.to_vec(), Direction::Reverse), n);
    assert_eq!(forward(&[2], 2), vec![entry(&[2], &[21]), entry(&[2, 0], &[20])]);
    assert_eq!(forward(&[4], 9), vec![entry(&[5], &[50])]);
    assert_eq!(forward(&[6], 9), Vec::new());
    assert_eq!(reverse(&[2], 9), vec![entry(&[2], &[21]), entry(&[1], &[10])]);
    assert_eq!(reverse(&[4], 1), vec![entry(&[3], &[30])]);
    assert_eq!(reverse(&[0], 9), Vec::new());
    assert_eq!(reverse(&[9], 9).len(), 5);
}

#[test]
fn copy_bytes_copies() {
    assert_eq!(copy_bytes(&vec![1, 2, 3]), vec![1, 2, 3]);
    assert_eq!(copy_bytes(&Vec::new()), Vec::<u8>::new());
}

#[test]
fn engine_open_refuses_the_empty_path() {
    assert_eq!(Engine::open("").err(), Some(StoreError::Open));
    let engine = Engine::open("data").unwrap();
    assert_eq!(engine.path(), "data");
    assert!(!engine.unflushed());
    assert!(engine.entries(ColumnFamily::Chat).is_empty());
    assert!(engine.entries(ColumnFamily::Channel).is_empty());
}

#[test]
fn engine_partitions_are_apart() {
    let mut engine = Engine::open("data").unwrap();
    engine.put(ColumnFamily::Author, vec![1], vec![1]);
    engine.put(ColumnFamily::Profile, vec![1], vec![2]);
    assert!(engine.unflushed());
    assert_eq!(engine.get(ColumnFamily::Author, &vec![1]), Some(vec![1]));
    assert_eq!(engine.get(ColumnFamily::Profile, &vec![1]), Some(vec![2]));
    assert_eq!(engine.get(ColumnFamily::Contact, &vec![1]), None);
    assert!(engine.key_may_exist(ColumnFamily::Author, &vec![1]));
    assert!(!engine.key_may_exist(ColumnFamily::TextNote, &vec![1]));
}

#[test]
fn engine_batch_is_applied_in_order() {
    let mut engine = Engine::open("data").unwrap();
    let mut batch = WriteBatch::new();
    assert_eq!(batch.len(), 0);
    batch.put_cf(ColumnFamily::Contact, vec![1], vec![1]);
    batch.put_cf(ColumnFamily::TextNote, vec![7], vec![7]);
    batch.put_cf(ColumnFamily::Contact, vec![1], vec![2]);
    assert_eq!(batch.len(), 3);
    engine.write(batch);
    assert_eq!(engine.get(ColumnFamily::Contact, &vec![1]), Some(vec![2]));
    assert_eq!(engine.get(ColumnFamily::TextNote, &vec![7]), Some(vec![7]));
    assert!(engine.unflushed());
    engine.flush();
    assert!(!engine.unflushed());
    engine.write(WriteBatch::new());
    assert!(!engine.unflushed());
}

#[test]
fn engine_multi_get_keeps_the_order_of_the_keys() {
    let mut engine = Engine::open("data").unwrap();
    engine.put(ColumnFamily::TextNote, vec![1], vec![10]);
    engine.put(ColumnFamily::TextNote, vec![2], vec![20]);
    let found = engine.multi_get(ColumnFamily::TextNote, &vec![vec![2], vec![3], vec![1], vec![2]]);
    assert_eq!(found, vec![Some(vec![20]), None, Some(vec![10]), Some(vec![20])]);
}

#[test]
fn engine_scan_walks_one_partition() {
    let mut engine = Engine::open("data").unwrap();
    engine.put(ColumnFamily::TextNoteByTimestamp, vec![0, 2], vec![2]);
    engine.put(ColumnFamily::TextNoteByTimestamp, vec![0, 1], vec![1]);
    engine.put(ColumnFamily::TextNote, vec![9], vec![9]);
    let walked = engine.scan(ColumnFamily::TextNoteByTimestamp, &IteratorMode::End, 5);
    assert_eq!(walked, vec![entry(&[0, 2], &[2]), entry(&[0, 1], &[1])]);
}
