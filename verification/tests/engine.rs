use kvs::engines::kvs::directory::Directory;
use kvs::engines::kvs::record::{Entry, EntryPos};
use kvs::engines::kvs::store::DataReader;
use kvs::{Error, KvStore, KvsEngine};

fn record(key: &str, value: &str, timestamp: i64) -> Vec<u8> {
    Entry::with_timestamp(key.to_owned(), value.to_owned(), timestamp).encode()
}

fn empty_store() -> KvStore {
    KvStore::open(Directory::new()).unwrap()
}

fn locator_of(store: &KvStore, key: &str) -> Option<EntryPos> {
    store.writer.index.get(key).map(|e| *e.value())
}

fn handles(reader: &DataReader) -> Vec<u64> {
    reader.readers.keys().copied().collect()
}

fn get(store: &mut KvStore, key: &str) -> Option<String> {
    store.get(key.to_owned()).unwrap()
}

#[test]
fn set_then_get() {
    let mut store = empty_store();
    store.set("114".to_owned(), "514".to_owned()).unwrap();
    assert_eq!(store.get("114".to_owned()).unwrap(), Some("514".to_owned()));
}

#[test]
fn overwrite_then_get() {
    let mut store = empty_store();
    store.set("k".to_owned(), "v1".to_owned()).unwrap();
    store.set("k".to_owned(), "v2".to_owned()).unwrap();
    assert_eq!(store.get("k".to_owned()).unwrap(), Some("v2".to_owned()));
}

#[test]
fn remove_then_get_and_remove_again() {
    let mut store = empty_store();
    store.set("k".to_owned(), "v".to_owned()).unwrap();
    store.remove("k".to_owned()).unwrap();
    assert_eq!(store.get("k".to_owned()).unwrap(), None);
    assert!(matches!(store.remove("k".to_owned()), Err(Error::NonexistentKey)));
}

#[test]
fn empty_directory_reopened() {
    let mut store = empty_store();
    assert_eq!(store.get("nope".to_owned()).unwrap(), None);
    let dir = store.close();
    let mut store = KvStore::open(dir).unwrap();
    assert_eq!(store.get("nope".to_owned()).unwrap(), None);
}

#[test]
fn remove_of_a_key_never_set() {
    let mut store = empty_store();
    assert!(matches!(store.remove("k".to_owned()), Err(Error::NonexistentKey)));
    assert_eq!(store.directory().data(1).unwrap().len(), 0);
    assert_eq!(store.writer.uncompacted_bytes, 0);
}

#[test]
fn last_write_wins_over_a_sequence() {
    let mut store = empty_store();
    store.set("a".to_owned(), "1".to_owned()).unwrap();
    store.set("b".to_owned(), "2".to_owned()).unwrap();
    store.remove("a".to_owned()).unwrap();
    store.set("c".to_owned(), "3".to_owned()).unwrap();
    store.set("a".to_owned(), "4".to_owned()).unwrap();
    store.set("b".to_owned(), "5".to_owned()).unwrap();
    store.remove("c".to_owned()).unwrap();
    assert_eq!(get(&mut store, "a"), Some("4".to_owned()));
    assert_eq!(get(&mut store, "b"), Some("5".to_owned()));
    assert_eq!(get(&mut store, "c"), None);
    assert_eq!(get(&mut store, "d"), None);
}

#[test]
fn set_of_the_empty_value_reads_as_nothing() {
    let mut store = empty_store();
    store.set("k".to_owned(), "v".to_owned()).unwrap();
    store.set("k".to_owned(), String::new()).unwrap();
    assert_eq!(get(&mut store, "k"), None);
    // the key still has an entry, so it can be removed once
    assert!(store.remove("k".to_owned()).is_ok());
    assert!(matches!(store.remove("k".to_owned()), Err(Error::NonexistentKey)));
}

#[test]
fn open_starts_at_segment_one() {
    let store = empty_store();
    assert_eq!(store.writer.current_id, 1);
    assert_eq!(store.directory().ids(), vec![1]);
    assert_eq!(store.writer.uncompacted_bytes, 0);
    assert_eq!(store.writer.reader.last_id, 0);
    assert!(store.reader.readers.is_empty());
}

#[test]
fn open_takes_the_segment_behind_the_last() {
    let mut dir = Directory::new();
    dir.add_segment(3, record("a", "1", 1));
    dir.add_segment(9, record("a", "22", 2));
    let mut store = KvStore::open(dir).unwrap();
    assert_eq!(store.writer.current_id, 10);
    assert_eq!(store.directory().ids(), vec![3, 9, 10]);
    assert_eq!(store.directory().data(10).unwrap().len(), 0);
    assert_eq!(store.writer.uncompacted_bytes, 26);
    assert_eq!(locator_of(&store, "a"), Some(EntryPos { file_id: 9, pos: 0, sz: 27, timestamp: 2 }));
    assert_eq!(get(&mut store, "a"), Some("22".to_owned()));
}

#[test]
fn open_fails_where_no_id_is_left() {
    let mut dir = Directory::new();
    dir.add_segment(u64::MAX, Vec::new());
    assert!(matches!(KvStore::open(dir), Err(Error::SegmentIdOverflow)));
}

#[test]
fn set_appends_and_accounts_stale_bytes() {
    let mut store = empty_store();
    store.writer.set_at("k".to_owned(), "v1".to_owned(), 100).unwrap();
    assert_eq!(locator_of(&store, "k"), Some(EntryPos { file_id: 1, pos: 0, sz: 27, timestamp: 100 }));
    assert_eq!(store.writer.uncompacted_bytes, 0);
    store.writer.set_at("k".to_owned(), "v".to_owned(), 101).unwrap();
    assert_eq!(locator_of(&store, "k"), Some(EntryPos { file_id: 1, pos: 27, sz: 26, timestamp: 101 }));
    assert_eq!(store.writer.uncompacted_bytes, 27);
    let mut expected = record("k", "v1", 100);
    expected.extend_from_slice(&record("k", "v", 101));
    assert_eq!(store.directory().data(1).unwrap(), &expected);
}

#[test]
fn remove_appends_a_tombstone_and_accounts_it() {
    let mut store = empty_store();
    store.writer.set_at("k".to_owned(), "v1".to_owned(), 100).unwrap();
    store.writer.remove_at("k".to_owned(), 101).unwrap();
    // the tombstone's own 25 bytes and the 27 of the record displaced
    assert_eq!(store.writer.uncompacted_bytes, 25 + 27);
    assert_eq!(locator_of(&store, "k"), None);
    let mut expected = record("k", "v1", 100);
    expected.extend_from_slice(&record("k", "", 101));
    assert_eq!(store.directory().data(1).unwrap(), &expected);
}

#[test]
fn get_moves_the_reader_pool() {
    let mut dir = Directory::new();
    dir.add_segment(2, record("a", "1", 1));
    dir.add_segment(5, record("b", "2", 2));
    let mut store = KvStore::open(dir).unwrap();
    assert_eq!(get(&mut store, "a"), Some("1".to_owned()));
    assert_eq!(handles(&store.reader), vec![2]);
    assert_eq!(get(&mut store, "b"), Some("2".to_owned()));
    assert_eq!(handles(&store.reader), vec![2, 5]);
    assert_eq!(get(&mut store, "zzz"), None);
    assert_eq!(handles(&store.reader), vec![2, 5]);
}

#[test]
fn compaction_rewrites_live_records_by_key() {
    let big = "x".repeat(600 * 1024);
    let mut store = empty_store();
    store.writer.set_at("b".to_owned(), "2".to_owned(), 1).unwrap();
    store.writer.set_at("a".to_owned(), "1".to_owned(), 2).unwrap();
    store.writer.set_at("c".to_owned(), String::new(), 3).unwrap();
    store.writer.set_at("d".to_owned(), "4".to_owned(), 4).unwrap();
    store.writer.remove_at("d".to_owned(), 5).unwrap();
    store.writer.set_at("z".to_owned(), big.clone(), 6).unwrap();
    store.writer.set_at("z".to_owned(), big.clone(), 7).unwrap();
    assert_eq!(store.writer.current_id, 1);
    assert_eq!(store.writer.uncompacted_bytes, 26 + 25 + 614425);
    assert!(store.writer.uncompacted_bytes <= 1 << 20);
    store.writer.set_at("z".to_owned(), big.clone(), 8).unwrap();
    // the third record of `z` brought the stale bytes above the threshold
    assert_eq!(store.writer.current_id, 3);
    assert_eq!(store.writer.uncompacted_bytes, 0);
    assert_eq!(store.writer.reader.last_id, 3);
    assert_eq!(store.directory().ids(), vec![2, 3]);
    let mut expected = record("a", "1", 2);
    expected.extend_from_slice(&record("b", "2", 1));
    expected.extend_from_slice(&record("z", &big, 8));
    assert!(store.directory().data(2).unwrap() == &expected);
    assert_eq!(store.directory().data(3).unwrap().len(), 0);
    assert_eq!(store.directory().total_bytes(), Some(26 + 26 + 614425));
    assert_eq!(store.writer.index.len(), 3);
    assert_eq!(locator_of(&store, "a"), Some(EntryPos { file_id: 2, pos: 0, sz: 26, timestamp: 2 }));
    assert_eq!(locator_of(&store, "b"), Some(EntryPos { file_id: 2, pos: 26, sz: 26, timestamp: 1 }));
    assert_eq!(locator_of(&store, "c"), None);
    assert_eq!(locator_of(&store, "d"), None);
    assert_eq!(
        locator_of(&store, "z"),
        Some(EntryPos { file_id: 2, pos: 52, sz: 614425, timestamp: 8 })
    );
    // the writer's pool holds the handle of its last read, on the retired segment
    assert_eq!(handles(&store.writer.reader), vec![1]);
    assert_eq!(get(&mut store, "a"), Some("1".to_owned()));
    assert_eq!(get(&mut store, "b"), Some("2".to_owned()));
    assert_eq!(get(&mut store, "c"), None);
    assert_eq!(get(&mut store, "d"), None);
    assert_eq!(get(&mut store, "z"), Some(big));
    // writes go on in the new active segment
    store.writer.set_at("a".to_owned(), "11".to_owned(), 9).unwrap();
    assert_eq!(locator_of(&store, "a"), Some(EntryPos { file_id: 3, pos: 0, sz: 27, timestamp: 9 }));
    assert_eq!(store.writer.uncompacted_bytes, 26);
}

#[test]
fn compaction_evicts_stale_handles_of_the_reader() {
    let big = "x".repeat(600 * 1024);
    let mut store = empty_store();
    store.writer.set_at("z".to_owned(), big.clone(), 1).unwrap();
    assert_eq!(get(&mut store, "z"), Some(big.clone()));
    assert_eq!(handles(&store.reader), vec![1]);
    store.writer.set_at("z".to_owned(), big.clone(), 2).unwrap();
    store.writer.set_at("z".to_owned(), big.clone(), 3).unwrap();
    assert_eq!(store.directory().ids(), vec![2, 3]);
    assert_eq!(get(&mut store, "z"), Some(big));
    assert_eq!(store.reader.last_id, 3);
    assert_eq!(handles(&store.reader), vec![2]);
}

#[test]
fn compact_of_an_empty_store() {
    let mut store = empty_store();
    store.writer.compact().unwrap();
    assert_eq!(store.directory().ids(), vec![2, 3]);
    assert_eq!(store.directory().total_bytes(), Some(0));
    assert_eq!(store.writer.current_id, 3);
    assert!(store.writer.reader.readers.is_empty());
    assert_eq!(store.writer.reader.last_id, 3);
}

#[test]
fn no_compaction_where_no_two_ids_are_left() {
    let big = "x".repeat(600 * 1024);
    let mut dir = Directory::new();
    dir.add_segment(u64::MAX - 2, Vec::new());
    let mut store = KvStore::open(dir).unwrap();
    assert_eq!(store.writer.current_id, u64::MAX - 1);
    store.writer.set_at("z".to_owned(), big.clone(), 1).unwrap();
    store.writer.set_at("z".to_owned(), big.clone(), 2).unwrap();
    // a compaction is due, and is left: the mutation succeeds and the stale bytes stay
    // counted
    assert!(store.writer.set_at("z".to_owned(), "last".to_owned(), 3).is_ok());
    assert_eq!(get(&mut store, "z"), Some("last".to_owned()));
    assert_eq!(store.directory().ids(), vec![u64::MAX - 2, u64::MAX - 1]);
    assert_eq!(store.writer.uncompacted_bytes, 2 * 614425);
    assert!(store.writer.remove_at("z".to_owned(), 4).is_ok());
    assert_eq!(get(&mut store, "z"), None);
    assert_eq!(store.writer.uncompacted_bytes, 2 * 614425 + 25 + 29);
    assert_eq!(store.writer.current_id, u64::MAX - 1);
    assert!(matches!(store.writer.compact(), Err(Error::SegmentIdOverflow)));
}

#[test]
fn reopen_reads_the_same() {
    let mut store = empty_store();
    store.set("a".to_owned(), "1".to_owned()).unwrap();
    store.set("b".to_owned(), "2".to_owned()).unwrap();
    store.set("a".to_owned(), "3".to_owned()).unwrap();
    store.remove("b".to_owned()).unwrap();
    store.set("c".to_owned(), String::new()).unwrap();
    let dir = store.close();
    let mut store = KvStore::open(dir).unwrap();
    assert_eq!(store.writer.current_id, 2);
    assert_eq!(get(&mut store, "a"), Some("3".to_owned()));
    assert_eq!(get(&mut store, "b"), None);
    assert_eq!(get(&mut store, "c"), None);
    // 26 of `a`, and 26 of `b` displaced by its tombstone
    assert_eq!(store.writer.uncompacted_bytes, 52);
    // recovery keeps the tombstones' locators
    assert!(store.remove("b".to_owned()).is_ok());
}

#[test]
fn crash_in_the_middle_of_a_record_recovers_a_prefix() {
    let mut store = empty_store();
    store.writer.set_at("a".to_owned(), "1".to_owned(), 1).unwrap();
    store.writer.set_at("b".to_owned(), "2".to_owned(), 2).unwrap();
    store.writer.set_at("a".to_owned(), "3".to_owned(), 3).unwrap();
    let whole = store.directory().data(1).unwrap().clone();
    assert_eq!(whole.len(), 78);
    for cut in 0..=whole.len() {
        let mut dir = Directory::new();
        dir.add_segment(1, whole[..cut].to_vec());
        let mut after = KvStore::open(dir).unwrap();
        let records = cut / 26;
        let a = if records >= 3 {
            Some("3".to_owned())
        } else if records >= 1 {
            Some("1".to_owned())
        } else {
            None
        };
        let b = if records >= 2 { Some("2".to_owned()) } else { None };
        assert_eq!(get(&mut after, "a"), a);
        assert_eq!(get(&mut after, "b"), b);
        // writes go to a new segment, behind the torn one
        assert_eq!(after.writer.current_id, 2);
        after.set("b".to_owned(), "9".to_owned()).unwrap();
        let mut again = KvStore::open(after.close()).unwrap();
        assert_eq!(get(&mut again, "b"), Some("9".to_owned()));
    }
}

#[test]
fn thousand_keys_overwritten_and_reopened() {
    let mut store = empty_store();
    for round in 0..2 {
        for i in 0..1000 {
            let mut value = format!("{round}-{i}-");
            while value.len() < 4096 {
                value.push('v');
            }
            store.set(format!("key{i}"), value).unwrap();
            assert!(store.writer.uncompacted_bytes <= 1 << 20);
        }
    }
    assert!(store.writer.current_id > 1);
    let dir = store.close();
    let mut store = KvStore::open(dir).unwrap();
    for i in 0..1000 {
        let value = store.get(format!("key{i}")).unwrap().unwrap();
        assert_eq!(value.len(), 4096);
        assert!(value.starts_with(&format!("1-{i}-")));
    }
    assert!(store.directory().total_bytes().unwrap() <= 5 * (1 << 20) + (1 << 19));
}

#[test]
fn interleaved_sets_and_gets() {
    let mut store = empty_store();
    let mut model: Vec<Option<String>> = vec![None; 1000];
    let mut state: u64 = 0x2545F4914F6CDD1D;
    for step in 0..110_000u64 {
        state ^= state << 13;
        state ^= state >> 7;
        state ^= state << 17;
        let k = (state % 1000) as usize;
        if step % 11 == 0 {
            let value = format!("value-{step}");
            store.set(format!("key{k}"), value.clone()).unwrap();
            model[k] = Some(value);
        } else if step % 1013 == 0 {
            let r = store.remove(format!("key{k}"));
            assert_eq!(r.is_ok(), model[k].is_some());
            model[k] = None;
        } else {
            assert_eq!(store.get(format!("key{k}")).unwrap(), model[k]);
        }
    }
}

#[test]
fn pools_of_two_clones_read_beside_each_other() {
    let mut dir = Directory::new();
    dir.add_segment(2, record("a", "1", 1));
    dir.add_segment(5, record("b", "2", 2));
    let store = KvStore::open(dir).unwrap();
    let mut first = store.reader.clone();
    let mut second = store.reader.clone();
    assert_eq!(store.writer.get(&mut first, "a".to_owned()).unwrap(), Some("1".to_owned()));
    assert_eq!(store.writer.get(&mut second, "b".to_owned()).unwrap(), Some("2".to_owned()));
    assert_eq!(store.writer.get(&mut second, "a".to_owned()).unwrap(), Some("1".to_owned()));
    assert_eq!(store.writer.get(&mut first, "c".to_owned()).unwrap(), None);
    assert_eq!(handles(&first), vec![2]);
    assert_eq!(handles(&second), vec![2, 5]);
    assert!(store.reader.readers.is_empty());
}

fn indexed_bytes(store: &KvStore) -> u64 {
    store.writer.index.iter().map(|e| e.value().sz).sum()
}

#[test]
fn directory_holds_indexed_and_stale_bytes() {
    let big = "x".repeat(300 * 1024);
    let mut store = empty_store();
    let mut step: i64 = 0;
    for round in 0..6 {
        for i in 0..5 {
            step += 1;
            let value = if (i + round) % 3 == 0 { String::new() } else { big.clone() };
            store.writer.set_at(format!("key{i}"), value, step).unwrap();
            if (i + round) % 4 == 1 {
                step += 1;
                store.writer.remove_at(format!("key{i}"), step).unwrap();
            }
            let total = store.directory().total_bytes().unwrap();
            assert_eq!(total, indexed_bytes(&store) + store.writer.uncompacted_bytes);
            assert!(store.writer.uncompacted_bytes <= 1 << 20);
            assert!(total <= indexed_bytes(&store) + (1 << 20));
        }
    }
    // compactions have run
    assert!(store.writer.current_id > 1);
}
