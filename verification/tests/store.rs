use crossbeam_skiplist::SkipMap;
use kvs::engines::kvs::directory::Directory;
use kvs::engines::kvs::record::{Entry, EntryPos};
use kvs::engines::kvs::store::{
    generate_index, new_entry_writer, DataReader, COMPACTION_THRESHOLD_BYTES,
};
use kvs::engines::kvs::sync::{file_len, FileLen, FileOp};
use kvs::{Error, KvStore};

fn record(key: &str, value: &str, timestamp: i64) -> Vec<u8> {
    Entry::with_timestamp(key.to_owned(), value.to_owned(), timestamp).encode()
}

fn handles(reader: &DataReader) -> Vec<u64> {
    reader.readers.keys().copied().collect()
}

fn hold(reader: &mut DataReader, ids: &[u64]) {
    reader.readers = ids.iter().map(|id| (*id, ())).collect();
}

fn locator_of(index: &SkipMap<String, EntryPos>, key: &str) -> Option<EntryPos> {
    index.get(key).map(|e| *e.value())
}

#[test]
fn threshold_is_one_mebibyte() {
    assert_eq!(COMPACTION_THRESHOLD_BYTES, 1 << 20);
}

#[test]
fn directory_keeps_segments_by_ascending_id() {
    let mut dir = Directory::new();
    assert_eq!(dir.len(), 0);
    assert_eq!(dir.last_id(), None);
    assert!(dir.add_segment(3, vec![1, 2]));
    assert!(dir.add_segment(5, vec![3]));
    assert!(!dir.add_segment(5, vec![9]));
    assert!(!dir.add_segment(4, vec![9]));
    assert_eq!(dir.ids(), vec![3, 5]);
    assert_eq!(dir.last_id(), Some(5));
    assert_eq!(dir.place(3), Some(0));
    assert_eq!(dir.place(5), Some(1));
    assert_eq!(dir.place(4), None);
    assert_eq!(dir.data(3), Some(&vec![1u8, 2]));
    assert_eq!(dir.data(5), Some(&vec![3u8]));
    assert_eq!(dir.data(9), None);
    assert_eq!(dir.total_bytes(), Some(3));
}

#[test]
fn directory_appends_to_the_last_segment() {
    let mut dir = Directory::new();
    let e = Entry::with_timestamp("k".to_owned(), "v".to_owned(), 9);
    assert_eq!(dir.append_entry(&e), None);
    dir.add_segment(1, vec![0; 4]);
    dir.add_segment(2, vec![0; 10]);
    let p = dir.append_entry(&e).unwrap();
    assert_eq!(p, EntryPos { file_id: 2, pos: 10, sz: 26, timestamp: 9 });
    assert_eq!(dir.data(1).unwrap().len(), 4);
    assert_eq!(dir.data(2).unwrap().len(), 36);
    assert_eq!(&dir.data(2).unwrap()[10..], &record("k", "v", 9)[..]);
}

#[test]
fn directory_remove_below_drops_the_lower_ids() {
    let mut dir = Directory::new();
    for id in [1u64, 2, 5, 8] {
        dir.add_segment(id, vec![id as u8]);
    }
    dir.remove_below(5);
    assert_eq!(dir.ids(), vec![5, 8]);
    dir.remove_below(5);
    assert_eq!(dir.ids(), vec![5, 8]);
    dir.remove_below(100);
    assert_eq!(dir.ids(), Vec::<u64>::new());
}

#[test]
fn new_entry_writer_opens_or_creates_the_last_segment() {
    let mut dir = Directory::new();
    assert!(new_entry_writer(&mut dir, 1).is_ok());
    assert_eq!(dir.ids(), vec![1]);
    assert_eq!(dir.data(1).unwrap().len(), 0);
    dir.append_entry(&Entry::with_timestamp("k".to_owned(), "v".to_owned(), 1));
    // opening the last segment again leaves what it holds
    assert!(new_entry_writer(&mut dir, 1).is_ok());
    assert_eq!(dir.data(1).unwrap().len(), 26);
    assert!(new_entry_writer(&mut dir, 4).is_ok());
    assert_eq!(dir.ids(), vec![1, 4]);
    assert!(matches!(new_entry_writer(&mut dir, 1), Err(Error::SealedSegment(1))));
    assert!(matches!(new_entry_writer(&mut dir, 2), Err(Error::SealedSegment(2))));
    assert_eq!(dir.ids(), vec![1, 4]);
}

#[test]
fn generate_index_enters_records_and_counts_displaced_bytes() {
    let mut data = record("a", "1", 10);
    data.extend_from_slice(&record("b", "22", 11));
    data.extend_from_slice(&record("a", "333", 12));
    data.extend_from_slice(&record("b", "", 13));
    let mut index: SkipMap<String, EntryPos> = SkipMap::new();
    let stale = generate_index(&data, 6, &mut index);
    // displaced: the first record of `a` (26 bytes) and the first of `b` (27 bytes)
    assert_eq!(stale, 26 + 27);
    assert_eq!(index.len(), 2);
    assert_eq!(
        locator_of(&index, "a"),
        Some(EntryPos { file_id: 6, pos: 53, sz: 28, timestamp: 12 })
    );
    assert_eq!(
        locator_of(&index, "b"),
        Some(EntryPos { file_id: 6, pos: 81, sz: 25, timestamp: 13 })
    );
}

#[test]
fn generate_index_displaces_entries_of_earlier_segments() {
    let mut index: SkipMap<String, EntryPos> = SkipMap::new();
    assert_eq!(generate_index(&record("a", "1", 1), 1, &mut index), 0);
    assert_eq!(generate_index(&record("a", "22", 2), 2, &mut index), 26);
    assert_eq!(
        locator_of(&index, "a"),
        Some(EntryPos { file_id: 2, pos: 0, sz: 27, timestamp: 2 })
    );
}

#[test]
fn generate_index_passes_over_a_partial_tail() {
    let whole = record("a", "1", 10);
    let next = record("b", "22", 11);
    for cut in 0..next.len() {
        let mut data = whole.clone();
        data.extend_from_slice(&next[..cut]);
        let mut index: SkipMap<String, EntryPos> = SkipMap::new();
        assert_eq!(generate_index(&data, 1, &mut index), 0);
        assert_eq!(index.len(), 1);
        assert_eq!(
            locator_of(&index, "a"),
            Some(EntryPos { file_id: 1, pos: 0, sz: 26, timestamp: 10 })
        );
    }
}

#[test]
fn generate_index_stops_at_bytes_that_are_no_record() {
    let mut data = record("a", "1", 10);
    let mut bad = record("b", "2", 11);
    bad[24] = 0xff;
    data.extend_from_slice(&bad);
    data.extend_from_slice(&record("c", "3", 12));
    let mut index: SkipMap<String, EntryPos> = SkipMap::new();
    assert_eq!(generate_index(&data, 1, &mut index), 0);
    assert_eq!(index.len(), 1);
    assert!(index.contains_key("a"));
}

#[test]
fn generate_index_of_nothing() {
    let mut index: SkipMap<String, EntryPos> = SkipMap::new();
    assert_eq!(generate_index(&[], 1, &mut index), 0);
    assert!(index.is_empty());
}

#[test]
fn reader_evicts_handles_below_the_watermark() {
    let mut reader = DataReader::new();
    assert_eq!(reader.last_id, 0);
    hold(&mut reader, &[7, 1, 9, 3, 5]);
    reader.last_id = 5;
    reader.remove_redundancy();
    assert_eq!(handles(&reader), vec![5, 7, 9]);
    assert_eq!(reader.last_id, 5);
    reader.last_id = 100;
    reader.remove_redundancy();
    assert!(reader.readers.is_empty());
}

#[test]
fn reader_opens_a_handle_once() {
    let mut dir = Directory::new();
    dir.add_segment(1, record("a", "1", 10));
    dir.add_segment(2, record("b", "2", 11));
    let mut reader = DataReader::new();
    let p = EntryPos { file_id: 2, pos: 0, sz: 26, timestamp: 11 };
    assert_eq!(reader.check_availability(&dir, &p).unwrap(), &record("b", "2", 11));
    assert_eq!(handles(&reader), vec![2]);
    assert!(reader.check_availability(&dir, &p).is_ok());
    assert_eq!(handles(&reader), vec![2]);
    // a handle that is opened takes its place in the order of the ids
    let first = EntryPos { file_id: 1, pos: 0, sz: 26, timestamp: 10 };
    assert!(reader.check_availability(&dir, &first).is_ok());
    assert_eq!(handles(&reader), vec![1, 2]);
    let missing = EntryPos { file_id: 3, pos: 0, sz: 26, timestamp: 11 };
    assert!(matches!(reader.check_availability(&dir, &missing), Err(Error::MissingSegment(3))));
    assert_eq!(handles(&reader), vec![1, 2]);
}

#[test]
fn reader_locates_value_and_entry() {
    let mut data = record("a", "1", 10);
    data.extend_from_slice(&record("b", "22", 11));
    let mut dir = Directory::new();
    dir.add_segment(1, vec![]);
    dir.add_segment(4, data);
    let mut reader = DataReader::new();
    hold(&mut reader, &[1, 2]);
    reader.last_id = 2;
    let p = EntryPos { file_id: 4, pos: 26, sz: 27, timestamp: 11 };
    assert_eq!(reader.locate_value(&dir, &p).unwrap(), (11, "22".to_owned()));
    assert_eq!(handles(&reader), vec![2, 4]);
    let e = reader.locate_entry(&dir, &EntryPos { file_id: 4, pos: 0, sz: 26, timestamp: 10 }).unwrap();
    assert_eq!((e.key.as_str(), e.value.as_str(), e.timestamp), ("a", "1", 10));
    // an offset in the middle of a record, or past the end
    let off = EntryPos { file_id: 4, pos: 1, sz: 26, timestamp: 10 };
    assert!(matches!(reader.locate_value(&dir, &off), Err(Error::CorruptLog)));
    let past = EntryPos { file_id: 4, pos: u64::MAX, sz: 26, timestamp: 10 };
    assert!(matches!(reader.locate_entry(&dir, &past), Err(Error::CorruptLog)));
    let gone = EntryPos { file_id: 9, pos: 0, sz: 26, timestamp: 10 };
    assert!(matches!(reader.locate_value(&dir, &gone), Err(Error::MissingSegment(9))));
    assert!(matches!(reader.locate_entry(&dir, &gone), Err(Error::MissingSegment(9))));
}

#[test]
fn cloned_reader_has_the_watermark_and_no_handles() {
    let mut reader = DataReader::new();
    hold(&mut reader, &[4, 5]);
    reader.last_id = 4;
    let other = reader.clone();
    assert!(other.readers.is_empty());
    assert_eq!(other.last_id, 4);
    assert_eq!(handles(&reader), vec![4, 5]);
}

#[test]
fn sync_plan_brings_files_up_to_segments() {
    let mut dir = Directory::new();
    dir.add_segment(2, vec![1, 2, 3]);
    dir.add_segment(3, vec![4, 5]);
    dir.add_segment(5, vec![]);
    dir.add_segment(7, vec![6]);
    let files = vec![
        FileLen { id: 1, len: 10 },
        FileLen { id: 3, len: 2 },
        FileLen { id: 2, len: 1 },
        FileLen { id: 7, len: 4 },
        FileLen { id: 9, len: 0 },
    ];
    assert_eq!(file_len(&files, 2), Some(1));
    assert_eq!(file_len(&files, 4), None);
    assert_eq!(
        dir.sync_plan(&files),
        vec![
            FileOp::Append { id: 2, from: 1 },
            FileOp::Append { id: 5, from: 0 },
            FileOp::Remove { id: 7 },
            FileOp::Append { id: 7, from: 0 },
            FileOp::Remove { id: 1 },
            FileOp::Remove { id: 9 },
        ]
    );
    assert_eq!(Directory::new().sync_plan(&Vec::new()), Vec::<FileOp>::new());
}

#[test]
fn sync_plan_after_writes_and_compaction() {
    let big = "x".repeat(600 * 1024);
    let mut store = KvStore::open(Directory::new()).unwrap();
    assert_eq!(store.directory().sync_plan(&Vec::new()), vec![FileOp::Append { id: 1, from: 0 }]);
    store.writer.set_at("z".to_owned(), big.clone(), 1).unwrap();
    store.writer.set_at("z".to_owned(), big.clone(), 2).unwrap();
    let files = vec![FileLen { id: 1, len: 614425 }];
    assert_eq!(store.directory().sync_plan(&files), vec![FileOp::Append { id: 1, from: 614425 }]);
    store.writer.set_at("z".to_owned(), big, 3).unwrap();
    let files = vec![FileLen { id: 1, len: 2 * 614425 }];
    assert_eq!(
        store.directory().sync_plan(&files),
        vec![
            FileOp::Append { id: 2, from: 0 },
            FileOp::Append { id: 3, from: 0 },
            FileOp::Remove { id: 1 },
        ]
    );
}
