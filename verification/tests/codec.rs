use kvs::engines::kvs::record::{
    append_entry, read_entry, read_header, read_value_at, Entry, EntryPos, HEADER_LEN,
};
use kvs::Error;

fn sample_bytes() -> Vec<u8> {
    let mut bytes: Vec<u8> = Vec::new();
    bytes.extend_from_slice(&[1, 0, 0, 0, 0, 0, 0, 0]);
    bytes.extend_from_slice(&[1, 0, 0, 0, 0, 0, 0, 0]);
    bytes.extend_from_slice(&[2, 0, 0, 0, 0, 0, 0, 0]);
    bytes.extend_from_slice(b"k");
    bytes.extend_from_slice(b"v1");
    bytes
}

#[test]
fn encode_lays_out_header_key_value() {
    let e = Entry::with_timestamp("k".to_owned(), "v1".to_owned(), 1);
    assert_eq!(e.encode(), sample_bytes());
}

#[test]
fn encode_is_little_endian() {
    let e = Entry::with_timestamp(String::new(), String::new(), 0x0102030405060708);
    let bytes = e.encode();
    assert_eq!(bytes.len(), HEADER_LEN);
    assert_eq!(&bytes[0..8], &[8, 7, 6, 5, 4, 3, 2, 1]);
    assert_eq!(&bytes[8..24], &[0u8; 16]);
}

#[test]
fn encode_negative_timestamp() {
    let e = Entry::with_timestamp("a".to_owned(), "b".to_owned(), -2);
    let bytes = e.encode();
    assert_eq!(&bytes[0..8], &[0xfe, 0xff, 0xff, 0xff, 0xff, 0xff, 0xff, 0xff]);
    let (back, next) = read_entry(&bytes, 0).unwrap();
    assert_eq!(back.timestamp, -2);
    assert_eq!(next, 26);
}

#[test]
fn decode_of_encode_is_identity() {
    let e = Entry::with_timestamp("schlüssel".to_owned(), "wert ✓".to_owned(), 1_700_000_000);
    let bytes = e.encode();
    let (back, next) = read_entry(&bytes, 0).unwrap();
    assert_eq!(back.key, "schlüssel");
    assert_eq!(back.value, "wert ✓");
    assert_eq!(back.timestamp, 1_700_000_000);
    assert_eq!(next, bytes.len());
    assert_eq!(bytes.len(), 24 + "schlüssel".len() + "wert ✓".len());
}

#[test]
fn encode_of_decode_is_identity() {
    let bytes = sample_bytes();
    let (e, next) = read_entry(&bytes, 0).unwrap();
    assert_eq!(next, 27);
    assert_eq!(e.encode(), bytes);
}

#[test]
fn read_entry_at_offset() {
    let mut data = vec![0xffu8; 3];
    data.extend_from_slice(&sample_bytes());
    data.extend_from_slice(&[9, 9]);
    let (e, next) = read_entry(&data, 3).unwrap();
    assert_eq!(e.key, "k");
    assert_eq!(e.value, "v1");
    assert_eq!(e.timestamp, 1);
    assert_eq!(next, 30);
}

#[test]
fn read_entry_short_header_is_corrupt() {
    let bytes = sample_bytes();
    assert!(matches!(read_entry(&bytes[..23], 0), Err(Error::CorruptLog)));
    assert!(matches!(read_entry(&bytes, 27), Err(Error::CorruptLog)));
    assert!(matches!(read_entry(&bytes, 1000), Err(Error::CorruptLog)));
    assert!(matches!(read_entry(&[], 0), Err(Error::CorruptLog)));
}

#[test]
fn read_entry_short_body_is_corrupt() {
    let bytes = sample_bytes();
    assert!(matches!(read_entry(&bytes[..26], 0), Err(Error::CorruptLog)));
    assert!(matches!(read_entry(&bytes[..24], 0), Err(Error::CorruptLog)));
}

#[test]
fn read_entry_huge_length_is_corrupt() {
    let mut bytes = sample_bytes();
    for b in bytes[8..16].iter_mut() {
        *b = 0xff;
    }
    assert!(matches!(read_entry(&bytes, 0), Err(Error::CorruptLog)));
    assert!(read_header(&bytes, 0).is_none());
}

#[test]
fn read_entry_rejects_invalid_utf8() {
    let mut bad_key = sample_bytes();
    bad_key[24] = 0xff;
    assert!(matches!(read_entry(&bad_key, 0), Err(Error::CorruptLog)));
    let mut bad_value = sample_bytes();
    bad_value[26] = 0xc0;
    assert!(matches!(read_entry(&bad_value, 0), Err(Error::CorruptLog)));
}

#[test]
fn read_header_gives_lengths() {
    assert_eq!(read_header(&sample_bytes(), 0), Some((1, 1, 2)));
}

#[test]
fn read_value_at_skips_the_key() {
    let mut bytes = sample_bytes();
    assert_eq!(read_value_at(&bytes, 0).unwrap(), (1, "v1".to_owned()));
    // the key is not read, so a key that is no text does not matter
    bytes[24] = 0xff;
    assert_eq!(read_value_at(&bytes, 0).unwrap(), (1, "v1".to_owned()));
    bytes[25] = 0xff;
    assert!(matches!(read_value_at(&bytes, 0), Err(Error::CorruptLog)));
    assert!(matches!(read_value_at(&bytes[..26], 0), Err(Error::CorruptLog)));
}

#[test]
fn append_entry_gives_locator() {
    let mut segment: Vec<u8> = vec![7, 7, 7];
    let e = Entry::with_timestamp("k".to_owned(), "v1".to_owned(), 1);
    let p = append_entry(&mut segment, 4, &e);
    assert_eq!(p, EntryPos { file_id: 4, pos: 3, sz: 27, timestamp: 1 });
    assert_eq!(segment.len(), 30);
    assert_eq!(&segment[3..], &sample_bytes()[..]);
    let q = append_entry(&mut segment, 4, &Entry::with_timestamp("k".to_owned(), String::new(), 5));
    assert_eq!(q, EntryPos { file_id: 4, pos: 30, sz: 25, timestamp: 5 });
}

#[test]
fn tombstone_is_an_empty_value() {
    assert!(Entry::with_timestamp("k".to_owned(), String::new(), 1).is_tombstone());
    assert!(!Entry::with_timestamp("k".to_owned(), " ".to_owned(), 1).is_tombstone());
}

#[test]
fn new_entry_keeps_key_and_value() {
    let e = Entry::new("k".to_owned(), "v".to_owned());
    assert_eq!(e.key, "k");
    assert_eq!(e.value, "v");
    // the clock of this machine is past the year 2001
    assert!(e.timestamp > 1_000_000_000);
}
