use kvs::{Error, KvsEngine, SledStore};

// a directory of its own for each run of a test
fn fresh_path(name: &str) -> String {
    let now = std::time::SystemTime::now().duration_since(std::time::UNIX_EPOCH).unwrap();
    format!("/tmp/kvs-test-{name}-{}", now.as_nanos())
}

#[test]
fn sled_store_sets_gets_and_removes() {
    let mut store = SledStore::open(&fresh_path("sled-engine")).unwrap();
    store.set("k".to_owned(), "v1".to_owned()).unwrap();
    store.set("k".to_owned(), "v2".to_owned()).unwrap();
    assert_eq!(store.get("k".to_owned()).unwrap(), Some("v2".to_owned()));
    store.remove("k".to_owned()).unwrap();
    assert_eq!(store.get("k".to_owned()).unwrap(), None);
    assert!(matches!(store.remove("k".to_owned()), Err(Error::NonexistentKey)));
}

#[test]
fn sled_values_are_text() {
    assert!(matches!(SledStore::value_of(None), Ok(None)));
    assert!(matches!(SledStore::value_of(Some(b"abc".to_vec())), Ok(Some(v)) if v == "abc"));
    assert!(matches!(SledStore::value_of(Some("é".as_bytes().to_vec())), Ok(Some(v)) if v == "é"));
    assert!(matches!(SledStore::value_of(Some(vec![0xff, 0x00])), Err(Error::Utf8)));
}

#[test]
fn sled_removal_needs_a_value() {
    assert!(matches!(SledStore::removal_of(None), Err(Error::NonexistentKey)));
    assert!(SledStore::removal_of(Some(Vec::new())).is_ok());
}

#[test]
fn sled_open_hands_on_the_error_of_sled() {
    // a path below a file is no directory
    match SledStore::open("/dev/null/kvs-test") {
        Err(Error::Sled(text)) => assert!(!text.is_empty()),
        Err(e) => panic!("{}", e.message()),
        Ok(_) => panic!("opened"),
    }
}

#[test]
fn sled_answers_become_the_store_s_results() {
    assert!(matches!(SledStore::opened(Err("io".to_owned())), Err(Error::Sled(t)) if t == "io"));
    assert!(SledStore::stored(Ok(None)).is_ok());
    assert!(SledStore::stored(Ok(Some(vec![1]))).is_ok());
    assert!(matches!(SledStore::stored(Err("full".to_owned())), Err(Error::Sled(t)) if t == "full"));
    assert!(SledStore::flushed(Ok(0)).is_ok());
    assert!(SledStore::flushed(Ok(4096)).is_ok());
    assert!(matches!(SledStore::flushed(Err("io".to_owned())), Err(Error::Sled(t)) if t == "io"));
    assert!(matches!(SledStore::found(Ok(None)), Ok(None)));
    assert!(matches!(SledStore::found(Ok(Some(b"v".to_vec()))), Ok(Some(v)) if v == "v"));
    assert!(matches!(SledStore::found(Ok(Some(vec![0xff]))), Err(Error::Utf8)));
    assert!(matches!(SledStore::found(Err("io".to_owned())), Err(Error::Sled(t)) if t == "io"));
    assert!(matches!(SledStore::removed(Ok(None)), Err(Error::NonexistentKey)));
    assert!(SledStore::removed(Ok(Some(Vec::new()))).is_ok());
    assert!(matches!(SledStore::removed(Err("io".to_owned())), Err(Error::Sled(t)) if t == "io"));
}

#[test]
fn sled_store_opened_on_a_database() {
    let db = sled::Config::new().temporary(true).open();
    let mut store = SledStore::opened(db.map_err(|e| e.to_string())).unwrap();
    store.set("a".to_owned(), "1".to_owned()).unwrap();
    assert_eq!(store.get("a".to_owned()).unwrap(), Some("1".to_owned()));
}
