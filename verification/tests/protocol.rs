use kvs::common::{
    identify_engine, process, remove_failed, reply_to_get, reply_to_put, reply_to_remove,
    Engine, Request, Response, Served,
};
use kvs::engines::kvs::directory::Directory;
use kvs::{Error, KvStore};

fn status(served: Served) -> String {
    assert!(served.failure.is_none());
    match served.response {
        Some(Response::Status(s)) => s,
        None => panic!("no response"),
    }
}

#[test]
fn replies_follow_the_protocol() {
    assert_eq!(status(reply_to_put(Ok(()))), "");
    assert_eq!(status(reply_to_get(Ok(Some("v".to_owned())))), "v");
    assert_eq!(status(reply_to_get(Ok(None))), "Key not found");
    assert_eq!(status(reply_to_remove(Ok(()))), "");
    assert_eq!(status(reply_to_remove(Err(Error::NonexistentKey))), "Key not found");
}

#[test]
fn a_failed_put_still_answers_with_the_empty_status() {
    let served = reply_to_put(Err(Error::SegmentIdOverflow));
    assert!(matches!(served.response, Some(Response::Status(s)) if s.is_empty()));
    assert!(matches!(served.failure, Some(Error::SegmentIdOverflow)));
}

#[test]
fn other_failures_answer_nothing_and_hand_the_error_on() {
    let served = reply_to_get(Err(Error::MissingSegment(3)));
    assert!(served.response.is_none());
    assert!(matches!(served.failure, Some(Error::MissingSegment(3))));
    let served = reply_to_remove(Err(Error::CorruptLog));
    assert!(served.response.is_none());
    assert!(matches!(served.failure, Some(Error::CorruptLog)));
}

#[test]
fn process_serves_requests_on_an_engine() {
    let mut store = KvStore::open(Directory::new()).unwrap();
    let put = Request::Put { key: "k".to_owned(), value: "v".to_owned() };
    assert_eq!(status(process(&mut store, put)), "");
    assert_eq!(status(process(&mut store, Request::Get { key: "k".to_owned() })), "v");
    assert_eq!(status(process(&mut store, Request::Get { key: "x".to_owned() })), "Key not found");
    assert_eq!(status(process(&mut store, Request::Remove { key: "k".to_owned() })), "");
    assert_eq!(
        status(process(&mut store, Request::Remove { key: "k".to_owned() })),
        "Key not found"
    );
    assert_eq!(status(process(&mut store, Request::Get { key: "k".to_owned() })), "Key not found");
}

#[test]
fn client_takes_a_status_of_remove_for_failure() {
    assert!(!remove_failed(&String::new()));
    assert!(remove_failed(&"Key not found".to_owned()));
}

#[test]
fn identity_of_a_directory() {
    let kvs = "kvs".to_owned();
    let sled = "sled".to_owned();
    assert!(matches!(identify_engine(None, &kvs), Ok(Some(text)) if text == "kvs"));
    assert!(matches!(identify_engine(Some(&kvs), &kvs), Ok(None)));
    assert!(matches!(identify_engine(Some(&sled), &kvs), Err(Error::EngineMismatch)));
    assert!(matches!(identify_engine(Some(&kvs), &sled), Err(Error::EngineMismatch)));
    assert!(matches!(identify_engine(Some(&"kvs\n".to_owned()), &kvs), Err(Error::EngineMismatch)));
}

#[test]
fn errors_in_words() {
    assert_eq!(Error::NonexistentKey.message(), "No such a key");
    assert_eq!(Error::CorruptLog.message(), "corrupt log");
    assert_eq!(Error::Utf8.message(), "value is not UTF-8");
    assert_eq!(Error::MissingSegment(12).message(), "no segment data-12");
    assert_eq!(Error::SealedSegment(0).message(), "sealed segment data-0");
    assert_eq!(Error::SegmentIdOverflow.message(), "no segment id left");
    assert_eq!(Error::EngineMismatch.message(), "data was written by another engine");
    assert_eq!(Error::Sled("io".to_owned()).message(), "io");
}

#[test]
fn engines_by_name() {
    assert_eq!(Engine::from_name(&"kvs".to_owned()), Some(Engine::Kvs));
    assert_eq!(Engine::from_name(&"sled".to_owned()), Some(Engine::Sled));
    assert_eq!(Engine::from_name(&"Kvs".to_owned()), None);
    assert_eq!(Engine::from_name(&String::new()), None);
    assert_eq!(Engine::Kvs.name(), "kvs");
    assert_eq!(Engine::Sled.name(), "sled");
}

#[test]
fn store_serves_requests() {
    let mut store = KvStore::open(Directory::new()).unwrap();
    let put = Request::Put { key: "k".to_owned(), value: "v".to_owned() };
    assert_eq!(status(store.serve(put)), "");
    assert_eq!(status(store.serve(Request::Get { key: "k".to_owned() })), "v");
    assert_eq!(status(store.serve(Request::Get { key: "x".to_owned() })), "Key not found");
    assert_eq!(status(store.serve(Request::Remove { key: "x".to_owned() })), "Key not found");
    assert_eq!(status(store.serve(Request::Remove { key: "k".to_owned() })), "");
    assert_eq!(status(store.serve(Request::Get { key: "k".to_owned() })), "Key not found");
}

#[test]
fn store_serves_a_put_where_no_two_ids_are_left() {
    let big = "x".repeat(600 * 1024);
    let mut dir = Directory::new();
    dir.add_segment(u64::MAX - 2, Vec::new());
    let mut store = KvStore::open(dir).unwrap();
    for _ in 0..3 {
        let put = Request::Put { key: "z".to_owned(), value: big.clone() };
        assert_eq!(status(store.serve(put)), "");
    }
    assert_eq!(status(store.serve(Request::Get { key: "z".to_owned() })), big);
    assert_eq!(status(store.serve(Request::Remove { key: "z".to_owned() })), "");
}
