//! The store of the `sled` crate behind the engine's interface, for comparison.

use crate::engines::kvs::record::string_from_utf8;
use crate::engines::KvsEngine;
use crate::error::Error;
use vstd::prelude::*;
use vstd::utf8::{decode_utf8, valid_utf8};

verus! {

/// `Db` of sled, as a type that is carried and not looked into.
#[verifier::external_type_specification]
#[verifier::external_body]
pub struct ExSledDb(sled::Db);

/// `sled` as a key/value store engine.
pub struct SledStore(pub sled::Db);

/// `sled::open`: the database at the path, made where there is none. What comes back
/// depends on the disk. An error comes as sled's text for it.
#[verifier::external_body]
fn db_open(path: &str) -> Result<sled::Db, String> {
    sled::open(path).map_err(|e| e.to_string())
}

/// `Tree::insert` of sled: stores the value under the key and gives the bytes that the
/// key had. What comes back depends on the database.
#[verifier::external_body]
fn db_insert(db: &sled::Db, key: String, value: Vec<u8>) -> Result<Option<Vec<u8>>, String> {
    db.insert(key, value).map(|old| old.map(|bytes| bytes.to_vec())).map_err(|e| e.to_string())
}

/// `Tree::get` of sled: the bytes stored under the key. What comes back depends on the
/// database.
#[verifier::external_body]
fn db_get(db: &sled::Db, key: String) -> Result<Option<Vec<u8>>, String> {
    db.get(key).map(|found| found.map(|bytes| bytes.to_vec())).map_err(|e| e.to_string())
}

/// `Tree::remove` of sled: deletes the key and gives the bytes that it had. What comes
/// back depends on the database.
#[verifier::external_body]
fn db_remove(db: &sled::Db, key: String) -> Result<Option<Vec<u8>>, String> {
    db.remove(key).map(|old| old.map(|bytes| bytes.to_vec())).map_err(|e| e.to_string())
}

/// `Tree::flush` of sled: writes what is buffered to disk and gives the number of bytes
/// written.
#[verifier::external_body]
fn db_flush(db: &sled::Db) -> Result<usize, String> {
    db.flush().map_err(|e| e.to_string())
}

impl SledStore {
    /// Opens a database with the default configuration at the given directory. Whether
    /// it opens is for sled and the disk to say; an error is sled's.
    pub fn open(path: &str) -> (r: Result<SledStore, Error>)
        ensures
            r matches Err(e) ==> e is Sled,
    {
        SledStore::opened(db_open(path))
    }

    /// What `open` makes of sled's answer: the store on the database, or sled's error.
    pub fn opened(answer: Result<sled::Db, String>) -> (r: Result<SledStore, Error>)
        ensures
            match answer {
                Ok(db) => r matches Ok(store) && store.0 == db,
                Err(text) => r matches Err(Error::Sled(t)) && t == text,
            },
    {
        match answer {
            Ok(db) => Ok(SledStore(db)),
            Err(text) => Err(Error::Sled(text)),
        }
    }

    /// What `set` makes of sled's answer to the insertion: the value that the key had
    /// does not matter, and an error is sled's.
    pub fn stored(answer: Result<Option<Vec<u8>>, String>) -> (r: Result<(), Error>)
        ensures
            match answer {
                Ok(_) => r is Ok,
                Err(text) => r matches Err(Error::Sled(t)) && t == text,
            },
    {
        match answer {
            Ok(_) => Ok(()),
            Err(text) => Err(Error::Sled(text)),
        }
    }

    /// What a mutation makes of sled's answer to the flush behind it: the number of
    /// bytes written does not matter, and an error is sled's.
    pub fn flushed(answer: Result<usize, String>) -> (r: Result<(), Error>)
        ensures
            match answer {
                Ok(_) => r is Ok,
                Err(text) => r matches Err(Error::Sled(t)) && t == text,
            },
    {
        match answer {
            Ok(_) => Ok(()),
            Err(text) => Err(Error::Sled(text)),
        }
    }

    /// What `get` makes of sled's answer: the text of the bytes found, nothing where the
    /// key has no value, `Utf8` where the bytes are no text, and otherwise sled's error.
    pub fn found(answer: Result<Option<Vec<u8>>, String>) -> (r: Result<Option<String>, Error>)
        ensures
            match answer {
                Ok(None) => r matches Ok(None),
                Ok(Some(bytes)) => if valid_utf8(bytes@) {
                    r matches Ok(Some(value)) && value@ == decode_utf8(bytes@)
                } else {
                    r matches Err(Error::Utf8)
                },
                Err(text) => r matches Err(Error::Sled(t)) && t == text,
            },
    {
        match answer {
            Ok(found) => SledStore::value_of(found),
            Err(text) => Err(Error::Sled(text)),
        }
    }

    /// What `remove` makes of sled's answer to the deletion: `NonexistentKey` where the
    /// key had no value, and otherwise sled's error.
    pub fn removed(answer: Result<Option<Vec<u8>>, String>) -> (r: Result<(), Error>)
        ensures
            match answer {
                Ok(None) => r matches Err(Error::NonexistentKey),
                Ok(Some(_)) => r is Ok,
                Err(text) => r matches Err(Error::Sled(t)) && t == text,
            },
    {
        match answer {
            Ok(previous) => SledStore::removal_of(previous),
            Err(text) => Err(Error::Sled(text)),
        }
    }

    /// The value that stored bytes stand for: their text, and `Utf8` where they are no
    /// text.
    pub fn value_of(found: Option<Vec<u8>>) -> (r: Result<Option<String>, Error>)
        ensures
            match found {
                None => r matches Ok(None),
                Some(bytes) => if valid_utf8(bytes@) {
                    r matches Ok(Some(value)) && value@ == decode_utf8(bytes@)
                } else {
                    r matches Err(Error::Utf8)
                },
            },
    {
        match found {
            None => Ok(None),
            Some(bytes) => match string_from_utf8(bytes) {
                Some(value) => Ok(Some(value)),
                None => Err(Error::Utf8),
            },
        }
    }

    /// Whether a removal found its key: `NonexistentKey` where the key had no value.
    pub fn removal_of(previous: Option<Vec<u8>>) -> (r: Result<(), Error>)
        ensures
            match previous {
                None => r matches Err(Error::NonexistentKey),
                Some(_) => r is Ok,
            },
    {
        match previous {
            None => Err(Error::NonexistentKey),
            Some(_) => Ok(()),
        }
    }
}

impl KvsEngine for SledStore {
    open spec fn valid(&self) -> bool {
        true
    }

    /// Whether the value is stored is for sled to say; an error is sled's.
    open spec fn set_to(
        &self,
        before: &Self,
        key: Seq<char>,
        value: Seq<char>,
        r: Result<(), Error>,
    ) -> bool {
        r matches Err(e) ==> e is Sled
    }

    /// What is stored is for sled to say; an error is sled's, or `Utf8` where the bytes
    /// stored are no text.
    open spec fn got_from(
        &self,
        before: &Self,
        key: Seq<char>,
        r: Result<Option<String>, Error>,
    ) -> bool {
        r matches Err(e) ==> e is Sled || e is Utf8
    }

    /// Whether the key had a value is for sled to say; an error is `NonexistentKey` where
    /// it had none, and otherwise sled's.
    open spec fn removed_of(&self, before: &Self, key: Seq<char>, r: Result<(), Error>) -> bool {
        r matches Err(e) ==> e is Sled || e is NonexistentKey
    }

    /// Stores the value's bytes under the key and flushes.
    fn set(&mut self, key: String, value: String) -> (r: Result<(), Error>) {
        let bytes = vstd::slice::slice_to_vec(value.as_str().as_bytes());
        match SledStore::stored(db_insert(&self.0, key, bytes)) {
            Ok(()) => SledStore::flushed(db_flush(&self.0)),
            Err(e) => Err(e),
        }
    }

    /// The text stored under the key.
    fn get(&mut self, key: String) -> (r: Result<Option<String>, Error>) {
        SledStore::found(db_get(&self.0, key))
    }

    /// Deletes the key and flushes.
    fn remove(&mut self, key: String) -> (r: Result<(), Error>) {
        match SledStore::removed(db_remove(&self.0, key)) {
            Ok(()) => SledStore::flushed(db_flush(&self.0)),
            Err(e) => Err(e),
        }
    }
}

} // verus!
