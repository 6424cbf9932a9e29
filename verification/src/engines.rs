use crate::error::Error;
use vstd::prelude::*;

pub mod kvs;
pub mod sled;

pub use crate::engines::kvs::KvStore;
pub use crate::engines::sled::SledStore;

verus! {

/// A key/value store engine.
///
/// What a call makes of the engine and answers is for the engine to say: each engine
/// states it in the three relations, and each method ensures its relation.
pub trait KvsEngine {
    /// What the engine asks of its own state before each call, and keeps.
    spec fn valid(&self) -> bool;

    /// The engine is what `set` of `key` to `value` makes of `before`, with the answer
    /// `r`.
    spec fn set_to(
        &self,
        before: &Self,
        key: Seq<char>,
        value: Seq<char>,
        r: Result<(), Error>,
    ) -> bool;

    /// The engine is what `get` of `key` makes of `before`, with the answer `r`.
    spec fn got_from(&self, before: &Self, key: Seq<char>, r: Result<Option<String>, Error>) -> bool;

    /// The engine is what `remove` of `key` makes of `before`, with the answer `r`.
    spec fn removed_of(&self, before: &Self, key: Seq<char>, r: Result<(), Error>) -> bool;

    /// Sets a `String` key to a `String` value.
    fn set(&mut self, key: String, value: String) -> (r: Result<(), Error>)
        requires
            old(self).valid(),
        ensures
            final(self).valid(),
            final(self).set_to(old(self), key@, value@, r),
    ;

    /// Gets the value of a `String` key.
    fn get(&mut self, key: String) -> (r: Result<Option<String>, Error>)
        requires
            old(self).valid(),
        ensures
            final(self).valid(),
            final(self).got_from(old(self), key@, r),
    ;

    /// Removes a given `String` key.
    fn remove(&mut self, key: String) -> (r: Result<(), Error>)
        requires
            old(self).valid(),
        ensures
            final(self).valid(),
            final(self).removed_of(old(self), key@, r),
    ;
}

} // verus!
