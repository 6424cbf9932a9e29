//! The protocol between client and server: requests, responses, and how a request is
//! answered.

use crate::engines::KvsEngine;
use crate::error::Error;
use vstd::prelude::*;
use vstd::string::StringExecFns;

verus! {

/// Request from client.
#[derive(Debug)]
pub enum Request {
    Put { key: String, value: String },
    Get { key: String },
    Remove { key: String },
}

/// Response from server.
#[derive(Debug)]
pub enum Response {
    Status(String),
}

/// The status that tells of a key without value.
pub open spec fn key_not_found() -> Seq<char> {
    "Key not found"@
}

/// What serving a request comes to: the response to send, if there is one, and the error,
/// if there is one, that ends the connection's requests.
#[derive(Debug)]
pub struct Served {
    pub response: Option<Response>,
    pub failure: Option<Error>,
}

/// `r` is the answer to a `Put` on which the engine said `outcome`: the empty status,
/// whether or not the value was set, and the engine's error beside it.
pub open spec fn answers_put(r: Served, outcome: Result<(), Error>) -> bool {
    &&& r.response matches Some(Response::Status(s)) && s@.len() == 0
    &&& r.failure == match outcome {
        Ok(()) => None,
        Err(e) => Some(e),
    }
}

/// `r` is the answer to a `Get` on which the engine said `outcome`: the value on a hit,
/// `Key not found` on a miss; for an error nothing is sent, and the error is handed on.
pub open spec fn answers_get(r: Served, outcome: Result<Option<String>, Error>) -> bool {
    match outcome {
        Ok(Some(value)) => r.response == Some(Response::Status(value)) && r.failure is None,
        Ok(None) => r.response matches Some(Response::Status(s)) && s@ == key_not_found()
            && r.failure is None,
        Err(e) => r.response is None && r.failure == Some(e),
    }
}

/// `r` is the answer to a `Remove` on which the engine said `outcome`: the empty status
/// once the key is removed, `Key not found` where it had no entry; for any other error
/// nothing is sent, and the error is handed on.
pub open spec fn answers_remove(r: Served, outcome: Result<(), Error>) -> bool {
    match outcome {
        Ok(()) => r.response matches Some(Response::Status(s)) && s@.len() == 0
            && r.failure is None,
        Err(Error::NonexistentKey) => r.response matches Some(Response::Status(s)) && s@
            == key_not_found() && r.failure is None,
        Err(e) => r.response is None && r.failure == Some(e),
    }
}

/// The answer to a `Put`, given what the engine said: the empty status, whether or not
/// the value was set. An error of the engine is handed on beside it.
pub fn reply_to_put(outcome: Result<(), Error>) -> (r: Served)
    ensures
        answers_put(r, outcome),
{
    let response = Some(Response::Status(String::new()));
    match outcome {
        Ok(()) => Served { response, failure: None },
        Err(e) => Served { response, failure: Some(e) },
    }
}

/// The answer to a `Get`, given what the engine said: the value on a hit, `Key not found`
/// on a miss. For an error of the engine nothing is sent, and the error is handed on.
pub fn reply_to_get(outcome: Result<Option<String>, Error>) -> (r: Served)
    ensures
        answers_get(r, outcome),
{
    match outcome {
        Ok(Some(value)) => Served { response: Some(Response::Status(value)), failure: None },
        Ok(None) => Served {
            response: Some(Response::Status(String::from_str("Key not found"))),
            failure: None,
        },
        Err(e) => Served { response: None, failure: Some(e) },
    }
}

/// The answer to a `Remove`, given what the engine said: the empty status once the key is
/// removed, `Key not found` where it had no entry. For any other error nothing is sent,
/// and the error is handed on.
pub fn reply_to_remove(outcome: Result<(), Error>) -> (r: Served)
    ensures
        answers_remove(r, outcome),
{
    match outcome {
        Ok(()) => Served { response: Some(Response::Status(String::new())), failure: None },
        Err(Error::NonexistentKey) => Served {
            response: Some(Response::Status(String::from_str("Key not found"))),
            failure: None,
        },
        Err(e) => Served { response: None, failure: Some(e) },
    }
}

/// Serves one request on the engine: the request's operation is called once on the
/// engine, with the request's key and value, and the engine's answer decides the response
/// to send and the error, if any, that ends the connection's requests.
pub fn process<E: KvsEngine>(store: &mut E, request: Request) -> (r: Served)
    requires
        old(store).valid(),
    ensures
        final(store).valid(),
        request matches Request::Put { key, value } ==> exists|outcome: Result<(), Error>|
            #[trigger] answers_put(r, outcome) && final(store).set_to(
                old(store),
                key@,
                value@,
                outcome,
            ),
        request matches Request::Get { key } ==> exists|outcome: Result<Option<String>, Error>|
            #[trigger] answers_get(r, outcome) && final(store).got_from(old(store), key@, outcome),
        request matches Request::Remove { key } ==> exists|outcome: Result<(), Error>|
            #[trigger] answers_remove(r, outcome) && final(store).removed_of(
                old(store),
                key@,
                outcome,
            ),
        request is Put ==> (r.response matches Some(Response::Status(s)) && s@.len() == 0),
        request is Get ==> (r.response is Some <==> r.failure is None),
        request is Remove ==> (r.response is Some <==> r.failure is None),
        request is Remove ==> (r.response matches Some(Response::Status(s)) ==> s@.len() == 0
            || s@ == key_not_found()),
{
    match request {
        Request::Put { key, value } => reply_to_put(store.set(key, value)),
        Request::Get { key } => reply_to_get(store.get(key)),
        Request::Remove { key } => reply_to_remove(store.remove(key)),
    }
}

/// Whether a client takes the status of a `Remove` for a failure: any status but the
/// empty one.
pub fn remove_failed(status: &String) -> (failed: bool)
    ensures
        failed == (status@.len() > 0),
{
    !status.as_str().is_empty()
}

/// The engines that a server can run.
#[derive(Clone, Copy, Debug, PartialEq, Eq, Structural)]
pub enum Engine {
    Kvs,
    Sled,
}

impl Engine {
    /// The engine's name, as it is written in the `identity` file.
    pub open spec fn spec_name(self) -> Seq<char> {
        match self {
            Engine::Kvs => "kvs"@,
            Engine::Sled => "sled"@,
        }
    }

    /// The engine's name.
    pub fn name(self) -> (text: String)
        ensures
            text@ == self.spec_name(),
    {
        match self {
            Engine::Kvs => String::from_str("kvs"),
            Engine::Sled => String::from_str("sled"),
        }
    }

    /// The engine of this name: `kvs` or `sled`, and nothing for any other name.
    pub fn from_name(name: &String) -> (r: Option<Engine>)
        ensures
            r == if name@ == "kvs"@ {
                Some(Engine::Kvs)
            } else if name@ == "sled"@ {
                Some(Engine::Sled)
            } else {
                None
            },
    {
        if *name == String::from_str("kvs") {
            Some(Engine::Kvs)
        } else if *name == String::from_str("sled") {
            Some(Engine::Sled)
        } else {
            None
        }
    }
}

/// What to do about the identity of a data directory, given the text of its `identity`
/// file if it has one and the name of the engine that is to run.
///
/// Without a file the directory is new, and the answer is the text to write: the engine's
/// name. With a file that names this engine there is nothing to write. With a file that
/// names another the answer is `EngineMismatch`.
pub fn identify_engine(stored: Option<&String>, current: &String) -> (r: Result<
    Option<String>,
    Error,
>)
    ensures
        match stored {
            None => r matches Ok(Some(text)) && text@ == current@,
            Some(id) => if id@ == current@ {
                r matches Ok(None)
            } else {
                r matches Err(Error::EngineMismatch)
            },
        },
{
    match stored {
        None => Ok(Some(current.clone())),
        Some(id) => {
            if *id == *current {
                Ok(None)
            } else {
                Err(Error::EngineMismatch)
            }
        },
    }
}

} // verus!
