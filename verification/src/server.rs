//! The server's dispatch path, and the engine-marker gate.
//!
//! The accept loop, sockets and the thread pool live outside this crate; a
//! worker hands each decoded request to `handle_request` and sends the
//! returned response back. On startup the server reads the `engine` marker
//! file and follows `process_engine_file`'s decision.

use vstd::prelude::*;
use vstd::string::StringExecFns;

use crate::error::error_message;
use crate::error::KvError;
use crate::kv_store::KvStore;
use crate::protocol::Request;
use crate::protocol::Response;
use crate::text::str_eq;

verus! {

/// Dispatch one request against the engine and build the response.
///
/// A `get` answers the value or its absence; a successful `set` or `rm`
/// answers success with no value; removing an absent key answers the
/// `Key not found` message.
pub fn handle_request(store: &mut KvStore, req: Request) -> (resp: Response)
    requires
        old(store).wf(),
    ensures
        final (store).wf(),
        final (store).log().wf(),
        req matches Request::Get { key } ==> {
            &&& final (store).live() == old(store).live()
            &&& match resp {
                Response::Success(Some(v)) => old(store).live().contains_key(key@) && v@ == old(
                    store,
                ).live()[key@],
                Response::Success(None) => !old(store).live().contains_key(key@),
                Response::Failure(_) => false,
            }
        },
        req matches Request::Put { key, value } ==> {
            &&& final (store).live() == old(store).live().insert(key@, value@)
            &&& resp == Response::Success(None::<String>)
        },
        req matches Request::Rm { key } ==> {
            if old(store).live().contains_key(key@) {
                &&& final (store).live() == old(store).live().remove(key@)
                &&& resp == Response::Success(None::<String>)
            } else {
                &&& final (store).live() == old(store).live()
                &&& (resp matches Response::Failure(m) && m@ == error_message(
                    KvError::KeyNotFound,
                ))
            }
        },
{
    proof {
        old(store).lemma_wf_log();
    }
    match req {
        Request::Get { key } => {
            match store.get(&key) {
                Ok(v) => Response::Success(v),
                Err(e) => Response::Failure(e.message()),
            }
        },
        Request::Put { key, value } => {
            match store.set(key, value) {
                Ok(()) => Response::Success(None),
                Err(e) => Response::Failure(e.message()),
            }
        },
        Request::Rm { key } => {
            match store.remove(key) {
                Ok(()) => Response::Success(None),
                Err(e) => Response::Failure(e.message()),
            }
        },
    }
}

/// The selectable storage engines.
#[derive(Clone, Copy, Debug, PartialEq, Eq, Structural)]
pub enum Engine {
    Kvs,
    Sled,
}

/// The literal name of an engine, as stored in the marker file.
pub open spec fn engine_name(e: Engine) -> Seq<char> {
    match e {
        Engine::Kvs => "kvs"@,
        Engine::Sled => "sled"@,
    }
}

/// The engine a marker file's contents denote, if any.
pub open spec fn engine_of(s: Seq<char>) -> Option<Engine> {
    if s == "kvs"@ {
        Some(Engine::Kvs)
    } else if s == "sled"@ {
        Some(Engine::Sled)
    } else {
        None
    }
}

impl Engine {
    /// The engine's literal name.
    pub fn name(&self) -> (r: String)
        ensures
            r@ == engine_name(*self),
    {
        match self {
            Engine::Kvs => String::from_str("kvs"),
            Engine::Sled => String::from_str("sled"),
        }
    }

    /// Parse an engine name.
    pub fn parse(s: &str) -> (r: Option<Engine>)
        ensures
            r == engine_of(s@),
    {
        if str_eq(s, "kvs") {
            proof {
                reveal_strlit("kvs");
                reveal_strlit("sled");
            }
            Some(Engine::Kvs)
        } else if str_eq(s, "sled") {
            Some(Engine::Sled)
        } else {
            None
        }
    }
}

/// Read the current engine from the marker file's contents, when a marker
/// file exists and its contents name an engine.
pub fn current_engine(marker: &Option<String>) -> (r: Option<Engine>)
    ensures
        r == match marker {
            Some(s) => engine_of(s@),
            None => None::<Engine>,
        },
{
    match marker {
        Some(s) => Engine::parse(s.as_str()),
        None => None,
    }
}

/// What the server must do about the engine marker file on startup.
#[derive(Clone, Debug)]
pub enum MarkerAction {
    /// No marker file exists: write one with this content, then proceed.
    Write(String),
    /// The marker names the chosen engine: proceed.
    Proceed,
    /// The marker names another engine, or does not parse: refuse to start
    /// and leave the directory untouched.
    Refuse,
}

/// Compare the chosen engine with the marker file's contents.
///
/// A directory previously used with a different engine — or with an
/// unreadable marker — is refused; a fresh directory gets a marker naming
/// the chosen engine.
pub fn process_engine_file(marker: &Option<String>, chosen: Engine) -> (r: MarkerAction)
    ensures
        match marker {
            Some(s) => {
                if engine_of(s@) == Some(chosen) {
                    r is Proceed
                } else {
                    r is Refuse
                }
            },
            None => r matches MarkerAction::Write(c) && c@ == engine_name(chosen),
        },
{
    match marker {
        Some(s) => {
            match Engine::parse(s.as_str()) {
                Some(e) => {
                    if e == chosen {
                        MarkerAction::Proceed
                    } else {
                        MarkerAction::Refuse
                    }
                },
                None => MarkerAction::Refuse,
            }
        },
        None => MarkerAction::Write(chosen.name()),
    }
}

} // verus!
