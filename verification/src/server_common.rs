//! What the server's command line chooses between, and the server's errors.
use crate::contract::errors::Error;
use crate::engines::errors::KvError;
use crate::text::lowercase;
use crate::text::lowercase_text;
use vstd::prelude::*;
use vstd::string::StringExecFns;

verus! {

/// The engine that the server runs on.
#[derive(Debug, Clone, Copy, PartialEq, Eq, Structural)]
pub enum Engine {
    /// The log-structured engine of this crate.
    Kvs,
    /// The engine on top of `sled`.
    Sled,
}

/// The name that was given names no engine.
#[derive(Debug, Clone, Copy, PartialEq, Eq, Structural)]
pub struct NoSuchEngine;

/// The thread pool that the server runs its requests in.
#[derive(Debug, Clone, Copy, PartialEq, Eq, Structural)]
pub enum Pool {
    /// A new thread for every request.
    Naive,
    /// The pool of `rayon`.
    Rayon,
    /// The pool with a shared queue of this crate.
    SharedQueue,
}

/// The name that was given, `0`, names no thread pool.
#[derive(Debug, Clone, PartialEq, Eq)]
pub struct NoSuchPool(pub String);

impl Engine {
    /// The engine that `name` names, whatever the case of its letters.
    pub open spec fn named(name: Seq<char>) -> Option<Engine> {
        if lowercase_text(name) == "kvs"@ {
            Some(Engine::Kvs)
        } else if lowercase_text(name) == "sled"@ {
            Some(Engine::Sled)
        } else {
            None
        }
    }

    /// The name of the engine.
    pub open spec fn name_spec(self) -> Seq<char> {
        match self {
            Engine::Kvs => "kvs"@,
            Engine::Sled => "sled"@,
        }
    }

    /// The engine that `name` names, whatever the case of its letters.
    pub fn from_name(name: &str) -> (r: std::result::Result<Engine, NoSuchEngine>)
        ensures
            Engine::named(name@) == match r {
                Ok(engine) => Some(engine),
                Err(_) => None,
            },
    {
        let lower = lowercase(name);
        if lower == String::from_str("kvs") {
            Ok(Engine::Kvs)
        } else if lower == String::from_str("sled") {
            Ok(Engine::Sled)
        } else {
            Err(NoSuchEngine)
        }
    }

    /// The name of the engine.
    pub fn name(&self) -> (name: &'static str)
        ensures
            name@ == self.name_spec(),
    {
        match self {
            Engine::Kvs => "kvs",
            Engine::Sled => "sled",
        }
    }
}

impl NoSuchEngine {
    /// The text that describes the error.
    pub fn message(&self) -> (text: &'static str)
        ensures
            text@ == "No such engine"@,
    {
        "No such engine"
    }
}

impl Default for Engine {
    fn default() -> (engine: Engine)
        ensures
            engine == Engine::Kvs,
    {
        Engine::Kvs
    }
}

impl AsRef<str> for Engine {
    /// The name of the engine.
    fn as_ref(&self) -> (name: &str)
        ensures
            name@ == self.name_spec(),
    {
        self.name()
    }
}

impl std::str::FromStr for Engine {
    type Err = NoSuchEngine;

    /// The engine that `s` names, whatever the case of its letters.
    fn from_str(s: &str) -> (r: std::result::Result<Engine, NoSuchEngine>)
        ensures
            Engine::named(s@) == match r {
                Ok(engine) => Some(engine),
                Err(_) => None,
            },
    {
        Engine::from_name(s)
    }
}

impl Pool {
    /// The pool that `name` names, whatever the case of its letters.
    pub open spec fn named(name: Seq<char>) -> Option<Pool> {
        if lowercase_text(name) == "naive"@ {
            Some(Pool::Naive)
        } else if lowercase_text(name) == "shared_queue"@ {
            Some(Pool::SharedQueue)
        } else if lowercase_text(name) == "rayon"@ {
            Some(Pool::Rayon)
        } else {
            None
        }
    }

    /// The name of the pool.
    pub open spec fn name_spec(self) -> Seq<char> {
        match self {
            Pool::Naive => "naive"@,
            Pool::Rayon => "rayon"@,
            Pool::SharedQueue => "shared_queue"@,
        }
    }

    /// The pool that `name` names, whatever the case of its letters; the
    /// error holds `name` as it was given.
    pub fn from_name(name: &str) -> (r: std::result::Result<Pool, NoSuchPool>)
        ensures
            match r {
                Ok(pool) => Pool::named(name@) == Some(pool),
                Err(e) => Pool::named(name@) is None && e.0@ == name@,
            },
    {
        let lower = lowercase(name);
        if lower == String::from_str("naive") {
            Ok(Pool::Naive)
        } else if lower == String::from_str("shared_queue") {
            Ok(Pool::SharedQueue)
        } else if lower == String::from_str("rayon") {
            Ok(Pool::Rayon)
        } else {
            Err(NoSuchPool(name.to_owned()))
        }
    }

    /// The name of the pool.
    pub fn name(&self) -> (name: &'static str)
        ensures
            name@ == self.name_spec(),
    {
        match self {
            Pool::Naive => "naive",
            Pool::Rayon => "rayon",
            Pool::SharedQueue => "shared_queue",
        }
    }
}

impl NoSuchPool {
    /// The text that describes the error.
    pub fn message(&self) -> (text: String)
        ensures
            text@ == "No such pool: "@ + self.0@,
    {
        let mut text = String::from_str("No such pool: ");
        text.append(self.0.as_str());
        text
    }
}

impl Default for Pool {
    fn default() -> (pool: Pool)
        ensures
            pool == Pool::SharedQueue,
    {
        Pool::SharedQueue
    }
}

impl AsRef<str> for Pool {
    /// The name of the pool.
    fn as_ref(&self) -> (name: &str)
        ensures
            name@ == self.name_spec(),
    {
        self.name()
    }
}

impl std::str::FromStr for Pool {
    type Err = NoSuchPool;

    /// The pool that `s` names, whatever the case of its letters; the error
    /// holds `s` as it was given.
    fn from_str(s: &str) -> (r: std::result::Result<Pool, NoSuchPool>)
        ensures
            match r {
                Ok(pool) => Pool::named(s@) == Some(pool),
                Err(e) => Pool::named(s@) is None && e.0@ == s@,
            },
    {
        Pool::from_name(s)
    }
}

/// What can go wrong while the server handles a request.
#[derive(Debug, Clone, PartialEq, Eq)]
pub enum ServerError {
    /// The engine failed.
    EngineError { eng_error: KvError },
    /// The message is no request.
    BadRequest,
    /// The bytes are no message.
    UnsupportedContract { contract_error: Error },
}

/// The result of handling a request.
pub type Result<T> = std::result::Result<T, ServerError>;

impl ServerError {
    /// The text that describes the error.
    pub open spec fn message_spec(self) -> Seq<char> {
        match self {
            ServerError::EngineError { eng_error } => "Engine exception: "@
                + eng_error.message_spec(),
            ServerError::BadRequest => "Bad request."@,
            ServerError::UnsupportedContract { .. } => "Unsupported contract."@,
        }
    }

    /// The text that describes the error.
    pub fn message(&self) -> (text: String)
        ensures
            text@ == self.message_spec(),
    {
        match self {
            ServerError::EngineError { eng_error } => {
                let mut text = String::from_str("Engine exception: ");
                let detail = eng_error.message();
                text.append(detail.as_str());
                text
            },
            ServerError::BadRequest => String::from_str("Bad request."),
            ServerError::UnsupportedContract { .. } => String::from_str("Unsupported contract."),
        }
    }
}

impl From<KvError> for ServerError {
    fn from(eng_error: KvError) -> (e: ServerError) {
        ServerError::EngineError { eng_error }
    }
}

impl vstd::std_specs::convert::FromSpecImpl<KvError> for ServerError {
    open spec fn obeys_from_spec() -> bool {
        true
    }

    open spec fn from_spec(eng_error: KvError) -> ServerError {
        ServerError::EngineError { eng_error }
    }
}

impl From<Error> for ServerError {
    fn from(contract_error: Error) -> (e: ServerError) {
        ServerError::UnsupportedContract { contract_error }
    }
}

impl vstd::std_specs::convert::FromSpecImpl<Error> for ServerError {
    open spec fn obeys_from_spec() -> bool {
        true
    }

    open spec fn from_spec(contract_error: Error) -> ServerError {
        ServerError::UnsupportedContract { contract_error }
    }
}

} // verus!
