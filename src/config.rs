//! The choice of the engine that serves a directory.
use vstd::prelude::*;

use crate::codec::str_eq;
use crate::error::{KvsError, Result};

verus! {

/// The engines a server can run.
#[derive(Clone, Copy, Debug, PartialEq, Eq, Structural)]
pub enum BackEngines {
    /// The log-structured engine of this crate.
    Kvs,
    /// The engine backed by `sled`.
    Sled,
    /// Whichever engine already owns the directory, else `Kvs`.
    Auto,
}

/// What an engine name written in lower case stands for.
pub open spec fn engine_of(s: Seq<char>) -> Option<BackEngines> {
    if s == "kvs"@ {
        Some(BackEngines::Kvs)
    } else if s == "sled"@ {
        Some(BackEngines::Sled)
    } else if s == "auto"@ {
        Some(BackEngines::Auto)
    } else {
        None
    }
}

/// The name that an engine is written as.
pub open spec fn engine_name(e: BackEngines) -> Seq<char> {
    match e {
        BackEngines::Kvs => "kvs"@,
        BackEngines::Sled => "sled"@,
        BackEngines::Auto => "automatically select from kvs or sled"@,
    }
}

/// The lower-case form of a string, as `str::to_lowercase` gives it.
pub uninterp spec fn lower_of(s: Seq<char>) -> Seq<char>;

/// Relies on `str::to_lowercase`: the result depends on the characters alone.
#[verifier::external_body]
fn lowercase(s: &str) -> (r: String)
    ensures
        r@ == lower_of(s@),
{
    s.to_lowercase()
}

impl BackEngines {
    /// The engine that a lower-case name stands for.
    pub fn from_lowercase(s: &str) -> (r: Result<BackEngines>)
        ensures
            match engine_of(s@) {
                Some(e) => r matches Ok(x) && x == e,
                None => r matches Err(KvsError::ParseEngineError),
            },
    {
        if str_eq(s, "kvs") {
            Ok(BackEngines::Kvs)
        } else if str_eq(s, "sled") {
            Ok(BackEngines::Sled)
        } else if str_eq(s, "auto") {
            Ok(BackEngines::Auto)
        } else {
            Err(KvsError::ParseEngineError)
        }
    }

    /// The engine that a name stands for, in any case.
    pub fn from_str(s: &str) -> (r: Result<BackEngines>)
        ensures
            match engine_of(lower_of(s@)) {
                Some(e) => r matches Ok(x) && x == e,
                None => r matches Err(KvsError::ParseEngineError),
            },
    {
        let lower = lowercase(s);
        BackEngines::from_lowercase(lower.as_str())
    }

    /// The name that the engine is written as.
    pub fn name(&self) -> (r: &'static str)
        ensures
            r@ == engine_name(*self),
    {
        match self {
            BackEngines::Kvs => "kvs",
            BackEngines::Sled => "sled",
            BackEngines::Auto => "automatically select from kvs or sled",
        }
    }
}

/// The engine to run, given the one asked for and the name stored in the
/// directory's marker file, if there is one. With no marker the engine asked
/// for runs, `Kvs` for `Auto`; with one, the marked engine runs if it is the
/// one asked for or `Auto` was asked for. `None` when they do not match.
pub fn get_engine(requested: BackEngines, persisted: Option<&str>) -> (r: Option<BackEngines>)
    ensures
        persisted is None ==> r == Some(
            if requested == BackEngines::Auto {
                BackEngines::Kvs
            } else {
                requested
            },
        ),
        persisted matches Some(t) ==> r == match engine_of(t@) {
            Some(p) => if p != BackEngines::Auto && (requested == BackEngines::Auto || requested
                == p) {
                Some(p)
            } else {
                None
            },
            None => None,
        },
{
    match persisted {
        None => match requested {
            BackEngines::Auto => Some(BackEngines::Kvs),
            _ => Some(requested),
        },
        Some(t) => match BackEngines::from_lowercase(t) {
            Ok(BackEngines::Auto) => None,
            Ok(p) => {
                if requested == BackEngines::Auto || requested == p {
                    Some(p)
                } else {
                    None
                }
            },
            Err(_) => None,
        },
    }
}

} // verus!
