//! A persistent key-value store built on a log-structured engine.
//!
//! The engine keeps an append-only log of encoded records together with an
//! index from each live key to the byte range of its latest `Set` record,
//! and rewrites the log once enough of it has been superseded.
pub mod codec;
pub mod config;
pub mod engines;
pub mod error;
pub mod persist;
pub mod protocol;

pub use engines::{KvStore, KvsEngine, SledKvsEngine};
pub use error::{KvsError, Result};
