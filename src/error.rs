use vstd::prelude::*;

verus! {

/// The I/O error type of std, carried through unchanged.
#[verifier::external_type_specification]
#[verifier::external_body]
pub struct ExIoError(std::io::Error);

/// The error type of the embedded tree store, carried through unchanged.
#[verifier::external_type_specification]
#[verifier::external_body]
pub struct ExSledError(sled::Error);

/// The failures that cross the engine, server and protocol layers.
#[derive(Debug)]
pub enum KvsError {
    /// A key longer than 256 bytes.
    InvalidKeySize,
    /// A value longer than 4096 bytes.
    InvalidValueSize,
    /// Removal of a key that is not stored.
    KeyNotFound,
    /// An engine name that is neither `kvs`, `sled` nor `auto`.
    ParseEngineError,
    /// A request whose command word is not known.
    CmdNotSupport,
    /// An underlying file or socket failure.
    IOError(std::io::Error),
    /// Stored bytes that do not decode as expected.
    Corruption,
    /// A failure reported by the embedded tree store.
    SledError(sled::Error),
}

/// Results of the store's operations.
pub type Result<T> = core::result::Result<T, KvsError>;

/// Relies on the `Display` impl of `std::io::Error` for its message.
#[verifier::external_body]
fn io_error_text(e: &std::io::Error) -> String {
    format!("{}", e)
}

/// Relies on the `Display` impl of `sled::Error` for its message.
#[verifier::external_body]
fn sled_error_text(e: &sled::Error) -> String {
    format!("{}", e)
}

/// The message shown to users for each error without an inner cause.
pub open spec fn fixed_message(e: KvsError) -> Seq<char> {
    match e {
        KvsError::InvalidKeySize => "The key cannot be larger than 256B."@,
        KvsError::InvalidValueSize => "The value cannot be larger than 4KB."@,
        KvsError::KeyNotFound => "Key not found"@,
        KvsError::ParseEngineError => "Can not parse engine name."@,
        KvsError::CmdNotSupport => "Command not support."@,
        KvsError::Corruption => "Stored data is corrupted."@,
        _ => Seq::empty(),
    }
}

impl KvsError {
    /// Whether the error is one of the variants that carry an inner cause.
    pub open spec fn has_cause(self) -> bool {
        self is IOError || self is SledError
    }

    /// The message shown to users; an inner cause is shown by its own message.
    pub fn message(&self) -> (r: String)
        ensures
            !self.has_cause() ==> r@ == fixed_message(*self),
    {
        match self {
            KvsError::InvalidKeySize => "The key cannot be larger than 256B.".to_string(),
            KvsError::InvalidValueSize => "The value cannot be larger than 4KB.".to_string(),
            KvsError::KeyNotFound => "Key not found".to_string(),
            KvsError::ParseEngineError => "Can not parse engine name.".to_string(),
            KvsError::CmdNotSupport => "Command not support.".to_string(),
            KvsError::Corruption => "Stored data is corrupted.".to_string(),
            KvsError::IOError(e) => io_error_text(e),
            KvsError::SledError(e) => sled_error_text(e),
        }
    }
}

impl From<std::io::Error> for KvsError {
    fn from(error: std::io::Error) -> KvsError {
        KvsError::IOError(error)
    }
}

impl vstd::std_specs::convert::FromSpecImpl<std::io::Error> for KvsError {
    open spec fn obeys_from_spec() -> bool {
        true
    }

    open spec fn from_spec(v: std::io::Error) -> KvsError {
        KvsError::IOError(v)
    }
}

impl From<sled::Error> for KvsError {
    fn from(error: sled::Error) -> KvsError {
        KvsError::SledError(error)
    }
}

impl vstd::std_specs::convert::FromSpecImpl<sled::Error> for KvsError {
    open spec fn obeys_from_spec() -> bool {
        true
    }

    open spec fn from_spec(v: sled::Error) -> KvsError {
        KvsError::SledError(v)
    }
}

} // verus!
