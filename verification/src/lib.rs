//! An embeddable key-value persistence layer: string-keyed structured
//! values held in an in-memory cache, encoded to bytes for a backing file,
//! with change events reported for every mutation.

pub mod codec;
pub mod kvmap;
pub mod laws;
pub mod registry;
pub mod store;
pub mod strutil;
pub mod value;

use vstd::prelude::*;
use vstd::string::StringExecFns;

verus! {

/// The failures a store operation can surface.
#[derive(Debug, Clone, PartialEq, Eq)]
pub enum Error {
    /// Reading or writing the backing file failed; carries the
    /// underlying description the host saw.
    Io(String),
    /// Encoding the cache to bytes failed.
    Serialize,
    /// The bytes of the backing file are not a valid encoding.
    Deserialize,
}

impl Error {
    /// A description of the failure.
    pub fn message(&self) -> (r: String)
        ensures
            match self {
                Error::Io(m) => r@ == m@,
                Error::Serialize => r@ == "failed to encode the store"@,
                Error::Deserialize => r@ == "the backing file is not a valid encoding"@,
            },
    {
        match self {
            Error::Io(m) => m.clone(),
            Error::Serialize => String::from_str("failed to encode the store"),
            Error::Deserialize => String::from_str("the backing file is not a valid encoding"),
        }
    }
}

} // verus!
