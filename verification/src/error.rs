//! The ways in which the store refuses a call.

use vstd::prelude::*;

verus! {

#[derive(Clone, Copy, Debug, PartialEq, Eq, Structural)]
pub enum StoreError {
    /// The store could not be opened at the path given.
    Open,
    /// Stored bytes are not the encoding of any record.
    Decode,
    /// Nothing is stored under the key.
    NotFound,
}

impl StoreError {
    /// A short description for logs and messages.
    pub fn message(&self) -> (text: &'static str)
        ensures
            text@ == match *self {
                StoreError::Open => "the store cannot be opened at this path"@,
                StoreError::Decode => "stored bytes do not decode"@,
                StoreError::NotFound => "not found"@,
            },
    {
        match self {
            StoreError::Open => "the store cannot be opened at this path",
            StoreError::Decode => "stored bytes do not decode",
            StoreError::NotFound => "not found",
        }
    }
}

} // verus!
