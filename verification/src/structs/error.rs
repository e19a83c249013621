//! Error values returned by the data structures.

use vstd::prelude::*;

verus! {

/// Why a bucket refused a node.
#[derive(Debug)]
pub struct BucketError {
    message: String,
}

impl BucketError {
    /// The text that explains the refusal.
    pub closed spec fn text(&self) -> Seq<char> {
        self.message@
    }

    /// An error with the text that explains it.
    pub fn new(message: String) -> (e: BucketError)
        ensures
            e.text() == message@,
    {
        BucketError { message }
    }

    /// The text that explains the refusal.
    pub fn message(&self) -> (m: &String)
        ensures
            m@ == self.text(),
    {
        &self.message
    }
}

/// A string that is not the 40-digit hexadecimal form of an identifier.
#[derive(Debug)]
pub struct InvalidHashIdError {}

/// A string that is not the hexadecimal form of a compact node record.
#[derive(Debug)]
pub struct InvalidCompactNodeError {}

/// A text that is not the dotted form of an IPv4 address.
#[derive(Debug)]
pub struct InvalidAddressError {}

/// Bytes that are not text.
#[derive(Debug)]
pub struct InvalidUtf8Error {}

} // verus!
