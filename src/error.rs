//! The failures of a document transform.

use vstd::prelude::*;

verus! {

/// `std::io::Error`, carried through unchanged inside `MdError`.
#[verifier::external_type_specification]
#[verifier::external_body]
pub struct ExIoError(std::io::Error);

/// Why a document transform stopped.
#[derive(Debug)]
pub enum MdError {
    /// The document could not be opened.
    OpenRead(std::io::Error),
    /// The destination could not be created.
    OpenWrite(std::io::Error),
    /// The document could not be read.
    Source(std::io::Error),
    /// A referenced file could not be read.
    Import(std::io::Error),
    /// The destination could not be written.
    Output(std::io::Error),
}

pub type MdResult<A> = Result<A, MdError>;

} // verus!
