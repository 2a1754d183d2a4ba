//! The error conditions of the pipeline. Every operation fails fast and
//! whole: none of these is ever downgraded to a warning.

use vstd::prelude::*;

verus! {

/// One error kind per failure condition of the pipeline.
#[derive(Debug, PartialEq, Eq)]
pub enum McError {
    /// Malformed structured text at any layer, or a document shape the
    /// configuration decoder does not accept.
    Parse(String),
    /// An artifact has neither an explicit URL nor a resolvable source.
    MissingSource(String),
    /// A name referenced by the build is absent from the lock table.
    MissingLockEntry(String),
    /// Fetched bytes do not match the pinned digest; carries the artifact name.
    HashMismatch(String),
    /// A `${NAME}` placeholder has no value in the given environment.
    MissingEnvVar(String),
    /// A top-level input of the structural merger is not a map.
    NotMergeable,
    /// A structured-config source holds more than one document.
    MultipleDocs(String),
}

} // verus!
