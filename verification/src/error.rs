//! What can go wrong while symbols are looked up.

use vstd::prelude::*;

verus! {

/// The error that the `object` crate reports when it cannot read a file.
#[verifier::external_type_specification]
#[verifier::external_body]
pub struct ExObjectError(object::Error);

/// Why a lookup of symbols failed.
#[derive(Debug, PartialEq, Eq)]
pub enum GetSymbolsError {
    /// No architecture of a fat binary has the wanted build id: the build ids
    /// that were seen, and the errors from the architectures that could not
    /// be read.
    NoMatchMultiArch(Vec<String>, Vec<GetSymbolsError>),
    /// The binary has another build id than was asked for: the one found,
    /// then the one expected.
    UnmatchedBuildId(String, String),
    /// The header or the symbol table of an object could not be read.
    MachOHeaderParseError(object::Error),
    /// The member directory of the static archive at this path could not be read.
    ArchiveParseError(Vec<u8>, object::Error),
    /// Something that an input must have is not there.
    InvalidInput(&'static str),
}

} // verus!
