//! The errors of writing and reading.
use vstd::prelude::*;

verus! {

/// `std::io::Error`, carried through the library's errors as it is.
#[verifier::external_type_specification]
#[verifier::external_body]
pub struct ExIoError(std::io::Error);

/// `std::any::TypeId`, carried through the library's errors as it is.
#[verifier::external_type_specification]
#[verifier::external_body]
pub struct ExTypeId(std::any::TypeId);

/// An error encountered while trying to write a value.
#[derive(Debug)]
pub enum WriteError {
    Io(std::io::Error),
    TooMuchData(usize),
    UnregisteredExt(std::any::TypeId),
}

/// An error encountered while trying to read a value.
#[derive(Debug)]
pub enum ReadError {
    Io(std::io::Error),
    NoData,
    NotExtended,
    Unrecognized(u8),
}

} // verus!
