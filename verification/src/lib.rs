use vstd::prelude::*;

pub mod container;
pub mod packing;
pub mod range;
pub mod text;
pub mod transfer;

pub use container::header::{Header, HeaderEntry, HEADER_ENTRY_IN_BYTES};
pub use container::Container;
pub use packing::{PackableFile, WebPackable};

verus! {

/// An I/O error, carried through as it is.
#[verifier::external_type_specification]
#[verifier::external_body]
pub struct ExIoError(std::io::Error);

/// What can go wrong with a container.
#[derive(Debug)]
pub enum ErrorKind {
    PackFailed(&'static str),
    GenericTextError(&'static str),
    GenericError(std::io::Error),
}

/// The result of a container operation.
pub type ContainerError<T> = Result<T, ErrorKind>;

} // verus!
