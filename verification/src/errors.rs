use vstd::prelude::*;

verus! {

/// An error found while parsing a specification or while generating input
/// from one: a malformed declaration, an undefined variable reference,
/// inverted bounds, or a negative length.
#[derive(Clone, Copy, Debug, PartialEq, Eq, Structural)]
pub enum SpecificationError {
    Any,
}

/// The I/O error type of std, which Verus treats as opaque: values of it are
/// carried through, never inspected.
#[verifier::external_type_specification]
#[verifier::external_body]
pub struct ExIoError(std::io::Error);

/// A failure of one fuzzing step: either an input/output operation around
/// the target programs failed, or the specification itself is at fault.
#[derive(Debug)]
pub enum Error {
    Io(std::io::Error),
    Specification(SpecificationError),
}

impl From<std::io::Error> for Error {
    /// Wraps an I/O error, keeping it for reporting.
    fn from(value: std::io::Error) -> (r: Error) {
        Error::Io(value)
    }
}

impl vstd::std_specs::convert::FromSpecImpl<std::io::Error> for Error {
    open spec fn obeys_from_spec() -> bool {
        true
    }

    open spec fn from_spec(value: std::io::Error) -> Error {
        Error::Io(value)
    }
}

impl From<SpecificationError> for Error {
    /// Wraps a specification error, keeping which one it was.
    fn from(value: SpecificationError) -> (r: Error) {
        Error::Specification(value)
    }
}

impl vstd::std_specs::convert::FromSpecImpl<SpecificationError> for Error {
    open spec fn obeys_from_spec() -> bool {
        true
    }

    open spec fn from_spec(value: SpecificationError) -> Error {
        Error::Specification(value)
    }
}

} // verus!
