//! The error taxonomy: encoding never fails; decoding fails on a malformed
//! packed stream; the surrounding I/O has its own failure mode.
use vstd::prelude::*;

verus! {

/// Relies on std::io::Error, carried opaquely for the I/O layer around the codecs.
#[verifier::external_type_specification]
#[verifier::external_body]
pub struct ExIoError(std::io::Error);

/// Failure of an encode call. Encoding never fails by construction; the type
/// exists so the shared error enum covers both directions.
#[derive(Debug)]
pub struct EncodeError;

/// Failure of a decode call: the packed stream holds an invalid code, or the
/// reconstructed bytes are not valid text.
#[derive(Debug)]
pub struct DecodeError;

/// Any failure of a codec call, or of the I/O around it.
#[derive(Debug)]
pub enum CompressError {
    EncodeError(EncodeError),
    DecodeError(DecodeError),
    IOError(std::io::Error),
}

impl From<EncodeError> for CompressError {
    fn from(err: EncodeError) -> (r: CompressError) {
        CompressError::EncodeError(err)
    }
}

impl vstd::std_specs::convert::FromSpecImpl<EncodeError> for CompressError {
    open spec fn obeys_from_spec() -> bool {
        true
    }

    open spec fn from_spec(t: EncodeError) -> CompressError {
        CompressError::EncodeError(t)
    }
}

impl From<DecodeError> for CompressError {
    fn from(err: DecodeError) -> (r: CompressError) {
        CompressError::DecodeError(err)
    }
}

impl vstd::std_specs::convert::FromSpecImpl<DecodeError> for CompressError {
    open spec fn obeys_from_spec() -> bool {
        true
    }

    open spec fn from_spec(t: DecodeError) -> CompressError {
        CompressError::DecodeError(t)
    }
}

impl From<std::io::Error> for CompressError {
    fn from(err: std::io::Error) -> (r: CompressError) {
        CompressError::IOError(err)
    }
}

impl vstd::std_specs::convert::FromSpecImpl<std::io::Error> for CompressError {
    open spec fn obeys_from_spec() -> bool {
        true
    }

    open spec fn from_spec(t: std::io::Error) -> CompressError {
        CompressError::IOError(t)
    }
}

} // verus!
