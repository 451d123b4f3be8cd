//! The common codec contract: a total encoder from text to packed bytes, and
//! a decoder that reconstructs the text or rejects the stream.
use crate::error::DecodeError;
use vstd::prelude::*;
use vstd::utf8::{decode_utf8, valid_utf8};

verus! {

/// A codec. Each implementation fixes, as specification functions, the exact
/// bytes it emits and the exact text (if any) it reconstructs; `encode` and
/// `decode` are bound to those functions.
pub trait Compress {
    /// The packed bytes this codec produces for the given text.
    spec fn encode_spec(&self, data: Seq<char>) -> Seq<u8>;

    /// The text this codec reconstructs from the given packed bytes, or
    /// nothing when it rejects the stream.
    spec fn decode_spec(&self, data: Seq<u8>) -> Option<Seq<char>>;

    /// The machine-size bound under which this codec can encode the text.
    spec fn fits(&self, data: Seq<char>) -> bool;

    fn encode(&self, data: String) -> (r: Vec<u8>)
        requires
            self.fits(data@),
        ensures
            r@ == self.encode_spec(data@),
    ;

    fn decode(&self, data: Vec<u8>) -> (r: Result<String, DecodeError>)
        ensures
            r is Ok <==> self.decode_spec(data@) is Some,
            r matches Ok(s) ==> Some(s@) == self.decode_spec(data@),
    ;
}

/// Relies on String::from_utf8: succeeds exactly on valid UTF-8 input, and
/// then returns the string those bytes spell.
#[verifier::external_body]
pub fn string_from_utf8(bytes: Vec<u8>) -> (r: Option<String>)
    ensures
        r is Some <==> valid_utf8(bytes@),
        r matches Some(s) ==> s@ == decode_utf8(bytes@),
{
    match String::from_utf8(bytes) {
        Ok(s) => Some(s),
        Err(_) => None,
    }
}

} // verus!
