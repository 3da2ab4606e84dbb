//! Trusted declarations for the outside calls the transcoders rely on:
//! UTF-8 validation from the standard library and the base64 codec.

use vstd::prelude::*;
use vstd::string::StringSliceAdditionalSpecFns;
use vstd::utf8::valid_utf8;

verus! {

/// The standard library's UTF-8 validation error, declared so that it can
/// stand in a result type.
#[verifier::external_type_specification]
#[verifier::external_body]
pub struct ExUtf8Error(core::str::Utf8Error);

/// Relies on the standard library's UTF-8 validation: success exactly on
/// valid UTF-8, and the returned view has the given bytes.
pub assume_specification [ core::str::from_utf8 ](v: &[u8]) -> (r: Result<
    &str,
    core::str::Utf8Error,
>)
    ensures
        match r {
            Ok(s) => valid_utf8(v@) && s.spec_bytes() == v@,
            Err(_) => !valid_utf8(v@),
        },
;

/// base64's decode error, declared so that it can stand in a result type.
#[verifier::external_type_specification]
#[verifier::external_body]
pub struct ExDecodeError(base64::DecodeError);

/// What the standard-alphabet base64 decoder yields for the given input, or
/// nothing where the input is not valid padded base64. The result depends on
/// the input bytes alone.
pub uninterp spec fn base64_decoding(s: Seq<u8>) -> Option<Seq<u8>>;

/// The standard-alphabet, padded base64 rendering of the given bytes. The
/// result depends on the input bytes alone.
pub uninterp spec fn base64_encoding(s: Seq<u8>) -> Seq<u8>;

/// Relies on base64's `Engine::decode` with the standard alphabet and
/// padding: a pure function of the input bytes, failing exactly on input
/// that is not valid base64.
#[verifier::external_body]
pub(crate) fn base64_decode(s: &[u8]) -> (r: Result<Vec<u8>, base64::DecodeError>)
    ensures
        match r {
            Ok(d) => base64_decoding(s@) == Some(d@),
            Err(_) => base64_decoding(s@) is None,
        },
{
    base64::Engine::decode(&base64::prelude::BASE64_STANDARD, s)
}

/// Relies on base64's `Engine::encode` with the standard alphabet and
/// padding: a pure function of the input bytes whose output takes four bytes
/// for every started group of three.
#[verifier::external_body]
pub(crate) fn base64_encode(s: &[u8]) -> (r: Vec<u8>)
    requires
        4 * ((s@.len() + 2) / 3) <= usize::MAX,
    ensures
        r@ == base64_encoding(s@),
        r@.len() == 4 * ((s@.len() + 2) / 3),
{
    base64::Engine::encode(&base64::prelude::BASE64_STANDARD, s).into_bytes()
}

} // verus!
