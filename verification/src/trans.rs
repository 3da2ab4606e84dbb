//! The two schema-directed transcoders and their shared error type.

use vstd::prelude::*;

pub mod append;
pub mod jtop;
pub mod outside;
pub mod ptoj;

pub use jtop::trans_json_to_proto;
pub use ptoj::trans_proto_to_json;

verus! {

/// The wrapped secondary cause of a `Wrap` error.
#[derive(Debug, Clone, Copy, PartialEq, Eq, Structural)]
pub enum Cause {
    /// A number token did not parse into the field's arithmetic type.
    NumberParse,
    /// A field key was not valid UTF-8.
    Utf8,
    /// A string body held an unknown or truncated escape, a bad hex digit,
    /// or a surrogate code point.
    Escape,
    /// A byte-string body was not valid base64.
    Base64,
    /// A map entry's key field is not of string kind.
    MapKeyKind,
    /// A floating-point kind, whose values this library does not transcode.
    FloatKind,
    /// A repeated field of a kind without an element encoding.
    RepeatedKind,
    /// An output too large for the base64 encoder.
    TooLarge,
}

/// Error kinds of the transcoders; all are fatal to the call that raises
/// them.
#[derive(Debug, Clone, Copy, PartialEq, Eq, Structural)]
pub enum Error {
    /// The input ended in the middle of a structure.
    UnexpectedEof,
    /// A token arrived that cannot be dispatched in this state.
    UnexpectedToken,
    /// A JSON token does not fit the declared field kind.
    TypeMismatch,
    /// A wire type disagrees with the schema, or is malformed.
    InvalidWireType,
    /// The wire decoder failed underneath the transcoder.
    Io(crate::proto::WireError),
    /// A wrapped secondary failure.
    Wrap(Cause),
}

} // verus!
