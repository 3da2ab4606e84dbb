//! A schema-driven transcoder between a binary tag-length-value wire format
//! and JSON, built from a zero-copy JSON tokenizer, an escape codec, a
//! varint/fixed wire codec and a runtime schema model.

pub mod json;
pub mod metadata;
pub mod proto;
pub mod trans;
