//! Schema-directed transcoding from JSON text to the binary wire format:
//! a recursive descent over the token stream that emits records as the
//! schema directs, skipping unknown keys and omitting singular defaults.

use super::append::{spec_dec_digits, spec_dec_i64};
use super::outside::base64_decode;
use super::outside::base64_decoding;
use super::{Cause, Error};
use crate::json::{
    lemma_spec_next, spec_next, spec_skip_ws, spec_unescape, token_matches, unescape_string, Iter, SpecToken,
    Token,
};
use crate::metadata::{spec_field_by_name, Field, Kind, Message};
use crate::proto::{
    spec_key_bytes, spec_le4, spec_le8, spec_len_delim, spec_varint, spec_zigzag, Encoder,
    WIRE_VARINT,
};
use vstd::prelude::*;
use vstd::slice::slice_subrange;
use vstd::string::StringSliceAdditionalSpecFns;
use vstd::utf8::valid_utf8;

verus! {

/// A non-empty run of decimal digit bytes.
pub open spec fn all_digits(s: Seq<u8>) -> bool {
    s.len() > 0 && forall|i: int| 0 <= i < s.len() ==> 0x30 <= #[trigger] s[i] <= 0x39
}

/// The value of a digit run, most significant digit first.
pub open spec fn digits_val(s: Seq<u8>) -> nat
    decreases s.len(),
{
    if s.len() == 0 {
        0
    } else {
        digits_val(s.drop_last()) * 10 + (s.last() - 0x30) as nat
    }
}

/// What parsing the bytes as an unsigned 64-bit decimal yields.
pub open spec fn spec_parse_u64(s: Seq<u8>) -> Option<u64> {
    if all_digits(s) && digits_val(s) <= u64::MAX {
        Some(digits_val(s) as u64)
    } else {
        None
    }
}

/// What parsing the bytes as an unsigned 32-bit decimal yields.
pub open spec fn spec_parse_u32(s: Seq<u8>) -> Option<u32> {
    if all_digits(s) && digits_val(s) <= u32::MAX {
        Some(digits_val(s) as u32)
    } else {
        None
    }
}

/// What parsing the bytes as a signed 64-bit decimal yields: an optional
/// minus sign, then digits, within the two's-complement range.
pub open spec fn spec_parse_i64(s: Seq<u8>) -> Option<i64> {
    if s.len() > 0 && s[0] == 0x2d {
        let d = s.subrange(1, s.len() as int);
        if all_digits(d) && digits_val(d) <= 0x8000000000000000 {
            Some((0 - digits_val(d) as int) as i64)
        } else {
            None
        }
    } else {
        if all_digits(s) && digits_val(s) <= i64::MAX {
            Some(digits_val(s) as i64)
        } else {
            None
        }
    }
}

/// What parsing the bytes as a signed 32-bit decimal yields.
pub open spec fn spec_parse_i32(s: Seq<u8>) -> Option<i32> {
    if s.len() > 0 && s[0] == 0x2d {
        let d = s.subrange(1, s.len() as int);
        if all_digits(d) && digits_val(d) <= 0x80000000 {
            Some((0 - digits_val(d) as int) as i32)
        } else {
            None
        }
    } else {
        if all_digits(s) && digits_val(s) <= i32::MAX {
            Some(digits_val(s) as i32)
        } else {
            None
        }
    }
}

/// A digit run's value only grows as digits are appended: every prefix is
/// worth at most the whole.
proof fn lemma_digits_val_prefix_le(s: Seq<u8>, j: int)
    requires
        0 <= j <= s.len(),
    ensures
        digits_val(s.subrange(0, j)) <= digits_val(s),
    decreases s.len(),
{
    if j < s.len() {
        let d = s.drop_last();
        lemma_digits_val_prefix_le(d, j);
        assert(d.subrange(0, j) =~= s.subrange(0, j));
    } else {
        assert(s.subrange(0, j) =~= s);
    }
}

/// Parses a run of decimal digits as an unsigned 64-bit value.
fn parse_digits(s: &[u8]) -> (r: Option<u64>)
    ensures
        r == spec_parse_u64(s@),
{
    if s.len() == 0 {
        return None;
    }
    let mut x: u64 = 0;
    let mut i: usize = 0;
    while i < s.len()
        invariant
            0 <= i <= s@.len(),
            s@.len() > 0,
            forall|l: int| 0 <= l < i ==> 0x30 <= #[trigger] s@[l] <= 0x39,
            x == digits_val(s@.subrange(0, i as int)),
        decreases s@.len() - i,
    {
        let c: u8 = s[i];
        if c < 0x30 || c > 0x39 {
            proof {
                assert(!all_digits(s@));
            }
            return None;
        }
        let d: u64 = (c - 0x30) as u64;
        let ghost pre = s@.subrange(0, i as int);
        let ghost cur = s@.subrange(0, i + 1);
        proof {
            assert(cur.drop_last() =~= pre);
            assert(cur.last() == s@[i as int]);
            assert(digits_val(cur) == digits_val(pre) * 10 + (c - 0x30) as nat);
        }
        if x > (u64::MAX - d) / 10 {
            proof {
                assert(x * 10 + d > u64::MAX);
                if all_digits(s@) {
                    lemma_digits_val_prefix_le(s@, i + 1);
                    assert(digits_val(s@) > u64::MAX);
                }
            }
            return None;
        }
        x = x * 10 + d;
        i = i + 1;
    }
    proof {
        assert(s@.subrange(0, s@.len() as int) =~= s@);
    }
    Some(x)
}

/// Parses a decimal unsigned 32-bit value.
fn parse_u32(s: &[u8]) -> (r: Option<u32>)
    ensures
        r == spec_parse_u32(s@),
{
    match parse_digits(s) {
        Some(m) => if m <= u32::MAX as u64 {
            Some(m as u32)
        } else {
            None
        },
        None => None,
    }
}

/// Parses a decimal signed 64-bit value.
fn parse_i64(s: &[u8]) -> (r: Option<i64>)
    ensures
        r == spec_parse_i64(s@),
{
    if s.len() > 0 && s[0] == 0x2d {
        let d: &[u8] = slice_subrange(s, 1, s.len());
        proof {
            assert(d@ =~= s@.subrange(1, s@.len() as int));
        }
        match parse_digits(d) {
            Some(m) => if m <= 0x8000000000000000 {
                if m == 0x8000000000000000 {
                    Some(i64::MIN)
                } else {
                    Some(-(m as i64))
                }
            } else {
                None
            },
            None => None,
        }
    } else {
        match parse_digits(s) {
            Some(m) => if m <= i64::MAX as u64 {
                Some(m as i64)
            } else {
                None
            },
            None => None,
        }
    }
}

/// Parses a decimal signed 32-bit value.
fn parse_i32(s: &[u8]) -> (r: Option<i32>)
    ensures
        r == spec_parse_i32(s@),
{
    if s.len() > 0 && s[0] == 0x2d {
        let d: &[u8] = slice_subrange(s, 1, s.len());
        proof {
            assert(d@ =~= s@.subrange(1, s@.len() as int));
        }
        match parse_digits(d) {
            Some(m) => if m <= 0x80000000 {
                if m == 0x80000000 {
                    Some(i32::MIN)
                } else {
                    Some(-(m as i32))
                }
            } else {
                None
            },
            None => None,
        }
    } else {
        match parse_digits(s) {
            Some(m) => if m <= i32::MAX as u64 {
                Some(m as i32)
            } else {
                None
            },
            None => None,
        }
    }
}

/// Wire bytes of one singular numeric field: nothing for a zero value, a
/// full record otherwise. Floating-point kinds are not transcoded; any
/// non-numeric kind is a type mismatch.
pub open spec fn sp_numeric(kind: Kind, tag: u32, s: Seq<u8>) -> Result<Seq<u8>, Error> {
    match kind {
        Kind::Int32 => match spec_parse_i32(s) {
            Some(v) => Ok(
                if v != 0 {
                    spec_key_bytes(tag, WIRE_VARINT) + spec_varint(((v as i64) as u64) as nat)
                } else {
                    Seq::empty()
                },
            ),
            None => Err(Error::Wrap(Cause::NumberParse)),
        },
        Kind::Int64 => match spec_parse_i64(s) {
            Some(v) => Ok(
                if v != 0 {
                    spec_key_bytes(tag, WIRE_VARINT) + spec_varint((v as u64) as nat)
                } else {
                    Seq::empty()
                },
            ),
            None => Err(Error::Wrap(Cause::NumberParse)),
        },
        Kind::Uint32 => match spec_parse_u32(s) {
            Some(v) => Ok(
                if v != 0 {
                    spec_key_bytes(tag, WIRE_VARINT) + spec_varint((v as u64) as nat)
                } else {
                    Seq::empty()
                },
            ),
            None => Err(Error::Wrap(Cause::NumberParse)),
        },
        Kind::Uint64 => match spec_parse_u64(s) {
            Some(v) => Ok(
                if v != 0 {
                    spec_key_bytes(tag, WIRE_VARINT) + spec_varint(v as nat)
                } else {
                    Seq::empty()
                },
            ),
            None => Err(Error::Wrap(Cause::NumberParse)),
        },
        Kind::Sint32 => match spec_parse_i32(s) {
            Some(v) => Ok(
                if v != 0 {
                    spec_key_bytes(tag, WIRE_VARINT) + spec_varint(spec_zigzag(v as i64) as nat)
                } else {
                    Seq::empty()
                },
            ),
            None => Err(Error::Wrap(Cause::NumberParse)),
        },
        Kind::Sint64 => match spec_parse_i64(s) {
            Some(v) => Ok(
                if v != 0 {
                    spec_key_bytes(tag, WIRE_VARINT) + spec_varint(spec_zigzag(v) as nat)
                } else {
                    Seq::empty()
                },
            ),
            None => Err(Error::Wrap(Cause::NumberParse)),
        },
        Kind::Fixed32 => match spec_parse_u32(s) {
            Some(v) => Ok(
                if v != 0 {
                    spec_key_bytes(tag, crate::proto::WIRE_32BIT) + spec_le4(v)
                } else {
                    Seq::empty()
                },
            ),
            None => Err(Error::Wrap(Cause::NumberParse)),
        },
        Kind::Fixed64 => match spec_parse_u64(s) {
            Some(v) => Ok(
                if v != 0 {
                    spec_key_bytes(tag, crate::proto::WIRE_64BIT) + spec_le8(v)
                } else {
                    Seq::empty()
                },
            ),
            None => Err(Error::Wrap(Cause::NumberParse)),
        },
        Kind::Sfixed32 => match spec_parse_i32(s) {
            Some(v) => Ok(
                if v != 0 {
                    spec_key_bytes(tag, crate::proto::WIRE_32BIT) + spec_le4(v as u32)
                } else {
                    Seq::empty()
                },
            ),
            None => Err(Error::Wrap(Cause::NumberParse)),
        },
        Kind::Sfixed64 => match spec_parse_i64(s) {
            Some(v) => Ok(
                if v != 0 {
                    spec_key_bytes(tag, crate::proto::WIRE_64BIT) + spec_le8(v as u64)
                } else {
                    Seq::empty()
                },
            ),
            None => Err(Error::Wrap(Cause::NumberParse)),
        },
        Kind::Double | Kind::Float => Err(Error::Wrap(Cause::FloatKind)),
        _ => Err(Error::TypeMismatch),
    }
}

/// Wire bytes of one singular string field: the unescaped body in a
/// length-prefixed record, or nothing when it unescapes to empty.
pub open spec fn sp_string_field(tag: u32, content: Seq<u8>) -> Result<Seq<u8>, Error> {
    match spec_unescape(content) {
        Ok(z) => Ok(
            if z.len() > 0 {
                spec_len_delim(tag, z)
            } else {
                Seq::empty()
            },
        ),
        Err(_) => Err(Error::Wrap(Cause::Escape)),
    }
}

/// Wire bytes of one singular byte-string field: the base64-decoded body in
/// a length-prefixed record, or nothing when it decodes to empty.
pub open spec fn sp_bytes_field(tag: u32, content: Seq<u8>) -> Result<Seq<u8>, Error> {
    match base64_decoding(content) {
        Some(z) => Ok(
            if z.len() > 0 {
                spec_len_delim(tag, z)
            } else {
                Seq::empty()
            },
        ),
        None => Err(Error::Wrap(Cause::Base64)),
    }
}

/// The wire bytes of one packed numeric array element.
pub open spec fn sp_packed_num(kind: Kind, s: Seq<u8>) -> Result<Seq<u8>, Error> {
    match kind {
        Kind::Int32 => match spec_parse_i32(s) {
            Some(v) => Ok(spec_varint(((v as i64) as u64) as nat)),
            None => Err(Error::Wrap(Cause::NumberParse)),
        },
        Kind::Int64 => match spec_parse_i64(s) {
            Some(v) => Ok(spec_varint((v as u64) as nat)),
            None => Err(Error::Wrap(Cause::NumberParse)),
        },
        Kind::Uint32 => match spec_parse_u32(s) {
            Some(v) => Ok(spec_varint((v as u64) as nat)),
            None => Err(Error::Wrap(Cause::NumberParse)),
        },
        Kind::Uint64 => match spec_parse_u64(s) {
            Some(v) => Ok(spec_varint(v as nat)),
            None => Err(Error::Wrap(Cause::NumberParse)),
        },
        Kind::Sint32 => match spec_parse_i32(s) {
            Some(v) => Ok(spec_varint(spec_zigzag(v as i64) as nat)),
            None => Err(Error::Wrap(Cause::NumberParse)),
        },
        Kind::Sint64 => match spec_parse_i64(s) {
            Some(v) => Ok(spec_varint(spec_zigzag(v) as nat)),
            None => Err(Error::Wrap(Cause::NumberParse)),
        },
        Kind::Fixed32 => match spec_parse_u32(s) {
            Some(v) => Ok(spec_le4(v)),
            None => Err(Error::Wrap(Cause::NumberParse)),
        },
        Kind::Fixed64 => match spec_parse_u64(s) {
            Some(v) => Ok(spec_le8(v)),
            None => Err(Error::Wrap(Cause::NumberParse)),
        },
        Kind::Sfixed32 => match spec_parse_i32(s) {
            Some(v) => Ok(spec_le4(v as u32)),
            None => Err(Error::Wrap(Cause::NumberParse)),
        },
        Kind::Sfixed64 => match spec_parse_i64(s) {
            Some(v) => Ok(spec_le8(v as u64)),
            None => Err(Error::Wrap(Cause::NumberParse)),
        },
        _ => Err(Error::UnexpectedToken),
    }
}

/// What a lead token handed to the field dispatch is known to satisfy:
/// slice bounds lie in the input and a string token spans its two quotes.
pub open spec fn lead_ok(t: SpecToken, s: Seq<u8>) -> bool {
    match t {
        SpecToken::Str { from, to } => 0 <= from && from + 2 <= to <= s.len(),
        SpecToken::Number { from, to } => 0 <= from < to <= s.len(),
        SpecToken::End => false,
        _ => true,
    }
}

/// The stored key token of an object loop, as raw bytes with quotes.
pub open spec fn key_view(k: Option<&[u8]>) -> Option<Seq<u8>> {
    match k {
        Some(s) => Some(s@),
        None => None,
    }
}

/// Skipping one already-read value token: scalars stand for themselves;
/// containers are scanned to their matching close.
pub open spec fn sp_skip_value(s: Seq<u8>, i: int, lead: SpecToken) -> Result<int, Error>
    decreases s.len() - i, 2int,
{
    match lead {
        SpecToken::Null | SpecToken::False | SpecToken::True => Ok(i),
        SpecToken::Number { .. } | SpecToken::Str { .. } => Ok(i),
        SpecToken::Object => sp_skip_obj(s, i),
        SpecToken::Array => sp_skip_arr(s, i),
        _ => Err(Error::UnexpectedToken),
    }
}

/// Scanning an unknown object to its closing brace.
pub open spec fn sp_skip_obj(s: Seq<u8>, i: int) -> Result<int, Error>
    decreases s.len() - i, 1int,
{
    let (t, j) = spec_next(s, i);
    match t {
        SpecToken::End => Err(Error::UnexpectedEof),
        SpecToken::ObjectClose => Ok(j),
        SpecToken::Colon | SpecToken::Comma => if !(i < j && j <= s.len()) {
            Err(Error::UnexpectedToken)
        } else {
            sp_skip_obj(s, j)
        },
        _ => {
            if !(i < j && j <= s.len()) {
                Err(Error::UnexpectedToken)
            } else {
                match sp_skip_value(s, j, t) {
                    Ok(i2) => if !(j <= i2 && i2 <= s.len()) {
                        Err(Error::UnexpectedToken)
                    } else {
                        sp_skip_obj(s, i2)
                    },
                    Err(e) => Err(e),
                }
            }
        },
    }
}

/// Scanning an unknown array to its closing bracket.
pub open spec fn sp_skip_arr(s: Seq<u8>, i: int) -> Result<int, Error>
    decreases s.len() - i, 1int,
{
    let (t, j) = spec_next(s, i);
    match t {
        SpecToken::End => Err(Error::UnexpectedEof),
        SpecToken::ArrayClose => Ok(j),
        SpecToken::Comma => if !(i < j && j <= s.len()) {
            Err(Error::UnexpectedToken)
        } else {
            sp_skip_arr(s, j)
        },
        _ => {
            if !(i < j && j <= s.len()) {
                Err(Error::UnexpectedToken)
            } else {
                match sp_skip_value(s, j, t) {
                    Ok(i2) => if !(j <= i2 && i2 <= s.len()) {
                        Err(Error::UnexpectedToken)
                    } else {
                        sp_skip_arr(s, i2)
                    },
                    Err(e) => Err(e),
                }
            }
        },
    }
}

/// One field whose lead token is a string: a string or byte-string record,
/// anything else a type mismatch. The token consumes no further input.
pub open spec fn sp_str_lead_field(tag: u32, content: Seq<u8>, f: Field) -> Result<Seq<u8>, Error> {
    match f.kind {
        Kind::Str => sp_string_field(tag, content),
        Kind::Bytes => sp_bytes_field(tag, content),
        _ => Err(Error::TypeMismatch),
    }
}

/// One field value with its lead token already read: the wire bytes emitted
/// and the position after the value.
pub open spec fn sp_field(s: Seq<u8>, i: int, tag: u32, lead: SpecToken, f: Field) -> Result<
    (Seq<u8>, int),
    Error,
>
    decreases s.len() - i, 2int,
{
    match lead {
        SpecToken::Str { from, to } => {
            match sp_str_lead_field(tag, s.subrange(from + 1, to - 1), f) {
                Ok(d) => Ok((d, i)),
                Err(e) => Err(e),
            }
        },
        SpecToken::Number { from, to } => match sp_numeric(f.kind, tag, s.subrange(from, to)) {
            Ok(d) => Ok((d, i)),
            Err(e) => Err(e),
        },
        SpecToken::True => match f.kind {
            Kind::Bool => Ok((spec_key_bytes(tag, WIRE_VARINT) + spec_varint(1), i)),
            _ => Err(Error::TypeMismatch),
        },
        SpecToken::False => match f.kind {
            Kind::Bool => Ok((Seq::empty(), i)),
            _ => Err(Error::TypeMismatch),
        },
        SpecToken::Null => {
            let nullable = f.repeated || match f.kind {
                Kind::Bytes | Kind::Message(_) | Kind::MapEntry(_) => true,
                _ => false,
            };
            if nullable {
                Ok((Seq::empty(), i))
            } else {
                Err(Error::TypeMismatch)
            }
        },
        SpecToken::Object => match f.kind {
            Kind::Message(m) => match sp_message(s, i, *m, None) {
                Ok((d, i2)) => Ok((spec_len_delim(tag, d), i2)),
                Err(e) => Err(e),
            },
            Kind::MapEntry(e) => sp_map(s, i, tag, *e, None),
            _ => Err(Error::TypeMismatch),
        },
        SpecToken::Array => if !f.repeated {
            Err(Error::TypeMismatch)
        } else {
            match f.kind {
                Kind::Message(m) => sp_rep_msg(s, i, tag, *m),
                Kind::Str => sp_rep_str(s, i, tag),
                Kind::Bytes => sp_rep_bytes(s, i, tag),
                Kind::Double | Kind::Float => Err(Error::Wrap(Cause::FloatKind)),
                Kind::MapEntry(_) => Err(Error::TypeMismatch),
                _ => match sp_rep_packed(s, i, f.kind) {
                    Ok((payload, i2)) => Ok(
                        (
                            if payload.len() > 0 {
                                spec_len_delim(tag, payload)
                            } else {
                                Seq::empty()
                            },
                            i2,
                        ),
                    ),
                    Err(e) => Err(e),
                },
            }
        },
        _ => Err(Error::UnexpectedToken),
    }
}

/// The object loop of one message: keys looked up in the schema, known
/// fields emitted, unknown values skipped, separators tolerated; ends at the
/// closing brace met with no key pending.
pub open spec fn sp_message(s: Seq<u8>, i: int, msg: Message, key: Option<Seq<u8>>) -> Result<
    (Seq<u8>, int),
    Error,
>
    decreases s.len() - i, 0int,
{
    let (t, j) = spec_next(s, i);
    if t is End {
        Err(Error::UnexpectedEof)
    } else if t is Comma || t is Colon {
        if !(i < j && j <= s.len()) {
            Err(Error::UnexpectedToken)
        } else {
            sp_message(s, j, msg, key)
        }
    } else if t is ObjectClose && key is None {
        Ok((Seq::empty(), j))
    } else {
        match key {
            Some(k) => {
                let content = k.subrange(1, k.len() - 1);
                if !valid_utf8(content) {
                    Err(Error::Wrap(Cause::Utf8))
                } else {
                    match spec_field_by_name(msg.spec_fields(), content) {
                        Some(fi) => {
                            let f = msg.spec_fields()[fi];
                            if !(i < j && j <= s.len()) {
                                Err(Error::UnexpectedToken)
                            } else {
                                match sp_field(s, j, f.tag, t, f) {
                                    Ok((d, i2)) => if !(j <= i2 && i2 <= s.len()) {
                                        Err(Error::UnexpectedToken)
                                    } else {
                                        match sp_message(s, i2, msg, None) {
                                            Ok((d2, i3)) => Ok((d + d2, i3)),
                                            Err(e) => Err(e),
                                        }
                                    },
                                    Err(e) => Err(e),
                                }
                            }
                        },
                        None => {
                            if !(i < j && j <= s.len()) {
                                Err(Error::UnexpectedToken)
                            } else {
                                match sp_skip_value(s, j, t) {
                                    Ok(i2) => if !(j <= i2 && i2 <= s.len()) {
                                        Err(Error::UnexpectedToken)
                                    } else {
                                        match sp_message(s, i2, msg, None) {
                                            Ok((d2, i3)) => Ok((d2, i3)),
                                            Err(e) => Err(e),
                                        }
                                    },
                                    Err(e) => Err(e),
                                }
                            }
                        },
                    }
                }
            },
            None => match t {
                SpecToken::Str { from, to } => if !(i < j && j <= s.len()) {
                    Err(Error::UnexpectedToken)
                } else {
                    sp_message(s, j, msg, Some(s.subrange(from, to)))
                },
                _ => Err(Error::UnexpectedToken),
            },
        }
    }
}

/// The object loop of one map field: string keys and their values become
/// length-prefixed entry records, fully-default entries omitted.
pub open spec fn sp_map(s: Seq<u8>, i: int, tag: u32, entry: Message, key: Option<(int, int)>) -> Result<
    (Seq<u8>, int),
    Error,
>
    decreases s.len() - i, 1int,
{
    let kf = entry.spec_fields()[0];
    let vf = entry.spec_fields()[1];
    let (t, j) = spec_next(s, i);
    if t is End {
        Err(Error::UnexpectedEof)
    } else if t is Comma || t is Colon {
        if !(i < j && j <= s.len()) {
            Err(Error::UnexpectedToken)
        } else {
            sp_map(s, j, tag, entry, key)
        }
    } else {
        match key {
            Some((kb, ke)) => match sp_str_lead_field(1, s.subrange(kb + 1, ke - 1), kf) {
                Ok(d1) => if !(i < j && j <= s.len()) {
                    Err(Error::UnexpectedToken)
                } else {
                    match sp_field(s, j, 2, t, vf) {
                        Ok((d2, i2)) => if !(j <= i2 && i2 <= s.len()) {
                            Err(Error::UnexpectedToken)
                        } else {
                            let sub = d1 + d2;
                            let rec = if sub.len() > 0 {
                                spec_len_delim(tag, sub)
                            } else {
                                Seq::empty()
                            };
                            match sp_map(s, i2, tag, entry, None) {
                                Ok((d3, i3)) => Ok((rec + d3, i3)),
                                Err(e) => Err(e),
                            }
                        },
                        Err(e) => Err(e),
                    }
                },
                Err(e) => Err(e),
            },
            None => match t {
                SpecToken::ObjectClose => Ok((Seq::empty(), j)),
                SpecToken::Str { from, to } => if !(i < j && j <= s.len()) {
                    Err(Error::UnexpectedToken)
                } else {
                    sp_map(s, j, tag, entry, Some((from, to)))
                },
                _ => Err(Error::UnexpectedToken),
            },
        }
    }
}

/// The array loop of a repeated message field: each element object becomes
/// one length-prefixed record, empty ones included.
pub open spec fn sp_rep_msg(s: Seq<u8>, i: int, tag: u32, m: Message) -> Result<
    (Seq<u8>, int),
    Error,
>
    decreases s.len() - i, 1int,
{
    let (t, j) = spec_next(s, i);
    match t {
        SpecToken::End => Err(Error::UnexpectedEof),
        SpecToken::ArrayClose => Ok((Seq::empty(), j)),
        SpecToken::Comma => if !(i < j && j <= s.len()) {
            Err(Error::UnexpectedToken)
        } else {
            sp_rep_msg(s, j, tag, m)
        },
        SpecToken::Object => if !(i < j && j <= s.len()) {
            Err(Error::UnexpectedToken)
        } else {
            match sp_message(s, j, m, None) {
                Ok((d, i2)) => if !(j <= i2 && i2 <= s.len()) {
                    Err(Error::UnexpectedToken)
                } else {
                    match sp_rep_msg(s, i2, tag, m) {
                        Ok((d2, i3)) => Ok((spec_len_delim(tag, d) + d2, i3)),
                        Err(e) => Err(e),
                    }
                },
                Err(e) => Err(e),
            }
        },
        _ => Err(Error::UnexpectedToken),
    }
}

/// The array loop of a repeated string field: each element becomes one
/// length-prefixed record of its unescaped body, empty ones included.
pub open spec fn sp_rep_str(s: Seq<u8>, i: int, tag: u32) -> Result<(Seq<u8>, int), Error>
    decreases s.len() - i, 1int,
{
    let (t, j) = spec_next(s, i);
    match t {
        SpecToken::End => Err(Error::UnexpectedEof),
        SpecToken::ArrayClose => Ok((Seq::empty(), j)),
        SpecToken::Comma => if !(i < j && j <= s.len()) {
            Err(Error::UnexpectedToken)
        } else {
            sp_rep_str(s, j, tag)
        },
        SpecToken::Str { from, to } => match spec_unescape(s.subrange(from + 1, to - 1)) {
            Ok(z) => if !(i < j && j <= s.len()) {
                Err(Error::UnexpectedToken)
            } else {
                match sp_rep_str(s, j, tag) {
                    Ok((d2, i3)) => Ok((spec_len_delim(tag, z) + d2, i3)),
                    Err(e) => Err(e),
                }
            },
            Err(_) => Err(Error::Wrap(Cause::Escape)),
        },
        _ => Err(Error::UnexpectedToken),
    }
}

/// The array loop of a repeated byte-string field: each element becomes one
/// length-prefixed record of its base64-decoded body.
pub open spec fn sp_rep_bytes(s: Seq<u8>, i: int, tag: u32) -> Result<(Seq<u8>, int), Error>
    decreases s.len() - i, 1int,
{
    let (t, j) = spec_next(s, i);
    match t {
        SpecToken::End => Err(Error::UnexpectedEof),
        SpecToken::ArrayClose => Ok((Seq::empty(), j)),
        SpecToken::Comma => if !(i < j && j <= s.len()) {
            Err(Error::UnexpectedToken)
        } else {
            sp_rep_bytes(s, j, tag)
        },
        SpecToken::Str { from, to } => match base64_decoding(s.subrange(from + 1, to - 1)) {
            Some(z) => if !(i < j && j <= s.len()) {
                Err(Error::UnexpectedToken)
            } else {
                match sp_rep_bytes(s, j, tag) {
                    Ok((d2, i3)) => Ok((spec_len_delim(tag, z) + d2, i3)),
                    Err(e) => Err(e),
                }
            },
            None => Err(Error::Wrap(Cause::Base64)),
        },
        _ => Err(Error::UnexpectedToken),
    }
}

/// The array loop of a packed repeated scalar field: the concatenated raw
/// primitives, booleans as single varint bytes, no default omission.
pub open spec fn sp_rep_packed(s: Seq<u8>, i: int, kind: Kind) -> Result<(Seq<u8>, int), Error>
    decreases s.len() - i, 1int,
{
    let (t, j) = spec_next(s, i);
    match t {
        SpecToken::End => Err(Error::UnexpectedEof),
        SpecToken::ArrayClose => Ok((Seq::empty(), j)),
        SpecToken::Comma => if !(i < j && j <= s.len()) {
            Err(Error::UnexpectedToken)
        } else {
            sp_rep_packed(s, j, kind)
        },
        SpecToken::True => if !(kind is Bool) {
            Err(Error::UnexpectedToken)
        } else if !(i < j && j <= s.len()) {
            Err(Error::UnexpectedToken)
        } else {
            match sp_rep_packed(s, j, kind) {
                Ok((d2, i3)) => Ok((seq![1u8] + d2, i3)),
                Err(e) => Err(e),
            }
        },
        SpecToken::False => if !(kind is Bool) {
            Err(Error::UnexpectedToken)
        } else if !(i < j && j <= s.len()) {
            Err(Error::UnexpectedToken)
        } else {
            match sp_rep_packed(s, j, kind) {
                Ok((d2, i3)) => Ok((seq![0u8] + d2, i3)),
                Err(e) => Err(e),
            }
        },
        SpecToken::Number { from, to } => if kind is Bool {
            Err(Error::UnexpectedToken)
        } else {
            match sp_packed_num(kind, s.subrange(from, to)) {
                Ok(elem) => if !(i < j && j <= s.len()) {
                    Err(Error::UnexpectedToken)
                } else {
                    match sp_rep_packed(s, j, kind) {
                        Ok((d2, i3)) => Ok((elem + d2, i3)),
                        Err(e) => Err(e),
                    }
                },
                Err(e) => Err(e),
            }
        },
        _ => Err(Error::UnexpectedToken),
    }
}

/// One whole transcoding call: the input must open an object, which is then
/// transcoded as a message of the given schema.
pub open spec fn sp_json_to_proto(s: Seq<u8>, i: int, msg: Message) -> Result<
    (Seq<u8>, int),
    Error,
> {
    let (t, j) = spec_next(s, i);
    match t {
        SpecToken::Object => sp_message(s, j, msg, None),
        SpecToken::End => Err(Error::UnexpectedEof),
        _ => Err(Error::UnexpectedToken),
    }
}


/// Concatenation associates: grouping does not change the bytes.
proof fn lemma_seq_assoc(a: Seq<u8>, b: Seq<u8>, c: Seq<u8>)
    ensures
        a + b + c == a + (b + c),
{
    assert(a + b + c =~= a + (b + c));
}

/// A sequence is a prefix of itself extended.
proof fn lemma_append_prefix(a: Seq<u8>, b: Seq<u8>)
    ensures
        a.is_prefix_of(a + b),
{
    assert(a =~= (a + b).subrange(0, a.len() as int));
}

/// Being a prefix carries across a longer prefix.
proof fn lemma_prefix_trans(a: Seq<u8>, b: Seq<u8>, c: Seq<u8>)
    requires
        a.is_prefix_of(b),
        b.is_prefix_of(c),
    ensures
        a.is_prefix_of(c),
{
    assert forall|i: int| 0 <= i < a.len() implies a[i] == c[i] by {
        assert(a[i] == b.subrange(0, a.len() as int)[i]);
        assert(b[i] == c.subrange(0, b.len() as int)[i]);
    }
    assert(a =~= c.subrange(0, a.len() as int));
}

/// Emits one singular numeric field: parses the token body in the declared
/// arithmetic type and writes a record unless the value is the default zero.
fn trans_numeric(enc: &mut Encoder, kind: &Kind, tag: u32, s: &[u8]) -> (r: Result<(), Error>)
    ensures
        match r {
            Ok(()) => sp_numeric(*kind, tag, s@) matches Ok(d) && final(enc)@ == old(enc)@ + d,
            Err(e) => sp_numeric(*kind, tag, s@) == Err::<Seq<u8>, Error>(e) && final(enc)@ == old(enc)@,
        },
{
    let ghost pre = enc@;
    match kind {
        Kind::Int32 => match parse_i32(s) {
            Some(v) => {
                if v != 0 {
                    enc.emit_varint(tag, ((v as i64) as u64));
                    proof {
                        lemma_seq_assoc(
                            pre,
                            spec_key_bytes(tag, WIRE_VARINT),
                            spec_varint(((v as i64) as u64) as nat),
                        );
                    }
                } else {
                    proof {
                        assert(pre + Seq::<u8>::empty() =~= pre);
                    }
                }
                Ok(())
            },
            None => Err(Error::Wrap(Cause::NumberParse)),
        },
        Kind::Int64 => match parse_i64(s) {
            Some(v) => {
                if v != 0 {
                    enc.emit_varint(tag, (v as u64));
                    proof {
                        lemma_seq_assoc(
                            pre,
                            spec_key_bytes(tag, WIRE_VARINT),
                            spec_varint((v as u64) as nat),
                        );
                    }
                } else {
                    proof {
                        assert(pre + Seq::<u8>::empty() =~= pre);
                    }
                }
                Ok(())
            },
            None => Err(Error::Wrap(Cause::NumberParse)),
        },
        Kind::Uint32 => match parse_u32(s) {
            Some(v) => {
                if v != 0 {
                    enc.emit_varint(tag, v as u64);
                    proof {
                        lemma_seq_assoc(
                            pre,
                            spec_key_bytes(tag, WIRE_VARINT),
                            spec_varint((v as u64) as nat),
                        );
                    }
                } else {
                    proof {
                        assert(pre + Seq::<u8>::empty() =~= pre);
                    }
                }
                Ok(())
            },
            None => Err(Error::Wrap(Cause::NumberParse)),
        },
        Kind::Uint64 => match parse_digits(s) {
            Some(v) => {
                if v != 0 {
                    enc.emit_varint(tag, v);
                    proof {
                        lemma_seq_assoc(
                            pre,
                            spec_key_bytes(tag, WIRE_VARINT),
                            spec_varint(v as nat),
                        );
                    }
                } else {
                    proof {
                        assert(pre + Seq::<u8>::empty() =~= pre);
                    }
                }
                Ok(())
            },
            None => Err(Error::Wrap(Cause::NumberParse)),
        },
        Kind::Sint32 => match parse_i32(s) {
            Some(v) => {
                if v != 0 {
                    enc.emit_zigzag(tag, v as i64);
                    proof {
                        lemma_seq_assoc(
                            pre,
                            spec_key_bytes(tag, WIRE_VARINT),
                            spec_varint(spec_zigzag(v as i64) as nat),
                        );
                    }
                } else {
                    proof {
                        assert(pre + Seq::<u8>::empty() =~= pre);
                    }
                }
                Ok(())
            },
            None => Err(Error::Wrap(Cause::NumberParse)),
        },
        Kind::Sint64 => match parse_i64(s) {
            Some(v) => {
                if v != 0 {
                    enc.emit_zigzag(tag, v);
                    proof {
                        lemma_seq_assoc(
                            pre,
                            spec_key_bytes(tag, WIRE_VARINT),
                            spec_varint(spec_zigzag(v) as nat),
                        );
                    }
                } else {
                    proof {
                        assert(pre + Seq::<u8>::empty() =~= pre);
                    }
                }
                Ok(())
            },
            None => Err(Error::Wrap(Cause::NumberParse)),
        },
        Kind::Fixed32 => match parse_u32(s) {
            Some(v) => {
                if v != 0 {
                    enc.emit_u32(tag, v);
                    proof {
                        lemma_seq_assoc(
                            pre,
                            spec_key_bytes(tag, crate::proto::WIRE_32BIT),
                            spec_le4(v),
                        );
                    }
                } else {
                    proof {
                        assert(pre + Seq::<u8>::empty() =~= pre);
                    }
                }
                Ok(())
            },
            None => Err(Error::Wrap(Cause::NumberParse)),
        },
        Kind::Fixed64 => match parse_digits(s) {
            Some(v) => {
                if v != 0 {
                    enc.emit_u64(tag, v);
                    proof {
                        lemma_seq_assoc(
                            pre,
                            spec_key_bytes(tag, crate::proto::WIRE_64BIT),
                            spec_le8(v),
                        );
                    }
                } else {
                    proof {
                        assert(pre + Seq::<u8>::empty() =~= pre);
                    }
                }
                Ok(())
            },
            None => Err(Error::Wrap(Cause::NumberParse)),
        },
        Kind::Sfixed32 => match parse_i32(s) {
            Some(v) => {
                if v != 0 {
                    enc.emit_u32(tag, v as u32);
                    proof {
                        lemma_seq_assoc(
                            pre,
                            spec_key_bytes(tag, crate::proto::WIRE_32BIT),
                            spec_le4(v as u32),
                        );
                    }
                } else {
                    proof {
                        assert(pre + Seq::<u8>::empty() =~= pre);
                    }
                }
                Ok(())
            },
            None => Err(Error::Wrap(Cause::NumberParse)),
        },
        Kind::Sfixed64 => match parse_i64(s) {
            Some(v) => {
                if v != 0 {
                    enc.emit_u64(tag, v as u64);
                    proof {
                        lemma_seq_assoc(
                            pre,
                            spec_key_bytes(tag, crate::proto::WIRE_64BIT),
                            spec_le8(v as u64),
                        );
                    }
                } else {
                    proof {
                        assert(pre + Seq::<u8>::empty() =~= pre);
                    }
                }
                Ok(())
            },
            None => Err(Error::Wrap(Cause::NumberParse)),
        },
        Kind::Double | Kind::Float => Err(Error::Wrap(Cause::FloatKind)),
        _ => Err(Error::TypeMismatch),
    }
}

/// Emits one singular string field from its raw quoted token.
fn trans_string(enc: &mut Encoder, s: &[u8], tag: u32) -> (r: Result<(), Error>)
    requires
        s@.len() >= 2,
    ensures
        match r {
            Ok(()) => sp_string_field(tag, s@.subrange(1, s@.len() - 1)) matches Ok(d) && final(enc)@ == old(enc)@ + d,
            Err(e) => sp_string_field(tag, s@.subrange(1, s@.len() - 1)) == Err::<Seq<u8>, Error>(e) && final(enc)@ == old(enc)@,
        },
{
    let ghost pre = enc@;
    let inner: &[u8] = slice_subrange(s, 1, s.len() - 1);
    let mut z: Vec<u8> = Vec::new();
    match unescape_string(inner, &mut z) {
        Err(()) => Err(Error::Wrap(Cause::Escape)),
        Ok(()) => {
            if z.len() > 0 {
                enc.emit_len_delim(tag, z.as_slice());
                proof {
                    lemma_seq_assoc(
                        pre,
                        Seq::<u8>::empty(),
                        spec_len_delim(tag, z@),
                    );
                    assert(pre + spec_len_delim(tag, z@) =~= enc@);
                }
            } else {
                proof {
                    assert(pre + Seq::<u8>::empty() =~= pre);
                }
            }
            Ok(())
        },
    }
}

/// Emits one singular byte-string field from its raw quoted token.
fn trans_bytes(enc: &mut Encoder, s: &[u8], tag: u32) -> (r: Result<(), Error>)
    requires
        s@.len() >= 2,
    ensures
        match r {
            Ok(()) => sp_bytes_field(tag, s@.subrange(1, s@.len() - 1)) matches Ok(d) && final(enc)@ == old(enc)@ + d,
            Err(e) => sp_bytes_field(tag, s@.subrange(1, s@.len() - 1)) == Err::<Seq<u8>, Error>(e)
                && final(enc)@ == old(enc)@,
        },
{
    let ghost pre = enc@;
    let inner: &[u8] = slice_subrange(s, 1, s.len() - 1);
    match base64_decode(inner) {
        Err(_) => Err(Error::Wrap(Cause::Base64)),
        Ok(z) => {
            if z.len() > 0 {
                enc.emit_len_delim(tag, z.as_slice());
                proof {
                    assert(pre + spec_len_delim(tag, z@) =~= enc@);
                }
            } else {
                proof {
                    assert(pre + Seq::<u8>::empty() =~= pre);
                }
            }
            Ok(())
        },
    }
}

/// Skips one already-read value token, scanning containers to their close.
fn skip_value<'a>(it: &mut Iter<'a>, lead: Token<'a>, Ghost(lt): Ghost<SpecToken>) -> (r: Result<
    (),
    Error,
>)
    requires
        old(it).wf(),
        token_matches(Some(lead), lt, old(it).input()),
    ensures
        final(it).input() == old(it).input(),
        final(it).wf(),
        final(it).pos() >= old(it).pos(),
        match r {
            Ok(()) => sp_skip_value(old(it).input(), old(it).pos(), lt) == Ok::<int, Error>(
                final(it).pos(),
            ),
            Err(e) => sp_skip_value(old(it).input(), old(it).pos(), lt) == Err::<int, Error>(e),
        },
    decreases it.input().len() - it.pos(), 2int,
{
    match lead {
        Token::Null | Token::False | Token::True | Token::Number(_) | Token::Str(_) => Ok(()),
        Token::Object => skip_obj(it),
        Token::Array => skip_arr(it),
        _ => Err(Error::UnexpectedToken),
    }
}

/// Scans an unknown object to its matching closing brace.
fn skip_obj<'a>(it: &mut Iter<'a>) -> (r: Result<(), Error>)
    requires
        old(it).wf(),
    ensures
        final(it).input() == old(it).input(),
        final(it).wf(),
        final(it).pos() >= old(it).pos(),
        match r {
            Ok(()) => sp_skip_obj(old(it).input(), old(it).pos()) == Ok::<int, Error>(
                final(it).pos(),
            ),
            Err(e) => sp_skip_obj(old(it).input(), old(it).pos()) == Err::<int, Error>(e),
        },
    decreases it.input().len() - it.pos(), 1int,
{
    let ghost s = it.input();
    let ghost i0 = it.pos();
    loop
        invariant
            it.wf(),
            it.input() == s,
            s == old(it).input(),
            i0 == old(it).pos(),
            i0 <= it.pos(),
            sp_skip_obj(s, i0) == sp_skip_obj(s, it.pos()),
        decreases s.len() - it.pos(),
    {
        let ghost ipre = it.pos();
        proof {
            lemma_spec_next(s, ipre);
        }
        let tok = it.next_token();
        let ghost tj = spec_next(s, ipre);
        match tok {
            None => {
                return Err(Error::UnexpectedEof);
            },
            Some(Token::ObjectClose) => {
                return Ok(());
            },
            Some(Token::Invalid(_)) => {
                return Err(Error::UnexpectedToken);
            },
            Some(Token::Comma) | Some(Token::Colon) => {},
            Some(tk) => {
                match skip_value(it, tk, Ghost(tj.0)) {
                    Ok(()) => {},
                    Err(e) => {
                        return Err(e);
                    },
                }
            },
        }
    }
}

/// Scans an unknown array to its matching closing bracket.
fn skip_arr<'a>(it: &mut Iter<'a>) -> (r: Result<(), Error>)
    requires
        old(it).wf(),
    ensures
        final(it).input() == old(it).input(),
        final(it).wf(),
        final(it).pos() >= old(it).pos(),
        match r {
            Ok(()) => sp_skip_arr(old(it).input(), old(it).pos()) == Ok::<int, Error>(
                final(it).pos(),
            ),
            Err(e) => sp_skip_arr(old(it).input(), old(it).pos()) == Err::<int, Error>(e),
        },
    decreases it.input().len() - it.pos(), 1int,
{
    let ghost s = it.input();
    let ghost i0 = it.pos();
    loop
        invariant
            it.wf(),
            it.input() == s,
            s == old(it).input(),
            i0 == old(it).pos(),
            i0 <= it.pos(),
            sp_skip_arr(s, i0) == sp_skip_arr(s, it.pos()),
        decreases s.len() - it.pos(),
    {
        let ghost ipre = it.pos();
        proof {
            lemma_spec_next(s, ipre);
        }
        let tok = it.next_token();
        let ghost tj = spec_next(s, ipre);
        match tok {
            None => {
                return Err(Error::UnexpectedEof);
            },
            Some(Token::ArrayClose) => {
                return Ok(());
            },
            Some(Token::Invalid(_)) => {
                return Err(Error::UnexpectedToken);
            },
            Some(Token::Comma) => {},
            Some(tk) => {
                match skip_value(it, tk, Ghost(tj.0)) {
                    Ok(()) => {},
                    Err(e) => {
                        return Err(e);
                    },
                }
            },
        }
    }
}


/// Emits one field value whose lead token has just been read, dispatching on
/// the token and the declared kind.
fn trans_field<'a>(
    enc: &mut Encoder,
    it: &mut Iter<'a>,
    tag: u32,
    lead: Token<'a>,
    Ghost(lt): Ghost<SpecToken>,
    field: &Field,
) -> (r: Result<(), Error>)
    requires
        old(it).wf(),
        field.kind.wf(),
        token_matches(Some(lead), lt, old(it).input()),
        lead_ok(lt, old(it).input()),
    ensures
        final(it).input() == old(it).input(),
        final(it).wf(),
        final(it).pos() >= old(it).pos(),
        old(enc)@.is_prefix_of(final(enc)@),
        match r {
            Ok(()) => sp_field(old(it).input(), old(it).pos(), tag, lt, *field) matches Ok(
                (d, p),
            ) && final(enc)@ == old(enc)@ + d && final(it).pos() == p,
            Err(e) => sp_field(old(it).input(), old(it).pos(), tag, lt, *field) == Err::<
                (Seq<u8>, int),
                Error,
            >(e),
        },
    decreases it.input().len() - it.pos(), 2int,
{
    let ghost s = it.input();
    let ghost i0 = it.pos();
    match lead {
        Token::Str(sl) => {
            proof {
                match lt {
                    SpecToken::Str { from, to } => {
                        assert(sl@.subrange(1, sl@.len() - 1) =~= s.subrange(from + 1, to - 1));
                    },
                    _ => {},
                }
            }
            match &field.kind {
                Kind::Str => match trans_string(enc, sl, tag) {
                    Ok(()) => {
                        proof {
                            lemma_append_prefix(old(enc)@, final(enc)@.subrange(old(enc)@.len() as int, final(enc)@.len() as int));
                        }
                        Ok(())
                    },
                    Err(e) => Err(e),
                },
                Kind::Bytes => match trans_bytes(enc, sl, tag) {
                    Ok(()) => Ok(()),
                    Err(e) => Err(e),
                },
                _ => Err(Error::TypeMismatch),
            }
        },
        Token::Number(sl) => {
            proof {
                match lt {
                    SpecToken::Number { from, to } => {
                        assert(sl@ =~= s.subrange(from, to));
                    },
                    _ => {},
                }
            }
            match trans_numeric(enc, &field.kind, tag, sl) {
                Ok(()) => Ok(()),
                Err(e) => Err(e),
            }
        },
        Token::True => match &field.kind {
            Kind::Bool => {
                let ghost pre = enc@;
                enc.emit_varint(tag, 1);
                proof {
                    lemma_seq_assoc(pre, spec_key_bytes(tag, WIRE_VARINT), spec_varint(1));
                }
                Ok(())
            },
            _ => Err(Error::TypeMismatch),
        },
        Token::False => match &field.kind {
            Kind::Bool => {
                proof {
                    assert(enc@ + Seq::<u8>::empty() =~= enc@);
                }
                Ok(())
            },
            _ => Err(Error::TypeMismatch),
        },
        Token::Null => {
            if field.repeated || matches!(&field.kind, Kind::Bytes | Kind::Message(_)
                | Kind::MapEntry(_)) {
                proof {
                    assert(enc@ + Seq::<u8>::empty() =~= enc@);
                }
                Ok(())
            } else {
                Err(Error::TypeMismatch)
            }
        },
        Token::Object => match &field.kind {
            Kind::Message(m) => {
                let mut embedded = Encoder::new();
                match trans_message(&mut embedded, it, m) {
                    Err(e) => Err(e),
                    Ok(()) => {
                        let ghost pre = enc@;
                        enc.emit_len_delim(tag, embedded.as_bytes());
                        Ok(())
                    },
                }
            },
            Kind::MapEntry(e) => trans_map(enc, it, tag, e),
            _ => Err(Error::TypeMismatch),
        },
        Token::Array => {
            if !field.repeated {
                return Err(Error::TypeMismatch);
            }
            match &field.kind {
                Kind::Message(m) => rep_msg(enc, it, tag, m),
                Kind::Str => rep_str(enc, it, tag),
                Kind::Bytes => rep_bytes(enc, it, tag),
                Kind::Double | Kind::Float => Err(Error::Wrap(Cause::FloatKind)),
                Kind::MapEntry(_) => Err(Error::TypeMismatch),
                _ => {
                    let mut packed = Encoder::new();
                    match rep_packed(&mut packed, it, &field.kind) {
                        Err(e) => Err(e),
                        Ok(()) => {
                            if !packed.is_empty() {
                                let ghost pre = enc@;
                                enc.emit_len_delim(tag, packed.as_bytes());
                            } else {
                                proof {
                                    assert(enc@ + Seq::<u8>::empty() =~= enc@);
                                }
                            }
                            Ok(())
                        },
                    }
                },
            }
        },
        _ => Err(Error::UnexpectedToken),
    }
}

/// Transcodes one map value object: each key/value pair becomes one entry
/// record, fully-default pairs omitted.
fn trans_map<'a>(enc: &mut Encoder, it: &mut Iter<'a>, tag: u32, entry: &Message) -> (r: Result<
    (),
    Error,
>)
    requires
        old(it).wf(),
        entry.wf(),
        entry.spec_fields().len() == 2,
    ensures
        final(it).input() == old(it).input(),
        final(it).wf(),
        final(it).pos() >= old(it).pos(),
        old(enc)@.is_prefix_of(final(enc)@),
        match r {
            Ok(()) => sp_map(old(it).input(), old(it).pos(), tag, *entry, None) matches Ok(
                (d, p),
            ) && final(enc)@ == old(enc)@ + d && final(it).pos() == p,
            Err(e) => sp_map(old(it).input(), old(it).pos(), tag, *entry, None) == Err::<
                (Seq<u8>, int),
                Error,
            >(e),
        },
    decreases it.input().len() - it.pos(), 1int,
{
    let ghost s = it.input();
    let ghost i0 = it.pos();
    let fs: &[Field] = entry.get_fields();
    let key_field: &Field = &fs[0];
    let val_field: &Field = &fs[1];
    let mut sub_enc = Encoder::new();
    let mut key: Option<Token<'a>> = None;
    let ghost mut kb: (int, int) = (0int, 0int);
    loop
        invariant
            it.wf(),
            it.input() == s,
            s == old(it).input(),
            i0 == old(it).pos(),
            i0 <= it.pos(),
            entry.wf(),
            entry.spec_fields().len() == 2,
            *key_field == entry.spec_fields()[0],
            *val_field == entry.spec_fields()[1],
            old(enc)@.is_prefix_of(enc@),
            match key {
                Some(ktok) => token_matches(
                    Some(ktok),
                    SpecToken::Str { from: kb.0, to: kb.1 },
                    s,
                ) && lead_ok(SpecToken::Str { from: kb.0, to: kb.1 }, s) && i0 < it.pos(),
                None => true,
            },
            ({
                let kv = match key {
                    Some(_) => Some(kb),
                    None => None,
                };
                match sp_map(s, it.pos(), tag, *entry, kv) {
                    Ok((d, p)) => sp_map(s, i0, tag, *entry, None) matches Ok((dd, pp)) && old(enc)@ + dd == enc@ + d && pp == p,
                    Err(e) => sp_map(s, i0, tag, *entry, None) == Err::<(Seq<u8>, int), Error>(e),
                }
            }),
        decreases s.len() - it.pos(),
    {
        let ghost ipre = it.pos();
        proof {
            lemma_spec_next(s, ipre);
        }
        let tok = it.next_token();
        let ghost tj = spec_next(s, ipre);
        match tok {
            None => {
                return Err(Error::UnexpectedEof);
            },
            Some(Token::Comma) | Some(Token::Colon) => {},
            Some(tk) => {
                match key {
                    None => match tk {
                        Token::ObjectClose => {
                            proof {
                                assert(enc@ + Seq::<u8>::empty() =~= enc@);
                            }
                            return Ok(());
                        },
                        Token::Str(_) => {
                            key = Some(tk);
                            proof {
                                kb = (tj.0->Str_from, tj.0->Str_to);
                            }
                        },
                        _ => {
                            return Err(Error::UnexpectedToken);
                        },
                    },
                    Some(ktok) => {
                        sub_enc.clear();
                        let ghost pre_enc = enc@;
                        match trans_field(
                            &mut sub_enc,
                            it,
                            1,
                            ktok,
                            Ghost(SpecToken::Str { from: kb.0, to: kb.1 }),
                            key_field,
                        ) {
                            Err(e) => {
                                return Err(e);
                            },
                            Ok(()) => {},
                        }
                        if matches!(tk, Token::Invalid(_)) {
                            proof {
                                assert(tj.0 is Invalid);
                                let t = tj.0;
                                let j = tj.1;
                                assert(spec_next(s, ipre) == (t, j));
                                assert(sp_str_lead_field(
                                    1,
                                    s.subrange(kb.0 + 1, kb.1 - 1),
                                    entry.spec_fields()[0],
                                ) is Ok);
                                if ipre < j && j <= s.len() {
                                    assert(sp_field(s, j, 2, t, entry.spec_fields()[1]) == Err::<
                                        (Seq<u8>, int),
                                        Error,
                                    >(Error::UnexpectedToken));
                                }
                                assert(sp_map(s, ipre, tag, *entry, Some(kb)) == Err::<
                                    (Seq<u8>, int),
                                    Error,
                                >(Error::UnexpectedToken));
                            }
                            return Err(Error::UnexpectedToken);
                        }
                        match trans_field(&mut sub_enc, it, 2, tk, Ghost(tj.0), val_field) {
                            Err(e) => {
                                return Err(e);
                            },
                            Ok(()) => {},
                        }
                        if !sub_enc.is_empty() {
                            enc.emit_len_delim(tag, sub_enc.as_bytes());
                            proof {
                                lemma_append_prefix(pre_enc, spec_len_delim(tag, sub_enc@));
                                lemma_prefix_trans(old(enc)@, pre_enc, enc@);
                            }
                        } else {
                            proof {
                                assert(pre_enc + Seq::<u8>::empty() =~= pre_enc);
                            }
                        }
                        key = None;
                    },
                }
            },
        }
    }
}

/// The array loop of repeated message elements.
fn rep_msg<'a>(enc: &mut Encoder, it: &mut Iter<'a>, tag: u32, m: &Message) -> (r: Result<
    (),
    Error,
>)
    requires
        old(it).wf(),
        m.wf(),
    ensures
        final(it).input() == old(it).input(),
        final(it).wf(),
        final(it).pos() >= old(it).pos(),
        old(enc)@.is_prefix_of(final(enc)@),
        match r {
            Ok(()) => sp_rep_msg(old(it).input(), old(it).pos(), tag, *m) matches Ok((d, p))
                && final(enc)@ == old(enc)@ + d && final(it).pos() == p,
            Err(e) => sp_rep_msg(old(it).input(), old(it).pos(), tag, *m) == Err::<
                (Seq<u8>, int),
                Error,
            >(e),
        },
    decreases it.input().len() - it.pos(), 1int,
{
    let ghost s = it.input();
    let ghost i0 = it.pos();
    loop
        invariant
            it.wf(),
            it.input() == s,
            s == old(it).input(),
            i0 == old(it).pos(),
            i0 <= it.pos(),
            m.wf(),
            old(enc)@.is_prefix_of(enc@),
            match sp_rep_msg(s, it.pos(), tag, *m) {
                Ok((d, p)) => sp_rep_msg(s, i0, tag, *m) matches Ok((dd, pp)) && old(enc)@ + dd
                    == enc@ + d && pp == p,
                Err(e) => sp_rep_msg(s, i0, tag, *m) == Err::<(Seq<u8>, int), Error>(e),
            },
        decreases s.len() - it.pos(),
    {
        let ghost ipre = it.pos();
        proof {
            lemma_spec_next(s, ipre);
        }
        let tok = it.next_token();
        let ghost tj = spec_next(s, ipre);
        match tok {
            None => {
                return Err(Error::UnexpectedEof);
            },
            Some(Token::ArrayClose) => {
                proof {
                    assert(enc@ + Seq::<u8>::empty() =~= enc@);
                }
                return Ok(());
            },
            Some(Token::Comma) => {},
            Some(Token::Object) => {
                let mut z = Encoder::new();
                match trans_message(&mut z, it, m) {
                    Err(e) => {
                        return Err(e);
                    },
                    Ok(()) => {},
                }
                let ghost pre_enc = enc@;
                enc.emit_len_delim(tag, z.as_bytes());
                proof {
                    lemma_append_prefix(pre_enc, spec_len_delim(tag, z@));
                    lemma_prefix_trans(old(enc)@, pre_enc, enc@);
                }
            },
            Some(_) => {
                return Err(Error::UnexpectedToken);
            },
        }
    }
}

/// The array loop of repeated string elements.
fn rep_str<'a>(enc: &mut Encoder, it: &mut Iter<'a>, tag: u32) -> (r: Result<(), Error>)
    requires
        old(it).wf(),
    ensures
        final(it).input() == old(it).input(),
        final(it).wf(),
        final(it).pos() >= old(it).pos(),
        old(enc)@.is_prefix_of(final(enc)@),
        match r {
            Ok(()) => sp_rep_str(old(it).input(), old(it).pos(), tag) matches Ok((d, p)) && final(enc)@ == old(enc)@ + d && final(it).pos() == p,
            Err(e) => sp_rep_str(old(it).input(), old(it).pos(), tag) == Err::<
                (Seq<u8>, int),
                Error,
            >(e),
        },
    decreases it.input().len() - it.pos(), 1int,
{
    let ghost s = it.input();
    let ghost i0 = it.pos();
    loop
        invariant
            it.wf(),
            it.input() == s,
            s == old(it).input(),
            i0 == old(it).pos(),
            i0 <= it.pos(),
            old(enc)@.is_prefix_of(enc@),
            match sp_rep_str(s, it.pos(), tag) {
                Ok((d, p)) => sp_rep_str(s, i0, tag) matches Ok((dd, pp)) && old(enc)@ + dd == enc@
                    + d && pp == p,
                Err(e) => sp_rep_str(s, i0, tag) == Err::<(Seq<u8>, int), Error>(e),
            },
        decreases s.len() - it.pos(),
    {
        let ghost ipre = it.pos();
        proof {
            lemma_spec_next(s, ipre);
        }
        let tok = it.next_token();
        let ghost tj = spec_next(s, ipre);
        match tok {
            None => {
                return Err(Error::UnexpectedEof);
            },
            Some(Token::ArrayClose) => {
                proof {
                    assert(enc@ + Seq::<u8>::empty() =~= enc@);
                }
                return Ok(());
            },
            Some(Token::Comma) => {},
            Some(Token::Str(sl)) => {
                proof {
                    match tj.0 {
                        SpecToken::Str { from, to } => {
                            assert(sl@.subrange(1, sl@.len() - 1) =~= s.subrange(
                                from + 1,
                                to - 1,
                            ));
                        },
                        _ => {},
                    }
                }
                let inner: &[u8] = slice_subrange(sl, 1, sl.len() - 1);
                let mut z: Vec<u8> = Vec::new();
                match unescape_string(inner, &mut z) {
                    Err(()) => {
                        return Err(Error::Wrap(Cause::Escape));
                    },
                    Ok(()) => {},
                }
                let ghost pre_enc = enc@;
                enc.emit_len_delim(tag, z.as_slice());
                proof {
                    lemma_append_prefix(pre_enc, spec_len_delim(tag, z@));
                    lemma_prefix_trans(old(enc)@, pre_enc, enc@);
                }
            },
            Some(_) => {
                return Err(Error::UnexpectedToken);
            },
        }
    }
}

/// The array loop of repeated byte-string elements.
fn rep_bytes<'a>(enc: &mut Encoder, it: &mut Iter<'a>, tag: u32) -> (r: Result<(), Error>)
    requires
        old(it).wf(),
    ensures
        final(it).input() == old(it).input(),
        final(it).wf(),
        final(it).pos() >= old(it).pos(),
        old(enc)@.is_prefix_of(final(enc)@),
        match r {
            Ok(()) => sp_rep_bytes(old(it).input(), old(it).pos(), tag) matches Ok((d, p))
                && final(enc)@ == old(enc)@ + d && final(it).pos() == p,
            Err(e) => sp_rep_bytes(old(it).input(), old(it).pos(), tag) == Err::<
                (Seq<u8>, int),
                Error,
            >(e),
        },
    decreases it.input().len() - it.pos(), 1int,
{
    let ghost s = it.input();
    let ghost i0 = it.pos();
    loop
        invariant
            it.wf(),
            it.input() == s,
            s == old(it).input(),
            i0 == old(it).pos(),
            i0 <= it.pos(),
            old(enc)@.is_prefix_of(enc@),
            match sp_rep_bytes(s, it.pos(), tag) {
                Ok((d, p)) => sp_rep_bytes(s, i0, tag) matches Ok((dd, pp)) && old(enc)@ + dd
                    == enc@ + d && pp == p,
                Err(e) => sp_rep_bytes(s, i0, tag) == Err::<(Seq<u8>, int), Error>(e),
            },
        decreases s.len() - it.pos(),
    {
        let ghost ipre = it.pos();
        proof {
            lemma_spec_next(s, ipre);
        }
        let tok = it.next_token();
        let ghost tj = spec_next(s, ipre);
        match tok {
            None => {
                return Err(Error::UnexpectedEof);
            },
            Some(Token::ArrayClose) => {
                proof {
                    assert(enc@ + Seq::<u8>::empty() =~= enc@);
                }
                return Ok(());
            },
            Some(Token::Comma) => {},
            Some(Token::Str(sl)) => {
                proof {
                    match tj.0 {
                        SpecToken::Str { from, to } => {
                            assert(sl@.subrange(1, sl@.len() - 1) =~= s.subrange(
                                from + 1,
                                to - 1,
                            ));
                        },
                        _ => {},
                    }
                }
                let inner: &[u8] = slice_subrange(sl, 1, sl.len() - 1);
                let z: Vec<u8> = match base64_decode(inner) {
                    Err(_) => {
                        return Err(Error::Wrap(Cause::Base64));
                    },
                    Ok(z) => z,
                };
                let ghost pre_enc = enc@;
                enc.emit_len_delim(tag, z.as_slice());
                proof {
                    lemma_append_prefix(pre_enc, spec_len_delim(tag, z@));
                    lemma_prefix_trans(old(enc)@, pre_enc, enc@);
                }
            },
            Some(_) => {
                return Err(Error::UnexpectedToken);
            },
        }
    }
}

/// The array loop of packed scalar elements, writing raw primitives into the
/// packed payload encoder.
fn rep_packed<'a>(packed: &mut Encoder, it: &mut Iter<'a>, kind: &Kind) -> (r: Result<(), Error>)
    requires
        old(it).wf(),
    ensures
        final(it).input() == old(it).input(),
        final(it).wf(),
        final(it).pos() >= old(it).pos(),
        old(packed)@.is_prefix_of(final(packed)@),
        match r {
            Ok(()) => sp_rep_packed(old(it).input(), old(it).pos(), *kind) matches Ok((d, p))
                && final(packed)@ == old(packed)@ + d && final(it).pos() == p,
            Err(e) => sp_rep_packed(old(it).input(), old(it).pos(), *kind) == Err::<
                (Seq<u8>, int),
                Error,
            >(e),
        },
    decreases it.input().len() - it.pos(), 1int,
{
    let ghost s = it.input();
    let ghost i0 = it.pos();
    loop
        invariant
            it.wf(),
            it.input() == s,
            s == old(it).input(),
            i0 == old(it).pos(),
            i0 <= it.pos(),
            old(packed)@.is_prefix_of(packed@),
            match sp_rep_packed(s, it.pos(), *kind) {
                Ok((d, p)) => sp_rep_packed(s, i0, *kind) matches Ok((dd, pp)) && old(packed)@ + dd
                    == packed@ + d && pp == p,
                Err(e) => sp_rep_packed(s, i0, *kind) == Err::<(Seq<u8>, int), Error>(e),
            },
        decreases s.len() - it.pos(),
    {
        let ghost ipre = it.pos();
        proof {
            lemma_spec_next(s, ipre);
        }
        let tok = it.next_token();
        let ghost tj = spec_next(s, ipre);
        match tok {
            None => {
                return Err(Error::UnexpectedEof);
            },
            Some(Token::ArrayClose) => {
                proof {
                    assert(packed@ + Seq::<u8>::empty() =~= packed@);
                }
                return Ok(());
            },
            Some(Token::Comma) => {},
            Some(Token::True) => {
                if !matches!(kind, Kind::Bool) {
                    return Err(Error::UnexpectedToken);
                }
                let ghost pre = packed@;
                packed.write_varint(1);
                proof {
                    lemma_append_prefix(pre, spec_varint(1));
                    lemma_prefix_trans(old(packed)@, pre, packed@);
                    assert(spec_varint(1) =~= seq![1u8]);
                }
            },
            Some(Token::False) => {
                if !matches!(kind, Kind::Bool) {
                    return Err(Error::UnexpectedToken);
                }
                let ghost pre = packed@;
                packed.write_varint(0);
                proof {
                    lemma_append_prefix(pre, spec_varint(0));
                    lemma_prefix_trans(old(packed)@, pre, packed@);
                    assert(spec_varint(0) =~= seq![0u8]);
                }
            },
            Some(Token::Number(sl)) => {
                proof {
                    match tj.0 {
                        SpecToken::Number { from, to } => {
                            assert(sl@ =~= s.subrange(from, to));
                        },
                        _ => {},
                    }
                }
                let ghost pre = packed@;
                match kind {
                    Kind::Bool => {
                        return Err(Error::UnexpectedToken);
                    },
                    Kind::Int32 => match parse_i32(sl) {
                        Some(v) => packed.write_varint(((v as i64) as u64)),
                        None => {
                            return Err(Error::Wrap(Cause::NumberParse));
                        },
                    },
                    Kind::Int64 => match parse_i64(sl) {
                        Some(v) => packed.write_varint((v as u64)),
                        None => {
                            return Err(Error::Wrap(Cause::NumberParse));
                        },
                    },
                    Kind::Uint32 => match parse_u32(sl) {
                        Some(v) => packed.write_varint(v as u64),
                        None => {
                            return Err(Error::Wrap(Cause::NumberParse));
                        },
                    },
                    Kind::Uint64 => match parse_digits(sl) {
                        Some(v) => packed.write_varint(v),
                        None => {
                            return Err(Error::Wrap(Cause::NumberParse));
                        },
                    },
                    Kind::Sint32 => match parse_i32(sl) {
                        Some(v) => packed.write_zigzag(v as i64),
                        None => {
                            return Err(Error::Wrap(Cause::NumberParse));
                        },
                    },
                    Kind::Sint64 => match parse_i64(sl) {
                        Some(v) => packed.write_zigzag(v),
                        None => {
                            return Err(Error::Wrap(Cause::NumberParse));
                        },
                    },
                    Kind::Fixed32 => match parse_u32(sl) {
                        Some(v) => packed.write_le4(v),
                        None => {
                            return Err(Error::Wrap(Cause::NumberParse));
                        },
                    },
                    Kind::Fixed64 => match parse_digits(sl) {
                        Some(v) => packed.write_le8(v),
                        None => {
                            return Err(Error::Wrap(Cause::NumberParse));
                        },
                    },
                    Kind::Sfixed32 => match parse_i32(sl) {
                        Some(v) => packed.write_le4(v as u32),
                        None => {
                            return Err(Error::Wrap(Cause::NumberParse));
                        },
                    },
                    Kind::Sfixed64 => match parse_i64(sl) {
                        Some(v) => packed.write_le8(v as u64),
                        None => {
                            return Err(Error::Wrap(Cause::NumberParse));
                        },
                    },
                    _ => {
                        return Err(Error::UnexpectedToken);
                    },
                }
                proof {
                    lemma_prefix_trans(
                        old(packed)@,
                        pre,
                        packed@,
                    );
                    lemma_append_prefix(pre, packed@.subrange(pre.len() as int, packed@.len() as int));
                }
            },
            Some(_) => {
                return Err(Error::UnexpectedToken);
            },
        }
    }
}

/// The object loop of one message: keys are looked up in the schema, known
/// fields transcoded, unknown values skipped.
fn trans_message<'a>(enc: &mut Encoder, it: &mut Iter<'a>, msg: &Message) -> (r: Result<
    (),
    Error,
>)
    requires
        old(it).wf(),
        msg.wf(),
    ensures
        final(it).input() == old(it).input(),
        final(it).wf(),
        final(it).pos() >= old(it).pos(),
        old(enc)@.is_prefix_of(final(enc)@),
        match r {
            Ok(()) => sp_message(old(it).input(), old(it).pos(), *msg, None) matches Ok((d, p))
                && final(enc)@ == old(enc)@ + d && final(it).pos() == p,
            Err(e) => sp_message(old(it).input(), old(it).pos(), *msg, None) == Err::<
                (Seq<u8>, int),
                Error,
            >(e),
        },
    decreases it.input().len() - it.pos(), 0int,
{
    let ghost s = it.input();
    let ghost i0 = it.pos();
    let mut key: Option<&'a [u8]> = None;
    loop
        invariant
            it.wf(),
            it.input() == s,
            s == old(it).input(),
            i0 == old(it).pos(),
            i0 <= it.pos(),
            msg.wf(),
            old(enc)@.is_prefix_of(enc@),
            match key {
                Some(k) => k@.len() >= 2 && i0 < it.pos(),
                None => true,
            },
            match sp_message(s, it.pos(), *msg, key_view(key)) {
                Ok((d, p)) => sp_message(s, i0, *msg, None) matches Ok((dd, pp)) && old(enc)@ + dd
                    == enc@ + d && pp == p,
                Err(e) => sp_message(s, i0, *msg, None) == Err::<(Seq<u8>, int), Error>(e),
            },
        decreases s.len() - it.pos(),
    {
        let ghost ipre = it.pos();
        proof {
            lemma_spec_next(s, ipre);
        }
        let tok = it.next_token();
        let ghost tj = spec_next(s, ipre);
        match tok {
            None => {
                return Err(Error::UnexpectedEof);
            },
            Some(Token::Comma) | Some(Token::Colon) => {},
            Some(tk) => {
                match key {
                    None => match tk {
                        Token::ObjectClose => {
                            proof {
                                assert(enc@ + Seq::<u8>::empty() =~= enc@);
                            }
                            return Ok(());
                        },
                        Token::Str(k) => {
                            key = Some(k);
                        },
                        _ => {
                            return Err(Error::UnexpectedToken);
                        },
                    },
                    Some(k) => {
                        let ghost key_content = k@.subrange(1, k@.len() - 1);
                        let inner: &[u8] = slice_subrange(k, 1, k.len() - 1);
                        let name: &str = match core::str::from_utf8(inner) {
                            Err(_) => {
                                return Err(Error::Wrap(Cause::Utf8));
                            },
                            Ok(n) => n,
                        };
                        match msg.get_by_name(name) {
                            Some(field) => {
                                proof {
                                    crate::metadata::lemma_field_by_name(
                                        msg.spec_fields(),
                                        key_content,
                                    );
                                }
                                if matches!(tk, Token::Invalid(_)) {
                                    proof {
                                        assert(tj.0 is Invalid);
                                        let t = tj.0;
                                        let j = tj.1;
                                        assert(valid_utf8(key_content));
                                        let fb = spec_field_by_name(msg.spec_fields(), key_content);
                                        assert(fb is Some);
                                        let fi = fb->Some_0;
                                        assert(*field == msg.spec_fields()[fi]);
                                        if ipre < j && j <= s.len() {
                                            assert(sp_field(
                                                s,
                                                j,
                                                msg.spec_fields()[fi].tag,
                                                t,
                                                msg.spec_fields()[fi],
                                            ) == Err::<(Seq<u8>, int), Error>(
                                                Error::UnexpectedToken,
                                            ));
                                        }
                                        assert(sp_message(s, ipre, *msg, key_view(key)) == Err::<
                                            (Seq<u8>, int),
                                            Error,
                                        >(Error::UnexpectedToken));
                                    }
                                    return Err(Error::UnexpectedToken);
                                }
                                let ghost pre_enc = enc@;
                                match trans_field(enc, it, field.tag, tk, Ghost(tj.0), field) {
                                    Err(e) => {
                                        proof {
                                            lemma_prefix_trans(old(enc)@, pre_enc, enc@);
                                        }
                                        return Err(e);
                                    },
                                    Ok(()) => {},
                                }
                                proof {
                                    lemma_prefix_trans(old(enc)@, pre_enc, enc@);
                                }
                                key = None;
                            },
                            None => {
                                if matches!(tk, Token::Invalid(_)) {
                                    return Err(Error::UnexpectedToken);
                                }
                                match skip_value(it, tk, Ghost(tj.0)) {
                                    Err(e) => {
                                        return Err(e);
                                    },
                                    Ok(()) => {},
                                }
                                key = None;
                            },
                        }
                    },
                }
            },
        }
    }
}

/// Transcodes one complete JSON message into wire-format bytes. The input
/// must open an object; its fields are emitted as the schema directs, with
/// singular defaults omitted, unknown keys skipped, and separators tolerated
/// but not required. On failure the bytes already appended remain.
pub fn trans_json_to_proto<'a>(enc: &mut Encoder, it: &mut Iter<'a>, msg: &Message) -> (r: Result<
    (),
    Error,
>)
    requires
        old(it).wf(),
        msg.wf(),
    ensures
        final(it).input() == old(it).input(),
        final(it).wf(),
        old(enc)@.is_prefix_of(final(enc)@),
        match r {
            Ok(()) => sp_json_to_proto(old(it).input(), old(it).pos(), *msg) matches Ok((d, p))
                && final(enc)@ == old(enc)@ + d && final(it).pos() == p,
            Err(e) => sp_json_to_proto(old(it).input(), old(it).pos(), *msg) == Err::<
                (Seq<u8>, int),
                Error,
            >(e),
        },
{
    proof {
        lemma_spec_next(it.input(), it.pos());
    }
    let tok = it.next_token();
    match tok {
        Some(Token::Object) => trans_message(enc, it, msg),
        None => {
            proof {
                lemma_append_prefix(old(enc)@, Seq::<u8>::empty());
                assert(old(enc)@ + Seq::<u8>::empty() =~= old(enc)@);
            }
            Err(Error::UnexpectedEof)
        },
        _ => {
            proof {
                lemma_append_prefix(old(enc)@, Seq::<u8>::empty());
                assert(old(enc)@ + Seq::<u8>::empty() =~= old(enc)@);
            }
            Err(Error::UnexpectedToken)
        },
    }
}


/// Default omission: a numeric token that parses to the kind's zero, a
/// `false` boolean, and a string body that unescapes to empty each produce
/// no wire bytes at all.
pub proof fn lemma_default_omission(tag: u32, s: Seq<u8>, i: int, f: Field)
    ensures
        (f.kind is Int32 || f.kind is Sint32 || f.kind is Sfixed32) && spec_parse_i32(s) == Some(
            0i32,
        ) ==> sp_numeric(f.kind, tag, s) == Ok::<Seq<u8>, Error>(Seq::empty()),
        (f.kind is Int64 || f.kind is Sint64 || f.kind is Sfixed64) && spec_parse_i64(s) == Some(
            0i64,
        ) ==> sp_numeric(f.kind, tag, s) == Ok::<Seq<u8>, Error>(Seq::empty()),
        (f.kind is Uint32 || f.kind is Fixed32) && spec_parse_u32(s) == Some(0u32)
            ==> sp_numeric(f.kind, tag, s) == Ok::<Seq<u8>, Error>(Seq::empty()),
        (f.kind is Uint64 || f.kind is Fixed64) && spec_parse_u64(s) == Some(0u64)
            ==> sp_numeric(f.kind, tag, s) == Ok::<Seq<u8>, Error>(Seq::empty()),
        f.kind is Bool ==> sp_field(s, i, tag, SpecToken::False, f) == Ok::<(Seq<u8>, int), Error>(
            (Seq::empty(), i),
        ),
        spec_unescape(s) == Ok::<Seq<u8>, ()>(Seq::empty()) ==> sp_string_field(tag, s) == Ok::<
            Seq<u8>,
            Error,
        >(Seq::empty()),
{
}

/// A JSON `null` encodes as nothing for a repeated, byte-string, message or
/// map field, and is a type mismatch for every other kind.
pub proof fn lemma_null_field(s: Seq<u8>, i: int, tag: u32, f: Field)
    ensures
        sp_field(s, i, tag, SpecToken::Null, f) == (if f.repeated || f.kind is Bytes
            || f.kind is Message || f.kind is MapEntry {
            Ok::<(Seq<u8>, int), Error>((Seq::empty(), i))
        } else {
            Err::<(Seq<u8>, int), Error>(Error::TypeMismatch)
        }),
{
}

/// A packed repeated field emits exactly one length-prefixed record holding
/// the concatenated raw primitives, and none at all for an empty array.
pub proof fn lemma_packed_single_record(s: Seq<u8>, i: int, tag: u32, f: Field)
    requires
        f.repeated,
        f.kind is Int32 || f.kind is Int64 || f.kind is Uint32 || f.kind is Uint64
            || f.kind is Sint32 || f.kind is Sint64 || f.kind is Fixed32 || f.kind is Fixed64
            || f.kind is Sfixed32 || f.kind is Sfixed64 || f.kind is Bool,
    ensures
        sp_rep_packed(s, i, f.kind) matches Ok((payload, p)) ==> sp_field(
            s,
            i,
            tag,
            SpecToken::Array,
            f,
        ) == Ok::<(Seq<u8>, int), Error>(
            (
                if payload.len() > 0 {
                    spec_len_delim(tag, payload)
                } else {
                    Seq::empty()
                },
                p,
            ),
        ),
{
}

/// The empty JSON object encodes to the empty byte stream.
pub proof fn lemma_empty_object(msg: Message)
    ensures
        sp_json_to_proto(seq![0x7bu8, 0x7du8], 0, msg) == Ok::<(Seq<u8>, int), Error>(
            (Seq::empty(), 2),
        ),
{
    let s = seq![0x7bu8, 0x7du8];
    assert(spec_skip_ws(s, 0) == 0);
    assert(spec_next(s, 0) == (SpecToken::Object, 1int));
    assert(spec_skip_ws(s, 1) == 1);
    assert(spec_next(s, 1) == (SpecToken::ObjectClose, 2int));
    assert(sp_message(s, 1, msg, None) == Ok::<(Seq<u8>, int), Error>((Seq::empty(), 2)));
}


/// The decimal rendering of a value is all digits and is worth the value.
proof fn lemma_dec_digits_val(v: nat)
    ensures
        all_digits(spec_dec_digits(v)),
        digits_val(spec_dec_digits(v)) == v,
    decreases v,
{
    let d = spec_dec_digits(v);
    if v < 10 {
        assert(d =~= seq![(0x30 + v) as u8]);
        assert(d.last() == (0x30 + v) as u8);
        assert(d.drop_last() =~= Seq::<u8>::empty());
        assert(digits_val(d) == digits_val(d.drop_last()) * 10 + (d.last() - 0x30) as nat);
        assert(digits_val(d.drop_last()) == 0);
        assert((d.last() - 0x30) as nat == v);
    } else {
        lemma_dec_digits_val(v / 10);
        let head = spec_dec_digits(v / 10);
        assert(d.drop_last() =~= head);
        assert(d.last() == (0x30 + v % 10) as u8);
        assert(digits_val(d) == digits_val(head) * 10 + (v % 10));
        assert((v / 10) * 10 + (v % 10) == v);
        assert forall|k: int| 0 <= k < d.len() implies 0x30 <= #[trigger] d[k] <= 0x39 by {
            if k < head.len() {
                assert(d[k] == head[k]);
            }
        }
    }
}

/// Formatting a value in decimal and parsing the digits back recovers the
/// value, for unsigned and signed alike.
pub proof fn lemma_decimal_roundtrip(v: u64, n: i64)
    ensures
        spec_parse_u64(spec_dec_digits(v as nat)) == Some(v),
        spec_parse_i64(spec_dec_i64(n)) == Some(n),
{
    lemma_dec_digits_val(v as nat);
    let d = spec_dec_digits(v as nat);
    assert(0x30 <= d[0] <= 0x39);
    if n >= 0 {
        lemma_dec_digits_val(n as nat);
        let dn = spec_dec_digits(n as nat);
        assert(0x30 <= dn[0] <= 0x39);
        assert(spec_dec_i64(n) == dn);
    } else {
        let m = (-(n as int)) as nat;
        lemma_dec_digits_val(m);
        let dn = spec_dec_i64(n);
        assert(dn == seq![0x2du8] + spec_dec_digits(m));
        assert(dn[0] == 0x2d);
        assert(dn.subrange(1, dn.len() as int) =~= spec_dec_digits(m));
        assert(m <= 0x8000000000000000);
        assert((0 - m) as i64 == n);
    }
}


/// A scalar value printed in decimal by the decoding direction re-encodes
/// to exactly the record the encoder writes for it, zero back to nothing.
pub proof fn lemma_scalar_reencode(tag: u32, v: u64, n: i64)
    ensures
        sp_numeric(Kind::Uint64, tag, spec_dec_digits(v as nat)) == Ok::<Seq<u8>, Error>(
            if v != 0 {
                spec_key_bytes(tag, WIRE_VARINT) + spec_varint(v as nat)
            } else {
                Seq::empty()
            },
        ),
        sp_numeric(Kind::Int64, tag, spec_dec_i64(n)) == Ok::<Seq<u8>, Error>(
            if n != 0 {
                spec_key_bytes(tag, WIRE_VARINT) + spec_varint((n as u64) as nat)
            } else {
                Seq::empty()
            },
        ),
{
    lemma_decimal_roundtrip(v, n);
}

} // verus!
