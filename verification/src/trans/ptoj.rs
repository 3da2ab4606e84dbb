//! Schema-directed transcoding from the binary wire format to JSON text:
//! records are read in order, grouped by tag into fields, and formatted as
//! the schema directs; unknown tags are skipped with the cursor advanced.

use super::append::{spec_bool_bytes, spec_dec_digits, spec_dec_i64, Append};
use super::outside::base64_encoding;
use super::{Cause, Error};
use crate::json::{escape_string, spec_escape};
use crate::metadata::{field_name_bytes, spec_field_idx, Field, Kind, Message};
use crate::proto::{
    lemma_key_roundtrip, lemma_varint_roundtrip, spec_key, spec_key_bytes, spec_le4_val,
    spec_le8_val, spec_read_varint, spec_unzigzag, spec_varint, Decoder, WireError, WIRE_32BIT,
    WIRE_64BIT, WIRE_LEN_DELIM, WIRE_VARINT,
};
use vstd::prelude::*;

verus! {

/// The payload of one wire record.
pub enum Value<'a> {
    Missing,
    U32(u32),
    U64(u64),
    Bytes(&'a [u8]),
}

/// The specification-level payload of one wire record.
pub enum SpVal {
    Missing,
    U32(u32),
    U64(u64),
    Bytes(Seq<u8>),
}

/// The specification view of a payload.
pub open spec fn val_view(v: Value) -> SpVal {
    match v {
        Value::Missing => SpVal::Missing,
        Value::U32(x) => SpVal::U32(x),
        Value::U64(x) => SpVal::U64(x),
        Value::Bytes(b) => SpVal::Bytes(b@),
    }
}

/// How many bytes a payload spans on its own.
pub open spec fn val_size(v: SpVal) -> nat {
    match v {
        SpVal::Bytes(b) => b.len(),
        _ => 0,
    }
}

/// The wire type every record of a field must carry.
pub open spec fn spec_field_wire(f: Field) -> u32 {
    if f.repeated {
        WIRE_LEN_DELIM
    } else {
        match f.kind {
            Kind::Double => WIRE_64BIT,
            Kind::Float => WIRE_32BIT,
            Kind::Int32 => WIRE_VARINT,
            Kind::Int64 => WIRE_VARINT,
            Kind::Uint32 => WIRE_VARINT,
            Kind::Uint64 => WIRE_VARINT,
            Kind::Sint32 => WIRE_VARINT,
            Kind::Sint64 => WIRE_VARINT,
            Kind::Fixed32 => WIRE_32BIT,
            Kind::Fixed64 => WIRE_64BIT,
            Kind::Sfixed32 => WIRE_32BIT,
            Kind::Sfixed64 => WIRE_64BIT,
            Kind::Bool => WIRE_VARINT,
            Kind::Str => WIRE_LEN_DELIM,
            Kind::Bytes => WIRE_LEN_DELIM,
            Kind::MapEntry(_) => WIRE_LEN_DELIM,
            Kind::Message(_) => WIRE_LEN_DELIM,
        }
    }
}

/// The JSON default written for a field whose value is absent from a map
/// entry.
pub open spec fn sp_default_value(f: Field) -> Seq<u8> {
    if f.repeated {
        seq![0x6eu8, 0x75u8, 0x6cu8, 0x6cu8]  // null
    } else {
        match f.kind {
            Kind::Bool => spec_bool_bytes(false),
            Kind::Str | Kind::Bytes => seq![0x22u8, 0x22u8],
            Kind::MapEntry(_) | Kind::Message(_) => seq![0x6eu8, 0x75u8, 0x6cu8, 0x6cu8],
            _ => seq![0x30u8],  // 0
        }
    }
}

/// A quoted, escaped JSON string.
pub open spec fn sp_string_out(data: Seq<u8>) -> Seq<u8> {
    seq![0x22u8] + spec_escape(data) + seq![0x22u8]
}

/// A quoted base64 rendering, refused only when its length cannot be
/// addressed.
pub open spec fn sp_bytes_out(data: Seq<u8>) -> Result<Seq<u8>, Error> {
    if data.len() > 3 * (usize::MAX / 4) {
        Err(Error::Wrap(Cause::TooLarge))
    } else {
        Ok(seq![0x22u8] + base64_encoding(data) + seq![0x22u8])
    }
}

/// One record read from position `i`: its tag, wire type, payload, and the
/// position after it.
pub open spec fn sp_read_record(s: Seq<u8>, i: int) -> Result<((u32, u32, SpVal), int), Error> {
    match spec_read_varint(s, i) {
        Err(e) => Err(Error::Io(e)),
        Ok((key, i1)) => {
            let tag = (key >> 3) as u32;
            let wire = (key & 7) as u32;
            if wire == WIRE_VARINT {
                match spec_read_varint(s, i1) {
                    Ok((v, i2)) => Ok(((tag, wire, SpVal::U64(v)), i2)),
                    Err(e) => Err(Error::Io(e)),
                }
            } else if wire == WIRE_32BIT {
                if i1 + 4 <= s.len() {
                    Ok(((tag, wire, SpVal::U32(spec_le4_val(s, i1))), i1 + 4))
                } else {
                    Err(Error::Io(WireError::UnexpectedEof))
                }
            } else if wire == WIRE_64BIT {
                if i1 + 8 <= s.len() {
                    Ok(((tag, wire, SpVal::U64(spec_le8_val(s, i1))), i1 + 8))
                } else {
                    Err(Error::Io(WireError::UnexpectedEof))
                }
            } else if wire == WIRE_LEN_DELIM {
                match spec_read_varint(s, i1) {
                    Ok((n, i2)) => if i2 + (n as usize) <= s.len() {
                        Ok(
                            (
                                (tag, wire, SpVal::Bytes(s.subrange(i2, i2 + (n as usize)))),
                                i2 + (n as usize),
                            ),
                        )
                    } else {
                        Err(Error::Io(WireError::UnexpectedEof))
                    },
                    Err(e) => Err(Error::Io(e)),
                }
            } else {
                Err(Error::InvalidWireType)
            }
        },
    }
}

/// The decimal or literal rendering of one scalar of the given kind, read
/// out of a varint, 4-byte or 8-byte payload.
pub open spec fn sp_scalar_out(kind: Kind, val: SpVal) -> Result<Seq<u8>, Error> {
    match kind {
        Kind::Int32 => match val {
            SpVal::U64(v) => Ok(spec_dec_i64(((v as u64) as i32) as i64)),
            _ => Err(Error::InvalidWireType),
        },
        Kind::Int64 | Kind::Sfixed64 => match val {
            SpVal::U64(v) => Ok(spec_dec_i64(v as i64)),
            _ => Err(Error::InvalidWireType),
        },
        Kind::Uint32 | Kind::Uint64 | Kind::Fixed64 => match val {
            SpVal::U64(v) => Ok(spec_dec_digits(v as nat)),
            _ => Err(Error::InvalidWireType),
        },
        Kind::Sint32 | Kind::Sint64 => match val {
            SpVal::U64(v) => Ok(spec_dec_i64(spec_unzigzag(v))),
            _ => Err(Error::InvalidWireType),
        },
        Kind::Fixed32 => match val {
            SpVal::U32(v) => Ok(spec_dec_digits(v as nat)),
            _ => Err(Error::InvalidWireType),
        },
        Kind::Sfixed32 => match val {
            SpVal::U32(v) => Ok(spec_dec_i64((v as i32) as i64)),
            _ => Err(Error::InvalidWireType),
        },
        Kind::Bool => match val {
            SpVal::U64(v) => Ok(spec_bool_bytes(v != 0)),
            _ => Err(Error::InvalidWireType),
        },
        Kind::Double | Kind::Float => Err(Error::Wrap(Cause::FloatKind)),
        _ => Err(Error::InvalidWireType),
    }
}

/// One element of a packed repeated payload: its rendering and the position
/// after it.
pub open spec fn sp_rep_elem(b: Seq<u8>, i: int, kind: Kind) -> Result<(Seq<u8>, int), Error> {
    match kind {
        Kind::Int32 => match spec_read_varint(b, i) {
            Ok((v, i2)) => Ok((spec_dec_i64((v as i32) as i64), i2)),
            Err(e) => Err(Error::Io(e)),
        },
        Kind::Int64 => match spec_read_varint(b, i) {
            Ok((v, i2)) => Ok((spec_dec_i64(v as i64), i2)),
            Err(e) => Err(Error::Io(e)),
        },
        Kind::Uint32 | Kind::Uint64 => match spec_read_varint(b, i) {
            Ok((v, i2)) => Ok((spec_dec_digits(v as nat), i2)),
            Err(e) => Err(Error::Io(e)),
        },
        Kind::Sint32 | Kind::Sint64 => match spec_read_varint(b, i) {
            Ok((v, i2)) => Ok((spec_dec_i64(spec_unzigzag(v)), i2)),
            Err(e) => Err(Error::Io(e)),
        },
        Kind::Bool => match spec_read_varint(b, i) {
            Ok((v, i2)) => Ok((spec_bool_bytes(v != 0), i2)),
            Err(e) => Err(Error::Io(e)),
        },
        Kind::Fixed32 => if i + 4 <= b.len() {
            Ok((spec_dec_digits(spec_le4_val(b, i) as nat), i + 4))
        } else {
            Err(Error::Io(WireError::UnexpectedEof))
        },
        Kind::Sfixed32 => if i + 4 <= b.len() {
            Ok((spec_dec_i64((spec_le4_val(b, i) as i32) as i64), i + 4))
        } else {
            Err(Error::Io(WireError::UnexpectedEof))
        },
        Kind::Fixed64 => if i + 8 <= b.len() {
            Ok((spec_dec_digits(spec_le8_val(b, i) as nat), i + 8))
        } else {
            Err(Error::Io(WireError::UnexpectedEof))
        },
        Kind::Sfixed64 => if i + 8 <= b.len() {
            Ok((spec_dec_i64(spec_le8_val(b, i) as i64), i + 8))
        } else {
            Err(Error::Io(WireError::UnexpectedEof))
        },
        Kind::Double | Kind::Float => Err(Error::Wrap(Cause::FloatKind)),
        _ => Err(Error::Wrap(Cause::RepeatedKind)),
    }
}

/// The elements of a packed repeated payload from position `i` on, comma
/// separated.
pub open spec fn sp_rep_scan(b: Seq<u8>, i: int, kind: Kind, first: bool) -> Result<Seq<u8>, Error>
    decreases b.len() - i,
{
    if i >= b.len() {
        Ok(Seq::empty())
    } else {
        match sp_rep_elem(b, i, kind) {
            Err(e) => Err(e),
            Ok((eb, i2)) => if !(i < i2 && i2 <= b.len()) {
                Err(Error::Io(WireError::InvalidData))
            } else {
                let head = if first {
                    eb
                } else {
                    seq![0x2cu8] + eb
                };
                match sp_rep_scan(b, i2, kind, false) {
                    Ok(rest) => Ok(head + rest),
                    Err(e) => Err(e),
                }
            },
        }
    }
}

/// A packed repeated payload rendered as a JSON array.
pub open spec fn sp_rep_out(b: Seq<u8>, kind: Kind) -> Result<Seq<u8>, Error> {
    match sp_rep_scan(b, 0, kind, true) {
        Ok(inner) => Ok(seq![0x5bu8] + inner + seq![0x5du8]),
        Err(e) => Err(e),
    }
}

/// The scan of a map entry's records: the last key and value payloads seen,
/// keys at tag 1 checked to be length-prefixed, values at tag 2 checked
/// against the value field's wire type, other tags ignored.
pub open spec fn sp_map_scan(
    b: Seq<u8>,
    i: int,
    v_wire: u32,
    kv: SpVal,
    vv: SpVal,
) -> Result<(SpVal, SpVal), Error>
    decreases b.len() - i,
{
    if i >= b.len() {
        Ok((kv, vv))
    } else {
        match sp_read_record(b, i) {
            Err(e) => Err(e),
            Ok(((tag, wire, val), i2)) => if !(i < i2 && i2 <= b.len()) {
                Err(Error::Io(WireError::InvalidData))
            } else {
                if tag == 1 {
                    if wire != WIRE_LEN_DELIM {
                        Err(Error::InvalidWireType)
                    } else {
                        sp_map_scan(b, i2, v_wire, val, vv)
                    }
                } else if tag == 2 {
                    if wire != v_wire {
                        Err(Error::InvalidWireType)
                    } else {
                        sp_map_scan(b, i2, v_wire, kv, val)
                    }
                } else {
                    sp_map_scan(b, i2, v_wire, kv, vv)
                }
            },
        }
    }
}

/// Payloads handed out of the map scan span less than the whole entry, and
/// the entry is not empty when one was stored.
proof fn lemma_map_scan_vals(b: Seq<u8>, i: int, v_wire: u32, kv: SpVal, vv: SpVal)
    requires
        0 <= i,
        val_size(kv) < b.len() || kv is Missing,
        val_size(vv) < b.len() || vv is Missing,
    ensures
        sp_map_scan(b, i, v_wire, kv, vv) matches Ok((k2, v2)) ==> (val_size(k2) < b.len()
            || k2 is Missing) && (val_size(v2) < b.len() || v2 is Missing),
    decreases b.len() - i,
{
    if i < b.len() {
        match sp_read_record(b, i) {
            Err(_) => {},
            Ok(((tag, wire, val), i2)) => {
                if i < i2 && i2 <= b.len() {
                    assert(val_size(val) < b.len() || val is Missing) by {
                        match val {
                            SpVal::Bytes(p) => {
                                lemma_read_record_size(b, i);
                            },
                            _ => {},
                        }
                    }
                    if tag == 1 {
                        if wire == WIRE_LEN_DELIM {
                            lemma_map_scan_vals(b, i2, v_wire, val, vv);
                        }
                    } else if tag == 2 {
                        if wire == v_wire {
                            lemma_map_scan_vals(b, i2, v_wire, kv, val);
                        }
                    } else {
                        lemma_map_scan_vals(b, i2, v_wire, kv, vv);
                    }
                }
            },
        }
    }
}

/// A record's payload spans strictly less than the bytes the record
/// consumed, and the record consumed at least one byte.
pub proof fn lemma_read_record_size(s: Seq<u8>, i: int)
    ensures
        sp_read_record(s, i) matches Ok(((tag, wire, val), i2)) ==> i < i2 <= s.len() && val_size(
            val,
        ) < i2 - i,
{
    crate::proto::lemma_read_varint_advances(s, i);
    match spec_read_varint(s, i) {
        Err(_) => {},
        Ok((key, i1)) => {
            crate::proto::lemma_read_varint_advances(s, i1);
        },
    }
}

/// One map entry rendered as `"key":value`: the missing key is the empty
/// string, the missing value the kind's JSON default.
pub open spec fn sp_map_kv(b: Seq<u8>, entry: Message) -> Result<Seq<u8>, Error>
    decreases b.len(), 1int,
{
    let kf = entry.spec_fields()[0];
    let vf = entry.spec_fields()[1];
    if !(kf.kind is Str) {
        Err(Error::Wrap(Cause::MapKeyKind))
    } else {
        match sp_map_scan(b, 0, spec_field_wire(vf), SpVal::Missing, SpVal::Missing) {
            Err(e) => Err(e),
            Ok((kv, vv)) => {
                let key_part = match kv {
                    SpVal::Bytes(k) => sp_string_out(k),
                    _ => seq![0x22u8, 0x22u8],
                };
                match vv {
                    SpVal::Missing => Ok(key_part + seq![0x3au8] + sp_default_value(vf)),
                    _ => if val_size(vv) < b.len() {
                        match sp_field_value(vf, vv) {
                            Ok(vb) => Ok(key_part + seq![0x3au8] + vb),
                            Err(e) => Err(e),
                        }
                    } else {
                        Err(Error::InvalidWireType)
                    },
                }
            },
        }
    }
}

/// One field's value rendered as JSON: repeated payloads as arrays, strings
/// and byte strings quoted, messages and maps recursively, scalars in
/// decimal or as literals.
pub open spec fn sp_field_value(f: Field, val: SpVal) -> Result<Seq<u8>, Error>
    decreases val_size(val), 2int,
{
    if f.repeated {
        match val {
            SpVal::Bytes(b) => match f.kind {
                Kind::Str => Ok(sp_string_out(b)),
                Kind::Bytes => sp_bytes_out(b),
                Kind::Message(m) => sp_p2j_message(b, 0, *m),
                _ => sp_rep_out(b, f.kind),
            },
            _ => Err(Error::InvalidWireType),
        }
    } else {
        match f.kind {
            Kind::MapEntry(e) => match val {
                SpVal::Bytes(b) => sp_map_kv(b, *e),
                _ => Err(Error::InvalidWireType),
            },
            Kind::Str => match val {
                SpVal::Bytes(b) => Ok(sp_string_out(b)),
                _ => Err(Error::InvalidWireType),
            },
            Kind::Bytes => match val {
                SpVal::Bytes(b) => sp_bytes_out(b),
                _ => Err(Error::InvalidWireType),
            },
            Kind::Message(m) => match val {
                SpVal::Bytes(b) => sp_p2j_message(b, 0, *m),
                _ => Err(Error::InvalidWireType),
            },
            _ => sp_scalar_out(f.kind, val),
        }
    }
}

/// The closing delimiter a field's collection will owe, or zero.
pub open spec fn sp_header_close(f: Field) -> u8 {
    if f.repeated {
        match f.kind {
            Kind::Str | Kind::Bytes | Kind::Message(_) => 0x5du8,
            _ => 0u8,
        }
    } else {
        if f.kind is MapEntry {
            0x7du8
        } else {
            0u8
        }
    }
}

/// The bytes that introduce a field: any owed closing delimiter, a
/// separating comma, the quoted name with its colon, and the opening
/// delimiter of a grouped collection.
pub open spec fn sp_header_bytes(f: Field, more: bool, rep_close: u8) -> Seq<u8> {
    (if rep_close != 0 {
        seq![rep_close]
    } else {
        Seq::<u8>::empty()
    }) + (if more || rep_close != 0 {
        seq![0x2cu8]
    } else {
        Seq::<u8>::empty()
    }) + seq![0x22u8] + field_name_bytes(f) + seq![0x22u8, 0x3au8] + (if sp_header_close(f)
        == 0x5du8 {
        seq![0x5bu8]
    } else if sp_header_close(f) == 0x7du8 {
        seq![0x7bu8]
    } else {
        Seq::<u8>::empty()
    })
}

/// The record loop of one message body: each record either continues the
/// field being emitted, opens a new one with its quoted name, or is skipped
/// as unknown; the collection opened last is closed at the end.
pub open spec fn sp_p2j_loop(
    s: Seq<u8>,
    i: int,
    msg: Message,
    cur_tag: u32,
    cur: Option<Field>,
    more: bool,
    rep_close: u8,
) -> Result<Seq<u8>, Error>
    decreases s.len() - i, 0int,
{
    if i >= s.len() {
        Ok(
            if rep_close != 0 {
                seq![rep_close]
            } else {
                Seq::empty()
            },
        )
    } else {
        match sp_read_record(s, i) {
            Err(e) => Err(e),
            Ok(((tag, wire, val), i2)) => if !(i < i2 && i2 <= s.len() && val_size(val) < i2 - i) {
                Err(Error::Io(WireError::InvalidData))
            } else if tag != cur_tag {
                match spec_field_idx(msg.spec_fields(), tag) {
                    None => sp_p2j_loop(s, i2, msg, cur_tag, cur, more, rep_close),
                    Some(fi) => {
                        let f = msg.spec_fields()[fi];
                        let head2 = sp_header_bytes(f, more, rep_close);
                        let rep_close2 = sp_header_close(f);
                        if wire != spec_field_wire(f) {
                            Err(Error::InvalidWireType)
                        } else {
                            // inside a fresh collection nothing precedes the
                            // first element, so no comma is owed
                            match sp_field_value(f, val) {
                                Err(e) => Err(e),
                                Ok(vb) => match sp_p2j_loop(
                                    s,
                                    i2,
                                    msg,
                                    tag,
                                    Some(f),
                                    true,
                                    rep_close2,
                                ) {
                                    Ok(rest) => Ok(head2 + vb + rest),
                                    Err(e) => Err(e),
                                },
                            }
                        }
                    },
                }
            } else {
                match cur {
                    None => Err(Error::InvalidWireType),
                    Some(f) => if wire != spec_field_wire(f) {
                        Err(Error::InvalidWireType)
                    } else {
                        let head = if rep_close != 0 && more {
                            seq![0x2cu8]
                        } else {
                            Seq::empty()
                        };
                        match sp_field_value(f, val) {
                            Err(e) => Err(e),
                            Ok(vb) => match sp_p2j_loop(s, i2, msg, cur_tag, cur, true, rep_close) {
                                Ok(rest) => Ok(head + vb + rest),
                                Err(e) => Err(e),
                            },
                        }
                    },
                }
            },
        }
    }
}

/// One message body rendered as a JSON object.
pub open spec fn sp_p2j_message(s: Seq<u8>, i: int, msg: Message) -> Result<Seq<u8>, Error>
    decreases s.len() - i, 1int,
{
    match sp_p2j_loop(s, i, msg, 0, None, false, 0) {
        Ok(d) => Ok(seq![0x7bu8] + d + seq![0x7du8]),
        Err(e) => Err(e),
    }
}


/// The specification view of a possibly borrowed current field.
pub open spec fn opt_field_view(c: Option<&Field>) -> Option<Field> {
    match c {
        Some(f) => Some(*f),
        None => None,
    }
}

/// A sequence is a prefix of itself extended.
proof fn lemma_append_prefix(a: Seq<u8>, b: Seq<u8>)
    ensures
        a.is_prefix_of(a + b),
{
    assert(a =~= (a + b).subrange(0, a.len() as int));
}

/// Being a prefix carries across a longer prefix.
proof fn lemma_prefix_trans(a: Seq<u8>, b: Seq<u8>, c: Seq<u8>)
    requires
        a.is_prefix_of(b),
        b.is_prefix_of(c),
    ensures
        a.is_prefix_of(c),
{
    assert forall|i: int| 0 <= i < a.len() implies a[i] == c[i] by {
        assert(a[i] == b.subrange(0, a.len() as int)[i]);
        assert(b[i] == c.subrange(0, b.len() as int)[i]);
    }
    assert(a =~= c.subrange(0, a.len() as int));
}

/// The wire type every record of this field must carry.
fn field_wire_type(field: &Field) -> (r: u32)
    ensures
        r == spec_field_wire(*field),
{
    if field.repeated {
        WIRE_LEN_DELIM
    } else {
        match &field.kind {
            Kind::Double => WIRE_64BIT,
            Kind::Float => WIRE_32BIT,
            Kind::Int32 => WIRE_VARINT,
            Kind::Int64 => WIRE_VARINT,
            Kind::Uint32 => WIRE_VARINT,
            Kind::Uint64 => WIRE_VARINT,
            Kind::Sint32 => WIRE_VARINT,
            Kind::Sint64 => WIRE_VARINT,
            Kind::Fixed32 => WIRE_32BIT,
            Kind::Fixed64 => WIRE_64BIT,
            Kind::Sfixed32 => WIRE_32BIT,
            Kind::Sfixed64 => WIRE_64BIT,
            Kind::Bool => WIRE_VARINT,
            Kind::Str => WIRE_LEN_DELIM,
            Kind::Bytes => WIRE_LEN_DELIM,
            Kind::MapEntry(_) => WIRE_LEN_DELIM,
            Kind::Message(_) => WIRE_LEN_DELIM,
        }
    }
}

/// Writes the JSON default for a field absent from a map entry.
fn trans_default_value(buf: &mut Vec<u8>, field: &Field)
    ensures
        final(buf)@ == old(buf)@ + sp_default_value(*field),
{
    if field.repeated {
        buf.push(0x6e);
        buf.push(0x75);
        buf.push(0x6c);
        buf.push(0x6c);
        proof {
            assert(buf@ =~= old(buf)@ + sp_default_value(*field));
        }
    } else {
        match &field.kind {
            Kind::Bool => {
                buf.push(0x66);
                buf.push(0x61);
                buf.push(0x6c);
                buf.push(0x73);
                buf.push(0x65);
                proof {
                    assert(buf@ =~= old(buf)@ + sp_default_value(*field));
                }
            },
            Kind::Str | Kind::Bytes => {
                buf.push(0x22);
                buf.push(0x22);
                proof {
                    assert(buf@ =~= old(buf)@ + sp_default_value(*field));
                }
            },
            Kind::MapEntry(_) | Kind::Message(_) => {
                buf.push(0x6e);
                buf.push(0x75);
                buf.push(0x6c);
                buf.push(0x6c);
                proof {
                    assert(buf@ =~= old(buf)@ + sp_default_value(*field));
                }
            },
            _ => {
                buf.push(0x30);
                proof {
                    assert(buf@ =~= old(buf)@ + sp_default_value(*field));
                }
            },
        }
    }
}

/// Writes a quoted, escaped JSON string.
fn trans_string(buf: &mut Vec<u8>, data: &[u8])
    ensures
        final(buf)@ == old(buf)@ + sp_string_out(data@),
{
    buf.push(0x22);
    escape_string(data, buf);
    buf.push(0x22);
    proof {
        assert(buf@ =~= old(buf)@ + sp_string_out(data@));
    }
}

/// Writes a quoted base64 rendering of the bytes.
fn trans_bytes(buf: &mut Vec<u8>, data: &[u8]) -> (r: Result<(), Error>)
    ensures
        old(buf)@.is_prefix_of(final(buf)@),
        match r {
            Ok(()) => sp_bytes_out(data@) matches Ok(d) && final(buf)@ == old(buf)@ + d,
            Err(e) => sp_bytes_out(data@) == Err::<Seq<u8>, Error>(e) && final(buf)@ == old(buf)@,
        },
{
    proof {
        assert(old(buf)@.is_prefix_of(old(buf)@ + Seq::<u8>::empty()));
        assert(old(buf)@ + Seq::<u8>::empty() =~= old(buf)@);
    }
    if data.len() > usize::MAX / 4 * 3 {
        return Err(Error::Wrap(Cause::TooLarge));
    }
    proof {
        let n = data@.len() as int;
        let l = usize::MAX as int / 4;
        assert(n <= 3 * l);
        assert((n + 2) / 3 <= l) by {
            assert((3 * l + 2) / 3 == l);
        }
        assert(4 * ((n + 2) / 3) <= 4 * l);
        assert(4 * l <= usize::MAX);
    }
    buf.push(0x22);
    let e: Vec<u8> = super::outside::base64_encode(data);
    buf.extend_from_slice(e.as_slice());
    buf.push(0x22);
    proof {
        assert(buf@ =~= old(buf)@ + (seq![0x22u8] + base64_encoding(data@) + seq![0x22u8]));
        lemma_append_prefix(
            old(buf)@,
            seq![0x22u8] + base64_encoding(data@) + seq![0x22u8],
        );
    }
    Ok(())
}

/// Reads one record: its key, then the payload its wire type dictates.
fn read_record<'a>(dec: &mut Decoder<'a>) -> (r: Result<(u32, u32, Value<'a>), Error>)
    requires
        old(dec).wf(),
    ensures
        final(dec).bytes() == old(dec).bytes(),
        final(dec).wf(),
        final(dec).pos() >= old(dec).pos(),
        match r {
            Ok((tag, wire, val)) => sp_read_record(old(dec).bytes(), old(dec).pos()) == Ok::<
                ((u32, u32, SpVal), int),
                Error,
            >(((tag, wire, val_view(val)), final(dec).pos())) && old(dec).pos() < final(dec).pos()
                && val_size(val_view(val)) < final(dec).pos() - old(dec).pos(),
            Err(e) => sp_read_record(old(dec).bytes(), old(dec).pos()) == Err::<
                ((u32, u32, SpVal), int),
                Error,
            >(e),
        },
{
    let (tag, wire) = match dec.read_key() {
        Ok(k) => k,
        Err(e) => {
            return Err(Error::Io(e));
        },
    };
    if wire == WIRE_VARINT {
        match dec.read_varint() {
            Ok(v) => Ok((tag, wire, Value::U64(v))),
            Err(e) => Err(Error::Io(e)),
        }
    } else if wire == WIRE_32BIT {
        match dec.read_32bit() {
            Ok(v) => Ok((tag, wire, Value::U32(v))),
            Err(e) => Err(Error::Io(e)),
        }
    } else if wire == WIRE_64BIT {
        match dec.read_64bit() {
            Ok(v) => Ok((tag, wire, Value::U64(v))),
            Err(e) => Err(Error::Io(e)),
        }
    } else if wire == WIRE_LEN_DELIM {
        match dec.read_data() {
            Ok(d) => Ok((tag, wire, Value::Bytes(d))),
            Err(e) => Err(Error::Io(e)),
        }
    } else {
        Err(Error::InvalidWireType)
    }
}

/// Renders one packed element of the given kind at the cursor.
#[verifier::rlimit(100)]
fn rep_elem_out(buf: &mut Vec<u8>, dec: &mut Decoder, kind: &Kind) -> (r: Result<(), Error>)
    requires
        old(dec).wf(),
    ensures
        final(dec).bytes() == old(dec).bytes(),
        final(dec).wf(),
        final(dec).pos() >= old(dec).pos(),
        old(buf)@.is_prefix_of(final(buf)@),
        match r {
            Ok(()) => sp_rep_elem(old(dec).bytes(), old(dec).pos(), *kind) matches Ok((eb, p))
                && final(buf)@ == old(buf)@ + eb && final(dec).pos() == p && old(dec).pos() < p
                && p <= old(dec).bytes().len(),
            Err(e) => sp_rep_elem(old(dec).bytes(), old(dec).pos(), *kind) == Err::<
                (Seq<u8>, int),
                Error,
            >(e),
        },
{
    proof {
        assert(old(buf)@.is_prefix_of(old(buf)@ + Seq::<u8>::empty()));
        assert(old(buf)@ + Seq::<u8>::empty() =~= old(buf)@);
        crate::proto::lemma_read_varint_advances(dec.bytes(), dec.pos());
    }
    match kind {
        Kind::Double | Kind::Float => Err(Error::Wrap(Cause::FloatKind)),
        Kind::Int32 => match dec.read_varint() {
            Ok(v) => {
                (v as i32).append_into(buf);
                proof {
                    lemma_append_prefix(old(buf)@, spec_dec_i64((v as i32) as i64));
                }
                Ok(())
            },
            Err(e) => Err(Error::Io(e)),
        },
        Kind::Int64 => match dec.read_varint() {
            Ok(v) => {
                (v as i64).append_into(buf);
                proof {
                    lemma_append_prefix(old(buf)@, spec_dec_i64(v as i64));
                }
                Ok(())
            },
            Err(e) => Err(Error::Io(e)),
        },
        Kind::Uint32 | Kind::Uint64 => match dec.read_varint() {
            Ok(v) => {
                v.append_into(buf);
                proof {
                    lemma_append_prefix(old(buf)@, spec_dec_digits(v as nat));
                }
                Ok(())
            },
            Err(e) => Err(Error::Io(e)),
        },
        Kind::Sint32 | Kind::Sint64 => match dec.read_zigzag() {
            Ok(v) => {
                v.append_into(buf);
                proof {
                    lemma_append_prefix(old(buf)@, spec_dec_i64(v));
                }
                Ok(())
            },
            Err(e) => Err(Error::Io(e)),
        },
        Kind::Fixed32 => match dec.read_32bit() {
            Ok(v) => {
                v.append_into(buf);
                proof {
                    lemma_append_prefix(old(buf)@, spec_dec_digits(v as nat));
                }
                Ok(())
            },
            Err(e) => Err(Error::Io(e)),
        },
        Kind::Sfixed32 => match dec.read_32bit() {
            Ok(v) => {
                (v as i32).append_into(buf);
                proof {
                    lemma_append_prefix(old(buf)@, spec_dec_i64((v as i32) as i64));
                }
                Ok(())
            },
            Err(e) => Err(Error::Io(e)),
        },
        Kind::Fixed64 => match dec.read_64bit() {
            Ok(v) => {
                v.append_into(buf);
                proof {
                    lemma_append_prefix(old(buf)@, spec_dec_digits(v as nat));
                }
                Ok(())
            },
            Err(e) => Err(Error::Io(e)),
        },
        Kind::Sfixed64 => match dec.read_64bit() {
            Ok(v) => {
                (v as i64).append_into(buf);
                proof {
                    lemma_append_prefix(old(buf)@, spec_dec_i64(v as i64));
                }
                Ok(())
            },
            Err(e) => Err(Error::Io(e)),
        },
        Kind::Bool => match dec.read_varint() {
            Ok(v) => {
                (v != 0).append_into(buf);
                proof {
                    lemma_append_prefix(old(buf)@, spec_bool_bytes(v != 0));
                }
                Ok(())
            },
            Err(e) => Err(Error::Io(e)),
        },
        _ => Err(Error::Wrap(Cause::RepeatedKind)),
    }
}

/// Renders a packed repeated payload as a JSON array, reading primitives
/// until the payload is exhausted.
#[verifier::rlimit(100)]
fn trans_repeated_field(buf: &mut Vec<u8>, dec: &mut Decoder, field: &Field) -> (r: Result<
    (),
    Error,
>)
    requires
        old(dec).wf(),
        old(dec).pos() == 0,
    ensures
        old(buf)@.is_prefix_of(final(buf)@),
        match r {
            Ok(()) => sp_rep_out(old(dec).bytes(), (*field).kind) matches Ok(d) && final(buf)@
                == old(buf)@ + d,
            Err(e) => sp_rep_out(old(dec).bytes(), (*field).kind) == Err::<Seq<u8>, Error>(e),
        },
{
    let ghost b = dec.bytes();
    let mut more = false;
    buf.push(0x5b);
    proof {
        lemma_append_prefix(old(buf)@, seq![0x5bu8]);
        assert(buf@ =~= old(buf)@ + seq![0x5bu8]);
    }
    while !dec.eof()
        invariant
            dec.wf(),
            dec.bytes() == b,
            b == old(dec).bytes(),
            old(buf)@.is_prefix_of(buf@),
            match sp_rep_scan(b, dec.pos(), (*field).kind, !more) {
                Ok(rest) => sp_rep_scan(b, 0, (*field).kind, true) matches Ok(dd) && old(buf)@
                    + seq![0x5bu8] + dd == buf@ + rest,
                Err(e) => sp_rep_scan(b, 0, (*field).kind, true) == Err::<Seq<u8>, Error>(e),
            },
        decreases b.len() - dec.pos(),
    {
        let ghost ipre = dec.pos();
        let ghost first_pre = !more;
        let ghost pre = buf@;
        if !more {
            more = true;
        } else {
            buf.push(0x2c);
        }
        match rep_elem_out(buf, dec, &field.kind) {
            Err(e) => {
                proof {
                    lemma_prefix_trans(old(buf)@, pre, buf@);
                }
                return Err(e);
            },
            Ok(()) => {},
        }
        proof {
            let er = sp_rep_elem(b, ipre, (*field).kind);
            let eb = er->Ok_0.0;
            let head = if first_pre {
                eb
            } else {
                seq![0x2cu8] + eb
            };
            if first_pre {
                assert(buf@ =~= pre + head);
            } else {
                assert(buf@ =~= pre + head);
            }
            match sp_rep_scan(b, dec.pos(), (*field).kind, false) {
                Ok(rest2) => {
                    assert(sp_rep_scan(b, ipre, (*field).kind, first_pre) == Ok::<Seq<u8>, Error>(
                        head + rest2,
                    ));
                    assert(pre + (head + rest2) =~= (pre + head) + rest2);
                },
                Err(_) => {},
            }
            lemma_prefix_trans(old(buf)@, pre, buf@);
        }
    }
    let ghost pre2 = buf@;
    buf.push(0x5d);
    proof {
        assert(buf@ =~= pre2 + seq![0x5du8]);
        lemma_prefix_trans(old(buf)@, pre2, buf@);
        match sp_rep_scan(b, 0, (*field).kind, true) {
            Ok(dd) => {
                assert(pre2 + Seq::<u8>::empty() =~= pre2);
                assert(buf@ =~= old(buf)@ + (seq![0x5bu8] + dd + seq![0x5du8]));
            },
            Err(_) => {},
        }
    }
    Ok(())
}

/// Renders one map entry as `"key":value`.
fn trans_map_kv(buf: &mut Vec<u8>, dec: &mut Decoder, entry: &Message) -> (r: Result<(), Error>)
    requires
        old(dec).wf(),
        old(dec).pos() == 0,
        entry.wf(),
        entry.spec_fields().len() == 2,
    ensures
        old(buf)@.is_prefix_of(final(buf)@),
        match r {
            Ok(()) => sp_map_kv(old(dec).bytes(), *entry) matches Ok(d) && final(buf)@ == old(
                buf,
            )@ + d,
            Err(e) => sp_map_kv(old(dec).bytes(), *entry) == Err::<Seq<u8>, Error>(e),
        },
    decreases dec.bytes().len() - dec.pos(), 1int,
{
    let ghost b = dec.bytes();
    proof {
        assert(old(buf)@.is_prefix_of(old(buf)@ + Seq::<u8>::empty()));
        assert(old(buf)@ + Seq::<u8>::empty() =~= old(buf)@);
    }
    let fs: &[Field] = entry.get_fields();
    let k_field: &Field = &fs[0];
    if !matches!(&k_field.kind, Kind::Str) {
        return Err(Error::Wrap(Cause::MapKeyKind));
    }
    let v_field: &Field = &fs[1];
    let v_wire: u32 = field_wire_type(v_field);
    let mut k_val: Value = Value::Missing;
    let mut v_val: Value = Value::Missing;
    while !dec.eof()
        invariant
            dec.wf(),
            dec.bytes() == b,
            b == old(dec).bytes(),
            *v_field == entry.spec_fields()[1],
            entry.spec_fields().len() == 2,
            entry.spec_fields()[0].kind is Str,
            v_wire == spec_field_wire(entry.spec_fields()[1]),
            val_size(val_view(k_val)) < b.len() || k_val is Missing,
            val_size(val_view(v_val)) < b.len() || v_val is Missing,
            sp_map_scan(b, 0, v_wire, SpVal::Missing, SpVal::Missing) == sp_map_scan(
                b,
                dec.pos(),
                v_wire,
                val_view(k_val),
                val_view(v_val),
            ),
        decreases b.len() - dec.pos(),
    {
        match read_record(dec) {
            Err(e) => {
                return Err(e);
            },
            Ok((tag, wire, val)) => {
                if tag == 1 {
                    if wire != WIRE_LEN_DELIM {
                        return Err(Error::InvalidWireType);
                    }
                    k_val = val;
                } else if tag == 2 {
                    if wire != v_wire {
                        return Err(Error::InvalidWireType);
                    }
                    v_val = val;
                }
            },
        }
    }
    let ghost pre = buf@;
    match k_val {
        Value::Bytes(k) => trans_string(buf, k),
        _ => {
            buf.push(0x22);
            buf.push(0x22);
            proof {
                assert(buf@ =~= pre + seq![0x22u8, 0x22u8]);
            }
        },
    }
    buf.push(0x3a);
    let ghost mid = buf@;
    proof {
        lemma_append_prefix(old(buf)@, mid.subrange(old(buf)@.len() as int, mid.len() as int));
        assert(old(buf)@ =~= mid.subrange(0, old(buf)@.len() as int));
    }
    match v_val {
        Value::Missing => {
            trans_default_value(buf, v_field);
            proof {
                assert(buf@ =~= old(buf)@ + (mid.subrange(
                    old(buf)@.len() as int,
                    mid.len() as int,
                ) + sp_default_value(entry.spec_fields()[1])));
                lemma_append_prefix(old(buf)@, buf@.subrange(old(buf)@.len() as int, buf@.len() as int));
                assert(old(buf)@.is_prefix_of(buf@));
            }
            Ok(())
        },
        val => {
            match trans_field_value(buf, v_field, val) {
                Err(e) => {
                    proof {
                        lemma_prefix_trans(old(buf)@, mid, buf@);
                    }
                    Err(e)
                },
                Ok(()) => {
                    proof {
                        assert(buf@ =~= old(buf)@ + (mid.subrange(
                            old(buf)@.len() as int,
                            mid.len() as int,
                        ) + buf@.subrange(mid.len() as int, buf@.len() as int)));
                        lemma_prefix_trans(old(buf)@, mid, buf@);
                    }
                    Ok(())
                },
            }
        },
    }
}

/// Renders one field's payload as its JSON value.
fn trans_field_value(buf: &mut Vec<u8>, field: &Field, val: Value) -> (r: Result<(), Error>)
    requires
        field.kind.wf(),
    ensures
        old(buf)@.is_prefix_of(final(buf)@),
        match r {
            Ok(()) => sp_field_value(*field, val_view(val)) matches Ok(d) && final(buf)@ == old(
                buf,
            )@ + d,
            Err(e) => sp_field_value(*field, val_view(val)) == Err::<Seq<u8>, Error>(e),
        },
    decreases val_size(val_view(val)), 2int,
{
    proof {
        assert(old(buf)@.is_prefix_of(old(buf)@ + Seq::<u8>::empty()));
        assert(old(buf)@ + Seq::<u8>::empty() =~= old(buf)@);
    }
    if field.repeated {
        match val {
            Value::Bytes(bs) => match &field.kind {
                Kind::Str => {
                    trans_string(buf, bs);
                    proof {
                        lemma_append_prefix(old(buf)@, sp_string_out(bs@));
                    }
                    Ok(())
                },
                Kind::Bytes => trans_bytes(buf, bs),
                Kind::Message(m) => {
                    let mut sub = Decoder::new(bs);
                    trans_message(buf, &mut sub, m)
                },
                _ => {
                    let mut sub = Decoder::new(bs);
                    trans_repeated_field(buf, &mut sub, field)
                },
            },
            _ => Err(Error::InvalidWireType),
        }
    } else {
        match &field.kind {
            Kind::MapEntry(e) => match val {
                Value::Bytes(bs) => {
                    let mut sub = Decoder::new(bs);
                    trans_map_kv(buf, &mut sub, e)
                },
                _ => Err(Error::InvalidWireType),
            },
            Kind::Str => match val {
                Value::Bytes(bs) => {
                    trans_string(buf, bs);
                    proof {
                        lemma_append_prefix(old(buf)@, sp_string_out(bs@));
                    }
                    Ok(())
                },
                _ => Err(Error::InvalidWireType),
            },
            Kind::Bytes => match val {
                Value::Bytes(bs) => trans_bytes(buf, bs),
                _ => Err(Error::InvalidWireType),
            },
            Kind::Message(m) => match val {
                Value::Bytes(bs) => {
                    let mut sub = Decoder::new(bs);
                    trans_message(buf, &mut sub, m)
                },
                _ => Err(Error::InvalidWireType),
            },
            Kind::Double | Kind::Float => Err(Error::Wrap(Cause::FloatKind)),
            Kind::Int32 => match val {
                Value::U64(v) => {
                    ((v as u64) as i32).append_into(buf);
                    proof {
                        lemma_append_prefix(old(buf)@, spec_dec_i64(((v as u64) as i32) as i64));
                    }
                    Ok(())
                },
                _ => Err(Error::InvalidWireType),
            },
            Kind::Int64 | Kind::Sfixed64 => match val {
                Value::U64(v) => {
                    (v as i64).append_into(buf);
                    proof {
                        lemma_append_prefix(old(buf)@, spec_dec_i64(v as i64));
                    }
                    Ok(())
                },
                _ => Err(Error::InvalidWireType),
            },
            Kind::Uint32 | Kind::Uint64 | Kind::Fixed64 => match val {
                Value::U64(v) => {
                    v.append_into(buf);
                    proof {
                        lemma_append_prefix(old(buf)@, spec_dec_digits(v as nat));
                    }
                    Ok(())
                },
                _ => Err(Error::InvalidWireType),
            },
            Kind::Sint32 | Kind::Sint64 => match val {
                Value::U64(v) => {
                    crate::proto::unzigzag(v).append_into(buf);
                    proof {
                        lemma_append_prefix(old(buf)@, spec_dec_i64(spec_unzigzag(v)));
                    }
                    Ok(())
                },
                _ => Err(Error::InvalidWireType),
            },
            Kind::Fixed32 => match val {
                Value::U32(v) => {
                    v.append_into(buf);
                    proof {
                        lemma_append_prefix(old(buf)@, spec_dec_digits(v as nat));
                    }
                    Ok(())
                },
                _ => Err(Error::InvalidWireType),
            },
            Kind::Sfixed32 => match val {
                Value::U32(v) => {
                    (v as i32).append_into(buf);
                    proof {
                        lemma_append_prefix(old(buf)@, spec_dec_i64((v as i32) as i64));
                    }
                    Ok(())
                },
                _ => Err(Error::InvalidWireType),
            },
            Kind::Bool => match val {
                Value::U64(v) => {
                    (v != 0).append_into(buf);
                    proof {
                        lemma_append_prefix(old(buf)@, spec_bool_bytes(v != 0));
                    }
                    Ok(())
                },
                _ => Err(Error::InvalidWireType),
            },
        }
    }
}

/// Writes the header that introduces a field: any owed closing delimiter, a
/// separating comma, the quoted field name, and the opener of a grouped
/// collection; hands back the closing delimiter now owed.
fn emit_field_header(buf: &mut Vec<u8>, field: &Field, more0: bool, rep_close0: u8) -> (r: u8)
    ensures
        final(buf)@ == old(buf)@ + sp_header_bytes(*field, more0, rep_close0),
        r == sp_header_close(*field),
{
    if rep_close0 != 0 {
        buf.push(rep_close0);
    }
    if more0 || rep_close0 != 0 {
        buf.push(0x2c);
    }
    buf.push(0x22);
    buf.extend_from_slice(field.name.as_str().as_bytes());
    buf.push(0x22);
    buf.push(0x3a);
    let rc: u8 = if field.repeated {
        match &field.kind {
            Kind::Str | Kind::Bytes | Kind::Message(_) => 0x5d,
            _ => 0,
        }
    } else if matches!(&field.kind, Kind::MapEntry(_)) {
        0x7d
    } else {
        0
    };
    if rc == 0x5d {
        buf.push(0x5b);
    } else if rc == 0x7d {
        buf.push(0x7b);
    }
    proof {
        assert(buf@ =~= old(buf)@ + sp_header_bytes(*field, more0, rep_close0));
    }
    rc
}

/// The record loop of one message body, rendered between braces.
#[verifier::rlimit(100)]
fn trans_message(buf: &mut Vec<u8>, dec: &mut Decoder, msg: &Message) -> (r: Result<(), Error>)
    requires
        old(dec).wf(),
        msg.wf(),
    ensures
        final(dec).bytes() == old(dec).bytes(),
        final(dec).wf(),
        old(buf)@.is_prefix_of(final(buf)@),
        match r {
            Ok(()) => sp_p2j_message(old(dec).bytes(), old(dec).pos(), *msg) matches Ok(d)
                && final(buf)@ == old(buf)@ + d,
            Err(e) => sp_p2j_message(old(dec).bytes(), old(dec).pos(), *msg) == Err::<
                Seq<u8>,
                Error,
            >(e),
        },
    decreases dec.bytes().len() - dec.pos(), 1int,
{
    let ghost s = dec.bytes();
    let ghost i0 = dec.pos();
    let mut cur_tag: u32 = 0;
    let mut cur_field: Option<&Field> = None;
    let mut more = false;
    let mut rep_close: u8 = 0;
    buf.push(0x7b);
    proof {
        lemma_append_prefix(old(buf)@, seq![0x7bu8]);
        assert(buf@ =~= old(buf)@ + seq![0x7bu8]);
    }
    while !dec.eof()
        invariant
            dec.wf(),
            dec.bytes() == s,
            s == old(dec).bytes(),
            i0 == old(dec).pos(),
            i0 <= dec.pos(),
            msg.wf(),
            old(buf)@.is_prefix_of(buf@),
            match cur_field {
                Some(f) => f.kind.wf() && more,
                None => true,
            },
            match sp_p2j_loop(s, dec.pos(), *msg, cur_tag, opt_field_view(cur_field), more,
                rep_close) {
                Ok(rest) => sp_p2j_loop(s, i0, *msg, 0, None, false, 0) matches Ok(dd) && old(
                    buf,
                )@ + seq![0x7bu8] + dd == buf@ + rest,
                Err(e) => sp_p2j_loop(s, i0, *msg, 0, None, false, 0) == Err::<Seq<u8>, Error>(e),
            },
        decreases s.len() - dec.pos(),
    {
        let ghost ipre = dec.pos();
        let ghost buf_pre = buf@;
        let ghost g_tag = cur_tag;
        let ghost g_cur = opt_field_view(cur_field);
        let ghost g_more = more;
        let ghost g_rc = rep_close;
        let (tag, wire, val) = match read_record(dec) {
            Err(e) => {
                return Err(e);
            },
            Ok(rec) => rec,
        };
        if tag != cur_tag {
            match msg.get_by_tag(tag) {
                None => {
                    proof {
                        crate::metadata::lemma_field_idx(msg.spec_fields(), tag);
                    }
                },
                Some(field) => {
                    proof {
                        crate::metadata::lemma_field_idx(msg.spec_fields(), tag);
                    }
                    let rc2: u8 = emit_field_header(buf, field, more, rep_close);
                    more = true;
                    rep_close = rc2;
                    cur_tag = tag;
                    cur_field = Some(field);
                    let ew: u32 = field_wire_type(field);
                    if wire != ew {
                        proof {
                            lemma_prefix_trans(old(buf)@, buf_pre, buf@);
                        }
                        return Err(Error::InvalidWireType);
                    }
                    let ghost buf_head = buf@;
                    match trans_field_value(buf, field, val) {
                        Err(e) => {
                            proof {
                                lemma_prefix_trans(old(buf)@, buf_pre, buf@);
                                lemma_prefix_trans(old(buf)@, buf_head, buf@);
                            }
                            return Err(e);
                        },
                        Ok(()) => {},
                    }
                    proof {
                        let f = msg.spec_fields()[spec_field_idx(msg.spec_fields(), tag)->Some_0];
                        let head2 = sp_header_bytes(f, g_more, g_rc);
                        let vb = sp_field_value(f, val_view(val))->Ok_0;
                        assert(buf@ =~= buf_pre + (head2 + vb));
                        match sp_p2j_loop(s, dec.pos(), *msg, tag, Some(f), true, rep_close) {
                            Ok(rest) => {
                                assert(sp_p2j_loop(s, ipre, *msg, g_tag, g_cur, g_more, g_rc)
                                    == Ok::<Seq<u8>, Error>(head2 + vb + rest));
                                assert(buf_pre + (head2 + vb) + rest =~= buf_pre + (head2 + vb
                                    + rest));
                            },
                            Err(_) => {},
                        }
                        lemma_prefix_trans(old(buf)@, buf_pre, buf@);
                    }
                },
            }
        } else {
            match cur_field {
                None => {
                    return Err(Error::InvalidWireType);
                },
                Some(field) => {
                    let ew: u32 = field_wire_type(field);
                    if wire != ew {
                        return Err(Error::InvalidWireType);
                    }
                    if rep_close != 0 {
                        buf.push(0x2c);
                    }
                    let ghost buf_head = buf@;
                    match trans_field_value(buf, field, val) {
                        Err(e) => {
                            proof {
                                lemma_prefix_trans(old(buf)@, buf_pre, buf@);
                                lemma_prefix_trans(old(buf)@, buf_head, buf@);
                            }
                            return Err(e);
                        },
                        Ok(()) => {},
                    }
                    proof {
                        let head = if g_rc != 0 {
                            seq![0x2cu8]
                        } else {
                            Seq::<u8>::empty()
                        };
                        let vb = sp_field_value(*field, val_view(val))->Ok_0;
                        assert(buf@ =~= buf_pre + (head + vb));
                        match sp_p2j_loop(s, dec.pos(), *msg, cur_tag, opt_field_view(cur_field),
                            true, rep_close) {
                            Ok(rest) => {
                                assert(sp_p2j_loop(s, ipre, *msg, g_tag, g_cur, g_more, g_rc)
                                    == Ok::<Seq<u8>, Error>(head + vb + rest));
                                assert(buf_pre + (head + vb) + rest =~= buf_pre + (head + vb
                                    + rest));
                            },
                            Err(_) => {},
                        }
                        lemma_prefix_trans(old(buf)@, buf_pre, buf@);
                    }
                },
            }
        }
    }
    let ghost buf_end = buf@;
    proof {
        assert(dec.pos() == s.len());
        let rest = if rep_close != 0 {
            seq![rep_close]
        } else {
            Seq::<u8>::empty()
        };
        assert(sp_p2j_loop(s, dec.pos(), *msg, cur_tag, opt_field_view(cur_field), more, rep_close)
            == Ok::<Seq<u8>, Error>(rest));
    }
    if rep_close != 0 {
        buf.push(rep_close);
    }
    buf.push(0x7d);
    proof {
        match sp_p2j_loop(s, i0, *msg, 0, None, false, 0) {
            Ok(dd) => {
                if rep_close != 0 {
                    assert(old(buf)@ + seq![0x7bu8] + dd == buf_end + seq![rep_close]);
                    assert(buf@ =~= buf_end + seq![rep_close] + seq![0x7du8]);
                    assert(buf@ =~= old(buf)@ + (seq![0x7bu8] + dd + seq![0x7du8]));
                } else {
                    assert(old(buf)@ + seq![0x7bu8] + dd == buf_end + Seq::<u8>::empty());
                    assert(buf_end + Seq::<u8>::empty() =~= buf_end);
                    assert(buf@ =~= buf_end + seq![0x7du8]);
                    assert(buf@ =~= old(buf)@ + (seq![0x7bu8] + dd + seq![0x7du8]));
                }
            },
            Err(_) => {},
        }
        lemma_append_prefix(old(buf)@, buf@.subrange(old(buf)@.len() as int, buf@.len() as int));
        assert(old(buf)@ =~= buf@.subrange(0, old(buf)@.len() as int));
    }
    Ok(())
}

/// Transcodes one complete wire-format message into JSON text, writing into
/// the caller's buffer. Unknown tags are skipped with the cursor advanced;
/// a wire type that disagrees with the schema is an error. On failure the
/// bytes already appended remain.
pub fn trans_proto_to_json(buf: &mut Vec<u8>, dec: &mut Decoder, msg: &Message) -> (r: Result<
    (),
    Error,
>)
    requires
        old(dec).wf(),
        msg.wf(),
    ensures
        final(dec).bytes() == old(dec).bytes(),
        final(dec).wf(),
        old(buf)@.is_prefix_of(final(buf)@),
        match r {
            Ok(()) => sp_p2j_message(old(dec).bytes(), old(dec).pos(), *msg) matches Ok(d)
                && final(buf)@ == old(buf)@ + d,
            Err(e) => sp_p2j_message(old(dec).bytes(), old(dec).pos(), *msg) == Err::<
                Seq<u8>,
                Error,
            >(e),
        },
{
    trans_message(buf, dec, msg)
}


/// The empty byte stream decodes to the empty JSON object.
pub proof fn lemma_empty_stream(msg: Message)
    ensures
        sp_p2j_message(Seq::empty(), 0, msg) == Ok::<Seq<u8>, Error>(seq![0x7bu8, 0x7du8]),
{
    assert(sp_p2j_loop(Seq::empty(), 0, msg, 0, None, false, 0) == Ok::<Seq<u8>, Error>(
        Seq::empty(),
    ));
    assert(seq![0x7bu8] + Seq::<u8>::empty() + seq![0x7du8] =~= seq![0x7bu8, 0x7du8]);
}

/// A record carrying a tag the schema does not know leaves the output and
/// the emitter's state untouched: the loop goes on right after it.
pub proof fn lemma_unknown_tag_skipped(
    s: Seq<u8>,
    i: int,
    msg: Message,
    cur_tag: u32,
    cur: Option<Field>,
    more: bool,
    rep_close: u8,
)
    requires
        0 <= i < s.len(),
    ensures
        match sp_read_record(s, i) {
            Ok(((tag, wire, val), i2)) => tag != cur_tag && spec_field_idx(
                msg.spec_fields(),
                tag,
            ) is None ==> sp_p2j_loop(s, i, msg, cur_tag, cur, more, rep_close) == sp_p2j_loop(
                s,
                i2,
                msg,
                cur_tag,
                cur,
                more,
                rep_close,
            ),
            Err(_) => true,
        },
{
    lemma_read_record_size(s, i);
}


/// A varint record written by the encoder reads back as the same tag, wire
/// type and value: the encoder's framing and the decoder's record reader
/// agree.
pub proof fn lemma_varint_record_roundtrip(tag: u32, v: u64, rest: Seq<u8>)
    ensures
        ({
            let kb = spec_key_bytes(tag, WIRE_VARINT);
            let vb = spec_varint(v as nat);
            sp_read_record(kb + vb + rest, 0) == Ok::<((u32, u32, SpVal), int), Error>(
                ((tag, WIRE_VARINT, SpVal::U64(v)), kb.len() + vb.len() as int),
            )
        }),
{
    let key = spec_key(tag, WIRE_VARINT);
    let kb = spec_key_bytes(tag, WIRE_VARINT);
    let vb = spec_varint(v as nat);
    let s = kb + vb + rest;
    assert(s.subrange(0, kb.len() as int) =~= kb);
    lemma_varint_roundtrip(key, s, 0);
    assert(s.subrange(kb.len() as int, kb.len() + vb.len() as int) =~= vb);
    lemma_varint_roundtrip(v, s, kb.len() as int);
    lemma_key_roundtrip(tag, WIRE_VARINT);
    assert((key & 7) as u32 == WIRE_VARINT);
}

} // verus!
