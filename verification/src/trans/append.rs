//! Decimal and boolean rendering of wire primitives into a byte buffer.

use vstd::prelude::*;

verus! {

/// The decimal digits of `v`, most significant first, no leading zeros
/// except for the single digit of zero itself.
pub open spec fn spec_dec_digits(v: nat) -> Seq<u8>
    decreases v,
{
    if v < 10 {
        seq![(0x30 + v) as u8]
    } else {
        spec_dec_digits(v / 10) + seq![(0x30 + v % 10) as u8]
    }
}

/// The decimal rendering of a signed value: a minus sign first for
/// negatives.
pub open spec fn spec_dec_i64(v: i64) -> Seq<u8> {
    if v >= 0 {
        spec_dec_digits(v as nat)
    } else {
        seq![0x2du8] + spec_dec_digits((-(v as int)) as nat)
    }
}

/// The bytes `true` or `false`.
pub open spec fn spec_bool_bytes(v: bool) -> Seq<u8> {
    if v {
        seq![0x74u8, 0x72u8, 0x75u8, 0x65u8]
    } else {
        seq![0x66u8, 0x61u8, 0x6cu8, 0x73u8, 0x65u8]
    }
}

/// Relies on itoa: the decimal rendering of an unsigned 64-bit value, the
/// digits alone.
#[verifier::external_body]
fn itoa_u64(v: u64, buf: &mut Vec<u8>)
    ensures
        final(buf)@ == old(buf)@ + spec_dec_digits(v as nat),
{
    let mut b = itoa::Buffer::new();
    buf.extend_from_slice(b.format(v).as_bytes());
}

/// Relies on itoa: the decimal rendering of a signed 64-bit value, a minus
/// sign first for negatives.
#[verifier::external_body]
fn itoa_i64(v: i64, buf: &mut Vec<u8>)
    ensures
        final(buf)@ == old(buf)@ + spec_dec_i64(v),
{
    let mut b = itoa::Buffer::new();
    buf.extend_from_slice(b.format(v).as_bytes());
}

/// A value rendered into the textual output: its specification form and the
/// operation that appends it.
pub trait Append: Sized {
    /// The bytes the value renders to.
    spec fn spec_repr(&self) -> Seq<u8>;

    /// Appends the rendering to `buf`.
    fn append_into(self, buf: &mut Vec<u8>)
        ensures
            final(buf)@ == old(buf)@ + self.spec_repr(),
    ;
}

impl Append for u64 {
    open spec fn spec_repr(&self) -> Seq<u8> {
        spec_dec_digits(*self as nat)
    }

    fn append_into(self, buf: &mut Vec<u8>) {
        itoa_u64(self, buf);
    }
}

impl Append for i64 {
    open spec fn spec_repr(&self) -> Seq<u8> {
        spec_dec_i64(*self)
    }

    fn append_into(self, buf: &mut Vec<u8>) {
        itoa_i64(self, buf);
    }
}

impl Append for u32 {
    open spec fn spec_repr(&self) -> Seq<u8> {
        spec_dec_digits(*self as nat)
    }

    fn append_into(self, buf: &mut Vec<u8>) {
        itoa_u64(self as u64, buf);
    }
}

impl Append for i32 {
    open spec fn spec_repr(&self) -> Seq<u8> {
        spec_dec_i64(*self as i64)
    }

    fn append_into(self, buf: &mut Vec<u8>) {
        itoa_i64(self as i64, buf);
    }
}

impl Append for bool {
    open spec fn spec_repr(&self) -> Seq<u8> {
        spec_bool_bytes(*self)
    }

    fn append_into(self, buf: &mut Vec<u8>) {
        if self {
            buf.push(0x74);
            buf.push(0x72);
            buf.push(0x75);
            buf.push(0x65);
        } else {
            buf.push(0x66);
            buf.push(0x61);
            buf.push(0x6c);
            buf.push(0x73);
            buf.push(0x65);
        }
        proof {
            assert(buf@ =~= old(buf)@ + spec_bool_bytes(self));
        }
    }
}

} // verus!
