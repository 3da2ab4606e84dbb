//! Wire-level codec: varint, zigzag, key packing, fixed-width little-endian
//! reads and writes, an append-only `Encoder` and a cursor-based `Decoder`.

use vstd::arithmetic::power2::{lemma2_to64, lemma_pow2_adds, pow2};
use vstd::prelude::*;
use vstd::slice::slice_subrange;

verus! {

/// Wire type of a varint-framed payload.
pub const WIRE_VARINT: u32 = 0;

/// Wire type of an 8-byte little-endian payload.
pub const WIRE_64BIT: u32 = 1;

/// Wire type of a length-prefixed payload.
pub const WIRE_LEN_DELIM: u32 = 2;

/// Wire type of a 4-byte little-endian payload.
pub const WIRE_32BIT: u32 = 5;

/// Error produced by the wire decoder.
#[derive(Clone, Copy, Debug, PartialEq, Eq, Structural)]
pub enum WireError {
    /// The buffer ended in the middle of a value.
    UnexpectedEof,
    /// A varint continued past the 64-bit value range.
    InvalidData,
}

/// The key that frames a record: the field tag shifted over the wire type.
pub open spec fn spec_key(tag: u32, wire: u32) -> u64 {
    ((tag as u64) << 3) | (wire as u64)
}

/// The little-endian base-128 encoding of `v`: seven bits per byte, the high
/// bit of every byte but the last set as a continuation mark.
pub open spec fn spec_varint(v: nat) -> Seq<u8>
    decreases v,
{
    if v < 128 {
        seq![v as u8]
    } else {
        seq![(128 + (v % 128)) as u8] + spec_varint(v / 128)
    }
}

/// Bytes of a record key.
pub open spec fn spec_key_bytes(tag: u32, wire: u32) -> Seq<u8> {
    spec_varint(spec_key(tag, wire) as nat)
}

/// Bytes of a length-prefixed record: key, payload length, payload.
pub open spec fn spec_len_delim(tag: u32, data: Seq<u8>) -> Seq<u8> {
    spec_key_bytes(tag, WIRE_LEN_DELIM) + spec_varint(data.len()) + data
}

/// The four little-endian bytes of `v`.
pub open spec fn spec_le4(v: u32) -> Seq<u8> {
    seq![
        (v & 0xff) as u8,
        ((v >> 8) & 0xff) as u8,
        ((v >> 16) & 0xff) as u8,
        ((v >> 24) & 0xff) as u8,
    ]
}

/// The eight little-endian bytes of `v`.
pub open spec fn spec_le8(v: u64) -> Seq<u8> {
    seq![
        (v & 0xff) as u8,
        ((v >> 8) & 0xff) as u8,
        ((v >> 16) & 0xff) as u8,
        ((v >> 24) & 0xff) as u8,
        ((v >> 32) & 0xff) as u8,
        ((v >> 40) & 0xff) as u8,
        ((v >> 48) & 0xff) as u8,
        ((v >> 56) & 0xff) as u8,
    ]
}

/// The 32-bit value read from four little-endian bytes at `i`.
pub open spec fn spec_le4_val(s: Seq<u8>, i: int) -> u32 {
    (s[i] as u32) | ((s[i + 1] as u32) << 8) | ((s[i + 2] as u32) << 16) | ((s[i + 3] as u32) << 24)
}

/// The 64-bit value read from eight little-endian bytes at `i`.
pub open spec fn spec_le8_val(s: Seq<u8>, i: int) -> u64 {
    (s[i] as u64) | ((s[i + 1] as u64) << 8) | ((s[i + 2] as u64) << 16) | ((s[i + 3] as u64) << 24)
        | ((s[i + 4] as u64) << 32) | ((s[i + 5] as u64) << 40) | ((s[i + 6] as u64) << 48) | ((s[i
        + 7] as u64) << 56)
}

/// Zigzag mapping: small magnitudes, of either sign, get small codes.
pub open spec fn spec_zigzag(v: i64) -> u64 {
    if v >= 0 {
        (v as u64) << 1
    } else {
        !((v as u64) << 1)
    }
}

/// Inverse of the zigzag mapping.
pub open spec fn spec_unzigzag(u: u64) -> i64 {
    if u & 1 == 0 {
        (u >> 1) as i64
    } else {
        !((u >> 1) as i64)
    }
}

/// Packs a tag and wire type into a record key.
pub fn proto_key(tag: u32, wire: u32) -> (r: u64)
    ensures
        r == spec_key(tag, wire),
{
    ((tag as u64) << 3) | (wire as u64)
}

/// Splits a record key into its tag and wire type.
pub fn split_key(key: u64) -> (r: (u32, u32))
    ensures
        r.0 == (key >> 3) as u32,
        r.1 == (key & 7) as u32,
{
    ((key >> 3) as u32, (key & 7) as u32)
}

/// Zigzag-encodes a signed value.
pub fn zigzag(v: i64) -> (r: u64)
    ensures
        r == spec_zigzag(v),
{
    let u: u64 = (v as u64) << 1;
    if v >= 0 {
        u
    } else {
        !u
    }
}

/// Zigzag-decodes back to a signed value.
pub fn unzigzag(u: u64) -> (r: i64)
    ensures
        r == spec_unzigzag(u),
{
    let v: i64 = (u >> 1) as i64;
    if u & 1 == 0 {
        v
    } else {
        !v
    }
}

/// Splitting a key recovers the tag and wire type it was packed from.
pub proof fn lemma_key_roundtrip(tag: u32, wire: u32)
    requires
        wire < 8,
    ensures
        (spec_key(tag, wire) >> 3) as u32 == tag,
        (spec_key(tag, wire) & 7) as u32 == wire,
{
    assert(wire < 8 ==> ((((tag as u64) << 3) | (wire as u64)) >> 3) as u32 == tag)
        by (bit_vector);
    assert(wire < 8 ==> ((((tag as u64) << 3) | (wire as u64)) & 7) as u32 == wire)
        by (bit_vector);
}

/// Zigzag is a bijection: decoding undoes encoding, non-negative values map
/// to even codes and negative values to odd codes.
pub proof fn lemma_zigzag_roundtrip(n: i64)
    ensures
        spec_unzigzag(spec_zigzag(n)) == n,
        n >= 0 ==> spec_zigzag(n) & 1 == 0,
        n < 0 ==> spec_zigzag(n) & 1 == 1,
{
    assert(n >= 0 ==> ((n as u64) << 1) & 1 == 0) by (bit_vector);
    assert(n < 0 ==> (!((n as u64) << 1)) & 1 == 1) by (bit_vector);
    assert(n >= 0 ==> ((((n as u64) << 1) >> 1) as i64) == n) by (bit_vector);
    assert(n < 0 ==> (!(((!((n as u64) << 1)) >> 1) as i64)) == n) by (bit_vector);
}

/// An append-only byte buffer with the emit operations of the wire format.
pub struct Encoder {
    inner: Vec<u8>,
}

impl View for Encoder {
    type V = Seq<u8>;

    closed spec fn view(&self) -> Seq<u8> {
        self.inner@
    }
}

impl Encoder {
    /// Wraps an existing buffer; further writes append after its contents.
    pub fn from_vec(buf: Vec<u8>) -> (r: Self)
        ensures
            r@ == buf@,
    {
        Self { inner: buf }
    }

    /// An empty encoder.
    pub fn new() -> (r: Self)
        ensures
            r@ == Seq::<u8>::empty(),
    {
        Self { inner: Vec::new() }
    }

    /// An empty encoder with room reserved for `capacity` bytes.
    pub fn with_capacity(capacity: usize) -> (r: Self)
        ensures
            r@ == Seq::<u8>::empty(),
    {
        Self { inner: Vec::with_capacity(capacity) }
    }

    /// Hands the accumulated bytes back as a vector.
    pub fn into_inner(self) -> (r: Vec<u8>)
        ensures
            r@ == self@,
    {
        self.inner
    }

    /// Drops all accumulated bytes.
    pub fn clear(&mut self)
        ensures
            final(self)@ == Seq::<u8>::empty(),
    {
        self.inner.clear();
    }

    /// True when nothing has been written.
    pub fn is_empty(&self) -> (r: bool)
        ensures
            r == (self@.len() == 0),
    {
        self.inner.is_empty()
    }

    /// Borrows the accumulated bytes.
    pub fn as_bytes(&self) -> (r: &[u8])
        ensures
            r@ == self@,
    {
        self.inner.as_slice()
    }

    /// Appends raw bytes.
    pub fn write_slice(&mut self, data: &[u8])
        ensures
            final(self)@ == old(self)@ + data@,
    {
        self.inner.extend_from_slice(data);
    }

    /// Appends the varint encoding of `v`.
    pub fn write_varint(&mut self, v: u64)
        ensures
            final(self)@ == old(self)@ + spec_varint(v as nat),
    {
        let mut x: u64 = v;
        while x >= 128
            invariant
                old(self)@ + spec_varint(v as nat) == self@ + spec_varint(x as nat),
            decreases x,
        {
            let ghost pre = self@;
            let b: u8 = 128 + (x % 128) as u8;
            self.inner.push(b);
            proof {
                assert(spec_varint(x as nat) == seq![b] + spec_varint((x as nat) / 128));
                assert(old(self)@ + spec_varint(v as nat) =~= self@ + spec_varint(
                    ((x as nat) / 128) as nat,
                ));
            }
            x = x / 128;
        }
        let ghost pre = self@;
        self.inner.push(x as u8);
        proof {
            assert(spec_varint(x as nat) =~= seq![x as u8]);
            assert(self@ =~= old(self)@ + spec_varint(v as nat));
        }
    }

    /// Appends the varint encoding of the zigzag code of `v`.
    pub fn write_zigzag(&mut self, v: i64)
        ensures
            final(self)@ == old(self)@ + spec_varint(spec_zigzag(v) as nat),
    {
        let z: u64 = zigzag(v);
        self.write_varint(z);
    }

    /// Appends a varint record: key then value.
    pub fn emit_varint(&mut self, tag: u32, v: u64)
        ensures
            final(self)@ == old(self)@ + spec_key_bytes(tag, WIRE_VARINT) + spec_varint(v as nat),
    {
        let k: u64 = proto_key(tag, WIRE_VARINT);
        self.write_varint(k);
        self.write_varint(v);
    }

    /// Appends a zigzag-coded varint record: key then code.
    pub fn emit_zigzag(&mut self, tag: u32, v: i64)
        ensures
            final(self)@ == old(self)@ + spec_key_bytes(tag, WIRE_VARINT) + spec_varint(
                spec_zigzag(v) as nat,
            ),
    {
        let k: u64 = proto_key(tag, WIRE_VARINT);
        self.write_varint(k);
        self.write_zigzag(v);
    }

    /// Appends a length-prefixed record: key, payload length, payload.
    pub fn emit_len_delim(&mut self, tag: u32, data: &[u8])
        ensures
            final(self)@ == old(self)@ + spec_len_delim(tag, data@),
    {
        let k: u64 = proto_key(tag, WIRE_LEN_DELIM);
        self.write_varint(k);
        self.write_varint(data.len() as u64);
        self.write_slice(data);
        proof {
            assert(final(self)@ =~= old(self)@ + spec_len_delim(tag, data@));
        }
    }

    /// Appends an 8-byte little-endian record: key then bytes.
    pub fn emit_u64(&mut self, tag: u32, v: u64)
        ensures
            final(self)@ == old(self)@ + spec_key_bytes(tag, WIRE_64BIT) + spec_le8(v),
    {
        let k: u64 = proto_key(tag, WIRE_64BIT);
        self.write_varint(k);
        self.write_le8(v);
    }

    /// Appends a 4-byte little-endian record: key then bytes.
    pub fn emit_u32(&mut self, tag: u32, v: u32)
        ensures
            final(self)@ == old(self)@ + spec_key_bytes(tag, WIRE_32BIT) + spec_le4(v),
    {
        let k: u64 = proto_key(tag, WIRE_32BIT);
        self.write_varint(k);
        self.write_le4(v);
    }

    /// Appends the four little-endian bytes of `v`.
    pub fn write_le4(&mut self, v: u32)
        ensures
            final(self)@ == old(self)@ + spec_le4(v),
    {
        self.inner.push((v & 0xff) as u8);
        self.inner.push(((v >> 8) & 0xff) as u8);
        self.inner.push(((v >> 16) & 0xff) as u8);
        self.inner.push(((v >> 24) & 0xff) as u8);
        proof {
            assert(self@ =~= old(self)@ + spec_le4(v));
        }
    }

    /// Appends the eight little-endian bytes of `v`.
    pub fn write_le8(&mut self, v: u64)
        ensures
            final(self)@ == old(self)@ + spec_le8(v),
    {
        self.inner.push((v & 0xff) as u8);
        self.inner.push(((v >> 8) & 0xff) as u8);
        self.inner.push(((v >> 16) & 0xff) as u8);
        self.inner.push(((v >> 24) & 0xff) as u8);
        self.inner.push(((v >> 32) & 0xff) as u8);
        self.inner.push(((v >> 40) & 0xff) as u8);
        self.inner.push(((v >> 48) & 0xff) as u8);
        self.inner.push(((v >> 56) & 0xff) as u8);
        proof {
            assert(self@ =~= old(self)@ + spec_le8(v));
        }
    }
}

/// One step of the varint read: `x` holds the bits gathered so far, `shift`
/// the position of the next seven-bit group. The shift saturates at 70, past
/// the point where any terminating byte is accepted.
pub open spec fn spec_read_varint_at(s: Seq<u8>, i: int, shift: u64, x: u64) -> Result<
    (u64, int),
    WireError,
>
    decreases s.len() - i,
{
    if i < 0 || i >= s.len() {
        Err(WireError::UnexpectedEof)
    } else {
        let b = s[i];
        let x2 = if shift <= 63 {
            x | (((b & 0x7f) as u64) << shift)
        } else {
            x
        };
        if b < 128 {
            if shift < 63 || shift + (b as u64) <= 64 {
                Ok((x2, i + 1))
            } else {
                Err(WireError::InvalidData)
            }
        } else {
            let shift2 = if shift <= 63 {
                (shift + 7) as u64
            } else {
                shift
            };
            spec_read_varint_at(s, i + 1, shift2, x2)
        }
    }
}

/// Result and new position of a varint read starting at `i`.
pub open spec fn spec_read_varint(s: Seq<u8>, i: int) -> Result<(u64, int), WireError> {
    spec_read_varint_at(s, i, 0, 0)
}

/// A cursor over a borrowed byte buffer.
pub struct Decoder<'a> {
    s: &'a [u8],
    p: usize,
}

impl<'a> Decoder<'a> {
    /// The buffer being decoded.
    pub closed spec fn bytes(&self) -> Seq<u8> {
        self.s@
    }

    /// The cursor position.
    pub closed spec fn pos(&self) -> int {
        self.p as int
    }

    /// The cursor never passes the end of the buffer.
    pub open spec fn wf(&self) -> bool {
        0 <= self.pos() <= self.bytes().len()
    }

    /// A decoder at the start of `s`.
    pub fn new(s: &'a [u8]) -> (r: Self)
        ensures
            r.bytes() == s@,
            r.pos() == 0,
            r.wf(),
    {
        Self { s, p: 0 }
    }

    /// True when the whole buffer has been consumed.
    pub fn eof(&self) -> (r: bool)
        requires
            self.wf(),
        ensures
            r == (self.pos() == self.bytes().len()),
    {
        self.s.len() == self.p
    }

    /// Reads one varint. Fails with `UnexpectedEof` when the buffer ends
    /// mid-value, and with `InvalidData` when the value would pass 64 bits.
    pub fn read_varint(&mut self) -> (r: Result<u64, WireError>)
        requires
            old(self).wf(),
        ensures
            final(self).bytes() == old(self).bytes(),
            final(self).wf(),
            match r {
                Ok(v) => spec_read_varint(old(self).bytes(), old(self).pos()) == Ok::<
                    (u64, int),
                    WireError,
                >((v, final(self).pos())) && final(self).pos() > old(self).pos(),
                Err(e) => spec_read_varint(old(self).bytes(), old(self).pos()) == Err::<
                    (u64, int),
                    WireError,
                >(e) && final(self).pos() == old(self).pos(),
            },
    {
        let ghost s = self.s@;
        let ghost p0 = self.p as int;
        let mut x: u64 = 0;
        let mut shift: u64 = 0;
        let mut i: usize = self.p;
        while i < self.s.len()
            invariant
                self == old(self),
                self.wf(),
                old(self).pos() <= i <= s.len(),
                s == self.s@,
                shift <= 70,
                spec_read_varint(s, p0) == spec_read_varint_at(s, i as int, shift, x),
                p0 == old(self).pos(),
            decreases s.len() - i,
        {
            let b: u8 = self.s[i];
            if shift <= 63 {
                x = x | (((b & 0x7f) as u64) << (shift as u32));
            }
            if b < 128 {
                if shift < 63 || shift + (b as u64) <= 64 {
                    self.p = i + 1;
                    return Ok(x);
                } else {
                    return Err(WireError::InvalidData);
                }
            }
            if shift <= 63 {
                shift = shift + 7;
            }
            i = i + 1;
        }
        Err(WireError::UnexpectedEof)
    }

    /// Reads a record key and splits it into tag and wire type.
    pub fn read_key(&mut self) -> (r: Result<(u32, u32), WireError>)
        requires
            old(self).wf(),
        ensures
            final(self).bytes() == old(self).bytes(),
            final(self).wf(),
            match r {
                Ok((tag, wire)) => spec_read_varint(old(self).bytes(), old(self).pos()) matches Ok(
                    (k, p),
                ) && tag == (k >> 3) as u32 && wire == (k & 7) as u32 && final(self).pos() == p
                    && final(self).pos() > old(self).pos(),
                Err(e) => spec_read_varint(old(self).bytes(), old(self).pos()) == Err::<
                    (u64, int),
                    WireError,
                >(e) && final(self).pos() == old(self).pos(),
            },
    {
        match self.read_varint() {
            Ok(k) => Ok(split_key(k)),
            Err(e) => Err(e),
        }
    }

    /// Reads a varint and zigzag-decodes it.
    pub fn read_zigzag(&mut self) -> (r: Result<i64, WireError>)
        requires
            old(self).wf(),
        ensures
            final(self).bytes() == old(self).bytes(),
            final(self).wf(),
            match r {
                Ok(v) => spec_read_varint(old(self).bytes(), old(self).pos()) matches Ok((u, p))
                    && v == spec_unzigzag(u) && final(self).pos() == p,
                Err(e) => spec_read_varint(old(self).bytes(), old(self).pos()) == Err::<
                    (u64, int),
                    WireError,
                >(e) && final(self).pos() == old(self).pos(),
            },
    {
        match self.read_varint() {
            Ok(u) => Ok(unzigzag(u)),
            Err(e) => Err(e),
        }
    }

    /// Reads four little-endian bytes as a 32-bit value.
    pub fn read_32bit(&mut self) -> (r: Result<u32, WireError>)
        requires
            old(self).wf(),
        ensures
            final(self).bytes() == old(self).bytes(),
            final(self).wf(),
            match r {
                Ok(v) => old(self).pos() + 4 <= old(self).bytes().len() && final(self).pos() == old(self).pos() + 4 && spec_le4(v) == old(self).bytes().subrange(
                    old(self).pos(),
                    old(self).pos() + 4,
                ) && v == spec_le4_val(old(self).bytes(), old(self).pos()),
                Err(e) => e == WireError::UnexpectedEof && old(self).pos() + 4 > old(self).bytes().len() && final(self).pos() == old(self).pos(),
            },
    {
        if self.s.len() - self.p >= 4 {
            let b0: u8 = self.s[self.p];
            let b1: u8 = self.s[self.p + 1];
            let b2: u8 = self.s[self.p + 2];
            let b3: u8 = self.s[self.p + 3];
            let v: u32 = (b0 as u32) | ((b1 as u32) << 8) | ((b2 as u32) << 16) | ((b3
                as u32) << 24);
            proof {
                lemma_le4_bytes(b0, b1, b2, b3, v);
            }
            self.p = self.p + 4;
            proof {
                assert(spec_le4(v) =~= old(self).bytes().subrange(
                    old(self).pos(),
                    old(self).pos() + 4,
                ));
            }
            Ok(v)
        } else {
            Err(WireError::UnexpectedEof)
        }
    }

    /// Reads eight little-endian bytes as a 64-bit value.
    pub fn read_64bit(&mut self) -> (r: Result<u64, WireError>)
        requires
            old(self).wf(),
        ensures
            final(self).bytes() == old(self).bytes(),
            final(self).wf(),
            match r {
                Ok(v) => old(self).pos() + 8 <= old(self).bytes().len() && final(self).pos() == old(self).pos() + 8 && spec_le8(v) == old(self).bytes().subrange(
                    old(self).pos(),
                    old(self).pos() + 8,
                ) && v == spec_le8_val(old(self).bytes(), old(self).pos()),
                Err(e) => e == WireError::UnexpectedEof && old(self).pos() + 8 > old(self).bytes().len() && final(self).pos() == old(self).pos(),
            },
    {
        if self.s.len() - self.p >= 8 {
            let b0: u8 = self.s[self.p];
            let b1: u8 = self.s[self.p + 1];
            let b2: u8 = self.s[self.p + 2];
            let b3: u8 = self.s[self.p + 3];
            let b4: u8 = self.s[self.p + 4];
            let b5: u8 = self.s[self.p + 5];
            let b6: u8 = self.s[self.p + 6];
            let b7: u8 = self.s[self.p + 7];
            let v: u64 = (b0 as u64) | ((b1 as u64) << 8) | ((b2 as u64) << 16) | ((b3
                as u64) << 24) | ((b4 as u64) << 32) | ((b5 as u64) << 40) | ((b6 as u64) << 48) | (
            (b7 as u64) << 56);
            proof {
                lemma_le8_bytes(b0, b1, b2, b3, b4, b5, b6, b7, v);
            }
            self.p = self.p + 8;
            proof {
                assert(spec_le8(v) =~= old(self).bytes().subrange(
                    old(self).pos(),
                    old(self).pos() + 8,
                ));
            }
            Ok(v)
        } else {
            Err(WireError::UnexpectedEof)
        }
    }

    /// Reads a length varint and then borrows that many payload bytes.
    pub fn read_data(&mut self) -> (r: Result<&'a [u8], WireError>)
        requires
            old(self).wf(),
        ensures
            final(self).bytes() == old(self).bytes(),
            final(self).wf(),
            match r {
                Ok(d) => spec_read_varint(old(self).bytes(), old(self).pos()) matches Ok((n, p))
                    && p + (n as usize) <= old(self).bytes().len() && final(self).pos() == p + (
                n as usize) && d@ == old(self).bytes().subrange(p, p + (n as usize)) && final(self).pos() > old(self).pos() && d@.len() < final(self).pos() - old(self).pos(),
                Err(e) => final(self).pos() == old(self).pos() && match spec_read_varint(
                    old(self).bytes(),
                    old(self).pos(),
                ) {
                    Ok((n, p)) => e == WireError::UnexpectedEof && p + (n as usize) > old(self).bytes().len(),
                    Err(e2) => e == e2,
                },
            },
    {
        let p0: usize = self.p;
        match self.read_varint() {
            Ok(x) => {
                let n: usize = x as usize;
                if n <= self.s.len() - self.p {
                    let d: &[u8] = slice_subrange(self.s, self.p, self.p + n);
                    self.p = self.p + n;
                    Ok(d)
                } else {
                    self.p = p0;
                    Err(WireError::UnexpectedEof)
                }
            },
            Err(e) => Err(e),
        }
    }
}

/// The four bytes assembled into a 32-bit value read back out byte by byte.
proof fn lemma_le4_bytes(b0: u8, b1: u8, b2: u8, b3: u8, v: u32)
    requires
        v == (b0 as u32) | ((b1 as u32) << 8) | ((b2 as u32) << 16) | ((b3 as u32) << 24),
    ensures
        (v & 0xff) as u8 == b0,
        ((v >> 8) & 0xff) as u8 == b1,
        ((v >> 16) & 0xff) as u8 == b2,
        ((v >> 24) & 0xff) as u8 == b3,
{
    assert(v == (b0 as u32) | ((b1 as u32) << 8) | ((b2 as u32) << 16) | ((b3 as u32) << 24) ==> (v
        & 0xff) as u8 == b0 && ((v >> 8) & 0xff) as u8 == b1 && ((v >> 16) & 0xff) as u8 == b2 && ((
    v >> 24) & 0xff) as u8 == b3) by (bit_vector);
}

/// The eight bytes assembled into a 64-bit value read back out byte by byte.
proof fn lemma_le8_bytes(b0: u8, b1: u8, b2: u8, b3: u8, b4: u8, b5: u8, b6: u8, b7: u8, v: u64)
    requires
        v == (b0 as u64) | ((b1 as u64) << 8) | ((b2 as u64) << 16) | ((b3 as u64) << 24) | ((b4
            as u64) << 32) | ((b5 as u64) << 40) | ((b6 as u64) << 48) | ((b7 as u64) << 56),
    ensures
        (v & 0xff) as u8 == b0,
        ((v >> 8) & 0xff) as u8 == b1,
        ((v >> 16) & 0xff) as u8 == b2,
        ((v >> 24) & 0xff) as u8 == b3,
        ((v >> 32) & 0xff) as u8 == b4,
        ((v >> 40) & 0xff) as u8 == b5,
        ((v >> 48) & 0xff) as u8 == b6,
        ((v >> 56) & 0xff) as u8 == b7,
{
    assert(v == (b0 as u64) | ((b1 as u64) << 8) | ((b2 as u64) << 16) | ((b3 as u64) << 24) | ((b4
        as u64) << 32) | ((b5 as u64) << 40) | ((b6 as u64) << 48) | ((b7 as u64) << 56) ==> (v
        & 0xff) as u8 == b0 && ((v >> 8) & 0xff) as u8 == b1 && ((v >> 16) & 0xff) as u8 == b2 && ((
    v >> 24) & 0xff) as u8 == b3 && ((v >> 32) & 0xff) as u8 == b4 && ((v >> 40) & 0xff) as u8 == b5
        && ((v >> 48) & 0xff) as u8 == b6 && ((v >> 56) & 0xff) as u8 == b7) by (bit_vector);
}

/// A successful varint read always moves the cursor forward.
pub proof fn lemma_read_varint_advances(s: Seq<u8>, i: int)
    ensures
        spec_read_varint(s, i) matches Ok((v, p)) ==> i < p <= s.len(),
{
    lemma_read_varint_at_advances(s, i, 0, 0);
}

/// Helper for `lemma_read_varint_advances`, generalized over the read state.
proof fn lemma_read_varint_at_advances(s: Seq<u8>, i: int, shift: u64, x: u64)
    ensures
        spec_read_varint_at(s, i, shift, x) matches Ok((v, p)) ==> i < p <= s.len(),
    decreases s.len() - i,
{
    if 0 <= i < s.len() {
        let b = s[i];
        if b >= 128 {
            let shift2: u64 = if shift <= 63 {
                (shift + 7) as u64
            } else {
                shift
            };
            let x2: u64 = if shift <= 63 {
                x | (((b & 0x7f) as u64) << shift)
            } else {
                x
            };
            lemma_read_varint_at_advances(s, i + 1, shift2, x2);
        }
    }
}

/// The varint encoding never takes more than ten bytes.
pub proof fn lemma_varint_len(v: u64)
    ensures
        1 <= spec_varint(v as nat).len() <= 10,
{
    lemma_u64_below_pow2_70(v);
    assert(pow2(70) == pow2(7 * 10));
    lemma_varint_len_bound(v as nat, 10);
}

/// Values under `2^(7k)` encode in at most `k` bytes.
proof fn lemma_varint_len_bound(v: nat, k: nat)
    requires
        k >= 1,
        v < pow2(7 * k),
    ensures
        1 <= spec_varint(v).len() <= k,
    decreases k,
{
    if v >= 128 {
        lemma2_to64();
        lemma_pow2_adds(7, 7 * (k - 1) as nat);
        assert(pow2(7 * k) == pow2(7) * pow2(7 * (k - 1) as nat));
        assert(v / 128 < pow2(7 * (k - 1) as nat));
        lemma_varint_len_bound(v / 128, (k - 1) as nat);
    }
}

/// Every `u64` is under `2^70`.
proof fn lemma_u64_below_pow2_70(v: u64)
    ensures
        (v as nat) < pow2(70),
{
    lemma2_to64();
    lemma_pow2_adds(64, 6);
    assert((v as nat) < pow2(64));
    assert(pow2(70) == pow2(64) * pow2(6));
}

/// Reading a varint encoding written at the head of a stream yields the value
/// back and leaves the cursor on the following byte.
pub proof fn lemma_varint_roundtrip(v: u64, s: Seq<u8>, i: int)
    requires
        0 <= i,
        i + spec_varint(v as nat).len() <= s.len(),
        s.subrange(i, i + spec_varint(v as nat).len() as int) == spec_varint(v as nat),
    ensures
        spec_read_varint(s, i) == Ok::<(u64, int), WireError>(
            (v, i + spec_varint(v as nat).len()),
        ),
{
    lemma2_to64();
    lemma_varint_roundtrip_at(v, s, i, 0, 0);
    assert(0u64 | (v << 0u64) == v) by (bit_vector);
}

/// Helper for `lemma_varint_roundtrip`, generalized over the read state: when
/// the remaining value fits above `shift`, reading resumes into `x` exactly
/// the bits of `v` shifted into place.
proof fn lemma_varint_roundtrip_at(v: u64, s: Seq<u8>, i: int, shift: u64, x: u64)
    requires
        0 <= i,
        i + spec_varint(v as nat).len() <= s.len(),
        s.subrange(i, i + spec_varint(v as nat).len() as int) == spec_varint(v as nat),
        shift <= 63,
        shift % 7 == 0,
        (v as nat) < pow2((64 - shift) as nat),
    ensures
        spec_read_varint_at(s, i, shift, x) == Ok::<(u64, int), WireError>(
            (x | (v << shift), i + spec_varint(v as nat).len()),
        ),
    decreases 64 - shift,
{
    let enc = spec_varint(v as nat);
    assert(s[i] == enc[0]);
    let b: u8 = s[i];
    if v < 128 {
        assert(enc =~= seq![v as u8]);
        assert(b == v as u8);
        assert(b as u64 == v);
        if shift >= 63 {
            assert(shift == 63);
            lemma2_to64();
            assert(pow2(1) == 2);
            assert(v <= 1);
        }
        assert(shift < 63 || shift + (b as u64) <= 64);
        assert(b < 128);
        assert(((b & 0x7f) as u64) << shift == v << shift) by (bit_vector)
            requires
                b as u64 == v,
                v < 128,
                shift <= 63,
        ;
    } else {
        let m: u64 = (v % 128) as u64;
        let v2: u64 = v / 128;
        assert(enc == seq![(128 + (v as nat) % 128) as u8] + spec_varint(v2 as nat));
        assert(128 + (v as nat) % 128 < 256);
        assert(b == (128 + (v as nat) % 128) as u8);
        assert(b as u64 == 128 + m);
        assert(b >= 128);
        assert(shift < 63) by {
            if shift == 63 {
                lemma2_to64();
                assert(pow2(1) == 2);
            }
        }
        assert(shift <= 56);
        let shift2: u64 = (shift + 7) as u64;
        let x2: u64 = x | (((b & 0x7f) as u64) << shift);
        let enc2 = spec_varint(v2 as nat);
        assert(enc.len() == 1 + enc2.len());
        assert forall|j: int| 0 <= j < enc2.len() implies s[i + 1 + j] == enc2[j] by {
            assert(s.subrange(i, i + enc.len() as int)[1 + j] == s[i + 1 + j]);
            assert(enc[1 + j] == enc2[j]);
        }
        assert(s.subrange(i + 1, i + 1 + enc2.len() as int) =~= enc2);
        assert((v2 as nat) < pow2((64 - shift2) as nat)) by {
            lemma2_to64();
            lemma_pow2_adds(7, (64 - shift2) as nat);
            assert(pow2((64 - shift) as nat) == pow2(7) * pow2((64 - shift2) as nat));
        }
        lemma_varint_roundtrip_at(v2, s, i + 1, shift2, x2);
        assert(x2 | (v2 << shift2) == x | (v << shift)) by (bit_vector)
            requires
                x2 == x | (((b & 0x7f) as u64) << shift),
                b as u64 == 128 + m,
                m == v % 128,
                v2 == v / 128,
                shift2 == shift + 7,
                shift <= 56,
        ;
        assert(spec_read_varint_at(s, i, shift, x) == spec_read_varint_at(s, i + 1, shift2, x2));
    }
}


/// A varint whose tenth byte carries bits beyond bit 63 is rejected: after
/// nine continuation bytes only the values zero and one may terminate.
pub proof fn lemma_varint_rejects_overflow(s: Seq<u8>, i: int)
    requires
        0 <= i,
        i + 10 <= s.len(),
        forall|l: int| i <= l < i + 9 ==> s[l] >= 0x80,
        s[i + 9] < 0x80,
        s[i + 9] & 0xfe != 0,
    ensures
        spec_read_varint(s, i) == Err::<(u64, int), WireError>(WireError::InvalidData),
{
    lemma_varint_overflow_at(s, i, 0, 0);
}

/// Helper for `lemma_varint_rejects_overflow`, generalized over the read
/// state: with the remaining continuation run reaching the tenth byte, the
/// read ends in `InvalidData`.
proof fn lemma_varint_overflow_at(s: Seq<u8>, j: int, shift: u64, x: u64)
    requires
        0 <= j,
        shift <= 63,
        shift % 7 == 0,
        j + (63 - shift) / 7 < s.len(),
        forall|l: int| j <= l < j + (63 - shift) / 7 ==> s[l] >= 0x80,
        s[j + (63 - shift) / 7] < 0x80,
        s[j + (63 - shift) / 7] & 0xfe != 0,
    ensures
        spec_read_varint_at(s, j, shift, x) == Err::<(u64, int), WireError>(
            WireError::InvalidData,
        ),
    decreases 63 - shift,
{
    let m = (63 - shift) / 7;
    if shift == 63 {
        let b = s[j];
        assert(b >= 2) by (bit_vector)
            requires
                b & 0xfe != 0,
        ;
    } else {
        assert(shift <= 56);
        let b = s[j];
        assert(b >= 128);
        let shift2: u64 = (shift + 7) as u64;
        let x2: u64 = x | (((b & 0x7f) as u64) << shift);
        assert((63 - shift2) / 7 == m - 1);
        lemma_varint_overflow_at(s, j + 1, shift2, x2);
    }
}


/// Ten continuation bytes exhaust the value range: however the input goes
/// on, the read can only fail, never produce an eleven-byte value.
pub proof fn lemma_varint_rejects_eleven_bytes(s: Seq<u8>, i: int)
    requires
        0 <= i,
        i + 10 <= s.len(),
        forall|l: int| i <= l < i + 10 ==> s[l] >= 0x80,
    ensures
        spec_read_varint(s, i) is Err,
{
    lemma_varint_long_at(s, i, 0, 0);
}

/// Helper for `lemma_varint_rejects_eleven_bytes`: a continuation run that
/// carries the shift past 63 leaves only failing outcomes.
proof fn lemma_varint_long_at(s: Seq<u8>, j: int, shift: u64, x: u64)
    requires
        0 <= j,
        shift <= 63,
        shift % 7 == 0,
        j + (63 - shift) / 7 + 1 <= s.len(),
        forall|l: int| j <= l < j + (63 - shift) / 7 + 1 ==> s[l] >= 0x80,
    ensures
        spec_read_varint_at(s, j, shift, x) is Err,
    decreases 63 - shift,
{
    let b = s[j];
    assert(b >= 128);
    if shift == 63 {
        lemma_varint_overshift(s, j + 1, x | (((b & 0x7f) as u64) << shift));
    } else {
        assert(shift <= 56);
        let shift2: u64 = (shift + 7) as u64;
        assert((63 - shift2) / 7 + 1 == (63 - shift) / 7);
        lemma_varint_long_at(s, j + 1, shift2, x | (((b & 0x7f) as u64) << shift));
    }
}

/// Past the tenth byte no terminating byte is acceptable any more.
proof fn lemma_varint_overshift(s: Seq<u8>, j: int, x: u64)
    ensures
        spec_read_varint_at(s, j, 70, x) is Err,
    decreases s.len() - j,
{
    if 0 <= j < s.len() {
        if s[j] >= 128 {
            lemma_varint_overshift(s, j + 1, x);
        }
    }
}

} // verus!
