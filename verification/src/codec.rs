//! The length-prefixed binary encoding of values, over a positioned byte
//! buffer.
//!
//! Each value is one tag byte followed by its payload: integers and float
//! bit patterns as little-endian 64-bit words, text with a one-byte length
//! prefix, blobs with a four-byte little-endian length prefix, `Null` as
//! the bare tag. Decoding is the exact inverse of encoding.

use vstd::prelude::*;

use crate::value::spec_u64_of_i64;
use crate::value::Something;
use crate::value::ValView;

verus! {

/// A byte buffer with a read position. Writes append at the end; reads
/// advance the position.
#[derive(Debug)]
pub struct ByteBuffer {
    buffer: Vec<u8>,
    position: usize,
}

impl ByteBuffer {
    /// The buffered bytes.
    pub closed spec fn data(&self) -> Seq<u8> {
        self.buffer@
    }

    /// The read position.
    pub closed spec fn pos(&self) -> int {
        self.position as int
    }

    /// An empty buffer.
    pub fn new() -> (b: ByteBuffer)
        ensures
            b.data() == Seq::<u8>::empty(),
            b.pos() == 0,
    {
        ByteBuffer { buffer: Vec::new(), position: 0 }
    }

    /// A buffer over existing bytes, positioned at the start.
    pub fn from_vec(data: Vec<u8>) -> (b: ByteBuffer)
        ensures
            b.data() == data@,
            b.pos() == 0,
    {
        ByteBuffer { buffer: data, position: 0 }
    }

    /// How many bytes remain from the position to the end.
    pub fn remaining(&self) -> (n: usize)
        requires
            self.pos() <= self.data().len(),
        ensures
            n == self.data().len() - self.pos(),
    {
        self.buffer.len() - self.position
    }

    /// The byte `off` places past the position, without advancing.
    pub fn peek(&self, off: usize) -> (r: u8)
        requires
            self.pos() + off < self.data().len(),
        ensures
            r == self.data()[self.pos() + off],
    {
        let n = self.buffer.len();
        self.buffer[self.position + off]
    }

    /// Reads one byte and advances past it.
    pub fn read_u8(&mut self) -> (r: u8)
        requires
            old(self).pos() < old(self).data().len(),
        ensures
            r == old(self).data()[old(self).pos()],
            final(self).data() == old(self).data(),
            final(self).pos() == old(self).pos() + 1,
    {
        let n = self.buffer.len();
        let b = self.buffer[self.position];
        self.position = self.position + 1;
        b
    }

    /// Appends one byte at the end; the position stays.
    pub fn write_u8(&mut self, value: u8)
        ensures
            final(self).data() == old(self).data().push(value),
            final(self).pos() == old(self).pos(),
    {
        self.buffer.push(value);
    }

    /// Rewinds the position to the start.
    pub fn reset(&mut self)
        ensures
            final(self).data() == old(self).data(),
            final(self).pos() == 0,
    {
        self.position = 0;
    }

    /// Appends bytes at the end; the position stays.
    pub fn write_bytes(&mut self, data: &[u8])
        ensures
            final(self).data() == old(self).data() + data@,
            final(self).pos() == old(self).pos(),
    {
        let mut i: usize = 0;
        while i < data.len()
            invariant
                0 <= i <= data@.len(),
                self.buffer@ == old(self).buffer@ + data@.subrange(0, i as int),
                self.position == old(self).position,
            decreases data@.len() - i,
        {
            self.buffer.push(data[i]);
            proof {
                assert(self.buffer@ =~= old(self).buffer@ + data@.subrange(0, i + 1));
            }
            i = i + 1;
        }
        proof {
            assert(old(self).buffer@ + data@.subrange(0, data@.len() as int) =~= old(
                self,
            ).buffer@ + data@);
        }
    }

    /// Reads `length` bytes, copied out, and advances past them.
    pub fn read_bytes(&mut self, length: usize) -> (r: Vec<u8>)
        requires
            old(self).pos() + length <= old(self).data().len(),
        ensures
            r@ == old(self).data().subrange(old(self).pos(), old(self).pos() + length),
            final(self).data() == old(self).data(),
            final(self).pos() == old(self).pos() + length,
    {
        let mut r: Vec<u8> = Vec::new();
        let mut i: usize = 0;
        while i < length
            invariant
                0 <= i <= length,
                old(self).pos() + length <= old(self).data().len(),
                self.buffer@ == old(self).buffer@,
                self.position == old(self).position,
                r@ == old(self).data().subrange(old(self).pos(), old(self).pos() + i),
            decreases length - i,
        {
            let n = self.buffer.len();
            r.push(self.buffer[self.position + i]);
            proof {
                assert(r@ =~= old(self).data().subrange(
                    old(self).pos(),
                    old(self).pos() + i + 1,
                ));
            }
            i = i + 1;
        }
        let n = self.buffer.len();
        self.position = self.position + length;
        r
    }

    /// Writes a signed 64-bit integer as eight little-endian bytes.
    pub fn write_i64(&mut self, value: i64)
        ensures
            final(self).data() == old(self).data() + le_bytes64(spec_u64_of_i64(value)),
            final(self).pos() == old(self).pos(),
    {
        let bits = u64_of_i64(value);
        self.write_u64_le(bits);
    }

    /// Reads a signed 64-bit integer from eight little-endian bytes.
    pub fn read_i64(&mut self) -> (r: i64)
        requires
            old(self).pos() + 8 <= old(self).data().len(),
        ensures
            spec_u64_of_i64(r) == u64_from_le(
                old(self).data().subrange(old(self).pos(), old(self).pos() + 8),
            ),
            final(self).data() == old(self).data(),
            final(self).pos() == old(self).pos() + 8,
    {
        let bits = self.read_u64_le();
        i64_of_u64(bits)
    }

    /// Writes an unsigned 64-bit word as eight little-endian bytes.
    pub fn write_u64_le(&mut self, x: u64)
        ensures
            final(self).data() == old(self).data() + le_bytes64(x),
            final(self).pos() == old(self).pos(),
    {
        self.write_u8(byte_of(x, 0));
        self.write_u8(byte_of(x, 8));
        self.write_u8(byte_of(x, 16));
        self.write_u8(byte_of(x, 24));
        self.write_u8(byte_of(x, 32));
        self.write_u8(byte_of(x, 40));
        self.write_u8(byte_of(x, 48));
        self.write_u8(byte_of(x, 56));
        proof {
            assert(final(self).data() =~= old(self).data() + le_bytes64(x));
        }
    }

    /// Reads an unsigned 64-bit word from eight little-endian bytes.
    pub fn read_u64_le(&mut self) -> (r: u64)
        requires
            old(self).pos() + 8 <= old(self).data().len(),
        ensures
            r == u64_from_le(old(self).data().subrange(old(self).pos(), old(self).pos() + 8)),
            final(self).data() == old(self).data(),
            final(self).pos() == old(self).pos() + 8,
    {
        let b0 = self.read_u8();
        let b1 = self.read_u8();
        let b2 = self.read_u8();
        let b3 = self.read_u8();
        let b4 = self.read_u8();
        let b5 = self.read_u8();
        let b6 = self.read_u8();
        let b7 = self.read_u8();
        let r = (b0 as u64) | ((b1 as u64) << 8) | ((b2 as u64) << 16) | ((b3 as u64) << 24) | ((
        b4 as u64) << 32) | ((b5 as u64) << 40) | ((b6 as u64) << 48) | ((b7 as u64) << 56);
        proof {
            let s = old(self).data().subrange(old(self).pos(), old(self).pos() + 8);
            assert(s[0] == b0 && s[1] == b1 && s[2] == b2 && s[3] == b3 && s[4] == b4 && s[5]
                == b5 && s[6] == b6 && s[7] == b7);
        }
        r
    }
}

/// Byte `sh / 8` of the little-endian image of `x`.
pub fn byte_of(x: u64, sh: u64) -> (r: u8)
    requires
        sh <= 56,
    ensures
        r == ((x >> sh) & 0xff) as u8,
{
    let y = (x >> sh) & 0xff;
    proof {
        assert((x >> sh) & 0xff <= 0xff) by (bit_vector);
    }
    y as u8
}

/// The eight little-endian bytes of a 64-bit word.
pub open spec fn le_bytes64(x: u64) -> Seq<u8> {
    seq![
        ((x >> 0) & 0xff) as u8,
        ((x >> 8) & 0xff) as u8,
        ((x >> 16) & 0xff) as u8,
        ((x >> 24) & 0xff) as u8,
        ((x >> 32) & 0xff) as u8,
        ((x >> 40) & 0xff) as u8,
        ((x >> 48) & 0xff) as u8,
        ((x >> 56) & 0xff) as u8,
    ]
}

/// The 64-bit word read from eight little-endian bytes.
pub open spec fn u64_from_le(b: Seq<u8>) -> u64
    recommends
        b.len() == 8,
{
    (b[0] as u64) | ((b[1] as u64) << 8) | ((b[2] as u64) << 16) | ((b[3] as u64) << 24) | ((
    b[4] as u64) << 32) | ((b[5] as u64) << 40) | ((b[6] as u64) << 48) | ((b[7] as u64) << 56)
}

/// Reading back the little-endian image of a word yields the word.
pub proof fn lemma_le64_round_trip(x: u64)
    ensures
        u64_from_le(le_bytes64(x)) == x,
{
    assert(((((x >> 0) & 0xff) as u8) as u64) | (((((x >> 8) & 0xff) as u8) as u64) << 8) | (((((
    x >> 16) & 0xff) as u8) as u64) << 16) | (((((x >> 24) & 0xff) as u8) as u64) << 24) | (((((
    x >> 32) & 0xff) as u8) as u64) << 32) | (((((x >> 40) & 0xff) as u8) as u64) << 40) | (((((
    x >> 48) & 0xff) as u8) as u64) << 48) | (((((x >> 56) & 0xff) as u8) as u64) << 56) == x)
        by (bit_vector);
}

/// The two's-complement image of a signed 64-bit integer, executable.
pub fn u64_of_i64(x: i64) -> (r: u64)
    ensures
        r == spec_u64_of_i64(x),
{
    if x >= 0 {
        x as u64
    } else {
        let off: i128 = (x as i128) + 0x10000000000000000;
        off as u64
    }
}

/// The signed 64-bit integer with a given two's-complement image,
/// executable.
pub fn i64_of_u64(x: u64) -> (r: i64)
    ensures
        spec_u64_of_i64(r) == x,
{
    if x <= 0x7fffffffffffffff {
        x as i64
    } else {
        let off: i128 = (x as i128) - 0x10000000000000000;
        off as i64
    }
}

/// The four little-endian bytes of a 32-bit word.
pub open spec fn le_bytes32(x: u32) -> Seq<u8> {
    seq![
        ((x >> 0) & 0xff) as u8,
        ((x >> 8) & 0xff) as u8,
        ((x >> 16) & 0xff) as u8,
        ((x >> 24) & 0xff) as u8,
    ]
}

/// The 32-bit word read from four little-endian bytes.
pub open spec fn u32_from_le(b: Seq<u8>) -> u32
    recommends
        b.len() == 4,
{
    (b[0] as u32) | ((b[1] as u32) << 8) | ((b[2] as u32) << 16) | ((b[3] as u32) << 24)
}

/// Reading back the little-endian image of a 32-bit word yields the word.
pub proof fn lemma_le32_round_trip(x: u32)
    ensures
        u32_from_le(le_bytes32(x)) == x,
{
    assert(((((x >> 0) & 0xff) as u8) as u32) | (((((x >> 8) & 0xff) as u8) as u32) << 8) | (((((
    x >> 16) & 0xff) as u8) as u32) << 16) | (((((x >> 24) & 0xff) as u8) as u32) << 24) == x)
        by (bit_vector);
}

/// The signed integer with a given two's-complement image.
pub open spec fn spec_i64_of_u64(u: u64) -> i64 {
    if u <= 0x7fffffffffffffff {
        u as i64
    } else {
        (u - 0x10000000000000000) as i64
    }
}

/// The two maps between signed integers and their two's-complement images
/// invert each other.
pub proof fn lemma_i64_u64_inverse(x: i64, u: u64)
    ensures
        spec_i64_of_u64(spec_u64_of_i64(x)) == x,
        spec_u64_of_i64(spec_i64_of_u64(u)) == u,
{
}

/// Tag byte of an encoded integer.
pub const TAG_INT: u8 = 0;

/// Tag byte of an encoded text value.
pub const TAG_TEXT: u8 = 1;

/// Tag byte of an encoded `Null`.
pub const TAG_NULL: u8 = 2;

/// Tag byte of an encoded float bit pattern.
pub const TAG_FLOAT: u8 = 3;

/// Tag byte of an encoded pair of float bit patterns.
pub const TAG_FLOAT2: u8 = 4;

/// Tag byte of an encoded blob.
pub const TAG_BLOB: u8 = 5;

/// Whether a value fits the encoding's length prefixes: text up to 255
/// bytes, blobs up to four gigabytes.
pub open spec fn encodable(v: ValView) -> bool {
    match v {
        ValView::Text(s) => s.len() < 256,
        ValView::Blob(s) => s.len() < 0x1_0000_0000,
        _ => true,
    }
}

/// The encoding of one value: a tag byte, then the payload.
pub open spec fn val_encoding(v: ValView) -> Seq<u8> {
    match v {
        ValView::Int(x) => seq![TAG_INT] + le_bytes64(spec_u64_of_i64(x)),
        ValView::Text(s) => seq![TAG_TEXT, s.len() as u8] + s,
        ValView::Null => seq![TAG_NULL],
        ValView::Float(b) => seq![TAG_FLOAT] + le_bytes64(b),
        ValView::Float2(b0, b1) => seq![TAG_FLOAT2] + le_bytes64(b0) + le_bytes64(b1),
        ValView::Blob(s) => seq![TAG_BLOB] + le_bytes32(s.len() as u32) + s,
    }
}

/// What decoding reads at `pos`: the value and the position just past it,
/// or `None` where no well-formed encoding starts at `pos`.
pub open spec fn decode_val(bytes: Seq<u8>, pos: int) -> Option<(ValView, int)> {
    if pos < 0 || pos >= bytes.len() {
        None
    } else if bytes[pos] == TAG_INT {
        if pos + 9 <= bytes.len() {
            Some(
                (
                    ValView::Int(spec_i64_of_u64(u64_from_le(bytes.subrange(pos + 1, pos + 9)))),
                    pos + 9,
                ),
            )
        } else {
            None
        }
    } else if bytes[pos] == TAG_TEXT {
        if pos + 2 <= bytes.len() {
            let l = bytes[pos + 1] as int;
            if pos + 2 + l <= bytes.len() {
                Some((ValView::Text(bytes.subrange(pos + 2, pos + 2 + l)), pos + 2 + l))
            } else {
                None
            }
        } else {
            None
        }
    } else if bytes[pos] == TAG_NULL {
        Some((ValView::Null, pos + 1))
    } else if bytes[pos] == TAG_FLOAT {
        if pos + 9 <= bytes.len() {
            Some((ValView::Float(u64_from_le(bytes.subrange(pos + 1, pos + 9))), pos + 9))
        } else {
            None
        }
    } else if bytes[pos] == TAG_FLOAT2 {
        if pos + 17 <= bytes.len() {
            Some(
                (
                    ValView::Float2(
                        u64_from_le(bytes.subrange(pos + 1, pos + 9)),
                        u64_from_le(bytes.subrange(pos + 9, pos + 17)),
                    ),
                    pos + 17,
                ),
            )
        } else {
            None
        }
    } else if bytes[pos] == TAG_BLOB {
        if pos + 5 <= bytes.len() {
            let l = u32_from_le(bytes.subrange(pos + 1, pos + 5)) as int;
            if pos + 5 + l <= bytes.len() {
                Some((ValView::Blob(bytes.subrange(pos + 5, pos + 5 + l)), pos + 5 + l))
            } else {
                None
            }
        } else {
            None
        }
    } else {
        None
    }
}

impl ByteBuffer {
    /// Writes an unsigned 32-bit word as four little-endian bytes.
    pub fn write_u32_le(&mut self, x: u32)
        ensures
            final(self).data() == old(self).data() + le_bytes32(x),
            final(self).pos() == old(self).pos(),
    {
        self.write_u8(byte_of(x as u64, 0));
        self.write_u8(byte_of(x as u64, 8));
        self.write_u8(byte_of(x as u64, 16));
        self.write_u8(byte_of(x as u64, 24));
        proof {
            assert((((x as u64) >> 0) & 0xff) as u8 == ((x >> 0) & 0xff) as u8 && (((
            x as u64) >> 8) & 0xff) as u8 == ((x >> 8) & 0xff) as u8 && (((x as u64) >> 16)
                & 0xff) as u8 == ((x >> 16) & 0xff) as u8 && (((x as u64) >> 24) & 0xff) as u8 == (
            (x >> 24) & 0xff) as u8) by (bit_vector);
            assert(final(self).data() =~= old(self).data() + le_bytes32(x));
        }
    }

    /// Reads an unsigned 32-bit word from four little-endian bytes.
    pub fn read_u32_le(&mut self) -> (r: u32)
        requires
            old(self).pos() + 4 <= old(self).data().len(),
        ensures
            r == u32_from_le(old(self).data().subrange(old(self).pos(), old(self).pos() + 4)),
            final(self).data() == old(self).data(),
            final(self).pos() == old(self).pos() + 4,
    {
        let b0 = self.read_u8();
        let b1 = self.read_u8();
        let b2 = self.read_u8();
        let b3 = self.read_u8();
        let r = (b0 as u32) | ((b1 as u32) << 8) | ((b2 as u32) << 16) | ((b3 as u32) << 24);
        proof {
            let s = old(self).data().subrange(old(self).pos(), old(self).pos() + 4);
            assert(s[0] == b0 && s[1] == b1 && s[2] == b2 && s[3] == b3);
        }
        r
    }
}

impl Something {
    /// Appends this value's encoding to the buffer; a value whose payload
    /// exceeds its length prefix is refused and nothing is written.
    pub fn encode_into(&self, buffer: &mut ByteBuffer) -> (ok: bool)
        ensures
            ok == encodable(self@),
            ok ==> final(buffer).data() == old(buffer).data() + val_encoding(self@),
            !ok ==> final(buffer).data() == old(buffer).data(),
            final(buffer).pos() == old(buffer).pos(),
    {
        match self {
            Something::Int(x) => {
                buffer.write_u8(TAG_INT);
                buffer.write_i64(*x);
                proof {
                    assert(final(buffer).data() =~= old(buffer).data() + val_encoding(self@));
                }
                true
            },
            Something::Text(s) => {
                if s.len() >= 256 {
                    return false;
                }
                buffer.write_u8(TAG_TEXT);
                buffer.write_u8(s.len() as u8);
                buffer.write_bytes(s.as_slice());
                proof {
                    assert(final(buffer).data() =~= old(buffer).data() + val_encoding(self@));
                }
                true
            },
            Something::Null => {
                buffer.write_u8(TAG_NULL);
                proof {
                    assert(final(buffer).data() =~= old(buffer).data() + val_encoding(self@));
                }
                true
            },
            Something::Float(b) => {
                buffer.write_u8(TAG_FLOAT);
                buffer.write_u64_le(*b);
                proof {
                    assert(final(buffer).data() =~= old(buffer).data() + val_encoding(self@));
                }
                true
            },
            Something::Float2(b0, b1) => {
                buffer.write_u8(TAG_FLOAT2);
                buffer.write_u64_le(*b0);
                buffer.write_u64_le(*b1);
                proof {
                    assert(final(buffer).data() =~= old(buffer).data() + val_encoding(self@));
                }
                true
            },
            Something::Blob(s) => {
                if s.len() as u64 >= 0x1_0000_0000u64 {
                    return false;
                }
                buffer.write_u8(TAG_BLOB);
                buffer.write_u32_le(s.len() as u32);
                buffer.write_bytes(s.as_slice());
                proof {
                    assert(final(buffer).data() =~= old(buffer).data() + val_encoding(self@));
                }
                true
            },
        }
    }

    /// Reads one encoded value at the buffer's position and advances past
    /// it; where no well-formed encoding starts there, yields `None` and
    /// leaves the position in place.
    pub fn decode_from(buffer: &mut ByteBuffer) -> (r: Option<Something>)
        ensures
            final(buffer).data() == old(buffer).data(),
            match decode_val(old(buffer).data(), old(buffer).pos()) {
                Some((v, p2)) => r is Some && r->Some_0@ == v && final(buffer).pos() == p2,
                None => r is None && final(buffer).pos() == old(buffer).pos(),
            },
    {
        if buffer.position_past_end() {
            return None;
        }
        let avail = buffer.remaining();
        if avail == 0 {
            return None;
        }
        let tag = buffer.peek(0);
        if tag == TAG_INT {
            if avail < 9 {
                return None;
            }
            let _ = buffer.read_u8();
            let x = buffer.read_i64();
            proof {
                lemma_i64_u64_inverse(x, 0);
            }
            Some(Something::Int(x))
        } else if tag == TAG_TEXT {
            if avail < 2 {
                return None;
            }
            let l = buffer.peek(1) as usize;
            if avail < 2 + l {
                return None;
            }
            let _ = buffer.read_u8();
            let _ = buffer.read_u8();
            let bytes = buffer.read_bytes(l);
            Some(Something::Text(bytes))
        } else if tag == TAG_NULL {
            let _ = buffer.read_u8();
            Some(Something::Null)
        } else if tag == TAG_FLOAT {
            if avail < 9 {
                return None;
            }
            let _ = buffer.read_u8();
            let b = buffer.read_u64_le();
            Some(Something::Float(b))
        } else if tag == TAG_FLOAT2 {
            if avail < 17 {
                return None;
            }
            let _ = buffer.read_u8();
            let b0 = buffer.read_u64_le();
            let b1 = buffer.read_u64_le();
            Some(Something::Float2(b0, b1))
        } else if tag == TAG_BLOB {
            if avail < 5 {
                return None;
            }
            let l32 = (buffer.peek(1) as u32) | ((buffer.peek(2) as u32) << 8) | ((buffer.peek(
                3,
            ) as u32) << 16) | ((buffer.peek(4) as u32) << 24);
            proof {
                let s = old(buffer).data().subrange(
                    old(buffer).pos() + 1,
                    old(buffer).pos() + 5,
                );
                assert(s[0] == old(buffer).data()[old(buffer).pos() + 1]);
                assert(s[1] == old(buffer).data()[old(buffer).pos() + 2]);
                assert(s[2] == old(buffer).data()[old(buffer).pos() + 3]);
                assert(s[3] == old(buffer).data()[old(buffer).pos() + 4]);
            }
            let l = l32 as usize;
            if avail < 5 || avail - 5 < l {
                return None;
            }
            let _ = buffer.read_u8();
            let _ = buffer.read_u32_le();
            let bytes = buffer.read_bytes(l);
            Some(Something::Blob(bytes))
        } else {
            None
        }
    }
}

impl ByteBuffer {
    /// Whether the position has run past the end; never the case for a
    /// buffer driven only through reads and writes.
    pub fn position_past_end(&self) -> (r: bool)
        ensures
            r == (self.pos() > self.data().len()),
    {
        self.position > self.buffer.len()
    }
}

/// Values serialisable to and from the length-prefixed binary encoding.
///
/// The trait itself carries no contract: it is the unconstrained surface a
/// host calls through. The verified API is the contracted pair behind it —
/// `encode_into` and `decode_from` — whose postconditions pin the bytes
/// written (`val_encoding`) and the value read (`decode_val`); this impl
/// only forwards to them.
pub trait Serializable where Self: Sized {
    /// Appends the value's encoding to the buffer.
    fn serialize(&self, buffer: &mut ByteBuffer);

    /// Reads one value from the buffer's position.
    fn deserialize(buffer: &mut ByteBuffer) -> Option<Self>;
}

impl Serializable for Something {
    fn serialize(&self, buffer: &mut ByteBuffer) {
        let _ = self.encode_into(buffer);
    }

    fn deserialize(buffer: &mut ByteBuffer) -> Option<Something> {
        Something::decode_from(buffer)
    }
}

/// Round trip: decoding at the start of a value's encoding yields exactly
/// that value and stops exactly past it, whatever bytes precede or follow.
pub proof fn lemma_encode_decode(v: ValView, pre: Seq<u8>, suffix: Seq<u8>)
    requires
        encodable(v),
    ensures
        decode_val(pre + val_encoding(v) + suffix, pre.len() as int) == Some(
            (v, (pre.len() + val_encoding(v).len()) as int),
        ),
{
    let enc = val_encoding(v);
    let all = pre + enc + suffix;
    let p = pre.len() as int;
    assert(forall|i: int| 0 <= i < enc.len() ==> all[p + i] == #[trigger] enc[i]);
    match v {
        ValView::Int(x) => {
            assert(all.subrange(p + 1, p + 9) =~= le_bytes64(spec_u64_of_i64(x)));
            lemma_le64_round_trip(spec_u64_of_i64(x));
            lemma_i64_u64_inverse(x, 0);
        },
        ValView::Text(s) => {
            assert(all[p] == TAG_TEXT);
            assert(all[p + 1] == s.len() as u8);
            assert(all.subrange(p + 2, p + 2 + s.len()) =~= s);
        },
        ValView::Null => {
            assert(all[p] == TAG_NULL);
        },
        ValView::Float(b) => {
            assert(all.subrange(p + 1, p + 9) =~= le_bytes64(b));
            lemma_le64_round_trip(b);
        },
        ValView::Float2(b0, b1) => {
            assert(all.subrange(p + 1, p + 9) =~= le_bytes64(b0));
            assert(all.subrange(p + 9, p + 17) =~= le_bytes64(b1));
            lemma_le64_round_trip(b0);
            lemma_le64_round_trip(b1);
        },
        ValView::Blob(s) => {
            assert(all[p] == TAG_BLOB);
            assert(all.subrange(p + 1, p + 5) =~= le_bytes32(s.len() as u32));
            lemma_le32_round_trip(s.len() as u32);
            assert(all.subrange(p + 5, p + 5 + s.len()) =~= s);
        },
    }
}

} // verus!
