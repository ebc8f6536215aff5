//! Variable-length encoding of unsigned 64-bit integers in one to nine bytes.
//!
//! Byte 0 carries data bits 0 to 6 and, in its high bit, a flag that says
//! whether more bytes follow. Byte 1 carries data bits 7 to 11 and, in its
//! three high bits, the number of bytes that follow it. Bytes 2 to 7 carry
//! eight data bits each, starting at bit 12. Byte 8 carries data bits 60 to 63
//! in its low half; its high half is reserved.

use vstd::prelude::*;

verus! {

/// Why a value could not be decoded.
#[derive(Clone, Copy, Debug, PartialEq, Eq, Structural)]
pub enum VarintError {
    /// The encoding runs past the end of the bytes that may be read.
    OutOfBounds,
}

/// Number of bytes that the encoding of `value` takes.
pub open spec fn encoded_len(value: u64) -> int {
    if value < 0x80 {
        1
    } else if value < 0x1000 {
        2
    } else if value < 0x10_0000 {
        3
    } else if value < 0x1000_0000 {
        4
    } else if value < 0x10_0000_0000 {
        5
    } else if value < 0x1000_0000_0000 {
        6
    } else if value < 0x10_0000_0000_0000 {
        7
    } else if value < 0x1000_0000_0000_0000 {
        8
    } else {
        9
    }
}

/// The three high bits of byte 1: the number of bytes that follow it, at
/// their place in the byte.
pub open spec fn length_tag(value: u64) -> u64 {
    if value < 0x1000 {
        0x00
    } else if value < 0x10_0000 {
        0x20
    } else if value < 0x1000_0000 {
        0x40
    } else if value < 0x10_0000_0000 {
        0x60
    } else if value < 0x1000_0000_0000 {
        0x80
    } else if value < 0x10_0000_0000_0000 {
        0xa0
    } else if value < 0x1000_0000_0000_0000 {
        0xc0
    } else {
        0xe0
    }
}

/// The byte at position `i` of the encoding of `value`.
pub open spec fn encoded_byte(value: u64, i: int) -> u8 {
    if i == 0 {
        if value < 0x80 {
            value as u8
        } else {
            (0x80 | (value & 0x7f)) as u8
        }
    } else if i == 1 {
        (length_tag(value) | ((value >> 7) & 0x1f)) as u8
    } else if i == 2 {
        ((value >> 12) & 0xff) as u8
    } else if i == 3 {
        ((value >> 20) & 0xff) as u8
    } else if i == 4 {
        ((value >> 28) & 0xff) as u8
    } else if i == 5 {
        ((value >> 36) & 0xff) as u8
    } else if i == 6 {
        ((value >> 44) & 0xff) as u8
    } else if i == 7 {
        ((value >> 52) & 0xff) as u8
    } else {
        ((value >> 60) & 0x0f) as u8
    }
}

/// The encoding of `value`.
pub open spec fn encode(value: u64) -> Seq<u8> {
    Seq::new(encoded_len(value) as nat, |i: int| encoded_byte(value, i))
}

/// Number of bytes that follow byte 1, as its three high bits announce it.
pub open spec fn extra_len(b1: u8) -> int {
    (b1 >> 5) as int
}

/// The data bits that byte `j` (2 to 8) of `bytes` contributes, already at
/// their place in the value; zero where the encoding ends before byte `j`.
pub open spec fn payload_at(bytes: Seq<u8>, j: int) -> u64 {
    if j >= 2 + extra_len(bytes[1]) {
        0
    } else if j == 2 {
        (bytes[2] as u64) << 12
    } else if j == 3 {
        (bytes[3] as u64) << 20
    } else if j == 4 {
        (bytes[4] as u64) << 28
    } else if j == 5 {
        (bytes[5] as u64) << 36
    } else if j == 6 {
        (bytes[6] as u64) << 44
    } else if j == 7 {
        (bytes[7] as u64) << 52
    } else {
        ((bytes[8] & 0x0f) as u64) << 60
    }
}

/// The value that a multi-byte encoding at the start of `bytes` stands for.
pub open spec fn long_value(bytes: Seq<u8>) -> u64 {
    ((bytes[0] & 0x7f) as u64) | (((bytes[1] & 0x1f) as u64) << 7) | payload_at(bytes, 2)
        | payload_at(bytes, 3) | payload_at(bytes, 4) | payload_at(bytes, 5) | payload_at(bytes, 6)
        | payload_at(bytes, 7) | payload_at(bytes, 8)
}

/// Decodes the value at the start of `bytes`: the number of bytes it takes
/// and the value, or `None` where the encoding runs past the end of `bytes`.
pub open spec fn decode(bytes: Seq<u8>) -> Option<(int, u64)> {
    if bytes.len() == 0 {
        None
    } else if bytes[0] & 0x80 == 0 {
        Some((1, bytes[0] as u64))
    } else if bytes.len() < 2 {
        None
    } else if bytes.len() < 2 + extra_len(bytes[1]) {
        None
    } else {
        Some((2 + extra_len(bytes[1]), long_value(bytes)))
    }
}

/// The bytes of `bytes` that a reader allowed `length` bytes may look at.
pub open spec fn readable(bytes: Seq<u8>, length: int) -> Seq<u8> {
    if length < bytes.len() {
        bytes.take(length)
    } else {
        bytes
    }
}

proof fn lemma_or_zero()
    ensures
        forall|x: u64| #[trigger] (x | 0) == x,
        forall|b: u8| #[trigger] (b >> 5) <= 7,
{
    assert(forall|x: u64| #[trigger] (x | 0) == x) by (bit_vector);
    assert(forall|b: u8| #[trigger] (b >> 5) <= 7) by (bit_vector);
}

proof fn lemma_split_value(v: u64)
    by (bit_vector)
    ensures
        v == (v & 0x7f) | (((v >> 7) & 0x1f) << 7) | (((v >> 12) & 0xff) << 12) | (((v >> 20)
            & 0xff) << 20) | (((v >> 28) & 0xff) << 28) | (((v >> 36) & 0xff) << 36) | (((v >> 44)
            & 0xff) << 44) | (((v >> 52) & 0xff) << 52) | (((v >> 60) & 0x0f) << 60),
        v < 0x1000 ==> ((v >> 12) & 0xff) << 12 == 0,
        v < 0x10_0000 ==> ((v >> 20) & 0xff) << 20 == 0,
        v < 0x1000_0000 ==> ((v >> 28) & 0xff) << 28 == 0,
        v < 0x10_0000_0000 ==> ((v >> 36) & 0xff) << 36 == 0,
        v < 0x1000_0000_0000 ==> ((v >> 44) & 0xff) << 44 == 0,
        v < 0x10_0000_0000_0000 ==> ((v >> 52) & 0xff) << 52 == 0,
        v < 0x1000_0000_0000_0000 ==> ((v >> 60) & 0x0f) << 60 == 0,
{
}

proof fn lemma_byte_fields(v: u64, tag: u64)
    by (bit_vector)
    requires
        tag == 0x00 || tag == 0x20 || tag == 0x40 || tag == 0x60 || tag == 0x80 || tag == 0xa0
            || tag == 0xc0 || tag == 0xe0,
    ensures
        v < 0x80 ==> (v as u8) & 0x80 == 0 && (v as u8) as u64 == v,
        ((0x80 | (v & 0x7f)) as u8) & 0x80 != 0,
        ((((0x80 | (v & 0x7f)) as u8) & 0x7f) as u64) == v & 0x7f,
        ((((tag | ((v >> 7) & 0x1f)) as u8) & 0x1f) as u64) == (v >> 7) & 0x1f,
        ((tag | ((v >> 7) & 0x1f)) as u8) >> 5 == tag >> 5,
        0x00u64 >> 5 == 0 && 0x20u64 >> 5 == 1 && 0x40u64 >> 5 == 2 && 0x60u64 >> 5 == 3,
        0x80u64 >> 5 == 4 && 0xa0u64 >> 5 == 5 && 0xc0u64 >> 5 == 6 && 0xe0u64 >> 5 == 7,
        (((v >> 12) & 0xff) as u8) as u64 == (v >> 12) & 0xff,
        (((v >> 20) & 0xff) as u8) as u64 == (v >> 20) & 0xff,
        (((v >> 28) & 0xff) as u8) as u64 == (v >> 28) & 0xff,
        (((v >> 36) & 0xff) as u8) as u64 == (v >> 36) & 0xff,
        (((v >> 44) & 0xff) as u8) as u64 == (v >> 44) & 0xff,
        (((v >> 52) & 0xff) as u8) as u64 == (v >> 52) & 0xff,
        (((((v >> 60) & 0x0f) as u8) & 0x0f) as u64) == (v >> 60) & 0x0f,
{
}

/// Decoding inverts encoding: bytes that start with the encoding of `value`
/// decode to `value`, and the decoder reads exactly the bytes that the encoder
/// wrote.
pub proof fn lemma_decode_encode(value: u64, bytes: Seq<u8>)
    requires
        bytes.len() >= encoded_len(value),
        bytes.take(encoded_len(value)) == encode(value),
    ensures
        decode(bytes) == Some((encoded_len(value), value)),
{
    let n = encoded_len(value);
    assert forall|i: int| 0 <= i < n implies bytes[i] == encoded_byte(value, i) by {
        assert(bytes.take(n)[i] == bytes[i]);
        assert(encode(value)[i] == encoded_byte(value, i));
    }
    lemma_split_value(value);
    lemma_byte_fields(value, length_tag(value));
    lemma_or_zero();
}

/// A decoded value takes between one and nine bytes, all of which are there.
pub proof fn lemma_decode_len(bytes: Seq<u8>)
    ensures
        match decode(bytes) {
            Some((n, v)) => 1 <= n <= 9 && n <= bytes.len(),
            None => true,
        },
{
    lemma_or_zero();
}

/// The encoding of `value` alone decodes to `value`.
pub proof fn lemma_roundtrip(value: u64)
    ensures
        encode(value).len() == encoded_len(value),
        1 <= encoded_len(value) <= 9,
        decode(encode(value)) == Some((encoded_len(value), value)),
{
    assert(encode(value).take(encoded_len(value)) =~= encode(value));
    lemma_decode_encode(value, encode(value));
}

/// Codec for unsigned 64-bit integers in one to nine bytes.
pub struct VarUint64;

impl VarUint64 {
    /// Decodes the value at the start of `ptr`, looking at no more than
    /// `length` bytes, and returns the number of bytes read with the value.
    pub fn read_offset(ptr: &[u8], length: usize) -> (res: Result<(usize, u64), VarintError>)
        ensures
            match decode(readable(ptr@, length as int)) {
                Some((n, v)) => res == Ok::<(usize, u64), VarintError>((n as usize, v)),
                None => res == Err::<(usize, u64), VarintError>(VarintError::OutOfBounds),
            },
    {
        let avail: usize = if length < ptr.len() { length } else { ptr.len() };
        let ghost bytes = readable(ptr@, length as int);
        if avail == 0 {
            return Err(VarintError::OutOfBounds);
        }
        assert(bytes[0] == ptr@[0]);
        let first: u8 = ptr[0];
        if first & 0x80 == 0 {
            return Ok((1, first as u64));
        }
        let mut result: u64 = (first & 0x7f) as u64;
        if avail < 2 {
            return Err(VarintError::OutOfBounds);
        }
        assert(bytes[1] == ptr@[1]);
        let byte1: u8 = ptr[1];
        let len: u8 = byte1 >> 5;
        proof {
            lemma_or_zero();
        }
        result |= ((byte1 & 0x1f) as u64) << 7;
        if avail < 2 + len as usize {
            return Err(VarintError::OutOfBounds);
        }
        assert(forall|j: int| 0 <= j < 2 + len ==> bytes[j] == ptr@[j]);
        if len >= 1 {
            result |= (ptr[2] as u64) << 12;
        }
        if len >= 2 {
            result |= (ptr[3] as u64) << 20;
        }
        if len >= 3 {
            result |= (ptr[4] as u64) << 28;
        }
        if len >= 4 {
            result |= (ptr[5] as u64) << 36;
        }
        if len >= 5 {
            result |= (ptr[6] as u64) << 44;
        }
        if len >= 6 {
            result |= (ptr[7] as u64) << 52;
        }
        if len >= 7 {
            result |= ((ptr[8] & 0x0f) as u64) << 60;
        }
        Ok((2 + len as usize, result))
    }

    /// Decodes the value at the start of `ptr`, looking at no more than
    /// `length` bytes.
    pub fn read(ptr: &[u8], length: usize) -> (res: Result<u64, VarintError>)
        ensures
            match decode(readable(ptr@, length as int)) {
                Some((n, v)) => res == Ok::<u64, VarintError>(v),
                None => res == Err::<u64, VarintError>(VarintError::OutOfBounds),
            },
    {
        match Self::read_offset(ptr, length) {
            Ok((_len, value)) => Ok(value),
            Err(e) => Err(e),
        }
    }

    /// Decodes the value at the start of `ptr`, looking at no more than
    /// `length` bytes, and moves `offset` forward by the bytes read. On an
    /// error `offset` stays where it was.
    pub fn read_and_seek(ptr: &[u8], offset: &mut usize, length: usize) -> (res: Result<
        u64,
        VarintError,
    >)
        requires
            *old(offset) + 9 <= usize::MAX,
        ensures
            match decode(readable(ptr@, length as int)) {
                Some((n, v)) => res == Ok::<u64, VarintError>(v) && *final(offset) == *old(offset)
                    + n,
                None => res == Err::<u64, VarintError>(VarintError::OutOfBounds) && *final(offset)
                    == *old(offset),
            },
    {
        proof {
            lemma_or_zero();
        }
        match Self::read_offset(ptr, length) {
            Ok((len, value)) => {
                *offset += len;
                Ok(value)
            },
            Err(e) => Err(e),
        }
    }

    /// Writes the encoding of `value` to the start of `array` and returns the
    /// number of bytes written. The bytes behind the encoding stay as they
    /// were.
    pub fn as_slice(value: u64, array: &mut [u8]) -> (n: usize)
        requires
            old(array)@.len() >= encoded_len(value),
        ensures
            n == encoded_len(value),
            final(array)@.len() == old(array)@.len(),
            final(array)@.take(n as int) == encode(value),
            forall|j: int| n <= j < old(array)@.len() ==> final(array)@[j] == old(array)@[j],
    {
        if value < 0x80 {
            array[0] = value as u8;
            assert(array@.take(1) =~= encode(value));
            return 1;
        }
        let (n, tag): (usize, u64) = if value < 0x1000 {
            (2, 0x00)
        } else if value < 0x10_0000 {
            (3, 0x20)
        } else if value < 0x1000_0000 {
            (4, 0x40)
        } else if value < 0x10_0000_0000 {
            (5, 0x60)
        } else if value < 0x1000_0000_0000 {
            (6, 0x80)
        } else if value < 0x10_0000_0000_0000 {
            (7, 0xa0)
        } else if value < 0x1000_0000_0000_0000 {
            (8, 0xc0)
        } else {
            (9, 0xe0)
        };
        array[0] = (0x80 | (value & 0x7f)) as u8;
        array[1] = (tag | ((value >> 7) & 0x1f)) as u8;
        if n > 2 {
            array[2] = ((value >> 12) & 0xff) as u8;
        }
        if n > 3 {
            array[3] = ((value >> 20) & 0xff) as u8;
        }
        if n > 4 {
            array[4] = ((value >> 28) & 0xff) as u8;
        }
        if n > 5 {
            array[5] = ((value >> 36) & 0xff) as u8;
        }
        if n > 6 {
            array[6] = ((value >> 44) & 0xff) as u8;
        }
        if n > 7 {
            array[7] = ((value >> 52) & 0xff) as u8;
        }
        if n > 8 {
            array[8] = ((value >> 60) & 0x0f) as u8;
        }
        assert(array@.take(n as int) =~= encode(value));
        n
    }
}

} // verus!
