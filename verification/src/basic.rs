//! Byte-order aware readers for the DICOM numeric primitive types.
//!
//! A decoder reads a fixed-width integer from the front of a byte slice,
//! under a byte order chosen at run time through a two-variant enum rather
//! than dynamic dispatch.

use vstd::prelude::*;

verus! {

/// Failure of a primitive read.
#[derive(Debug, Clone, Copy, PartialEq, Eq)]
pub enum Error {
    /// The source holds fewer bytes than the value needs.
    UnexpectedEndOfInput,
}

/// A byte order for multi-byte numeric values.
#[derive(Debug, Clone, Copy, PartialEq, Eq, Structural)]
pub enum Endianness {
    Little,
    Big,
}

/// The value of the first two bytes of `s` read as a little-endian integer.
pub open spec fn le_u16(s: Seq<u8>) -> int {
    s[0] + s[1] * 0x100
}

/// The value of the first two bytes of `s` read as a big-endian integer.
pub open spec fn be_u16(s: Seq<u8>) -> int {
    s[1] + s[0] * 0x100
}

/// The value of the first four bytes of `s` read as a little-endian integer.
pub open spec fn le_u32(s: Seq<u8>) -> int {
    s[0] + s[1] * 0x100 + s[2] * 0x10000 + s[3] * 0x1000000
}

/// The value of the first four bytes of `s` read as a big-endian integer.
pub open spec fn be_u32(s: Seq<u8>) -> int {
    s[3] + s[2] * 0x100 + s[1] * 0x10000 + s[0] * 0x1000000
}

/// The value of the first eight bytes of `s` read as a little-endian integer.
pub open spec fn le_u64(s: Seq<u8>) -> int {
    s[0] + s[1] * 0x100 + s[2] * 0x10000 + s[3] * 0x1000000 + s[4] * 0x100000000
        + s[5] * 0x10000000000 + s[6] * 0x1000000000000 + s[7] * 0x100000000000000
}

/// The value of the first eight bytes of `s` read as a big-endian integer.
pub open spec fn be_u64(s: Seq<u8>) -> int {
    s[7] + s[6] * 0x100 + s[5] * 0x10000 + s[4] * 0x1000000 + s[3] * 0x100000000
        + s[2] * 0x10000000000 + s[1] * 0x1000000000000 + s[0] * 0x100000000000000
}

/// A decoder of DICOM primitive values in little-endian byte order.
#[derive(Debug, Default, Clone, Copy, PartialEq, Eq, Structural)]
pub struct LittleEndianBasicDecoder;

impl LittleEndianBasicDecoder {
    /// The byte order of this decoder.
    pub fn endianness(&self) -> (r: Endianness)
        ensures
            r == Endianness::Little,
    {
        Endianness::Little
    }

    /// Decode an unsigned 16-bit value (DICOM US) from the front of `source`.
    pub fn decode_us(&self, source: &[u8]) -> (r: Result<u16, Error>)
        ensures
            match r {
                Ok(v) => source@.len() >= 2 && v == le_u16(source@),
                Err(e) => source@.len() < 2 && e == Error::UnexpectedEndOfInput,
            },
    {
        if source.len() < 2 {
            return Err(Error::UnexpectedEndOfInput);
        }
        Ok(source[0] as u16 + source[1] as u16 * 0x100)
    }

    /// Decode an unsigned 32-bit value (DICOM UL) from the front of `source`.
    pub fn decode_ul(&self, source: &[u8]) -> (r: Result<u32, Error>)
        ensures
            match r {
                Ok(v) => source@.len() >= 4 && v == le_u32(source@),
                Err(e) => source@.len() < 4 && e == Error::UnexpectedEndOfInput,
            },
    {
        if source.len() < 4 {
            return Err(Error::UnexpectedEndOfInput);
        }
        Ok(source[0] as u32 + source[1] as u32 * 0x100 + source[2] as u32 * 0x10000
            + source[3] as u32 * 0x1000000)
    }

    /// Decode an unsigned 64-bit value from the front of `source`.
    pub fn decode_u64(&self, source: &[u8]) -> (r: Result<u64, Error>)
        ensures
            match r {
                Ok(v) => source@.len() >= 8 && v == le_u64(source@),
                Err(e) => source@.len() < 8 && e == Error::UnexpectedEndOfInput,
            },
    {
        if source.len() < 8 {
            return Err(Error::UnexpectedEndOfInput);
        }
        Ok(source[0] as u64 + source[1] as u64 * 0x100 + source[2] as u64 * 0x10000
            + source[3] as u64 * 0x1000000 + source[4] as u64 * 0x100000000
            + source[5] as u64 * 0x10000000000 + source[6] as u64 * 0x1000000000000
            + source[7] as u64 * 0x100000000000000)
    }

    /// Decode a signed 16-bit value (DICOM SS) from the front of `source`,
    /// in two's complement.
    pub fn decode_ss(&self, source: &[u8]) -> (r: Result<i16, Error>)
        ensures
            match r {
                Ok(v) => source@.len() >= 2 && v == (le_u16(source@) as u16) as i16,
                Err(e) => source@.len() < 2 && e == Error::UnexpectedEndOfInput,
            },
    {
        match self.decode_us(source) {
            Ok(v) => Ok(#[verifier::truncate] (v as i16)),
            Err(e) => Err(e),
        }
    }

    /// Decode a signed 32-bit value (DICOM SL) from the front of `source`,
    /// in two's complement.
    pub fn decode_sl(&self, source: &[u8]) -> (r: Result<i32, Error>)
        ensures
            match r {
                Ok(v) => source@.len() >= 4 && v == (le_u32(source@) as u32) as i32,
                Err(e) => source@.len() < 4 && e == Error::UnexpectedEndOfInput,
            },
    {
        match self.decode_ul(source) {
            Ok(v) => Ok(#[verifier::truncate] (v as i32)),
            Err(e) => Err(e),
        }
    }
}

/// A decoder of DICOM primitive values in big-endian byte order.
#[derive(Debug, Default, Clone, Copy, PartialEq, Eq, Structural)]
pub struct BigEndianBasicDecoder;

impl BigEndianBasicDecoder {
    /// The byte order of this decoder.
    pub fn endianness(&self) -> (r: Endianness)
        ensures
            r == Endianness::Big,
    {
        Endianness::Big
    }

    /// Decode an unsigned 16-bit value (DICOM US) from the front of `source`.
    pub fn decode_us(&self, source: &[u8]) -> (r: Result<u16, Error>)
        ensures
            match r {
                Ok(v) => source@.len() >= 2 && v == be_u16(source@),
                Err(e) => source@.len() < 2 && e == Error::UnexpectedEndOfInput,
            },
    {
        if source.len() < 2 {
            return Err(Error::UnexpectedEndOfInput);
        }
        Ok(source[1] as u16 + source[0] as u16 * 0x100)
    }

    /// Decode an unsigned 32-bit value (DICOM UL) from the front of `source`.
    pub fn decode_ul(&self, source: &[u8]) -> (r: Result<u32, Error>)
        ensures
            match r {
                Ok(v) => source@.len() >= 4 && v == be_u32(source@),
                Err(e) => source@.len() < 4 && e == Error::UnexpectedEndOfInput,
            },
    {
        if source.len() < 4 {
            return Err(Error::UnexpectedEndOfInput);
        }
        Ok(source[3] as u32 + source[2] as u32 * 0x100 + source[1] as u32 * 0x10000
            + source[0] as u32 * 0x1000000)
    }

    /// Decode an unsigned 64-bit value from the front of `source`.
    pub fn decode_u64(&self, source: &[u8]) -> (r: Result<u64, Error>)
        ensures
            match r {
                Ok(v) => source@.len() >= 8 && v == be_u64(source@),
                Err(e) => source@.len() < 8 && e == Error::UnexpectedEndOfInput,
            },
    {
        if source.len() < 8 {
            return Err(Error::UnexpectedEndOfInput);
        }
        Ok(source[7] as u64 + source[6] as u64 * 0x100 + source[5] as u64 * 0x10000
            + source[4] as u64 * 0x1000000 + source[3] as u64 * 0x100000000
            + source[2] as u64 * 0x10000000000 + source[1] as u64 * 0x1000000000000
            + source[0] as u64 * 0x100000000000000)
    }

    /// Decode a signed 16-bit value (DICOM SS) from the front of `source`,
    /// in two's complement.
    pub fn decode_ss(&self, source: &[u8]) -> (r: Result<i16, Error>)
        ensures
            match r {
                Ok(v) => source@.len() >= 2 && v == (be_u16(source@) as u16) as i16,
                Err(e) => source@.len() < 2 && e == Error::UnexpectedEndOfInput,
            },
    {
        match self.decode_us(source) {
            Ok(v) => Ok(#[verifier::truncate] (v as i16)),
            Err(e) => Err(e),
        }
    }

    /// Decode a signed 32-bit value (DICOM SL) from the front of `source`,
    /// in two's complement.
    pub fn decode_sl(&self, source: &[u8]) -> (r: Result<i32, Error>)
        ensures
            match r {
                Ok(v) => source@.len() >= 4 && v == (be_u32(source@) as u32) as i32,
                Err(e) => source@.len() < 4 && e == Error::UnexpectedEndOfInput,
            },
    {
        match self.decode_ul(source) {
            Ok(v) => Ok(#[verifier::truncate] (v as i32)),
            Err(e) => Err(e),
        }
    }
}

/// A decoder whose byte order is selected at run time.
#[derive(Debug, Clone, Copy, PartialEq, Eq, Structural)]
pub enum BasicDecoder {
    /// Decode in little-endian byte order.
    LE(LittleEndianBasicDecoder),
    /// Decode in big-endian byte order.
    BE(BigEndianBasicDecoder),
}

impl BasicDecoder {
    /// The unsigned 16-bit value at the front of `s` under this byte order.
    pub open spec fn u16_val(self, s: Seq<u8>) -> int {
        match self {
            BasicDecoder::LE(_) => le_u16(s),
            BasicDecoder::BE(_) => be_u16(s),
        }
    }

    /// The unsigned 32-bit value at the front of `s` under this byte order.
    pub open spec fn u32_val(self, s: Seq<u8>) -> int {
        match self {
            BasicDecoder::LE(_) => le_u32(s),
            BasicDecoder::BE(_) => be_u32(s),
        }
    }

    /// The unsigned 64-bit value at the front of `s` under this byte order.
    pub open spec fn u64_val(self, s: Seq<u8>) -> int {
        match self {
            BasicDecoder::LE(_) => le_u64(s),
            BasicDecoder::BE(_) => be_u64(s),
        }
    }

    /// Build a decoder for the given byte order.
    pub fn new(endianness: Endianness) -> (r: Self)
        ensures
            r == BasicDecoder::from_endianness(endianness),
    {
        match endianness {
            Endianness::Little => BasicDecoder::LE(LittleEndianBasicDecoder),
            Endianness::Big => BasicDecoder::BE(BigEndianBasicDecoder),
        }
    }

    /// The decoder that `new` returns for each byte order.
    pub open spec fn from_endianness(endianness: Endianness) -> BasicDecoder {
        match endianness {
            Endianness::Little => BasicDecoder::LE(LittleEndianBasicDecoder),
            Endianness::Big => BasicDecoder::BE(BigEndianBasicDecoder),
        }
    }

    /// The byte order of this decoder.
    pub fn endianness(&self) -> (r: Endianness)
        ensures
            *self == BasicDecoder::from_endianness(r),
    {
        match *self {
            BasicDecoder::LE(_) => Endianness::Little,
            BasicDecoder::BE(_) => Endianness::Big,
        }
    }

    /// Decode an unsigned 16-bit value (DICOM US) from the front of `source`.
    pub fn decode_us(&self, source: &[u8]) -> (r: Result<u16, Error>)
        ensures
            match r {
                Ok(v) => source@.len() >= 2 && v == self.u16_val(source@),
                Err(e) => source@.len() < 2 && e == Error::UnexpectedEndOfInput,
            },
    {
        match *self {
            BasicDecoder::LE(d) => d.decode_us(source),
            BasicDecoder::BE(d) => d.decode_us(source),
        }
    }

    /// Decode an unsigned 32-bit value (DICOM UL) from the front of `source`.
    pub fn decode_ul(&self, source: &[u8]) -> (r: Result<u32, Error>)
        ensures
            match r {
                Ok(v) => source@.len() >= 4 && v == self.u32_val(source@),
                Err(e) => source@.len() < 4 && e == Error::UnexpectedEndOfInput,
            },
    {
        match *self {
            BasicDecoder::LE(d) => d.decode_ul(source),
            BasicDecoder::BE(d) => d.decode_ul(source),
        }
    }

    /// Decode an unsigned 64-bit value from the front of `source`.
    pub fn decode_u64(&self, source: &[u8]) -> (r: Result<u64, Error>)
        ensures
            match r {
                Ok(v) => source@.len() >= 8 && v == self.u64_val(source@),
                Err(e) => source@.len() < 8 && e == Error::UnexpectedEndOfInput,
            },
    {
        match *self {
            BasicDecoder::LE(d) => d.decode_u64(source),
            BasicDecoder::BE(d) => d.decode_u64(source),
        }
    }

    /// Decode a signed 16-bit value (DICOM SS) from the front of `source`,
    /// in two's complement.
    pub fn decode_ss(&self, source: &[u8]) -> (r: Result<i16, Error>)
        ensures
            match r {
                Ok(v) => source@.len() >= 2 && v == (self.u16_val(source@) as u16) as i16,
                Err(e) => source@.len() < 2 && e == Error::UnexpectedEndOfInput,
            },
    {
        match *self {
            BasicDecoder::LE(d) => d.decode_ss(source),
            BasicDecoder::BE(d) => d.decode_ss(source),
        }
    }

    /// Decode a signed 32-bit value (DICOM SL) from the front of `source`,
    /// in two's complement.
    pub fn decode_sl(&self, source: &[u8]) -> (r: Result<i32, Error>)
        ensures
            match r {
                Ok(v) => source@.len() >= 4 && v == (self.u32_val(source@) as u32) as i32,
                Err(e) => source@.len() < 4 && e == Error::UnexpectedEndOfInput,
            },
    {
        match *self {
            BasicDecoder::LE(d) => d.decode_sl(source),
            BasicDecoder::BE(d) => d.decode_sl(source),
        }
    }
}

impl From<Endianness> for BasicDecoder {
    /// Build a decoder for the given byte order.
    fn from(endianness: Endianness) -> (r: Self) {
        BasicDecoder::new(endianness)
    }
}

impl vstd::std_specs::convert::FromSpecImpl<Endianness> for BasicDecoder {
    open spec fn obeys_from_spec() -> bool {
        true
    }

    open spec fn from_spec(endianness: Endianness) -> BasicDecoder {
        BasicDecoder::from_endianness(endianness)
    }
}

} // verus!
