//! The float codec, on raw bit patterns.
//!
//! Floating-point values travel as their bit patterns, little-endian, but a
//! NaN is rejected in both directions: signalling and quiet NaN encodings
//! differ across architectures, so admitting them would break cross-platform
//! determinism. The logic here works on the bit patterns as plain integers;
//! turning a float into its bits and back is the caller's one-line duty.

use vstd::prelude::*;
use crate::error::Error;
use crate::io::Read;
use crate::io::Write;
use crate::de::BorshDeserialize;

verus! {

use vstd::bytes::*;

/// True of every bit pattern that a 32-bit IEEE 754 NaN has: exponent all
/// ones, significand non-zero.
pub open spec fn spec_f32_is_nan(bits: u32) -> bool {
    (bits >> 23) & 0xff == 0xff && bits & 0x7fffff != 0
}

/// True of every bit pattern that a 64-bit IEEE 754 NaN has: exponent all
/// ones, significand non-zero.
pub open spec fn spec_f64_is_nan(bits: u64) -> bool {
    (bits >> 52) & 0x7ff == 0x7ff && bits & 0xfffffffffffff != 0
}

/// Runtime witness of [`spec_f32_is_nan`].
pub fn f32_bits_is_nan(bits: u32) -> (b: bool)
    ensures
        b == spec_f32_is_nan(bits),
{
    (bits >> 23) & 0xff == 0xff && bits & 0x7fffff != 0
}

/// Runtime witness of [`spec_f64_is_nan`].
pub fn f64_bits_is_nan(bits: u64) -> (b: bool)
    ensures
        b == spec_f64_is_nan(bits),
{
    (bits >> 52) & 0x7ff == 0x7ff && bits & 0xfffffffffffff != 0
}

/// Writes a 32-bit float's bit pattern little-endian, rejecting every NaN
/// encoding.
pub fn serialize_f32_bits<W: Write>(bits: u32, writer: &mut W) -> (r: Result<(), Error>)
    ensures
        final(writer).sink_ok() == old(writer).sink_ok(),
        match r {
            Ok(()) => !spec_f32_is_nan(bits) && final(writer).written() == old(writer).written()
                + spec_u32_to_le_bytes(bits),
            Err(e) => (spec_f32_is_nan(bits) && e == Error::NanNotPortable) || (e == Error::Io
                && !old(writer).sink_ok()),
        },
{
    if f32_bits_is_nan(bits) {
        return Err(Error::NanNotPortable);
    }
    let b = u32_to_le_bytes(bits);
    writer.write_all(b.as_slice())
}

/// Writes a 64-bit float's bit pattern little-endian, rejecting every NaN
/// encoding.
pub fn serialize_f64_bits<W: Write>(bits: u64, writer: &mut W) -> (r: Result<(), Error>)
    ensures
        final(writer).sink_ok() == old(writer).sink_ok(),
        match r {
            Ok(()) => !spec_f64_is_nan(bits) && final(writer).written() == old(writer).written()
                + spec_u64_to_le_bytes(bits),
            Err(e) => (spec_f64_is_nan(bits) && e == Error::NanNotPortable) || (e == Error::Io
                && !old(writer).sink_ok()),
        },
{
    if f64_bits_is_nan(bits) {
        return Err(Error::NanNotPortable);
    }
    let b = u64_to_le_bytes(bits);
    writer.write_all(b.as_slice())
}

/// Reads a 32-bit float's bit pattern, rejecting every NaN encoding.
pub fn deserialize_f32_bits<R: Read>(reader: &mut R) -> (r: Result<u32, Error>)
    ensures
        final(reader).source_ok() == old(reader).source_ok(),
        match r {
            Ok(bits) => {
                &&& old(reader).readable().len() >= 4
                &&& bits == spec_u32_from_le_bytes(old(reader).readable().take(4))
                &&& !spec_f32_is_nan(bits)
                &&& final(reader).readable() == old(reader).readable().skip(4)
            },
            Err(e) => {
                ||| (old(reader).readable().len() < 4 && e == Error::UnexpectedLengthOfInput)
                ||| (old(reader).readable().len() >= 4 && spec_f32_is_nan(
                    spec_u32_from_le_bytes(old(reader).readable().take(4)),
                ) && e == Error::NanNotPortable)
                ||| (e == Error::Io && !old(reader).source_ok())
            },
        },
{
    let bits = u32::deserialize_reader(reader)?;
    if f32_bits_is_nan(bits) {
        return Err(Error::NanNotPortable);
    }
    Ok(bits)
}

/// Reads a 64-bit float's bit pattern, rejecting every NaN encoding.
pub fn deserialize_f64_bits<R: Read>(reader: &mut R) -> (r: Result<u64, Error>)
    ensures
        final(reader).source_ok() == old(reader).source_ok(),
        match r {
            Ok(bits) => {
                &&& old(reader).readable().len() >= 8
                &&& bits == spec_u64_from_le_bytes(old(reader).readable().take(8))
                &&& !spec_f64_is_nan(bits)
                &&& final(reader).readable() == old(reader).readable().skip(8)
            },
            Err(e) => {
                ||| (old(reader).readable().len() < 8 && e == Error::UnexpectedLengthOfInput)
                ||| (old(reader).readable().len() >= 8 && spec_f64_is_nan(
                    spec_u64_from_le_bytes(old(reader).readable().take(8)),
                ) && e == Error::NanNotPortable)
                ||| (e == Error::Io && !old(reader).source_ok())
            },
        },
{
    let bits = u64::deserialize_reader(reader)?;
    if f64_bits_is_nan(bits) {
        return Err(Error::NanNotPortable);
    }
    Ok(bits)
}

/// Decoding inverts encoding for 32-bit float patterns: the four bytes that
/// `serialize_f32_bits` writes read back as the same bit pattern, whatever
/// follows them.
pub proof fn lemma_f32_bits_round_trip(bits: u32, rest: Seq<u8>)
    ensures
        (spec_u32_to_le_bytes(bits) + rest).take(4) == spec_u32_to_le_bytes(bits),
        spec_u32_from_le_bytes((spec_u32_to_le_bytes(bits) + rest).take(4)) == bits,
{
    lemma_auto_spec_u32_to_from_le_bytes();
    assert((spec_u32_to_le_bytes(bits) + rest).take(4) =~= spec_u32_to_le_bytes(bits));
}

/// Decoding inverts encoding for 64-bit float patterns.
pub proof fn lemma_f64_bits_round_trip(bits: u64, rest: Seq<u8>)
    ensures
        (spec_u64_to_le_bytes(bits) + rest).take(8) == spec_u64_to_le_bytes(bits),
        spec_u64_from_le_bytes((spec_u64_to_le_bytes(bits) + rest).take(8)) == bits,
{
    lemma_auto_spec_u64_to_from_le_bytes();
    assert((spec_u64_to_le_bytes(bits) + rest).take(8) =~= spec_u64_to_le_bytes(bits));
}

} // verus!
