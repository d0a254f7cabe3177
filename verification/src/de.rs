//! Decoding: pulling bytes from an abstract byte source in the same fixed
//! order that encoding wrote them, each nested step consuming exactly the
//! bytes its matching encode step produced, with no backtracking.
//!
//! Every implementation states the decode as a specification-level parse
//! function (`spec_decode`) from the byte stream to the abstract value read
//! and the count of bytes consumed, and names the exact error returned for
//! every input it rejects.

use vstd::prelude::*;
use crate::error::Error;
use crate::error::ErrorKind;
use crate::error::unexpected_eof_to_unexpected_length_of_input;
use crate::io::Read;
use crate::io::SliceReader;
use crate::model::Model;

verus! {

use vstd::bytes::*;
use vstd::utf8::valid_utf8;
use vstd::utf8::decode_utf8;

/// The ceiling on any single speculative allocation or read made for an
/// untrusted declared length: one mebibyte.
pub const MAX_INIT_ALLOC: usize = 1048576;

/// A value that can be read back from binary format.
///
/// `spec_decode(s)` is the parse function: `Some((m, n))` when the stream
/// `s` begins with a well-formed encoding that reads back as the abstract
/// value `m` after consuming exactly `n` bytes, and `None` when it does not,
/// in which case `spec_decode_err(s)` is the error reported.
pub trait BorshDeserialize: Sized + Model {
    /// The parse function: the abstract value read from `s` and the count of
    /// bytes consumed, or `None` for malformed or short input.
    spec fn spec_decode(s: Seq<u8>) -> Option<(Self::V, int)>;

    /// The error reported when `spec_decode(s)` is `None`.
    spec fn spec_decode_err(s: Seq<u8>) -> Error;

    /// A successful parse never consumes more bytes than the stream holds.
    proof fn lemma_decode_bounds(s: Seq<u8>)
        ensures
            match Self::spec_decode(s) {
                Some((m, n)) => 0 <= n <= s.len(),
                None => true,
            },
    ;

    /// Reads one value from the source, consuming exactly the bytes of its
    /// encoding and no more; fails on malformed input with the exact error
    /// that [`Self::spec_decode_err`] names, and passes a transport failure
    /// through verbatim.
    fn deserialize_reader<R: Read>(reader: &mut R) -> (r: Result<Self, Error>)
        ensures
            final(reader).source_ok() == old(reader).source_ok(),
            match r {
                Ok(v) => match Self::spec_decode(old(reader).readable()) {
                    Some((m, n)) => v.model() == m && final(reader).readable() == old(
                        reader,
                    ).readable().skip(n),
                    None => false,
                },
                Err(e) => (Self::spec_decode(old(reader).readable()) is None && e
                    == Self::spec_decode_err(old(reader).readable())) || (e == Error::Io && !old(
                    reader,
                ).source_ok()),
            },
    ;

    /// Reads one value from the front of a byte slice, leaving `buf`
    /// pointing at the remaining bytes.
    fn deserialize(buf: &mut &[u8]) -> (r: Result<Self, Error>)
        ensures
            match r {
                Ok(v) => match Self::spec_decode(old(buf)@) {
                    Some((m, n)) => v.model() == m && final(buf)@ == old(buf)@.skip(n),
                    None => false,
                },
                Err(e) => Self::spec_decode(old(buf)@) is None && e == Self::spec_decode_err(
                    old(buf)@,
                ),
            },
    {
        let data: &[u8] = *buf;
        let mut reader = SliceReader::new(data);
        match Self::deserialize_reader(&mut reader) {
            Ok(v) => {
                proof {
                    Self::lemma_decode_bounds(data@);
                }
                let n = data.len() - reader.remaining_len();
                *buf = &data[n..data.len()];
                Ok(v)
            },
            Err(e) => Err(e),
        }
    }

    /// Root decode from a fixed in-memory buffer: the whole buffer must be
    /// one encoding, and trailing bytes are an error.
    fn try_from_slice(v: &[u8]) -> (r: Result<Self, Error>)
        ensures
            match r {
                Ok(w) => match Self::spec_decode(v@) {
                    Some((m, n)) => w.model() == m && n == v@.len(),
                    None => false,
                },
                Err(e) => match Self::spec_decode(v@) {
                    Some((m, n)) => n < v@.len() && e == Error::NotAllBytesRead,
                    None => e == Self::spec_decode_err(v@),
                },
            },
    {
        let mut reader = SliceReader::new(v);
        let value = match Self::deserialize_reader(&mut reader) {
            Ok(w) => w,
            Err(e) => return Err(e),
        };
        proof {
            Self::lemma_decode_bounds(v@);
        }
        if reader.remaining_len() > 0 {
            return Err(Error::NotAllBytesRead);
        }
        Ok(value)
    }

    /// Root decode from a byte source: the source must be exactly exhausted
    /// immediately after the one value is read.
    fn try_from_reader<R: Read>(reader: &mut R) -> (r: Result<Self, Error>)
        ensures
            final(reader).source_ok() == old(reader).source_ok(),
            match r {
                Ok(v) => match Self::spec_decode(old(reader).readable()) {
                    Some((m, n)) => v.model() == m && n == old(reader).readable().len(),
                    None => false,
                },
                Err(e) => match Self::spec_decode(old(reader).readable()) {
                    Some((m, n)) => (e == Error::NotAllBytesRead && (n < old(
                        reader,
                    ).readable().len() || !old(reader).source_ok())) || (e == Error::Io && !old(
                        reader,
                    ).source_ok()),
                    None => (e == Self::spec_decode_err(old(reader).readable())) || (e == Error::Io
                        && !old(reader).source_ok()),
                },
            },
    {
        let result = match Self::deserialize_reader(reader) {
            Ok(v) => v,
            Err(e) => return Err(e),
        };
        proof {
            Self::lemma_decode_bounds(old(reader).readable());
        }
        match reader.read_exact(1) {
            Err(e) => {
                if e.kind() == ErrorKind::UnexpectedEof {
                    Ok(result)
                } else {
                    Err(Error::NotAllBytesRead)
                }
            },
            Ok(_) => Err(Error::NotAllBytesRead),
        }
    }
}

/// The parse function for `count` consecutive elements: each one consumes
/// exactly its own encoding, in order, with no separators.
pub open spec fn spec_decode_elems<T: BorshDeserialize>(s: Seq<u8>, count: nat) -> Option<
    (Seq<T::V>, int),
>
    decreases count,
{
    if count == 0 {
        Some((Seq::empty(), 0))
    } else {
        match T::spec_decode(s) {
            None => None,
            Some((v, n)) => match spec_decode_elems::<T>(s.skip(n), (count - 1) as nat) {
                None => None,
                Some((vs, m)) => Some((seq![v] + vs, n + m)),
            },
        }
    }
}

/// The error of the first of `count` consecutive element parses that fails.
pub open spec fn spec_decode_elems_err<T: BorshDeserialize>(s: Seq<u8>, count: nat) -> Error
    decreases count,
{
    if count == 0 {
        arbitrary()
    } else {
        match T::spec_decode(s) {
            None => T::spec_decode_err(s),
            Some((v, n)) => spec_decode_elems_err::<T>(s.skip(n), (count - 1) as nat),
        }
    }
}

/// A successful parse of `count` elements yields `count` values and never
/// consumes more bytes than the stream holds.
pub proof fn lemma_decode_elems_bounds<T: BorshDeserialize>(s: Seq<u8>, count: nat)
    ensures
        match spec_decode_elems::<T>(s, count) {
            Some((vs, m)) => vs.len() == count && 0 <= m <= s.len(),
            None => true,
        },
    decreases count,
{
    if count > 0 {
        T::lemma_decode_bounds(s);
        match T::spec_decode(s) {
            Some((v, n)) => {
                lemma_decode_elems_bounds::<T>(s.skip(n), (count - 1) as nat);
            },
            None => {},
        }
    }
}

/// For raw bytes, parsing `count` consecutive elements is exactly taking
/// the next `count` bytes: a direct bulk read of a byte payload yields
/// results identical to the naive element-by-element loop.
pub proof fn lemma_decode_elems_u8(s: Seq<u8>, count: nat)
    ensures
        spec_decode_elems::<u8>(s, count) == (if count <= s.len() {
            Some((s.take(count as int), count as int))
        } else {
            None::<(Seq<u8>, int)>
        }),
        count > s.len() ==> spec_decode_elems_err::<u8>(s, count)
            == Error::UnexpectedLengthOfInput,
    decreases count,
{
    if count == 0 {
        assert(s.take(0) =~= Seq::<u8>::empty());
    } else {
        if s.len() == 0 {
        } else {
            lemma_decode_elems_u8(s.skip(1), (count - 1) as nat);
            if count <= s.len() {
                assert(seq![s[0]] + s.skip(1).take(count - 1) =~= s.take(count as int));
            }
        }
    }
}

/// Reads exactly `n` bytes, reporting a short stream as the decode error
/// that a short payload deserves.
pub(crate) fn read_exact_or_short<R: Read>(reader: &mut R, n: usize) -> (r: Result<Vec<u8>, Error>)
    ensures
        final(reader).source_ok() == old(reader).source_ok(),
        match r {
            Ok(v) => {
                &&& n <= old(reader).readable().len()
                &&& v@ == old(reader).readable().take(n as int)
                &&& final(reader).readable() == old(reader).readable().skip(n as int)
            },
            Err(e) => (old(reader).readable().len() < n && e == Error::UnexpectedLengthOfInput)
                || (e == Error::Io && !old(reader).source_ok()),
        },
{
    match reader.read_exact(n) {
        Ok(v) => Ok(v),
        Err(e) => Err(unexpected_eof_to_unexpected_length_of_input(e)),
    }
}

/// Pulls a declared-length byte payload out of the source without trusting
/// the declared length: each read is capped at [`MAX_INIT_ALLOC`] bytes, the
/// buffer grows only as bytes actually arrive, and a stream that dries up
/// mid-payload is a hard failure.
///
/// This is the defense against a hostile length prefix: no allocation
/// proportional to `len` is made before the source has yielded that many
/// bytes.
pub(crate) fn read_bytes_bounded<R: Read>(len: usize, reader: &mut R) -> (r: Result<Vec<u8>, Error>)
    ensures
        final(reader).source_ok() == old(reader).source_ok(),
        match r {
            Ok(v) => {
                &&& v@.len() == len
                &&& len <= old(reader).readable().len()
                &&& v@ == old(reader).readable().take(len as int)
                &&& final(reader).readable() == old(reader).readable().skip(len as int)
            },
            Err(e) => (old(reader).readable().len() < len && e
                == Error::UnexpectedLengthOfInput) || (e == Error::Io && !old(
                reader,
            ).source_ok()),
        },
{
    let cap = if len < MAX_INIT_ALLOC {
        len
    } else {
        MAX_INIT_ALLOC
    };
    let mut out: Vec<u8> = Vec::with_capacity(cap);
    while out.len() < len
        invariant
            out@.len() <= len,
            reader.source_ok() == old(reader).source_ok(),
            out@ == old(reader).readable().take(out@.len() as int),
            out@.len() <= old(reader).readable().len(),
            reader.readable() == old(reader).readable().skip(out@.len() as int),
        decreases len - out@.len(),
    {
        let missing = len - out.len();
        let want = if missing < MAX_INIT_ALLOC {
            missing
        } else {
            MAX_INIT_ALLOC
        };
        let mut chunk = match reader.read_up_to(want) {
            Ok(c) => c,
            Err(e) => {
                return Err(e);
            },
        };
        if chunk.len() == 0 {
            proof {
                assert(reader.readable().len() == 0);
                assert(old(reader).readable().len() == out@.len() < len);
            }
            return Err(Error::UnexpectedLengthOfInput);
        }
        let ghost prev = out@.len() as int;
        let ghost got = chunk@.len() as int;
        out.append(&mut chunk);
        proof {
            assert(out@ =~= old(reader).readable().take(prev + got));
            assert(reader.readable() =~= old(reader).readable().skip(prev + got));
        }
    }
    proof {
        assert(out@.len() == len);
    }
    Ok(out)
}

/// Deserializes one value from a fixed in-memory buffer, and fails with
/// [`Error::NotAllBytesRead`] if any trailing unconsumed bytes remain.
pub fn from_slice<T: BorshDeserialize>(v: &[u8]) -> (r: Result<T, Error>)
    ensures
        match r {
            Ok(w) => match T::spec_decode(v@) {
                Some((m, n)) => w.model() == m && n == v@.len(),
                None => false,
            },
            Err(e) => match T::spec_decode(v@) {
                Some((m, n)) => n < v@.len() && e == Error::NotAllBytesRead,
                None => e == T::spec_decode_err(v@),
            },
        },
{
    let mut reader = SliceReader::new(v);
    let value = match T::deserialize_reader(&mut reader) {
        Ok(w) => w,
        Err(e) => return Err(e),
    };
    proof {
        T::lemma_decode_bounds(v@);
    }
    if reader.remaining_len() > 0 {
        return Err(Error::NotAllBytesRead);
    }
    Ok(value)
}

/// Deserializes one value from a byte source, and fails unless the source is
/// exactly exhausted immediately after.
pub fn from_reader<R: Read, T: BorshDeserialize>(reader: &mut R) -> (r: Result<T, Error>)
    ensures
        final(reader).source_ok() == old(reader).source_ok(),
        match r {
            Ok(v) => match T::spec_decode(old(reader).readable()) {
                Some((m, n)) => v.model() == m && n == old(reader).readable().len(),
                None => false,
            },
            Err(e) => match T::spec_decode(old(reader).readable()) {
                Some((m, n)) => (e == Error::NotAllBytesRead && (n < old(reader).readable().len()
                    || !old(reader).source_ok())) || (e == Error::Io && !old(reader).source_ok()),
                None => (e == T::spec_decode_err(old(reader).readable())) || (e == Error::Io
                    && !old(reader).source_ok()),
            },
        },
{
    T::try_from_reader(reader)
}

/// Reads the fixed 64-bit wire form of a pointer-sized unsigned integer and
/// range-checks it against the receiving platform's maximum `max`, so that a
/// value stored on a wide platform fails loudly on a narrow one instead of
/// being silently truncated.
pub fn decode_target_usize<R: Read>(reader: &mut R, max: u64) -> (r: Result<u64, Error>)
    ensures
        final(reader).source_ok() == old(reader).source_ok(),
        match r {
            Ok(x) => {
                &&& old(reader).readable().len() >= 8
                &&& x == spec_u64_from_le_bytes(old(reader).readable().take(8))
                &&& x <= max
                &&& final(reader).readable() == old(reader).readable().skip(8)
            },
            Err(e) => {
                ||| (old(reader).readable().len() < 8 && e == Error::UnexpectedLengthOfInput)
                ||| (old(reader).readable().len() >= 8 && spec_u64_from_le_bytes(
                    old(reader).readable().take(8),
                ) > max && e == Error::UsizeOverflow)
                ||| (e == Error::Io && !old(reader).source_ok())
            },
        },
{
    let b = read_exact_or_short(reader, 8)?;
    let x = u64_from_le_bytes(b.as_slice());
    if x > max {
        Err(Error::UsizeOverflow)
    } else {
        Ok(x)
    }
}

/// Reads the fixed 64-bit wire form of a pointer-sized signed integer and
/// range-checks it against the receiving platform's bounds.
pub fn decode_target_isize<R: Read>(reader: &mut R, min: i64, max: i64) -> (r: Result<i64, Error>)
    ensures
        final(reader).source_ok() == old(reader).source_ok(),
        match r {
            Ok(x) => {
                &&& old(reader).readable().len() >= 8
                &&& x == spec_u64_from_le_bytes(old(reader).readable().take(8)) as i64
                &&& min <= x <= max
                &&& final(reader).readable() == old(reader).readable().skip(8)
            },
            Err(e) => {
                ||| (old(reader).readable().len() < 8 && e == Error::UnexpectedLengthOfInput)
                ||| (old(reader).readable().len() >= 8 && !(min <= spec_u64_from_le_bytes(
                    old(reader).readable().take(8),
                ) as i64 <= max) && e == Error::IsizeOverflow)
                ||| (e == Error::Io && !old(reader).source_ok())
            },
        },
{
    let b = read_exact_or_short(reader, 8)?;
    let x = u64_from_le_bytes(b.as_slice());
    let y = x as i64;
    if y < min || y > max {
        Err(Error::IsizeOverflow)
    } else {
        Ok(y)
    }
}

impl BorshDeserialize for u8 {
    open spec fn spec_decode(s: Seq<u8>) -> Option<(u8, int)> {
        if s.len() >= 1 {
            Some((s[0], 1))
        } else {
            None
        }
    }

    open spec fn spec_decode_err(s: Seq<u8>) -> Error {
        Error::UnexpectedLengthOfInput
    }

    proof fn lemma_decode_bounds(s: Seq<u8>) {
    }

    fn deserialize_reader<R: Read>(reader: &mut R) -> (r: Result<Self, Error>) {
        let b = read_exact_or_short(reader, 1)?;
        proof {
            assert(old(reader).readable().take(1)[0] == old(reader).readable()[0]);
        }
        Ok(b[0])
    }
}

impl BorshDeserialize for u16 {
    open spec fn spec_decode(s: Seq<u8>) -> Option<(u16, int)> {
        if s.len() >= 2 {
            Some((spec_u16_from_le_bytes(s.take(2)), 2))
        } else {
            None
        }
    }

    open spec fn spec_decode_err(s: Seq<u8>) -> Error {
        Error::UnexpectedLengthOfInput
    }

    proof fn lemma_decode_bounds(s: Seq<u8>) {
    }

    fn deserialize_reader<R: Read>(reader: &mut R) -> (r: Result<Self, Error>) {
        let b = read_exact_or_short(reader, 2)?;
        Ok(u16_from_le_bytes(b.as_slice()))
    }
}

impl BorshDeserialize for u32 {
    open spec fn spec_decode(s: Seq<u8>) -> Option<(u32, int)> {
        if s.len() >= 4 {
            Some((spec_u32_from_le_bytes(s.take(4)), 4))
        } else {
            None
        }
    }

    open spec fn spec_decode_err(s: Seq<u8>) -> Error {
        Error::UnexpectedLengthOfInput
    }

    proof fn lemma_decode_bounds(s: Seq<u8>) {
    }

    #[verifier::spinoff_prover]
    fn deserialize_reader<R: Read>(reader: &mut R) -> (r: Result<Self, Error>) {
        let ghost s = old(reader).readable();
        let b = read_exact_or_short(reader, 4)?;
        let x = u32_from_le_bytes(b.as_slice());
        proof {
            assert(b@ == s.take(4));
            assert(x == spec_u32_from_le_bytes(s.take(4)));
        }
        Ok(x)
    }
}

impl BorshDeserialize for u64 {
    open spec fn spec_decode(s: Seq<u8>) -> Option<(u64, int)> {
        if s.len() >= 8 {
            Some((spec_u64_from_le_bytes(s.take(8)), 8))
        } else {
            None
        }
    }

    open spec fn spec_decode_err(s: Seq<u8>) -> Error {
        Error::UnexpectedLengthOfInput
    }

    proof fn lemma_decode_bounds(s: Seq<u8>) {
    }

    fn deserialize_reader<R: Read>(reader: &mut R) -> (r: Result<Self, Error>) {
        let b = read_exact_or_short(reader, 8)?;
        Ok(u64_from_le_bytes(b.as_slice()))
    }
}

impl BorshDeserialize for u128 {
    open spec fn spec_decode(s: Seq<u8>) -> Option<(u128, int)> {
        if s.len() >= 16 {
            Some((spec_u128_from_le_bytes(s.take(16)), 16))
        } else {
            None
        }
    }

    open spec fn spec_decode_err(s: Seq<u8>) -> Error {
        Error::UnexpectedLengthOfInput
    }

    proof fn lemma_decode_bounds(s: Seq<u8>) {
    }

    fn deserialize_reader<R: Read>(reader: &mut R) -> (r: Result<Self, Error>) {
        let b = read_exact_or_short(reader, 16)?;
        Ok(u128_from_le_bytes(b.as_slice()))
    }
}

impl BorshDeserialize for i8 {
    open spec fn spec_decode(s: Seq<u8>) -> Option<(i8, int)> {
        if s.len() >= 1 {
            Some((s[0] as i8, 1))
        } else {
            None
        }
    }

    open spec fn spec_decode_err(s: Seq<u8>) -> Error {
        Error::UnexpectedLengthOfInput
    }

    proof fn lemma_decode_bounds(s: Seq<u8>) {
    }

    fn deserialize_reader<R: Read>(reader: &mut R) -> (r: Result<Self, Error>) {
        let b = read_exact_or_short(reader, 1)?;
        proof {
            assert(old(reader).readable().take(1)[0] == old(reader).readable()[0]);
        }
        Ok(b[0] as i8)
    }
}

impl BorshDeserialize for i16 {
    open spec fn spec_decode(s: Seq<u8>) -> Option<(i16, int)> {
        if s.len() >= 2 {
            Some((spec_u16_from_le_bytes(s.take(2)) as i16, 2))
        } else {
            None
        }
    }

    open spec fn spec_decode_err(s: Seq<u8>) -> Error {
        Error::UnexpectedLengthOfInput
    }

    proof fn lemma_decode_bounds(s: Seq<u8>) {
    }

    fn deserialize_reader<R: Read>(reader: &mut R) -> (r: Result<Self, Error>) {
        let b = read_exact_or_short(reader, 2)?;
        Ok(u16_from_le_bytes(b.as_slice()) as i16)
    }
}

impl BorshDeserialize for i32 {
    open spec fn spec_decode(s: Seq<u8>) -> Option<(i32, int)> {
        if s.len() >= 4 {
            Some((spec_u32_from_le_bytes(s.take(4)) as i32, 4))
        } else {
            None
        }
    }

    open spec fn spec_decode_err(s: Seq<u8>) -> Error {
        Error::UnexpectedLengthOfInput
    }

    proof fn lemma_decode_bounds(s: Seq<u8>) {
    }

    fn deserialize_reader<R: Read>(reader: &mut R) -> (r: Result<Self, Error>) {
        let b = read_exact_or_short(reader, 4)?;
        Ok(u32_from_le_bytes(b.as_slice()) as i32)
    }
}

impl BorshDeserialize for i64 {
    open spec fn spec_decode(s: Seq<u8>) -> Option<(i64, int)> {
        if s.len() >= 8 {
            Some((spec_u64_from_le_bytes(s.take(8)) as i64, 8))
        } else {
            None
        }
    }

    open spec fn spec_decode_err(s: Seq<u8>) -> Error {
        Error::UnexpectedLengthOfInput
    }

    proof fn lemma_decode_bounds(s: Seq<u8>) {
    }

    fn deserialize_reader<R: Read>(reader: &mut R) -> (r: Result<Self, Error>) {
        let b = read_exact_or_short(reader, 8)?;
        Ok(u64_from_le_bytes(b.as_slice()) as i64)
    }
}

impl BorshDeserialize for i128 {
    open spec fn spec_decode(s: Seq<u8>) -> Option<(i128, int)> {
        if s.len() >= 16 {
            Some((spec_u128_from_le_bytes(s.take(16)) as i128, 16))
        } else {
            None
        }
    }

    open spec fn spec_decode_err(s: Seq<u8>) -> Error {
        Error::UnexpectedLengthOfInput
    }

    proof fn lemma_decode_bounds(s: Seq<u8>) {
    }

    fn deserialize_reader<R: Read>(reader: &mut R) -> (r: Result<Self, Error>) {
        let b = read_exact_or_short(reader, 16)?;
        Ok(u128_from_le_bytes(b.as_slice()) as i128)
    }
}

/// Pointer-sized integers travel as a fixed 64-bit value and are
/// range-checked against this platform's actual width on arrival.
impl BorshDeserialize for usize {
    open spec fn spec_decode(s: Seq<u8>) -> Option<(usize, int)> {
        if s.len() < 8 {
            None
        } else {
            let x = spec_u64_from_le_bytes(s.take(8));
            if x <= usize::MAX as u64 {
                Some((x as usize, 8))
            } else {
                None
            }
        }
    }

    open spec fn spec_decode_err(s: Seq<u8>) -> Error {
        if s.len() < 8 {
            Error::UnexpectedLengthOfInput
        } else {
            Error::UsizeOverflow
        }
    }

    proof fn lemma_decode_bounds(s: Seq<u8>) {
    }

    fn deserialize_reader<R: Read>(reader: &mut R) -> (r: Result<Self, Error>) {
        match decode_target_usize(reader, usize::MAX as u64) {
            Ok(x) => Ok(x as usize),
            Err(e) => Err(e),
        }
    }
}

/// Pointer-sized integers travel as a fixed 64-bit value and are
/// range-checked against this platform's actual width on arrival.
impl BorshDeserialize for isize {
    open spec fn spec_decode(s: Seq<u8>) -> Option<(isize, int)> {
        if s.len() < 8 {
            None
        } else {
            let x = spec_u64_from_le_bytes(s.take(8)) as i64;
            if isize::MIN as i64 <= x <= isize::MAX as i64 {
                Some((x as isize, 8))
            } else {
                None
            }
        }
    }

    open spec fn spec_decode_err(s: Seq<u8>) -> Error {
        if s.len() < 8 {
            Error::UnexpectedLengthOfInput
        } else {
            Error::IsizeOverflow
        }
    }

    proof fn lemma_decode_bounds(s: Seq<u8>) {
    }

    fn deserialize_reader<R: Read>(reader: &mut R) -> (r: Result<Self, Error>) {
        match decode_target_isize(reader, isize::MIN as i64, isize::MAX as i64) {
            Ok(x) => Ok(x as isize),
            Err(e) => Err(e),
        }
    }
}

impl BorshDeserialize for bool {
    open spec fn spec_decode(s: Seq<u8>) -> Option<(bool, int)> {
        if s.len() < 1 {
            None
        } else if s[0] == 0 {
            Some((false, 1))
        } else if s[0] == 1 {
            Some((true, 1))
        } else {
            None
        }
    }

    open spec fn spec_decode_err(s: Seq<u8>) -> Error {
        if s.len() < 1 {
            Error::UnexpectedLengthOfInput
        } else {
            Error::InvalidBoolByte(s[0])
        }
    }

    proof fn lemma_decode_bounds(s: Seq<u8>) {
    }

    fn deserialize_reader<R: Read>(reader: &mut R) -> (r: Result<Self, Error>) {
        let b = u8::deserialize_reader(reader)?;
        if b == 0 {
            Ok(false)
        } else if b == 1 {
            Ok(true)
        } else {
            Err(Error::InvalidBoolByte(b))
        }
    }
}

/// The unit value occupies no bytes on the wire.
impl BorshDeserialize for () {
    open spec fn spec_decode(s: Seq<u8>) -> Option<((), int)> {
        Some(((), 0))
    }

    open spec fn spec_decode_err(s: Seq<u8>) -> Error {
        arbitrary()
    }

    proof fn lemma_decode_bounds(s: Seq<u8>) {
    }

    fn deserialize_reader<R: Read>(reader: &mut R) -> (r: Result<Self, Error>) {
        proof {
            assert(final(reader).readable() =~= old(reader).readable().skip(0));
        }
        Ok(())
    }
}

/// An optional value: tag byte 0 is the absent value, 1 is followed by the
/// inner value's bytes, and every other tag byte is rejected by name.
impl<T: BorshDeserialize> BorshDeserialize for Option<T> {
    open spec fn spec_decode(s: Seq<u8>) -> Option<(Option<T::V>, int)> {
        if s.len() < 1 {
            None
        } else if s[0] == 0 {
            Some((None, 1))
        } else if s[0] == 1 {
            match T::spec_decode(s.skip(1)) {
                Some((m, n)) => Some((Some(m), 1 + n)),
                None => None,
            }
        } else {
            None
        }
    }

    open spec fn spec_decode_err(s: Seq<u8>) -> Error {
        if s.len() < 1 {
            Error::UnexpectedLengthOfInput
        } else if s[0] == 1 {
            T::spec_decode_err(s.skip(1))
        } else {
            Error::InvalidOptionTag(s[0])
        }
    }

    proof fn lemma_decode_bounds(s: Seq<u8>) {
        if s.len() >= 1 && s[0] == 1 {
            T::lemma_decode_bounds(s.skip(1));
        }
    }

    fn deserialize_reader<R: Read>(reader: &mut R) -> (r: Result<Self, Error>) {
        let ghost s = old(reader).readable();
        let tag = u8::deserialize_reader(reader)?;
        if tag == 0 {
            Ok(None)
        } else if tag == 1 {
            match T::deserialize_reader(reader) {
                Ok(v) => {
                    proof {
                        T::lemma_decode_bounds(s.skip(1));
                        match T::spec_decode(s.skip(1)) {
                            Some((m, n)) => {
                                assert(s.skip(1).skip(n) =~= s.skip(1 + n));
                            },
                            None => {},
                        }
                    }
                    Ok(Some(v))
                },
                Err(e) => Err(e),
            }
        } else {
            Err(Error::InvalidOptionTag(tag))
        }
    }
}

/// A two-branch union: tag byte 0 selects the failure branch, 1 the success
/// branch; every other tag byte is rejected by name.
impl<T: BorshDeserialize, E: BorshDeserialize> BorshDeserialize for Result<T, E> {
    open spec fn spec_decode(s: Seq<u8>) -> Option<(Result<T::V, E::V>, int)> {
        if s.len() < 1 {
            None
        } else if s[0] == 0 {
            match E::spec_decode(s.skip(1)) {
                Some((m, n)) => Some((Err(m), 1 + n)),
                None => None,
            }
        } else if s[0] == 1 {
            match T::spec_decode(s.skip(1)) {
                Some((m, n)) => Some((Ok(m), 1 + n)),
                None => None,
            }
        } else {
            None
        }
    }

    open spec fn spec_decode_err(s: Seq<u8>) -> Error {
        if s.len() < 1 {
            Error::UnexpectedLengthOfInput
        } else if s[0] == 0 {
            E::spec_decode_err(s.skip(1))
        } else if s[0] == 1 {
            T::spec_decode_err(s.skip(1))
        } else {
            Error::InvalidResultTag(s[0])
        }
    }

    proof fn lemma_decode_bounds(s: Seq<u8>) {
        if s.len() >= 1 && s[0] == 0 {
            E::lemma_decode_bounds(s.skip(1));
        }
        if s.len() >= 1 && s[0] == 1 {
            T::lemma_decode_bounds(s.skip(1));
        }
    }

    fn deserialize_reader<R: Read>(reader: &mut R) -> (r: Result<Self, Error>) {
        let ghost s = old(reader).readable();
        let tag = u8::deserialize_reader(reader)?;
        if tag == 0 {
            match E::deserialize_reader(reader) {
                Ok(v) => {
                    proof {
                        E::lemma_decode_bounds(s.skip(1));
                        match E::spec_decode(s.skip(1)) {
                            Some((m, n)) => {
                                assert(s.skip(1).skip(n) =~= s.skip(1 + n));
                            },
                            None => {},
                        }
                    }
                    Ok(Err(v))
                },
                Err(e) => Err(e),
            }
        } else if tag == 1 {
            match T::deserialize_reader(reader) {
                Ok(v) => {
                    proof {
                        T::lemma_decode_bounds(s.skip(1));
                        match T::spec_decode(s.skip(1)) {
                            Some((m, n)) => {
                                assert(s.skip(1).skip(n) =~= s.skip(1 + n));
                            },
                            None => {},
                        }
                    }
                    Ok(Ok(v))
                },
                Err(e) => Err(e),
            }
        } else {
            Err(Error::InvalidResultTag(tag))
        }
    }
}

/// A pair of fields, read in declaration order with no padding.
impl<T0: BorshDeserialize, T1: BorshDeserialize> BorshDeserialize for (T0, T1) {
    open spec fn spec_decode(s: Seq<u8>) -> Option<((T0::V, T1::V), int)> {
        match T0::spec_decode(s) {
            None => None,
            Some((m0, n0)) => match T1::spec_decode(s.skip(n0)) {
                None => None,
                Some((m1, n1)) => Some(((m0, m1), n0 + n1)),
            },
        }
    }

    open spec fn spec_decode_err(s: Seq<u8>) -> Error {
        match T0::spec_decode(s) {
            None => T0::spec_decode_err(s),
            Some((m0, n0)) => T1::spec_decode_err(s.skip(n0)),
        }
    }

    proof fn lemma_decode_bounds(s: Seq<u8>) {
        T0::lemma_decode_bounds(s);
        match T0::spec_decode(s) {
            Some((m0, n0)) => {
                T1::lemma_decode_bounds(s.skip(n0));
            },
            None => {},
        }
    }

    fn deserialize_reader<R: Read>(reader: &mut R) -> (r: Result<Self, Error>) {
        let ghost s = old(reader).readable();
        let a = T0::deserialize_reader(reader)?;
        match T1::deserialize_reader(reader) {
            Ok(b) => {
                proof {
                    T0::lemma_decode_bounds(s);
                    match T0::spec_decode(s) {
                        Some((m0, n0)) => {
                            T1::lemma_decode_bounds(s.skip(n0));
                            match T1::spec_decode(s.skip(n0)) {
                                Some((m1, n1)) => {
                                    assert(s.skip(n0).skip(n1) =~= s.skip(n0 + n1));
                                },
                                None => {},
                            }
                        },
                        None => {},
                    }
                }
                Ok((a, b))
            },
            Err(e) => Err(e),
        }
    }
}

/// Three fields, read in declaration order with no padding.
impl<T0: BorshDeserialize, T1: BorshDeserialize, T2: BorshDeserialize> BorshDeserialize for (
    T0,
    T1,
    T2,
) {
    open spec fn spec_decode(s: Seq<u8>) -> Option<((T0::V, T1::V, T2::V), int)> {
        match T0::spec_decode(s) {
            None => None,
            Some((m0, n0)) => match T1::spec_decode(s.skip(n0)) {
                None => None,
                Some((m1, n1)) => match T2::spec_decode(s.skip(n0 + n1)) {
                    None => None,
                    Some((m2, n2)) => Some(((m0, m1, m2), n0 + n1 + n2)),
                },
            },
        }
    }

    open spec fn spec_decode_err(s: Seq<u8>) -> Error {
        match T0::spec_decode(s) {
            None => T0::spec_decode_err(s),
            Some((m0, n0)) => match T1::spec_decode(s.skip(n0)) {
                None => T1::spec_decode_err(s.skip(n0)),
                Some((m1, n1)) => T2::spec_decode_err(s.skip(n0 + n1)),
            },
        }
    }

    proof fn lemma_decode_bounds(s: Seq<u8>) {
        T0::lemma_decode_bounds(s);
        match T0::spec_decode(s) {
            Some((m0, n0)) => {
                T1::lemma_decode_bounds(s.skip(n0));
                match T1::spec_decode(s.skip(n0)) {
                    Some((m1, n1)) => {
                        T2::lemma_decode_bounds(s.skip(n0 + n1));
                    },
                    None => {},
                }
            },
            None => {},
        }
    }

    fn deserialize_reader<R: Read>(reader: &mut R) -> (r: Result<Self, Error>) {
        let ghost s = old(reader).readable();
        let a = T0::deserialize_reader(reader)?;
        proof {
            match T0::spec_decode(s) {
                Some((m0, n0)) => {
                },
                None => {},
            }
        }
        let ghost s1 = reader.readable();
        let b = match T1::deserialize_reader(reader) {
            Ok(b) => b,
            Err(e) => {
                return Err(e);
            },
        };
        proof {
            T0::lemma_decode_bounds(s);
            match T0::spec_decode(s) {
                Some((m0, n0)) => {
                    T1::lemma_decode_bounds(s.skip(n0));
                    match T1::spec_decode(s.skip(n0)) {
                        Some((m1, n1)) => {
                            assert(s.skip(n0).skip(n1) =~= s.skip(n0 + n1));
                        },
                        None => {},
                    }
                },
                None => {},
            }
        }
        match T2::deserialize_reader(reader) {
            Ok(c) => {
                proof {
                    T0::lemma_decode_bounds(s);
                    match T0::spec_decode(s) {
                        Some((m0, n0)) => {
                            T1::lemma_decode_bounds(s.skip(n0));
                            match T1::spec_decode(s.skip(n0)) {
                                Some((m1, n1)) => {
                                    T2::lemma_decode_bounds(s.skip(n0 + n1));
                                    match T2::spec_decode(s.skip(n0 + n1)) {
                                        Some((m2, n2)) => {
                                            assert(s.skip(n0 + n1).skip(n2) =~= s.skip(
                                                n0 + n1 + n2,
                                            ));
                                        },
                                        None => {},
                                    }
                                },
                                None => {},
                            }
                        },
                        None => {},
                    }
                }
                Ok((a, b, c))
            },
            Err(e) => Err(e),
        }
    }
}


/// A half-open interval reads its start then its end, like any two fields.
impl<T: BorshDeserialize> BorshDeserialize for core::ops::Range<T> {
    open spec fn spec_decode(s: Seq<u8>) -> Option<((T::V, T::V), int)> {
        <(T, T) as BorshDeserialize>::spec_decode(s)
    }

    open spec fn spec_decode_err(s: Seq<u8>) -> Error {
        <(T, T) as BorshDeserialize>::spec_decode_err(s)
    }

    proof fn lemma_decode_bounds(s: Seq<u8>) {
        <(T, T) as BorshDeserialize>::lemma_decode_bounds(s);
    }

    fn deserialize_reader<R: Read>(reader: &mut R) -> (r: Result<Self, Error>) {
        match <(T, T)>::deserialize_reader(reader) {
            Ok((start, end)) => Ok(start..end),
            Err(e) => Err(e),
        }
    }
}

/// A heap-indirection wrapper contributes no bytes of its own: the boxed
/// value's encoding is the whole image.
impl<T: BorshDeserialize> BorshDeserialize for Box<T> {
    open spec fn spec_decode(s: Seq<u8>) -> Option<(T::V, int)> {
        T::spec_decode(s)
    }

    open spec fn spec_decode_err(s: Seq<u8>) -> Error {
        T::spec_decode_err(s)
    }

    proof fn lemma_decode_bounds(s: Seq<u8>) {
        T::lemma_decode_bounds(s);
    }

    fn deserialize_reader<R: Read>(reader: &mut R) -> (r: Result<Self, Error>) {
        match T::deserialize_reader(reader) {
            Ok(v) => Ok(Box::new(v)),
            Err(e) => Err(e),
        }
    }
}

/// A dynamic sequence: 4-byte little-endian length prefix, then that many
/// elements read one after another. The declared length is never trusted
/// with an allocation: storage grows only as elements actually arrive.
/// Sequences of zero-sized element types are rejected.
impl<T: BorshDeserialize> BorshDeserialize for Vec<T> {
    open spec fn spec_decode(s: Seq<u8>) -> Option<(Seq<T::V>, int)> {
        if T::spec_zero_sized() {
            None
        } else if s.len() < 4 {
            None
        } else {
            match spec_decode_elems::<T>(s.skip(4), spec_u32_from_le_bytes(s.take(4)) as nat) {
                Some((vs, m)) => Some((vs, 4 + m)),
                None => None,
            }
        }
    }

    open spec fn spec_decode_err(s: Seq<u8>) -> Error {
        if T::spec_zero_sized() {
            Error::ZeroSizedElement
        } else if s.len() < 4 {
            Error::UnexpectedLengthOfInput
        } else {
            spec_decode_elems_err::<T>(s.skip(4), spec_u32_from_le_bytes(s.take(4)) as nat)
        }
    }

    proof fn lemma_decode_bounds(s: Seq<u8>) {
        if !T::spec_zero_sized() && s.len() >= 4 {
            lemma_decode_elems_bounds::<T>(s.skip(4), spec_u32_from_le_bytes(s.take(4)) as nat);
        }
    }

    fn deserialize_reader<R: Read>(reader: &mut R) -> (r: Result<Self, Error>) {
        if T::zero_sized() {
            return Err(Error::ZeroSizedElement);
        }
        let ghost s = old(reader).readable();
        let len32 = u32::deserialize_reader(reader)?;
        let ghost payload = s.skip(4);
        let mut result: Vec<T> = Vec::new();
        let mut i: u32 = 0;
        let ghost mut consumed: int = 0;
        proof {
            assert(payload.skip(0) =~= payload);
            assert(result.model() =~= Seq::<T::V>::empty());
            match spec_decode_elems::<T>(payload, len32 as nat) {
                Some((vs, m)) => {
                    assert(result.model() + vs =~= vs);
                },
                None => {},
            }
        }
        while i < len32
            invariant
                i <= len32,
                !T::spec_zero_sized(),
                s == old(reader).readable(),
                s.len() >= 4,
                payload == s.skip(4),
                len32 == spec_u32_from_le_bytes(s.take(4)),
                reader.source_ok() == old(reader).source_ok(),
                0 <= consumed <= payload.len(),
                reader.readable() == payload.skip(consumed),
                result@.len() == i as int,
                spec_decode_elems::<T>(payload, len32 as nat) == (match spec_decode_elems::<T>(
                    reader.readable(),
                    (len32 - i) as nat,
                ) {
                    None => None::<(Seq<T::V>, int)>,
                    Some((vs, m)) => Some((result.model() + vs, consumed + m)),
                }),
                (spec_decode_elems::<T>(payload, len32 as nat) is None
                    ==> spec_decode_elems_err::<T>(payload, len32 as nat)
                    == spec_decode_elems_err::<T>(reader.readable(), (len32 - i) as nat)),
            decreases len32 - i,
        {
            let ghost cur = reader.readable();
            let ghost prev_model = result.model();
            match T::deserialize_reader(reader) {
                Ok(v) => {
                    result.push(v);
                    proof {
                        T::lemma_decode_bounds(cur);
                        match T::spec_decode(cur) {
                            Some((m, n)) => {
                                consumed = consumed + n;
                                assert(cur.skip(n) == reader.readable());
                                assert(payload.skip(consumed) =~= cur.skip(n));
                                assert(result.model() =~= prev_model + seq![m]);
                                match spec_decode_elems::<T>(
                                    reader.readable(),
                                    (len32 - i - 1) as nat,
                                ) {
                                    Some((vs, mm)) => {
                                        assert(prev_model + (seq![m] + vs) =~= result.model()
                                            + vs);
                                    },
                                    None => {},
                                }
                            },
                            None => {
                                assert(false);
                            },
                        }
                    }
                    i = i + 1;
                },
                Err(e) => {
                    proof {
                        if T::spec_decode(cur) is None {
                            assert(spec_decode_elems::<T>(cur, (len32 - i) as nat) is None);
                            assert(spec_decode_elems_err::<T>(cur, (len32 - i) as nat)
                                == T::spec_decode_err(cur));
                        }
                    }
                    return Err(e);
                },
            }
        }
        proof {
            match spec_decode_elems::<T>(reader.readable(), 0) {
                Some((vs, m)) => {
                    assert(vs =~= Seq::<T::V>::empty());
                    assert(result.model() + vs =~= result.model());
                },
                None => {},
            }
            assert(payload.skip(consumed) =~= s.skip(4 + consumed));
        }
        Ok(result)
    }
}


/// An insertion-ordered sequence reads back exactly as a dynamic sequence
/// does, in wire order.
impl<T: BorshDeserialize> BorshDeserialize for std::collections::VecDeque<T> {
    open spec fn spec_decode(s: Seq<u8>) -> Option<(Seq<T::V>, int)> {
        <Vec<T> as BorshDeserialize>::spec_decode(s)
    }

    open spec fn spec_decode_err(s: Seq<u8>) -> Error {
        <Vec<T> as BorshDeserialize>::spec_decode_err(s)
    }

    proof fn lemma_decode_bounds(s: Seq<u8>) {
        <Vec<T> as BorshDeserialize>::lemma_decode_bounds(s);
    }

    fn deserialize_reader<R: Read>(reader: &mut R) -> (r: Result<Self, Error>) {
        let v = Vec::<T>::deserialize_reader(reader)?;
        let ghost vm = v.model();
        let mut rest = v;
        let mut out: std::collections::VecDeque<T> = std::collections::VecDeque::new();
        let ghost es = rest@;
        let ghost mut gi: int = 0;
        proof {
            assert(rest@ =~= es.skip(0));
            assert(out.model() =~= vm.take(0));
        }
        while rest.len() > 0
            invariant
                0 <= gi,
                gi + rest@.len() == es.len(),
                rest@ == es.skip(gi),
                vm == Seq::new(es.len(), |q: int| es[q].model()),
                out@.len() == gi,
                out.model() == vm.take(gi),
            decreases rest@.len(),
        {
            let x = rest.remove(0);
            proof {
                assert(x == es[gi]);
                assert(rest@ =~= es.skip(gi + 1));
            }
            let ghost prev = out.model();
            out.push_back(x);
            proof {
                assert(out.model() =~= prev.push(x.model()));
                assert(vm.take(gi + 1) =~= vm.take(gi).push(es[gi].model()));
                gi = gi + 1;
            }
        }
        proof {
            assert(out.model() =~= vm);
        }
        Ok(out)
    }
}

/// A fixed-size array: exactly `N` elements read in order, with no length
/// prefix; the size is static.
impl<T: BorshDeserialize, const N: usize> BorshDeserialize for [T; N] {
    open spec fn spec_decode(s: Seq<u8>) -> Option<(Seq<T::V>, int)> {
        spec_decode_elems::<T>(s, N as nat)
    }

    open spec fn spec_decode_err(s: Seq<u8>) -> Error {
        spec_decode_elems_err::<T>(s, N as nat)
    }

    proof fn lemma_decode_bounds(s: Seq<u8>) {
        lemma_decode_elems_bounds::<T>(s, N as nat);
    }

    fn deserialize_reader<R: Read>(reader: &mut R) -> (r: Result<Self, Error>) {
        let ghost s = old(reader).readable();
        let mut result: Vec<T> = Vec::new();
        let mut i: usize = 0;
        let ghost mut consumed: int = 0;
        proof {
            assert(s.skip(0) =~= s);
            assert(result.model() =~= Seq::<T::V>::empty());
            match spec_decode_elems::<T>(s, N as nat) {
                Some((vs, m)) => {
                    assert(result.model() + vs =~= vs);
                },
                None => {},
            }
        }
        while i < N
            invariant
                i <= N,
                s == old(reader).readable(),
                reader.source_ok() == old(reader).source_ok(),
                0 <= consumed <= s.len(),
                reader.readable() == s.skip(consumed),
                result@.len() == i as int,
                spec_decode_elems::<T>(s, N as nat) == (match spec_decode_elems::<T>(
                    reader.readable(),
                    (N - i) as nat,
                ) {
                    None => None::<(Seq<T::V>, int)>,
                    Some((vs, m)) => Some((result.model() + vs, consumed + m)),
                }),
                (spec_decode_elems::<T>(s, N as nat) is None ==> spec_decode_elems_err::<T>(
                    s,
                    N as nat,
                ) == spec_decode_elems_err::<T>(reader.readable(), (N - i) as nat)),
            decreases N - i,
        {
            let ghost cur = reader.readable();
            let ghost prev_model = result.model();
            match T::deserialize_reader(reader) {
                Ok(v) => {
                    result.push(v);
                    proof {
                        T::lemma_decode_bounds(cur);
                        match T::spec_decode(cur) {
                            Some((m, n)) => {
                                consumed = consumed + n;
                                assert(cur.skip(n) == reader.readable());
                                assert(s.skip(consumed) =~= cur.skip(n));
                                assert(result.model() =~= prev_model + seq![m]);
                                match spec_decode_elems::<T>(reader.readable(), (N - i - 1) as nat) {
                                    Some((vs, mm)) => {
                                        assert(prev_model + (seq![m] + vs) =~= result.model()
                                            + vs);
                                    },
                                    None => {},
                                }
                            },
                            None => {
                                assert(false);
                            },
                        }
                    }
                    i = i + 1;
                },
                Err(e) => {
                    proof {
                        if T::spec_decode(cur) is None {
                            assert(spec_decode_elems::<T>(cur, (N - i) as nat) is None);
                            assert(spec_decode_elems_err::<T>(cur, (N - i) as nat)
                                == T::spec_decode_err(cur));
                        }
                    }
                    return Err(e);
                },
            }
        }
        proof {
            match spec_decode_elems::<T>(reader.readable(), 0) {
                Some((vs, m)) => {
                    assert(vs =~= Seq::<T::V>::empty());
                    assert(result.model() + vs =~= result.model());
                },
                None => {},
            }
        }
        let arr = vec_into_array::<T, N>(result);
        proof {
            assert(arr.model() =~= Seq::new(arr@.len(), |j: int| arr@[j].model()));
            match spec_decode_elems::<T>(s, N as nat) {
                Some((vs, m)) => {
                    assert forall|j: int| 0 <= j < N implies arr.model()[j] == vs[j] by {
                        assert(arr@[j] == result@[j]);
                    }
                    assert(arr.model() =~= vs);
                },
                None => {
                    assert(false);
                },
            }
        }
        Ok(arr)
    }
}

/// Relies on the standard `TryFrom` conversion from `Vec<T>` to `[T; N]`: it
/// succeeds exactly when the vector's length is `N` and moves the elements
/// over unchanged.
#[verifier::external_body]
pub(crate) fn vec_into_array<T, const N: usize>(v: Vec<T>) -> (r: [T; N])
    requires
        v@.len() == N,
    ensures
        r@ == v@,
{
    let a: Result<[T; N], Vec<T>> = v.try_into();
    a.ok().unwrap()
}

/// Relies on `String::from_utf8`: it succeeds exactly on input that is valid
/// UTF-8 and returns the string of the decoded characters.
#[verifier::external_body]
fn string_from_utf8(bytes: Vec<u8>) -> (r: Result<String, Error>)
    ensures
        match r {
            Ok(st) => valid_utf8(bytes@) && st@ == decode_utf8(bytes@),
            Err(e) => !valid_utf8(bytes@) && e == Error::InvalidUtf8,
        },
{
    match String::from_utf8(bytes) {
        Ok(st) => Ok(st),
        Err(_) => Err(Error::InvalidUtf8),
    }
}

/// A string is a dynamic sequence of its UTF-8 bytes; the payload is pulled
/// through the resource-bounded reader and must decode as UTF-8.
impl BorshDeserialize for String {
    open spec fn spec_decode(s: Seq<u8>) -> Option<(Seq<char>, int)> {
        if s.len() < 4 {
            None
        } else {
            let len = spec_u32_from_le_bytes(s.take(4)) as int;
            if s.len() - 4 < len {
                None
            } else if valid_utf8(s.skip(4).take(len)) {
                Some((decode_utf8(s.skip(4).take(len)), 4 + len))
            } else {
                None
            }
        }
    }

    open spec fn spec_decode_err(s: Seq<u8>) -> Error {
        if s.len() < 4 {
            Error::UnexpectedLengthOfInput
        } else if s.len() - 4 < spec_u32_from_le_bytes(s.take(4)) as int {
            Error::UnexpectedLengthOfInput
        } else {
            Error::InvalidUtf8
        }
    }

    proof fn lemma_decode_bounds(s: Seq<u8>) {
    }

    fn deserialize_reader<R: Read>(reader: &mut R) -> (r: Result<Self, Error>) {
        let ghost s = old(reader).readable();
        let len32 = u32::deserialize_reader(reader)?;
        let bytes = match read_bytes_bounded(len32 as usize, reader) {
            Ok(b) => b,
            Err(e) => {
                return Err(e);
            },
        };
        proof {
            assert(bytes@ == s.skip(4).take(len32 as int));
            assert(s.skip(4).skip(len32 as int) =~= s.skip(4 + len32 as int));
        }
        string_from_utf8(bytes)
    }
}

/// A marker occupies no bytes on the wire.
impl<T> BorshDeserialize for core::marker::PhantomData<T> {
    open spec fn spec_decode(s: Seq<u8>) -> Option<((), int)> {
        Some(((), 0))
    }

    open spec fn spec_decode_err(s: Seq<u8>) -> Error {
        arbitrary()
    }

    proof fn lemma_decode_bounds(s: Seq<u8>) {
    }

    fn deserialize_reader<R: Read>(reader: &mut R) -> (r: Result<Self, Error>) {
        proof {
            assert(final(reader).readable() =~= old(reader).readable().skip(0));
        }
        Ok(core::marker::PhantomData)
    }
}

/// Decoding a shared-ownership wrapper builds a fresh independent instance:
/// references that were shared before encoding come back distinct.
impl<T: BorshDeserialize> BorshDeserialize for std::rc::Rc<T> {
    open spec fn spec_decode(s: Seq<u8>) -> Option<(T::V, int)> {
        T::spec_decode(s)
    }

    open spec fn spec_decode_err(s: Seq<u8>) -> Error {
        T::spec_decode_err(s)
    }

    proof fn lemma_decode_bounds(s: Seq<u8>) {
        T::lemma_decode_bounds(s);
    }

    fn deserialize_reader<R: Read>(reader: &mut R) -> (r: Result<Self, Error>) {
        match T::deserialize_reader(reader) {
            Ok(v) => Ok(std::rc::Rc::new(v)),
            Err(e) => Err(e),
        }
    }
}

/// Decoding a shared-ownership wrapper builds a fresh independent instance:
/// references that were shared before encoding come back distinct.
impl<T: BorshDeserialize> BorshDeserialize for std::sync::Arc<T> {
    open spec fn spec_decode(s: Seq<u8>) -> Option<(T::V, int)> {
        T::spec_decode(s)
    }

    open spec fn spec_decode_err(s: Seq<u8>) -> Error {
        T::spec_decode_err(s)
    }

    proof fn lemma_decode_bounds(s: Seq<u8>) {
        T::lemma_decode_bounds(s);
    }

    fn deserialize_reader<R: Read>(reader: &mut R) -> (r: Result<Self, Error>) {
        match T::deserialize_reader(reader) {
            Ok(v) => Ok(std::sync::Arc::new(v)),
            Err(e) => Err(e),
        }
    }
}

/// Decodes a 32-bit unsigned integer under a non-zero constraint: a stored
/// zero is rejected by name.
pub fn deserialize_nonzero_u32<R: Read>(reader: &mut R) -> (r: Result<u32, Error>)
    ensures
        final(reader).source_ok() == old(reader).source_ok(),
        match r {
            Ok(x) => {
                &&& old(reader).readable().len() >= 4
                &&& x == spec_u32_from_le_bytes(old(reader).readable().take(4))
                &&& x != 0
                &&& final(reader).readable() == old(reader).readable().skip(4)
            },
            Err(e) => {
                ||| (old(reader).readable().len() < 4 && e == Error::UnexpectedLengthOfInput)
                ||| (old(reader).readable().len() >= 4 && spec_u32_from_le_bytes(
                    old(reader).readable().take(4),
                ) == 0 && e == Error::ExpectedNonZeroValue)
                ||| (e == Error::Io && !old(reader).source_ok())
            },
        },
{
    let x = u32::deserialize_reader(reader)?;
    if x == 0 {
        return Err(Error::ExpectedNonZeroValue);
    }
    Ok(x)
}

/// Decodes a 64-bit unsigned integer under a non-zero constraint: a stored
/// zero is rejected by name.
pub fn deserialize_nonzero_u64<R: Read>(reader: &mut R) -> (r: Result<u64, Error>)
    ensures
        final(reader).source_ok() == old(reader).source_ok(),
        match r {
            Ok(x) => {
                &&& old(reader).readable().len() >= 8
                &&& x == spec_u64_from_le_bytes(old(reader).readable().take(8))
                &&& x != 0
                &&& final(reader).readable() == old(reader).readable().skip(8)
            },
            Err(e) => {
                ||| (old(reader).readable().len() < 8 && e == Error::UnexpectedLengthOfInput)
                ||| (old(reader).readable().len() >= 8 && spec_u64_from_le_bytes(
                    old(reader).readable().take(8),
                ) == 0 && e == Error::ExpectedNonZeroValue)
                ||| (e == Error::Io && !old(reader).source_ok())
            },
        },
{
    let x = u64::deserialize_reader(reader)?;
    if x == 0 {
        return Err(Error::ExpectedNonZeroValue);
    }
    Ok(x)
}

/// Variant-directed decoding for tagged unions, used by hand-written decoders
/// that read the discriminant byte themselves to validate or filter on it
/// before handing the payload over.
pub trait EnumExt: BorshDeserialize {
    /// The parse function for the payload of the variant that `tag` selects:
    /// what [`BorshDeserialize::spec_decode`] yields once the tag byte is
    /// already consumed.
    spec fn spec_decode_variant(tag: u8, s: Seq<u8>) -> Option<(Self::V, int)>;

    /// The error reported when `spec_decode_variant(tag, s)` is `None`; a tag
    /// that selects no variant is rejected by name.
    spec fn spec_decode_variant_err(tag: u8, s: Seq<u8>) -> Error;

    /// Decodes the payload of the variant that `tag` selects.
    fn deserialize_variant<R: Read>(reader: &mut R, tag: u8) -> (r: Result<Self, Error>)
        ensures
            final(reader).source_ok() == old(reader).source_ok(),
            match r {
                Ok(v) => match Self::spec_decode_variant(tag, old(reader).readable()) {
                    Some((m, n)) => v.model() == m && final(reader).readable() == old(
                        reader,
                    ).readable().skip(n),
                    None => false,
                },
                Err(e) => (Self::spec_decode_variant(tag, old(reader).readable()) is None && e
                    == Self::spec_decode_variant_err(tag, old(reader).readable())) || (e
                    == Error::Io && !old(reader).source_ok()),
            },
    ;
}

impl<T: BorshDeserialize> EnumExt for Option<T> {
    open spec fn spec_decode_variant(tag: u8, s: Seq<u8>) -> Option<(Option<T::V>, int)> {
        if tag == 0 {
            Some((None, 0))
        } else if tag == 1 {
            match T::spec_decode(s) {
                Some((m, n)) => Some((Some(m), n)),
                None => None,
            }
        } else {
            None
        }
    }

    open spec fn spec_decode_variant_err(tag: u8, s: Seq<u8>) -> Error {
        if tag == 1 {
            T::spec_decode_err(s)
        } else {
            Error::InvalidOptionTag(tag)
        }
    }

    fn deserialize_variant<R: Read>(reader: &mut R, tag: u8) -> (r: Result<Self, Error>) {
        if tag == 0 {
            proof {
                assert(final(reader).readable() =~= old(reader).readable().skip(0));
            }
            Ok(None)
        } else if tag == 1 {
            match T::deserialize_reader(reader) {
                Ok(v) => Ok(Some(v)),
                Err(e) => Err(e),
            }
        } else {
            Err(Error::InvalidOptionTag(tag))
        }
    }
}

impl<T: BorshDeserialize, E: BorshDeserialize> EnumExt for Result<T, E> {
    open spec fn spec_decode_variant(tag: u8, s: Seq<u8>) -> Option<(Result<T::V, E::V>, int)> {
        if tag == 0 {
            match E::spec_decode(s) {
                Some((m, n)) => Some((Err(m), n)),
                None => None,
            }
        } else if tag == 1 {
            match T::spec_decode(s) {
                Some((m, n)) => Some((Ok(m), n)),
                None => None,
            }
        } else {
            None
        }
    }

    open spec fn spec_decode_variant_err(tag: u8, s: Seq<u8>) -> Error {
        if tag == 0 {
            E::spec_decode_err(s)
        } else if tag == 1 {
            T::spec_decode_err(s)
        } else {
            Error::InvalidResultTag(tag)
        }
    }

    fn deserialize_variant<R: Read>(reader: &mut R, tag: u8) -> (r: Result<Self, Error>) {
        if tag == 0 {
            match E::deserialize_reader(reader) {
                Ok(v) => Ok(Err(v)),
                Err(e) => Err(e),
            }
        } else if tag == 1 {
            match T::deserialize_reader(reader) {
                Ok(v) => Ok(Ok(v)),
                Err(e) => Err(e),
            }
        } else {
            Err(Error::InvalidResultTag(tag))
        }
    }
}

} // verus!
