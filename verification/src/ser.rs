//! Encoding: walking a value top-down and writing its canonical bytes,
//! depth-first, in a fixed field order, into an abstract byte sink.
//!
//! Every implementation states its exact wire image as a specification-level
//! byte sequence (`spec_encoding`), and `serialize` is proved to append
//! precisely those bytes on success.

use vstd::prelude::*;
use crate::error::Error;
use crate::io::Write;
use crate::model::Model;

verus! {

use vstd::bytes::*;
use vstd::utf8::encode_utf8;
use vstd::string::StringSliceAdditionalSpecFns;

/// A value that can be written into binary format.
///
/// `spec_encoding` is the canonical byte image of the value: a pure function
/// of the value's content. `spec_encodable` says when the value has an image
/// at all (a collection longer than the 4-byte length prefix can count, or of
/// a zero-sized element type, has none), and `spec_encode_err` names the
/// error returned in that case.
pub trait BorshSerialize: Sized + Model {
    /// The canonical byte image of this value.
    spec fn spec_encoding(&self) -> Seq<u8>;

    /// Whether this value can be encoded at all.
    spec fn spec_encodable(&self) -> bool;

    /// The error that `serialize` returns when the value cannot be encoded.
    spec fn spec_encode_err(&self) -> Error;

    /// Writes exactly the canonical bytes for this value into `writer`, or
    /// fails without a silent partial success: an unencodable value yields
    /// its specific error, and a sink failure is propagated verbatim.
    fn serialize<W: Write>(&self, writer: &mut W) -> (r: Result<(), Error>)
        ensures
            final(writer).sink_ok() == old(writer).sink_ok(),
            match r {
                Ok(()) => self.spec_encodable() && final(writer).written() == old(writer).written()
                    + self.spec_encoding(),
                Err(e) => (!self.spec_encodable() && e == self.spec_encode_err()) || (e
                    == Error::Io && !old(writer).sink_ok()),
            },
    ;
}

/// The bytes of the elements of `s`, in order, with no separators: the
/// payload of a dynamic sequence after its length prefix, and the whole image
/// of a fixed-size array.
pub open spec fn spec_seq_encoding<T: BorshSerialize>(s: Seq<T>) -> Seq<u8>
    decreases s.len(),
{
    if s.len() == 0 {
        Seq::empty()
    } else {
        s[0].spec_encoding() + spec_seq_encoding(s.drop_first())
    }
}

/// Every element of `s` can be encoded.
pub open spec fn spec_seq_encodable<T: BorshSerialize>(s: Seq<T>) -> bool {
    forall|i: int| 0 <= i < s.len() ==> #[trigger] s[i].spec_encodable()
}

/// The error of the first element of `s` that cannot be encoded.
pub open spec fn spec_seq_encode_err<T: BorshSerialize>(s: Seq<T>) -> Error
    decreases s.len(),
{
    if s.len() == 0 {
        arbitrary()
    } else if !s[0].spec_encodable() {
        s[0].spec_encode_err()
    } else {
        spec_seq_encode_err(s.drop_first())
    }
}

/// Extending the encoded prefix by one element appends that element's image.
pub proof fn lemma_seq_encoding_take_succ<T: BorshSerialize>(s: Seq<T>, i: int)
    requires
        0 <= i < s.len(),
    ensures
        spec_seq_encoding(s.take(i + 1)) == spec_seq_encoding(s.take(i)) + s[i].spec_encoding(),
    decreases i,
{
    let a = s.take(i + 1);
    let b = s.take(i);
    if i == 0 {
        assert(a =~= seq![s[0]]);
        assert(a.drop_first() =~= Seq::<T>::empty());
        assert(b =~= Seq::<T>::empty());
        assert(spec_seq_encoding(a) =~= s[0].spec_encoding());
    } else {
        lemma_seq_encoding_take_succ(s.drop_first(), i - 1);
        assert(a.drop_first() =~= s.drop_first().take(i));
        assert(b.drop_first() =~= s.drop_first().take(i - 1));
        assert(spec_seq_encoding(a) == s[0].spec_encoding() + spec_seq_encoding(
            s.drop_first().take(i),
        ));
        assert(s.drop_first().take(i)[i - 1] == s[i]);
        assert(spec_seq_encoding(b) == s[0].spec_encoding() + spec_seq_encoding(
            s.drop_first().take(i - 1),
        ));
        assert(spec_seq_encoding(a) =~= spec_seq_encoding(b) + s[i].spec_encoding());
    }
}

/// When the elements before `i` are all encodable and the element at `i` is
/// not, the error of the sequence is the error of the element at `i`.
pub proof fn lemma_seq_encode_err_at<T: BorshSerialize>(s: Seq<T>, i: int)
    requires
        0 <= i < s.len(),
        forall|j: int| 0 <= j < i ==> #[trigger] s[j].spec_encodable(),
        !s[i].spec_encodable(),
    ensures
        spec_seq_encode_err(s) == s[i].spec_encode_err(),
    decreases i,
{
    if i == 0 {
    } else {
        assert(s[0].spec_encodable());
        assert(forall|j: int| 0 <= j < i - 1 ==> #[trigger] s.drop_first()[j].spec_encodable());
        assert(s.drop_first()[i - 1] == s[i]);
        lemma_seq_encode_err_at(s.drop_first(), i - 1);
    }
}

/// Writes the elements of `v` in order, with no length prefix: the shared
/// payload step of dynamic sequences and fixed-size arrays.
pub(crate) fn serialize_elements<T: BorshSerialize, W: Write>(v: &Vec<T>, writer: &mut W) -> (r: Result<
    (),
    Error,
>)
    ensures
        final(writer).sink_ok() == old(writer).sink_ok(),
        match r {
            Ok(()) => spec_seq_encodable(v@) && final(writer).written() == old(writer).written()
                + spec_seq_encoding(v@),
            Err(e) => (!spec_seq_encodable(v@) && e == spec_seq_encode_err(v@)) || (e == Error::Io
                && !old(writer).sink_ok()),
        },
{
    let mut i: usize = 0;
    while i < v.len()
        invariant
            i <= v@.len(),
            writer.sink_ok() == old(writer).sink_ok(),
            writer.written() == old(writer).written() + spec_seq_encoding(v@.take(i as int)),
            forall|j: int| 0 <= j < i ==> #[trigger] v@[j].spec_encodable(),
        decreases v@.len() - i,
    {
        match v[i].serialize(writer) {
            Ok(()) => {},
            Err(e) => {
                proof {
                    if !v@[i as int].spec_encodable() {
                        lemma_seq_encode_err_at(v@, i as int);
                    }
                }
                return Err(e);
            },
        }
        proof {
            lemma_seq_encoding_take_succ(v@, i as int);
        }
        i = i + 1;
    }
    proof {
        assert(v@.take(v@.len() as int) =~= v@);
    }
    Ok(())
}

/// Writes the 4-byte little-endian length prefix of a collection of `len`
/// elements, rejecting a length that does not fit.
pub(crate) fn serialize_len_prefix<W: Write>(len: usize, writer: &mut W) -> (r: Result<(), Error>)
    ensures
        final(writer).sink_ok() == old(writer).sink_ok(),
        match r {
            Ok(()) => len <= u32::MAX && final(writer).written() == old(writer).written()
                + spec_u32_to_le_bytes(len as u32),
            Err(e) => (len > u32::MAX && e == Error::LengthTooLarge) || (e == Error::Io && !old(
                writer,
            ).sink_ok()),
        },
{
    if len > (u32::MAX as usize) {
        return Err(Error::LengthTooLarge);
    }
    let b = u32_to_le_bytes(len as u32);
    writer.write_all(b.as_slice())
}

impl BorshSerialize for u8 {
    open spec fn spec_encoding(&self) -> Seq<u8> {
        seq![*self]
    }

    open spec fn spec_encodable(&self) -> bool {
        true
    }

    open spec fn spec_encode_err(&self) -> Error {
        arbitrary()
    }

    fn serialize<W: Write>(&self, writer: &mut W) -> (r: Result<(), Error>) {
        let mut b: Vec<u8> = Vec::new();
        b.push(*self);
        writer.write_all(b.as_slice())
    }
}

impl BorshSerialize for u16 {
    open spec fn spec_encoding(&self) -> Seq<u8> {
        spec_u16_to_le_bytes(*self)
    }

    open spec fn spec_encodable(&self) -> bool {
        true
    }

    open spec fn spec_encode_err(&self) -> Error {
        arbitrary()
    }

    fn serialize<W: Write>(&self, writer: &mut W) -> (r: Result<(), Error>) {
        let b = u16_to_le_bytes(*self);
        writer.write_all(b.as_slice())
    }
}

impl BorshSerialize for u32 {
    open spec fn spec_encoding(&self) -> Seq<u8> {
        spec_u32_to_le_bytes(*self)
    }

    open spec fn spec_encodable(&self) -> bool {
        true
    }

    open spec fn spec_encode_err(&self) -> Error {
        arbitrary()
    }

    fn serialize<W: Write>(&self, writer: &mut W) -> (r: Result<(), Error>) {
        let b = u32_to_le_bytes(*self);
        writer.write_all(b.as_slice())
    }
}

impl BorshSerialize for u64 {
    open spec fn spec_encoding(&self) -> Seq<u8> {
        spec_u64_to_le_bytes(*self)
    }

    open spec fn spec_encodable(&self) -> bool {
        true
    }

    open spec fn spec_encode_err(&self) -> Error {
        arbitrary()
    }

    fn serialize<W: Write>(&self, writer: &mut W) -> (r: Result<(), Error>) {
        let b = u64_to_le_bytes(*self);
        writer.write_all(b.as_slice())
    }
}

impl BorshSerialize for u128 {
    open spec fn spec_encoding(&self) -> Seq<u8> {
        spec_u128_to_le_bytes(*self)
    }

    open spec fn spec_encodable(&self) -> bool {
        true
    }

    open spec fn spec_encode_err(&self) -> Error {
        arbitrary()
    }

    fn serialize<W: Write>(&self, writer: &mut W) -> (r: Result<(), Error>) {
        let b = u128_to_le_bytes(*self);
        writer.write_all(b.as_slice())
    }
}

impl BorshSerialize for i8 {
    open spec fn spec_encoding(&self) -> Seq<u8> {
        seq![*self as u8]
    }

    open spec fn spec_encodable(&self) -> bool {
        true
    }

    open spec fn spec_encode_err(&self) -> Error {
        arbitrary()
    }

    fn serialize<W: Write>(&self, writer: &mut W) -> (r: Result<(), Error>) {
        let mut b: Vec<u8> = Vec::new();
        b.push(*self as u8);
        writer.write_all(b.as_slice())
    }
}

impl BorshSerialize for i16 {
    open spec fn spec_encoding(&self) -> Seq<u8> {
        spec_u16_to_le_bytes(*self as u16)
    }

    open spec fn spec_encodable(&self) -> bool {
        true
    }

    open spec fn spec_encode_err(&self) -> Error {
        arbitrary()
    }

    fn serialize<W: Write>(&self, writer: &mut W) -> (r: Result<(), Error>) {
        let b = u16_to_le_bytes(*self as u16);
        writer.write_all(b.as_slice())
    }
}

impl BorshSerialize for i32 {
    open spec fn spec_encoding(&self) -> Seq<u8> {
        spec_u32_to_le_bytes(*self as u32)
    }

    open spec fn spec_encodable(&self) -> bool {
        true
    }

    open spec fn spec_encode_err(&self) -> Error {
        arbitrary()
    }

    fn serialize<W: Write>(&self, writer: &mut W) -> (r: Result<(), Error>) {
        let b = u32_to_le_bytes(*self as u32);
        writer.write_all(b.as_slice())
    }
}

impl BorshSerialize for i64 {
    open spec fn spec_encoding(&self) -> Seq<u8> {
        spec_u64_to_le_bytes(*self as u64)
    }

    open spec fn spec_encodable(&self) -> bool {
        true
    }

    open spec fn spec_encode_err(&self) -> Error {
        arbitrary()
    }

    fn serialize<W: Write>(&self, writer: &mut W) -> (r: Result<(), Error>) {
        let b = u64_to_le_bytes(*self as u64);
        writer.write_all(b.as_slice())
    }
}

impl BorshSerialize for i128 {
    open spec fn spec_encoding(&self) -> Seq<u8> {
        spec_u128_to_le_bytes(*self as u128)
    }

    open spec fn spec_encodable(&self) -> bool {
        true
    }

    open spec fn spec_encode_err(&self) -> Error {
        arbitrary()
    }

    fn serialize<W: Write>(&self, writer: &mut W) -> (r: Result<(), Error>) {
        let b = u128_to_le_bytes(*self as u128);
        writer.write_all(b.as_slice())
    }
}

/// Pointer-sized integers are canonicalized to a fixed 64-bit representation
/// on the wire, whatever the platform's native width.
impl BorshSerialize for usize {
    open spec fn spec_encoding(&self) -> Seq<u8> {
        spec_u64_to_le_bytes(*self as u64)
    }

    open spec fn spec_encodable(&self) -> bool {
        true
    }

    open spec fn spec_encode_err(&self) -> Error {
        arbitrary()
    }

    fn serialize<W: Write>(&self, writer: &mut W) -> (r: Result<(), Error>) {
        let b = u64_to_le_bytes(*self as u64);
        writer.write_all(b.as_slice())
    }
}

/// Pointer-sized integers are canonicalized to a fixed 64-bit representation
/// on the wire, whatever the platform's native width.
impl BorshSerialize for isize {
    open spec fn spec_encoding(&self) -> Seq<u8> {
        spec_u64_to_le_bytes((*self as i64) as u64)
    }

    open spec fn spec_encodable(&self) -> bool {
        true
    }

    open spec fn spec_encode_err(&self) -> Error {
        arbitrary()
    }

    fn serialize<W: Write>(&self, writer: &mut W) -> (r: Result<(), Error>) {
        let b = u64_to_le_bytes((*self as i64) as u64);
        writer.write_all(b.as_slice())
    }
}

impl BorshSerialize for bool {
    open spec fn spec_encoding(&self) -> Seq<u8> {
        seq![
            if *self {
                1u8
            } else {
                0u8
            },
        ]
    }

    open spec fn spec_encodable(&self) -> bool {
        true
    }

    open spec fn spec_encode_err(&self) -> Error {
        arbitrary()
    }

    fn serialize<W: Write>(&self, writer: &mut W) -> (r: Result<(), Error>) {
        let byte: u8 = if *self {
            1
        } else {
            0
        };
        byte.serialize(writer)
    }
}

/// The unit value occupies no bytes on the wire.
impl BorshSerialize for () {
    open spec fn spec_encoding(&self) -> Seq<u8> {
        Seq::empty()
    }

    open spec fn spec_encodable(&self) -> bool {
        true
    }

    open spec fn spec_encode_err(&self) -> Error {
        arbitrary()
    }

    fn serialize<W: Write>(&self, writer: &mut W) -> (r: Result<(), Error>) {
        proof {
            assert(final(writer).written() =~= old(writer).written() + self.spec_encoding());
        }
        Ok(())
    }
}

/// A marker occupies no bytes on the wire.
impl<T> BorshSerialize for core::marker::PhantomData<T> {
    open spec fn spec_encoding(&self) -> Seq<u8> {
        Seq::empty()
    }

    open spec fn spec_encodable(&self) -> bool {
        true
    }

    open spec fn spec_encode_err(&self) -> Error {
        arbitrary()
    }

    fn serialize<W: Write>(&self, writer: &mut W) -> (r: Result<(), Error>) {
        proof {
            assert(final(writer).written() =~= old(writer).written() + self.spec_encoding());
        }
        Ok(())
    }
}

/// A string is a dynamic sequence of its UTF-8 bytes: 4-byte length prefix,
/// then the bytes.
impl BorshSerialize for String {
    open spec fn spec_encoding(&self) -> Seq<u8> {
        spec_u32_to_le_bytes(encode_utf8(self@).len() as u32) + encode_utf8(self@)
    }

    open spec fn spec_encodable(&self) -> bool {
        encode_utf8(self@).len() <= u32::MAX
    }

    open spec fn spec_encode_err(&self) -> Error {
        Error::LengthTooLarge
    }

    fn serialize<W: Write>(&self, writer: &mut W) -> (r: Result<(), Error>) {
        let bytes = self.as_str().as_bytes();
        serialize_len_prefix(bytes.len(), writer)?;
        writer.write_all(bytes)
    }
}

/// An optional value: tag byte 0 for absent, 1 for present followed by the
/// inner value's bytes.
impl<T: BorshSerialize> BorshSerialize for Option<T> {
    open spec fn spec_encoding(&self) -> Seq<u8> {
        match self {
            None => seq![0u8],
            Some(v) => seq![1u8] + v.spec_encoding(),
        }
    }

    open spec fn spec_encodable(&self) -> bool {
        match self {
            None => true,
            Some(v) => v.spec_encodable(),
        }
    }

    open spec fn spec_encode_err(&self) -> Error {
        match self {
            None => arbitrary(),
            Some(v) => v.spec_encode_err(),
        }
    }

    fn serialize<W: Write>(&self, writer: &mut W) -> (r: Result<(), Error>) {
        match self {
            None => 0u8.serialize(writer),
            Some(v) => {
                1u8.serialize(writer)?;
                v.serialize(writer)
            },
        }
    }
}

/// A two-branch union: tag byte 0 for the failure branch, 1 for the success
/// branch, each followed by that branch's bytes. The branch order is part of
/// the wire format.
impl<T: BorshSerialize, E: BorshSerialize> BorshSerialize for Result<T, E> {
    open spec fn spec_encoding(&self) -> Seq<u8> {
        match self {
            Err(e) => seq![0u8] + e.spec_encoding(),
            Ok(v) => seq![1u8] + v.spec_encoding(),
        }
    }

    open spec fn spec_encodable(&self) -> bool {
        match self {
            Err(e) => e.spec_encodable(),
            Ok(v) => v.spec_encodable(),
        }
    }

    open spec fn spec_encode_err(&self) -> Error {
        match self {
            Err(e) => e.spec_encode_err(),
            Ok(v) => v.spec_encode_err(),
        }
    }

    fn serialize<W: Write>(&self, writer: &mut W) -> (r: Result<(), Error>) {
        match self {
            Err(e) => {
                0u8.serialize(writer)?;
                e.serialize(writer)
            },
            Ok(v) => {
                1u8.serialize(writer)?;
                v.serialize(writer)
            },
        }
    }
}

/// A dynamic sequence: 4-byte little-endian length prefix, then each
/// element's bytes in order. Sequences of zero-sized element types are
/// rejected, since their length could not be audited against any byte cost.
impl<T: BorshSerialize> BorshSerialize for Vec<T> {
    open spec fn spec_encoding(&self) -> Seq<u8> {
        spec_u32_to_le_bytes(self@.len() as u32) + spec_seq_encoding(self@)
    }

    open spec fn spec_encodable(&self) -> bool {
        &&& !T::spec_zero_sized()
        &&& self@.len() <= u32::MAX
        &&& spec_seq_encodable(self@)
    }

    open spec fn spec_encode_err(&self) -> Error {
        if T::spec_zero_sized() {
            Error::ZeroSizedElement
        } else if self@.len() > u32::MAX {
            Error::LengthTooLarge
        } else {
            spec_seq_encode_err(self@)
        }
    }

    fn serialize<W: Write>(&self, writer: &mut W) -> (r: Result<(), Error>) {
        if T::zero_sized() {
            return Err(Error::ZeroSizedElement);
        }
        serialize_len_prefix(self.len(), writer)?;
        serialize_elements(self, writer)
    }
}


/// An insertion-ordered sequence: the same wire format as a dynamic
/// sequence, written in its own order.
impl<T: BorshSerialize> BorshSerialize for std::collections::VecDeque<T> {
    open spec fn spec_encoding(&self) -> Seq<u8> {
        spec_u32_to_le_bytes(self@.len() as u32) + spec_seq_encoding(self@)
    }

    open spec fn spec_encodable(&self) -> bool {
        &&& !T::spec_zero_sized()
        &&& self@.len() <= u32::MAX
        &&& spec_seq_encodable(self@)
    }

    open spec fn spec_encode_err(&self) -> Error {
        if T::spec_zero_sized() {
            Error::ZeroSizedElement
        } else if self@.len() > u32::MAX {
            Error::LengthTooLarge
        } else {
            spec_seq_encode_err(self@)
        }
    }

    fn serialize<W: Write>(&self, writer: &mut W) -> (r: Result<(), Error>) {
        if T::zero_sized() {
            return Err(Error::ZeroSizedElement);
        }
        serialize_len_prefix(self.len(), writer)?;
        let mut i: usize = 0;
        while i < self.len()
            invariant
                i <= self@.len(),
                writer.sink_ok() == old(writer).sink_ok(),
                writer.written() == old(writer).written() + spec_u32_to_le_bytes(
                    self@.len() as u32,
                ) + spec_seq_encoding(self@.take(i as int)),
                !T::spec_zero_sized(),
                self@.len() <= u32::MAX,
                forall|j: int| 0 <= j < i ==> #[trigger] self@[j].spec_encodable(),
            decreases self@.len() - i,
        {
            match self[i].serialize(writer) {
                Ok(()) => {},
                Err(e) => {
                    proof {
                        if !self@[i as int].spec_encodable() {
                            lemma_seq_encode_err_at(self@, i as int);
                        }
                    }
                    return Err(e);
                },
            }
            proof {
                lemma_seq_encoding_take_succ(self@, i as int);
            }
            i = i + 1;
        }
        proof {
            assert(self@.take(self@.len() as int) =~= self@);
        }
        Ok(())
    }
}

/// A fixed-size array: each element's bytes in order, with no length prefix.
impl<T: BorshSerialize, const N: usize> BorshSerialize for [T; N] {
    open spec fn spec_encoding(&self) -> Seq<u8> {
        spec_seq_encoding(self@)
    }

    open spec fn spec_encodable(&self) -> bool {
        spec_seq_encodable(self@)
    }

    open spec fn spec_encode_err(&self) -> Error {
        spec_seq_encode_err(self@)
    }

    fn serialize<W: Write>(&self, writer: &mut W) -> (r: Result<(), Error>) {
        let s = self.as_slice();
        let mut i: usize = 0;
        while i < s.len()
            invariant
                i <= s@.len(),
                s@ == self@,
                writer.sink_ok() == old(writer).sink_ok(),
                writer.written() == old(writer).written() + spec_seq_encoding(s@.take(i as int)),
                forall|j: int| 0 <= j < i ==> #[trigger] s@[j].spec_encodable(),
            decreases s@.len() - i,
        {
            match s[i].serialize(writer) {
                Ok(()) => {},
                Err(e) => {
                    proof {
                        if !s@[i as int].spec_encodable() {
                            lemma_seq_encode_err_at(s@, i as int);
                        }
                    }
                    return Err(e);
                },
            }
            proof {
                lemma_seq_encoding_take_succ(s@, i as int);
            }
            i = i + 1;
        }
        proof {
            assert(s@.take(s@.len() as int) =~= s@);
        }
        Ok(())
    }
}

/// A pair of fields, written in order with no padding: the product-type
/// delegation contract at its smallest.
impl<T0: BorshSerialize, T1: BorshSerialize> BorshSerialize for (T0, T1) {
    open spec fn spec_encoding(&self) -> Seq<u8> {
        self.0.spec_encoding() + self.1.spec_encoding()
    }

    open spec fn spec_encodable(&self) -> bool {
        self.0.spec_encodable() && self.1.spec_encodable()
    }

    open spec fn spec_encode_err(&self) -> Error {
        if !self.0.spec_encodable() {
            self.0.spec_encode_err()
        } else {
            self.1.spec_encode_err()
        }
    }

    fn serialize<W: Write>(&self, writer: &mut W) -> (r: Result<(), Error>) {
        self.0.serialize(writer)?;
        self.1.serialize(writer)
    }
}

/// Three fields, written in order with no padding.
impl<T0: BorshSerialize, T1: BorshSerialize, T2: BorshSerialize> BorshSerialize for (T0, T1, T2) {
    open spec fn spec_encoding(&self) -> Seq<u8> {
        self.0.spec_encoding() + self.1.spec_encoding() + self.2.spec_encoding()
    }

    open spec fn spec_encodable(&self) -> bool {
        self.0.spec_encodable() && self.1.spec_encodable() && self.2.spec_encodable()
    }

    open spec fn spec_encode_err(&self) -> Error {
        if !self.0.spec_encodable() {
            self.0.spec_encode_err()
        } else if !self.1.spec_encodable() {
            self.1.spec_encode_err()
        } else {
            self.2.spec_encode_err()
        }
    }

    fn serialize<W: Write>(&self, writer: &mut W) -> (r: Result<(), Error>) {
        self.0.serialize(writer)?;
        self.1.serialize(writer)?;
        self.2.serialize(writer)
    }
}

/// A shared reference serializes as what it points at.
impl<'a, T: BorshSerialize> BorshSerialize for &'a T {
    open spec fn spec_encoding(&self) -> Seq<u8> {
        (**self).spec_encoding()
    }

    open spec fn spec_encodable(&self) -> bool {
        (**self).spec_encodable()
    }

    open spec fn spec_encode_err(&self) -> Error {
        (**self).spec_encode_err()
    }

    fn serialize<W: Write>(&self, writer: &mut W) -> (r: Result<(), Error>) {
        (**self).serialize(writer)
    }
}


/// A half-open interval writes its start then its end, like any two fields.
impl<T: BorshSerialize> BorshSerialize for core::ops::Range<T> {
    open spec fn spec_encoding(&self) -> Seq<u8> {
        self.start.spec_encoding() + self.end.spec_encoding()
    }

    open spec fn spec_encodable(&self) -> bool {
        self.start.spec_encodable() && self.end.spec_encodable()
    }

    open spec fn spec_encode_err(&self) -> Error {
        if !self.start.spec_encodable() {
            self.start.spec_encode_err()
        } else {
            self.end.spec_encode_err()
        }
    }

    fn serialize<W: Write>(&self, writer: &mut W) -> (r: Result<(), Error>) {
        self.start.serialize(writer)?;
        self.end.serialize(writer)
    }
}

/// A heap-indirection wrapper contributes no bytes of its own.
impl<T: BorshSerialize> BorshSerialize for Box<T> {
    open spec fn spec_encoding(&self) -> Seq<u8> {
        (**self).spec_encoding()
    }

    open spec fn spec_encodable(&self) -> bool {
        (**self).spec_encodable()
    }

    open spec fn spec_encode_err(&self) -> Error {
        (**self).spec_encode_err()
    }

    fn serialize<W: Write>(&self, writer: &mut W) -> (r: Result<(), Error>) {
        (**self).serialize(writer)
    }
}

/// A shared-ownership wrapper serializes a copy of its contents each time
/// it is referenced; nothing is deduplicated.
impl<T: BorshSerialize> BorshSerialize for std::rc::Rc<T> {
    open spec fn spec_encoding(&self) -> Seq<u8> {
        (**self).spec_encoding()
    }

    open spec fn spec_encodable(&self) -> bool {
        (**self).spec_encodable()
    }

    open spec fn spec_encode_err(&self) -> Error {
        (**self).spec_encode_err()
    }

    fn serialize<W: Write>(&self, writer: &mut W) -> (r: Result<(), Error>) {
        (**self).serialize(writer)
    }
}

/// A shared-ownership wrapper serializes a copy of its contents each time
/// it is referenced; nothing is deduplicated.
impl<T: BorshSerialize> BorshSerialize for std::sync::Arc<T> {
    open spec fn spec_encoding(&self) -> Seq<u8> {
        (**self).spec_encoding()
    }

    open spec fn spec_encodable(&self) -> bool {
        (**self).spec_encodable()
    }

    open spec fn spec_encode_err(&self) -> Error {
        (**self).spec_encode_err()
    }

    fn serialize<W: Write>(&self, writer: &mut W) -> (r: Result<(), Error>) {
        (**self).serialize(writer)
    }
}

/// Serializes `value` into a fresh byte vector: the canonical bytes of the
/// value, exactly.
pub fn to_vec<T: BorshSerialize>(value: &T) -> (r: Result<Vec<u8>, Error>)
    ensures
        match r {
            Ok(v) => value.spec_encodable() && v@ == value.spec_encoding(),
            Err(e) => !value.spec_encodable() && e == value.spec_encode_err(),
        },
{
    let mut out: Vec<u8> = Vec::new();
    match value.serialize(&mut out) {
        Ok(()) => Ok(out),
        Err(e) => Err(e),
    }
}

/// Serializes `value` into an abstract byte sink.
pub fn to_writer<T: BorshSerialize, W: Write>(value: &T, writer: &mut W) -> (r: Result<(), Error>)
    ensures
        final(writer).sink_ok() == old(writer).sink_ok(),
        match r {
            Ok(()) => value.spec_encodable() && final(writer).written() == old(writer).written()
                + value.spec_encoding(),
            Err(e) => (!value.spec_encodable() && e == value.spec_encode_err()) || (e == Error::Io
                && !old(writer).sink_ok()),
        },
{
    value.serialize(writer)
}

} // verus!
