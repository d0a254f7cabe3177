//! The codec for byte-buffer and object-id types of companion crates.
//!
//! These types are opaque to the verifier, so each is given a name for what
//! it holds, and small trusted accessors carry values across the boundary;
//! the wire logic itself is verified against those names.

use vstd::prelude::*;
use crate::error::Error;
use crate::io::Read;
use crate::io::Write;
use crate::model::Model;
use crate::ser::BorshSerialize;
use crate::ser::serialize_len_prefix;
use crate::de::BorshDeserialize;
use crate::de::read_bytes_bounded;

verus! {

use vstd::bytes::spec_u32_to_le_bytes;

#[verifier::external_type_specification]
#[verifier::external_body]
pub struct ExBytes(bytes::Bytes);

#[verifier::external_type_specification]
#[verifier::external_body]
pub struct ExBytesMut(bytes::BytesMut);

#[verifier::external_type_specification]
#[verifier::external_body]
pub struct ExObjectId(bson::oid::ObjectId);

/// What a shared byte buffer holds.
pub uninterp spec fn bytes_content(b: bytes::Bytes) -> Seq<u8>;

/// What a mutable byte buffer holds.
pub uninterp spec fn bytes_mut_content(b: bytes::BytesMut) -> Seq<u8>;

/// The raw 12-byte representation that an object id wraps.
pub uninterp spec fn object_id_content(o: bson::oid::ObjectId) -> Seq<u8>;

/// Relies on `Bytes::as_ref` through `AsRef<[u8]>`: the slice of the
/// buffer's contents.
#[verifier::external_body]
fn bytes_as_slice(b: &bytes::Bytes) -> (r: &[u8])
    ensures
        r@ == bytes_content(*b),
{
    b.as_ref()
}

/// Relies on `From<Vec<u8>> for Bytes`: the buffer takes over exactly the
/// vector's bytes.
#[verifier::external_body]
fn bytes_from_vec(v: Vec<u8>) -> (r: bytes::Bytes)
    ensures
        bytes_content(r) == v@,
{
    bytes::Bytes::from(v)
}

/// Relies on `BytesMut::as_ref` through `AsRef<[u8]>`: the slice of the
/// buffer's contents.
#[verifier::external_body]
fn bytes_mut_as_slice(b: &bytes::BytesMut) -> (r: &[u8])
    ensures
        r@ == bytes_mut_content(*b),
{
    b.as_ref()
}

/// Relies on `From<&[u8]> for BytesMut`: the buffer copies exactly the
/// slice's bytes.
#[verifier::external_body]
fn bytes_mut_from_slice(v: &[u8]) -> (r: bytes::BytesMut)
    ensures
        bytes_mut_content(r) == v@,
{
    bytes::BytesMut::from(v)
}

/// Relies on `ObjectId::bytes`: the raw 12-byte representation the id was
/// built from.
#[verifier::external_body]
fn object_id_bytes(o: &bson::oid::ObjectId) -> (r: [u8; 12])
    ensures
        r@ == object_id_content(*o),
{
    o.bytes()
}

/// Relies on `ObjectId::from_bytes`: wraps the raw 12-byte representation,
/// which `ObjectId::bytes` returns back unchanged.
#[verifier::external_body]
fn object_id_from_bytes(b: [u8; 12]) -> (r: bson::oid::ObjectId)
    ensures
        object_id_content(r) == b@,
{
    bson::oid::ObjectId::from_bytes(b)
}

impl Model for bytes::Bytes {
    type V = Seq<u8>;

    open spec fn model(&self) -> Seq<u8> {
        bytes_content(*self)
    }

    open spec fn spec_zero_sized() -> bool {
        false
    }

    fn zero_sized() -> bool {
        false
    }
}

impl Model for bytes::BytesMut {
    type V = Seq<u8>;

    open spec fn model(&self) -> Seq<u8> {
        bytes_mut_content(*self)
    }

    open spec fn spec_zero_sized() -> bool {
        false
    }

    fn zero_sized() -> bool {
        false
    }
}

impl Model for bson::oid::ObjectId {
    type V = Seq<u8>;

    open spec fn model(&self) -> Seq<u8> {
        object_id_content(*self)
    }

    open spec fn spec_zero_sized() -> bool {
        false
    }

    fn zero_sized() -> bool {
        false
    }
}

/// A shared byte buffer is a dynamic sequence of raw bytes on the wire.
impl BorshSerialize for bytes::Bytes {
    open spec fn spec_encoding(&self) -> Seq<u8> {
        spec_u32_to_le_bytes(bytes_content(*self).len() as u32) + bytes_content(*self)
    }

    open spec fn spec_encodable(&self) -> bool {
        bytes_content(*self).len() <= u32::MAX
    }

    open spec fn spec_encode_err(&self) -> Error {
        Error::LengthTooLarge
    }

    fn serialize<W: Write>(&self, writer: &mut W) -> (r: Result<(), Error>) {
        let s = bytes_as_slice(self);
        serialize_len_prefix(s.len(), writer)?;
        writer.write_all(s)
    }
}

/// A mutable byte buffer is a dynamic sequence of raw bytes on the wire.
impl BorshSerialize for bytes::BytesMut {
    open spec fn spec_encoding(&self) -> Seq<u8> {
        spec_u32_to_le_bytes(bytes_mut_content(*self).len() as u32) + bytes_mut_content(*self)
    }

    open spec fn spec_encodable(&self) -> bool {
        bytes_mut_content(*self).len() <= u32::MAX
    }

    open spec fn spec_encode_err(&self) -> Error {
        Error::LengthTooLarge
    }

    fn serialize<W: Write>(&self, writer: &mut W) -> (r: Result<(), Error>) {
        let s = bytes_mut_as_slice(self);
        serialize_len_prefix(s.len(), writer)?;
        writer.write_all(s)
    }
}

/// An object id is its raw 12 bytes on the wire, with no length prefix: the
/// size is static.
impl BorshSerialize for bson::oid::ObjectId {
    open spec fn spec_encoding(&self) -> Seq<u8> {
        object_id_content(*self)
    }

    open spec fn spec_encodable(&self) -> bool {
        true
    }

    open spec fn spec_encode_err(&self) -> Error {
        arbitrary()
    }

    fn serialize<W: Write>(&self, writer: &mut W) -> (r: Result<(), Error>) {
        let b = object_id_bytes(self);
        writer.write_all(b.as_slice())
    }
}

/// Reads a shared byte buffer back: a dynamic sequence of raw bytes, pulled
/// through the resource-bounded reader.
pub fn deserialize_bytes<R: Read>(reader: &mut R) -> (r: Result<bytes::Bytes, Error>)
    ensures
        final(reader).source_ok() == old(reader).source_ok(),
        match r {
            Ok(b) => match <Vec<u8> as BorshDeserialize>::spec_decode(old(reader).readable()) {
                Some((m, n)) => bytes_content(b) == m && final(reader).readable() == old(
                    reader,
                ).readable().skip(n),
                None => false,
            },
            Err(e) => (<Vec<u8> as BorshDeserialize>::spec_decode(old(reader).readable()) is None
                && e == <Vec<u8> as BorshDeserialize>::spec_decode_err(old(reader).readable()))
                || (e == Error::Io && !old(reader).source_ok()),
        },
{
    let v = Vec::<u8>::deserialize_reader(reader)?;
    proof {
        assert(v.model() =~= v@);
    }
    Ok(bytes_from_vec(v))
}

/// Reads a mutable byte buffer back: a dynamic sequence of raw bytes.
pub fn deserialize_bytes_mut<R: Read>(reader: &mut R) -> (r: Result<bytes::BytesMut, Error>)
    ensures
        final(reader).source_ok() == old(reader).source_ok(),
        match r {
            Ok(b) => match <Vec<u8> as BorshDeserialize>::spec_decode(old(reader).readable()) {
                Some((m, n)) => bytes_mut_content(b) == m && final(reader).readable() == old(
                    reader,
                ).readable().skip(n),
                None => false,
            },
            Err(e) => (<Vec<u8> as BorshDeserialize>::spec_decode(old(reader).readable()) is None
                && e == <Vec<u8> as BorshDeserialize>::spec_decode_err(old(reader).readable()))
                || (e == Error::Io && !old(reader).source_ok()),
        },
{
    let v = Vec::<u8>::deserialize_reader(reader)?;
    proof {
        assert(v.model() =~= v@);
    }
    Ok(bytes_mut_from_slice(v.as_slice()))
}

/// Reads an object id back: its raw 12 bytes, with no length prefix.
pub fn deserialize_object_id<R: Read>(reader: &mut R) -> (r: Result<bson::oid::ObjectId, Error>)
    ensures
        final(reader).source_ok() == old(reader).source_ok(),
        match r {
            Ok(o) => {
                &&& old(reader).readable().len() >= 12
                &&& object_id_content(o) == old(reader).readable().take(12)
                &&& final(reader).readable() == old(reader).readable().skip(12)
            },
            Err(e) => (old(reader).readable().len() < 12 && e == Error::UnexpectedLengthOfInput)
                || (e == Error::Io && !old(reader).source_ok()),
        },
{
    let b = crate::de::read_exact_or_short(reader, 12)?;
    let arr = crate::de::vec_into_array::<u8, 12>(b);
    Ok(object_id_from_bytes(arr))
}

} // verus!
