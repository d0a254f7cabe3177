//! The laws that tie encoding and decoding together.
//!
//! Every supported type proves that decoding inverts encoding: a stream that
//! begins with a value's canonical bytes reads back as that value's content,
//! consuming exactly those bytes. Injectivity of the encoding follows.

use vstd::prelude::*;
use crate::model::Model;
use crate::ser::BorshSerialize;
use crate::ser::spec_seq_encoding;
use crate::ser::spec_seq_encodable;
use crate::de::BorshDeserialize;
use crate::de::spec_decode_elems;

verus! {

use vstd::bytes::*;
use vstd::utf8::encode_utf8;
use vstd::utf8::encode_utf8_valid_utf8;
use vstd::utf8::encode_utf8_decode_utf8;

/// A type whose decode provably inverts its encode.
///
/// The law: for every encodable value and every continuation of the stream,
/// decoding `encoding + rest` succeeds, yields the value's content, and
/// consumes exactly the encoding. This is the round-trip property, stated
/// once per type and proved by structural induction through the impls.
pub trait RoundTrip: BorshSerialize + BorshDeserialize {
    /// Decoding any stream that begins with this value's encoding yields
    /// this value's content and consumes exactly the encoding.
    proof fn lemma_round_trip(&self, rest: Seq<u8>)
        requires
            self.spec_encodable(),
        ensures
            Self::spec_decode(self.spec_encoding() + rest) == Some(
                (self.model(), self.spec_encoding().len() as int),
            ),
    ;
}

/// Decoding a value's exact canonical bytes yields that value's content and
/// consumes the whole buffer: the whole-buffer round trip.
pub proof fn lemma_round_trip_exact<T: RoundTrip>(v: &T)
    requires
        v.spec_encodable(),
    ensures
        T::spec_decode(v.spec_encoding()) == Some((v.model(), v.spec_encoding().len() as int)),
{
    v.lemma_round_trip(Seq::empty());
    assert(v.spec_encoding() + Seq::<u8>::empty() =~= v.spec_encoding());
}

/// The canonical encoding is injective: two encodable values with the same
/// byte image have the same content. No two distinct values share bytes.
pub proof fn lemma_encoding_injective<T: RoundTrip>(a: &T, b: &T)
    requires
        a.spec_encodable(),
        b.spec_encodable(),
        a.spec_encoding() == b.spec_encoding(),
    ensures
        a.model() == b.model(),
{
    lemma_round_trip_exact(a);
    lemma_round_trip_exact(b);
}

/// The contents of the elements of `s`, in order.
pub open spec fn spec_seq_models<T: Model>(s: Seq<T>) -> Seq<T::V> {
    Seq::new(s.len(), |i: int| s[i].model())
}

/// The element-sequence round trip: parsing `count` elements from the
/// concatenation of their encodings yields their contents and consumes
/// exactly those bytes.
pub proof fn lemma_seq_round_trip<T: RoundTrip>(v: Seq<T>, rest: Seq<u8>)
    requires
        spec_seq_encodable(v),
    ensures
        spec_decode_elems::<T>(spec_seq_encoding(v) + rest, v.len() as nat) == Some(
            (spec_seq_models(v), spec_seq_encoding(v).len() as int),
        ),
    decreases v.len(),
{
    let s = spec_seq_encoding(v) + rest;
    if v.len() == 0 {
        assert(spec_seq_encoding(v) =~= Seq::<u8>::empty());
        assert(spec_seq_models(v) =~= Seq::<T::V>::empty());
    } else {
        let hd = v[0];
        let tl = v.drop_first();
        assert(spec_seq_encoding(v) == hd.spec_encoding() + spec_seq_encoding(tl));
        assert(s =~= hd.spec_encoding() + (spec_seq_encoding(tl) + rest));
        hd.lemma_round_trip(spec_seq_encoding(tl) + rest);
        let n0 = hd.spec_encoding().len() as int;
        assert(s.skip(n0) =~= spec_seq_encoding(tl) + rest);
        assert(spec_seq_encodable(tl)) by {
            assert forall|j: int| 0 <= j < tl.len() implies #[trigger] tl[j].spec_encodable() by {
                assert(tl[j] == v[j + 1]);
            }
        }
        lemma_seq_round_trip(tl, rest);
        assert(seq![hd.model()] + spec_seq_models(tl) =~= spec_seq_models(v));
    }
}

impl RoundTrip for u8 {
    proof fn lemma_round_trip(&self, rest: Seq<u8>) {
        assert((self.spec_encoding() + rest)[0] == *self);
    }
}

impl RoundTrip for u16 {
    proof fn lemma_round_trip(&self, rest: Seq<u8>) {
        lemma_auto_spec_u16_to_from_le_bytes();
        assert((self.spec_encoding() + rest).take(2) =~= self.spec_encoding());
    }
}

impl RoundTrip for u32 {
    proof fn lemma_round_trip(&self, rest: Seq<u8>) {
        lemma_auto_spec_u32_to_from_le_bytes();
        assert((self.spec_encoding() + rest).take(4) =~= self.spec_encoding());
    }
}

impl RoundTrip for u64 {
    proof fn lemma_round_trip(&self, rest: Seq<u8>) {
        lemma_auto_spec_u64_to_from_le_bytes();
        assert((self.spec_encoding() + rest).take(8) =~= self.spec_encoding());
    }
}

impl RoundTrip for u128 {
    proof fn lemma_round_trip(&self, rest: Seq<u8>) {
        lemma_auto_spec_u128_to_from_le_bytes();
        assert((self.spec_encoding() + rest).take(16) =~= self.spec_encoding());
    }
}

impl RoundTrip for i8 {
    proof fn lemma_round_trip(&self, rest: Seq<u8>) {
        assert((self.spec_encoding() + rest)[0] == *self as u8);
        let x = *self;
        assert((x as u8) as i8 == x) by (bit_vector);
    }
}

impl RoundTrip for i16 {
    proof fn lemma_round_trip(&self, rest: Seq<u8>) {
        lemma_auto_spec_u16_to_from_le_bytes();
        assert((self.spec_encoding() + rest).take(2) =~= self.spec_encoding());
        let x = *self;
        assert((x as u16) as i16 == x) by (bit_vector);
    }
}

impl RoundTrip for i32 {
    proof fn lemma_round_trip(&self, rest: Seq<u8>) {
        lemma_auto_spec_u32_to_from_le_bytes();
        assert((self.spec_encoding() + rest).take(4) =~= self.spec_encoding());
        let x = *self;
        assert((x as u32) as i32 == x) by (bit_vector);
    }
}

impl RoundTrip for i64 {
    proof fn lemma_round_trip(&self, rest: Seq<u8>) {
        lemma_auto_spec_u64_to_from_le_bytes();
        assert((self.spec_encoding() + rest).take(8) =~= self.spec_encoding());
        let x = *self;
        assert((x as u64) as i64 == x) by (bit_vector);
    }
}

impl RoundTrip for i128 {
    proof fn lemma_round_trip(&self, rest: Seq<u8>) {
        lemma_auto_spec_u128_to_from_le_bytes();
        assert((self.spec_encoding() + rest).take(16) =~= self.spec_encoding());
        let x = *self;
        assert((x as u128) as i128 == x) by (bit_vector);
    }
}

impl RoundTrip for usize {
    proof fn lemma_round_trip(&self, rest: Seq<u8>) {
        lemma_auto_spec_u64_to_from_le_bytes();
        assert((self.spec_encoding() + rest).take(8) =~= self.spec_encoding());
        assert(*self as u64 <= usize::MAX as u64);
        assert((*self as u64) as usize == *self);
    }
}

impl RoundTrip for isize {
    proof fn lemma_round_trip(&self, rest: Seq<u8>) {
        lemma_auto_spec_u64_to_from_le_bytes();
        assert((self.spec_encoding() + rest).take(8) =~= self.spec_encoding());
        let y = *self as i64;
        assert((y as u64) as i64 == y) by (bit_vector);
        assert(isize::MIN as i64 <= y <= isize::MAX as i64);
        assert((*self as i64) as isize == *self);
    }
}

impl RoundTrip for bool {
    proof fn lemma_round_trip(&self, rest: Seq<u8>) {
        assert((self.spec_encoding() + rest)[0] == self.spec_encoding()[0]);
    }
}

impl RoundTrip for () {
    proof fn lemma_round_trip(&self, rest: Seq<u8>) {
    }
}

impl<T> RoundTrip for core::marker::PhantomData<T> {
    proof fn lemma_round_trip(&self, rest: Seq<u8>) {
    }
}

impl RoundTrip for String {
    proof fn lemma_round_trip(&self, rest: Seq<u8>) {
        lemma_auto_spec_u32_to_from_le_bytes();
        let b = encode_utf8(self@);
        let blen = b.len() as int;
        let s = self.spec_encoding() + rest;
        assert(s.take(4) =~= spec_u32_to_le_bytes(b.len() as u32));
        assert(spec_u32_from_le_bytes(s.take(4)) as int == blen);
        assert(s.skip(4).take(blen) =~= b);
        encode_utf8_valid_utf8(self@);
        encode_utf8_decode_utf8(self@);
    }
}

impl<T: RoundTrip> RoundTrip for Option<T> {
    proof fn lemma_round_trip(&self, rest: Seq<u8>) {
        let s = self.spec_encoding() + rest;
        match self {
            None => {
                assert(s[0] == 0);
            },
            Some(v) => {
                assert(s[0] == 1);
                assert(s.skip(1) =~= v.spec_encoding() + rest);
                v.lemma_round_trip(rest);
            },
        }
    }
}

impl<T: RoundTrip, E: RoundTrip> RoundTrip for Result<T, E> {
    proof fn lemma_round_trip(&self, rest: Seq<u8>) {
        let s = self.spec_encoding() + rest;
        match self {
            Err(e) => {
                assert(s[0] == 0);
                assert(s.skip(1) =~= e.spec_encoding() + rest);
                e.lemma_round_trip(rest);
            },
            Ok(v) => {
                assert(s[0] == 1);
                assert(s.skip(1) =~= v.spec_encoding() + rest);
                v.lemma_round_trip(rest);
            },
        }
    }
}

impl<T: RoundTrip> RoundTrip for Vec<T> {
    proof fn lemma_round_trip(&self, rest: Seq<u8>) {
        lemma_auto_spec_u32_to_from_le_bytes();
        let s = self.spec_encoding() + rest;
        assert(s.take(4) =~= spec_u32_to_le_bytes(self@.len() as u32));
        assert(spec_u32_from_le_bytes(s.take(4)) as nat == self@.len());
        assert(s.skip(4) =~= spec_seq_encoding(self@) + rest);
        lemma_seq_round_trip(self@, rest);
        assert(self.model() =~= spec_seq_models(self@));
    }
}


impl<T: RoundTrip> RoundTrip for std::collections::VecDeque<T> {
    proof fn lemma_round_trip(&self, rest: Seq<u8>) {
        lemma_auto_spec_u32_to_from_le_bytes();
        let s = self.spec_encoding() + rest;
        assert(s.take(4) =~= spec_u32_to_le_bytes(self@.len() as u32));
        assert(spec_u32_from_le_bytes(s.take(4)) as nat == self@.len());
        assert(s.skip(4) =~= spec_seq_encoding(self@) + rest);
        lemma_seq_round_trip(self@, rest);
        assert(self.model() =~= spec_seq_models(self@));
    }
}

impl<T: RoundTrip, const N: usize> RoundTrip for [T; N] {
    proof fn lemma_round_trip(&self, rest: Seq<u8>) {
        lemma_seq_round_trip(self@, rest);
        assert(self.model() =~= spec_seq_models(self@));
    }
}

impl<T: RoundTrip> RoundTrip for Box<T> {
    proof fn lemma_round_trip(&self, rest: Seq<u8>) {
        (**self).lemma_round_trip(rest);
    }
}

impl<T: RoundTrip> RoundTrip for std::rc::Rc<T> {
    proof fn lemma_round_trip(&self, rest: Seq<u8>) {
        (**self).lemma_round_trip(rest);
    }
}

impl<T: RoundTrip> RoundTrip for std::sync::Arc<T> {
    proof fn lemma_round_trip(&self, rest: Seq<u8>) {
        (**self).lemma_round_trip(rest);
    }
}


impl<T: RoundTrip> RoundTrip for core::ops::Range<T> {
    proof fn lemma_round_trip(&self, rest: Seq<u8>) {
        let s = self.spec_encoding() + rest;
        assert(s =~= self.start.spec_encoding() + (self.end.spec_encoding() + rest));
        self.start.lemma_round_trip(self.end.spec_encoding() + rest);
        let n0 = self.start.spec_encoding().len() as int;
        assert(s.skip(n0) =~= self.end.spec_encoding() + rest);
        self.end.lemma_round_trip(rest);
    }
}

impl<T0: RoundTrip, T1: RoundTrip> RoundTrip for (T0, T1) {
    proof fn lemma_round_trip(&self, rest: Seq<u8>) {
        let s = self.spec_encoding() + rest;
        assert(s =~= self.0.spec_encoding() + (self.1.spec_encoding() + rest));
        self.0.lemma_round_trip(self.1.spec_encoding() + rest);
        let n0 = self.0.spec_encoding().len() as int;
        assert(s.skip(n0) =~= self.1.spec_encoding() + rest);
        self.1.lemma_round_trip(rest);
    }
}

impl<T0: RoundTrip, T1: RoundTrip, T2: RoundTrip> RoundTrip for (T0, T1, T2) {
    proof fn lemma_round_trip(&self, rest: Seq<u8>) {
        let s = self.spec_encoding() + rest;
        assert(s =~= self.0.spec_encoding() + (self.1.spec_encoding() + (self.2.spec_encoding()
            + rest)));
        self.0.lemma_round_trip(self.1.spec_encoding() + (self.2.spec_encoding() + rest));
        let n0 = self.0.spec_encoding().len() as int;
        assert(s.skip(n0) =~= self.1.spec_encoding() + (self.2.spec_encoding() + rest));
        self.1.lemma_round_trip(self.2.spec_encoding() + rest);
        let n1 = self.1.spec_encoding().len() as int;
        assert(s.skip(n0).skip(n1) =~= self.2.spec_encoding() + rest);
        assert(s.skip(n0 + n1) =~= s.skip(n0).skip(n1));
        self.2.lemma_round_trip(rest);
    }
}

} // verus!
