//! The mathematical content of each supported type.
//!
//! Contracts about decoding cannot speak of heap values like `String` or
//! `Vec` directly, so every supported type names an abstract value — its
//! model — and says what a decoded value's model is. For primitives the
//! model is the value itself; for containers it is built from the models of
//! the contents.

use vstd::prelude::*;

verus! {

/// The abstract content of a value: what the codec preserves.
pub trait Model: Sized {
    /// The type of this type's abstract content.
    type V;

    /// The abstract content of this value.
    spec fn model(&self) -> Self::V;

    /// True when every value of this type encodes to the empty byte string.
    spec fn spec_zero_sized() -> bool;

    /// Runtime witness of [`Self::spec_zero_sized`].
    fn zero_sized() -> (b: bool)
        ensures
            b == Self::spec_zero_sized(),
    ;
}

impl Model for u8 {
    type V = u8;

    open spec fn model(&self) -> u8 {
        *self
    }

    open spec fn spec_zero_sized() -> bool {
        false
    }

    fn zero_sized() -> bool {
        false
    }
}

impl Model for u16 {
    type V = u16;

    open spec fn model(&self) -> u16 {
        *self
    }

    open spec fn spec_zero_sized() -> bool {
        false
    }

    fn zero_sized() -> bool {
        false
    }
}

impl Model for u32 {
    type V = u32;

    open spec fn model(&self) -> u32 {
        *self
    }

    open spec fn spec_zero_sized() -> bool {
        false
    }

    fn zero_sized() -> bool {
        false
    }
}

impl Model for u64 {
    type V = u64;

    open spec fn model(&self) -> u64 {
        *self
    }

    open spec fn spec_zero_sized() -> bool {
        false
    }

    fn zero_sized() -> bool {
        false
    }
}

impl Model for u128 {
    type V = u128;

    open spec fn model(&self) -> u128 {
        *self
    }

    open spec fn spec_zero_sized() -> bool {
        false
    }

    fn zero_sized() -> bool {
        false
    }
}

impl Model for i8 {
    type V = i8;

    open spec fn model(&self) -> i8 {
        *self
    }

    open spec fn spec_zero_sized() -> bool {
        false
    }

    fn zero_sized() -> bool {
        false
    }
}

impl Model for i16 {
    type V = i16;

    open spec fn model(&self) -> i16 {
        *self
    }

    open spec fn spec_zero_sized() -> bool {
        false
    }

    fn zero_sized() -> bool {
        false
    }
}

impl Model for i32 {
    type V = i32;

    open spec fn model(&self) -> i32 {
        *self
    }

    open spec fn spec_zero_sized() -> bool {
        false
    }

    fn zero_sized() -> bool {
        false
    }
}

impl Model for i64 {
    type V = i64;

    open spec fn model(&self) -> i64 {
        *self
    }

    open spec fn spec_zero_sized() -> bool {
        false
    }

    fn zero_sized() -> bool {
        false
    }
}

impl Model for i128 {
    type V = i128;

    open spec fn model(&self) -> i128 {
        *self
    }

    open spec fn spec_zero_sized() -> bool {
        false
    }

    fn zero_sized() -> bool {
        false
    }
}

impl Model for usize {
    type V = usize;

    open spec fn model(&self) -> usize {
        *self
    }

    open spec fn spec_zero_sized() -> bool {
        false
    }

    fn zero_sized() -> bool {
        false
    }
}

impl Model for isize {
    type V = isize;

    open spec fn model(&self) -> isize {
        *self
    }

    open spec fn spec_zero_sized() -> bool {
        false
    }

    fn zero_sized() -> bool {
        false
    }
}

impl Model for bool {
    type V = bool;

    open spec fn model(&self) -> bool {
        *self
    }

    open spec fn spec_zero_sized() -> bool {
        false
    }

    fn zero_sized() -> bool {
        false
    }
}

impl Model for () {
    type V = ();

    open spec fn model(&self) -> () {
        ()
    }

    open spec fn spec_zero_sized() -> bool {
        true
    }

    fn zero_sized() -> bool {
        true
    }
}

impl<T> Model for core::marker::PhantomData<T> {
    type V = ();

    open spec fn model(&self) -> () {
        ()
    }

    open spec fn spec_zero_sized() -> bool {
        true
    }

    fn zero_sized() -> bool {
        true
    }
}

impl Model for String {
    type V = Seq<char>;

    open spec fn model(&self) -> Seq<char> {
        self@
    }

    open spec fn spec_zero_sized() -> bool {
        false
    }

    fn zero_sized() -> bool {
        false
    }
}

impl<T: Model> Model for Option<T> {
    type V = Option<T::V>;

    open spec fn model(&self) -> Option<T::V> {
        match self {
            None => None,
            Some(v) => Some(v.model()),
        }
    }

    open spec fn spec_zero_sized() -> bool {
        false
    }

    fn zero_sized() -> bool {
        false
    }
}

impl<T: Model, E: Model> Model for Result<T, E> {
    type V = Result<T::V, E::V>;

    open spec fn model(&self) -> Result<T::V, E::V> {
        match self {
            Ok(v) => Ok(v.model()),
            Err(e) => Err(e.model()),
        }
    }

    open spec fn spec_zero_sized() -> bool {
        false
    }

    fn zero_sized() -> bool {
        false
    }
}

impl<T: Model> Model for Vec<T> {
    type V = Seq<T::V>;

    open spec fn model(&self) -> Seq<T::V> {
        Seq::new(self@.len(), |i: int| self@[i].model())
    }

    open spec fn spec_zero_sized() -> bool {
        false
    }

    fn zero_sized() -> bool {
        false
    }
}


impl<T: Model> Model for std::collections::VecDeque<T> {
    type V = Seq<T::V>;

    open spec fn model(&self) -> Seq<T::V> {
        Seq::new(self@.len(), |i: int| self@[i].model())
    }

    open spec fn spec_zero_sized() -> bool {
        false
    }

    fn zero_sized() -> bool {
        false
    }
}


/// A half-open interval is its pair of endpoints.
impl<T: Model> Model for core::ops::Range<T> {
    type V = (T::V, T::V);

    open spec fn model(&self) -> (T::V, T::V) {
        (self.start.model(), self.end.model())
    }

    open spec fn spec_zero_sized() -> bool {
        T::spec_zero_sized()
    }

    fn zero_sized() -> bool {
        T::zero_sized()
    }
}

impl<T: Model, const N: usize> Model for [T; N] {
    type V = Seq<T::V>;

    open spec fn model(&self) -> Seq<T::V> {
        Seq::new(self@.len(), |i: int| self@[i].model())
    }

    open spec fn spec_zero_sized() -> bool {
        N == 0 || T::spec_zero_sized()
    }

    fn zero_sized() -> bool {
        N == 0 || T::zero_sized()
    }
}

/// A shared reference has the content of what it points at.
impl<'a, T: Model> Model for &'a T {
    type V = T::V;

    open spec fn model(&self) -> T::V {
        (**self).model()
    }

    open spec fn spec_zero_sized() -> bool {
        T::spec_zero_sized()
    }

    fn zero_sized() -> bool {
        T::zero_sized()
    }
}

/// A heap-indirection wrapper has the content of what it wraps.
impl<T: Model> Model for Box<T> {
    type V = T::V;

    open spec fn model(&self) -> T::V {
        (**self).model()
    }

    open spec fn spec_zero_sized() -> bool {
        T::spec_zero_sized()
    }

    fn zero_sized() -> bool {
        T::zero_sized()
    }
}

/// A shared-ownership wrapper has the content of what it shares.
impl<T: Model> Model for std::rc::Rc<T> {
    type V = T::V;

    open spec fn model(&self) -> T::V {
        (**self).model()
    }

    open spec fn spec_zero_sized() -> bool {
        T::spec_zero_sized()
    }

    fn zero_sized() -> bool {
        T::zero_sized()
    }
}

/// A shared-ownership wrapper has the content of what it shares.
impl<T: Model> Model for std::sync::Arc<T> {
    type V = T::V;

    open spec fn model(&self) -> T::V {
        (**self).model()
    }

    open spec fn spec_zero_sized() -> bool {
        T::spec_zero_sized()
    }

    fn zero_sized() -> bool {
        T::zero_sized()
    }
}

impl<T0: Model, T1: Model> Model for (T0, T1) {
    type V = (T0::V, T1::V);

    open spec fn model(&self) -> (T0::V, T1::V) {
        (self.0.model(), self.1.model())
    }

    open spec fn spec_zero_sized() -> bool {
        T0::spec_zero_sized() && T1::spec_zero_sized()
    }

    fn zero_sized() -> bool {
        T0::zero_sized() && T1::zero_sized()
    }
}

impl<T0: Model, T1: Model, T2: Model> Model for (T0, T1, T2) {
    type V = (T0::V, T1::V, T2::V);

    open spec fn model(&self) -> (T0::V, T1::V, T2::V) {
        (self.0.model(), self.1.model(), self.2.model())
    }

    open spec fn spec_zero_sized() -> bool {
        T0::spec_zero_sized() && T1::spec_zero_sized() && T2::spec_zero_sized()
    }

    fn zero_sized() -> bool {
        T0::zero_sized() && T1::zero_sized() && T2::zero_sized()
    }
}

} // verus!
