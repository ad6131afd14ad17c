//! Whether, and how, a built asset can be written to the on-disk cache.
use vstd::prelude::*;
use std::marker::PhantomData;

verus! {

/// Implemented by the types that assets build: whether values of the type can
/// be serialized, and how.
///
/// An implementing type may describe the outcomes of its methods by the spec
/// functions below, which its methods then meet.
pub trait MaybeSerialize: Sized {
    /// A call of `does_support_serialization` may return `r`. A type that
    /// leaves it undescribed allows either answer.
    open spec fn reports_support(r: bool) -> bool {
        true
    }

    /// A call of `try_serialize` on this value may turn the bytes `before`
    /// into `after` and report `ok`. A type that leaves it undescribed allows
    /// any outcome.
    open spec fn serializes(&self, before: Seq<u8>, after: Seq<u8>, ok: bool) -> bool {
        true
    }

    /// A call of `try_deserialize` may turn the bytes `before` into `after`
    /// and return `r`. A type that leaves it undescribed allows any outcome.
    open spec fn deserializes(before: Seq<u8>, after: Seq<u8>, r: Option<Self>) -> bool {
        true
    }

    fn does_support_serialization() -> (r: bool)
        ensures
            Self::reports_support(r),
    ;

    /// Appends the serialized value to `s`; `false` when that failed.
    fn try_serialize(&self, s: &mut Vec<u8>) -> (ok: bool)
        ensures
            self.serializes(old(s)@, final(s)@, ok),
    ;

    /// Reads a value back from `s`; `None` when that failed.
    fn try_deserialize(s: &mut [u8]) -> (r: Option<Self>)
        ensures
            Self::deserializes(old(s)@, final(s)@, r),
    ;
}

/// Serialization of the artifacts of one recipe, whose type is `A`.
pub trait AnySerialize<A> {
    fn does_support_serialization(&self) -> bool;

    fn try_serialize(&self, obj: &A, w: &mut Vec<u8>) -> bool;

    fn try_deserialize(&self, s: &mut [u8]) -> Option<A>;
}

/// The serializer of a recipe that builds a `T`, as `T` itself defines it.
pub struct AnySerializeProxy<T> {
    phantom: PhantomData<T>,
}

impl<T: MaybeSerialize> AnySerializeProxy<T> {
    pub fn new() -> Self {
        Self { phantom: PhantomData }
    }
}

impl<T> Clone for AnySerializeProxy<T> {
    fn clone(&self) -> Self {
        Self { phantom: PhantomData }
    }
}

impl<T: MaybeSerialize> AnySerialize<T> for AnySerializeProxy<T> {
    /// Whether `T` can be serialized, as `T` reports it.
    fn does_support_serialization(&self) -> (r: bool)
        ensures
            T::reports_support(r),
    {
        T::does_support_serialization()
    }

    /// Serializes `obj` into `w` as `T` does.
    fn try_serialize(&self, obj: &T, w: &mut Vec<u8>) -> (ok: bool)
        ensures
            obj.serializes(old(w)@, final(w)@, ok),
    {
        obj.try_serialize(w)
    }

    /// Reads a `T` from `s` as `T` does.
    fn try_deserialize(&self, s: &mut [u8]) -> (r: Option<T>)
        ensures
            T::deserializes(old(s)@, final(s)@, r),
    {
        T::try_deserialize(s)
    }
}

} // verus!
