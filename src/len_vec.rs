use vstd::prelude::*;
use core::marker::PhantomData;
use crate::archivable::{
    Archivable,
    CountWidth,
    Decoded,
    lemma_len_prefixed_consumed,
    lemma_len_prefixed_round_trip,
    len_prefixed_from_wire,
    len_prefixed_to_wire,
    len_prefixed_writable,
    views,
};
use crate::archive::{Archive, ArchiveInternal};
use crate::result::Error;

verus! {

/// A vector of `T` that is always prefixed by its length as a `TLen` when it
/// is read or written. It dereferences to a `Vec<T>`.
#[derive(PartialEq, Eq, Debug)]
pub struct LenVec<TLen: CountWidth, T: Archivable> {
    pd: PhantomData<TLen>,
    vec: Vec<T>,
}

impl<TLen: CountWidth, T: Archivable> View for LenVec<TLen, T> {
    type V = Seq<T::V>;

    closed spec fn view(&self) -> Seq<T::V> {
        views(self.vec@)
    }
}

impl<TLen: CountWidth, T: Archivable> LenVec<TLen, T> {
    /// Wraps `vec`, typically to write it.
    pub fn new(vec: Vec<T>) -> (r: Self)
        ensures
            r@ == views(vec@),
    {
        LenVec { pd: PhantomData, vec }
    }

    /// The wrapped vector.
    pub fn into_vec(self) -> (r: Vec<T>)
        ensures
            views(r@) == self@,
    {
        self.vec
    }

    /// The number of items.
    pub fn len(&self) -> (r: usize)
        ensures
            r == self@.len(),
    {
        self.vec.len()
    }
}

impl<TLen: CountWidth, T: Archivable> Default for LenVec<TLen, T> {
    /// An empty vector, typically to read into.
    fn default() -> (r: Self)
        ensures
            r@ == Seq::<T::V>::empty(),
    {
        let r = LenVec { pd: PhantomData, vec: Vec::new() };
        assert(r@ =~= Seq::<T::V>::empty());
        r
    }
}

impl<TLen: CountWidth, T: Archivable> core::ops::Deref for LenVec<TLen, T> {
    type Target = Vec<T>;

    fn deref(&self) -> (r: &Vec<T>)
        ensures
            views(r@) == self@,
    {
        &self.vec
    }
}

/// The count as a `TLen`, then the items.
impl<TLen: CountWidth, T: Archivable> Archivable for LenVec<TLen, T> {
    open spec fn to_wire(v: Seq<T::V>, little_endian: bool) -> Seq<u8> {
        len_prefixed_to_wire::<TLen, T>(v, little_endian)
    }

    open spec fn writable(v: Seq<T::V>) -> bool {
        len_prefixed_writable::<TLen, T>(v)
    }

    open spec fn from_wire(little_endian: bool, bytes: Seq<u8>) -> Decoded<Seq<T::V>> {
        len_prefixed_from_wire::<TLen, T>(little_endian, bytes)
    }

    proof fn lemma_round_trip(v: Seq<T::V>, little_endian: bool, rest: Seq<u8>) {
        lemma_len_prefixed_round_trip::<TLen, T>(v, little_endian, rest);
    }

    proof fn lemma_consumed(little_endian: bool, bytes: Seq<u8>) {
        lemma_len_prefixed_consumed::<TLen, T>(little_endian, bytes);
    }

    fn archive<Ar: ArchiveInternal>(&mut self, ar: &mut Ar) -> (r: Result<(), Error>) {
        ar.archive_len_vec::<TLen, T>(&mut self.vec)
    }
}

} // verus!
