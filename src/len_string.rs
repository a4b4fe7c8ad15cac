use vstd::prelude::*;
use vstd::string::StrSliceExecFns;
use vstd::utf8::{decode_utf8, encode_utf8, encode_utf8_decode_utf8, encode_utf8_valid_utf8, valid_utf8};
use core::marker::PhantomData;
use crate::archivable::{
    Archivable,
    CountWidth,
    Decoded,
    all_writable,
    lemma_len_prefixed_consumed,
    lemma_len_prefixed_round_trip,
    len_prefixed_from_wire,
    len_prefixed_to_wire,
    views,
};
use crate::archive::{Archive, ArchiveInternal};
use crate::len_vec::LenVec;
use crate::result::{Error, value_error};

verus! {

/// Relies on `String::from_utf8`: it accepts exactly the valid UTF-8 byte
/// sequences and returns the characters they encode.
#[verifier::external_body]
fn string_from_utf8(bytes: Vec<u8>) -> (r: Option<String>)
    ensures
        r is Some <==> valid_utf8(bytes@),
        r matches Some(s) ==> s@ == decode_utf8(bytes@),
{
    String::from_utf8(bytes).ok()
}

/// A string written as its UTF-8 bytes, prefixed by their count as a `TLen`.
#[derive(Debug)]
pub struct LenStringUtf8<TLen: CountWidth> {
    pd: PhantomData<TLen>,
    string: String,
}

impl<TLen: CountWidth> View for LenStringUtf8<TLen> {
    type V = Seq<char>;

    closed spec fn view(&self) -> Seq<char> {
        self.string@
    }
}

impl<TLen: CountWidth> Default for LenStringUtf8<TLen> {
    fn default() -> (r: Self)
        ensures
            r@ == Seq::<char>::empty(),
    {
        LenStringUtf8 { pd: PhantomData, string: String::new() }
    }
}

impl<TLen: CountWidth> LenStringUtf8<TLen> {
    /// Wraps `string`.
    pub fn new(string: String) -> (r: Self)
        ensures
            r@ == string@,
    {
        LenStringUtf8 { pd: PhantomData, string }
    }

    /// The wrapped string.
    pub fn as_str(&self) -> (r: &str)
        ensures
            r@ == self@,
    {
        self.string.as_str()
    }

    /// The UTF-8 bytes of the string.
    pub fn encode(&self) -> (r: Vec<u8>)
        ensures
            r@ == encode_utf8(self@),
    {
        self.string.as_str().as_bytes_vec()
    }

    /// Replaces the string by the one that `vec` encodes; bytes that are not
    /// UTF-8 are a value error and leave the string as it was.
    pub fn decode(&mut self, vec: Vec<u8>) -> (r: Result<(), Error>)
        ensures
            valid_utf8(vec@) ==> r is Ok && final(self)@ == decode_utf8(vec@),
            !valid_utf8(vec@) ==> (r matches Err(Error::ValueError(_))) && final(self)@ == old(self)@,
    {
        match string_from_utf8(vec) {
            Some(s) => {
                self.string = s;
                Ok(())
            },
            None => value_error("invalid utf-8"),
        }
    }
}

/// The string's UTF-8 bytes as a length-prefixed sequence.
impl<TLen: CountWidth> Archivable for LenStringUtf8<TLen> {
    open spec fn to_wire(v: Seq<char>, little_endian: bool) -> Seq<u8> {
        len_prefixed_to_wire::<TLen, u8>(encode_utf8(v), little_endian)
    }

    open spec fn writable(v: Seq<char>) -> bool {
        encode_utf8(v).len() <= TLen::max_count()
    }

    open spec fn from_wire(little_endian: bool, bytes: Seq<u8>) -> Decoded<Seq<char>> {
        match len_prefixed_from_wire::<TLen, u8>(little_endian, bytes) {
            Decoded::Value(b, n) => if valid_utf8(b) {
                Decoded::Value(decode_utf8(b), n)
            } else {
                Decoded::Invalid
            },
            Decoded::ShortInput => Decoded::ShortInput,
            Decoded::Invalid => Decoded::Invalid,
        }
    }

    proof fn lemma_round_trip(v: Seq<char>, little_endian: bool, rest: Seq<u8>) {
        let b = encode_utf8(v);
        assert(all_writable::<u8>(b));
        lemma_len_prefixed_round_trip::<TLen, u8>(b, little_endian, rest);
        encode_utf8_valid_utf8(v);
        encode_utf8_decode_utf8(v);
    }

    proof fn lemma_consumed(little_endian: bool, bytes: Seq<u8>) {
        lemma_len_prefixed_consumed::<TLen, u8>(little_endian, bytes);
    }

    fn archive<Ar: ArchiveInternal>(&mut self, ar: &mut Ar) -> (r: Result<(), Error>) {
        let bytes = if ar.is_reading() {
            Vec::new()
        } else {
            self.encode()
        };
        let mut lv = LenVec::<TLen, u8>::new(bytes);
        proof {
            assert(views(bytes@) =~= bytes@);
        }
        let r = ar.archive(&mut lv);
        if r.is_err() {
            return r;
        }
        let v = lv.into_vec();
        proof {
            assert(views(v@) =~= v@);
            encode_utf8_valid_utf8(old(self)@);
            encode_utf8_decode_utf8(old(self)@);
        }
        self.decode(v)
    }
}

} // verus!
