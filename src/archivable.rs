use vstd::prelude::*;
use crate::archive::{
    ArchiveInternal,
    lemma_remaining_advanced,
    keeps_mode,
    read_outcome,
    write_outcome,
};
use crate::bytes::{
    byte_bound,
    lemma_byte_bounds,
    lemma_uint_round_trip,
    uint_from_bytes,
    uint_from_wire,
    uint_to_bytes,
    uint_to_wire,
};
use crate::result::Error;
use vstd::layout::size_of;

verus! {

/// What reading the start of a byte sequence gives.
pub enum Decoded<V> {
    /// A value, and how many bytes it took.
    Value(V, nat),
    /// The bytes end too early.
    ShortInput,
    /// The bytes break a rule of the encoding.
    Invalid,
}

/// A type that an archive can read and write, with one method for both.
///
/// Its wire form is given by `to_wire` and `from_wire` over the value's view;
/// `lemma_round_trip` says that what is written reads back as itself.
pub trait Archivable: View + Default + Sized {
    /// The bytes that stand for `v` in the given byte order.
    spec fn to_wire(v: Self::V, little_endian: bool) -> Seq<u8>;

    /// Whether `v` can be written at all.
    spec fn writable(v: Self::V) -> bool;

    /// What reading the start of `bytes` in the given byte order gives.
    spec fn from_wire(little_endian: bool, bytes: Seq<u8>) -> Decoded<Self::V>;

    /// Reading back what a writable value wrote gives the value, whatever follows.
    proof fn lemma_round_trip(v: Self::V, little_endian: bool, rest: Seq<u8>)
        requires
            Self::writable(v),
        ensures
            Self::from_wire(little_endian, Self::to_wire(v, little_endian) + rest)
                == Decoded::Value(v, Self::to_wire(v, little_endian).len()),
    ;

    /// A decoded value takes no more bytes than there are.
    proof fn lemma_consumed(little_endian: bool, bytes: Seq<u8>)
        ensures
            Self::from_wire(little_endian, bytes) matches Decoded::Value(_, n) ==> n <= bytes.len(),
    ;

    /// Reading mode fills `self` from the stream; writing mode writes it.
    fn archive<Ar: ArchiveInternal>(&mut self, ar: &mut Ar) -> (r: Result<(), Error>)
        ensures
            keeps_mode(old(ar).state(), final(ar).state()),
            old(ar).state().reading ==> read_outcome(
                Self::from_wire(old(ar).state().little_endian, old(ar).state().remaining()),
                old(ar).state(),
                final(ar).state(),
                final(self)@,
                r,
            ),
            !old(ar).state().reading ==> final(self)@ == old(self)@ && write_outcome(
                Self::writable(old(self)@),
                Self::to_wire(old(self)@, old(ar).state().little_endian),
                old(ar).state(),
                final(ar).state(),
                r,
            ),
    ;
}

/// The views of the items of `s`.
pub open spec fn views<T: View>(s: Seq<T>) -> Seq<T::V> {
    s.map_values(|x: T| x@)
}

/// The bytes of the items of `vs`, one after another.
pub open spec fn seq_to_wire<T: Archivable>(vs: Seq<T::V>, little_endian: bool) -> Seq<u8>
    decreases vs.len(),
{
    if vs.len() == 0 {
        Seq::empty()
    } else {
        seq_to_wire::<T>(vs.drop_last(), little_endian) + T::to_wire(vs.last(), little_endian)
    }
}

/// Whether every item of `vs` can be written.
pub open spec fn all_writable<T: Archivable>(vs: Seq<T::V>) -> bool {
    forall|i: int| 0 <= i < vs.len() ==> T::writable(#[trigger] vs[i])
}

/// Reading `k` items, one after another, from the start of `bytes`.
pub open spec fn seq_from_wire<T: Archivable>(little_endian: bool, bytes: Seq<u8>, k: nat) -> Decoded<
    Seq<T::V>,
>
    decreases k,
{
    if k == 0 {
        Decoded::Value(Seq::empty(), 0)
    } else {
        match seq_from_wire::<T>(little_endian, bytes, (k - 1) as nat) {
            Decoded::Value(vs, n) => match T::from_wire(little_endian, bytes.skip(n as int)) {
                Decoded::Value(v, m) => Decoded::Value(vs.push(v), n + m),
                Decoded::ShortInput => Decoded::ShortInput,
                Decoded::Invalid => Decoded::Invalid,
            },
            Decoded::ShortInput => Decoded::ShortInput,
            Decoded::Invalid => Decoded::Invalid,
        }
    }
}

/// `k` decoded items are `k` items, and take no more bytes than there are.
pub proof fn lemma_seq_consumed<T: Archivable>(little_endian: bool, bytes: Seq<u8>, k: nat)
    ensures
        seq_from_wire::<T>(little_endian, bytes, k) matches Decoded::Value(vs, n) ==> n
            <= bytes.len() && vs.len() == k,
    decreases k,
{
    if k > 0 {
        lemma_seq_consumed::<T>(little_endian, bytes, (k - 1) as nat);
        if let Decoded::Value(vs, n) = seq_from_wire::<T>(little_endian, bytes, (k - 1) as nat) {
            T::lemma_consumed(little_endian, bytes.skip(n as int));
        }
    }
}

/// Once reading items has failed, reading more fails the same way.
pub proof fn lemma_seq_failure_stays<T: Archivable>(
    little_endian: bool,
    bytes: Seq<u8>,
    i: nat,
    k: nat,
)
    requires
        i <= k,
        !(seq_from_wire::<T>(little_endian, bytes, i) is Value),
    ensures
        seq_from_wire::<T>(little_endian, bytes, k) == seq_from_wire::<T>(little_endian, bytes, i),
    decreases k,
{
    if i < k {
        lemma_seq_failure_stays::<T>(little_endian, bytes, i, (k - 1) as nat);
    }
}

/// Items written one after another read back as themselves.
pub proof fn lemma_seq_round_trip<T: Archivable>(vs: Seq<T::V>, little_endian: bool, rest: Seq<u8>)
    requires
        all_writable::<T>(vs),
    ensures
        seq_from_wire::<T>(little_endian, seq_to_wire::<T>(vs, little_endian) + rest, vs.len())
            == Decoded::Value(vs, seq_to_wire::<T>(vs, little_endian).len()),
    decreases vs.len(),
{
    if vs.len() > 0 {
        let init = vs.drop_last();
        let x = vs.last();
        let wi = seq_to_wire::<T>(init, little_endian);
        let wx = T::to_wire(x, little_endian);
        assert(all_writable::<T>(init)) by {
            assert forall|i: int| 0 <= i < init.len() implies T::writable(#[trigger] init[i]) by {
                assert(init[i] == vs[i]);
            }
        }
        assert(T::writable(vs[vs.len() - 1]));
        lemma_seq_round_trip::<T>(init, little_endian, wx + rest);
        let bytes = seq_to_wire::<T>(vs, little_endian) + rest;
        assert(bytes =~= wi + (wx + rest));
        assert(bytes.skip(wi.len() as int) =~= wx + rest);
        T::lemma_round_trip(x, little_endian, rest);
        assert(init.push(x) =~= vs);
    } else {
        assert(vs =~= Seq::empty());
    }
}

/// An integer type that can carry the count of a length-prefixed sequence.
pub trait CountWidth: Archivable {
    /// The largest count the type holds.
    spec fn max_count() -> nat;

    /// The count a value stands for.
    spec fn count(v: Self::V) -> nat;

    /// The value that stands for the count `n`.
    spec fn of_count(n: nat) -> Self::V;

    /// The value for `n`, or `None` where `n` does not fit.
    fn from_count(n: usize) -> (r: Option<Self>)
        ensures
            n <= Self::max_count() ==> (r matches Some(c) && c@ == Self::of_count(n as nat)),
            n > Self::max_count() ==> r is None,
    ;

    /// The count that `self` stands for.
    fn to_count(&self) -> (r: usize)
        ensures
            r as nat == Self::count(self@),
    ;

    proof fn lemma_count(n: nat)
        requires
            n <= Self::max_count(),
        ensures
            Self::count(Self::of_count(n)) == n,
            Self::writable(Self::of_count(n)),
    ;
}

/// The wire form of a sequence prefixed by its count as an `L`.
pub open spec fn len_prefixed_to_wire<L: CountWidth, T: Archivable>(
    vs: Seq<T::V>,
    little_endian: bool,
) -> Seq<u8> {
    L::to_wire(L::of_count(vs.len()), little_endian) + seq_to_wire::<T>(vs, little_endian)
}

/// A sequence can be written with an `L` count when its length fits and every
/// item can be written.
pub open spec fn len_prefixed_writable<L: CountWidth, T: Archivable>(vs: Seq<T::V>) -> bool {
    vs.len() <= L::max_count() && all_writable::<T>(vs)
}

/// Reading an `L` count, then that many items.
pub open spec fn len_prefixed_from_wire<L: CountWidth, T: Archivable>(
    little_endian: bool,
    bytes: Seq<u8>,
) -> Decoded<Seq<T::V>> {
    match L::from_wire(little_endian, bytes) {
        Decoded::Value(c, n) => match seq_from_wire::<T>(
            little_endian,
            bytes.skip(n as int),
            L::count(c),
        ) {
            Decoded::Value(vs, m) => Decoded::Value(vs, n + m),
            Decoded::ShortInput => Decoded::ShortInput,
            Decoded::Invalid => Decoded::Invalid,
        },
        Decoded::ShortInput => Decoded::ShortInput,
        Decoded::Invalid => Decoded::Invalid,
    }
}

pub proof fn lemma_len_prefixed_round_trip<L: CountWidth, T: Archivable>(
    vs: Seq<T::V>,
    little_endian: bool,
    rest: Seq<u8>,
)
    requires
        len_prefixed_writable::<L, T>(vs),
    ensures
        len_prefixed_from_wire::<L, T>(
            little_endian,
            len_prefixed_to_wire::<L, T>(vs, little_endian) + rest,
        ) == Decoded::Value(vs, len_prefixed_to_wire::<L, T>(vs, little_endian).len()),
{
    let c = L::of_count(vs.len());
    let wc = L::to_wire(c, little_endian);
    let ws = seq_to_wire::<T>(vs, little_endian);
    let bytes = len_prefixed_to_wire::<L, T>(vs, little_endian) + rest;
    L::lemma_count(vs.len());
    assert(bytes =~= wc + (ws + rest));
    L::lemma_round_trip(c, little_endian, ws + rest);
    assert(bytes.skip(wc.len() as int) =~= ws + rest);
    lemma_seq_round_trip::<T>(vs, little_endian, rest);
}

pub proof fn lemma_len_prefixed_consumed<L: CountWidth, T: Archivable>(
    little_endian: bool,
    bytes: Seq<u8>,
)
    ensures
        len_prefixed_from_wire::<L, T>(little_endian, bytes) matches Decoded::Value(_, n) ==> n
            <= bytes.len(),
{
    L::lemma_consumed(little_endian, bytes);
    if let Decoded::Value(c, n) = L::from_wire(little_endian, bytes) {
        lemma_seq_consumed::<T>(little_endian, bytes.skip(n as int), L::count(c));
    }
}

impl CountWidth for u8 {
    open spec fn max_count() -> nat {
        0xff
    }

    open spec fn count(v: u8) -> nat {
        v as nat
    }

    open spec fn of_count(n: nat) -> u8 {
        n as u8
    }

    fn from_count(n: usize) -> (r: Option<u8>) {
        if n <= 0xff {
            Some(n as u8)
        } else {
            None
        }
    }

    fn to_count(&self) -> (r: usize) {
        *self as usize
    }

    proof fn lemma_count(n: nat) {
    }
}

impl CountWidth for u16 {
    open spec fn max_count() -> nat {
        0xffff
    }

    open spec fn count(v: u16) -> nat {
        v as nat
    }

    open spec fn of_count(n: nat) -> u16 {
        n as u16
    }

    fn from_count(n: usize) -> (r: Option<u16>) {
        if n <= 0xffff {
            Some(n as u16)
        } else {
            None
        }
    }

    fn to_count(&self) -> (r: usize) {
        *self as usize
    }

    proof fn lemma_count(n: nat) {
    }
}

impl CountWidth for u32 {
    open spec fn max_count() -> nat {
        0xffff_ffff
    }

    open spec fn count(v: u32) -> nat {
        v as nat
    }

    open spec fn of_count(n: nat) -> u32 {
        n as u32
    }

    fn from_count(n: usize) -> (r: Option<u32>) {
        if n <= 0xffff_ffff {
            Some(n as u32)
        } else {
            None
        }
    }

    fn to_count(&self) -> (r: usize) {
        *self as usize
    }

    proof fn lemma_count(n: nat) {
    }
}
/// A pair: the first item's bytes, then the second's.
impl<A: Archivable, B: Archivable> Archivable for (A, B) {
    open spec fn to_wire(v: (A::V, B::V), little_endian: bool) -> Seq<u8> {
        A::to_wire(v.0, little_endian) + B::to_wire(v.1, little_endian)
    }

    open spec fn writable(v: (A::V, B::V)) -> bool {
        A::writable(v.0) && B::writable(v.1)
    }

    open spec fn from_wire(little_endian: bool, bytes: Seq<u8>) -> Decoded<(A::V, B::V)> {
        match A::from_wire(little_endian, bytes) {
            Decoded::Value(a, n) => match B::from_wire(little_endian, bytes.skip(n as int)) {
                Decoded::Value(b, m) => Decoded::Value((a, b), n + m),
                Decoded::ShortInput => Decoded::ShortInput,
                Decoded::Invalid => Decoded::Invalid,
            },
            Decoded::ShortInput => Decoded::ShortInput,
            Decoded::Invalid => Decoded::Invalid,
        }
    }

    proof fn lemma_round_trip(v: (A::V, B::V), little_endian: bool, rest: Seq<u8>) {
        let wa = A::to_wire(v.0, little_endian);
        let wb = B::to_wire(v.1, little_endian);
        let bytes = wa + wb + rest;
        assert(bytes =~= wa + (wb + rest));
        A::lemma_round_trip(v.0, little_endian, wb + rest);
        assert(bytes.skip(wa.len() as int) =~= wb + rest);
        B::lemma_round_trip(v.1, little_endian, rest);
    }

    proof fn lemma_consumed(little_endian: bool, bytes: Seq<u8>) {
        A::lemma_consumed(little_endian, bytes);
        if let Decoded::Value(a, n) = A::from_wire(little_endian, bytes) {
            B::lemma_consumed(little_endian, bytes.skip(n as int));
        }
    }

    fn archive<Ar: ArchiveInternal>(&mut self, ar: &mut Ar) -> (r: Result<(), Error>) {
        let ghost s0 = ar.state();
        proof {
            A::lemma_consumed(s0.little_endian, s0.remaining());
        }
        let ra = self.0.archive(ar);
        if ra.is_err() {
            return ra;
        }
        let ghost s1 = ar.state();
        proof {
            if s0.reading {
                if let Decoded::Value(a, n) = A::from_wire(s0.little_endian, s0.remaining()) {
                    lemma_remaining_advanced(s0, n);
                }
            }
        }
        let rb = self.1.archive(ar);
        proof {
            if !s0.reading && rb is Ok {
                assert(ar.state().data =~= s0.data + Self::to_wire(old(self)@, s0.little_endian));
            }
        }
        rb
    }
}

/// A triple: the items' bytes in order.
impl<A: Archivable, B: Archivable, C: Archivable> Archivable for (A, B, C) {
    open spec fn to_wire(v: (A::V, B::V, C::V), little_endian: bool) -> Seq<u8> {
        A::to_wire(v.0, little_endian) + B::to_wire(v.1, little_endian) + C::to_wire(
            v.2,
            little_endian,
        )
    }

    open spec fn writable(v: (A::V, B::V, C::V)) -> bool {
        A::writable(v.0) && B::writable(v.1) && C::writable(v.2)
    }

    open spec fn from_wire(little_endian: bool, bytes: Seq<u8>) -> Decoded<(A::V, B::V, C::V)> {
        match <(A, B)>::from_wire(little_endian, bytes) {
            Decoded::Value(ab, n) => match C::from_wire(little_endian, bytes.skip(n as int)) {
                Decoded::Value(c, m) => Decoded::Value((ab.0, ab.1, c), n + m),
                Decoded::ShortInput => Decoded::ShortInput,
                Decoded::Invalid => Decoded::Invalid,
            },
            Decoded::ShortInput => Decoded::ShortInput,
            Decoded::Invalid => Decoded::Invalid,
        }
    }

    proof fn lemma_round_trip(v: (A::V, B::V, C::V), little_endian: bool, rest: Seq<u8>) {
        let wab = <(A, B)>::to_wire((v.0, v.1), little_endian);
        let wc = C::to_wire(v.2, little_endian);
        let bytes = wab + wc + rest;
        <(A, B)>::lemma_round_trip((v.0, v.1), little_endian, wc + rest);
        assert(bytes =~= wab + (wc + rest));
        assert(bytes.skip(wab.len() as int) =~= wc + rest);
        C::lemma_round_trip(v.2, little_endian, rest);
    }

    proof fn lemma_consumed(little_endian: bool, bytes: Seq<u8>) {
        <(A, B)>::lemma_consumed(little_endian, bytes);
        if let Decoded::Value(ab, n) = <(A, B)>::from_wire(little_endian, bytes) {
            C::lemma_consumed(little_endian, bytes.skip(n as int));
        }
    }

    fn archive<Ar: ArchiveInternal>(&mut self, ar: &mut Ar) -> (r: Result<(), Error>) {
        let ghost s0 = ar.state();
        proof {
            A::lemma_consumed(s0.little_endian, s0.remaining());
        }
        let ra = self.0.archive(ar);
        if ra.is_err() {
            return ra;
        }
        let ghost s1 = ar.state();
        proof {
            if s0.reading {
                if let Decoded::Value(a, n) = A::from_wire(s0.little_endian, s0.remaining()) {
                    lemma_remaining_advanced(s0, n);
                    B::lemma_consumed(s0.little_endian, s1.remaining());
                }
            }
        }
        let rb = self.1.archive(ar);
        if rb.is_err() {
            return rb;
        }
        proof {
            if s0.reading {
                if let Decoded::Value(a, n) = A::from_wire(s0.little_endian, s0.remaining()) {
                    if let Decoded::Value(b, m) = B::from_wire(s0.little_endian, s1.remaining()) {
                        lemma_remaining_advanced(s1, m);
                        assert(s0.remaining().skip(n as int).skip(m as int) =~= s0.remaining().skip(
                            (n + m) as int,
                        ));
                    }
                }
            }
        }
        let rc = self.2.archive(ar);
        proof {
            if !s0.reading && rc is Ok {
                assert(ar.state().data =~= s0.data + Self::to_wire(old(self)@, s0.little_endian));
            }
        }
        rc
    }
}

/// A byte is itself on the wire, in either byte order.
pub proof fn lemma_byte_wire(b: u8, little_endian: bool)
    ensures
        u8::to_wire(b, little_endian) == seq![b],
        forall|s: Seq<u8>|
            s.len() >= 1 ==> #[trigger] u8::from_wire(little_endian, s) == Decoded::Value(s[0], 1),
{
    reveal_with_fuel(crate::bytes::le_bytes, 2);
    reveal_with_fuel(crate::bytes::le_value, 2);
    assert(u8::to_wire(b, little_endian) =~= seq![b]);
    assert forall|s: Seq<u8>| s.len() >= 1 implies #[trigger] u8::from_wire(little_endian, s)
        == Decoded::Value(s[0], 1) by {
        let t = s.take(1);
        assert(t.reverse() =~= t);
        assert(t.drop_first() =~= Seq::<u8>::empty());
    }
}

/// Reads `n` bytes as an unsigned number in the archive's byte order.
fn read_uint<Ar: ArchiveInternal>(ar: &mut Ar, n: usize) -> (r: Result<u128, Error>)
    requires
        old(ar).state().reading,
        n <= 16,
    ensures
        keeps_mode(old(ar).state(), final(ar).state()),
        n <= old(ar).state().remaining().len() ==> {
            &&& r matches Ok(x) && x == uint_from_wire(
                old(ar).state().remaining().take(n as int),
                old(ar).state().little_endian,
            )
            &&& final(ar).state() == old(ar).state().advanced(n as nat)
        },
        n > old(ar).state().remaining().len() ==> r matches Err(Error::IoError(_)),
{
    let mut buf: Vec<u8> = vec![0u8; n];
    let r = ar.read_exact(buf.as_mut_slice());
    match r {
        Ok(()) => {
            let le = ar.is_little_endian();
            Ok(uint_from_bytes(&buf, le))
        },
        Err(e) => Err(e),
    }
}

/// Writes the `n` bytes of `x` in the archive's byte order.
fn write_uint<Ar: ArchiveInternal>(ar: &mut Ar, x: u128, n: usize) -> (r: Result<(), Error>)
    requires
        !old(ar).state().reading,
        n <= 16,
        x < byte_bound(n as nat),
    ensures
        keeps_mode(old(ar).state(), final(ar).state()),
        r is Ok,
        final(ar).state() == old(ar).state().appended(
            uint_to_wire(x as nat, n as nat, old(ar).state().little_endian),
        ),
{
    let le = ar.is_little_endian();
    let b = uint_to_bytes(x, n, le);
    ar.write_all(b.as_slice())
}

/// An unsigned integer of 1 byte, in the archive's byte order.
impl Archivable for u8 {
    open spec fn to_wire(v: u8, little_endian: bool) -> Seq<u8> {
        uint_to_wire(v as nat, 1, little_endian)
    }

    open spec fn writable(v: u8) -> bool {
        true
    }

    open spec fn from_wire(little_endian: bool, bytes: Seq<u8>) -> Decoded<u8> {
        if bytes.len() < 1 {
            Decoded::ShortInput
        } else {
            Decoded::Value(uint_from_wire(bytes.take(1), little_endian) as u8, 1)
        }
    }

    proof fn lemma_round_trip(v: u8, little_endian: bool, rest: Seq<u8>) {
        lemma_byte_bounds();
        lemma_uint_round_trip(v as nat, 1, little_endian, rest);
    }

    proof fn lemma_consumed(little_endian: bool, bytes: Seq<u8>) {
    }

    fn archive<Ar: ArchiveInternal>(&mut self, ar: &mut Ar) -> (r: Result<(), Error>) {
        proof {
            lemma_byte_bounds();
        }
        if ar.is_reading() {
            match read_uint(ar, 1) {
                Ok(x) => {
                    *self = x as u8;
                    Ok(())
                },
                Err(e) => Err(e),
            }
        } else {
            write_uint(ar, *self as u128, 1)
        }
    }
}

/// An unsigned integer of 2 bytes, in the archive's byte order.
impl Archivable for u16 {
    open spec fn to_wire(v: u16, little_endian: bool) -> Seq<u8> {
        uint_to_wire(v as nat, 2, little_endian)
    }

    open spec fn writable(v: u16) -> bool {
        true
    }

    open spec fn from_wire(little_endian: bool, bytes: Seq<u8>) -> Decoded<u16> {
        if bytes.len() < 2 {
            Decoded::ShortInput
        } else {
            Decoded::Value(uint_from_wire(bytes.take(2), little_endian) as u16, 2)
        }
    }

    proof fn lemma_round_trip(v: u16, little_endian: bool, rest: Seq<u8>) {
        lemma_byte_bounds();
        lemma_uint_round_trip(v as nat, 2, little_endian, rest);
    }

    proof fn lemma_consumed(little_endian: bool, bytes: Seq<u8>) {
    }

    fn archive<Ar: ArchiveInternal>(&mut self, ar: &mut Ar) -> (r: Result<(), Error>) {
        proof {
            lemma_byte_bounds();
        }
        if ar.is_reading() {
            match read_uint(ar, 2) {
                Ok(x) => {
                    *self = x as u16;
                    Ok(())
                },
                Err(e) => Err(e),
            }
        } else {
            write_uint(ar, *self as u128, 2)
        }
    }
}

/// An unsigned integer of 4 bytes, in the archive's byte order.
impl Archivable for u32 {
    open spec fn to_wire(v: u32, little_endian: bool) -> Seq<u8> {
        uint_to_wire(v as nat, 4, little_endian)
    }

    open spec fn writable(v: u32) -> bool {
        true
    }

    open spec fn from_wire(little_endian: bool, bytes: Seq<u8>) -> Decoded<u32> {
        if bytes.len() < 4 {
            Decoded::ShortInput
        } else {
            Decoded::Value(uint_from_wire(bytes.take(4), little_endian) as u32, 4)
        }
    }

    proof fn lemma_round_trip(v: u32, little_endian: bool, rest: Seq<u8>) {
        lemma_byte_bounds();
        lemma_uint_round_trip(v as nat, 4, little_endian, rest);
    }

    proof fn lemma_consumed(little_endian: bool, bytes: Seq<u8>) {
    }

    fn archive<Ar: ArchiveInternal>(&mut self, ar: &mut Ar) -> (r: Result<(), Error>) {
        proof {
            lemma_byte_bounds();
        }
        if ar.is_reading() {
            match read_uint(ar, 4) {
                Ok(x) => {
                    *self = x as u32;
                    Ok(())
                },
                Err(e) => Err(e),
            }
        } else {
            write_uint(ar, *self as u128, 4)
        }
    }
}

/// An unsigned integer of 8 bytes, in the archive's byte order.
impl Archivable for u64 {
    open spec fn to_wire(v: u64, little_endian: bool) -> Seq<u8> {
        uint_to_wire(v as nat, 8, little_endian)
    }

    open spec fn writable(v: u64) -> bool {
        true
    }

    open spec fn from_wire(little_endian: bool, bytes: Seq<u8>) -> Decoded<u64> {
        if bytes.len() < 8 {
            Decoded::ShortInput
        } else {
            Decoded::Value(uint_from_wire(bytes.take(8), little_endian) as u64, 8)
        }
    }

    proof fn lemma_round_trip(v: u64, little_endian: bool, rest: Seq<u8>) {
        lemma_byte_bounds();
        lemma_uint_round_trip(v as nat, 8, little_endian, rest);
    }

    proof fn lemma_consumed(little_endian: bool, bytes: Seq<u8>) {
    }

    fn archive<Ar: ArchiveInternal>(&mut self, ar: &mut Ar) -> (r: Result<(), Error>) {
        proof {
            lemma_byte_bounds();
        }
        if ar.is_reading() {
            match read_uint(ar, 8) {
                Ok(x) => {
                    *self = x as u64;
                    Ok(())
                },
                Err(e) => Err(e),
            }
        } else {
            write_uint(ar, *self as u128, 8)
        }
    }
}

/// An unsigned integer of 16 bytes, in the archive's byte order.
impl Archivable for u128 {
    open spec fn to_wire(v: u128, little_endian: bool) -> Seq<u8> {
        uint_to_wire(v as nat, 16, little_endian)
    }

    open spec fn writable(v: u128) -> bool {
        true
    }

    open spec fn from_wire(little_endian: bool, bytes: Seq<u8>) -> Decoded<u128> {
        if bytes.len() < 16 {
            Decoded::ShortInput
        } else {
            Decoded::Value(uint_from_wire(bytes.take(16), little_endian) as u128, 16)
        }
    }

    proof fn lemma_round_trip(v: u128, little_endian: bool, rest: Seq<u8>) {
        lemma_byte_bounds();
        lemma_uint_round_trip(v as nat, 16, little_endian, rest);
    }

    proof fn lemma_consumed(little_endian: bool, bytes: Seq<u8>) {
    }

    fn archive<Ar: ArchiveInternal>(&mut self, ar: &mut Ar) -> (r: Result<(), Error>) {
        proof {
            lemma_byte_bounds();
        }
        if ar.is_reading() {
            match read_uint(ar, 16) {
                Ok(x) => {
                    *self = x;
                    Ok(())
                },
                Err(e) => Err(e),
            }
        } else {
            write_uint(ar, *self, 16)
        }
    }
}

/// A signed integer of 1 byte: its two's complement bits as `u8`.
impl Archivable for i8 {
    open spec fn to_wire(v: i8, little_endian: bool) -> Seq<u8> {
        uint_to_wire((v as u8) as nat, 1, little_endian)
    }

    open spec fn writable(v: i8) -> bool {
        true
    }

    open spec fn from_wire(little_endian: bool, bytes: Seq<u8>) -> Decoded<i8> {
        if bytes.len() < 1 {
            Decoded::ShortInput
        } else {
            Decoded::Value((uint_from_wire(bytes.take(1), little_endian) as u8) as i8, 1)
        }
    }

    proof fn lemma_round_trip(v: i8, little_endian: bool, rest: Seq<u8>) {
        lemma_byte_bounds();
        lemma_uint_round_trip((v as u8) as nat, 1, little_endian, rest);
        assert(((v as u8) as i8) == v) by (bit_vector);
    }

    proof fn lemma_consumed(little_endian: bool, bytes: Seq<u8>) {
    }

    fn archive<Ar: ArchiveInternal>(&mut self, ar: &mut Ar) -> (r: Result<(), Error>) {
        proof {
            lemma_byte_bounds();
        }
        if ar.is_reading() {
            match read_uint(ar, 1) {
                Ok(x) => {
                    *self = (x as u8) as i8;
                    Ok(())
                },
                Err(e) => Err(e),
            }
        } else {
            write_uint(ar, (*self as u8) as u128, 1)
        }
    }
}

/// A signed integer of 2 bytes: its two's complement bits as `u16`.
impl Archivable for i16 {
    open spec fn to_wire(v: i16, little_endian: bool) -> Seq<u8> {
        uint_to_wire((v as u16) as nat, 2, little_endian)
    }

    open spec fn writable(v: i16) -> bool {
        true
    }

    open spec fn from_wire(little_endian: bool, bytes: Seq<u8>) -> Decoded<i16> {
        if bytes.len() < 2 {
            Decoded::ShortInput
        } else {
            Decoded::Value((uint_from_wire(bytes.take(2), little_endian) as u16) as i16, 2)
        }
    }

    proof fn lemma_round_trip(v: i16, little_endian: bool, rest: Seq<u8>) {
        lemma_byte_bounds();
        lemma_uint_round_trip((v as u16) as nat, 2, little_endian, rest);
        assert(((v as u16) as i16) == v) by (bit_vector);
    }

    proof fn lemma_consumed(little_endian: bool, bytes: Seq<u8>) {
    }

    fn archive<Ar: ArchiveInternal>(&mut self, ar: &mut Ar) -> (r: Result<(), Error>) {
        proof {
            lemma_byte_bounds();
        }
        if ar.is_reading() {
            match read_uint(ar, 2) {
                Ok(x) => {
                    *self = (x as u16) as i16;
                    Ok(())
                },
                Err(e) => Err(e),
            }
        } else {
            write_uint(ar, (*self as u16) as u128, 2)
        }
    }
}

/// A signed integer of 4 bytes: its two's complement bits as `u32`.
impl Archivable for i32 {
    open spec fn to_wire(v: i32, little_endian: bool) -> Seq<u8> {
        uint_to_wire((v as u32) as nat, 4, little_endian)
    }

    open spec fn writable(v: i32) -> bool {
        true
    }

    open spec fn from_wire(little_endian: bool, bytes: Seq<u8>) -> Decoded<i32> {
        if bytes.len() < 4 {
            Decoded::ShortInput
        } else {
            Decoded::Value((uint_from_wire(bytes.take(4), little_endian) as u32) as i32, 4)
        }
    }

    proof fn lemma_round_trip(v: i32, little_endian: bool, rest: Seq<u8>) {
        lemma_byte_bounds();
        lemma_uint_round_trip((v as u32) as nat, 4, little_endian, rest);
        assert(((v as u32) as i32) == v) by (bit_vector);
    }

    proof fn lemma_consumed(little_endian: bool, bytes: Seq<u8>) {
    }

    fn archive<Ar: ArchiveInternal>(&mut self, ar: &mut Ar) -> (r: Result<(), Error>) {
        proof {
            lemma_byte_bounds();
        }
        if ar.is_reading() {
            match read_uint(ar, 4) {
                Ok(x) => {
                    *self = (x as u32) as i32;
                    Ok(())
                },
                Err(e) => Err(e),
            }
        } else {
            write_uint(ar, (*self as u32) as u128, 4)
        }
    }
}

/// A signed integer of 8 bytes: its two's complement bits as `u64`.
impl Archivable for i64 {
    open spec fn to_wire(v: i64, little_endian: bool) -> Seq<u8> {
        uint_to_wire((v as u64) as nat, 8, little_endian)
    }

    open spec fn writable(v: i64) -> bool {
        true
    }

    open spec fn from_wire(little_endian: bool, bytes: Seq<u8>) -> Decoded<i64> {
        if bytes.len() < 8 {
            Decoded::ShortInput
        } else {
            Decoded::Value((uint_from_wire(bytes.take(8), little_endian) as u64) as i64, 8)
        }
    }

    proof fn lemma_round_trip(v: i64, little_endian: bool, rest: Seq<u8>) {
        lemma_byte_bounds();
        lemma_uint_round_trip((v as u64) as nat, 8, little_endian, rest);
        assert(((v as u64) as i64) == v) by (bit_vector);
    }

    proof fn lemma_consumed(little_endian: bool, bytes: Seq<u8>) {
    }

    fn archive<Ar: ArchiveInternal>(&mut self, ar: &mut Ar) -> (r: Result<(), Error>) {
        proof {
            lemma_byte_bounds();
        }
        if ar.is_reading() {
            match read_uint(ar, 8) {
                Ok(x) => {
                    *self = (x as u64) as i64;
                    Ok(())
                },
                Err(e) => Err(e),
            }
        } else {
            write_uint(ar, (*self as u64) as u128, 8)
        }
    }
}

/// A signed integer of 16 bytes: its two's complement bits as `u128`.
impl Archivable for i128 {
    open spec fn to_wire(v: i128, little_endian: bool) -> Seq<u8> {
        uint_to_wire((v as u128) as nat, 16, little_endian)
    }

    open spec fn writable(v: i128) -> bool {
        true
    }

    open spec fn from_wire(little_endian: bool, bytes: Seq<u8>) -> Decoded<i128> {
        if bytes.len() < 16 {
            Decoded::ShortInput
        } else {
            Decoded::Value((uint_from_wire(bytes.take(16), little_endian) as u128) as i128, 16)
        }
    }

    proof fn lemma_round_trip(v: i128, little_endian: bool, rest: Seq<u8>) {
        lemma_byte_bounds();
        lemma_uint_round_trip((v as u128) as nat, 16, little_endian, rest);
        assert(((v as u128) as i128) == v) by (bit_vector);
    }

    proof fn lemma_consumed(little_endian: bool, bytes: Seq<u8>) {
    }

    fn archive<Ar: ArchiveInternal>(&mut self, ar: &mut Ar) -> (r: Result<(), Error>) {
        proof {
            lemma_byte_bounds();
        }
        if ar.is_reading() {
            match read_uint(ar, 16) {
                Ok(x) => {
                    *self = x as i128;
                    Ok(())
                },
                Err(e) => Err(e),
            }
        } else {
            write_uint(ar, *self as u128, 16)
        }
    }
}

/// A `usize` takes 4 or 8 bytes, as the machine's pointers do.
pub proof fn lemma_usize_width()
    ensures
        (size_of::<usize>() == 4 && usize::MAX == 0xffff_ffff) || (size_of::<usize>() == 8
            && usize::MAX == 0xffff_ffff_ffff_ffff),
        size_of::<isize>() == size_of::<usize>(),
{
    broadcast use vstd::layout::layout_of_primitives;

    assert(size_of::<usize>() * 8 == usize::BITS);
}

/// An unsigned integer as wide as the machine's pointers, in the archive's byte
/// order.
impl Archivable for usize {
    open spec fn to_wire(v: usize, little_endian: bool) -> Seq<u8> {
        uint_to_wire(v as nat, size_of::<usize>(), little_endian)
    }

    open spec fn writable(v: usize) -> bool {
        true
    }

    open spec fn from_wire(little_endian: bool, bytes: Seq<u8>) -> Decoded<usize> {
        if bytes.len() < size_of::<usize>() {
            Decoded::ShortInput
        } else {
            Decoded::Value(
                uint_from_wire(bytes.take(size_of::<usize>() as int), little_endian) as usize,
                size_of::<usize>(),
            )
        }
    }

    proof fn lemma_round_trip(v: usize, little_endian: bool, rest: Seq<u8>) {
        lemma_byte_bounds();
        lemma_usize_width();
        lemma_uint_round_trip(v as nat, size_of::<usize>(), little_endian, rest);
    }

    proof fn lemma_consumed(little_endian: bool, bytes: Seq<u8>) {
    }

    fn archive<Ar: ArchiveInternal>(&mut self, ar: &mut Ar) -> (r: Result<(), Error>) {
        proof {
            lemma_byte_bounds();
            lemma_usize_width();
        }
        let k = core::mem::size_of::<usize>();
        if ar.is_reading() {
            match read_uint(ar, k) {
                Ok(x) => {
                    *self = x as usize;
                    Ok(())
                },
                Err(e) => Err(e),
            }
        } else {
            write_uint(ar, *self as u128, k)
        }
    }
}

/// A signed integer as wide as the machine's pointers: its two's complement
/// bits as `usize`.
impl Archivable for isize {
    open spec fn to_wire(v: isize, little_endian: bool) -> Seq<u8> {
        uint_to_wire((v as usize) as nat, size_of::<usize>(), little_endian)
    }

    open spec fn writable(v: isize) -> bool {
        true
    }

    open spec fn from_wire(little_endian: bool, bytes: Seq<u8>) -> Decoded<isize> {
        if bytes.len() < size_of::<usize>() {
            Decoded::ShortInput
        } else {
            Decoded::Value(
                (uint_from_wire(bytes.take(size_of::<usize>() as int), little_endian) as usize) as isize,
                size_of::<usize>(),
            )
        }
    }

    proof fn lemma_round_trip(v: isize, little_endian: bool, rest: Seq<u8>) {
        lemma_byte_bounds();
        lemma_usize_width();
        lemma_uint_round_trip((v as usize) as nat, size_of::<usize>(), little_endian, rest);
        assert(((v as usize) as isize) == v) by (bit_vector);
    }

    proof fn lemma_consumed(little_endian: bool, bytes: Seq<u8>) {
    }

    fn archive<Ar: ArchiveInternal>(&mut self, ar: &mut Ar) -> (r: Result<(), Error>) {
        proof {
            lemma_byte_bounds();
            lemma_usize_width();
        }
        let k = core::mem::size_of::<usize>();
        if ar.is_reading() {
            match read_uint(ar, k) {
                Ok(x) => {
                    *self = (x as usize) as isize;
                    Ok(())
                },
                Err(e) => Err(e),
            }
        } else {
            write_uint(ar, (*self as usize) as u128, k)
        }
    }
}

} // verus!
