use vstd::prelude::*;
use crate::archivable::{
    Archivable,
    CountWidth,
    Decoded,
    all_writable,
    lemma_len_prefixed_consumed,
    lemma_seq_consumed,
    lemma_seq_failure_stays,
    len_prefixed_from_wire,
    len_prefixed_to_wire,
    len_prefixed_writable,
    seq_from_wire,
    seq_to_wire,
    views,
};
use crate::result::{Error, IoErrorKind};

verus! {

/// What an archive is at a moment, as far as transcoding can tell.
pub struct ArchiveState {
    /// Fixed for the archive's lifetime: reading, or else writing.
    pub reading: bool,
    /// The byte order that primitive values use from now on.
    pub little_endian: bool,
    /// When reading, the whole input; when writing, everything written so far.
    pub data: Seq<u8>,
    /// When reading, the position of the next byte to read.
    pub pos: nat,
}

impl ArchiveState {
    /// The bytes still to be read.
    pub open spec fn remaining(self) -> Seq<u8> {
        if self.pos <= self.data.len() {
            self.data.skip(self.pos as int)
        } else {
            Seq::empty()
        }
    }

    /// The state after `n` more bytes were read.
    pub open spec fn advanced(self, n: nat) -> ArchiveState {
        ArchiveState { pos: self.pos + n, ..self }
    }

    /// The state after `bytes` were written.
    pub open spec fn appended(self, bytes: Seq<u8>) -> ArchiveState {
        ArchiveState { data: self.data + bytes, ..self }
    }
}

/// Reading past `n` bytes leaves what followed them.
pub proof fn lemma_remaining_advanced(s: ArchiveState, n: nat)
    requires
        n <= s.remaining().len(),
    ensures
        s.advanced(n).remaining() == s.remaining().skip(n as int),
{
    assert(s.advanced(n).remaining() =~= s.remaining().skip(n as int));
}

/// Mode and byte order stay; a reader's input stays.
pub open spec fn keeps_mode(before: ArchiveState, after: ArchiveState) -> bool {
    &&& after.reading == before.reading
    &&& after.little_endian == before.little_endian
    &&& before.reading ==> after.data == before.data
}

/// What reading a value whose decoding is `d` does: on success `got` is the
/// value and the decoded bytes are consumed; short input is an I/O error and a
/// rejected encoding a value error.
pub open spec fn read_outcome<V>(
    d: Decoded<V>,
    before: ArchiveState,
    after: ArchiveState,
    got: V,
    r: Result<(), Error>,
) -> bool {
    match d {
        Decoded::Value(v, n) => r is Ok && got == v && after == before.advanced(n),
        Decoded::ShortInput => r matches Err(Error::IoError(_)),
        Decoded::Invalid => r matches Err(Error::ValueError(_)),
    }
}

/// What writing does: a writable value appends its bytes; any other is a value
/// error.
pub open spec fn write_outcome(
    writable: bool,
    wire: Seq<u8>,
    before: ArchiveState,
    after: ArchiveState,
    r: Result<(), Error>,
) -> bool {
    if writable {
        r is Ok && after == before.appended(wire)
    } else {
        r matches Err(Error::ValueError(_))
    }
}

/// The raw side of an archive: its state, its byte order and the two byte
/// transfers, each usable only in its own mode.
pub trait ArchiveInternal: Sized {
    spec fn state(&self) -> ArchiveState;

    fn is_reading(&self) -> (r: bool)
        ensures
            r == self.state().reading,
    ;

    fn is_little_endian(&self) -> (r: bool)
        ensures
            r == self.state().little_endian,
    ;

    fn set_little_endian(&mut self, little_endian: bool)
        ensures
            final(self).state() == (ArchiveState { little_endian, ..old(self).state() }),
    ;

    /// Writes all of `value`.
    fn write_all(&mut self, value: &[u8]) -> (r: Result<(), Error>)
        requires
            !old(self).state().reading,
        ensures
            r is Ok,
            final(self).state() == old(self).state().appended(value@),
    ;

    /// Fills `value` with the next bytes, or fails if fewer remain.
    fn read_exact(&mut self, value: &mut [u8]) -> (r: Result<(), Error>)
        requires
            old(self).state().reading,
        ensures
            final(value)@.len() == old(value)@.len(),
            old(value)@.len() <= old(self).state().remaining().len() ==> {
                &&& r is Ok
                &&& final(value)@ == old(self).state().remaining().take(old(value)@.len() as int)
                &&& final(self).state() == old(self).state().advanced(old(value)@.len())
            },
            old(value)@.len() > old(self).state().remaining().len() ==> {
                &&& r == Err::<(), Error>(Error::IoError(IoErrorKind::UnexpectedEof))
                &&& final(self).state() == old(self).state()
            },
    ;
}

/// Where a seek is measured from.
#[derive(Debug, Clone, Copy, PartialEq, Eq, Structural)]
pub enum SeekFrom {
    Start(u64),
    End(i64),
    Current(i64),
}

/// The position that a seek asks for, if it is not before the start.
pub open spec fn seek_target(from: SeekFrom, pos: nat, len: nat) -> int {
    match from {
        SeekFrom::Start(n) => n as int,
        SeekFrom::End(k) => len + k,
        SeekFrom::Current(k) => pos + k,
    }
}

/// An archive whose stream can be repositioned.
pub trait ArchiveSeekable: ArchiveInternal {
    /// Moves the position and returns it; a target before the start, or beyond
    /// what a position can hold, is an I/O error and moves nothing.
    fn seek(&mut self, from: SeekFrom) -> (r: Result<u64, Error>)
        ensures
            final(self).state().reading == old(self).state().reading,
            final(self).state().little_endian == old(self).state().little_endian,
            final(self).state().data == old(self).state().data,
            ({
                let t = seek_target(from, old(self).state().pos, old(self).state().data.len());
                match r {
                    Ok(p) => p == t && final(self).state().pos == t,
                    Err(e) => {
                        &&& e == Error::IoError(IoErrorKind::InvalidInput)
                        &&& final(self).state() == old(self).state()
                        &&& (t < 0 || t > usize::MAX)
                    },
                }
            }),
    ;
}

/// The transcoding operations, each written once for both modes.
pub trait Archive: ArchiveInternal {
    /// Reads `value` from the stream, or writes it to the stream.
    fn archive<T: Archivable>(&mut self, value: &mut T) -> (r: Result<(), Error>)
        ensures
            keeps_mode(old(self).state(), final(self).state()),
            old(self).state().reading ==> read_outcome(
                T::from_wire(old(self).state().little_endian, old(self).state().remaining()),
                old(self).state(),
                final(self).state(),
                final(value)@,
                r,
            ),
            !old(self).state().reading ==> final(value)@ == old(value)@ && write_outcome(
                T::writable(old(value)@),
                T::to_wire(old(value)@, old(self).state().little_endian),
                old(self).state(),
                final(self).state(),
                r,
            ),
    {
        value.archive(self)
    }

    /// A value whose presence the caller knows. Reading: `Some` of a value read
    /// when `is_present`, else `None`. Writing: the payload, if any; a presence
    /// that differs from `is_present` is a value error.
    fn archive_option<T: Archivable>(&mut self, is_present: bool, value: &mut Option<T>) -> (r:
        Result<(), Error>)
        ensures
            keeps_mode(old(self).state(), final(self).state()),
            old(self).state().reading && is_present ==> match T::from_wire(
                old(self).state().little_endian,
                old(self).state().remaining(),
            ) {
                Decoded::Value(v, n) => {
                    &&& r is Ok
                    &&& ((*final(value)) matches Some(x) && x@ == v)
                    &&& final(self).state() == old(self).state().advanced(n)
                },
                Decoded::ShortInput => r matches Err(Error::IoError(_)),
                Decoded::Invalid => r matches Err(Error::ValueError(_)),
            },
            old(self).state().reading && !is_present ==> {
                &&& r is Ok
                &&& (*final(value)) is None
                &&& final(self).state() == old(self).state()
            },
            !old(self).state().reading ==> ((*final(value)) is Some <==> (*old(value)) is Some),
            !old(self).state().reading && (*old(value)) is Some ==> (*final(value))->0@ == (*old(value))->0@,
            !old(self).state().reading && is_present != (*old(value)) is Some ==> {
                &&& r matches Err(Error::ValueError(_))
                &&& final(self).state() == old(self).state()
            },
            !old(self).state().reading && !is_present && (*old(value)) is None ==> {
                &&& r is Ok
                &&& final(self).state() == old(self).state()
            },
            !old(self).state().reading && is_present && (*old(value)) is Some ==> write_outcome(
                T::writable((*old(value))->0@),
                T::to_wire((*old(value))->0@, old(self).state().little_endian),
                old(self).state(),
                final(self).state(),
                r,
            ),
    {
        if self.is_reading() {
            if is_present {
                let mut um = T::default();
                let r = self.archive(&mut um);
                if r.is_ok() {
                    *value = Some(um);
                }
                r
            } else {
                *value = None;
                Ok(())
            }
        } else if is_present != value.is_some() {
            crate::result::value_error("presence does not match the optional value")
        } else {
            match value {
                Some(v) => self.archive(v),
                None => Ok(()),
            }
        }
    }

    /// A sequence of `length` items in index order. Reading: `value` becomes
    /// the items read. Writing: the items of `value`; a length other than
    /// `length` is a value error.
    fn archive_vec<T: Archivable>(&mut self, length: usize, value: &mut Vec<T>) -> (r: Result<
        (),
        Error,
    >)
        ensures
            keeps_mode(old(self).state(), final(self).state()),
            old(self).state().reading ==> read_outcome(
                seq_from_wire::<T>(
                    old(self).state().little_endian,
                    old(self).state().remaining(),
                    length as nat,
                ),
                old(self).state(),
                final(self).state(),
                views(final(value)@),
                r,
            ),
            !old(self).state().reading ==> views(final(value)@) == views(old(value)@),
            !old(self).state().reading && length != old(value)@.len() ==> {
                &&& r matches Err(Error::ValueError(_))
                &&& final(self).state() == old(self).state()
            },
            !old(self).state().reading && length == old(value)@.len() ==> write_outcome(
                all_writable::<T>(views(old(value)@)),
                seq_to_wire::<T>(views(old(value)@), old(self).state().little_endian),
                old(self).state(),
                final(self).state(),
                r,
            ),
    {
        let ghost s0 = self.state();
        let ghost le = s0.little_endian;
        if self.is_reading() {
            *value = Vec::new();
            let mut i: usize = 0;
            let ghost mut used: nat = 0;
            assert(views(value@) =~= Seq::<T::V>::empty());
            while i < length
                invariant
                    s0 == old(self).state(),
                    le == s0.little_endian,
                    i <= length,
                    keeps_mode(s0, self.state()),
                    s0.reading,
                    self.state() == s0.advanced(used),
                    seq_from_wire::<T>(le, s0.remaining(), i as nat) == Decoded::Value(
                        views(value@),
                        used,
                    ),
                decreases length - i,
            {
                proof {
                    lemma_seq_consumed::<T>(le, s0.remaining(), i as nat);
                    lemma_remaining_advanced(s0, used);
                    T::lemma_consumed(le, s0.remaining().skip(used as int));
                }
                let ghost vs = views(value@);
                let ghost rest = s0.remaining().skip(used as int);
                assert(self.state().remaining() == rest);
                let mut um = T::default();
                let r = um.archive(self);
                match r {
                    Ok(()) => {
                        value.push(um);
                        proof {
                            if let Decoded::Value(v, m) = T::from_wire(
                                le,
                                s0.remaining().skip(used as int),
                            ) {
                                used = used + m;
                            }
                            assert(views(value@) =~= vs.push(um@));
                        }
                    },
                    Err(e) => {
                        proof {
                            assert(!(T::from_wire(le, rest) is Value));
                            assert(!(seq_from_wire::<T>(le, s0.remaining(), (i + 1) as nat) is Value));
                            lemma_seq_failure_stays::<T>(
                                le,
                                s0.remaining(),
                                (i + 1) as nat,
                                length as nat,
                            );
                        }
                        return Err(e);
                    },
                }
                i = i + 1;
            }
            Ok(())
        } else {
            if length != value.len() {
                return crate::result::value_error("sequence length does not match");
            }
            let ghost vs = views(value@);
            let mut i: usize = 0;
            while i < length
                invariant
                    s0 == old(self).state(),
                    le == s0.little_endian,
                    i <= length,
                    length == value@.len(),
                    views(value@) == views(old(value)@),
                    vs.len() == length,
                    views(value@) == vs,
                    !s0.reading,
                    keeps_mode(s0, self.state()),
                    self.state() == s0.appended(seq_to_wire::<T>(vs.take(i as int), le)),
                    forall|j: int| 0 <= j < i ==> T::writable(#[trigger] vs[j]),
                decreases length - i,
            {
                let ghost before = value@;
                let r = value[i].archive(self);
                proof {
                    assert(vs[i as int] == before[i as int]@);
                    assert(views(value@) =~= vs);
                }
                if r.is_err() {
                    return r;
                }
                proof {
                    assert(vs.take(i + 1).drop_last() =~= vs.take(i as int));
                    assert(self.state().data =~= s0.data + seq_to_wire::<T>(
                        vs.take(i + 1),
                        le,
                    ));
                }
                i = i + 1;
            }
            assert(vs.take(length as int) =~= vs);
            Ok(())
        }
    }

    /// The first `length` items of `value`, transcoded in place in index order;
    /// the items after them are left alone.
    fn archive_slice<T: Archivable>(&mut self, length: usize, value: &mut [T]) -> (r: Result<
        (),
        Error,
    >)
        requires
            length <= old(value)@.len(),
        ensures
            keeps_mode(old(self).state(), final(self).state()),
            final(value)@.len() == old(value)@.len(),
            views(final(value)@).skip(length as int) == views(old(value)@).skip(length as int),
            old(self).state().reading ==> read_outcome(
                seq_from_wire::<T>(
                    old(self).state().little_endian,
                    old(self).state().remaining(),
                    length as nat,
                ),
                old(self).state(),
                final(self).state(),
                views(final(value)@).take(length as int),
                r,
            ),
            !old(self).state().reading ==> views(final(value)@) == views(old(value)@)
                && write_outcome(
                all_writable::<T>(views(old(value)@).take(length as int)),
                seq_to_wire::<T>(
                    views(old(value)@).take(length as int),
                    old(self).state().little_endian,
                ),
                old(self).state(),
                final(self).state(),
                r,
            ),
    {
        let ghost s0 = self.state();
        let ghost le = s0.little_endian;
        let ghost vs = views(value@).take(length as int);
        let ghost tail = views(value@).skip(length as int);
        let mut i: usize = 0;
        let ghost mut used: nat = 0;
        assert(views(value@).take(0) =~= Seq::<T::V>::empty());
        while i < length
            invariant
                s0 == old(self).state(),
                le == s0.little_endian,
                vs == views(old(value)@).take(length as int),
                tail == views(old(value)@).skip(length as int),
                i <= length,
                length <= value@.len(),
                value@.len() == old(value)@.len(),
                keeps_mode(s0, self.state()),
                views(value@).skip(i as int) == views(old(value)@).skip(i as int),
                s0.reading ==> self.state() == s0.advanced(used),
                s0.reading ==> seq_from_wire::<T>(le, s0.remaining(), i as nat) == Decoded::Value(
                    views(value@).take(i as int),
                    used,
                ),
                !s0.reading ==> views(value@) == views(old(value)@),
                !s0.reading ==> self.state() == s0.appended(seq_to_wire::<T>(vs.take(i as int), le)),
                !s0.reading ==> forall|j: int| 0 <= j < i ==> T::writable(#[trigger] vs[j]),
            decreases length - i,
        {
            let ghost before = value@;
            let ghost rest = s0.remaining().skip(used as int);
            proof {
                if s0.reading {
                    lemma_seq_consumed::<T>(le, s0.remaining(), i as nat);
                    lemma_remaining_advanced(s0, used);
                    T::lemma_consumed(le, rest);
                }
            }
            proof {
                assert(views(before)[i as int] == before[i as int]@);
                if !s0.reading {
                    assert(vs[i as int] == views(before)[i as int]);
                }
            }
            let r = value[i].archive(self);
            proof {
                assert(views(value@).skip(i + 1) =~= views(before).skip(i + 1));
                assert forall|k: int| 0 <= k < views(value@).skip(i + 1).len() implies #[trigger] views(
                    value@,
                ).skip(i + 1)[k] == views(old(value)@).skip(i + 1)[k] by {
                    assert(views(before).skip(i as int)[k + 1] == views(old(value)@).skip(i as int)[k
                        + 1]);
                }
                assert(views(value@).skip(i + 1) =~= views(old(value)@).skip(i + 1));
                assert(views(value@).skip(length as int) =~= views(value@).skip(i + 1).skip(
                    length - i - 1,
                ));
                assert(views(old(value)@).skip(length as int) =~= views(old(value)@).skip(
                    i + 1,
                ).skip(length - i - 1));
                assert(views(value@).take(i as int) =~= views(before).take(i as int));
                if !s0.reading {
                    assert(views(value@) =~= views(before));
                }
            }
            if r.is_err() {
                proof {
                    if s0.reading {
                        assert(!(seq_from_wire::<T>(le, s0.remaining(), (i + 1) as nat) is Value));
                        lemma_seq_failure_stays::<T>(
                            le,
                            s0.remaining(),
                            (i + 1) as nat,
                            length as nat,
                        );
                    } else {
                        assert(!all_writable::<T>(vs));
                    }
                }
                return r;
            }
            proof {
                if s0.reading {
                    if let Decoded::Value(v, m) = T::from_wire(le, rest) {
                        used = used + m;
                    }
                    assert(views(value@).take(i + 1) =~= views(before).take(i as int).push(
                        value@[i as int]@,
                    ));
                } else {
                    assert(vs.take(i + 1).drop_last() =~= vs.take(i as int));
                    assert(self.state().data =~= s0.data + seq_to_wire::<T>(vs.take(i + 1), le));
                }
            }
            i = i + 1;
        }
        assert(vs.take(length as int) =~= vs);
        Ok(())
    }

    /// A sequence prefixed by its count as a `TLen`. Writing a sequence whose
    /// length `TLen` cannot hold is a value error.
    fn archive_len_vec<TLen: CountWidth, T: Archivable>(&mut self, value: &mut Vec<T>) -> (r:
        Result<(), Error>)
        ensures
            keeps_mode(old(self).state(), final(self).state()),
            old(self).state().reading ==> read_outcome(
                len_prefixed_from_wire::<TLen, T>(
                    old(self).state().little_endian,
                    old(self).state().remaining(),
                ),
                old(self).state(),
                final(self).state(),
                views(final(value)@),
                r,
            ),
            !old(self).state().reading ==> views(final(value)@) == views(old(value)@)
                && write_outcome(
                len_prefixed_writable::<TLen, T>(views(old(value)@)),
                len_prefixed_to_wire::<TLen, T>(
                    views(old(value)@),
                    old(self).state().little_endian,
                ),
                old(self).state(),
                final(self).state(),
                r,
            ),
    {
        let ghost s0 = self.state();
        let ghost le = s0.little_endian;
        let reading = self.is_reading();
        let count = if reading {
            TLen::from_count(0)
        } else {
            TLen::from_count(value.len())
        };
        match count {
            None => crate::result::value_error("sequence too long for its count width"),
            Some(mut len) => {
                proof {
                    if !reading {
                        TLen::lemma_count(value@.len());
                    }
                    TLen::lemma_consumed(le, s0.remaining());
                    lemma_len_prefixed_consumed::<TLen, T>(le, s0.remaining());
                }
                let r = self.archive(&mut len);
                if r.is_err() {
                    return r;
                }
                let ghost s1 = self.state();
                proof {
                    if reading {
                        if let Decoded::Value(c, n) = TLen::from_wire(le, s0.remaining()) {
                            lemma_remaining_advanced(s0, n);
                        }
                    }
                }
                let n = len.to_count();
                let rv = self.archive_vec(n, value);
                proof {
                    if reading {
                        if let Decoded::Value(c, n) = TLen::from_wire(le, s0.remaining()) {
                            if let Decoded::Value(vs, m) = seq_from_wire::<T>(
                                le,
                                s1.remaining(),
                                TLen::count(c),
                            ) {
                                lemma_seq_consumed::<T>(le, s1.remaining(), TLen::count(c));
                            }
                        }
                    } else if rv is Ok {
                        assert(self.state().data =~= s0.data + len_prefixed_to_wire::<TLen, T>(
                            views(value@),
                            le,
                        ));
                    }
                }
                rv
            },
        }
    }
}

/// Every archive has the transcoding operations.
impl<A: ArchiveInternal> Archive for A {}

} // verus!
