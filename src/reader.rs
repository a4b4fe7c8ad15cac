use vstd::prelude::*;
use crate::archive::{ArchiveInternal, ArchiveSeekable, ArchiveState, SeekFrom, seek_target};
use crate::result::{Error, IoErrorKind, io_error};

verus! {

/// The reading side of the archive mechanism, over an input held in memory.
pub struct ArchiveReader {
    read: Vec<u8>,
    pos: usize,
    little_endian: bool,
}

impl ArchiveReader {
    /// A reader at the start of `read`, little-endian.
    pub fn new(read: Vec<u8>) -> (r: Self)
        ensures
            r.state() == (ArchiveState {
                reading: true,
                little_endian: true,
                data: read@,
                pos: 0,
            }),
    {
        ArchiveReader { read, pos: 0, little_endian: true }
    }
}

impl ArchiveInternal for ArchiveReader {
    closed spec fn state(&self) -> ArchiveState {
        ArchiveState {
            reading: true,
            little_endian: self.little_endian,
            data: self.read@,
            pos: self.pos as nat,
        }
    }

    fn is_reading(&self) -> (r: bool) {
        true
    }

    fn is_little_endian(&self) -> (r: bool) {
        self.little_endian
    }

    fn set_little_endian(&mut self, little_endian: bool) {
        self.little_endian = little_endian;
    }

    fn write_all(&mut self, value: &[u8]) -> (r: Result<(), Error>) {
        Ok(())
    }

    fn read_exact(&mut self, value: &mut [u8]) -> (r: Result<(), Error>) {
        let n = value.len();
        if n == 0 {
            assert(value@ =~= self.state().remaining().take(0));
            return Ok(());
        }
        if self.pos > self.read.len() || self.read.len() - self.pos < n {
            return io_error(IoErrorKind::UnexpectedEof);
        }
        let ghost rest = self.state().remaining();
        let mut i: usize = 0;
        while i < n
            invariant
                i <= n,
                n == value@.len(),
                self.pos + n <= self.read@.len(),
                self.read@.len() <= usize::MAX,
                rest == self.read@.skip(self.pos as int),
                forall|j: int| 0 <= j < i ==> value@[j] == rest[j],
            decreases n - i,
        {
            value[i] = self.read[self.pos + i];
            i = i + 1;
        }
        assert(value@ =~= rest.take(n as int));
        self.pos = self.pos + n;
        Ok(())
    }
}

impl ArchiveSeekable for ArchiveReader {
    fn seek(&mut self, from: SeekFrom) -> (r: Result<u64, Error>) {
        let len = self.read.len();
        let target: i128 = match from {
            SeekFrom::Start(n) => n as i128,
            SeekFrom::End(k) => len as i128 + k as i128,
            SeekFrom::Current(k) => self.pos as i128 + k as i128,
        };
        assert(target == seek_target(from, self.pos as nat, self.read@.len()));
        if target < 0 || target > usize::MAX as i128 {
            return io_error(IoErrorKind::InvalidInput);
        }
        self.pos = target as usize;
        Ok(target as u64)
    }
}

} // verus!
