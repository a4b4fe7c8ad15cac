use vstd::prelude::*;
use crate::archive::{ArchiveInternal, ArchiveState};
use crate::result::Error;

verus! {

/// The writing side of the archive mechanism, appending to a buffer in memory.
pub struct ArchiveWriter {
    write: Vec<u8>,
    little_endian: bool,
}

impl ArchiveWriter {
    /// A writer that appends to `write`, little-endian.
    pub fn new(write: Vec<u8>) -> (r: Self)
        ensures
            r.state() == (ArchiveState {
                reading: false,
                little_endian: true,
                data: write@,
                pos: 0,
            }),
    {
        ArchiveWriter { write, little_endian: true }
    }

    /// The bytes held so far: the starting buffer and all that was written.
    pub fn into_inner(self) -> (r: Vec<u8>)
        ensures
            r@ == self.state().data,
    {
        self.write
    }
}

impl ArchiveInternal for ArchiveWriter {
    closed spec fn state(&self) -> ArchiveState {
        ArchiveState { reading: false, little_endian: self.little_endian, data: self.write@, pos: 0 }
    }

    fn is_reading(&self) -> (r: bool) {
        false
    }

    fn is_little_endian(&self) -> (r: bool) {
        self.little_endian
    }

    fn set_little_endian(&mut self, little_endian: bool) {
        self.little_endian = little_endian;
    }

    fn write_all(&mut self, value: &[u8]) -> (r: Result<(), Error>) {
        let ghost start = self.write@;
        let mut i: usize = 0;
        while i < value.len()
            invariant
                i <= value@.len(),
                self.write@ == start + value@.take(i as int),
                start == old(self).write@,
                self.little_endian == old(self).little_endian,
            decreases value@.len() - i,
        {
            self.write.push(value[i]);
            assert(value@.take(i + 1) =~= value@.take(i as int).push(value@[i as int]));
            i = i + 1;
        }
        assert(value@.take(value@.len() as int) =~= value@);
        Ok(())
    }

    fn read_exact(&mut self, value: &mut [u8]) -> (r: Result<(), Error>) {
        Ok(())
    }
}

} // verus!
