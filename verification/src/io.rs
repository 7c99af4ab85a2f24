//! Block devices: the errors their reads and writes give, and the traits they implement.

use vstd::prelude::*;

verus! {

/// Why a read failed.
#[derive(Clone, Copy, Debug)]
pub enum ReadError {
    /// The length of the buffer is not valid for the reader.
    InvalidBufferLength { length: usize },
    /// The offset was past the end of the reader's buffer.
    OffsetPastEnd { offset: usize, max_offset: usize },
    /// The read timed out.
    TimedOut,
    /// Some other error, described by its message.
    Other(&'static str),
}

/// Why a write failed.
#[derive(Clone, Copy, Debug)]
pub enum WriteError {
    /// The offset was past the end of the writer's buffer.
    OffsetPastEnd { offset: usize, max_offset: usize },
    /// The write timed out.
    TimedOut,
    /// Some other error, described by its message.
    Other(&'static str),
}

impl ReadError {
    /// The error that carries `message`.
    pub fn from_message(message: &'static str) -> (r: Self)
        ensures
            r == ReadError::Other(message),
    {
        ReadError::Other(message)
    }
}

impl WriteError {
    /// The error that carries `message`.
    pub fn from_message(message: &'static str) -> (r: Self)
        ensures
            r == WriteError::Other(message),
    {
        WriteError::Other(message)
    }
}

/// Something whose written contents can be flushed.
pub trait Flush {
    fn flush(&mut self) -> Result<(), &'static str>;
}

/// Something read and written in blocks of a fixed size.
pub trait BlockSize {
    fn block_size(&self) -> usize;
}

/// A device that reads whole blocks.
pub trait BlockReader: BlockSize {
    /// The `len` bytes the device holds from the start of block `offset` on. A device that
    /// reads anything says what it holds in its own definition; the one given here, nothing,
    /// is never used for a device whose type is not known.
    closed spec fn contents(&self, offset: int, len: nat) -> Seq<u8> {
        Seq::empty()
    }

    /// Reads blocks, from block `offset` on, into `buffer`, whose length a slice keeps: when
    /// the read succeeds, the buffer holds what the device holds there. Reading changes
    /// nothing the device holds.
    fn read_blocks(&mut self, offset: usize, buffer: &mut [u8]) -> (r: Result<usize, ReadError>)
        ensures
            final(buffer)@.len() == old(buffer)@.len(),
            r is Ok ==> final(buffer)@ == old(self).contents(offset as int, old(buffer)@.len()),
            forall|o: int, l: nat| #[trigger] final(self).contents(o, l) == old(self).contents(o, l),
    ;
}

/// A device that writes whole blocks.
pub trait BlockWriter: Flush + BlockSize {
    fn write_blocks(&mut self, offset: usize, buffer: &[u8]) -> Result<usize, WriteError>;
}

} // verus!
