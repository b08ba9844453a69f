//! Byte sources and sinks.
//!
//! [`Read`] and [`Write`] describe a stream by the bytes that it has yet to
//! deliver, or has taken so far. Adapters own the stream they wrap and are
//! streams themselves, so they nest.

use crate::error::StreamError;
use crate::utils::{append_bytes, copy_bytes};
use vstd::prelude::*;

verus! {

/// The bytes of a stream, as the contracts speak of them. A type outside the
/// library that is a stream names this type in what it says of itself.
pub type Bytes = Seq<u8>;

/// A source of bytes.
pub trait Read {
    /// The invariant of the source.
    spec fn wf(&self) -> bool;

    /// The bytes that the source has yet to deliver, in order.
    spec fn remaining(&self) -> Bytes;

    /// Whether no `read` of this source fails.
    spec fn reliable(&self) -> bool;

    /// Moves bytes from the front of the source into the front of `buf` and
    /// returns how many; the rest of `buf` stays as it is. The count is zero
    /// only at the end of the source or for an empty `buf`.
    fn read(&mut self, buf: &mut [u8]) -> (r: Result<usize, StreamError>)
        requires
            old(self).wf(),
        ensures
            final(self).wf(),
            final(buf)@.len() == old(buf)@.len(),
            old(self).reliable() ==> r is Ok,
            r matches Ok(n) ==> {
                &&& n <= old(buf)@.len()
                &&& n <= old(self).remaining().len()
                &&& (n == 0 ==> old(buf)@.len() == 0 || old(self).remaining().len() == 0)
                &&& final(buf)@.take(n as int) == old(self).remaining().take(n as int)
                &&& final(buf)@.skip(n as int) == old(buf)@.skip(n as int)
                &&& final(self).remaining() == old(self).remaining().skip(n as int)
                &&& final(self).reliable() == old(self).reliable()
            },
    ;
}

/// A sink of bytes.
pub trait Write {
    /// The invariant of the sink.
    spec fn wf(&self) -> bool;

    /// The bytes that the sink has taken so far, in order.
    spec fn written(&self) -> Bytes;

    /// Whether no `write_all` to this sink fails.
    spec fn reliable(&self) -> bool;

    /// Whether this sink is the sink `earlier` after further writes: what a
    /// sink was made with stays as it is whatever is written to it.
    spec fn follows(&self, earlier: &Self) -> bool;

    /// A sink follows itself.
    proof fn lemma_follows_itself(&self)
        ensures
            self.follows(self),
    ;

    /// What follows a sink that follows another follows that other.
    proof fn lemma_follows_chain(&self, middle: &Self, earlier: &Self)
        requires
            self.follows(middle),
            middle.follows(earlier),
        ensures
            self.follows(earlier),
    ;

    /// Appends all of `buf` to the sink.
    fn write_all(&mut self, buf: &[u8]) -> (r: Result<(), StreamError>)
        requires
            old(self).wf(),
        ensures
            final(self).wf(),
            old(self).reliable() ==> r is Ok,
            r is Ok ==> {
                &&& final(self).written() == old(self).written() + buf@
                &&& final(self).reliable() == old(self).reliable()
                &&& final(self).follows(old(self))
            },
    ;
}

/// A source that delivers the bytes of a vector.
pub struct MemoryReader {
    /// The bytes of the source.
    pub data: Vec<u8>,
    /// How many of them have been delivered.
    pub pos: usize,
}

impl MemoryReader {
    /// A source that will deliver `data` from its first byte.
    pub fn new(data: Vec<u8>) -> (r: Self)
        ensures
            r.wf(),
            r.remaining() == data@,
            r.reliable(),
    {
        MemoryReader { data, pos: 0 }
    }
}

impl Read for MemoryReader {
    open spec fn wf(&self) -> bool {
        self.pos <= self.data@.len()
    }

    open spec fn remaining(&self) -> Seq<u8> {
        self.data@.skip(self.pos as int)
    }

    open spec fn reliable(&self) -> bool {
        true
    }

    fn read(&mut self, buf: &mut [u8]) -> (r: Result<usize, StreamError>)
        ensures
            r matches Ok(n) && (n == old(buf)@.len() || n == old(self).remaining().len()),
            final(self).data == old(self).data,
    {
        let left = self.data.len() - self.pos;
        let n = if buf.len() < left {
            buf.len()
        } else {
            left
        };
        let (head, tail) = buf.split_at_mut(n);
        let src = vstd::slice::slice_subrange(self.data.as_slice(), self.pos, self.pos + n);
        copy_bytes(head, src);
        proof {
            assert(src@ == self.remaining().take(n as int));
            assert(buf@.take(n as int) == head@);
            assert(buf@.skip(n as int) =~= tail@);
            assert(old(buf)@.skip(n as int) =~= tail@);
        }
        self.pos += n;
        proof {
            assert(self.remaining() == old(self).remaining().skip(n as int));
        }
        Ok(n)
    }
}

impl Write for Vec<u8> {
    open spec fn wf(&self) -> bool {
        true
    }

    open spec fn written(&self) -> Seq<u8> {
        self@
    }

    open spec fn reliable(&self) -> bool {
        true
    }

    open spec fn follows(&self, earlier: &Self) -> bool {
        true
    }

    proof fn lemma_follows_itself(&self) {
    }

    proof fn lemma_follows_chain(&self, middle: &Self, earlier: &Self) {
    }

    fn write_all(&mut self, buf: &[u8]) -> (r: Result<(), StreamError>) {
        append_bytes(self, buf);
        Ok(())
    }
}

} // verus!
