//! Abstract byte sources and sinks.
//!
//! A `Read` hands out the bytes of one sequential stream; a `Write` accepts
//! sequential writes. The codec never retains either past the call that uses
//! it, and a single source or sink is never driven by two operations at once.

use vstd::prelude::*;
use crate::error::Error;

verus! {

/// An abstract origin of sequential bytes.
///
/// `readable()` is the sequence of bytes the source will still yield, in
/// order. `source_ok()` says that the transport itself cannot fail: reads on
/// such a source only ever fail by running out of bytes. A source whose
/// transport can fail (a socket, a device) reports that failure as
/// [`Error::Io`].
pub trait Read: Sized {
    /// The bytes this source will still yield, in order.
    spec fn readable(&self) -> Seq<u8>;

    /// True when the transport behind this source cannot fail.
    spec fn source_ok(&self) -> bool;

    /// Reads exactly `n` bytes, or fails distinguishing a short stream
    /// ([`Error::UnexpectedEof`]) from a transport failure ([`Error::Io`]).
    fn read_exact(&mut self, n: usize) -> (r: Result<Vec<u8>, Error>)
        ensures
            final(self).source_ok() == old(self).source_ok(),
            match r {
                Ok(v) => {
                    &&& n <= old(self).readable().len()
                    &&& v@ == old(self).readable().take(n as int)
                    &&& final(self).readable() == old(self).readable().skip(n as int)
                },
                Err(e) => (e == Error::UnexpectedEof && old(self).readable().len() < n) || (e
                    == Error::Io && !old(self).source_ok()),
            },
    ;

    /// Reads between 1 and `max` of the next bytes, fewer than `max` only as
    /// the source pleases; yields an empty result only when `max` is zero or
    /// the stream is exhausted.
    fn read_up_to(&mut self, max: usize) -> (r: Result<Vec<u8>, Error>)
        ensures
            final(self).source_ok() == old(self).source_ok(),
            match r {
                Ok(v) => {
                    &&& v@.len() <= max
                    &&& v@.len() <= old(self).readable().len()
                    &&& v@ == old(self).readable().take(v@.len() as int)
                    &&& final(self).readable() == old(self).readable().skip(v@.len() as int)
                    &&& (v@.len() == 0 ==> max == 0 || old(self).readable().len() == 0)
                },
                Err(e) => e == Error::Io && !old(self).source_ok(),
            },
    ;
}

/// An abstract destination of sequential bytes.
///
/// `written()` is everything accepted so far; `sink_ok()` says the transport
/// cannot fail, so every write is accepted in full.
pub trait Write: Sized {
    /// Every byte this sink has accepted so far, in order.
    spec fn written(&self) -> Seq<u8>;

    /// True when the transport behind this sink cannot fail.
    spec fn sink_ok(&self) -> bool;

    /// Accepts the whole buffer, or fails with [`Error::Io`].
    fn write_all(&mut self, buf: &[u8]) -> (r: Result<(), Error>)
        ensures
            final(self).sink_ok() == old(self).sink_ok(),
            match r {
                Ok(()) => final(self).written() == old(self).written() + buf@,
                Err(e) => e == Error::Io && !old(self).sink_ok(),
            },
    ;
}

/// A byte source over a fixed in-memory buffer, advancing a cursor.
pub struct SliceReader<'a> {
    data: &'a [u8],
    pos: usize,
}

impl<'a> SliceReader<'a> {
    /// The cursor never passes the end of the buffer.
    #[verifier::type_invariant]
    closed spec fn wf(self) -> bool {
        self.pos <= self.data@.len()
    }

    /// Starts reading at the front of `data`.
    pub fn new(data: &'a [u8]) -> (r: SliceReader<'a>)
        ensures
            r.readable() == data@,
            r.source_ok(),
    {
        SliceReader { data, pos: 0 }
    }

    /// How many bytes are left to read.
    pub fn remaining_len(&self) -> (n: usize)
        ensures
            n == self.readable().len(),
    {
        proof {
            use_type_invariant(self);
        }
        self.data.len() - self.pos
    }
}

impl<'a> Read for SliceReader<'a> {
    closed spec fn readable(&self) -> Seq<u8> {
        self.data@.skip(self.pos as int)
    }

    closed spec fn source_ok(&self) -> bool {
        true
    }

    fn read_exact(&mut self, n: usize) -> (r: Result<Vec<u8>, Error>) {
        proof {
            use_type_invariant(&*self);
        }
        if n > self.data.len() - self.pos {
            return Err(Error::UnexpectedEof);
        }
        let end: usize = self.pos + n;
        let mut out: Vec<u8> = Vec::new();
        let mut i: usize = 0;
        while i < n
            invariant
                i <= n,
                end == self.pos + n,
                self.pos + n <= self.data@.len(),
                out@ =~= self.data@.subrange(self.pos as int, self.pos + i as int),
            decreases n - i,
        {
            out.push(self.data[self.pos + i]);
            i = i + 1;
        }
        let ghost old_self = *self;
        self.pos = self.pos + n;
        proof {
            assert(out@ =~= old_self.readable().take(n as int));
            assert(self.readable() =~= old_self.readable().skip(n as int));
        }
        Ok(out)
    }

    fn read_up_to(&mut self, max: usize) -> (r: Result<Vec<u8>, Error>) {
        proof {
            use_type_invariant(&*self);
        }
        let have = self.data.len() - self.pos;
        let n = if max < have {
            max
        } else {
            have
        };
        self.read_exact(n)
    }
}

impl Write for Vec<u8> {
    open spec fn written(&self) -> Seq<u8> {
        self@
    }

    open spec fn sink_ok(&self) -> bool {
        true
    }

    fn write_all(&mut self, buf: &[u8]) -> (r: Result<(), Error>) {
        self.extend_from_slice(buf);
        Ok(())
    }
}

} // verus!
