//! Exact reads over a stream that delivers short counts.
//!
//! A duplex byte stream may hand back fewer bytes per read call than asked;
//! that is normal and not an end-of-stream signal.  `InStream` models such a
//! stream: it holds the bytes still to arrive and a cap on how many one raw
//! read can deliver.  `read_exact` accumulates raw reads until the buffer is
//! full, and treats a read that yields nothing as a fault.
use vstd::prelude::*;

use crate::SyncError;
use crate::model::min_int;

verus! {

pub struct InStream {
    data: Vec<u8>,
    pos: usize,
    max_chunk: usize,
}

impl InStream {
    /// All bytes the stream will ever deliver.
    pub closed spec fn contents(&self) -> Seq<u8> {
        self.data@
    }

    /// How many of them have been consumed.
    pub closed spec fn position(&self) -> int {
        self.pos as int
    }

    /// The most bytes one raw read hands over.
    pub closed spec fn chunk_limit(&self) -> int {
        self.max_chunk as int
    }

    pub open spec fn wf(&self) -> bool {
        self.chunk_limit() >= 1 && self.position() <= self.contents().len()
    }

    pub fn new(data: Vec<u8>, max_chunk: usize) -> (r: Self)
        requires
            max_chunk >= 1,
        ensures
            r.contents() == data@,
            r.position() == 0,
            r.chunk_limit() == max_chunk,
            r.wf(),
    {
        InStream { data, pos: 0, max_chunk }
    }

    /// One raw read into `buf[start..]`: delivers up to `chunk_limit` bytes,
    /// fewer when the buffer or the stream has less room.  Zero only at end
    /// of stream.
    fn read_some(&mut self, buf: &mut Vec<u8>, start: usize) -> (n: usize)
        requires
            old(self).wf(),
            start <= old(buf)@.len(),
        ensures
            final(self).wf(),
            final(self).contents() == old(self).contents(),
            final(self).chunk_limit() == old(self).chunk_limit(),
            n == min_int(
                old(self).chunk_limit(),
                min_int(
                    old(buf)@.len() - start,
                    old(self).contents().len() - old(self).position(),
                ),
            ),
            final(self).position() == old(self).position() + n,
            final(buf)@.len() == old(buf)@.len(),
            final(buf)@ == old(buf)@.subrange(0, start as int) + old(self).contents().subrange(
                old(self).position(),
                old(self).position() + n,
            ) + old(buf)@.skip(start + n),
    {
        let avail: usize = self.data.len() - self.pos;
        let want: usize = buf.len() - start;
        let mut n: usize = self.max_chunk;
        if want < n {
            n = want;
        }
        if avail < n {
            n = avail;
        }
        proof {
            assert(buf@ =~= old(buf)@.subrange(0, start as int) + old(self).contents().subrange(
                old(self).position(),
                old(self).position(),
            ) + old(buf)@.skip(start as int));
        }
        let mut i: usize = 0;
        while i < n
            invariant
                i <= n,
                start + n <= old(buf)@.len(),
                self.pos + n <= self.data@.len(),
                self.data@.len() <= usize::MAX,
                old(buf)@.len() <= usize::MAX,
                self.data@ == old(self).contents(),
                self.pos == old(self).position(),
                self.max_chunk == old(self).chunk_limit(),
                buf@.len() == old(buf)@.len(),
                buf@ == old(buf)@.subrange(0, start as int) + old(self).contents().subrange(
                    old(self).position(),
                    old(self).position() + i,
                ) + old(buf)@.skip(start + i),
            decreases n - i,
        {
            let si: usize = self.pos + i;
            let di: usize = start + i;
            buf[di] = self.data[si];
            proof {
                assert(buf@ =~= old(buf)@.subrange(0, start as int) + old(
                    self,
                ).contents().subrange(old(self).position(), old(self).position() + i + 1) + old(
                    buf,
                )@.skip(start + i + 1));
            }
            i += 1;
        }
        self.pos = self.pos + n;
        n
    }
}

/// Reads exactly `buf.len()` bytes from the stream into `buf`, looping over
/// short reads.  Succeeds exactly when the stream still holds that many
/// bytes; a persistent zero-length read before then is an `IoError`.
pub fn read_exact(r: &mut InStream, buf: &mut Vec<u8>) -> (res: Result<(), SyncError>)
    requires
        old(r).wf(),
    ensures
        final(r).wf(),
        final(r).contents() == old(r).contents(),
        final(r).chunk_limit() == old(r).chunk_limit(),
        final(buf)@.len() == old(buf)@.len(),
        res is Ok <==> old(r).position() + old(buf)@.len() <= old(r).contents().len(),
        res is Ok ==> final(buf)@ == old(r).contents().subrange(
            old(r).position(),
            old(r).position() + old(buf)@.len(),
        ) && final(r).position() == old(r).position() + old(buf)@.len(),
        res is Err ==> res == Err::<(), SyncError>(SyncError::IoError) && final(r).position()
            == final(r).contents().len(),
{
    let mut read_bytes: usize = 0;
    proof {
        assert(buf@ =~= old(r).contents().subrange(old(r).position(), old(r).position()) + old(
            buf,
        )@.skip(0));
    }
    while read_bytes < buf.len()
        invariant
            r.wf(),
            read_bytes <= buf@.len(),
            buf@.len() == old(buf)@.len(),
            r.contents() == old(r).contents(),
            r.chunk_limit() == old(r).chunk_limit(),
            r.position() == old(r).position() + read_bytes,
            buf@ == old(r).contents().subrange(
                old(r).position(),
                old(r).position() + read_bytes,
            ) + old(buf)@.skip(read_bytes as int),
        decreases buf@.len() - read_bytes,
    {
        let n = r.read_some(buf, read_bytes);
        if n == 0 {
            return Err(SyncError::IoError);
        }
        proof {
            assert(buf@ =~= old(r).contents().subrange(
                old(r).position(),
                old(r).position() + read_bytes + n,
            ) + old(buf)@.skip(read_bytes + n));
        }
        read_bytes += n;
    }
    proof {
        assert(buf@ =~= old(r).contents().subrange(
            old(r).position(),
            old(r).position() + old(buf)@.len(),
        ));
    }
    Ok(())
}

} // verus!
