//! The block-addressable file store of the sync engine.
//!
//! `BlockFile` is the store both roles work on: sequential fingerprinting
//! with an internal cursor, random-access block read and write, and length
//! get/set.  The store keeps the underlying position (`fpos`) explicit, and
//! every random-access operation restores it to `cursor * blocksize`, so the
//! sequential fingerprint walk and random access can be freely interleaved.
//! The contents are held as plain bytes; opening and closing an actual file
//! handle is the caller's business.
use vstd::prelude::*;

use crate::SyncError;
use crate::hashes::xxh3_64_digest;
use crate::hashes::xxh3_of;
use crate::model::min_int;
use crate::model::resized;
use crate::model::write_at;
use crate::model::zeros;

verus! {

pub struct BlockFile {
    data: Vec<u8>,
    blocksize: u64,
    next_block: u64,
    pos: u64,
    writeable: bool,
}

impl BlockFile {
    /// The file's bytes.
    pub closed spec fn bytes(&self) -> Seq<u8> {
        self.data@
    }

    /// Bytes per block, uniform except for a possibly shorter final block.
    pub closed spec fn bsize(&self) -> u64 {
        self.blocksize
    }

    /// Index of the next block the sequential fingerprint walk will hash.
    pub closed spec fn cursor(&self) -> u64 {
        self.next_block
    }

    /// The underlying byte position the next sequential read starts at.
    pub closed spec fn fpos(&self) -> u64 {
        self.pos
    }

    pub closed spec fn is_writable(&self) -> bool {
        self.writeable
    }

    pub open spec fn wf(&self) -> bool {
        self.bsize() >= 1
    }

    /// Opens a store over the given contents.
    pub fn new(data: Vec<u8>, blocksize: u64, writeable: bool) -> (r: Self)
        requires
            blocksize >= 1,
        ensures
            r.bytes() == data@,
            r.bsize() == blocksize,
            r.cursor() == 0,
            r.fpos() == 0,
            r.is_writable() == writeable,
            r.wf(),
    {
        BlockFile { data, blocksize, next_block: 0, pos: 0, writeable }
    }

    /// The fingerprint width of this store's strategy, in bytes.
    pub fn get_hash_size() -> (r: usize)
        ensures
            r == 8,
    {
        8
    }

    pub fn get_next_block(&self) -> (r: u64)
        ensures
            r == self.cursor(),
    {
        self.next_block
    }

    pub(crate) fn blocksize_value(&self) -> (r: u64)
        ensures
            r == self.bsize(),
    {
        self.blocksize
    }

    /// Moves only the cursor, not the underlying position: a following
    /// random-access call realigns the position, a following sequential
    /// fingerprint does not.
    pub fn set_next_block(&mut self, next_block: u64)
        ensures
            final(self).cursor() == next_block,
            final(self).bytes() == old(self).bytes(),
            final(self).bsize() == old(self).bsize(),
            final(self).fpos() == old(self).fpos(),
            final(self).is_writable() == old(self).is_writable(),
    {
        self.next_block = next_block;
    }

    /// Length of the file; restores the underlying position to
    /// `cursor * blocksize` afterward.
    pub fn get_len(&mut self) -> (r: Result<u64, SyncError>)
        requires
            old(self).wf(),
            old(self).cursor() * old(self).bsize() <= u64::MAX,
        ensures
            r == Ok::<u64, SyncError>(old(self).bytes().len() as u64),
            old(self).bytes().len() <= usize::MAX,
            final(self).bytes() == old(self).bytes(),
            final(self).bsize() == old(self).bsize(),
            final(self).cursor() == old(self).cursor(),
            final(self).is_writable() == old(self).is_writable(),
            final(self).fpos() == final(self).cursor() * final(self).bsize(),
    {
        let len = self.data.len() as u64;
        self.pos = self.next_block * self.blocksize;
        Ok(len)
    }

    /// Sets the file length: truncates, or sparsely extends with zero bytes.
    /// Fails exactly when the store was opened read-only.  The cursor and the
    /// underlying position are left where they were.
    pub fn set_len(&mut self, len: u64) -> (r: Result<(), SyncError>)
        requires
            old(self).wf(),
            len <= usize::MAX,
        ensures
            old(self).is_writable() ==> r == Ok::<(), SyncError>(()) && final(self).bytes()
                == resized(old(self).bytes(), len as int),
            !old(self).is_writable() ==> r == Err::<(), SyncError>(SyncError::IoError) && final(self).bytes() == old(self).bytes(),
            final(self).bsize() == old(self).bsize(),
            final(self).cursor() == old(self).cursor(),
            final(self).fpos() == old(self).fpos(),
            final(self).is_writable() == old(self).is_writable(),
    {
        if !self.writeable {
            return Err(SyncError::IoError);
        }
        let target: usize = len as usize;
        if self.data.len() >= target {
            self.data.truncate(target);
            proof {
                assert(self.data@ =~= resized(old(self).bytes(), len as int));
            }
        } else {
            let ghost orig = self.data@;
            while self.data.len() < target
                invariant
                    orig.len() <= self.data@.len() <= target,
                    self.data@ == orig + zeros(self.data@.len() - orig.len()),
                    self.blocksize == old(self).bsize(),
                    self.next_block == old(self).cursor(),
                    self.pos == old(self).fpos(),
                    self.writeable == old(self).is_writable(),
                    orig == old(self).bytes(),
                decreases target - self.data@.len(),
            {
                self.data.push(0u8);
                proof {
                    assert(self.data@ =~= orig + zeros(self.data@.len() - orig.len()));
                }
            }
            proof {
                assert(self.data@ =~= resized(old(self).bytes(), len as int));
            }
        }
        Ok(())
    }

    /// Hashes the next block of the sequential walk: up to `blocksize` bytes
    /// starting at the underlying position, fewer for a final short block.
    /// Yields nothing at end of file, and then changes nothing.
    pub fn next_blockhash(&mut self) -> (r: Option<u64>)
        requires
            old(self).wf(),
            old(self).cursor() < u64::MAX,
        ensures
            old(self).fpos() >= old(self).bytes().len() ==> r is None && *final(self) == *old(self),
            old(self).fpos() < old(self).bytes().len() ==> ({
                let start = old(self).fpos() as int;
                let n = min_int(old(self).bsize() as int, old(self).bytes().len() - start);
                &&& r == Some(xxh3_of(old(self).bytes().subrange(start, start + n)))
                &&& final(self).fpos() == start + n
                &&& final(self).cursor() == old(self).cursor() + 1
                &&& final(self).bytes() == old(self).bytes()
                &&& final(self).bsize() == old(self).bsize()
                &&& final(self).is_writable() == old(self).is_writable()
            }),
    {
        let len_u: usize = self.data.len();
        if self.pos >= len_u as u64 {
            return None;
        }
        let start: usize = self.pos as usize;
        let avail: usize = len_u - start;
        let n: usize = if self.blocksize <= avail as u64 {
            self.blocksize as usize
        } else {
            avail
        };
        let mut chunk: Vec<u8> = Vec::new();
        proof {
            assert(chunk@ =~= self.data@.subrange(start as int, start as int));
        }
        let mut i: usize = 0;
        while i < n
            invariant
                i <= n,
                self.data@.len() == len_u,
                start + n <= len_u,
                chunk@ == self.data@.subrange(start as int, start as int + i as int),
            decreases n - i,
        {
            chunk.push(self.data[start + i]);
            proof {
                assert(chunk@ =~= self.data@.subrange(start as int, start as int + i + 1));
            }
            i += 1;
        }
        let h = xxh3_64_digest(&chunk);
        self.next_block = self.next_block + 1;
        self.pos = self.pos + n as u64;
        Some(h)
    }

    /// Repositions both the cursor and the underlying position to the start
    /// of the given block.
    pub fn seek(&mut self, block: u64) -> (r: Result<(), SyncError>)
        requires
            old(self).wf(),
            block * old(self).bsize() <= u64::MAX,
        ensures
            r == Ok::<(), SyncError>(()),
            final(self).cursor() == block,
            final(self).fpos() == block * old(self).bsize(),
            final(self).bytes() == old(self).bytes(),
            final(self).bsize() == old(self).bsize(),
            final(self).is_writable() == old(self).is_writable(),
    {
        self.pos = block * self.blocksize;
        self.next_block = block;
        Ok(())
    }

    /// Reads block `block` into the front of `buf` (up to `buf.len()` bytes;
    /// fewer only past the end of the file) and restores the underlying
    /// position to `cursor * blocksize`.  The cursor itself is untouched.
    pub fn get_block(&mut self, block: u64, buf: &mut Vec<u8>) -> (r: Result<usize, SyncError>)
        requires
            old(self).wf(),
            block * old(self).bsize() <= u64::MAX,
            old(self).cursor() * old(self).bsize() <= u64::MAX,
        ensures
            ({
                let start = block * old(self).bsize();
                let flen = old(self).bytes().len() as int;
                let n = if start >= flen {
                    0
                } else {
                    min_int(old(buf)@.len() as int, flen - start)
                };
                &&& r == Ok::<usize, SyncError>(n as usize)
                &&& n == 0 ==> final(buf)@ == old(buf)@
                &&& n > 0 ==> final(buf)@ == old(self).bytes().subrange(start as int, start + n)
                    + old(buf)@.skip(n)
                &&& final(buf)@.len() == old(buf)@.len()
            }),
            final(self).bytes() == old(self).bytes(),
            final(self).bsize() == old(self).bsize(),
            final(self).cursor() == old(self).cursor(),
            final(self).is_writable() == old(self).is_writable(),
            final(self).fpos() == final(self).cursor() * final(self).bsize(),
    {
        let start_w: u64 = block * self.blocksize;
        let len_u: usize = self.data.len();
        let n: usize = if start_w >= len_u as u64 {
            0
        } else {
            let avail: usize = len_u - start_w as usize;
            if buf.len() <= avail {
                buf.len()
            } else {
                avail
            }
        };
        proof {
            if n > 0 {
                assert(buf@ =~= self.data@.subrange(start_w as int, start_w as int) + old(buf)@.skip(0));
            }
        }
        let mut i: usize = 0;
        while i < n
            invariant
                i <= n,
                self.data@.len() == len_u,
                n == 0 || start_w + n <= len_u,
                n <= buf@.len(),
                buf@.len() == old(buf)@.len(),
                self.data@ == old(self).bytes(),
                n == 0 ==> buf@ == old(buf)@,
                n > 0 ==> buf@ == old(self).bytes().subrange(
                    start_w as int,
                    start_w as int + i as int,
                ) + old(buf)@.skip(i as int),
                start_w == block * old(self).bsize(),
            decreases n - i,
        {
            let di: usize = start_w as usize + i;
            buf[i] = self.data[di];
            proof {
                assert(buf@ =~= old(self).bytes().subrange(start_w as int, start_w as int + i + 1)
                    + old(buf)@.skip(i + 1));
            }
            i += 1;
        }
        self.pos = self.next_block * self.blocksize;
        Ok(n)
    }

    /// Writes `buf` at the start of block `block` (sparsely extending with
    /// zeros when the file is shorter) and restores the underlying position
    /// to `cursor * blocksize`.  Fails exactly when the store was opened
    /// read-only, and then changes nothing.
    pub fn write_block(&mut self, block: u64, buf: &[u8]) -> (r: Result<usize, SyncError>)
        requires
            old(self).wf(),
            block * old(self).bsize() + buf@.len() <= usize::MAX,
            old(self).cursor() * old(self).bsize() <= u64::MAX,
        ensures
            old(self).is_writable() ==> ({
                &&& r == Ok::<usize, SyncError>(buf@.len() as usize)
                &&& final(self).bytes() == write_at(
                    old(self).bytes(),
                    block * old(self).bsize(),
                    buf@,
                )
                &&& final(self).fpos() == final(self).cursor() * final(self).bsize()
            }),
            !old(self).is_writable() ==> r == Err::<usize, SyncError>(SyncError::IoError) && *final(self) == *old(self),
            final(self).bsize() == old(self).bsize(),
            final(self).cursor() == old(self).cursor(),
            final(self).is_writable() == old(self).is_writable(),
    {
        if !self.writeable {
            return Err(SyncError::IoError);
        }
        proof {
            assert(block * self.bsize() >= 0) by (nonlinear_arith)
                requires
                    self.bsize() >= 1,
            ;
        }
        let start: usize = (block * self.blocksize) as usize;
        let ghost orig = self.data@;
        while self.data.len() < start
            invariant
                orig.len() <= self.data@.len(),
                self.data@.len() <= if orig.len() >= start as int {
                    orig.len() as int
                } else {
                    start as int
                },
                self.data@ == orig + zeros(self.data@.len() - orig.len()),
                self.blocksize == old(self).bsize(),
                self.next_block == old(self).cursor(),
                self.pos == old(self).fpos(),
                self.writeable == old(self).is_writable(),
                orig == old(self).bytes(),
            decreases start - self.data@.len(),
        {
            self.data.push(0u8);
            proof {
                assert(self.data@ =~= orig + zeros(self.data@.len() - orig.len()));
            }
        }
        let ghost padded = if orig.len() >= start as int {
            orig
        } else {
            orig + zeros(start as int - orig.len())
        };
        proof {
            assert(self.data@ =~= padded);
            assert(self.data@.subrange(0, start as int) =~= padded.subrange(0, start as int));
            assert(self.data@.subrange(start as int, start as int) =~= buf@.subrange(0, 0));
        }
        let mut i: usize = 0;
        while i < buf.len()
            invariant
                i <= buf@.len(),
                start + buf@.len() <= usize::MAX,
                start <= padded.len(),
                self.data@.len() == if padded.len() >= start + i {
                    padded.len() as int
                } else {
                    start + i
                },
                self.data@.subrange(0, start as int) == padded.subrange(0, start as int),
                self.data@.subrange(start as int, start + i) == buf@.subrange(0, i as int),
                forall|j: int| start + i <= j < self.data@.len() ==> self.data@[j] == padded[j],
                self.blocksize == old(self).bsize(),
                self.next_block == old(self).cursor(),
                self.pos == old(self).fpos(),
                self.writeable == old(self).is_writable(),
            decreases buf@.len() - i,
        {
            if start + i < self.data.len() {
                let di: usize = start + i;
                self.data[di] = buf[i];
            } else {
                self.data.push(buf[i]);
            }
            proof {
                assert(self.data@.subrange(0, start as int) =~= padded.subrange(0, start as int));
                assert(self.data@.subrange(start as int, start + i + 1) =~= buf@.subrange(
                    0,
                    i + 1,
                ));
            }
            i += 1;
        }
        self.pos = self.next_block * self.blocksize;
        proof {
            let s = block * old(self).bsize();
            let w = write_at(old(self).bytes(), s, buf@);
            assert(self.data@.len() == w.len());
            assert forall|j: int| 0 <= j < w.len() implies self.data@[j] == w[j] by {
                if j < s {
                    assert(self.data@.subrange(0, s)[j] == padded.subrange(0, s)[j]);
                } else if j < s + buf@.len() {
                    assert(self.data@.subrange(s, s + buf@.len() as int)[j - s] == buf@.subrange(
                        0,
                        buf@.len() as int,
                    )[j - s]);
                }
            }
            assert(self.data@ =~= w);
        }
        Ok(buf.len())
    }
}

} // verus!
