//! The cryptographic-digest reader: the earlier fingerprint strategy.
//!
//! `bsyncReader` walks a file block by block and fingerprints each block with
//! SHA3-256, rendered as 64 lower-case hex digits.  As with `BlockFile`, a
//! random-access read restores the underlying position to the sequential
//! walk's block, so the two can be interleaved freely.  The two strategies
//! expose the same surface, and a session must use one of them on both sides
//! throughout.
use vstd::prelude::*;

use crate::SyncError;
use crate::hashes::hex_encode_lower;
use crate::hashes::hex_lower_of;
use crate::hashes::sha3_256_digest;
use crate::hashes::sha3_256_of;
use crate::model::min_int;

verus! {

#[allow(non_camel_case_types)]
pub struct bsyncReader {
    data: Vec<u8>,
    blocksize: usize,
    next_block: usize,
    pos: usize,
}

impl bsyncReader {
    /// The file's bytes.
    pub closed spec fn bytes(&self) -> Seq<u8> {
        self.data@
    }

    pub closed spec fn bsize(&self) -> usize {
        self.blocksize
    }

    /// Index of the next block of the sequential fingerprint walk.
    pub closed spec fn cursor(&self) -> usize {
        self.next_block
    }

    /// The underlying byte position the next read starts at.
    pub closed spec fn fpos(&self) -> usize {
        self.pos
    }

    pub open spec fn wf(&self) -> bool {
        self.bsize() >= 1
    }

    /// Opens a reader over the given contents.
    pub fn new(data: Vec<u8>, blocksize: usize) -> (r: Self)
        requires
            blocksize >= 1,
        ensures
            r.bytes() == data@,
            r.bsize() == blocksize,
            r.cursor() == 0,
            r.fpos() == 0,
            r.wf(),
    {
        bsyncReader { data, blocksize, next_block: 0, pos: 0 }
    }

    /// The width of this strategy's digest, in bytes.
    pub fn get_hash_size() -> (r: usize)
        ensures
            r == 32,
    {
        32
    }

    pub fn get_next_block(&self) -> (r: usize)
        ensures
            r == self.cursor(),
    {
        self.next_block
    }

    /// Moves only the cursor; the underlying position is untouched.
    pub fn set_next_block(&mut self, next_block: usize)
        ensures
            final(self).cursor() == next_block,
            final(self).bytes() == old(self).bytes(),
            final(self).bsize() == old(self).bsize(),
            final(self).fpos() == old(self).fpos(),
    {
        self.next_block = next_block;
    }

    /// Fingerprints the next block of the sequential walk: the SHA3-256
    /// digest of up to `blocksize` bytes at the underlying position, as 64
    /// hex digits.  Yields nothing at end of file, and then changes nothing.
    pub fn next_blockhash(&mut self) -> (r: Option<Vec<u8>>)
        requires
            old(self).wf(),
            old(self).cursor() < usize::MAX,
        ensures
            old(self).fpos() >= old(self).bytes().len() ==> r is None && *final(self) == *old(
                self,
            ),
            old(self).fpos() < old(self).bytes().len() ==> ({
                let start = old(self).fpos() as int;
                let n = min_int(old(self).bsize() as int, old(self).bytes().len() - start);
                &&& r matches Some(h) && h@ == hex_lower_of(
                    sha3_256_of(old(self).bytes().subrange(start, start + n)),
                ) && h@.len() == 64
                &&& final(self).fpos() == start + n
                &&& final(self).cursor() == old(self).cursor() + 1
                &&& final(self).bytes() == old(self).bytes()
                &&& final(self).bsize() == old(self).bsize()
            }),
    {
        let len_u: usize = self.data.len();
        if self.pos >= len_u {
            return None;
        }
        let start: usize = self.pos;
        let avail: usize = len_u - start;
        let n: usize = if self.blocksize <= avail {
            self.blocksize
        } else {
            avail
        };
        let mut chunk: Vec<u8> = Vec::new();
        proof {
            assert(chunk@ =~= self.data@.subrange(start as int, start as int));
        }
        let mut i: usize = 0;
        while i < n
            invariant
                i <= n,
                self.data@.len() == len_u,
                start + n <= len_u,
                chunk@ == self.data@.subrange(start as int, start as int + i as int),
            decreases n - i,
        {
            chunk.push(self.data[start + i]);
            proof {
                assert(chunk@ =~= self.data@.subrange(start as int, start as int + i + 1));
            }
            i += 1;
        }
        let digest = sha3_256_digest(&chunk);
        let mut hashbuf: Vec<u8> = Vec::new();
        let mut j: usize = 0;
        while j < 64
            invariant
                j <= 64,
                hashbuf@.len() == j,
            decreases 64 - j,
        {
            hashbuf.push(0u8);
            j += 1;
        }
        let ok = hex_encode_lower(&digest, &mut hashbuf);
        if !ok {
            // unreachable: the buffer is exactly twice the digest width
            return None;
        }
        proof {
            assert(hashbuf@ =~= hex_lower_of(digest@));
        }
        self.next_block = self.next_block + 1;
        self.pos = self.pos + n;
        Some(hashbuf)
    }

    /// Repositions both the cursor and the underlying position to the start
    /// of the given block.
    pub fn seek(&mut self, block: usize) -> (r: Result<(), SyncError>)
        requires
            old(self).wf(),
            block * old(self).bsize() <= usize::MAX,
        ensures
            r == Ok::<(), SyncError>(()),
            final(self).cursor() == block,
            final(self).fpos() == block * old(self).bsize(),
            final(self).bytes() == old(self).bytes(),
            final(self).bsize() == old(self).bsize(),
    {
        self.pos = block * self.blocksize;
        self.next_block = block;
        Ok(())
    }

    /// Reads block `block` into the front of `buf` and restores the
    /// underlying position to `cursor * blocksize`.  The cursor itself is
    /// untouched.
    pub fn get_block(&mut self, block: usize, buf: &mut Vec<u8>) -> (r: Result<usize, SyncError>)
        requires
            old(self).wf(),
            block * old(self).bsize() <= usize::MAX,
            old(self).cursor() * old(self).bsize() <= usize::MAX,
        ensures
            ({
                let start = block * old(self).bsize();
                let flen = old(self).bytes().len() as int;
                let n = if start >= flen {
                    0
                } else {
                    min_int(old(buf)@.len() as int, flen - start)
                };
                &&& r == Ok::<usize, SyncError>(n as usize)
                &&& n == 0 ==> final(buf)@ == old(buf)@
                &&& n > 0 ==> final(buf)@ == old(self).bytes().subrange(start as int, start + n)
                    + old(buf)@.skip(n)
                &&& final(buf)@.len() == old(buf)@.len()
            }),
            final(self).bytes() == old(self).bytes(),
            final(self).bsize() == old(self).bsize(),
            final(self).cursor() == old(self).cursor(),
            final(self).fpos() == final(self).cursor() * final(self).bsize(),
    {
        let start: usize = block * self.blocksize;
        let len_u: usize = self.data.len();
        let n: usize = if start >= len_u {
            0
        } else {
            let avail: usize = len_u - start;
            if buf.len() <= avail {
                buf.len()
            } else {
                avail
            }
        };
        proof {
            if n > 0 {
                assert(buf@ =~= self.data@.subrange(start as int, start as int) + old(buf)@.skip(
                    0,
                ));
            }
        }
        let mut i: usize = 0;
        while i < n
            invariant
                i <= n,
                self.data@.len() == len_u,
                n == 0 || start + n <= len_u,
                n <= buf@.len(),
                buf@.len() == old(buf)@.len(),
                self.data@ == old(self).bytes(),
                n == 0 ==> buf@ == old(buf)@,
                n > 0 ==> buf@ == old(self).bytes().subrange(start as int, start as int + i as int)
                    + old(buf)@.skip(i as int),
            decreases n - i,
        {
            let di: usize = start + i;
            buf[i] = self.data[di];
            proof {
                assert(buf@ =~= old(self).bytes().subrange(start as int, start as int + i + 1)
                    + old(buf)@.skip(i + 1));
            }
            i += 1;
        }
        self.pos = self.next_block * self.blocksize;
        Ok(n)
    }
}

} // verus!
