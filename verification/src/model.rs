//! Mathematical model of a sync session.
//!
//! A file is a byte sequence; a block is a fixed-size slice of it.  The spec
//! functions here say what one full receiver session computes: which blocks
//! disagree between the truncated local file and the reference file, and what
//! the local bytes look like after the differing blocks have been fetched and
//! written in order.
use vstd::prelude::*;

use vstd::arithmetic::div_mod::lemma_fundamental_div_mod;
use vstd::arithmetic::div_mod::lemma_mod_bound;
use vstd::arithmetic::mul::lemma_mul_inequality;

use crate::hashes::xxh3_of;

verus! {

pub open spec fn min_int(a: int, b: int) -> int {
    if a <= b {
        a
    } else {
        b
    }
}

/// Number of blocks of a file of `len` bytes at `bs` bytes per block:
/// the final block may be shorter than `bs`.
pub open spec fn num_blocks_spec(len: int, bs: int) -> int
    recommends
        bs >= 1,
        len >= 0,
{
    (len + bs - 1) / bs
}

/// The bytes of block `i` of `d`: at most `bs` bytes starting at offset
/// `i * bs`, empty when the file ends at or before that offset.
pub open spec fn block_of(d: Seq<u8>, bs: int, i: int) -> Seq<u8>
    recommends
        bs >= 1,
        i >= 0,
{
    if i * bs >= d.len() {
        Seq::empty()
    } else {
        d.subrange(i * bs, min_int(i * bs + bs, d.len() as int))
    }
}

pub open spec fn zeros(n: int) -> Seq<u8> {
    Seq::new(n as nat, |i: int| 0u8)
}

/// `d` with `p` written at byte offset `start`; when the file is shorter
/// than `start` the gap reads as zeros, as in a sparsely extended file.
pub open spec fn write_at(d: Seq<u8>, start: int, p: Seq<u8>) -> Seq<u8>
    recommends
        start >= 0,
{
    let padded = if d.len() >= start {
        d
    } else {
        d + zeros(start - d.len())
    };
    let tail = if padded.len() > start + p.len() {
        padded.subrange(start + p.len(), padded.len() as int)
    } else {
        Seq::empty()
    };
    padded.subrange(0, start) + p + tail
}

/// `d` brought to length `l`: truncated, or sparsely extended with zeros.
pub open spec fn resized(d: Seq<u8>, l: int) -> Seq<u8>
    recommends
        l >= 0,
{
    if d.len() <= l {
        d + zeros(l - d.len())
    } else {
        d.subrange(0, l)
    }
}

/// The local file truncated to the reference length: the state against which
/// every fingerprint comparison of a session is made.
pub open spec fn trunc(d: Seq<u8>, l: int) -> Seq<u8>
    recommends
        l >= 0,
{
    if d.len() <= l {
        d
    } else {
        d.subrange(0, l)
    }
}

/// Block `i` must be fetched: the truncated local file has no byte of it, or
/// its local fingerprint disagrees with the reference fingerprint.
pub open spec fn differs(t: Seq<u8>, rem: Seq<u8>, bs: int, i: int) -> bool {
    i * bs >= t.len() || xxh3_of(block_of(t, bs, i)) != xxh3_of(block_of(rem, bs, i))
}

/// The local file after the first `k` blocks have been compared and the
/// differing ones among them overwritten, in order, with reference content.
pub open spec fn synced_upto(t: Seq<u8>, rem: Seq<u8>, bs: int, k: int) -> Seq<u8>
    decreases k,
{
    if k <= 0 {
        t
    } else {
        let prev = synced_upto(t, rem, bs, k - 1);
        if differs(t, rem, bs, k - 1) {
            write_at(prev, (k - 1) * bs, block_of(rem, bs, k - 1))
        } else {
            prev
        }
    }
}

/// The block indices in `[lo, hi)` that must be fetched, in increasing order.
pub open spec fn diff_list(t: Seq<u8>, rem: Seq<u8>, bs: int, lo: int, hi: int) -> Seq<u64>
    decreases hi - lo,
{
    if lo >= hi {
        Seq::empty()
    } else {
        diff_list(t, rem, bs, lo, hi - 1) + (if differs(t, rem, bs, hi - 1) {
            seq![((hi - 1) as u64)]
        } else {
            Seq::empty()
        })
    }
}

/// Ceiling-division bounds: `num_blocks_spec` is the least block count whose
/// blocks cover the whole file.
pub proof fn lemma_num_blocks_bounds(len: int, bs: int)
    requires
        bs >= 1,
        len >= 0,
    ensures
        num_blocks_spec(len, bs) >= 0,
        num_blocks_spec(len, bs) * bs >= len,
        len >= 1 ==> (num_blocks_spec(len, bs) - 1) * bs < len,
        len == 0 ==> num_blocks_spec(len, bs) == 0,
        len >= 1 ==> num_blocks_spec(len, bs) >= 1,
{
    let q = (len + bs - 1) / bs;
    let r = (len + bs - 1) % bs;
    lemma_fundamental_div_mod(len + bs - 1, bs);
    lemma_mod_bound(len + bs - 1, bs);
    assert(len + bs - 1 == q * bs + r);
    assert(q * bs == len + bs - 1 - r);
    assert((q - 1) * bs == q * bs - bs) by (nonlinear_arith);
    if q < 0 {
        assert(q * bs <= -bs) by (nonlinear_arith)
            requires
                q <= -1,
                bs >= 1,
        ;
    }
}

pub proof fn lemma_block_len(d: Seq<u8>, bs: int, i: int)
    requires
        bs >= 1,
        i >= 0,
    ensures
        block_of(d, bs, i).len() <= bs,
        i * bs < d.len() ==> block_of(d, bs, i).len() == min_int(i * bs + bs, d.len() as int) - i
            * bs,
        i * bs < d.len() ==> block_of(d, bs, i).len() >= 1,
{
    assert(i * bs >= 0) by (nonlinear_arith)
        requires
            i >= 0,
            bs >= 1,
    ;
}

pub proof fn lemma_write_at_len(d: Seq<u8>, start: int, p: Seq<u8>)
    requires
        start >= 0,
    ensures
        write_at(d, start, p).len() == if d.len() >= start + p.len() {
            d.len() as int
        } else {
            start + p.len()
        },
{
}

/// The bytes of `synced_upto` never shrink below the truncated local length
/// and never grow past the last compared block.
pub proof fn lemma_synced_len(t: Seq<u8>, rem: Seq<u8>, bs: int, k: int)
    requires
        bs >= 1,
        k >= 0,
    ensures
        synced_upto(t, rem, bs, k).len() >= t.len(),
        synced_upto(t, rem, bs, k).len() <= if k * bs >= t.len() {
            k * bs
        } else {
            t.len() as int
        },
    decreases k,
{
    if k > 0 {
        lemma_synced_len(t, rem, bs, k - 1);
        lemma_block_len(rem, bs, k - 1);
        assert((k - 1) * bs + bs == k * bs) by (nonlinear_arith);
        assert((k - 1) * bs <= k * bs && (k - 1) * bs >= 0) by (nonlinear_arith)
            requires
                bs >= 1,
                k >= 1,
        ;
        if differs(t, rem, bs, k - 1) {
            lemma_write_at_len(synced_upto(t, rem, bs, k - 1), (k - 1) * bs, block_of(rem, bs, k - 1));
        }
    }
}

/// A write that ends at or before the start of block `j` leaves block `j`
/// unchanged.
pub proof fn lemma_write_preserves_later_block(d: Seq<u8>, start: int, p: Seq<u8>, bs: int, j: int)
    requires
        bs >= 1,
        0 <= start,
        start + p.len() <= j * bs,
    ensures
        block_of(write_at(d, start, p), bs, j) == block_of(d, bs, j),
{
    let w = write_at(d, start, p);
    lemma_write_at_len(d, start, p);
    assert(j * bs >= 0);
    if j * bs >= d.len() {
        assert(w.len() <= j * bs);
        assert(block_of(w, bs, j) =~= block_of(d, bs, j));
    } else {
        assert(w.len() == d.len());
        assert forall|idx: int| start + p.len() <= idx < d.len() implies w[idx] == d[idx] by {
            assert(d.len() >= start);
        }
        assert(block_of(w, bs, j) =~= block_of(d, bs, j));
    }
}

/// Comparing and fetching the first `k` blocks leaves every later block as
/// it stands in the truncated local file.
pub proof fn lemma_blocks_stable(t: Seq<u8>, rem: Seq<u8>, bs: int, k: int, j: int)
    requires
        bs >= 1,
        0 <= k <= j,
    ensures
        block_of(synced_upto(t, rem, bs, k), bs, j) == block_of(t, bs, j),
    decreases k,
{
    if k > 0 {
        lemma_blocks_stable(t, rem, bs, k - 1, j);
        if differs(t, rem, bs, k - 1) {
            lemma_block_len(rem, bs, k - 1);
            assert((k - 1) * bs + bs == k * bs) by (nonlinear_arith);
            lemma_mul_inequality(k, j, bs);
            assert((k - 1) * bs >= 0) by (nonlinear_arith)
                requires
                    k >= 1,
                    bs >= 1,
            ;
            lemma_write_preserves_later_block(
                synced_upto(t, rem, bs, k - 1),
                (k - 1) * bs,
                block_of(rem, bs, k - 1),
                bs,
                j,
            );
        }
    }
}

/// Between two comparison fronts with no differing block, the synced bytes
/// do not change.
pub proof fn lemma_synced_skip(t: Seq<u8>, rem: Seq<u8>, bs: int, k1: int, k2: int)
    requires
        0 <= k1 <= k2,
        forall|i: int| k1 <= i < k2 ==> !differs(t, rem, bs, i),
    ensures
        synced_upto(t, rem, bs, k2) == synced_upto(t, rem, bs, k1),
    decreases k2 - k1,
{
    if k2 > k1 {
        lemma_synced_skip(t, rem, bs, k1, k2 - 1);
    }
}

pub proof fn lemma_diff_list_concat(t: Seq<u8>, rem: Seq<u8>, bs: int, lo: int, mid: int, hi: int)
    requires
        lo <= mid <= hi,
    ensures
        diff_list(t, rem, bs, lo, hi) == diff_list(t, rem, bs, lo, mid) + diff_list(
            t,
            rem,
            bs,
            mid,
            hi,
        ),
    decreases hi - mid,
{
    if hi == mid {
        assert(diff_list(t, rem, bs, lo, hi) =~= diff_list(t, rem, bs, lo, mid) + diff_list(
            t,
            rem,
            bs,
            mid,
            hi,
        ));
    } else {
        lemma_diff_list_concat(t, rem, bs, lo, mid, hi - 1);
        assert(diff_list(t, rem, bs, lo, hi) =~= diff_list(t, rem, bs, lo, mid) + diff_list(
            t,
            rem,
            bs,
            mid,
            hi,
        ));
    }
}

/// The first entry of a non-empty fetch list is the first differing block:
/// nothing differs before it, and the rest of the list starts right after it.
pub proof fn lemma_diff_list_head(t: Seq<u8>, rem: Seq<u8>, bs: int, lo: int, hi: int)
    requires
        0 <= lo <= hi <= u64::MAX,
        diff_list(t, rem, bs, lo, hi).len() > 0,
    ensures
        ({
            let e = diff_list(t, rem, bs, lo, hi)[0] as int;
            &&& lo <= e < hi
            &&& differs(t, rem, bs, e)
            &&& forall|i: int| lo <= i < e ==> !differs(t, rem, bs, i)
            &&& diff_list(t, rem, bs, lo, hi).skip(1) == diff_list(t, rem, bs, e + 1, hi)
        }),
    decreases hi - lo,
{
    lemma_diff_list_concat(t, rem, bs, lo, lo + 1, hi);
    assert(diff_list(t, rem, bs, lo, lo) =~= Seq::<u64>::empty());
    if differs(t, rem, bs, lo) {
        let e = lo;
        assert(diff_list(t, rem, bs, lo, lo + 1) =~= seq![(lo as u64)]);
        assert(diff_list(t, rem, bs, lo, hi).skip(1) =~= diff_list(t, rem, bs, e + 1, hi));
    } else {
        assert(diff_list(t, rem, bs, lo, lo + 1) =~= Seq::<u64>::empty());
        assert(diff_list(t, rem, bs, lo, hi) =~= diff_list(t, rem, bs, lo + 1, hi));
        lemma_diff_list_head(t, rem, bs, lo + 1, hi);
        let e = diff_list(t, rem, bs, lo + 1, hi)[0] as int;
        assert(diff_list(t, rem, bs, lo, hi).skip(1) =~= diff_list(t, rem, bs, lo + 1, hi).skip(1));
    }
}

/// A fetch list contains an index exactly when its block differs and it lies
/// in the list's range.
pub proof fn lemma_diff_list_membership(t: Seq<u8>, rem: Seq<u8>, bs: int, lo: int, hi: int)
    requires
        0 <= lo <= hi <= u64::MAX,
    ensures
        forall|e: u64|
            #[trigger] diff_list(t, rem, bs, lo, hi).contains(e) <==> (lo <= e < hi && differs(
                t,
                rem,
                bs,
                e as int,
            )),
    decreases hi - lo,
{
    if lo < hi {
        lemma_diff_list_membership(t, rem, bs, lo, hi - 1);
        let whole = diff_list(t, rem, bs, lo, hi);
        let front = diff_list(t, rem, bs, lo, hi - 1);
        assert forall|e: u64| #[trigger] whole.contains(e) implies (lo <= e < hi && differs(
            t,
            rem,
            bs,
            e as int,
        )) by {
            let ix = choose|ix: int| 0 <= ix < whole.len() && whole[ix] == e;
            if ix < front.len() {
                assert(front.contains(e));
            }
        }
        assert forall|e: u64| (lo <= e < hi && differs(t, rem, bs, e as int)) implies #[trigger] whole.contains(e) by {
            if e < hi - 1 {
                assert(front.contains(e));
                let ix = choose|ix: int| 0 <= ix < front.len() && front[ix] == e;
                assert(whole[ix] == e);
            } else {
                assert(whole.last() == e);
            }
        }
    }
}


/// Fingerprints are functions of the bytes alone: hashing the same content
/// twice, in either role, yields the same fingerprint under either strategy.
pub proof fn lemma_fingerprint_deterministic(a: Seq<u8>, b: Seq<u8>)
    requires
        a == b,
    ensures
        xxh3_of(a) == xxh3_of(b),
        crate::hashes::sha3_256_of(a) == crate::hashes::sha3_256_of(b),
{
}

/// Truncation to the reference length: a no-op when the local file is not
/// longer, a plain prefix otherwise.
pub proof fn lemma_trunc(d: Seq<u8>, l: int)
    requires
        l >= 0,
    ensures
        trunc(d, l).len() == min_int(d.len() as int, l),
        d.len() <= l ==> trunc(d, l) == d,
        forall|idx: int| 0 <= idx < trunc(d, l).len() ==> trunc(d, l)[idx] == d[idx],
{
}

proof fn lemma_convergence_upto(t: Seq<u8>, rem: Seq<u8>, bs: int, k: int)
    requires
        bs >= 1,
        t.len() <= rem.len(),
        0 <= k <= num_blocks_spec(rem.len() as int, bs),
        forall|i: int|
            0 <= i < num_blocks_spec(rem.len() as int, bs) && xxh3_of(
                #[trigger] block_of(t, bs, i),
            ) == xxh3_of(block_of(rem, bs, i)) ==> block_of(t, bs, i) == block_of(rem, bs, i),
    ensures
        synced_upto(t, rem, bs, k).len() == if t.len() >= min_int(k * bs, rem.len() as int) {
            t.len() as int
        } else {
            min_int(k * bs, rem.len() as int)
        },
        forall|idx: int|
            0 <= idx < min_int(k * bs, rem.len() as int) ==> synced_upto(t, rem, bs, k)[idx]
                == rem[idx],
    decreases k,
{
    let nb = num_blocks_spec(rem.len() as int, bs);
    lemma_num_blocks_bounds(rem.len() as int, bs);
    if k == 0 {
        assert(min_int(0 * bs, rem.len() as int) == 0);
    } else {
        let p = k - 1;
        lemma_convergence_upto(t, rem, bs, p);
        let s_p = synced_upto(t, rem, bs, p);
        let s_k = synced_upto(t, rem, bs, k);
        let rlen = rem.len() as int;
        let m_p = min_int(p * bs, rlen);
        let m_k = min_int(k * bs, rlen);
        assert(p * bs + bs == k * bs) by (nonlinear_arith)
            requires
                p == k - 1,
        ;
        assert(p * bs >= 0) by (nonlinear_arith)
            requires
                p >= 0,
                bs >= 1,
        ;
        assert(rlen >= 1);
        lemma_mul_inequality(p + 1, nb, bs);
        assert((nb - 1) * bs == nb * bs - bs) by (nonlinear_arith);
        assert(p * bs < rlen);
        assert(m_p == p * bs);
        let b_r = block_of(rem, bs, p);
        assert(b_r == rem.subrange(p * bs, m_k));
        if differs(t, rem, bs, p) {
            assert(s_k == write_at(s_p, p * bs, b_r));
            lemma_write_at_len(s_p, p * bs, b_r);
            assert(s_p.len() >= p * bs);
            assert forall|idx: int| 0 <= idx < m_k implies s_k[idx] == rem[idx] by {
                if idx < p * bs {
                    assert(s_k[idx] == s_p[idx]);
                } else {
                    assert(s_k[idx] == b_r[idx - p * bs]);
                }
            }
        } else {
            assert(s_k == s_p);
            assert(p * bs < t.len());
            let b_t = block_of(t, bs, p);
            assert(b_t == block_of(rem, bs, p));
            assert(b_t == t.subrange(p * bs, min_int(p * bs + bs, t.len() as int)));
            assert(b_t.len() == min_int(p * bs + bs, t.len() as int) - p * bs);
            assert(b_r.len() == m_k - p * bs);
            assert(min_int(p * bs + bs, t.len() as int) == m_k);
            lemma_blocks_stable(t, rem, bs, p, p);
            let b_s = block_of(s_p, bs, p);
            assert(b_s == b_t);
            assert(s_p.len() == t.len());
            assert(b_s == s_p.subrange(p * bs, min_int(p * bs + bs, s_p.len() as int)));
            assert forall|idx: int| 0 <= idx < m_k implies s_k[idx] == rem[idx] by {
                if idx >= p * bs {
                    assert(b_s[idx - p * bs] == b_r[idx - p * bs]);
                }
            }
        }
    }
}

/// Convergence: when no two compared blocks of different content collide
/// under the fingerprint, one full receiver walk leaves the local bytes
/// equal to the reference bytes.  A colliding pair (two different blocks
/// with the same fingerprint) is the one family of inputs excluded.
pub proof fn lemma_convergence(t: Seq<u8>, rem: Seq<u8>, bs: int)
    requires
        bs >= 1,
        t.len() <= rem.len(),
        forall|i: int|
            0 <= i < num_blocks_spec(rem.len() as int, bs) && xxh3_of(
                #[trigger] block_of(t, bs, i),
            ) == xxh3_of(block_of(rem, bs, i)) ==> block_of(t, bs, i) == block_of(rem, bs, i),
    ensures
        synced_upto(t, rem, bs, num_blocks_spec(rem.len() as int, bs)) == rem,
{
    let nb = num_blocks_spec(rem.len() as int, bs);
    lemma_num_blocks_bounds(rem.len() as int, bs);
    lemma_convergence_upto(t, rem, bs, nb);
    assert(min_int(nb * bs, rem.len() as int) == rem.len());
    assert(synced_upto(t, rem, bs, nb) =~= rem);
}


/// Convergence stated over a whole session's inputs: whatever the local
/// file held, after truncation to the reference length and one full block
/// walk the local bytes equal the reference bytes, provided no two compared
/// blocks of different content collide under the fingerprint.  This is the
/// bytes clause of `receiver_sync`'s contract driven to its conclusion.
pub proof fn lemma_session_convergence(local_bytes: Seq<u8>, rem: Seq<u8>, bs: int)
    requires
        bs >= 1,
        forall|i: int|
            0 <= i < num_blocks_spec(rem.len() as int, bs) && xxh3_of(
                #[trigger] block_of(trunc(local_bytes, rem.len() as int), bs, i),
            ) == xxh3_of(block_of(rem, bs, i)) ==> block_of(
                trunc(local_bytes, rem.len() as int),
                bs,
                i,
            ) == block_of(rem, bs, i),
    ensures
        synced_upto(
            trunc(local_bytes, rem.len() as int),
            rem,
            bs,
            num_blocks_spec(rem.len() as int, bs),
        ) == rem,
{
    lemma_trunc(local_bytes, rem.len() as int);
    lemma_convergence(trunc(local_bytes, rem.len() as int), rem, bs);
}

/// Minimal transfer: for equally long files with no colliding block pair,
/// the fetch list holds exactly the indices of the blocks whose bytes
/// differ, each once, in increasing order.
pub proof fn lemma_minimal_transfer(t: Seq<u8>, rem: Seq<u8>, bs: int)
    requires
        bs >= 1,
        t.len() == rem.len(),
        num_blocks_spec(rem.len() as int, bs) <= u64::MAX,
        forall|i: int|
            0 <= i < num_blocks_spec(rem.len() as int, bs) && xxh3_of(
                #[trigger] block_of(t, bs, i),
            ) == xxh3_of(block_of(rem, bs, i)) ==> block_of(t, bs, i) == block_of(rem, bs, i),
    ensures
        forall|i: int|
            0 <= i < num_blocks_spec(rem.len() as int, bs) ==> (#[trigger] differs(t, rem, bs, i)
                <==> block_of(t, bs, i) != block_of(rem, bs, i)),
        forall|e: u64|
            #[trigger] diff_list(t, rem, bs, 0, num_blocks_spec(rem.len() as int, bs)).contains(e)
                <==> (0 <= e < num_blocks_spec(rem.len() as int, bs) && block_of(t, bs, e as int)
                != block_of(rem, bs, e as int)),
{
    let nb = num_blocks_spec(rem.len() as int, bs);
    lemma_num_blocks_bounds(rem.len() as int, bs);
    assert forall|i: int| 0 <= i < nb implies (#[trigger] differs(t, rem, bs, i) <==> block_of(
        t,
        bs,
        i,
    ) != block_of(rem, bs, i)) by {
        lemma_mul_inequality(i + 1, nb, bs);
        assert((nb - 1) * bs == nb * bs - bs) by (nonlinear_arith);
        assert((i + 1) * bs == i * bs + bs) by (nonlinear_arith);
        assert(i * bs < t.len());
    }
    lemma_diff_list_membership(t, rem, bs, 0, nb);
}

} // verus!
