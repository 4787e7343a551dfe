//! The two roles of a sync session.
//!
//! The transmitter is purely reactive: `transmitter_step` serves one decoded
//! command against the reference store.  The receiver drives:
//! `receiver_sync` reconciles the local length, walks the blocks in batches
//! of fingerprints, fetches exactly the differing blocks, and quits.  Both
//! are specified against the session model in `model`.
use vstd::prelude::*;

use vstd::arithmetic::div_mod::lemma_fundamental_div_mod;
use vstd::arithmetic::div_mod::lemma_mod_bound;
use vstd::arithmetic::mul::lemma_mul_inequality;

use crate::SyncError;
use crate::block_file::BlockFile;
use crate::codec::Command;
use crate::codec::Response;
use crate::hashes::xxh3_of;
use crate::model::block_of;
use crate::model::diff_list;
use crate::model::differs;
use crate::model::min_int;
use crate::model::num_blocks_spec;
use crate::model::synced_upto;
use crate::model::trunc;

verus! {

/// `ceil(len / bs)` fits in a `u64` whenever `len` does.
pub fn num_blocks_of(len: u64, bs: u64) -> (r: u64)
    requires
        bs >= 1,
    ensures
        r == num_blocks_spec(len as int, bs as int),
{
    let q = len / bs;
    let m = len % bs;
    proof {
        lemma_fundamental_div_mod(len as int, bs as int);
        lemma_mod_bound(len as int, bs as int);
        lemma_fundamental_div_mod(len as int + bs as int - 1, bs as int);
        lemma_mod_bound(len as int + bs as int - 1, bs as int);
        let nb = num_blocks_spec(len as int, bs as int);
        let want: int = if m == 0 {
            q as int
        } else {
            q as int + 1
        };
        let x = len as int + bs as int - 1;
        assert(x == (bs as int) * (x / (bs as int)) + x % (bs as int));
        assert(nb == x / (bs as int));
        assert(x == nb * (bs as int) + x % (bs as int)) by (nonlinear_arith)
            requires
                x == (bs as int) * (x / (bs as int)) + x % (bs as int),
                nb == x / (bs as int),
        ;
        assert(len == (bs as int) * (q as int) + (m as int));
        assert(want * (bs as int) <= len as int + bs as int - 1 < (want + 1) * (bs as int))
            by (nonlinear_arith)
            requires
                bs >= 1,
                len == (bs as int) * (q as int) + (m as int),
                0 <= m < bs,
                want == if m == 0 {
                    q as int
                } else {
                    q as int + 1
                },
        ;
        assert(nb == want) by (nonlinear_arith)
            requires
                bs >= 1,
                len as int + bs as int - 1 == nb * (bs as int) + ((len as int + bs as int - 1) % (
                bs as int)),
                0 <= (len as int + bs as int - 1) % (bs as int) < bs as int,
                want * (bs as int) <= len as int + bs as int - 1 < (want + 1) * (bs as int),
        ;
        if m != 0 {
            assert(q as int + 1 <= len as int) by (nonlinear_arith)
                requires
                    bs >= 1,
                    len == (bs as int) * (q as int) + (m as int),
                    1 <= m < bs,
                    q >= 0,
            ;
        }
    }
    if m == 0 {
        q
    } else {
        q + 1
    }
}

/// The transmitter's state between commands: the cursor never passes the
/// block count, and the underlying position either sits at the cursor's
/// block or was left at end of file by a short final read.
pub open spec fn tx_ok(s: BlockFile) -> bool {
    &&& s.wf()
    &&& s.cursor() <= num_blocks_spec(s.bytes().len() as int, s.bsize() as int)
    &&& num_blocks_spec(s.bytes().len() as int, s.bsize() as int) * s.bsize() <= u64::MAX
    &&& (s.fpos() == s.cursor() * s.bsize() || (s.fpos() == s.bytes().len() && s.cursor()
        * s.bsize() >= s.bytes().len()))
}

/// Serves one decoded command against the reference store: the passive half
/// of the protocol.  Returns the response (none for quit) and whether the
/// command loop must terminate.
pub fn transmitter_step(store: &mut BlockFile, cmd: Command) -> (r: (Option<Response>, bool))
    requires
        tx_ok(*old(store)),
    ensures
        tx_ok(*final(store)),
        final(store).bytes() == old(store).bytes(),
        final(store).bsize() == old(store).bsize(),
        final(store).is_writable() == old(store).is_writable(),
        r.1 <==> cmd matches Command::Quit,
        cmd matches Command::Quit ==> *final(store) == *old(store) && r.0 is None,
        cmd matches Command::GetLen ==> r.0 == Some(
            Response::Len(old(store).bytes().len() as u64),
        ) && final(store).cursor() == old(store).cursor(),
        cmd matches Command::GetBlock(i) ==> final(store).cursor() == old(store).cursor() && (r.0
            matches Some(Response::Block(p)) && p@ == block_of(
            old(store).bytes(),
            old(store).bsize() as int,
            i as int,
        )),
        cmd matches Command::GetBlockhash(count) ==> ({
            let len = old(store).bytes().len() as int;
            let bs = old(store).bsize() as int;
            let k = min_int(count as int, num_blocks_spec(len, bs) - old(store).cursor());
            &&& r.0 matches Some(Response::Hashes(h)) && h@.len() == k && (forall|q: int|
                0 <= q < k ==> h@[q] == xxh3_of(
                    block_of(old(store).bytes(), bs, old(store).cursor() + q),
                ))
            &&& final(store).cursor() == old(store).cursor() + k
        }),
{
    proof {
        lemma_mul_inequality(
            old(store).cursor() as int,
            num_blocks_spec(old(store).bytes().len() as int, old(store).bsize() as int),
            old(store).bsize() as int,
        );
    }
    match cmd {
        Command::Quit => (None, true),
        Command::GetLen => {
            let len = match store.get_len() {
                Ok(l) => l,
                Err(_) => 0,
            };
            (Some(Response::Len(len)), false)
        },
        Command::GetBlock(i) => {
            let len = match store.get_len() {
                Ok(l) => l,
                Err(_) => 0,
            };
            let bs = store.blocksize_value();
            let nb = num_blocks_of(len, bs);
            let ghost obytes = old(store).bytes();
            let payload: Vec<u8> = if i < nb {
                proof {
                    crate::model::lemma_num_blocks_bounds(len as int, bs as int);
                    lemma_mul_inequality(i as int + 1, nb as int, bs as int);
                    assert((i as int + 1) * (bs as int) == i as int * (bs as int) + bs as int)
                        by (nonlinear_arith);
                    assert(i as int * (bs as int) >= 0) by (nonlinear_arith)
                        requires
                            bs >= 1,
                    ;
                    assert((nb as int - 1) * (bs as int) < len as int);
                    assert((nb as int - 1) * (bs as int) == nb as int * (bs as int) - bs as int)
                        by (nonlinear_arith);
                }
                let start = i * bs;
                let avail = len - start;
                let n64 = if bs <= avail {
                    bs
                } else {
                    avail
                };
                let n = n64 as usize;
                let mut buf: Vec<u8> = vec![0u8; n];
                let got = match store.get_block(i, &mut buf) {
                    Ok(g) => g,
                    Err(_) => 0,
                };
                proof {
                    assert(buf@ =~= block_of(obytes, bs as int, i as int));
                }
                buf
            } else {
                proof {
                    crate::model::lemma_num_blocks_bounds(len as int, bs as int);
                    lemma_mul_inequality(nb as int, i as int, bs as int);
                    assert(i as int * (bs as int) >= len) by (nonlinear_arith)
                        requires
                            nb as int * (bs as int) >= len,
                            nb as int * (bs as int) <= i as int * (bs as int),
                    ;
                    assert(Seq::<u8>::empty() =~= block_of(obytes, bs as int, i as int));
                }
                let empty_payload: Vec<u8> = Vec::new();
                proof {
                    assert(empty_payload@ =~= block_of(obytes, bs as int, i as int));
                }
                empty_payload
            };
            (Some(Response::Block(payload)), false)
        },
        Command::GetBlockhash(count) => {
            let len = match store.get_len() {
                Ok(l) => l,
                Err(_) => 0,
            };
            let bs = store.blocksize_value();
            let nb = num_blocks_of(len, bs);
            let c0 = store.get_next_block();
            let remaining = nb - c0;
            let k = if count <= remaining {
                count
            } else {
                remaining
            };
            proof {
                lemma_mul_inequality(nb as int, nb as int, bs as int);
                crate::model::lemma_num_blocks_bounds(len as int, bs as int);
            }
            let mut h: Vec<u64> = Vec::new();
            let mut j: u64 = 0;
            while j < k
                invariant
                    j <= k,
                    c0 + k <= nb,
                    bs >= 1,
                    nb == num_blocks_spec(len as int, bs as int),
                    nb as int * (bs as int) <= u64::MAX,
                    len == old(store).bytes().len(),
                    store.bytes() == old(store).bytes(),
                    store.bsize() == bs,
                    store.is_writable() == old(store).is_writable(),
                    store.cursor() == c0 + j,
                    store.fpos() == min_int((c0 + j) as int * (bs as int), len as int)
                        || store.fpos() == (c0 + j) as int * (bs as int),
                    h@.len() == j,
                    forall|q: int|
                        0 <= q < j ==> h@[q] == xxh3_of(
                            block_of(old(store).bytes(), bs as int, c0 + q),
                        ),
                decreases k - j,
            {
                proof {
                    let cur = (c0 + j) as int;
                    crate::model::lemma_num_blocks_bounds(len as int, bs as int);
                    lemma_mul_inequality(cur + 1, nb as int, bs as int);
                    assert((cur + 1) * (bs as int) == cur * (bs as int) + bs as int)
                        by (nonlinear_arith);
                    assert(cur * (bs as int) >= 0) by (nonlinear_arith)
                        requires
                            bs >= 1,
                            cur >= 0,
                    ;
                    assert((nb as int - 1) * (bs as int) == nb as int * (bs as int) - bs as int)
                        by (nonlinear_arith);
                    assert((nb as int - 1) * (bs as int) < len as int);
                    assert(cur * (bs as int) < len as int);
                }
                let lh = store.next_blockhash();
                let hv = match lh {
                    Some(v) => v,
                    None => 0,
                };
                proof {
                    let cur = (c0 + j) as int;
                    assert(old(store).bytes().subrange(
                        cur * (bs as int),
                        cur * (bs as int) + min_int(
                            bs as int,
                            old(store).bytes().len() - cur * (bs as int),
                        ),
                    ) =~= block_of(old(store).bytes(), bs as int, cur));
                }
                h.push(hv);
                j = j + 1;
            }
            (Some(Response::Hashes(h)), false)
        },
    }
}

/// One full receiver session against an in-step transmitter store.
///
/// Reconciles the local length against the reference, walks all blocks in
/// batches of at most `batch` fingerprints, fetches exactly the blocks whose
/// fingerprints disagree (every block past the local end of file disagrees),
/// writes them in the order discovered, and quits.  The returned list holds
/// the fetched block indices in increasing order; the local bytes afterward
/// are exactly the model's `synced_upto` over the truncated local file.
pub fn receiver_sync(local: &mut BlockFile, remote: &mut BlockFile, batch: u64) -> (r: Result<
    Vec<u64>,
    SyncError,
>)
    requires
        old(local).wf(),
        old(remote).wf(),
        old(local).bsize() == old(remote).bsize(),
        old(local).cursor() == 0,
        old(local).fpos() == 0,
        old(remote).cursor() == 0,
        old(remote).fpos() == 0,
        old(local).is_writable(),
        batch >= 1,
        num_blocks_spec(old(remote).bytes().len() as int, old(remote).bsize() as int) * old(
            remote,
        ).bsize() <= usize::MAX,
    ensures
        ({
            let bs = old(local).bsize() as int;
            let rem = old(remote).bytes();
            let t = trunc(old(local).bytes(), rem.len() as int);
            let nb = num_blocks_spec(rem.len() as int, bs);
            &&& r matches Ok(fetched) && fetched@ == diff_list(t, rem, bs, 0, nb)
            &&& final(local).bytes() == synced_upto(t, rem, bs, nb)
            &&& final(remote).bytes() == rem
            &&& final(local).bsize() == bs
            &&& final(remote).bsize() == bs
        }),
{
    let ghost rem = old(remote).bytes();
    let bs = local.blocksize_value();
    let local_len = match local.get_len() {
        Ok(l) => l,
        Err(_) => 0,
    };
    proof {
        crate::model::lemma_num_blocks_bounds(rem.len() as int, bs as int);
        assert(num_blocks_spec(rem.len() as int, bs as int) <= num_blocks_spec(
            rem.len() as int,
            bs as int,
        ) * (bs as int)) by (nonlinear_arith)
            requires
                bs >= 1,
                num_blocks_spec(rem.len() as int, bs as int) >= 0,
        ;
    }
    let (lresp, _lq) = transmitter_step(remote, Command::GetLen);
    let remote_len = match lresp {
        Some(Response::Len(l)) => l,
        _ => {
            return Err(SyncError::ProtocolViolation);
        },
    };
    let ghost t = trunc(old(local).bytes(), remote_len as int);
    if local_len > remote_len {
        match local.set_len(remote_len) {
            Ok(_) => (),
            Err(_) => {
                return Err(SyncError::IoError);
            },
        }
        proof {
            assert(local.bytes() =~= t);
        }
    }
    proof {
        assert(local.bytes() == t);
        assert(t.len() <= rem.len());
    }
    let nb = num_blocks_of(remote_len, bs);
    let mut fetched: Vec<u64> = Vec::new();
    let mut hashes_per_iteration: u64 = batch;
    let mut current: u64 = 0;
    proof {
        assert(local.bytes() =~= synced_upto(t, rem, bs as int, 0));
        assert(fetched@ =~= diff_list(t, rem, bs as int, 0, 0));
    }
    while current < nb
        invariant
            bs >= 1,
            bs == old(local).bsize(),
            bs == old(remote).bsize(),
            remote_len == rem.len(),
            rem == old(remote).bytes(),
            t == trunc(old(local).bytes(), rem.len() as int),
            t.len() <= rem.len(),
            nb == num_blocks_spec(rem.len() as int, bs as int),
            nb as int * (bs as int) <= usize::MAX,
            current <= nb,
            1 <= hashes_per_iteration <= batch,
            remote.bytes() == rem,
            remote.bsize() == bs,
            remote.cursor() == current,
            tx_ok(*remote),
            local.bsize() == bs,
            local.is_writable(),
            local.wf(),
            local.cursor() == current,
            local.bytes() == synced_upto(t, rem, bs as int, current as int),
            local.fpos() == current as int * (bs as int) || (local.fpos() == local.bytes().len()
                && local.bytes().len() <= current as int * (bs as int)),
            fetched@ == diff_list(t, rem, bs as int, 0, current as int),
        decreases nb - current,
    {
        if nb - current < hashes_per_iteration {
            hashes_per_iteration = nb - current;
        }
        let m = hashes_per_iteration;
        let ghost c = current as int;
        let ghost s_c = synced_upto(t, rem, bs as int, c);
        let (hresp, _hq) = transmitter_step(remote, Command::GetBlockhash(m));
        let rh = match hresp {
            Some(Response::Hashes(h)) => h,
            _ => {
                return Err(SyncError::ProtocolViolation);
            },
        };
        let mut batch_fetch: Vec<u64> = Vec::new();
        proof {
            assert(batch_fetch@ =~= diff_list(t, rem, bs as int, c, c));
            crate::model::lemma_num_blocks_bounds(rem.len() as int, bs as int);
            assert(nb as int <= nb as int * (bs as int)) by (nonlinear_arith)
                requires
                    bs >= 1,
                    nb as int >= 0,
            ;
        }
        let mut j: u64 = 0;
        while j < m
            invariant
                bs >= 1,
                j <= m,
                0 <= c,
                c == current as int - j,
                c + m <= nb,
                nb as int * (bs as int) <= usize::MAX,
                nb == num_blocks_spec(rem.len() as int, bs as int),
                t.len() <= rem.len(),
                rh@.len() == m,
                forall|q: int|
                    0 <= q < m ==> rh@[q] == xxh3_of(block_of(rem, bs as int, c + q)),
                local.bsize() == bs,
                local.is_writable(),
                local.wf(),
                local.cursor() == current,
                local.bytes() == s_c,
                s_c == synced_upto(t, rem, bs as int, c),
                local.fpos() == current as int * (bs as int) || (local.fpos()
                    == local.bytes().len() && local.bytes().len() <= current as int * (bs as int)),
                batch_fetch@ == diff_list(t, rem, bs as int, c, current as int),
                fetched@ == diff_list(t, rem, bs as int, 0, current as int),
            decreases m - j,
        {
            let ghost cur = current as int;
            proof {
                crate::model::lemma_synced_len(t, rem, bs as int, c);
                crate::model::lemma_blocks_stable(t, rem, bs as int, c, cur);
                lemma_mul_inequality(c, cur, bs as int);
                lemma_mul_inequality(cur as int + 1, nb as int, bs as int);
                assert((cur + 1) * (bs as int) == cur * (bs as int) + bs as int)
                    by (nonlinear_arith);
                assert(cur * (bs as int) >= 0) by (nonlinear_arith)
                    requires
                        bs >= 1,
                        cur >= 0,
                ;
            }
            let lh = local.next_blockhash();
            let rhash = rh[j as usize];
            let differ: bool = match lh {
                Some(v) => v != rhash,
                None => true,
            };
            if lh.is_none() {
                proof {
                    assert(current as int + 1 <= nb as int);
                    lemma_mul_inequality(current as int + 1, nb as int, bs as int);
                }
                match local.seek(current + 1) {
                    Ok(_) => (),
                    Err(_) => {
                        return Err(SyncError::IoError);
                    },
                }
            }
            proof {
                // the decision matches the model's `differs` for this block
                if cur * (bs as int) < t.len() {
                    assert(s_c.len() == t.len());
                    assert(s_c.subrange(
                        cur * (bs as int),
                        cur * (bs as int) + min_int(
                            bs as int,
                            s_c.len() - cur * (bs as int),
                        ),
                    ) =~= block_of(s_c, bs as int, cur));
                    assert(differ == differs(t, rem, bs as int, cur));
                } else {
                    assert(differ && differs(t, rem, bs as int, cur));
                }
            }
            if differ {
                batch_fetch.push(current);
                fetched.push(current);
            }
            proof {
                assert(diff_list(t, rem, bs as int, c, cur + 1) =~= diff_list(
                    t,
                    rem,
                    bs as int,
                    c,
                    cur,
                ) + (if differs(t, rem, bs as int, cur) {
                    seq![(cur as u64)]
                } else {
                    Seq::<u64>::empty()
                }));
                assert(diff_list(t, rem, bs as int, 0, cur + 1) =~= diff_list(
                    t,
                    rem,
                    bs as int,
                    0,
                    cur,
                ) + (if differs(t, rem, bs as int, cur) {
                    seq![(cur as u64)]
                } else {
                    Seq::<u64>::empty()
                }));
            }
            current = current + 1;
            j = j + 1;
        }
        // fetch the blocks this batch found to differ, in order
        let ghost mut w: int = c;
        let mut fi: usize = 0;
        proof {
            assert(batch_fetch@.skip(0) =~= batch_fetch@);
        }
        while fi < batch_fetch.len()
            invariant
                bs >= 1,
                fi <= batch_fetch@.len(),
                0 <= c,
                c <= w <= current as int,
                current as int == c + m,
                c + m <= nb,
                nb as int * (bs as int) <= usize::MAX,
                nb as int <= nb as int * (bs as int),
                nb == num_blocks_spec(rem.len() as int, bs as int),
                t.len() <= rem.len(),
                rem == old(remote).bytes(),
                remote.bytes() == rem,
                remote.bsize() == bs,
                remote.cursor() == current,
                tx_ok(*remote),
                local.bsize() == bs,
                local.is_writable(),
                local.wf(),
                local.cursor() == current,
                local.bytes() == synced_upto(t, rem, bs as int, w),
                local.fpos() == current as int * (bs as int) || (local.fpos()
                    == local.bytes().len() && local.bytes().len() <= current as int * (bs as int)),
                batch_fetch@.skip(fi as int) == diff_list(t, rem, bs as int, w, current as int),
                fetched@ == diff_list(t, rem, bs as int, 0, current as int),
            decreases batch_fetch@.len() - fi,
        {
            let b = batch_fetch[fi];
            proof {
                assert(diff_list(t, rem, bs as int, w, current as int).len() > 0);
                crate::model::lemma_diff_list_head(t, rem, bs as int, w, current as int);
                assert(batch_fetch@.skip(fi as int)[0] == batch_fetch@[fi as int]);
                crate::model::lemma_synced_skip(t, rem, bs as int, w, b as int);
                crate::model::lemma_block_len(rem, bs as int, b as int);
                lemma_mul_inequality(b as int + 1, nb as int, bs as int);
                lemma_mul_inequality(current as int, nb as int, bs as int);
                assert((b as int + 1) * (bs as int) == b as int * (bs as int) + bs as int)
                    by (nonlinear_arith);
                assert(b as int * (bs as int) >= 0) by (nonlinear_arith)
                    requires
                        bs >= 1,
                ;
            }
            let (bresp, _bq) = transmitter_step(remote, Command::GetBlock(b));
            let payload = match bresp {
                Some(Response::Block(p)) => p,
                _ => {
                    return Err(SyncError::ProtocolViolation);
                },
            };
            let written = match local.write_block(b, payload.as_slice()) {
                Ok(n) => n,
                Err(_) => {
                    return Err(SyncError::IoError);
                },
            };
            if written != payload.len() {
                return Err(SyncError::ProtocolViolation);
            }
            proof {
                assert(local.bytes() == synced_upto(t, rem, bs as int, b as int + 1));
                w = b as int + 1;
                assert(batch_fetch@.skip(fi as int + 1) =~= batch_fetch@.skip(fi as int).skip(1));
            }
            fi = fi + 1;
        }
        proof {
            assert(diff_list(t, rem, bs as int, w, current as int) == batch_fetch@.skip(
                batch_fetch@.len() as int,
            ));
            assert(batch_fetch@.skip(batch_fetch@.len() as int) =~= Seq::<u64>::empty());
            crate::model::lemma_diff_list_membership(t, rem, bs as int, w, current as int);
            assert forall|i: int| w <= i < current as int implies !differs(
                t,
                rem,
                bs as int,
                i,
            ) by {
                if differs(t, rem, bs as int, i) {
                    assert(diff_list(t, rem, bs as int, w, current as int).contains(i as u64));
                }
            }
            crate::model::lemma_synced_skip(t, rem, bs as int, w, current as int);
        }
    }
    let (_qresp, _qq) = transmitter_step(remote, Command::Quit);
    Ok(fetched)
}

} // verus!
