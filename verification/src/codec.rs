//! Wire codec for the sync protocol.
//!
//! Every command is framed as a fixed 9-byte header: a 1-byte opcode followed
//! by an 8-byte big-endian operand (zero where the command takes none).  The
//! transmitter answers with an 8-byte big-endian length, a back-to-back run of
//! 8-byte big-endian fingerprints, or a length-prefixed block payload.
use vstd::prelude::*;

use crate::SyncError;

verus! {

pub const GET_BLOCKHASH: u8 = 1;
pub const GET_BLOCK: u8 = 2;
pub const GET_LEN: u8 = 3;
pub const QUIT: u8 = 4;

/// A decoded protocol command, as the receiver issues them.
#[derive(Clone, Copy, Debug, PartialEq, Eq, Structural)]
pub enum Command {
    /// Request the next `count` sequential block fingerprints.
    GetBlockhash(u64),
    /// Request the full contents of one block by index.
    GetBlock(u64),
    /// Query the reference file length.
    GetLen,
    /// Terminate the transmitter loop.
    Quit,
}

/// A decoded transmitter response, one shape per serving command.
#[derive(Debug)]
pub enum Response {
    Len(u64),
    Hashes(Vec<u64>),
    Block(Vec<u8>),
}

/// The eight big-endian bytes of `v`, most significant first.
pub open spec fn be_bytes_of(v: u64) -> Seq<u8> {
    seq![
        (((v >> 56) & 0xff) as u8),
        (((v >> 48) & 0xff) as u8),
        (((v >> 40) & 0xff) as u8),
        (((v >> 32) & 0xff) as u8),
        (((v >> 24) & 0xff) as u8),
        (((v >> 16) & 0xff) as u8),
        (((v >> 8) & 0xff) as u8),
        ((v & 0xff) as u8),
    ]
}

/// The value whose big-endian bytes are `s` (the first eight bytes of `s`).
pub open spec fn be_val_of(s: Seq<u8>) -> u64
    recommends
        s.len() == 8,
{
    (((s[0] as u64) << 56) | ((s[1] as u64) << 48) | ((s[2] as u64) << 40) | ((s[3] as u64) << 32)
        | ((s[4] as u64) << 24) | ((s[5] as u64) << 16) | ((s[6] as u64) << 8) | (s[7] as u64))
}

/// Reading back the big-endian bytes of a value yields the value: the codec
/// loses nothing on any `u64` field of the protocol.
pub proof fn lemma_be_round_trip(v: u64)
    ensures
        be_val_of(be_bytes_of(v)) == v,
{
    assert((((((v >> 56) & 0xff) as u8) as u64) << 56 | ((((v >> 48) & 0xff) as u8) as u64) << 48
        | ((((v >> 40) & 0xff) as u8) as u64) << 40 | ((((v >> 32) & 0xff) as u8) as u64) << 32
        | ((((v >> 24) & 0xff) as u8) as u64) << 24 | ((((v >> 16) & 0xff) as u8) as u64) << 16
        | ((((v >> 8) & 0xff) as u8) as u64) << 8 | (((v & 0xff) as u8) as u64)) == v)
        by (bit_vector);
}

/// Big-endian encoding of `v` as a fresh byte vector.
pub fn u64_to_be_bytes(v: u64) -> (r: Vec<u8>)
    ensures
        r@ == be_bytes_of(v),
{
    proof {
        assert((v >> 56) & 0xff < 256 && (v >> 48) & 0xff < 256 && (v >> 40) & 0xff < 256 && (v
            >> 32) & 0xff < 256 && (v >> 24) & 0xff < 256 && (v >> 16) & 0xff < 256 && (v >> 8)
            & 0xff < 256 && v & 0xff < 256) by (bit_vector);
    }
    let mut r: Vec<u8> = Vec::new();
    r.push(((v >> 56) & 0xff) as u8);
    r.push(((v >> 48) & 0xff) as u8);
    r.push(((v >> 40) & 0xff) as u8);
    r.push(((v >> 32) & 0xff) as u8);
    r.push(((v >> 24) & 0xff) as u8);
    r.push(((v >> 16) & 0xff) as u8);
    r.push(((v >> 8) & 0xff) as u8);
    r.push((v & 0xff) as u8);
    proof {
        assert(r@ =~= be_bytes_of(v));
    }
    r
}

/// Reads the eight bytes of `input` that start at `splitpos` as one
/// big-endian value; the bytes after `splitpos` must be exactly eight.
pub fn read_be_u64(input: &[u8], splitpos: usize) -> (r: u64)
    requires
        splitpos + 8 == input@.len(),
    ensures
        r == be_val_of(input@.subrange(splitpos as int, splitpos as int + 8)),
{
    let r = ((input[splitpos] as u64) << 56) | ((input[splitpos + 1] as u64) << 48) | ((input[
        splitpos + 2] as u64) << 40) | ((input[splitpos + 3] as u64) << 32) | ((input[splitpos
        + 4] as u64) << 24) | ((input[splitpos + 5] as u64) << 16) | ((input[splitpos + 6] as u64)
        << 8) | (input[splitpos + 7] as u64);
    proof {
        let s = input@.subrange(splitpos as int, splitpos as int + 8);
        assert(s[0] == input@[splitpos as int] && s[1] == input@[splitpos as int + 1] && s[2]
            == input@[splitpos as int + 2] && s[3] == input@[splitpos as int + 3] && s[4] == input@[
            splitpos as int + 4] && s[5] == input@[splitpos as int + 5] && s[6] == input@[splitpos
            as int + 6] && s[7] == input@[splitpos as int + 7]);
    }
    r
}

pub open spec fn spec_opcode(c: Command) -> u8 {
    match c {
        Command::GetBlockhash(_) => GET_BLOCKHASH,
        Command::GetBlock(_) => GET_BLOCK,
        Command::GetLen => GET_LEN,
        Command::Quit => QUIT,
    }
}

pub open spec fn spec_operand(c: Command) -> u64 {
    match c {
        Command::GetBlockhash(n) => n,
        Command::GetBlock(b) => b,
        Command::GetLen => 0,
        Command::Quit => 0,
    }
}

/// The 9-byte frame of a command: opcode, then the big-endian operand.
pub open spec fn spec_encode_command(c: Command) -> Seq<u8> {
    seq![spec_opcode(c)] + be_bytes_of(spec_operand(c))
}

/// What decoding a 9-byte frame yields; an unrecognized opcode or a frame of
/// the wrong length is a protocol violation.
pub open spec fn spec_decode_command(s: Seq<u8>) -> Result<Command, SyncError> {
    if s.len() != 9 {
        Err(SyncError::ProtocolViolation)
    } else {
        let v = be_val_of(s.subrange(1, 9));
        if s[0] == GET_BLOCKHASH {
            Ok(Command::GetBlockhash(v))
        } else if s[0] == GET_BLOCK {
            Ok(Command::GetBlock(v))
        } else if s[0] == GET_LEN {
            Ok(Command::GetLen)
        } else if s[0] == QUIT {
            Ok(Command::Quit)
        } else {
            Err(SyncError::ProtocolViolation)
        }
    }
}

pub fn encode_command(c: &Command) -> (r: Vec<u8>)
    ensures
        r@ == spec_encode_command(*c),
        r@.len() == 9,
{
    let (op, operand): (u8, u64) = match c {
        Command::GetBlockhash(n) => (GET_BLOCKHASH, *n),
        Command::GetBlock(b) => (GET_BLOCK, *b),
        Command::GetLen => (GET_LEN, 0),
        Command::Quit => (QUIT, 0),
    };
    let mut r: Vec<u8> = Vec::new();
    r.push(op);
    let tail = u64_to_be_bytes(operand);
    let mut i: usize = 0;
    while i < 8
        invariant
            tail@ == be_bytes_of(operand),
            i <= 8,
            r@ == seq![op] + tail@.subrange(0, i as int),
        decreases 8 - i,
    {
        r.push(tail[i]);
        proof {
            assert(r@ =~= seq![op] + tail@.subrange(0, i as int + 1));
        }
        i += 1;
    }
    proof {
        assert(tail@.subrange(0, 8) =~= tail@);
        assert(r@ =~= spec_encode_command(*c));
    }
    r
}

pub fn decode_command(buf: &[u8]) -> (r: Result<Command, SyncError>)
    ensures
        r == spec_decode_command(buf@),
{
    if buf.len() != 9 {
        return Err(SyncError::ProtocolViolation);
    }
    let op = buf[0];
    let v = read_be_u64(buf, 1);
    if op == GET_BLOCKHASH {
        Ok(Command::GetBlockhash(v))
    } else if op == GET_BLOCK {
        Ok(Command::GetBlock(v))
    } else if op == GET_LEN {
        Ok(Command::GetLen)
    } else if op == QUIT {
        Ok(Command::Quit)
    } else {
        Err(SyncError::ProtocolViolation)
    }
}

/// Encoding any command and decoding the frame gives the command back.
pub proof fn lemma_command_round_trip(c: Command)
    ensures
        spec_decode_command(spec_encode_command(c)) == Ok::<Command, SyncError>(c),
{
    let s = spec_encode_command(c);
    assert(s.subrange(1, 9) =~= be_bytes_of(spec_operand(c)));
    lemma_be_round_trip(spec_operand(c));
}


/// The wire form of a block payload response: an 8-byte big-endian length,
/// then exactly that many payload bytes.
pub open spec fn spec_encode_block_response(p: Seq<u8>) -> Seq<u8> {
    be_bytes_of(p.len() as u64) + p
}

/// What decoding a block response yields: the payload, or a protocol
/// violation when the byte count disagrees with the length prefix.
pub open spec fn spec_decode_block_response(s: Seq<u8>) -> Result<Seq<u8>, SyncError> {
    if s.len() < 8 {
        Err(SyncError::ProtocolViolation)
    } else {
        let n = be_val_of(s.subrange(0, 8));
        if s.len() != 8 + n {
            Err(SyncError::ProtocolViolation)
        } else {
            Ok(s.skip(8))
        }
    }
}

pub fn encode_block_response(p: &Vec<u8>) -> (r: Vec<u8>)
    ensures
        r@ == spec_encode_block_response(p@),
{
    let mut r = u64_to_be_bytes(p.len() as u64);
    r.extend_from_slice(p.as_slice());
    proof {
        assert(r@ =~= spec_encode_block_response(p@));
    }
    r
}

pub fn decode_block_response(buf: &[u8]) -> (r: Result<Vec<u8>, SyncError>)
    ensures
        r matches Ok(p) ==> spec_decode_block_response(buf@) matches Ok(q) && p@ == q,
        r is Err <==> spec_decode_block_response(buf@) is Err,
{
    if buf.len() < 8 {
        return Err(SyncError::ProtocolViolation);
    }
    let head: &[u8] = &buf[0..8];
    proof {
        assert(head@ =~= buf@.subrange(0, 8));
    }
    let n = read_be_u64(head, 0);
    if n > u64::MAX - 8 || buf.len() as u64 != 8 + n {
        return Err(SyncError::ProtocolViolation);
    }
    let mut p: Vec<u8> = Vec::new();
    let tail: &[u8] = &buf[8..buf.len()];
    p.extend_from_slice(tail);
    proof {
        assert(p@ =~= buf@.skip(8));
    }
    Ok(p)
}

/// Framing a payload and reading the frame back gives the payload: the block
/// response codec loses nothing.
pub proof fn lemma_block_response_round_trip(p: Seq<u8>)
    requires
        p.len() <= u64::MAX,
    ensures
        spec_decode_block_response(spec_encode_block_response(p)) == Ok::<Seq<u8>, SyncError>(p),
{
    let s = spec_encode_block_response(p);
    assert(s.subrange(0, 8) =~= be_bytes_of(p.len() as u64));
    lemma_be_round_trip(p.len() as u64);
    assert(s.skip(8) =~= p);
}

/// The wire form of a fingerprint batch: each 64-bit fingerprint as eight
/// big-endian bytes, back to back, in order.
pub open spec fn spec_encode_hashes(h: Seq<u64>) -> Seq<u8>
    decreases h.len(),
{
    if h.len() == 0 {
        Seq::empty()
    } else {
        spec_encode_hashes(h.drop_last()) + be_bytes_of(h.last())
    }
}

pub proof fn lemma_encode_hashes_len(h: Seq<u64>)
    ensures
        spec_encode_hashes(h).len() == 8 * h.len(),
    decreases h.len(),
{
    if h.len() > 0 {
        lemma_encode_hashes_len(h.drop_last());
    }
}

/// Each fingerprint's eight bytes sit at its index in the batch frame.
pub proof fn lemma_encode_hashes_at(h: Seq<u64>, i: int)
    requires
        0 <= i < h.len(),
    ensures
        spec_encode_hashes(h).len() == 8 * h.len(),
        spec_encode_hashes(h).subrange(8 * i, 8 * i + 8) == be_bytes_of(h[i]),
    decreases h.len(),
{
    lemma_encode_hashes_len(h);
    lemma_encode_hashes_len(h.drop_last());
    if i == h.len() - 1 {
        assert(spec_encode_hashes(h).subrange(8 * i, 8 * i + 8) =~= be_bytes_of(h.last()));
    } else {
        lemma_encode_hashes_at(h.drop_last(), i);
        assert(spec_encode_hashes(h).subrange(8 * i, 8 * i + 8) =~= spec_encode_hashes(
            h.drop_last(),
        ).subrange(8 * i, 8 * i + 8));
    }
}

pub fn encode_hashes(h: &Vec<u64>) -> (r: Vec<u8>)
    ensures
        r@ == spec_encode_hashes(h@),
{
    let mut r: Vec<u8> = Vec::new();
    proof {
        assert(h@.subrange(0, 0) =~= Seq::<u64>::empty());
    }
    let mut i: usize = 0;
    while i < h.len()
        invariant
            i <= h@.len(),
            r@ == spec_encode_hashes(h@.subrange(0, i as int)),
        decreases h@.len() - i,
    {
        let b = u64_to_be_bytes(h[i]);
        r.extend_from_slice(b.as_slice());
        proof {
            let pre = h@.subrange(0, i as int);
            let now = h@.subrange(0, i as int + 1);
            assert(now.drop_last() =~= pre);
            assert(r@ =~= spec_encode_hashes(now));
        }
        i += 1;
    }
    proof {
        assert(h@.subrange(0, h@.len() as int) =~= h@);
    }
    r
}

/// What splitting a fingerprint batch yields when the frame holds exactly
/// `count` fingerprints.
pub open spec fn spec_decode_hashes_ok(s: Seq<u8>, count: int) -> Seq<u64> {
    Seq::new(count as nat, |i: int| be_val_of(s.subrange(8 * i, 8 * i + 8)))
}

pub fn decode_hashes(buf: &[u8], count: usize) -> (r: Result<Vec<u64>, SyncError>)
    ensures
        r matches Ok(h) ==> buf@.len() == 8 * count && h@ == spec_decode_hashes_ok(
            buf@,
            count as int,
        ),
        r is Err <==> buf@.len() != 8 * count,
{
    if buf.len() % 8 != 0 || buf.len() / 8 != count {
        proof {
            vstd::arithmetic::div_mod::lemma_fundamental_div_mod(buf@.len() as int, 8);
        }
        return Err(SyncError::ProtocolViolation);
    }
    proof {
        vstd::arithmetic::div_mod::lemma_fundamental_div_mod(buf@.len() as int, 8);
    }
    let mut h: Vec<u64> = Vec::new();
    let mut i: usize = 0;
    while i < count
        invariant
            i <= count,
            buf@.len() == 8 * count,
            buf@.len() <= usize::MAX,
            h@.len() == i,
            forall|q: int| 0 <= q < i ==> h@[q] == be_val_of(buf@.subrange(8 * q, 8 * q + 8)),
        decreases count - i,
    {
        let piece: &[u8] = &buf[(8 * i)..(8 * i + 8)];
        proof {
            assert(piece@ =~= buf@.subrange(8 * i as int, 8 * i as int + 8));
        }
        let v = read_be_u64(piece, 0);
        proof {
            assert(piece@.subrange(0, 8) =~= piece@);
        }
        h.push(v);
        i += 1;
    }
    proof {
        assert(h@ =~= spec_decode_hashes_ok(buf@, count as int));
    }
    Ok(h)
}

/// Encoding a batch of fingerprints and splitting the frame back gives the
/// batch: the fingerprint response codec loses nothing.
pub proof fn lemma_hashes_round_trip(h: Seq<u64>)
    ensures
        spec_decode_hashes_ok(spec_encode_hashes(h), h.len() as int) == h,
{
    lemma_encode_hashes_len(h);
    assert forall|i: int| 0 <= i < h.len() implies spec_decode_hashes_ok(
        spec_encode_hashes(h),
        h.len() as int,
    )[i] == h[i] by {
        lemma_encode_hashes_at(h, i);
        lemma_be_round_trip(h[i]);
    }
    assert(spec_decode_hashes_ok(spec_encode_hashes(h), h.len() as int) =~= h);
}

} // verus!
