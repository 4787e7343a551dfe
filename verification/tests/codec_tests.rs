use bsync::SyncError;
use bsync::codec::{
    Command, decode_block_response, decode_command, decode_hashes, encode_block_response,
    encode_command, encode_hashes, read_be_u64, u64_to_be_bytes,
};

#[test]
fn command_round_trip_get_blockhash() {
    let c = Command::GetBlockhash(1024);
    let bytes = encode_command(&c);
    assert_eq!(bytes.len(), 9);
    assert_eq!(decode_command(&bytes), Ok(c));
}

#[test]
fn command_round_trip_get_block() {
    let c = Command::GetBlock(0xdead_beef_0102_0304);
    assert_eq!(decode_command(&encode_command(&c)), Ok(c));
}

#[test]
fn command_round_trip_get_len() {
    let c = Command::GetLen;
    let bytes = encode_command(&c);
    assert_eq!(bytes, vec![3u8, 0, 0, 0, 0, 0, 0, 0, 0]);
    assert_eq!(decode_command(&bytes), Ok(c));
}

#[test]
fn command_round_trip_quit() {
    let c = Command::Quit;
    let bytes = encode_command(&c);
    assert_eq!(bytes, vec![4u8, 0, 0, 0, 0, 0, 0, 0, 0]);
    assert_eq!(decode_command(&bytes), Ok(c));
}

#[test]
fn decode_rejects_unknown_opcode() {
    let bytes = vec![9u8, 0, 0, 0, 0, 0, 0, 0, 0];
    assert_eq!(decode_command(&bytes), Err(SyncError::ProtocolViolation));
}

#[test]
fn decode_rejects_short_frame() {
    let bytes = vec![1u8, 0, 0];
    assert_eq!(decode_command(&bytes), Err(SyncError::ProtocolViolation));
}

#[test]
fn read_be_u64_reads_big_endian() {
    let bytes = [0u8, 0, 0, 0, 0, 0, 1, 2];
    assert_eq!(read_be_u64(&bytes, 0), 258);
    let with_prefix = [0xffu8, 1, 0, 0, 0, 0, 0, 0, 42];
    assert_eq!(read_be_u64(&with_prefix, 1), (1u64 << 56) + 42);
}

#[test]
fn u64_to_be_bytes_is_big_endian() {
    assert_eq!(
        u64_to_be_bytes(0x0102030405060708),
        vec![1u8, 2, 3, 4, 5, 6, 7, 8]
    );
    assert_eq!(u64_to_be_bytes(0), vec![0u8; 8]);
}

#[test]
fn block_response_round_trip() {
    let payload = vec![10u8, 20, 30, 40, 50];
    let framed = encode_block_response(&payload);
    assert_eq!(framed.len(), 13);
    assert_eq!(&framed[0..8], &[0u8, 0, 0, 0, 0, 0, 0, 5]);
    assert_eq!(decode_block_response(&framed), Ok(payload));
}

#[test]
fn block_response_rejects_length_mismatch() {
    let payload = vec![10u8, 20, 30];
    let mut framed = encode_block_response(&payload);
    framed.push(99);
    assert_eq!(
        decode_block_response(&framed),
        Err(SyncError::ProtocolViolation)
    );
    assert_eq!(
        decode_block_response(&[1u8, 2, 3]),
        Err(SyncError::ProtocolViolation)
    );
}

#[test]
fn hashes_round_trip() {
    let hashes = vec![1u64, u64::MAX, 0, 0x0102030405060708];
    let framed = encode_hashes(&hashes);
    assert_eq!(framed.len(), 32);
    assert_eq!(decode_hashes(&framed, 4), Ok(hashes));
}

#[test]
fn hashes_reject_wrong_count() {
    let framed = encode_hashes(&vec![7u64]);
    assert_eq!(decode_hashes(&framed, 2), Err(SyncError::ProtocolViolation));
    assert_eq!(
        decode_hashes(&[0u8; 7], 1),
        Err(SyncError::ProtocolViolation)
    );
}
