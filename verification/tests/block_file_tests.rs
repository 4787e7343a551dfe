use bsync::SyncError;
use bsync::bdiff::bsyncReader;
use bsync::block_file::BlockFile;

fn read_all(store: &mut BlockFile, cap: usize) -> Vec<u8> {
    let mut buf = vec![0u8; cap];
    let n = store.get_block(0, &mut buf).unwrap();
    buf.truncate(n);
    buf
}

#[test]
fn get_len_reports_content_length() {
    let mut f = BlockFile::new(vec![1, 2, 3, 4, 5], 2, false);
    assert_eq!(f.get_len().unwrap(), 5);
}

#[test]
fn hash_sizes_per_strategy() {
    assert_eq!(BlockFile::get_hash_size(), 8);
    assert_eq!(bsyncReader::get_hash_size(), 32);
}

#[test]
fn fingerprint_deterministic_across_stores() {
    let data = vec![7u8, 8, 9, 10, 11, 12];
    let mut a = BlockFile::new(data.clone(), 3, false);
    let mut b = BlockFile::new(data, 3, false);
    assert_eq!(a.next_blockhash(), b.next_blockhash());
    assert_eq!(a.next_blockhash(), b.next_blockhash());
    assert_eq!(a.next_blockhash(), None);
}

#[test]
fn fingerprint_matches_checksum_of_block_bytes() {
    let data = vec![0xabu8, 1, 2, 3, 4];
    let mut f = BlockFile::new(data.clone(), 5, false);
    let expected = xxhash_rust::xxh3::xxh3_64(&data);
    assert_eq!(f.next_blockhash(), Some(expected));
}

#[test]
fn different_blocks_fingerprint_differently() {
    let mut a = BlockFile::new(vec![1u8, 2, 3, 4], 4, false);
    let mut b = BlockFile::new(vec![1u8, 2, 3, 5], 4, false);
    assert_ne!(a.next_blockhash(), b.next_blockhash());
}

#[test]
fn short_final_block_hashes_only_read_bytes() {
    // 1.5 blocks: the second fingerprint covers one byte, not a padded block
    let mut f = BlockFile::new(vec![1u8, 2, 3], 2, false);
    f.next_blockhash().unwrap();
    let short = f.next_blockhash().unwrap();
    assert_eq!(short, xxhash_rust::xxh3::xxh3_64(&[3u8]));
    assert_ne!(short, xxhash_rust::xxh3::xxh3_64(&[3u8, 0]));
}

#[test]
fn cursor_get_and_set() {
    let mut f = BlockFile::new(vec![0u8; 8], 2, false);
    assert_eq!(f.get_next_block(), 0);
    f.next_blockhash().unwrap();
    assert_eq!(f.get_next_block(), 1);
    f.set_next_block(3);
    assert_eq!(f.get_next_block(), 3);
    f.seek(0).unwrap();
    assert_eq!(f.get_next_block(), 0);
}

#[test]
fn interleaved_random_access_keeps_sequential_walk() {
    // random-access reads and writes between fingerprints must not disturb
    // the sequential walk: the walk sees the same hashes a fresh one does
    let data = vec![1u8, 2, 3, 4, 5, 6];
    let mut f = BlockFile::new(data.clone(), 2, true);
    let h0 = f.next_blockhash().unwrap();
    let mut scratch = vec![0u8; 2];
    f.get_block(2, &mut scratch).unwrap();
    let h1 = f.next_blockhash().unwrap();
    f.write_block(0, &[9, 9]).unwrap();
    let h2 = f.next_blockhash().unwrap();
    let mut fresh = BlockFile::new(data, 2, false);
    assert_eq!(fresh.next_blockhash().unwrap(), h0);
    assert_eq!(fresh.next_blockhash().unwrap(), h1);
    assert_eq!(fresh.next_blockhash().unwrap(), h2);
}

#[test]
fn write_block_rejected_on_readonly_store() {
    let mut f = BlockFile::new(vec![0u8; 4], 2, false);
    assert_eq!(f.write_block(0, &[1, 2]), Err(SyncError::IoError));
    assert_eq!(f.set_len(2), Err(SyncError::IoError));
}

#[test]
fn write_block_updates_and_extends() {
    let mut f = BlockFile::new(vec![1u8, 2, 3, 4], 2, true);
    assert_eq!(f.write_block(1, &[8, 9]).unwrap(), 2);
    assert_eq!(read_all(&mut f, 16), vec![1, 2, 8, 9]);
    // writing past the end sparsely extends with zeros
    assert_eq!(f.write_block(3, &[5]).unwrap(), 1);
    assert_eq!(read_all(&mut f, 16), vec![1, 2, 8, 9, 0, 0, 5]);
}

#[test]
fn set_len_truncates_and_extends() {
    let mut f = BlockFile::new(vec![1u8, 2, 3, 4, 5], 2, true);
    f.set_len(3).unwrap();
    assert_eq!(f.get_len().unwrap(), 3);
    assert_eq!(read_all(&mut f, 16), vec![1, 2, 3]);
    f.set_len(5).unwrap();
    assert_eq!(read_all(&mut f, 16), vec![1, 2, 3, 0, 0]);
}

#[test]
fn get_block_reads_one_block() {
    let mut f = BlockFile::new(vec![1u8, 2, 3, 4, 5], 2, false);
    let mut buf = vec![0u8; 2];
    assert_eq!(f.get_block(1, &mut buf).unwrap(), 2);
    assert_eq!(buf, vec![3, 4]);
    // the final short block yields only what exists
    assert_eq!(f.get_block(2, &mut buf).unwrap(), 1);
    assert_eq!(buf, vec![5, 4]);
    // past the end yields nothing
    assert_eq!(f.get_block(9, &mut buf).unwrap(), 0);
}

#[test]
fn sha3_reader_known_digest() {
    // SHA3-256 of "abc", rendered in lower-case hex
    let mut r = bsyncReader::new(vec![b'a', b'b', b'c'], 3);
    let h = r.next_blockhash().unwrap();
    assert_eq!(
        h,
        b"3a985da74fe225b2045c172d6bd390bd855f086e3e9d525b46bfe24511431532".to_vec()
    );
    assert_eq!(r.next_blockhash(), None);
}

#[test]
fn sha3_reader_walk_and_random_access() {
    let mut r = bsyncReader::new(vec![1u8, 2, 3, 4, 5], 2);
    assert_eq!(r.get_next_block(), 0);
    let h0 = r.next_blockhash().unwrap();
    assert_eq!(h0.len(), 64);
    assert_eq!(r.get_next_block(), 1);
    let mut buf = vec![0u8; 2];
    assert_eq!(r.get_block(2, &mut buf).unwrap(), 1);
    assert_eq!(buf[0], 5);
    // the random-access read restored the position: the walk goes on with
    // block 1 as if it had not happened
    let h1 = r.next_blockhash().unwrap();
    let mut fresh = bsyncReader::new(vec![1u8, 2, 3, 4, 5], 2);
    fresh.next_blockhash().unwrap();
    assert_eq!(fresh.next_blockhash().unwrap(), h1);
    r.seek(0).unwrap();
    assert_eq!(r.next_blockhash().unwrap(), h0);
    let mut other = bsyncReader::new(vec![9u8, 9], 2);
    assert_ne!(other.next_blockhash().unwrap(), h0);
}

#[test]
fn random_access_restores_position_to_cursor_block() {
    // after moving only the cursor, a random-access read realigns the
    // underlying position to the cursor's block for the sequential walk
    let mut f = BlockFile::new(vec![1u8, 2, 3, 4, 5, 6], 2, false);
    f.set_next_block(2);
    let mut buf = vec![0u8; 2];
    f.get_block(0, &mut buf).unwrap();
    assert_eq!(buf, vec![1, 2]);
    assert_eq!(
        f.next_blockhash(),
        Some(xxhash_rust::xxh3::xxh3_64(&[5, 6]))
    );
    assert_eq!(f.get_next_block(), 3);
}
