use bsync::SyncError;
use bsync::block_file::BlockFile;
use bsync::codec::{Command, Response};
use bsync::stream::InStream;
use bsync::stream::read_exact;
use bsync::sync::{num_blocks_of, receiver_sync, transmitter_step};

fn read_all(store: &mut BlockFile, cap: usize) -> Vec<u8> {
    let mut buf = vec![0u8; cap];
    let n = store.get_block(0, &mut buf).unwrap();
    buf.truncate(n);
    buf
}

fn run_session(local_bytes: Vec<u8>, remote_bytes: Vec<u8>, bs: u64, batch: u64) -> (Vec<u64>, Vec<u8>) {
    let mut local = BlockFile::new(local_bytes, bs, true);
    let mut remote = BlockFile::new(remote_bytes, bs, false);
    let fetched = receiver_sync(&mut local, &mut remote, batch).unwrap();
    let out = read_all(&mut local, 1 << 16);
    (fetched, out)
}

#[test]
fn num_blocks_rounds_up() {
    assert_eq!(num_blocks_of(0, 4), 0);
    assert_eq!(num_blocks_of(1, 4), 1);
    assert_eq!(num_blocks_of(4, 4), 1);
    assert_eq!(num_blocks_of(5, 4), 2);
    assert_eq!(num_blocks_of(8, 4), 2);
}

#[test]
fn one_differing_block_fetches_exactly_it() {
    // local [A, B, C] against remote [A, X, C]: one block differs, one fetch
    let a = [1u8; 4];
    let b = [2u8; 4];
    let c = [3u8; 4];
    let x = [9u8; 4];
    let local: Vec<u8> = [a, b, c].concat();
    let remote: Vec<u8> = [a, x, c].concat();
    let (fetched, out) = run_session(local, remote.clone(), 4, 1024);
    assert_eq!(fetched, vec![1]);
    assert_eq!(out, remote);
}

#[test]
fn empty_local_fetches_every_block() {
    // remote holds 2.5 blocks; truncation is a no-op and every block differs
    let remote = vec![1u8, 2, 3, 4, 5];
    let (fetched, out) = run_session(Vec::new(), remote.clone(), 2, 1024);
    assert_eq!(fetched, vec![0, 1, 2]);
    assert_eq!(out, remote);
    assert_eq!(out.len(), 5);
}

#[test]
fn identical_files_fetch_nothing() {
    let data = vec![5u8; 10];
    let (fetched, out) = run_session(data.clone(), data.clone(), 4, 1024);
    assert_eq!(fetched, Vec::<u64>::new());
    assert_eq!(out, data);
}

#[test]
fn longer_local_is_truncated() {
    // same leading content: only the length changes, no block is fetched
    let remote = vec![1u8, 2, 3];
    let local = vec![1u8, 2, 3, 4, 5, 6, 7];
    let (fetched, out) = run_session(local, remote.clone(), 2, 1024);
    assert_eq!(fetched, Vec::<u64>::new());
    assert_eq!(out, remote);
}

#[test]
fn shorter_local_grows_only_by_fetched_blocks() {
    let remote = vec![1u8, 2, 3, 4, 5, 6];
    let local = vec![1u8, 2];
    let (fetched, out) = run_session(local, remote.clone(), 2, 1024);
    assert_eq!(fetched, vec![1, 2]);
    assert_eq!(out, remote);
}

#[test]
fn small_batches_behave_like_one_batch() {
    let remote = vec![7u8, 7, 1, 2, 9, 9, 3, 4, 5];
    let local = vec![7u8, 7, 0, 0, 9, 9];
    let (fetched, out) = run_session(local.clone(), remote.clone(), 2, 1);
    assert_eq!(fetched, vec![1, 3, 4]);
    assert_eq!(out, remote);
    let (fetched2, out2) = run_session(local, remote.clone(), 2, 2);
    assert_eq!(fetched2, fetched);
    assert_eq!(out2, remote);
}

#[test]
fn exact_multiple_of_blocksize_has_no_extra_block() {
    let remote = vec![1u8, 2, 3, 4];
    let (fetched, out) = run_session(Vec::new(), remote.clone(), 2, 1024);
    assert_eq!(fetched, vec![0, 1]);
    assert_eq!(out, remote);
}

#[test]
fn transmitter_serves_len_and_blocks() {
    let mut store = BlockFile::new(vec![1u8, 2, 3, 4, 5], 2, false);
    let (resp, quit) = transmitter_step(&mut store, Command::GetLen);
    assert!(!quit);
    match resp {
        Some(Response::Len(l)) => assert_eq!(l, 5),
        _ => panic!("expected a length response"),
    }
    let (resp, _) = transmitter_step(&mut store, Command::GetBlock(1));
    match resp {
        Some(Response::Block(p)) => assert_eq!(p, vec![3, 4]),
        _ => panic!("expected a block response"),
    }
    // a block past the end answers with an empty payload
    let (resp, _) = transmitter_step(&mut store, Command::GetBlock(77));
    match resp {
        Some(Response::Block(p)) => assert!(p.is_empty()),
        _ => panic!("expected a block response"),
    }
    let (resp, quit) = transmitter_step(&mut store, Command::Quit);
    assert!(quit);
    assert!(resp.is_none());
}

#[test]
fn transmitter_stops_hashing_at_end_of_file() {
    let mut store = BlockFile::new(vec![1u8, 2, 3], 2, false);
    let (resp, _) = transmitter_step(&mut store, Command::GetBlockhash(10));
    match resp {
        Some(Response::Hashes(h)) => {
            assert_eq!(h.len(), 2);
            assert_eq!(h[0], xxhash_rust::xxh3::xxh3_64(&[1, 2]));
            assert_eq!(h[1], xxhash_rust::xxh3::xxh3_64(&[3]));
        }
        _ => panic!("expected a hashes response"),
    }
    let (resp, _) = transmitter_step(&mut store, Command::GetBlockhash(10));
    match resp {
        Some(Response::Hashes(h)) => assert!(h.is_empty()),
        _ => panic!("expected a hashes response"),
    }
}

#[test]
fn read_exact_accumulates_short_reads() {
    let data: Vec<u8> = (0u8..20).collect();
    let mut stream = InStream::new(data.clone(), 3);
    let mut buf = vec![0u8; 7];
    assert_eq!(read_exact(&mut stream, &mut buf), Ok(()));
    assert_eq!(buf, (0u8..7).collect::<Vec<u8>>());
    let mut rest = vec![0u8; 13];
    assert_eq!(read_exact(&mut stream, &mut rest), Ok(()));
    assert_eq!(rest, (7u8..20).collect::<Vec<u8>>());
}

#[test]
fn read_exact_faults_on_exhausted_stream() {
    let mut stream = InStream::new(vec![1u8, 2, 3], 2);
    let mut buf = vec![0u8; 5];
    assert_eq!(read_exact(&mut stream, &mut buf), Err(SyncError::IoError));
}
