use std::io::{Cursor, Read};

use add_piece::chunks_reader::ChunksReader;
use add_piece::commitment_reader::CommitmentReader;
use add_piece::domain::{hash_leaf, hash_pair, par_reduce, seq_reduce, seq_pair_row, Domain};
use filecoin_hashers::sha256::Sha256Hasher;
use filecoin_hashers::{HashFunction, Hasher};
use filecoin_proofs::constants::DefaultPieceHasher;
use filecoin_proofs::{PaddedBytesAmount, UnpaddedBytesAmount};
use fr32::Fr32Reader;
use storage_proofs_core::pieces::generate_piece_commitment_bytes_from_source;

fn feed_commitment(reader: &mut CommitmentReader, source: &mut dyn Read) -> usize {
    let mut buf = [0u8; 8192];
    let mut total = 0;
    loop {
        let want = reader.window(buf.len());
        let n = source.read(&mut buf[..want]).expect("io copy failed");
        reader.read(&buf[..n]);
        if n == 0 {
            return total;
        }
        total += n;
    }
}

fn feed_chunks(reader: &mut ChunksReader, source: &mut dyn Read) -> usize {
    let mut buf = [0u8; 8192];
    let mut total = 0;
    loop {
        let want = reader.window(buf.len());
        let n = source.read(&mut buf[..want]).expect("io copy failed");
        reader.read(&buf[..n]);
        if n == 0 {
            return total;
        }
        total += n;
    }
}

fn reference_commitment(source: &[u8]) -> [u8; 32] {
    let mut fr32_reader = Fr32Reader::new(Cursor::new(source));
    generate_piece_commitment_bytes_from_source::<DefaultPieceHasher>(
        &mut fr32_reader,
        PaddedBytesAmount::from(UnpaddedBytesAmount(source.len() as u64)).into(),
    )
    .expect("failed to generate piece commitment bytes from source")
}

fn chunked_commitment(source: &[u8], chunk_size: usize) -> Domain {
    let mut fr32_reader = Fr32Reader::new(Cursor::new(source));
    let mut chunks_reader = ChunksReader::new(chunk_size);
    feed_chunks(&mut chunks_reader, &mut fr32_reader);
    chunks_reader.finish()
}

#[test]
fn commitment_reader_test_commitment_reader() {
    let piece_size = 127 * 8;
    let source = vec![255u8; piece_size];
    let commitment1 = reference_commitment(&source);

    let mut fr32_reader = Fr32Reader::new(Cursor::new(&source));
    let mut commitment_reader = CommitmentReader::new();
    feed_commitment(&mut commitment_reader, &mut fr32_reader);

    let commitment2 = commitment_reader.compute();

    assert_eq!(&commitment1[..], &commitment2[..]);
}

#[test]
fn chunks_reader_test_commitment_reader() {
    const NODE_SIZE: usize = 32;

    let piece_size = 127 * 8;
    let source = vec![255u8; piece_size];
    let commitment1 = reference_commitment(&source);

    let commitment2 = chunked_commitment(&source, NODE_SIZE * 4);

    assert_eq!(&commitment1[..], &commitment2[..]);
}

#[test]
fn chunk_size_does_not_change_commitment() {
    let source: Vec<u8> = (0..127u32 * 16).map(|i| (i * 7 % 251) as u8).collect();
    let expected = reference_commitment(&source);
    for chunk_size in [64usize, 128, 256, 512, 1024, 2048, 4096, 64 * 1024 * 1024] {
        assert_eq!(chunked_commitment(&source, chunk_size), expected);
    }
}

#[test]
fn repeated_ingestion_gives_same_commitment() {
    let source = vec![0x5au8; 127 * 4];
    let first = chunked_commitment(&source, 128);
    let second = chunked_commitment(&source, 128);
    assert_eq!(first, second);
}

#[test]
fn smallest_piece_commitment_matches_reference() {
    let source = vec![1u8; 127];
    assert_eq!(chunked_commitment(&source, 64 * 1024 * 1024), reference_commitment(&source));
}

#[test]
fn read_stops_at_window_end() {
    let mut reader = CommitmentReader::new();
    assert_eq!(reader.window(100), 64);
    assert_eq!(reader.read(&[1u8; 40]), 40);
    assert_eq!(reader.window(100), 24);
    assert_eq!(reader.window(10), 10);
    assert_eq!(reader.read(&[1u8; 24]), 24);
    assert_eq!(reader.window(100), 64);
}

#[test]
fn single_leaf_root_is_the_leaf_hash() {
    let window = vec![9u8; 64];
    let mut reader = CommitmentReader::new();
    reader.read(&window);
    assert_eq!(reader.compute(), hash_leaf(&window));
}

#[test]
fn reset_forgets_everything() {
    let mut reader = CommitmentReader::new();
    reader.read(&[3u8; 64]);
    reader.read(&[4u8; 10]);
    reader.reset();
    assert_eq!(reader.window(100), 64);
    reader.read(&[5u8; 64]);
    assert_eq!(reader.compute(), hash_leaf(&vec![5u8; 64]));
}

#[test]
fn leaf_hash_is_the_piece_hasher() {
    let window: Vec<u8> = (0..64u8).collect();
    let expected: [u8; 32] = <Sha256Hasher as Hasher>::Function::hash(&window).into();
    let got = hash_leaf(&window);
    assert_eq!(got, expected);
    assert_eq!(got[31] & 0b1100_0000, 0);
}

#[test]
fn pair_hash_is_hash_of_concatenation() {
    let a = [1u8; 32];
    let b = [2u8; 32];
    let mut joined = a.to_vec();
    joined.extend_from_slice(&b);
    let got = hash_pair(&a, &b);
    assert_ne!(got, a);
    assert_eq!(got, hash_leaf(&joined));
}

#[test]
fn parallel_and_sequential_reduction_agree() {
    let row: Vec<Domain> = (0..8u8).map(|i| [i; 32]).collect();
    let by_hand = {
        let mut level = row.clone();
        while level.len() > 1 {
            level = level.chunks(2).map(|p| hash_pair(&p[0], &p[1])).collect();
        }
        level[0]
    };
    assert_eq!(par_reduce(&row), by_hand);
    assert_eq!(seq_reduce(row.clone()), by_hand);
    assert_eq!(seq_pair_row(&row).len(), 4);
}

#[test]
fn small_reads_give_the_same_commitment() {
    let source = vec![0xffu8; 127 * 8];
    let mut padded = Vec::new();
    Fr32Reader::new(Cursor::new(&source)).read_to_end(&mut padded).unwrap();
    assert_eq!(padded.len(), 1024);
    let mut reader = ChunksReader::new(256);
    let mut pos = 0;
    while pos < padded.len() {
        let take = reader.window(7);
        assert!(take <= 7);
        assert_eq!(reader.read(&padded[pos..pos + take]), take);
        pos += take;
    }
    assert_eq!(reader.finish(), reference_commitment(&source));
}

#[test]
fn all_ones_piece_commitment_is_known() {
    let source = vec![255u8; 127 * 8];
    let chunked = chunked_commitment(&source, 32 * 4);
    let mut fr32_reader = Fr32Reader::new(Cursor::new(&source));
    let mut unchunked = CommitmentReader::new();
    feed_commitment(&mut unchunked, &mut fr32_reader);
    assert_eq!(chunked, unchunked.compute());
    assert_eq!(chunked, reference_commitment(&source));
    assert_eq!(
        chunked,
        [
            115, 196, 70, 40, 220, 136, 129, 206, 12, 12, 243, 21, 18, 67, 186, 76, 211, 7, 251,
            103, 106, 9, 30, 59, 213, 228, 148, 33, 42, 102, 179, 51,
        ]
    );
}
