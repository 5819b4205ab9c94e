use rbckp::backup::cdc_chunker::{chunk_bytes_cdc, split_chunks};
use rbckp::backup::gear::make_gear_table;
use rbckp::config::ChunkSettings;
use std::collections::HashMap;

/// Bytes from a fixed pseudo-random generator.
fn noise(seed: u64, len: usize) -> Vec<u8> {
    let mut out = Vec::with_capacity(len + 8);
    let mut state = seed;
    while out.len() < len {
        state = state.wrapping_add(0x9E37_79B9_7F4A_7C15);
        let mut z = state;
        z = (z ^ (z >> 30)).wrapping_mul(0xBF58_476D_1CE4_E5B9);
        z = (z ^ (z >> 27)).wrapping_mul(0x94D0_49BB_1331_11EB);
        z ^= z >> 31;
        out.extend_from_slice(&z.to_le_bytes());
    }
    out.truncate(len);
    out
}

/// Bytes from the extended output of BLAKE3.
fn digest_stream(seed: &[u8], len: usize) -> Vec<u8> {
    let mut out = vec![0u8; len];
    let mut hasher = blake3::Hasher::new();
    hasher.update(seed);
    hasher.finalize_xof().fill(&mut out);
    out
}

fn lengths(chunks: &[Vec<u8>]) -> Vec<usize> {
    chunks.iter().map(|c| c.len()).collect()
}

/// The scan written out plainly, with the bit count taken from the
/// floating-point logarithm.
fn plain_scan(
    data: &[u8],
    min: usize,
    avg: usize,
    max: usize,
) -> (Vec<Vec<u8>>, HashMap<String, Vec<Vec<u8>>>) {
    let bits = (avg as f64).log2().round().clamp(1.0, 31.0) as u32;
    let mask = (1u32 << bits) - 1;
    let table = make_gear_table();
    let mut chunks: Vec<Vec<u8>> = Vec::new();
    let mut map: HashMap<String, Vec<Vec<u8>>> = HashMap::new();
    let mut start = 0usize;
    let mut hash = 0u32;
    for (i, &byte) in data.iter().enumerate() {
        hash = hash.wrapping_shl(1).wrapping_add(table[byte as usize]);
        let len = i + 1 - start;
        if len < min {
            continue;
        }
        if (hash & mask) == 0 || len >= max {
            let chunk = data[start..=i].to_vec();
            chunks.push(chunk.clone());
            map.entry(blake3::hash(&chunk).to_hex().to_string()).or_default().push(chunk);
            start = i + 1;
            hash = 0;
        }
    }
    if start < data.len() {
        let chunk = data[start..].to_vec();
        chunks.push(chunk.clone());
        map.entry(blake3::hash(&chunk).to_hex().to_string()).or_default().push(chunk);
    }
    (chunks, map)
}

fn check_against_plain_scan(data: &[u8], min: usize, avg: usize, max: usize) {
    let (chunks, index) = chunk_bytes_cdc(data, min, avg, max);
    let (expected, map) = plain_scan(data, min, avg, max);
    assert_eq!(chunks, expected);
    assert_eq!(index.len(), map.len());
    for i in 0..index.len() {
        let id = index.id_at(i);
        assert_eq!(Some(index.bucket_at(i)), map.get(id));
        assert_eq!(index.get(id), map.get(id));
    }
}

#[test]
fn empty_input_gives_no_chunk_and_no_bucket() {
    let (chunks, index) = chunk_bytes_cdc(b"", 10, 64, 256);
    assert!(chunks.is_empty());
    assert_eq!(index.len(), 0);
    assert!(index.get("af1349b9f5f9a1a6a0404dea36dcc9499bcb25c9adc112b7cc9a93cae41f3262").is_none());
}

#[test]
fn constant_run_is_cut_at_the_maximum_size() {
    let data = vec![b'A'; 1000];
    let (chunks, index) = chunk_bytes_cdc(&data, 10, 64, 256);
    assert_eq!(lengths(&chunks), vec![256, 256, 256, 232]);
    assert!(chunks.iter().all(|c| c.len() <= 256));
    assert_eq!(chunks.iter().map(|c| c.len()).sum::<usize>(), 1000);
    assert_eq!(index.len(), 2);
    assert_eq!(index.bucket_at(0).len(), 3);
    assert_eq!(index.bucket_at(1).len(), 1);
}

#[test]
fn random_input_has_chunks_near_the_average_size() {
    let data = digest_stream(b"ten thousand bytes", 10_000);
    let (chunks, _) = chunk_bytes_cdc(&data, 256, 1024, 4096);
    assert!(!chunks.is_empty());
    let mean = 10_000.0 / chunks.len() as f64;
    assert!(mean >= 512.0 && mean <= 2048.0, "mean = {}", mean);
    assert_eq!(chunks.concat(), data);
}

#[test]
fn noise_is_cut_where_the_hash_says() {
    let data = noise(42, 10_000);
    assert_eq!(&data[..8], &[0x95, 0x6e, 0xeb, 0x2f, 0x26, 0x32, 0xd7, 0xbd]);
    let (chunks, _) = chunk_bytes_cdc(&data, 256, 1024, 4096);
    assert_eq!(lengths(&chunks), vec![936, 464, 408, 331, 866, 1214, 1799, 2793, 371, 429, 389]);
}

#[test]
fn text_is_cut_where_the_hash_says() {
    let data = b"the quick brown fox jumps over the lazy dog".repeat(20);
    let chunks = split_chunks(&data, &ChunkSettings { min: 4, avg: 8, max: 32 });
    let found = lengths(&chunks);
    assert_eq!(found.len(), 81);
    assert_eq!(&found[..7], &[4, 4, 25, 4, 8, 6, 25]);
    assert_eq!(&found[76..], &[8, 6, 25, 4, 6]);
}

#[test]
fn repeated_pattern_lands_in_one_bucket() {
    let pattern = noise(1, 500);
    let other = noise(2, 500);
    let mut data = pattern.clone();
    data.extend_from_slice(&other);
    data.extend_from_slice(&pattern);
    let (chunks, index) = chunk_bytes_cdc(&data, 500, 500, 500);
    assert_eq!(chunks, vec![pattern.clone(), other.clone(), pattern.clone()]);
    let id = blake3::hash(&pattern).to_hex().to_string();
    let bucket = index.get(&id).expect("the pattern has a bucket");
    assert!(bucket.len() >= 2);
    assert_eq!(bucket, &vec![pattern.clone(), pattern]);
    assert_eq!(index.len(), 2);
}

#[test]
fn chunks_put_together_give_the_input() {
    for (seed, len) in [(3u64, 1usize), (4, 15), (5, 16), (6, 17), (7, 4000), (8, 70_000)] {
        let data = noise(seed, len);
        for (min, avg, max) in [(1, 1, 1), (16, 64, 256), (256, 1024, 4096), (5, 5, 9)] {
            let (chunks, _) = chunk_bytes_cdc(&data, min, avg, max);
            assert_eq!(chunks.concat(), data);
        }
    }
}

#[test]
fn chunks_keep_to_the_sizes_of_the_policy() {
    for (seed, len) in [(9u64, 1usize), (10, 300), (11, 4000), (12, 70_000)] {
        let data = noise(seed, len);
        for (min, avg, max) in [(1, 1, 1), (16, 64, 256), (256, 1024, 4096), (5, 5, 9)] {
            let (chunks, _) = chunk_bytes_cdc(&data, min, avg, max);
            let last = chunks.len() - 1;
            for (i, chunk) in chunks.iter().enumerate() {
                assert!(!chunk.is_empty());
                assert!(chunk.len() <= max);
                if i < last {
                    assert!(chunk.len() >= min);
                }
            }
        }
    }
}

#[test]
fn short_input_is_one_tail_chunk() {
    let (chunks, index) = chunk_bytes_cdc(b"abc", 10, 64, 256);
    assert_eq!(chunks, vec![b"abc".to_vec()]);
    assert_eq!(index.len(), 1);
    assert_eq!(index.id_at(0), &blake3::hash(b"abc").to_hex().to_string());
}

#[test]
fn unit_sizes_cut_after_every_byte() {
    let (chunks, index) = chunk_bytes_cdc(b"abca", 1, 1, 1);
    assert_eq!(chunks, vec![b"a".to_vec(), b"b".to_vec(), b"c".to_vec(), b"a".to_vec()]);
    assert_eq!(index.len(), 3);
    assert_eq!(index.bucket_at(0), &vec![b"a".to_vec(), b"a".to_vec()]);
}

#[test]
fn small_noise_is_cut_where_the_hash_says() {
    let data = noise(7, 4000);
    let chunks = split_chunks(&data, &ChunkSettings { min: 16, avg: 64, max: 256 });
    let found = lengths(&chunks);
    assert_eq!(found.len(), 59);
    assert_eq!(&found[..16], &[72, 48, 65, 38, 115, 24, 24, 130, 22, 106, 16, 20, 125, 160, 256, 45]);
    assert_eq!(&found[55..], &[19, 18, 23, 18]);
}

#[test]
fn repeated_calls_give_the_same_result() {
    let data = noise(13, 20_000);
    let (chunks_a, index_a) = chunk_bytes_cdc(&data, 64, 256, 1024);
    let (chunks_b, index_b) = chunk_bytes_cdc(&data, 64, 256, 1024);
    assert_eq!(chunks_a, chunks_b);
    assert_eq!(index_a.len(), index_b.len());
    for i in 0..index_a.len() {
        assert_eq!(index_a.id_at(i), index_b.id_at(i));
        assert_eq!(index_a.bucket_at(i), index_b.bucket_at(i));
    }
}

#[test]
fn split_and_combined_entry_agree() {
    let data = noise(14, 9000);
    let (chunks, _) = chunk_bytes_cdc(&data, 32, 128, 512);
    assert_eq!(chunks, split_chunks(&data, &ChunkSettings { min: 32, avg: 128, max: 512 }));
}

#[test]
fn equal_chunks_share_a_bucket_and_others_do_not() {
    let data = b"the quick brown fox jumps over the lazy dog".repeat(20);
    let (chunks, index) = chunk_bytes_cdc(&data, 4, 8, 32);
    for a in chunks.iter() {
        let id_a = blake3::hash(a).to_hex().to_string();
        let bucket = index.get(&id_a).expect("every chunk has a bucket");
        for b in chunks.iter() {
            assert_eq!(a == b, bucket.contains(b));
        }
        assert_eq!(bucket.len(), chunks.iter().filter(|c| *c == a).count());
    }
}

#[test]
fn insertion_leaves_earlier_chunks_alone() {
    let data = noise(42, 10_000);
    let mut edited = data[..3000].to_vec();
    edited.extend_from_slice(b"hello");
    edited.extend_from_slice(&data[3000..]);
    let (before, _) = chunk_bytes_cdc(&data, 256, 1024, 4096);
    let (after, _) = chunk_bytes_cdc(&edited, 256, 1024, 4096);
    assert_eq!(lengths(&after), vec![936, 464, 408, 331, 2085, 1799, 2793, 371, 429, 389]);
    assert_eq!(after[..4], before[..4]);
    assert_eq!(after[5..], before[6..]);
}

#[test]
fn deletion_leaves_earlier_chunks_alone() {
    let data = noise(42, 10_000);
    let mut edited = data[..2500].to_vec();
    edited.extend_from_slice(&data[2510..]);
    let (before, _) = chunk_bytes_cdc(&data, 256, 1024, 4096);
    let (after, _) = chunk_bytes_cdc(&edited, 256, 1024, 4096);
    assert_eq!(after[..4], before[..4]);
    assert_eq!(after.concat(), edited);
}

#[test]
fn result_matches_the_plain_scan() {
    check_against_plain_scan(b"", 1, 1, 1);
    check_against_plain_scan(b"a", 1, 2, 3);
    check_against_plain_scan(&vec![0u8; 5000], 10, 64, 256);
    check_against_plain_scan(&noise(15, 30_000), 16, 64, 256);
    check_against_plain_scan(&noise(16, 30_000), 256, 1024, 4096);
    check_against_plain_scan(&noise(17, 30_000), 1, 3, 1000);
    check_against_plain_scan(&noise(18, 30_000), 7, 5000, 5000);
    check_against_plain_scan(&b"abcabcabd".repeat(500), 2, 4, 64);
}
