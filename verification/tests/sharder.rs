use bio_types::strand::Strand;
use libradicl::error::RadError;
use libradicl::primitive::RadIntId;
use libradicl::shard::{dump_corrected_cb_chunk_to_temp_file, TempBucket};
use std::collections::HashMap;

const FW: u32 = 0x8000_0000;

fn record(bc: u32, umi: u16, entries: &[u32]) -> Vec<u8> {
    let mut v = Vec::new();
    v.extend_from_slice(&(entries.len() as u32).to_le_bytes());
    v.extend_from_slice(&bc.to_le_bytes());
    v.extend_from_slice(&umi.to_le_bytes());
    for e in entries {
        v.extend_from_slice(&e.to_le_bytes());
    }
    v
}

fn chunk(records: &[Vec<u8>]) -> Vec<u8> {
    let total: usize = 8 + records.iter().map(|r| r.len()).sum::<usize>();
    let mut v = Vec::new();
    v.extend_from_slice(&(total as u32).to_le_bytes());
    v.extend_from_slice(&(records.len() as u32).to_le_bytes());
    for r in records {
        v.extend_from_slice(r);
    }
    v
}

fn maps() -> (HashMap<u64, u64, ahash::RandomState>, HashMap<u64, u32>) {
    let mut correct = HashMap::with_hasher(ahash::RandomState::new());
    correct.insert(1u64, 100u64);
    correct.insert(2u64, 200u64);
    correct.insert(3u64, 100u64);
    correct.insert(9u64, 900u64);
    let mut cache = HashMap::new();
    cache.insert(100u64, 0u32);
    cache.insert(200u64, 1u32);
    (correct, cache)
}

#[test]
fn temp_bucket_starts_with_nothing_written() {
    let b = TempBucket::from_id(3);
    assert_eq!(b.bucket_id, 3);
    assert_eq!(b.num_chunks, 0);
    assert_eq!(b.num_records, 0);
    assert_eq!(b.num_records_written, 0);
    assert_eq!(b.num_bytes_written, 0);
}

#[test]
fn sharder_routes_counts_and_flushes() {
    let input = chunk(&[
        record(1, 11, &[4 | FW, 2 | FW]), // bucket 0, 18 bytes
        record(2, 12, &[7 | FW]),         // bucket 1, 14 bytes
        record(7, 13, &[1 | FW]),         // not correctable
        record(3, 14, &[5]),              // reverse only: empty after the filter
        record(9, 15, &[6 | FW]),         // corrected, but no bucket
        record(3, 16, &[8 | FW, 9]),      // bucket 0, 14 bytes: 18 + 14 >= 30 flushes
        record(2, 17, &[3 | FW]),         // bucket 1, 14 bytes: 28 < 30
    ]);
    let (correct, cache) = maps();
    let mut buckets = vec![TempBucket::from_id(0), TempBucket::from_id(1)];
    let mut buffers = vec![Vec::new(), Vec::new()];
    let mut pos = 0usize;
    let flushes = dump_corrected_cb_chunk_to_temp_file(
        &input,
        &mut pos,
        &RadIntId::U32,
        &RadIntId::U16,
        &correct,
        &Strand::Forward,
        &cache,
        &mut buckets,
        &mut buffers,
        30,
    )
    .unwrap();
    assert_eq!(pos, input.len());
    let a1 = record(100, 11, &[2, 4]);
    let a2 = record(100, 16, &[8]);
    let b1 = record(200, 12, &[7]);
    let b2 = record(200, 17, &[3]);
    assert_eq!(flushes, vec![(0u32, a1.clone())]);
    assert_eq!(buffers[0], a2);
    let mut want = b1.clone();
    want.extend_from_slice(&b2);
    assert_eq!(buffers[1], want);
    assert_eq!(buckets[0].num_records_written, 2);
    assert_eq!(buckets[1].num_records_written, 2);
    assert_eq!(buckets[0].num_bytes_written, (a1.len() + a2.len()) as u64);
    assert_eq!(buckets[1].num_bytes_written, (b1.len() + b2.len()) as u64);
    // the byte counters add up to the sizes of the records written
    let written: u64 = buckets.iter().map(|b| b.num_bytes_written).sum();
    assert_eq!(written, (4 + 4 + 2 + 4 * 2) + 3 * (4 + 4 + 2 + 4));
    let flushed: usize = flushes.iter().map(|f| f.1.len()).sum();
    assert_eq!(flushed + buffers[0].len() + buffers[1].len(), written as usize);
}

#[test]
fn sharder_keeps_every_alignment_under_an_unknown_orientation() {
    let input = chunk(&[record(1, 1, &[9, 3 | FW, 5])]);
    let (correct, cache) = maps();
    let mut buckets = vec![TempBucket::from_id(0), TempBucket::from_id(1)];
    let mut buffers = vec![Vec::new(), Vec::new()];
    let mut pos = 0usize;
    let flushes = dump_corrected_cb_chunk_to_temp_file(
        &input,
        &mut pos,
        &RadIntId::U32,
        &RadIntId::U16,
        &correct,
        &Strand::Unknown,
        &cache,
        &mut buckets,
        &mut buffers,
        4096,
    )
    .unwrap();
    assert!(flushes.is_empty());
    assert_eq!(buffers[0], record(100, 1, &[3, 5, 9]));
    assert_eq!(buckets[0].num_bytes_written, 22);
}

#[test]
fn sharder_skips_a_record_that_the_filter_empties() {
    let input = chunk(&[record(1, 1, &[0])]);
    let (correct, cache) = maps();
    let mut buckets = vec![TempBucket::from_id(0), TempBucket::from_id(1)];
    let mut buffers = vec![Vec::new(), Vec::new()];
    let mut pos = 0usize;
    let flushes = dump_corrected_cb_chunk_to_temp_file(
        &input,
        &mut pos,
        &RadIntId::U32,
        &RadIntId::U16,
        &correct,
        &Strand::Forward,
        &cache,
        &mut buckets,
        &mut buffers,
        4096,
    )
    .unwrap();
    assert!(flushes.is_empty());
    assert!(buffers[0].is_empty());
    assert_eq!(buckets[0], TempBucket::from_id(0));
    assert_eq!(pos, input.len());
}

#[test]
fn sharder_changes_nothing_on_short_input() {
    let mut input = chunk(&[record(1, 1, &[1 | FW]), record(2, 1, &[1 | FW])]);
    input.pop();
    let (correct, cache) = maps();
    let mut buckets = vec![TempBucket::from_id(0), TempBucket::from_id(1)];
    let mut buffers = vec![vec![1u8, 2, 3], Vec::new()];
    let mut pos = 0usize;
    let r = dump_corrected_cb_chunk_to_temp_file(
        &input,
        &mut pos,
        &RadIntId::U32,
        &RadIntId::U16,
        &correct,
        &Strand::Forward,
        &cache,
        &mut buckets,
        &mut buffers,
        4096,
    );
    assert_eq!(r, Err(RadError::ShortRead));
    assert_eq!(pos, 0);
    assert_eq!(buffers[0], vec![1u8, 2, 3]);
    assert_eq!(buckets[0], TempBucket::from_id(0));
}
