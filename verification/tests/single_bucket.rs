use bio_types::strand::Strand;
use dashmap::DashMap;
use libradicl::cbchunk::{
    absorb_record, collate_temporary_bucket, decode_corrected_records, dump_chunk,
    process_corrected_cb_chunk, CorrectedCbChunk,
};
use libradicl::raw::{scan_records, skip_record};
use libradicl::error::RadError;
use libradicl::primitive::RadIntId;
use libradicl::record::ReadRecord;
use std::collections::HashMap;

const FW: u32 = 0x8000_0000;

fn record(bc: u16, umi: u8, entries: &[u32]) -> Vec<u8> {
    let mut v = Vec::new();
    v.extend_from_slice(&(entries.len() as u32).to_le_bytes());
    v.extend_from_slice(&bc.to_le_bytes());
    v.push(umi);
    for e in entries {
        v.extend_from_slice(&e.to_le_bytes());
    }
    v
}

fn chunk(records: &[Vec<u8>]) -> Vec<u8> {
    let total: usize = 8 + records.iter().map(|r| r.len()).sum::<usize>();
    let mut v = Vec::new();
    v.extend_from_slice(&(total as u32).to_le_bytes());
    v.extend_from_slice(&(records.len() as u32).to_le_bytes());
    for r in records {
        v.extend_from_slice(r);
    }
    v
}

#[test]
fn fresh_chunk_keeps_room_for_the_header() {
    let c = CorrectedCbChunk::from_label_and_counter(77, 3);
    assert_eq!(c.remaining_records, 3);
    assert_eq!(c.corrected_bc, 77);
    assert_eq!(c.nrec, 0);
    assert_eq!(c.data, vec![0u8; 8]);
}

#[test]
fn dump_chunk_writes_size_and_count_over_the_reserved_bytes() {
    let mut c = CorrectedCbChunk::from_label_and_counter(1, 1);
    c.data.extend_from_slice(&[9, 8, 7, 6, 5]);
    c.nrec = 2;
    dump_chunk(&mut c);
    assert_eq!(c.data, vec![13, 0, 0, 0, 2, 0, 0, 0, 9, 8, 7, 6, 5]);
    assert_eq!(c.nrec, 2);
    // a buffer shorter than a header is extended to one
    let mut short = CorrectedCbChunk { remaining_records: 0, corrected_bc: 0, nrec: 1, data: vec![1, 2] };
    dump_chunk(&mut short);
    assert_eq!(short.data, vec![2, 0, 0, 0, 1, 0, 0, 0]);
}

#[test]
fn scan_records_finds_the_end_of_the_records() {
    let mut input = vec![0xEE];
    input.extend_from_slice(&record(1, 2, &[3]));
    input.extend_from_slice(&record(4, 5, &[]));
    input.push(0xDD);
    assert_eq!(scan_records(&input, 1, &RadIntId::U16, &RadIntId::U8, 2), Ok(input.len() - 1));
    assert_eq!(scan_records(&input, 1, &RadIntId::U16, &RadIntId::U8, 0), Ok(1));
    assert_eq!(
        scan_records(&input, 1, &RadIntId::U16, &RadIntId::U8, 3),
        Err(RadError::ShortRead)
    );
}

#[test]
fn single_bucket_collation_groups_records_by_barcode() {
    let r1 = record(10, 1, &[1 | FW]);
    let r2 = record(20, 2, &[2, 3]);
    let r3 = record(10, 3, &[]);
    let mut input = Vec::new();
    for r in [&r1, &r2, &r3] {
        input.extend_from_slice(r);
    }
    let mut cache: HashMap<u64, CorrectedCbChunk, ahash::RandomState> =
        HashMap::with_hasher(ahash::RandomState::new());
    let mut kept = CorrectedCbChunk::from_label_and_counter(20, 5);
    kept.data.extend_from_slice(&[0xAB]);
    kept.nrec = 7;
    cache.insert(20, kept);
    collate_temporary_bucket(&input, &RadIntId::U16, &RadIntId::U8, 1, 3, &mut cache).unwrap();
    assert_eq!(cache.len(), 2);
    let a = &cache[&10];
    assert_eq!(a.nrec, 2);
    assert_eq!(a.remaining_records, 1);
    assert_eq!(a.corrected_bc, 10);
    let mut want = vec![0u8; 8];
    want.extend_from_slice(&r1);
    want.extend_from_slice(&r3);
    assert_eq!(a.data, want);
    let b = &cache[&20];
    assert_eq!(b.nrec, 8);
    assert_eq!(b.remaining_records, 5);
    let mut want = vec![0u8; 8];
    want.push(0xAB);
    want.extend_from_slice(&r2);
    assert_eq!(b.data, want);
}

#[test]
fn single_bucket_collation_leaves_the_cache_alone_on_short_input() {
    let mut input = record(10, 1, &[1]);
    input.extend_from_slice(&record(11, 1, &[1, 2]));
    input.truncate(input.len() - 2);
    let mut cache: HashMap<u64, CorrectedCbChunk> = HashMap::new();
    let r = collate_temporary_bucket(&input, &RadIntId::U16, &RadIntId::U8, 1, 2, &mut cache);
    assert_eq!(r, Err(RadError::ShortRead));
    assert!(cache.is_empty());
}

#[test]
fn absorb_record_appends_and_dumps_at_the_last_record() {
    let mut c = CorrectedCbChunk::from_label_and_counter(0x0102, 2);
    let rr = ReadRecord { bc: 5, umi: 0x33, dirs: vec![], refs: vec![7, 9] };
    assert_eq!(absorb_record(&mut c, 0x0102, &rr, &RadIntId::U16, &RadIntId::U8), None);
    assert_eq!(c.remaining_records, 1);
    assert_eq!(c.nrec, 1);
    let encoded = vec![2, 0, 0, 0, 0x02, 0x01, 0x33, 7, 0, 0, 0, 9, 0, 0, 0];
    assert_eq!(c.data[8..], encoded[..]);
    // an empty record is counted down but not appended
    let empty = ReadRecord { bc: 5, umi: 1, dirs: vec![], refs: vec![] };
    let out = absorb_record(&mut c, 0x0102, &empty, &RadIntId::U16, &RadIntId::U8).unwrap();
    assert_eq!(c.remaining_records, 0);
    assert_eq!(c.nrec, 1);
    let mut want = vec![23, 0, 0, 0, 1, 0, 0, 0];
    want.extend_from_slice(&encoded);
    assert_eq!(out, want);
    assert_eq!(c.data, want);
}

#[test]
fn orientation_filter_drops_record_but_chunk_is_dumped() {
    // one reverse alignment under a forward filter: the record becomes empty
    let input = chunk(&[record(4, 9, &[0])]);
    let mut correct = HashMap::new();
    correct.insert(4u64, 40u64);
    let cache: DashMap<u64, CorrectedCbChunk> = DashMap::new();
    cache.insert(40, CorrectedCbChunk::from_label_and_counter(40, 1));
    let mut pos = 0usize;
    let dumps = process_corrected_cb_chunk(
        &input,
        &mut pos,
        &RadIntId::U16,
        &RadIntId::U8,
        &correct,
        &Strand::Forward,
        &cache,
    )
    .unwrap();
    assert_eq!(pos, input.len());
    assert_eq!(dumps, vec![vec![8, 0, 0, 0, 0, 0, 0, 0]]);
    let held = cache.get(&40).unwrap();
    assert_eq!(held.remaining_records, 0);
    assert_eq!(held.nrec, 0);
}

#[test]
fn process_chunk_corrects_filters_and_dumps() {
    let input = chunk(&[
        record(4, 1, &[5 | FW, 3 | FW, 8]),
        record(6, 2, &[1]),
        record(5, 3, &[2 | FW]),
        record(4, 4, &[9]),
    ]);
    let mut correct = HashMap::new();
    correct.insert(4u64, 40u64);
    correct.insert(5u64, 40u64);
    correct.insert(6u64, 60u64);
    let cache: DashMap<u64, CorrectedCbChunk> = DashMap::new();
    cache.insert(40, CorrectedCbChunk::from_label_and_counter(40, 3));
    let mut pos = 0usize;
    let dumps = process_corrected_cb_chunk(
        &input,
        &mut pos,
        &RadIntId::U16,
        &RadIntId::U8,
        &correct,
        &Strand::Forward,
        &cache,
    )
    .unwrap();
    assert_eq!(pos, input.len());
    let mut want = Vec::new();
    want.extend_from_slice(&record(40, 1, &[3, 5]));
    want.extend_from_slice(&record(40, 3, &[2]));
    let mut whole = Vec::new();
    whole.extend_from_slice(&((8 + want.len()) as u32).to_le_bytes());
    whole.extend_from_slice(&2u32.to_le_bytes());
    whole.extend_from_slice(&want);
    assert_eq!(dumps, vec![whole]);
}

#[test]
fn process_chunk_reads_nothing_from_short_input() {
    let mut input = chunk(&[record(4, 1, &[5, 6])]);
    input.pop();
    let correct: HashMap<u64, u64> = HashMap::new();
    let cache: DashMap<u64, CorrectedCbChunk> = DashMap::new();
    let mut pos = 0usize;
    let r = process_corrected_cb_chunk(
        &input,
        &mut pos,
        &RadIntId::U16,
        &RadIntId::U8,
        &correct,
        &Strand::Unknown,
        &cache,
    );
    assert_eq!(r, Err(RadError::ShortRead));
    assert_eq!(pos, 0);
}

#[test]
fn corrected_records_are_decoded_in_order() {
    let mut input = vec![0xAA, 0xBB];
    input.extend_from_slice(&chunk(&[
        record(4, 1, &[5 | FW, 3 | FW, 8]),
        record(6, 2, &[1]),
        record(7, 3, &[2 | FW]),
        record(4, 4, &[9]),
    ]));
    let mut correct = HashMap::new();
    correct.insert(4u64, 40u64);
    correct.insert(6u64, 60u64);
    let mut pos = 2usize;
    let found = decode_corrected_records(
        &input,
        &mut pos,
        &RadIntId::U16,
        &RadIntId::U8,
        &correct,
        &Strand::Forward,
    )
    .unwrap();
    assert_eq!(pos, input.len());
    assert_eq!(found.len(), 3);
    assert_eq!((found[0].0, found[0].1.bc, found[0].1.umi), (40, 4, 1));
    assert_eq!(found[0].1.refs, vec![3, 5]);
    assert_eq!((found[1].0, found[1].1.bc, found[1].1.umi), (60, 6, 2));
    assert!(found[1].1.is_empty());
    assert_eq!((found[2].0, found[2].1.bc, found[2].1.umi), (40, 4, 4));
    assert!(found[2].1.refs.is_empty());
    assert!(found.iter().all(|f| f.1.dirs.is_empty()));
    let mut pos = 2usize;
    let short = decode_corrected_records(
        &input[..input.len() - 1],
        &mut pos,
        &RadIntId::U16,
        &RadIntId::U8,
        &correct,
        &Strand::Forward,
    );
    assert_eq!(short.err(), Some(RadError::ShortRead));
    assert_eq!(pos, 2);
}

#[test]
fn skipping_a_record_passes_over_its_alignments() {
    let mut input = record(3, 4, &[1, 2, 3]);
    input.extend_from_slice(&record(5, 6, &[]));
    let mut pos = 0usize;
    assert_eq!(skip_record(&input, &mut pos, &RadIntId::U16, &RadIntId::U8), Ok((3, 4, 3)));
    assert_eq!(pos, 19);
    assert_eq!(skip_record(&input, &mut pos, &RadIntId::U16, &RadIntId::U8), Ok((5, 6, 0)));
    assert_eq!(pos, 26);
    assert_eq!(
        skip_record(&input, &mut pos, &RadIntId::U16, &RadIntId::U8),
        Err(RadError::ShortRead)
    );
    let mut pos = 0usize;
    assert_eq!(
        skip_record(&input[..18], &mut pos, &RadIntId::U16, &RadIntId::U8),
        Err(RadError::ShortRead)
    );
    assert_eq!(pos, 0);
}
