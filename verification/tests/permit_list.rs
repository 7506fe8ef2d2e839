use bio_types::strand::Strand;
use libradicl::barcode::BarcodeLookupMap;
use libradicl::eqlist::GlobalEqCellList;
use libradicl::error::RadError;
use libradicl::permit::{
    encode_barcode, is_strand_compatible, permit_list_from_file, permit_list_from_threshold,
    update_barcode_hist, update_barcode_hist_unfiltered,
};
use libradicl::record::{Chunk, ReadRecord};
use libradicl::shard::TempBucket;
use std::collections::HashMap;

fn read(bc: u64, dirs: &[bool]) -> ReadRecord {
    ReadRecord { bc, umi: 0, dirs: dirs.to_vec(), refs: (0..dirs.len() as u32).collect() }
}

fn reads() -> Chunk {
    Chunk {
        nbytes: 0,
        nrec: 5,
        reads: vec![
            read(1, &[true]),
            read(2, &[false, false, false]),
            read(1, &[false, true]),
            read(3, &[]),
            read(2, &[true, true, true, true]),
        ],
    }
}

#[test]
fn permit_list_lines_are_encoded() {
    assert_eq!(permit_list_from_file(b"AAAA\nAACG\nACAA\nTTTT\n", 4), Ok(vec![0x00, 0x06, 0x10, 0xFF]));
    // a last line without a line feed, and lines ended by CR LF
    assert_eq!(permit_list_from_file(b"ACGT\r\nTGCA", 4), Ok(vec![0x1B, 0xE4]));
    assert_eq!(permit_list_from_file(b"", 4), Ok(vec![]));
    assert_eq!(permit_list_from_file(b"G\nT\n", 1), Ok(vec![2, 3]));
}

#[test]
fn permit_list_refuses_bad_lines() {
    assert_eq!(permit_list_from_file(b"AAAA\nAAA\n", 4), Err(RadError::MalformedRecord));
    assert_eq!(permit_list_from_file(b"AAAA\nAANA\n", 4), Err(RadError::MalformedRecord));
    assert_eq!(permit_list_from_file(b"AAAA\n\nCCCC\n", 4), Err(RadError::MalformedRecord));
    assert_eq!(permit_list_from_file(b"acgt\n", 4), Err(RadError::MalformedRecord));
    assert_eq!(permit_list_from_file(b"AAAAA", 4), Err(RadError::MalformedRecord));
    assert_eq!(permit_list_from_file(&[b'A'; 33], 33), Err(RadError::MalformedRecord));
}

#[test]
fn barcodes_of_every_length_are_encoded() {
    assert_eq!(encode_barcode(b"", 0), Ok(0));
    assert_eq!(encode_barcode(b"T", 1), Ok(3));
    assert_eq!(encode_barcode(b"GATTACA", 7), Ok(0b10_00_11_11_00_01_00));
    let long: Vec<u8> = b"ACGT".iter().cycle().take(31).cloned().collect();
    let mut want = 0u64;
    for c in &long {
        want = (want << 2) | match c { b'A' => 0, b'C' => 1, b'G' => 2, _ => 3 };
    }
    assert_eq!(encode_barcode(&long, 31), Ok(want));
    let full: Vec<u8> = b"TGCA".iter().cycle().take(32).cloned().collect();
    let mut want = 0u64;
    for c in &full {
        want = (want << 2) | match c { b'A' => 0, b'C' => 1, b'G' => 2, _ => 3 };
    }
    assert_eq!(encode_barcode(&full, 32), Ok(want));
    assert_eq!(encode_barcode(&[b'T'; 32], 32), Ok(u64::MAX));
    assert_eq!(encode_barcode(b"ACG", 4), Err(RadError::MalformedRecord));
    assert_eq!(encode_barcode(b"ACGU", 4), Err(RadError::MalformedRecord));
}

#[test]
fn permit_list_feeds_the_lookup_map() {
    let list = permit_list_from_file(b"TTTT\nAAAA\n", 4).unwrap();
    let m = BarcodeLookupMap::new(list, 4);
    let i = m.find_exact(0).unwrap();
    assert_eq!(m.find_neighbors(0b11, true), (Some(i), 1));
}

#[test]
fn permit_list_from_a_histogram() {
    let mut hist: HashMap<u64, u64, ahash::RandomState> =
        HashMap::with_hasher(ahash::RandomState::new());
    hist.insert(10, 5);
    hist.insert(11, 4);
    hist.insert(12, 100);
    hist.insert(13, 0);
    let mut got = permit_list_from_threshold(&hist, 5);
    got.sort_unstable();
    assert_eq!(got, vec![10, 12]);
    let mut all = permit_list_from_threshold(&hist, 0);
    all.sort_unstable();
    assert_eq!(all, vec![10, 11, 12, 13]);
    assert!(permit_list_from_threshold(&hist, 101).is_empty());
}

#[test]
fn strand_compatibility_of_reads() {
    assert!(is_strand_compatible(&read(1, &[false, true]), &Strand::Forward));
    assert!(is_strand_compatible(&read(1, &[false, true]), &Strand::Reverse));
    assert!(!is_strand_compatible(&read(1, &[false]), &Strand::Forward));
    assert!(!is_strand_compatible(&read(1, &[true]), &Strand::Reverse));
    assert!(!is_strand_compatible(&read(1, &[]), &Strand::Forward));
    assert!(is_strand_compatible(&read(1, &[]), &Strand::Unknown));
}

#[test]
fn histogram_counts_compatible_reads() {
    let mut hist: HashMap<u64, u64> = HashMap::new();
    hist.insert(2, 10);
    let mut widest = 2usize;
    update_barcode_hist(&mut hist, &mut widest, &reads(), &Strand::Forward);
    assert_eq!(widest, 4);
    assert_eq!(hist.len(), 2);
    assert_eq!(hist[&1], 2);
    assert_eq!(hist[&2], 11);
    let mut hist: HashMap<u64, u64> = HashMap::new();
    let mut widest = 0usize;
    update_barcode_hist(&mut hist, &mut widest, &reads(), &Strand::Unknown);
    assert_eq!(widest, 4);
    assert_eq!((hist[&1], hist[&2], hist[&3]), (2, 2, 1));
    let mut hist: HashMap<u64, u64> = HashMap::new();
    let mut widest = 7usize;
    update_barcode_hist(&mut hist, &mut widest, &reads(), &Strand::Reverse);
    assert_eq!(widest, 7);
    assert_eq!((hist[&1], hist[&2]), (1, 1));
    assert!(!hist.contains_key(&3));
}

#[test]
fn unfiltered_histogram_lists_unknown_barcodes() {
    let mut hist: HashMap<u64, u64, ahash::RandomState> =
        HashMap::with_hasher(ahash::RandomState::new());
    hist.insert(2, 0);
    hist.insert(9, 1);
    let mut unmatched = vec![42u64];
    let mut widest = 1usize;
    let n = update_barcode_hist_unfiltered(
        &mut hist,
        &mut unmatched,
        &mut widest,
        &reads(),
        &Strand::Unknown,
    );
    assert_eq!(n, 5);
    assert_eq!(widest, 4);
    assert_eq!(hist.len(), 2);
    assert_eq!((hist[&2], hist[&9]), (2, 1));
    assert_eq!(unmatched, vec![42, 1, 1, 3]);
    let mut unmatched = Vec::new();
    let mut widest = 0usize;
    let n = update_barcode_hist_unfiltered(
        &mut hist,
        &mut unmatched,
        &mut widest,
        &reads(),
        &Strand::Reverse,
    );
    assert_eq!(n, 2);
    assert_eq!(widest, 3);
    assert_eq!(hist[&2], 3);
    assert_eq!(unmatched, vec![1]);
}

#[test]
fn equivalence_cell_list_grows() {
    let mut l = GlobalEqCellList::from_umi_and_count(7, 3);
    assert_eq!(l.cell_ids, vec![7]);
    assert_eq!(l.count, 3);
    l.add_element(9, 4);
    assert_eq!(l.cell_ids, vec![7, 9]);
    assert_eq!(l.count, 7);
}

#[test]
fn bucket_files_are_named_by_their_number() {
    assert_eq!(TempBucket::from_id(0).file_name(), b"bucket_0.tmp".to_vec());
    assert_eq!(TempBucket::from_id(7).file_name(), b"bucket_7.tmp".to_vec());
    assert_eq!(TempBucket::from_id(10).file_name(), b"bucket_10.tmp".to_vec());
    assert_eq!(TempBucket::from_id(4096).file_name(), b"bucket_4096.tmp".to_vec());
    assert_eq!(TempBucket::from_id(u32::MAX).file_name(), b"bucket_4294967295.tmp".to_vec());
}
