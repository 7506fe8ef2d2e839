use libradicl::barcode::{kmer_fits, BarcodeLookupMap};
use libradicl::error::RadError;

fn encode(s: &str) -> u64 {
    let mut v = 0u64;
    for c in s.bytes() {
        let code = match c {
            b'A' => 0,
            b'C' => 1,
            b'G' => 2,
            b'T' => 3,
            _ => panic!("not a nucleotide"),
        };
        v = (v << 2) | code;
    }
    v
}

fn map_of(names: &[&str], bclen: u32) -> BarcodeLookupMap {
    BarcodeLookupMap::new(names.iter().map(|s| encode(s)).collect(), bclen)
}

#[test]
fn prefix_table_of_four_barcodes() {
    assert_eq!(encode("AAAA"), 0x00);
    assert_eq!(encode("AACG"), 0x06);
    assert_eq!(encode("ACAA"), 0x10);
    assert_eq!(encode("TTTT"), 0xFF);
    let m = map_of(&["TTTT", "ACAA", "AAAA", "AACG"], 4);
    assert_eq!(m.barcodes, vec![0x00, 0x06, 0x10, 0xFF]);
    assert_eq!(m.bclen, 4);
    assert_eq!(m.prefix_len, 2);
    assert_eq!(m.suffix_len, 2);
    assert_eq!(m.offsets.len(), 17);
    assert_eq!(m.offsets[0], 0);
    assert_eq!(m.offsets[1], 2);
    for p in 2..=15 {
        assert_eq!(m.offsets[p], 3);
    }
    assert_eq!(m.offsets[15], 3);
    assert_eq!(m.offsets[16], 4);
}

#[test]
fn offsets_never_descend_and_span_the_barcodes() {
    let m = map_of(&["GATTA", "CATTA", "TTTTT", "AAAAA", "CATTG", "GGGGG", "ACGTA"], 5);
    assert_eq!(m.prefix_len, 3);
    assert_eq!(m.suffix_len, 2);
    assert_eq!(m.offsets.len(), 65);
    assert_eq!(m.offsets[0], 0);
    assert_eq!(m.offsets[64], m.barcodes.len());
    for p in 0..64 {
        assert!(m.offsets[p] <= m.offsets[p + 1]);
    }
    for (i, b) in m.barcodes.iter().enumerate() {
        let p = (*b >> 4) as usize;
        assert!(m.offsets[p] <= i && i < m.offsets[p + 1]);
    }
}

#[test]
fn every_permitted_barcode_is_found_exactly() {
    let names = ["GATTA", "CATTA", "TTTTT", "AAAAA", "CATTG", "GGGGG", "ACGTA"];
    let m = map_of(&names, 5);
    for n in names {
        let i = m.find_exact(encode(n)).unwrap();
        assert_eq!(m.barcodes[i], encode(n));
        assert_eq!(m.barcode_for_idx(i), encode(n));
    }
    assert_eq!(m.find_exact(encode("CCCCC")), None);
    assert_eq!(m.find_exact(encode("GATTC")), None);
}

#[test]
fn unique_neighbor_is_found() {
    let m = map_of(&["AAAA", "TTTT"], 4);
    let idx_of_aaaa = m.find_exact(encode("AAAA")).unwrap();
    assert_eq!(m.find_neighbors(encode("AAAT"), true), (Some(idx_of_aaaa), 1));
    assert_eq!(m.find_neighbors(encode("AAAT"), false), (Some(idx_of_aaaa), 1));
    // a mismatch in the prefix
    assert_eq!(m.find_neighbors(encode("CAAA"), true), (Some(idx_of_aaaa), 1));
    let idx_of_tttt = m.find_exact(encode("TTTT")).unwrap();
    assert_eq!(m.find_neighbors(encode("TGTT"), true), (Some(idx_of_tttt), 1));
}

#[test]
fn ambiguous_neighbors_are_reported_as_two() {
    let m = map_of(&["AAAA", "AAAT", "AATA", "ATAA", "TAAA"], 4);
    let (idx, count) = m.find_neighbors(encode("AAAA"), false);
    assert_eq!(count, 2);
    let found = m.barcodes[idx.unwrap()];
    assert!([encode("AAAT"), encode("AATA"), encode("ATAA"), encode("TAAA")].contains(&found));
}

#[test]
fn exact_match_wins_when_asked_for() {
    let m = map_of(&["AAAA", "AAAT", "AATA"], 4);
    let i = m.find_exact(encode("AAAA")).unwrap();
    assert_eq!(m.find_neighbors(encode("AAAA"), true), (Some(i), 1));
    assert_eq!(m.find_neighbors(encode("AAAA"), false).1, 2);
}

#[test]
fn no_neighbor_gives_none_and_zero() {
    let m = map_of(&["AAAA", "TTTT"], 4);
    assert_eq!(m.find_neighbors(encode("ACGA"), true), (None, 0));
    assert_eq!(m.find_neighbors(encode("AAAA"), false), (None, 0));
}

#[test]
fn duplicate_barcodes_count_as_one_neighbor() {
    let m = map_of(&["AAAA", "AAAA", "TTTT"], 4);
    let (idx, count) = m.find_neighbors(encode("AAAC"), true);
    assert_eq!(count, 1);
    assert_eq!(m.barcodes[idx.unwrap()], encode("AAAA"));
    assert_eq!(m.barcodes.len(), 3);
}

#[test]
fn heavily_ambiguous_query_stops_at_the_second_neighbor() {
    // every 1-mismatch neighbour of a 16-nucleotide barcode is permitted
    let q = encode("ACGTACGTACGTACGT");
    let mut kv = Vec::new();
    for i in 0..16 {
        for k in 1..4u64 {
            let sh = 2 * i;
            let nucl = ((q >> sh) + k) & 3;
            kv.push((q & !(3u64 << sh)) | (nucl << sh));
        }
    }
    let m = BarcodeLookupMap::new(kv, 16);
    assert_eq!(m.offsets.len(), (1 << 16) + 1);
    let (idx, count) = m.find_neighbors(q, true);
    assert_eq!(count, 2);
    // the second k-mer tried is the second found: the last nucleotide, two steps on
    assert_eq!(m.barcodes[idx.unwrap()], (q & !3) | (((q & 3) + 2) & 3));
}

#[test]
fn barcodes_of_32_nucleotides_and_odd_lengths() {
    let m = BarcodeLookupMap::new(vec![0x1B, 0x00, 0x3F], 3);
    assert_eq!(m.prefix_len, 2);
    assert_eq!(m.suffix_len, 1);
    assert_eq!(m.offsets.len(), 17);
    assert_eq!(m.find_exact(0x1B), Some(1));
    assert_eq!(m.find_neighbors(0x1A, true), (Some(1), 1));
    let empty = BarcodeLookupMap::new(Vec::new(), 6);
    assert_eq!(empty.offsets, vec![0; 65]);
    assert_eq!(empty.find_neighbors(5, true), (None, 0));
}

#[test]
fn checked_construction_refuses_what_does_not_fit() {
    assert!(BarcodeLookupMap::try_new(vec![0xFF, 0x00], 4).is_some());
    assert!(BarcodeLookupMap::try_new(vec![0x100], 4).is_none());
    assert!(BarcodeLookupMap::try_new(vec![0], 33).is_none());
    assert!(BarcodeLookupMap::try_new(vec![1], 0).is_none());
    let m = BarcodeLookupMap::try_new(vec![0], 0).unwrap();
    assert_eq!(m.offsets, vec![0, 1]);
    assert_eq!(m.find_exact(0), Some(0));
    assert!(kmer_fits(0xFF, 4));
    assert!(!kmer_fits(0x100, 4));
    assert!(kmer_fits(u64::MAX, 32));
    assert!(m.is_kmer(0));
    assert!(!m.is_kmer(1));
}

#[test]
fn validation_finds_a_broken_invariant() {
    let good = map_of(&["TTTT", "ACAA", "AAAA", "AACG"], 4);
    assert_eq!(good.validate(), Ok(()));
    assert_eq!(map_of(&[], 5).validate(), Ok(()));
    let mut m = map_of(&["TTTT", "ACAA", "AAAA", "AACG"], 4);
    m.barcodes.swap(0, 1);
    assert_eq!(m.validate(), Err(RadError::InvariantViolation));
    let mut m = map_of(&["TTTT", "ACAA", "AAAA", "AACG"], 4);
    m.offsets[1] = 1;
    assert_eq!(m.validate(), Err(RadError::InvariantViolation));
    let mut m = map_of(&["TTTT", "ACAA", "AAAA", "AACG"], 4);
    m.offsets[3] = 2;
    assert_eq!(m.validate(), Err(RadError::InvariantViolation));
    let mut m = map_of(&["TTTT", "ACAA", "AAAA", "AACG"], 4);
    m.offsets[16] = 5;
    assert_eq!(m.validate(), Err(RadError::InvariantViolation));
    let mut m = map_of(&["TTTT", "ACAA", "AAAA", "AACG"], 4);
    m.offsets.pop();
    assert_eq!(m.validate(), Err(RadError::InvariantViolation));
    let mut m = map_of(&["TTTT", "ACAA", "AAAA", "AACG"], 4);
    m.suffix_len = 1;
    assert_eq!(m.validate(), Err(RadError::InvariantViolation));
    let mut m = map_of(&["TTTT", "ACAA", "AAAA", "AACG"], 4);
    m.barcodes[3] = 0x1FF;
    assert_eq!(m.validate(), Err(RadError::InvariantViolation));
}
