use libradicl::collate::{collate_records_twopass, collate_temporary_bucket_twopass};
use libradicl::error::RadError;
use libradicl::primitive::RadIntId;

fn record(bc: u32, umi: u32, entries: &[u32]) -> Vec<u8> {
    let mut v = Vec::new();
    v.extend_from_slice(&(entries.len() as u32).to_le_bytes());
    v.extend_from_slice(&bc.to_le_bytes());
    v.extend_from_slice(&umi.to_le_bytes());
    for e in entries {
        v.extend_from_slice(&e.to_le_bytes());
    }
    v
}

fn interleaved(last: &[u32]) -> (Vec<u8>, Vec<Vec<u8>>) {
    let a = 0x0Au32;
    let b = 0x0Bu32;
    let recs = vec![
        record(a, 1, &[7]),
        record(b, 2, &[8, 9]),
        record(a, 3, &[10, 11, 12]),
        record(b, 4, last),
    ];
    let mut input = Vec::new();
    for r in &recs {
        input.extend_from_slice(r);
    }
    (input, recs)
}

fn expected_layout(recs: &[Vec<u8>], size_a: u32, size_b: u32) -> Vec<u8> {
    let mut expected = Vec::new();
    expected.extend_from_slice(&size_a.to_le_bytes());
    expected.extend_from_slice(&2u32.to_le_bytes());
    expected.extend_from_slice(&recs[0]);
    expected.extend_from_slice(&recs[2]);
    expected.extend_from_slice(&size_b.to_le_bytes());
    expected.extend_from_slice(&2u32.to_le_bytes());
    expected.extend_from_slice(&recs[1]);
    expected.extend_from_slice(&recs[3]);
    expected
}

#[test]
fn two_pass_layout_of_interleaved_cells() {
    // Alignment counts 1, 2, 3, 1: chunk sizes 8 + 16 + 24 and 8 + 20 + 16.
    let (input, recs) = interleaved(&[13]);
    let (out, ncells) =
        collate_records_twopass(&input, &RadIntId::U32, &RadIntId::U32, 4).unwrap();
    assert_eq!(ncells, 2);
    assert_eq!(out.len(), 92);
    assert_eq!(out, expected_layout(&recs, 48, 44));
}

#[test]
fn two_pass_layout_with_chunk_sizes_48_and_40() {
    // Alignment counts 1, 2, 3, 0: chunk sizes 8 + 16 + 24 and 8 + 20 + 12.
    let (input, recs) = interleaved(&[]);
    let (out, ncells) =
        collate_records_twopass(&input, &RadIntId::U32, &RadIntId::U32, 4).unwrap();
    assert_eq!(ncells, 2);
    assert_eq!(out.len(), 88);
    assert_eq!(out, expected_layout(&recs, 48, 40));
}

#[test]
fn two_pass_of_nothing_is_empty() {
    let (out, ncells) = collate_records_twopass(&[], &RadIntId::U8, &RadIntId::U16, 0).unwrap();
    assert!(out.is_empty());
    assert_eq!(ncells, 0);
}

#[test]
fn two_pass_truncated_input_is_short_read() {
    let mut input = record(1, 2, &[3, 4]);
    input.pop();
    let r = collate_records_twopass(&input, &RadIntId::U32, &RadIntId::U32, 1);
    assert_eq!(r.unwrap_err(), RadError::ShortRead);
    let r = collate_records_twopass(&record(1, 2, &[3]), &RadIntId::U32, &RadIntId::U32, 2);
    assert_eq!(r.unwrap_err(), RadError::ShortRead);
}

#[test]
fn two_pass_uncompressed_matches_plain_collation() {
    let mut input = record(5, 1, &[1]);
    input.extend_from_slice(&record(5, 2, &[]));
    let plain = collate_records_twopass(&input, &RadIntId::U32, &RadIntId::U32, 2).unwrap();
    let same =
        collate_temporary_bucket_twopass(&input, &RadIntId::U32, &RadIntId::U32, 2, false)
            .unwrap();
    assert_eq!(plain, same);
    assert_eq!(plain.1, 1);
    assert_eq!(&plain.0[0..4], &36u32.to_le_bytes());
    assert_eq!(&plain.0[4..8], &2u32.to_le_bytes());
}

#[test]
fn two_pass_compressed_output_decodes_to_plain_collation() {
    let mut input = Vec::new();
    for i in 0..200u32 {
        input.extend_from_slice(&record(i % 7, i, &[i, i + 1]));
    }
    let (plain, n) = collate_records_twopass(&input, &RadIntId::U32, &RadIntId::U32, 200).unwrap();
    let (framed, m) =
        collate_temporary_bucket_twopass(&input, &RadIntId::U32, &RadIntId::U32, 200, true)
            .unwrap();
    assert_eq!(n, 7);
    assert_eq!(m, 7);
    assert_ne!(framed, plain);
    let mut decoded = Vec::new();
    std::io::Read::read_to_end(&mut snap::read::FrameDecoder::new(&framed[..]), &mut decoded)
        .unwrap();
    assert_eq!(decoded, plain);
}
