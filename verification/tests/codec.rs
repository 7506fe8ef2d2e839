use bio_types::strand::Strand;
use libradicl::error::RadError;
use libradicl::header::{read_name, FileTags, RadHeader, TagDesc, TagSection};
use libradicl::primitive::{
    decode_int_type_tag, encode_type_tag, read_into_u64, read_u16, read_u32, read_u64,
    write_str_bin, write_u32, ChunkConfig, RadIntId, RadType,
};
use libradicl::record::{
    write_entries, write_record, Chunk, ReadRecord, MASK_LOWER_31_U32, MASK_TOP_BIT_U32,
};
use libradicl::strand::passes_filter;

#[test]
fn type_tags_are_as_the_format_numbers_them() {
    assert_eq!(encode_type_tag(RadType::Bool), Some(0));
    assert_eq!(encode_type_tag(RadType::U8), Some(1));
    assert_eq!(encode_type_tag(RadType::U16), Some(2));
    assert_eq!(encode_type_tag(RadType::U32), Some(3));
    assert_eq!(encode_type_tag(RadType::U64), Some(4));
    assert_eq!(encode_type_tag(RadType::F32), Some(5));
    assert_eq!(encode_type_tag(RadType::F64), Some(6));
    assert_eq!(decode_int_type_tag(1), Some(RadIntId::U8));
    assert_eq!(decode_int_type_tag(2), Some(RadIntId::U16));
    assert_eq!(decode_int_type_tag(3), Some(RadIntId::U32));
    assert_eq!(decode_int_type_tag(4), Some(RadIntId::U64));
    assert_eq!(decode_int_type_tag(0), None);
    assert_eq!(decode_int_type_tag(5), None);
    assert_eq!(decode_int_type_tag(255), None);
    let cfg = ChunkConfig { num_chunks: 3, bc_type: 3, umi_type: 1 };
    assert_eq!(decode_int_type_tag(cfg.bc_type).unwrap().bytes_for_type(), 4);
    assert_eq!(cfg.num_chunks + cfg.umi_type as u64, 4);
}

#[test]
fn widths_of_the_integer_types() {
    assert_eq!(RadIntId::U8.bytes_for_type(), 1);
    assert_eq!(RadIntId::U16.bytes_for_type(), 2);
    assert_eq!(RadIntId::U32.bytes_for_type(), 4);
    assert_eq!(RadIntId::U64.bytes_for_type(), 8);
}

#[test]
fn write_to_is_little_endian_and_truncates() {
    let v = 0x1122_3344_5566_7788u64;
    let mut out = vec![0xFF];
    RadIntId::U8.write_to(v, &mut out);
    assert_eq!(out, vec![0xFF, 0x88]);
    let mut out = Vec::new();
    RadIntId::U16.write_to(v, &mut out);
    assert_eq!(out, vec![0x88, 0x77]);
    let mut out = Vec::new();
    RadIntId::U32.write_to(v, &mut out);
    assert_eq!(out, vec![0x88, 0x77, 0x66, 0x55]);
    let mut out = Vec::new();
    RadIntId::U64.write_to(v, &mut out);
    assert_eq!(out, v.to_le_bytes().to_vec());
    let mut out = Vec::new();
    write_u32(0x0102_0304, &mut out);
    assert_eq!(out, vec![4, 3, 2, 1]);
}

#[test]
fn reads_are_little_endian_and_widen_with_zeros() {
    let buf = [0x88u8, 0x77, 0x66, 0x55, 0x44, 0x33, 0x22, 0x11, 0xAA];
    let mut pos = 0usize;
    assert_eq!(read_into_u64(&buf, &mut pos, &RadIntId::U8), Ok(0x88));
    assert_eq!(pos, 1);
    assert_eq!(read_into_u64(&buf, &mut pos, &RadIntId::U16), Ok(0x6677));
    assert_eq!(pos, 3);
    assert_eq!(read_into_u64(&buf, &mut pos, &RadIntId::U32), Ok(0x2233_4455));
    assert_eq!(pos, 7);
    assert_eq!(read_into_u64(&buf, &mut pos, &RadIntId::U32), Err(RadError::ShortRead));
    assert_eq!(pos, 7);
    let mut pos = 0usize;
    assert_eq!(read_into_u64(&buf, &mut pos, &RadIntId::U64), Ok(0x1122_3344_5566_7788));
    assert_eq!(pos, 8);
    let mut pos = 1usize;
    assert_eq!(read_u16(&buf, &mut pos), Ok(0x6677));
    assert_eq!(read_u32(&buf, &mut pos), Ok(0x2233_4455));
    assert_eq!(read_u64(&buf, &mut pos), Err(RadError::ShortRead));
    let mut pos = 1usize;
    assert_eq!(read_u64(&buf, &mut pos), Ok(0xAA11_2233_4455_6677));
    let mut far = 100usize;
    assert_eq!(read_u16(&buf, &mut far), Err(RadError::ShortRead));
    assert_eq!(far, 100);
}

#[test]
fn strings_are_written_with_their_length_in_front() {
    let mut out = Vec::new();
    write_str_bin("chr1", &RadIntId::U16, &mut out);
    assert_eq!(out, vec![4, 0, b'c', b'h', b'r', b'1']);
    let mut out = Vec::new();
    write_str_bin("é", &RadIntId::U8, &mut out);
    assert_eq!(out, vec![2, 0xC3, 0xA9]);
    let mut out = Vec::new();
    write_str_bin("", &RadIntId::U32, &mut out);
    assert_eq!(out, vec![0, 0, 0, 0]);
    let mut out = Vec::new();
    write_str_bin("ab", &RadIntId::U64, &mut out);
    assert_eq!(out, vec![2, 0, 0, 0, 0, 0, 0, 0, b'a', b'b']);
}

#[test]
fn names_are_read_back_or_refused() {
    let mut buf = Vec::new();
    write_str_bin("naïve", &RadIntId::U16, &mut buf);
    buf.push(0x42);
    let mut pos = 0usize;
    assert_eq!(read_name(&buf, &mut pos), Ok("naïve".to_string()));
    assert_eq!(pos, buf.len() - 1);
    let mut pos = 0usize;
    assert_eq!(read_name(&buf[..4], &mut pos), Err(RadError::ShortRead));
    assert_eq!(pos, 0);
    assert_eq!(read_name(&buf[..1], &mut pos), Err(RadError::ShortRead));
    let bad = [2u8, 0, 0xC3, 0x28];
    assert_eq!(read_name(&bad, &mut pos), Err(RadError::MalformedHeader));
    assert_eq!(pos, 0);
}

fn trivial_header() -> RadHeader {
    RadHeader {
        is_paired: 0,
        ref_count: 2,
        ref_names: vec!["chr1".to_string(), "chr2".to_string()],
        num_chunks: 1,
    }
}

fn trivial_chunk() -> Chunk {
    Chunk {
        nbytes: 8 + 4 + 4 + 1 + 8,
        nrec: 1,
        reads: vec![ReadRecord { bc: 5, umi: 0x0A, dirs: vec![true, false], refs: vec![0, 1] }],
    }
}

#[test]
fn trivial_round_trip() {
    let h = trivial_header();
    let c = trivial_chunk();
    let mut bytes = Vec::new();
    h.write_bytes(&mut bytes);
    let header_len = bytes.len();
    c.write_bytes(&RadIntId::U32, &RadIntId::U8, &mut bytes);
    let expected: Vec<u8> = vec![
        0, // is_paired
        2, 0, 0, 0, 0, 0, 0, 0, // ref_count
        4, 0, b'c', b'h', b'r', b'1', //
        4, 0, b'c', b'h', b'r', b'2', //
        1, 0, 0, 0, 0, 0, 0, 0, // num_chunks
        25, 0, 0, 0, // nbytes
        1, 0, 0, 0, // nrec
        2, 0, 0, 0, // na
        5, 0, 0, 0, // bc
        0x0A, // umi
        0, 0, 0, 0x80, // forward, reference 0
        1, 0, 0, 0, // reverse, reference 1
    ];
    assert_eq!(bytes, expected);
    let mut pos = 0usize;
    let h2 = RadHeader::from_bytes(&bytes, &mut pos).unwrap();
    assert_eq!(pos, header_len);
    assert_eq!(h2.is_paired, 0);
    assert_eq!(h2.ref_count, 2);
    assert_eq!(h2.ref_names, vec!["chr1".to_string(), "chr2".to_string()]);
    assert_eq!(h2.num_chunks, 1);
    assert_eq!(h2.get_size(), 1 + 8 + 4 + 4 + 8);
    let c2 = Chunk::from_bytes(&bytes, &mut pos, &RadIntId::U32, &RadIntId::U8).unwrap();
    assert_eq!(pos, bytes.len());
    assert_eq!(c2.nbytes, 25);
    assert_eq!(c2.nrec, 1);
    assert_eq!(c2.reads.len(), 1);
    assert_eq!(c2.reads[0].bc, 5);
    assert_eq!(c2.reads[0].umi, 0x0A);
    assert_eq!(c2.reads[0].dirs, vec![true, false]);
    assert_eq!(c2.reads[0].refs, vec![0, 1]);
    assert!(!c2.reads[0].is_empty());
    let mut again = Vec::new();
    h2.write_bytes(&mut again);
    c2.write_bytes(&RadIntId::U32, &RadIntId::U8, &mut again);
    assert_eq!(again, bytes);
}

#[test]
fn header_failures() {
    let mut bytes = Vec::new();
    trivial_header().write_bytes(&mut bytes);
    for cut in [0usize, 5, 9, 10, 14, 20, bytes.len() - 1] {
        let mut pos = 0usize;
        let r = RadHeader::from_bytes(&bytes[..cut], &mut pos);
        assert_eq!(r.err(), Some(RadError::ShortRead));
        assert_eq!(pos, 0);
    }
    let mut bad = bytes.clone();
    bad[11] = 0xFF;
    let mut pos = 0usize;
    assert_eq!(RadHeader::from_bytes(&bad, &mut pos).err(), Some(RadError::MalformedHeader));
    assert_eq!(pos, 0);
    // a count of names that the input cannot hold
    let mut huge = vec![1u8];
    huge.extend_from_slice(&u64::MAX.to_le_bytes());
    assert_eq!(RadHeader::from_bytes(&huge, &mut pos).err(), Some(RadError::ShortRead));
}

#[test]
fn header_from_alignment_file_names() {
    let names = vec![b"chrX".to_vec(), b"chrY".to_vec(), "µ".as_bytes().to_vec()];
    let h = RadHeader::from_bam_header(&names).unwrap();
    assert_eq!(h.is_paired, 0);
    assert_eq!(h.ref_count, 3);
    assert_eq!(h.num_chunks, 0);
    assert_eq!(h.ref_names, vec!["chrX".to_string(), "chrY".to_string(), "µ".to_string()]);
    assert_eq!(h.get_size(), 17 + 4 + 4 + 2);
    let bad = vec![b"ok".to_vec(), vec![0xFF, 0xFE]];
    assert_eq!(RadHeader::from_bam_header(&bad).err(), Some(RadError::MalformedHeader));
    assert_eq!(RadHeader::from_bam_header(&Vec::new()).unwrap().ref_count, 0);
}

#[test]
fn tag_section_round_trip() {
    let ts = TagSection {
        tags: vec![
            TagDesc { name: "b".to_string(), typeid: 3 },
            TagDesc { name: "umi".to_string(), typeid: 1 },
        ],
    };
    let mut bytes = vec![0xEE];
    ts.write_bytes(&mut bytes);
    assert_eq!(bytes, vec![0xEE, 2, 0, 1, 0, b'b', 3, 3, 0, b'u', b'm', b'i', 1]);
    let mut pos = 1usize;
    let back = TagSection::from_bytes(&bytes, &mut pos).unwrap();
    assert_eq!(pos, bytes.len());
    assert_eq!(back.tags.len(), 2);
    assert_eq!(back.tags[0].name, "b");
    assert_eq!(back.tags[0].typeid, 3);
    assert_eq!(back.tags[1].name, "umi");
    assert_eq!(back.tags[1].typeid, 1);
    let mut pos = 3usize;
    let d = TagDesc::from_bytes(&bytes, &mut pos).unwrap();
    assert_eq!((d.name.as_str(), d.typeid, pos), ("b", 3, 7));
    let mut one = Vec::new();
    d.write_bytes(&mut one);
    assert_eq!(one, vec![1, 0, b'b', 3]);
    let mut pos = 1usize;
    assert_eq!(
        TagSection::from_bytes(&bytes[..bytes.len() - 1], &mut pos).err(),
        Some(RadError::ShortRead)
    );
    assert_eq!(pos, 1);
    let mut bad = bytes.clone();
    bad[9] = 0x80;
    assert_eq!(TagSection::from_bytes(&bad, &mut pos).err(), Some(RadError::MalformedHeader));
}

#[test]
fn file_tags_round_trip() {
    let t = FileTags { bclen: 16, umilen: 12 };
    let mut bytes = Vec::new();
    t.write_bytes(&mut bytes);
    assert_eq!(bytes, vec![16, 0, 12, 0]);
    let mut pos = 0usize;
    assert_eq!(FileTags::from_bytes(&bytes, &mut pos), Ok(t));
    assert_eq!(pos, 4);
    let mut pos = 0usize;
    assert_eq!(FileTags::from_bytes(&bytes[..3], &mut pos), Err(RadError::ShortRead));
    assert_eq!(pos, 0);
}

fn wire_record() -> Vec<u8> {
    let mut v = Vec::new();
    let entries = vec![9 | MASK_LOWER_31_U32, 4, 7 | MASK_LOWER_31_U32, 4 | MASK_LOWER_31_U32, 2];
    write_record(0xBEEF, 0x77, &entries, &RadIntId::U16, &RadIntId::U8, &mut v);
    v
}

#[test]
fn record_header_and_peek() {
    let v = wire_record();
    assert_eq!(v.len(), 4 + 2 + 1 + 4 * 5);
    let mut pos = 0usize;
    let r = ReadRecord::from_bytes_record_header(&v, &mut pos, &RadIntId::U16, &RadIntId::U8);
    assert_eq!(r, Ok((0xBEEF, 0x77, 5)));
    assert_eq!(pos, 7);
    assert_eq!(Chunk::peek_record(&v, &RadIntId::U16, &RadIntId::U8), Ok((0xBEEF, 0x77)));
    // only the fixed part is needed to peek
    assert_eq!(Chunk::peek_record(&v[..7], &RadIntId::U16, &RadIntId::U8), Ok((0xBEEF, 0x77)));
    assert_eq!(
        Chunk::peek_record(&v[..6], &RadIntId::U16, &RadIntId::U8),
        Err(RadError::ShortRead)
    );
    let wide = [1u8, 0, 0, 0, 1, 2, 3, 4, 5, 6, 7, 8, 9, 0, 0, 0];
    assert_eq!(
        Chunk::peek_record(&wide, &RadIntId::U64, &RadIntId::U32),
        Ok((0x0807_0605_0403_0201, 9))
    );
}

#[test]
fn record_is_decoded_with_strands() {
    let v = wire_record();
    let mut pos = 0usize;
    let r = ReadRecord::from_bytes(&v, &mut pos, &RadIntId::U16, &RadIntId::U8).unwrap();
    assert_eq!(pos, v.len());
    assert_eq!(r.bc, 0xBEEF);
    assert_eq!(r.umi, 0x77);
    assert_eq!(r.dirs, vec![true, false, true, true, false]);
    assert_eq!(r.refs, vec![9, 4, 7, 4, 2]);
    let mut pos = 0usize;
    let short = ReadRecord::from_bytes(&v[..v.len() - 1], &mut pos, &RadIntId::U16, &RadIntId::U8);
    assert_eq!(short.err(), Some(RadError::ShortRead));
    assert_eq!(pos, 0);
}

#[test]
fn orientation_filter_keeps_the_expected_strand() {
    let v = wire_record();
    let mut pos = 0usize;
    let fw = ReadRecord::from_bytes_keep_ori(
        &v,
        &mut pos,
        &RadIntId::U16,
        &RadIntId::U8,
        &Strand::Forward,
    )
    .unwrap();
    assert_eq!(pos, v.len());
    assert_eq!(fw.refs, vec![4, 7, 9]);
    assert!(fw.dirs.is_empty());
    assert_eq!((fw.bc, fw.umi), (0xBEEF, 0x77));
    let mut pos = 0usize;
    let rc = ReadRecord::from_bytes_keep_ori(
        &v,
        &mut pos,
        &RadIntId::U16,
        &RadIntId::U8,
        &Strand::Reverse,
    )
    .unwrap();
    assert_eq!(rc.refs, vec![2, 4]);
    let mut pos = 0usize;
    let all = ReadRecord::from_bytes_keep_ori(
        &v,
        &mut pos,
        &RadIntId::U16,
        &RadIntId::U8,
        &Strand::Unknown,
    )
    .unwrap();
    assert_eq!(all.refs, vec![2, 4, 4, 7, 9]);
    let mut pos = 7usize;
    let again =
        ReadRecord::from_bytes_with_header_keep_ori(&v, &mut pos, 1, 2, 5, &Strand::Forward)
            .unwrap();
    assert_eq!((again.bc, again.umi, pos), (1, 2, v.len()));
    assert_eq!(again.refs, vec![4, 7, 9]);
    let mut pos = 7usize;
    let short =
        ReadRecord::from_bytes_with_header_keep_ori(&v, &mut pos, 1, 2, 6, &Strand::Forward);
    assert_eq!(short.err(), Some(RadError::ShortRead));
    assert_eq!(pos, 7);
}

#[test]
fn orientation_filter_drops_record() {
    let mut v = Vec::new();
    write_record(1, 1, &vec![0], &RadIntId::U32, &RadIntId::U32, &mut v);
    let mut pos = 0usize;
    let r = ReadRecord::from_bytes_keep_ori(
        &v,
        &mut pos,
        &RadIntId::U32,
        &RadIntId::U32,
        &Strand::Forward,
    )
    .unwrap();
    assert!(r.is_empty());
    assert!(r.refs.is_empty());
    assert_eq!(pos, v.len());
}

#[test]
fn strand_filter_decisions() {
    assert!(passes_filter(&Strand::Forward, true));
    assert!(!passes_filter(&Strand::Forward, false));
    assert!(!passes_filter(&Strand::Reverse, true));
    assert!(passes_filter(&Strand::Reverse, false));
    assert!(passes_filter(&Strand::Unknown, true));
    assert!(passes_filter(&Strand::Unknown, false));
}

#[test]
fn masks_select_reference_and_strand() {
    assert_eq!(MASK_TOP_BIT_U32, 0x7FFF_FFFF);
    assert_eq!(MASK_LOWER_31_U32, 0x8000_0000);
    let mut out = Vec::new();
    write_entries(&vec![1, 0x8000_0002], &mut out);
    assert_eq!(out, vec![1, 0, 0, 0, 2, 0, 0, 0x80]);
}

#[test]
fn chunk_header_and_records() {
    let c = trivial_chunk();
    let mut bytes = Vec::new();
    c.write_bytes(&RadIntId::U32, &RadIntId::U8, &mut bytes);
    let mut pos = 0usize;
    assert_eq!(Chunk::read_header(&bytes, &mut pos), Ok((25, 1)));
    assert_eq!(pos, 8);
    let mut pos = 0usize;
    assert_eq!(Chunk::read_header(&bytes[..7], &mut pos), Err(RadError::ShortRead));
    assert_eq!(pos, 0);
    let r = Chunk::from_bytes(&bytes[..bytes.len() - 2], &mut pos, &RadIntId::U32, &RadIntId::U8);
    assert_eq!(r.err(), Some(RadError::ShortRead));
    assert_eq!(pos, 0);
}
