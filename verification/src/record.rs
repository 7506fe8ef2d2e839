//! Records and chunks: decoding them, with or without a filter on the
//! strand of the alignments, encoding them, and the laws that tie the two
//! together.

use vstd::prelude::*;
use bio_types::strand::Strand;
use crate::error::RadError;
use crate::primitive::{
    holds_at, le_bytes, le_value, lemma_holds_at_middle, lemma_holds_at_split, lemma_le_bytes_len,
    lemma_le_round_trip, lemma_pow256_values, lemma_read_le_of_bytes, pow256, pread_u32,
    read_into_u64, read_le, read_u32, write_u32, RadIntId,
};
use crate::strand::{passes_filter, strand_passes};

verus! {

/// Selects the reference index of an alignment entry (its low 31 bits).
pub const MASK_TOP_BIT_U32: u32 = 0x7FFF_FFFF;

/// Selects the strand flag of an alignment entry (its top bit).
pub const MASK_LOWER_31_U32: u32 = 0x8000_0000;

/// Whether an alignment entry lies on the forward strand: its top bit is set.
pub open spec fn entry_is_forward(e: u32) -> bool {
    e & MASK_LOWER_31_U32 != 0
}

/// The reference index of an alignment entry: the entry without its top bit.
pub open spec fn entry_ref(e: u32) -> u32 {
    e & MASK_TOP_BIT_U32
}

/// The number of bytes of a record's fixed part: the alignment count, the
/// barcode and the UMI.
pub open spec fn record_header_len(bct: RadIntId, umit: RadIntId) -> nat {
    4 + bct.width() + umit.width()
}

/// The number of bytes that a record with `na` alignments takes.
pub open spec fn record_bytes(na: nat, bct: RadIntId, umit: RadIntId) -> nat {
    record_header_len(bct, umit) + 4 * na
}

/// The fixed part of the record at `pos` in `s`, as `(bc, umi, na)`; `None`
/// where `s` ends inside it.
pub open spec fn parse_record_header(s: Seq<u8>, pos: int, bct: RadIntId, umit: RadIntId) -> Option<
    (u64, u64, u32),
> {
    match (
        read_le(s, pos, 4),
        read_le(s, pos + 4, bct.width()),
        read_le(s, pos + 4 + bct.width(), umit.width()),
    ) {
        (Some(na), Some(bc), Some(umi)) => Some((bc as u64, umi as u64, na as u32)),
        _ => None,
    }
}

/// The `i`-th of the alignment entries that start at `base` in `s`.
pub open spec fn wire_entry(s: Seq<u8>, base: int, i: int) -> u32 {
    le_value(s.subrange(base + 4 * i, base + 4 * i + 4)) as u32
}

/// The `na` alignment entries that start at `base` in `s`.
pub open spec fn wire_entries(s: Seq<u8>, base: int, na: nat) -> Seq<u32> {
    Seq::new(na, |i: int| wire_entry(s, base, i))
}

/// A decoded record: barcode, UMI, and for each alignment its strand
/// (`true` is forward) and its reference index.
#[derive(Debug)]
pub struct ReadRecord {
    pub bc: u64,
    pub umi: u64,
    pub dirs: Vec<bool>,
    pub refs: Vec<u32>,
}

/// What a `ReadRecord` holds, as mathematical sequences.
pub struct ReadRecordView {
    pub bc: u64,
    pub umi: u64,
    pub dirs: Seq<bool>,
    pub refs: Seq<u32>,
}

impl View for ReadRecord {
    type V = ReadRecordView;

    open spec fn view(&self) -> ReadRecordView {
        ReadRecordView { bc: self.bc, umi: self.umi, dirs: self.dirs@, refs: self.refs@ }
    }
}

/// The record at `pos` in `s`, every alignment decoded; `None` where `s`
/// ends inside it.
pub open spec fn parse_record(s: Seq<u8>, pos: int, bct: RadIntId, umit: RadIntId) -> Option<
    ReadRecordView,
> {
    match parse_record_header(s, pos, bct, umit) {
        Some((bc, umi, na)) => {
            let base = pos + record_header_len(bct, umit);
            if base + 4 * na <= s.len() {
                let entries = wire_entries(s, base, na as nat);
                Some(
                    ReadRecordView {
                        bc,
                        umi,
                        dirs: Seq::new(na as nat, |i: int| entry_is_forward(entries[i])),
                        refs: Seq::new(na as nat, |i: int| entry_ref(entries[i])),
                    },
                )
            } else {
                None
            }
        },
        None => None,
    }
}

/// The reference indices of the entries that pass the filter `expected`, in
/// the order of the entries.
pub open spec fn kept_refs(entries: Seq<u32>, expected: Strand) -> Seq<u32>
    decreases entries.len(),
{
    if entries.len() == 0 {
        Seq::empty()
    } else {
        let before = kept_refs(entries.drop_last(), expected);
        if strand_passes(expected, entry_is_forward(entries.last())) {
            before.push(entry_ref(entries.last()))
        } else {
            before
        }
    }
}

/// The filter keeps no more entries than there are.
pub proof fn lemma_kept_refs_len(entries: Seq<u32>, expected: Strand)
    ensures
        kept_refs(entries, expected).len() <= entries.len(),
        expected == Strand::Unknown ==> kept_refs(entries, expected).len() == entries.len(),
    decreases entries.len(),
{
    if entries.len() > 0 {
        lemma_kept_refs_len(entries.drop_last(), expected);
    }
}

/// Whether `s` ascends (equal neighbours allowed).
pub open spec fn ascending(s: Seq<u32>) -> bool {
    forall|i: int, j: int| 0 <= i <= j < s.len() ==> s[i] <= s[j]
}

/// The reference indices of the entries that pass the filter `expected`, in
/// ascending order: what a record keeps of its alignments.
pub open spec fn filtered_refs(entries: Seq<u32>, expected: Strand) -> Seq<u32> {
    kept_refs(entries, expected).sort_by(|a: u32, b: u32| a <= b)
}

/// An ascending sequence with the values of `kept` is `kept` sorted.
pub proof fn lemma_ascending_is_sorted(refs: Seq<u32>, kept: Seq<u32>)
    requires
        ascending(refs),
        refs.to_multiset() == kept.to_multiset(),
    ensures
        refs == kept.sort_by(|a: u32, b: u32| a <= b),
{
    let leq = |a: u32, b: u32| a <= b;
    assert(vstd::relations::total_ordering(leq));
    kept.lemma_sort_by_ensures(leq);
    assert(vstd::relations::sorted_by(refs, leq));
    vstd::seq_lib::lemma_sorted_unique(refs, kept.sort_by(leq), leq);
}

/// The standard library's `sort_unstable` on a vector of `u32`: afterwards
/// the vector ascends and holds the same values, each as often as before.
#[verifier::external_body]
pub(crate) fn sort_refs(v: &mut Vec<u32>)
    ensures
        ascending(final(v)@),
        final(v)@.to_multiset() == old(v)@.to_multiset(),
{
    v.sort_unstable();
}

impl ReadRecord {
    /// Whether the record holds no alignment (the filter may have dropped
    /// them all).
    pub fn is_empty(&self) -> (r: bool)
        ensures
            r == (self.refs@.len() == 0),
    {
        self.refs.len() == 0
    }

    /// Reads the fixed part `(bc, umi, na)` of the record at `*pos` and
    /// leaves `*pos` at its first alignment entry. Where `buf` ends inside
    /// the fixed part, nothing is consumed.
    pub fn from_bytes_record_header(
        buf: &[u8],
        pos: &mut usize,
        bct: &RadIntId,
        umit: &RadIntId,
    ) -> (r: Result<(u64, u64, u32), RadError>)
        ensures
            match r {
                Ok(t) => parse_record_header(buf@, *old(pos) as int, *bct, *umit) == Some(t)
                    && *final(pos) == *old(pos) + record_header_len(*bct, *umit),
                Err(e) => e == RadError::ShortRead && parse_record_header(
                    buf@,
                    *old(pos) as int,
                    *bct,
                    *umit,
                ) is None && *final(pos) == *old(pos),
            },
    {
        let start: usize = *pos;
        let na = match read_u32(buf, pos) {
            Ok(v) => v,
            Err(e) => {
                return Err(e);
            },
        };
        let bc = match read_into_u64(buf, pos, bct) {
            Ok(v) => v,
            Err(e) => {
                *pos = start;
                return Err(e);
            },
        };
        let umi = match read_into_u64(buf, pos, umit) {
            Ok(v) => v,
            Err(e) => {
                *pos = start;
                return Err(e);
            },
        };
        Ok((bc, umi, na))
    }

    /// Reads the whole record at `*pos`, every alignment decoded into its
    /// strand and its reference index, and leaves `*pos` behind it.
    pub fn from_bytes(buf: &[u8], pos: &mut usize, bct: &RadIntId, umit: &RadIntId) -> (r: Result<
        ReadRecord,
        RadError,
    >)
        ensures
            match r {
                Ok(rec) => parse_record(buf@, *old(pos) as int, *bct, *umit) == Some(rec@)
                    && *final(pos) == *old(pos) + record_bytes(rec@.refs.len(), *bct, *umit),
                Err(e) => e == RadError::ShortRead && parse_record(
                    buf@,
                    *old(pos) as int,
                    *bct,
                    *umit,
                ) is None && *final(pos) == *old(pos),
            },
    {
        let start: usize = *pos;
        let (bc, umi, na) = match ReadRecord::from_bytes_record_header(buf, pos, bct, umit) {
            Ok(t) => t,
            Err(e) => {
                return Err(e);
            },
        };
        let base: usize = *pos;
        let len: usize = buf.len();
        if (len - base) / 4 < na as usize {
            *pos = start;
            return Err(RadError::ShortRead);
        }
        let mut dirs: Vec<bool> = Vec::new();
        let mut refs: Vec<u32> = Vec::new();
        let ghost entries = wire_entries(buf@, base as int, na as nat);
        let mut i: usize = 0;
        while i < na as usize
            invariant
                i <= na,
                base + 4 * na <= len,
                len == buf@.len(),
                entries == wire_entries(buf@, base as int, na as nat),
                dirs@ == Seq::new(i as nat, |k: int| entry_is_forward(entries[k])),
                refs@ == Seq::new(i as nat, |k: int| entry_ref(entries[k])),
            decreases na - i,
        {
            let v: u32 = match pread_u32(buf, base + 4 * i) {
                Some(v) => v,
                None => 0,
            };
            assert(v == entries[i as int]);
            dirs.push((v & MASK_LOWER_31_U32) != 0);
            refs.push(v & MASK_TOP_BIT_U32);
            i += 1;
            assert(dirs@ =~= Seq::new(i as nat, |k: int| entry_is_forward(entries[k])));
            assert(refs@ =~= Seq::new(i as nat, |k: int| entry_ref(entries[k])));
        }
        *pos = base + 4 * (na as usize);
        Ok(ReadRecord { bc, umi, dirs, refs })
    }

    /// Reads the `na` alignment entries at `*pos` of a record whose fixed
    /// part `(bc, umi, na)` was read before, keeps those on the strand
    /// `expected_ori` (all of them where it is unknown), and returns the
    /// record with the kept reference indices in ascending order. The
    /// strands themselves are not kept: `dirs` is empty.
    pub fn from_bytes_with_header_keep_ori(
        buf: &[u8],
        pos: &mut usize,
        bc: u64,
        umi: u64,
        na: u32,
        expected_ori: &Strand,
    ) -> (r: Result<ReadRecord, RadError>)
        ensures
            match r {
                Ok(rec) => {
                    &&& *old(pos) + 4 * na <= buf@.len()
                    &&& *final(pos) == *old(pos) + 4 * na
                    &&& rec.bc == bc
                    &&& rec.umi == umi
                    &&& rec.dirs@.len() == 0
                    &&& ascending(rec.refs@)
                    &&& rec.refs@ == filtered_refs(
                        wire_entries(buf@, *old(pos) as int, na as nat),
                        *expected_ori,
                    )
                    &&& rec.refs@.len() <= na
                },
                Err(e) => e == RadError::ShortRead && *old(pos) + 4 * na > buf@.len()
                    && *final(pos) == *old(pos),
            },
    {
        let base: usize = *pos;
        let len: usize = buf.len();
        if base > len || (len - base) / 4 < na as usize {
            return Err(RadError::ShortRead);
        }
        let mut refs: Vec<u32> = Vec::new();
        let ghost entries = wire_entries(buf@, base as int, na as nat);
        let mut i: usize = 0;
        while i < na as usize
            invariant
                i <= na,
                base + 4 * na <= len,
                len == buf@.len(),
                entries == wire_entries(buf@, base as int, na as nat),
                refs@ == kept_refs(entries.take(i as int), *expected_ori),
            decreases na - i,
        {
            let v: u32 = match pread_u32(buf, base + 4 * i) {
                Some(v) => v,
                None => 0,
            };
            assert(v == entries[i as int]);
            proof {
                assert(entries.take(i + 1).drop_last() =~= entries.take(i as int));
            }
            if passes_filter(expected_ori, (v & MASK_LOWER_31_U32) > 0) {
                refs.push(v & MASK_TOP_BIT_U32);
            }
            i += 1;
        }
        assert(entries.take(na as int) =~= entries);
        proof {
            lemma_kept_refs_len(entries, *expected_ori);
        }
        let ghost kept = refs@;
        sort_refs(&mut refs);
        proof {
            lemma_ascending_is_sorted(refs@, kept);
            vstd::seq_lib::to_multiset_len(refs@);
            vstd::seq_lib::to_multiset_len(kept);
        }
        *pos = base + 4 * (na as usize);
        Ok(ReadRecord { bc, umi, dirs: Vec::new(), refs })
    }

    /// Reads the record at `*pos` as `from_bytes_with_header_keep_ori` does,
    /// fixed part included.
    pub fn from_bytes_keep_ori(
        buf: &[u8],
        pos: &mut usize,
        bct: &RadIntId,
        umit: &RadIntId,
        expected_ori: &Strand,
    ) -> (r: Result<ReadRecord, RadError>)
        ensures
            match r {
                Ok(rec) => {
                    &&& parse_record_header(buf@, *old(pos) as int, *bct, *umit) matches Some(
                        (bc, umi, na),
                    )
                    &&& *old(pos) + record_bytes(na as nat, *bct, *umit) <= buf@.len()
                    &&& *final(pos) == *old(pos) + record_bytes(na as nat, *bct, *umit)
                    &&& rec.bc == bc
                    &&& rec.umi == umi
                    &&& rec.dirs@.len() == 0
                    &&& ascending(rec.refs@)
                    &&& rec.refs@ == filtered_refs(
                        wire_entries(
                            buf@,
                            *old(pos) + record_header_len(*bct, *umit),
                            na as nat,
                        ),
                        *expected_ori,
                    )
                    &&& rec.refs@.len() <= na
                },
                Err(e) => e == RadError::ShortRead && parse_record(
                    buf@,
                    *old(pos) as int,
                    *bct,
                    *umit,
                ) is None && *final(pos) == *old(pos),
            },
    {
        let start: usize = *pos;
        let (bc, umi, na) = match ReadRecord::from_bytes_record_header(buf, pos, bct, umit) {
            Ok(t) => t,
            Err(e) => {
                return Err(e);
            },
        };
        match ReadRecord::from_bytes_with_header_keep_ori(buf, pos, bc, umi, na, expected_ori) {
            Ok(rec) => Ok(rec),
            Err(e) => {
                *pos = start;
                Err(e)
            },
        }
    }
}

/// The alignment entries `entries` on the wire: each as a little-endian
/// 32-bit integer.
pub open spec fn encode_entries(entries: Seq<u32>) -> Seq<u8>
    decreases entries.len(),
{
    if entries.len() == 0 {
        Seq::empty()
    } else {
        encode_entries(entries.drop_last()) + le_bytes(entries.last() as nat, 4)
    }
}

/// A record on the wire: the number of its alignment entries, its barcode,
/// its UMI (each cut to the width of its type), and the entries.
pub open spec fn encode_record(
    bc: u64,
    umi: u64,
    entries: Seq<u32>,
    bct: RadIntId,
    umit: RadIntId,
) -> Seq<u8> {
    le_bytes(entries.len(), 4) + le_bytes(bc as nat, bct.width()) + le_bytes(
        umi as nat,
        umit.width(),
    ) + encode_entries(entries)
}

/// Each alignment entry takes four bytes.
pub proof fn lemma_encode_entries_len(entries: Seq<u32>)
    ensures
        encode_entries(entries).len() == 4 * entries.len(),
    decreases entries.len(),
{
    if entries.len() > 0 {
        lemma_encode_entries_len(entries.drop_last());
        crate::primitive::lemma_le_bytes_len(entries.last() as nat, 4);
    }
}

/// An encoded record takes as many bytes as the format says.
pub proof fn lemma_encode_record_len(
    bc: u64,
    umi: u64,
    entries: Seq<u32>,
    bct: RadIntId,
    umit: RadIntId,
)
    ensures
        encode_record(bc, umi, entries, bct, umit).len() == record_bytes(entries.len(), bct, umit),
{
    lemma_encode_entries_len(entries);
    crate::primitive::lemma_le_bytes_len(entries.len(), 4);
    crate::primitive::lemma_le_bytes_len(bc as nat, bct.width());
    crate::primitive::lemma_le_bytes_len(umi as nat, umit.width());
}

/// Appends the alignment entries `entries` to `out`, each as a
/// little-endian 32-bit integer.
pub fn write_entries(entries: &Vec<u32>, out: &mut Vec<u8>)
    ensures
        final(out)@ == old(out)@ + encode_entries(entries@),
{
    let n: usize = entries.len();
    let mut i: usize = 0;
    assert(entries@.take(0) =~= Seq::<u32>::empty());
    assert(out@ + encode_entries(entries@.take(0)) =~= out@);
    while i < n
        invariant
            i <= n,
            n == entries@.len(),
            out@ == old(out)@ + encode_entries(entries@.take(i as int)),
        decreases n - i,
    {
        let ghost before = out@;
        crate::primitive::write_u32(entries[i], out);
        proof {
            assert(entries@.take(i + 1).drop_last() =~= entries@.take(i as int));
            assert(out@ =~= old(out)@ + (encode_entries(entries@.take(i as int)) + le_bytes(
                entries@[i as int] as nat,
                4,
            )));
        }
        i += 1;
    }
    assert(entries@.take(n as int) =~= entries@);
}

/// Appends a record to `out`: the number of `entries`, `bc` as an integer
/// of type `bct`, `umi` as one of type `umit`, and the entries.
pub fn write_record(
    bc: u64,
    umi: u64,
    entries: &Vec<u32>,
    bct: &RadIntId,
    umit: &RadIntId,
    out: &mut Vec<u8>,
)
    ensures
        final(out)@ == old(out)@ + encode_record(bc, umi, entries@, *bct, *umit),
{
    let n: usize = entries.len();
    RadIntId::U32.write_to(n as u64, out);
    bct.write_to(bc, out);
    umit.write_to(umi, out);
    write_entries(entries, out);
    assert(out@ =~= old(out)@ + encode_record(bc, umi, entries@, *bct, *umit));
}

/// A chunk: its size in bytes as its header states it, the number of its
/// records, and the records.
#[derive(Debug)]
pub struct Chunk {
    pub nbytes: u32,
    pub nrec: u32,
    pub reads: Vec<ReadRecord>,
}

/// What a `Chunk` holds, as mathematical sequences.
pub struct ChunkView {
    pub nbytes: u32,
    pub nrec: u32,
    pub reads: Seq<ReadRecordView>,
}

impl View for Chunk {
    type V = ChunkView;

    open spec fn view(&self) -> ChunkView {
        ChunkView {
            nbytes: self.nbytes,
            nrec: self.nrec,
            reads: self.reads@.map_values(|r: ReadRecord| r@),
        }
    }
}

/// The first `n` records from `pos` in `s`, with the position behind the
/// last of them; `None` where `s` ends before that.
pub open spec fn parse_records(s: Seq<u8>, pos: int, n: nat, bct: RadIntId, umit: RadIntId) -> Option<
    (Seq<ReadRecordView>, int),
>
    decreases n,
{
    if n == 0 {
        Some((Seq::empty(), pos))
    } else {
        match parse_records(s, pos, (n - 1) as nat, bct, umit) {
            Some((before, at)) => match parse_record(s, at, bct, umit) {
                Some(rec) => Some(
                    (before.push(rec), at + record_bytes(rec.refs.len(), bct, umit)),
                ),
                None => None,
            },
            None => None,
        }
    }
}

/// The header `(nbytes, nrec)` of the chunk at `pos` in `s`.
pub open spec fn parse_chunk_header(s: Seq<u8>, pos: int) -> Option<(u32, u32)> {
    match (read_le(s, pos, 4), read_le(s, pos + 4, 4)) {
        (Some(nbytes), Some(nrec)) => Some((nbytes as u32, nrec as u32)),
        _ => None,
    }
}

/// The chunk at `pos` in `s`, with the position behind it.
pub open spec fn parse_chunk(s: Seq<u8>, pos: int, bct: RadIntId, umit: RadIntId) -> Option<
    (ChunkView, int),
> {
    match parse_chunk_header(s, pos) {
        Some((nbytes, nrec)) => match parse_records(s, pos + 8, nrec as nat, bct, umit) {
            Some((reads, end)) => Some((ChunkView { nbytes, nrec, reads }, end)),
            None => None,
        },
        None => None,
    }
}

/// Once the input has ended inside a record, no longer run of records can
/// be read from it.
pub proof fn lemma_parse_records_stays_none(
    s: Seq<u8>,
    pos: int,
    k: nat,
    n: nat,
    bct: RadIntId,
    umit: RadIntId,
)
    requires
        k <= n,
        parse_records(s, pos, k, bct, umit) is None,
    ensures
        parse_records(s, pos, n, bct, umit) is None,
    decreases n,
{
    if k < n {
        lemma_parse_records_stays_none(s, pos, k, (n - 1) as nat, bct, umit);
    }
}

impl Chunk {
    /// Reads the header `(nbytes, nrec)` of the chunk at `*pos`.
    pub fn read_header(buf: &[u8], pos: &mut usize) -> (r: Result<(u32, u32), RadError>)
        ensures
            match r {
                Ok(t) => parse_chunk_header(buf@, *old(pos) as int) == Some(t) && *final(pos)
                    == *old(pos) + 8,
                Err(e) => e == RadError::ShortRead && parse_chunk_header(buf@, *old(pos) as int)
                    is None && *final(pos) == *old(pos),
            },
    {
        let start: usize = *pos;
        let nbytes = match read_u32(buf, pos) {
            Ok(v) => v,
            Err(e) => {
                return Err(e);
            },
        };
        let nrec = match read_u32(buf, pos) {
            Ok(v) => v,
            Err(e) => {
                *pos = start;
                return Err(e);
            },
        };
        Ok((nbytes, nrec))
    }

    /// Reads the chunk at `*pos`, header and all records, and leaves `*pos`
    /// behind it. The size that the header states is handed on as it is.
    pub fn from_bytes(buf: &[u8], pos: &mut usize, bct: &RadIntId, umit: &RadIntId) -> (r: Result<
        Chunk,
        RadError,
    >)
        ensures
            match r {
                Ok(c) => parse_chunk(buf@, *old(pos) as int, *bct, *umit) == Some(
                    (c@, *final(pos) as int),
                ),
                Err(e) => e == RadError::ShortRead && parse_chunk(
                    buf@,
                    *old(pos) as int,
                    *bct,
                    *umit,
                ) is None && *final(pos) == *old(pos),
            },
    {
        let start: usize = *pos;
        let (nbytes, nrec) = match Chunk::read_header(buf, pos) {
            Ok(t) => t,
            Err(e) => {
                return Err(e);
            },
        };
        let mut reads: Vec<ReadRecord> = Vec::new();
        let mut i: u32 = 0;
        while i < nrec
            invariant
                i <= nrec,
                start == *old(pos),
                parse_chunk_header(buf@, start as int) == Some((nbytes, nrec)),
                parse_records(buf@, start + 8, i as nat, *bct, *umit) == Some(
                    (reads@.map_values(|r: ReadRecord| r@), *pos as int),
                ),
            decreases nrec - i,
        {
            let ghost before = reads@.map_values(|r: ReadRecord| r@);
            match ReadRecord::from_bytes(buf, pos, bct, umit) {
                Ok(rec) => {
                    reads.push(rec);
                    assert(reads@.map_values(|r: ReadRecord| r@) =~= before.push(rec@));
                },
                Err(e) => {
                    proof {
                        assert(parse_records(buf@, start + 8, (i + 1) as nat, *bct, *umit)
                            is None);
                        lemma_parse_records_stays_none(
                            buf@,
                            start + 8,
                            (i + 1) as nat,
                            nrec as nat,
                            *bct,
                            *umit,
                        );
                    }
                    *pos = start;
                    return Err(e);
                },
            }
            i += 1;
        }
        Ok(Chunk { nbytes, nrec, reads })
    }

    /// Peeks at the first record in `buf` and returns its barcode and UMI.
    /// Only the record's fixed part has to be there; its alignment count is
    /// not looked at.
    pub fn peek_record(buf: &[u8], bct: &RadIntId, umit: &RadIntId) -> (r: Result<
        (u64, u64),
        RadError,
    >)
        ensures
            match parse_record_header(buf@, 0, *bct, *umit) {
                Some((bc, umi, _)) => r == Ok::<(u64, u64), RadError>((bc, umi)),
                None => r == Err::<(u64, u64), RadError>(RadError::ShortRead),
            },
    {
        let mut pos: usize = 0;
        match ReadRecord::from_bytes_record_header(buf, &mut pos, bct, umit) {
            Ok((bc, umi, _)) => Ok((bc, umi)),
            Err(e) => Err(e),
        }
    }
}

/// The alignment entries of a record, read in the record's own bytes, are
/// those read at the record's place in the input.
pub proof fn lemma_wire_entries_in_record(s: Seq<u8>, start: int, end: int, hl: int, na: nat)
    requires
        0 <= start,
        0 <= hl,
        start + hl + 4 * na <= end <= s.len(),
    ensures
        wire_entries(s.subrange(start, end), hl, na) == wire_entries(s, start + hl, na),
{
    assert forall|i: int| 0 <= i < na implies wire_entry(s.subrange(start, end), hl, i)
        == wire_entry(s, start + hl, i) by {
        assert(s.subrange(start, end).subrange(hl + 4 * i, hl + 4 * i + 4) =~= s.subrange(
            start + hl + 4 * i,
            start + hl + 4 * i + 4,
        ));
    }
    assert(wire_entries(s.subrange(start, end), hl, na) =~= wire_entries(s, start + hl, na));
}

/// Reading a record depends on the record's own bytes alone: where the
/// bytes of a record that can be read at `from1` in `s1` lie at `from2` in `s2`
/// too, the same record is read there.
pub proof fn lemma_parse_record_window(
    s1: Seq<u8>,
    from1: int,
    s2: Seq<u8>,
    from2: int,
    bct: RadIntId,
    umit: RadIntId,
)
    requires
        0 <= from1,
        parse_record(s1, from1, bct, umit) is Some,
        holds_at(
            s2,
            from2,
            s1.subrange(
                from1,
                from1 + record_bytes(parse_record(s1, from1, bct, umit).unwrap().refs.len(), bct, umit),
            ),
        ),
    ensures
        parse_record(s2, from2, bct, umit) == parse_record(s1, from1, bct, umit),
{
    let rec = parse_record(s1, from1, bct, umit).unwrap();
    let na = rec.refs.len();
    let len = record_bytes(na, bct, umit) as int;
    let wb = bct.width() as int;
    let wu = umit.width() as int;
    let w = s1.subrange(from1, from1 + len);
    assert(s2.subrange(from2, from2 + 4) =~= w.subrange(0, 4));
    assert(s1.subrange(from1, from1 + 4) =~= w.subrange(0, 4));
    assert(s2.subrange(from2 + 4, from2 + 4 + wb) =~= w.subrange(4, 4 + wb));
    assert(s1.subrange(from1 + 4, from1 + 4 + wb) =~= w.subrange(4, 4 + wb));
    assert(s2.subrange(from2 + 4 + wb, from2 + 4 + wb + wu) =~= w.subrange(4 + wb, 4 + wb + wu));
    assert(s1.subrange(from1 + 4 + wb, from1 + 4 + wb + wu) =~= w.subrange(4 + wb, 4 + wb + wu));
    let hl = record_header_len(bct, umit) as int;
    lemma_wire_entries_in_record(s1, from1, from1 + len, hl, na);
    assert(s2.subrange(from2, from2 + len) == w);
    lemma_wire_entries_in_record(s2, from2, from2 + len, hl, na);
    let got = parse_record(s2, from2, bct, umit).unwrap();
    assert(got.dirs =~= rec.dirs);
    assert(got.refs =~= rec.refs);
}

/// The alignment entry for a reference index on a strand: the index, with
/// the top bit set for the forward strand.
pub open spec fn compose_entry(forward: bool, r: u32) -> u32 {
    if forward {
        r | MASK_LOWER_31_U32
    } else {
        r
    }
}

/// The alignment entries of a decoded record.
pub open spec fn record_entries(rec: ReadRecordView) -> Seq<u32> {
    Seq::new(rec.refs.len(), |i: int| compose_entry(rec.dirs[i], rec.refs[i]))
}

/// A decoded record on the wire.
pub open spec fn encode_read(rec: ReadRecordView, bct: RadIntId, umit: RadIntId) -> Seq<u8> {
    encode_record(rec.bc, rec.umi, record_entries(rec), bct, umit)
}

/// Decoded records on the wire, one after the other.
pub open spec fn encode_reads(reads: Seq<ReadRecordView>, bct: RadIntId, umit: RadIntId) -> Seq<u8>
    decreases reads.len(),
{
    if reads.len() == 0 {
        Seq::empty()
    } else {
        encode_reads(reads.drop_last(), bct, umit) + encode_read(reads.last(), bct, umit)
    }
}

/// A chunk on the wire.
pub open spec fn encode_chunk(c: ChunkView, bct: RadIntId, umit: RadIntId) -> Seq<u8> {
    le_bytes(c.nbytes as nat, 4) + le_bytes(c.nrec as nat, 4) + encode_reads(c.reads, bct, umit)
}

/// Whether a record can be written and read back with barcodes of type
/// `bct` and UMIs of type `umit`: it has a strand for each reference
/// index, no more alignments than 32 bits count, reference indices of at
/// most 31 bits, and a barcode and a UMI that fit their types.
pub open spec fn record_encodable(rec: ReadRecordView, bct: RadIntId, umit: RadIntId) -> bool {
    &&& rec.dirs.len() == rec.refs.len()
    &&& rec.refs.len() <= u32::MAX
    &&& forall|i: int| 0 <= i < rec.refs.len() ==> (#[trigger] rec.refs[i]) <= MASK_TOP_BIT_U32
    &&& rec.bc < pow256(bct.width())
    &&& rec.umi < pow256(umit.width())
}

/// Whether a chunk can be written and read back: it counts its records
/// rightly, and each record can be.
pub open spec fn chunk_encodable(c: ChunkView, bct: RadIntId, umit: RadIntId) -> bool {
    c.nrec == c.reads.len() && forall|i: int|
        0 <= i < c.reads.len() ==> record_encodable(#[trigger] c.reads[i], bct, umit)
}

/// The sum of the sizes of records with the alignment counts of `reads`.
pub open spec fn reads_bytes(reads: Seq<ReadRecordView>, bct: RadIntId, umit: RadIntId) -> nat
    decreases reads.len(),
{
    if reads.len() == 0 {
        0
    } else {
        reads_bytes(reads.drop_last(), bct, umit) + record_bytes(
            reads.last().refs.len(),
            bct,
            umit,
        )
    }
}

/// Where the entries lie on the wire, the `i`-th lies at its place.
pub proof fn lemma_encoded_entry_at(s: Seq<u8>, base: int, entries: Seq<u32>, i: int)
    requires
        holds_at(s, base, encode_entries(entries)),
        0 <= i < entries.len(),
    ensures
        holds_at(s, base + 4 * i, le_bytes(entries[i] as nat, 4)),
        wire_entry(s, base, i) == entries[i],
    decreases entries.len(),
{
    let before = entries.drop_last();
    lemma_encode_entries_len(before);
    lemma_le_bytes_len(entries.last() as nat, 4);
    lemma_holds_at_split(s, base, encode_entries(before), le_bytes(entries.last() as nat, 4));
    if i < before.len() {
        lemma_encoded_entry_at(s, base, before, i);
        assert(before[i] == entries[i]);
    } else {
        lemma_pow256_values();
        lemma_le_round_trip(entries[i] as nat, 4);
        lemma_le_bytes_len(entries[i] as nat, 4);
    }
}

/// Taking an entry apart gives back the strand and the reference index
/// that it was made of.
pub proof fn lemma_entry_parts(forward: bool, r: u32)
    requires
        r <= MASK_TOP_BIT_U32,
    ensures
        entry_is_forward(compose_entry(forward, r)) == forward,
        entry_ref(compose_entry(forward, r)) == r,
{
    assert(r <= 0x7FFF_FFFFu32 ==> (r | 0x8000_0000u32) & 0x8000_0000u32 != 0 && (r
        | 0x8000_0000u32) & 0x7FFF_FFFFu32 == r && r & 0x8000_0000u32 == 0 && r & 0x7FFF_FFFFu32
        == r) by (bit_vector);
}

/// Reading a record where its encoding lies gives the record back.
pub proof fn lemma_parse_encoded_record(
    s: Seq<u8>,
    pos: int,
    rec: ReadRecordView,
    bct: RadIntId,
    umit: RadIntId,
)
    requires
        holds_at(s, pos, encode_read(rec, bct, umit)),
        record_encodable(rec, bct, umit),
    ensures
        parse_record(s, pos, bct, umit) == Some(rec),
        encode_read(rec, bct, umit).len() == record_bytes(rec.refs.len(), bct, umit),
{
    let entries = record_entries(rec);
    let na = entries.len();
    let wb = bct.width();
    let wu = umit.width();
    lemma_pow256_values();
    lemma_encode_record_len(rec.bc, rec.umi, entries, bct, umit);
    lemma_le_bytes_len(na, 4);
    lemma_le_bytes_len(rec.bc as nat, wb);
    lemma_le_bytes_len(rec.umi as nat, wu);
    lemma_encode_entries_len(entries);
    let head = le_bytes(na, 4) + le_bytes(rec.bc as nat, wb) + le_bytes(rec.umi as nat, wu);
    lemma_holds_at_split(s, pos, head, encode_entries(entries));
    lemma_holds_at_split(
        s,
        pos,
        le_bytes(na, 4) + le_bytes(rec.bc as nat, wb),
        le_bytes(rec.umi as nat, wu),
    );
    lemma_holds_at_split(s, pos, le_bytes(na, 4), le_bytes(rec.bc as nat, wb));
    lemma_read_le_of_bytes(s, pos, na, 4);
    lemma_read_le_of_bytes(s, pos + 4, rec.bc as nat, wb);
    lemma_read_le_of_bytes(s, pos + 4 + wb, rec.umi as nat, wu);
    let base = pos + record_header_len(bct, umit);
    let wire = wire_entries(s, base, na);
    assert forall|i: int| 0 <= i < na implies wire[i] == entries[i] && entry_is_forward(wire[i])
        == rec.dirs[i] && entry_ref(wire[i]) == rec.refs[i] by {
        lemma_encoded_entry_at(s, base, entries, i);
        lemma_entry_parts(rec.dirs[i], rec.refs[i]);
    }
    let got = parse_record(s, pos, bct, umit).unwrap();
    assert(got.dirs =~= rec.dirs);
    assert(got.refs =~= rec.refs);
}

/// Reading records where their encodings lie gives the records back.
pub proof fn lemma_parse_encoded_records(
    s: Seq<u8>,
    pos: int,
    reads: Seq<ReadRecordView>,
    bct: RadIntId,
    umit: RadIntId,
)
    requires
        holds_at(s, pos, encode_reads(reads, bct, umit)),
        forall|i: int| 0 <= i < reads.len() ==> record_encodable(#[trigger] reads[i], bct, umit),
    ensures
        parse_records(s, pos, reads.len(), bct, umit) == Some(
            (reads, pos + encode_reads(reads, bct, umit).len()),
        ),
        encode_reads(reads, bct, umit).len() == reads_bytes(reads, bct, umit),
    decreases reads.len(),
{
    if reads.len() == 0 {
        assert(reads =~= Seq::<ReadRecordView>::empty());
    } else {
        let before = reads.drop_last();
        lemma_holds_at_split(
            s,
            pos,
            encode_reads(before, bct, umit),
            encode_read(reads.last(), bct, umit),
        );
        assert forall|i: int| 0 <= i < before.len() implies record_encodable(
            #[trigger] before[i],
            bct,
            umit,
        ) by {
            assert(before[i] == reads[i]);
        }
        lemma_parse_encoded_records(s, pos, before, bct, umit);
        assert(record_encodable(reads[reads.len() - 1], bct, umit));
        lemma_parse_encoded_record(
            s,
            pos + encode_reads(before, bct, umit).len(),
            reads.last(),
            bct,
            umit,
        );
        assert(before.push(reads.last()) =~= reads);
    }
}

/// Chunk round trip: reading where the encoding of a chunk lies gives the
/// chunk back, and ends behind the encoding.
pub proof fn lemma_chunk_round_trip(
    c: ChunkView,
    bct: RadIntId,
    umit: RadIntId,
    pre: Seq<u8>,
    post: Seq<u8>,
)
    requires
        chunk_encodable(c, bct, umit),
    ensures
        parse_chunk(pre + encode_chunk(c, bct, umit) + post, pre.len() as int, bct, umit) == Some(
            (c, (pre.len() + encode_chunk(c, bct, umit).len()) as int),
        ),
        encode_chunk(c, bct, umit).len() == 8 + reads_bytes(c.reads, bct, umit),
{
    let s = pre + encode_chunk(c, bct, umit) + post;
    let pos = pre.len() as int;
    lemma_pow256_values();
    lemma_holds_at_middle(pre, encode_chunk(c, bct, umit), post);
    lemma_le_bytes_len(c.nbytes as nat, 4);
    lemma_le_bytes_len(c.nrec as nat, 4);
    lemma_holds_at_split(
        s,
        pos,
        le_bytes(c.nbytes as nat, 4) + le_bytes(c.nrec as nat, 4),
        encode_reads(c.reads, bct, umit),
    );
    lemma_holds_at_split(s, pos, le_bytes(c.nbytes as nat, 4), le_bytes(c.nrec as nat, 4));
    lemma_read_le_of_bytes(s, pos, c.nbytes as nat, 4);
    lemma_read_le_of_bytes(s, pos + 4, c.nrec as nat, 4);
    lemma_parse_encoded_records(s, pos + 8, c.reads, bct, umit);
}

impl ReadRecord {
    /// Appends the record to `out` as it lies on the wire, each alignment
    /// as its reference index with the top bit set for the forward strand.
    pub fn write_bytes(&self, bct: &RadIntId, umit: &RadIntId, out: &mut Vec<u8>)
        requires
            self.dirs@.len() == self.refs@.len(),
        ensures
            final(out)@ == old(out)@ + encode_read(self@, *bct, *umit),
    {
        let n: usize = self.refs.len();
        let mut entries: Vec<u32> = Vec::new();
        let mut i: usize = 0;
        while i < n
            invariant
                i <= n,
                n == self.refs@.len(),
                n == self.dirs@.len(),
                entries@ == Seq::new(
                    i as nat,
                    |k: int| compose_entry(self.dirs@[k], self.refs@[k]),
                ),
            decreases n - i,
        {
            let r: u32 = self.refs[i];
            let e: u32 = if self.dirs[i] {
                r | MASK_LOWER_31_U32
            } else {
                r
            };
            entries.push(e);
            i += 1;
            assert(entries@ =~= Seq::new(
                i as nat,
                |k: int| compose_entry(self.dirs@[k], self.refs@[k]),
            ));
        }
        assert(entries@ =~= record_entries(self@));
        write_record(self.bc, self.umi, &entries, bct, umit, out);
    }
}

impl Chunk {
    /// Appends the chunk to `out` as it lies on the wire: the size and the
    /// record count as the chunk states them, then the records.
    pub fn write_bytes(&self, bct: &RadIntId, umit: &RadIntId, out: &mut Vec<u8>)
        requires
            forall|i: int|
                0 <= i < self.reads@.len() ==> (#[trigger] self.reads@[i]).dirs@.len()
                    == self.reads@[i].refs@.len(),
        ensures
            final(out)@ == old(out)@ + encode_chunk(self@, *bct, *umit),
    {
        write_u32(self.nbytes, out);
        write_u32(self.nrec, out);
        let n: usize = self.reads.len();
        let ghost reads = self@.reads;
        let ghost head = old(out)@ + le_bytes(self.nbytes as nat, 4) + le_bytes(
            self.nrec as nat,
            4,
        );
        let mut i: usize = 0;
        assert(reads.take(0) =~= Seq::<ReadRecordView>::empty());
        assert(out@ =~= head + encode_reads(reads.take(0), *bct, *umit));
        while i < n
            invariant
                i <= n,
                n == self.reads@.len(),
                reads == self@.reads,
                forall|k: int|
                    0 <= k < self.reads@.len() ==> (#[trigger] self.reads@[k]).dirs@.len()
                        == self.reads@[k].refs@.len(),
                out@ == head + encode_reads(reads.take(i as int), *bct, *umit),
            decreases n - i,
        {
            self.reads[i].write_bytes(bct, umit, out);
            proof {
                assert(reads.take(i + 1).drop_last() =~= reads.take(i as int));
                assert(reads.take(i + 1).last() == self.reads@[i as int]@);
                assert(out@ =~= head + (encode_reads(reads.take(i as int), *bct, *umit)
                    + encode_read(reads[i as int], *bct, *umit)));
            }
            i += 1;
        }
        assert(reads.take(n as int) =~= reads);
        assert(out@ =~= old(out)@ + encode_chunk(self@, *bct, *umit));
    }
}

/// The law of the orientation filter. What a record keeps under the filter
/// `expected` are the reference indices of exactly the entries on the
/// expected strand: under `Forward` each kept index comes from an entry
/// with its top bit set, under `Reverse` from one with its top bit clear,
/// and no such entry is left out; under `Unknown` nothing is dropped.
pub proof fn lemma_filter_keeps_matching_strand(entries: Seq<u32>, expected: Strand)
    ensures
        forall|r: u32| #[trigger]
            filtered_refs(entries, expected).contains(r) ==> exists|i: int|
                0 <= i < entries.len() && strand_passes(
                    expected,
                    entry_is_forward(#[trigger] entries[i]),
                ) && entry_ref(entries[i]) == r,
        forall|i: int|
            0 <= i < entries.len() && strand_passes(
                expected,
                entry_is_forward(#[trigger] entries[i]),
            ) ==> filtered_refs(entries, expected).contains(entry_ref(entries[i])),
        expected == Strand::Unknown ==> filtered_refs(entries, expected).len() == entries.len(),
        filtered_refs(entries, expected).len() <= entries.len(),
        ascending(filtered_refs(entries, expected)),
{
    broadcast use vstd::seq_lib::group_to_multiset_ensures;

    let kept = kept_refs(entries, expected);
    let leq = |a: u32, b: u32| a <= b;
    let sorted = filtered_refs(entries, expected);
    assert(vstd::relations::total_ordering(leq));
    kept.lemma_sort_by_ensures(leq);
    lemma_kept_refs_members(entries, expected);
    lemma_kept_refs_len(entries, expected);
    vstd::seq_lib::to_multiset_len(kept);
    vstd::seq_lib::to_multiset_len(sorted);
    assert forall|r: u32| #[trigger] sorted.contains(r) implies exists|i: int|
        0 <= i < entries.len() && strand_passes(expected, entry_is_forward(#[trigger] entries[i]))
            && entry_ref(entries[i]) == r by {
        assert(sorted.to_multiset().count(r) > 0);
        assert(kept.to_multiset().count(r) > 0);
        assert(kept.contains(r));
    }
    assert forall|i: int|
        0 <= i < entries.len() && strand_passes(
            expected,
            entry_is_forward(#[trigger] entries[i]),
        ) implies sorted.contains(entry_ref(entries[i])) by {
        assert(kept.contains(entry_ref(entries[i])));
        assert(kept.to_multiset().count(entry_ref(entries[i])) > 0);
        assert(sorted.to_multiset().count(entry_ref(entries[i])) > 0);
    }
    assert(ascending(sorted)) by {
        assert forall|i: int, j: int| 0 <= i <= j < sorted.len() implies sorted[i] <= sorted[j] by {
            if i < j {
                assert(leq(sorted[i], sorted[j]));
            }
        }
    }
}

/// What the filter keeps, before it is sorted, are the reference indices
/// of exactly the entries that pass.
pub proof fn lemma_kept_refs_members(entries: Seq<u32>, expected: Strand)
    ensures
        forall|r: u32| #[trigger]
            kept_refs(entries, expected).contains(r) ==> exists|i: int|
                0 <= i < entries.len() && strand_passes(
                    expected,
                    entry_is_forward(#[trigger] entries[i]),
                ) && entry_ref(entries[i]) == r,
        forall|i: int|
            0 <= i < entries.len() && strand_passes(
                expected,
                entry_is_forward(#[trigger] entries[i]),
            ) ==> kept_refs(entries, expected).contains(entry_ref(entries[i])),
    decreases entries.len(),
{
    if entries.len() > 0 {
        let before = entries.drop_last();
        let kept_before = kept_refs(before, expected);
        let kept = kept_refs(entries, expected);
        let last = entries.last();
        lemma_kept_refs_members(before, expected);
        assert forall|r: u32| #[trigger] kept.contains(r) implies exists|i: int|
            0 <= i < entries.len() && strand_passes(
                expected,
                entry_is_forward(#[trigger] entries[i]),
            ) && entry_ref(entries[i]) == r by {
            let j = choose|j: int| 0 <= j < kept.len() && kept[j] == r;
            if j < kept_before.len() {
                assert(kept_before[j] == r);
                assert(kept_before.contains(r));
                let i = choose|i: int|
                    0 <= i < before.len() && strand_passes(
                        expected,
                        entry_is_forward(#[trigger] before[i]),
                    ) && entry_ref(before[i]) == r;
                assert(entries[i] == before[i]);
            } else {
                assert(entries[entries.len() - 1] == last);
            }
        }
        assert forall|i: int|
            0 <= i < entries.len() && strand_passes(
                expected,
                entry_is_forward(#[trigger] entries[i]),
            ) implies kept.contains(entry_ref(entries[i])) by {
            if i < before.len() {
                assert(before[i] == entries[i]);
                assert(kept_before.contains(entry_ref(before[i])));
                let j = choose|j: int|
                    0 <= j < kept_before.len() && kept_before[j] == entry_ref(before[i]);
                assert(kept[j] == entry_ref(entries[i]));
            } else {
                assert(kept[kept.len() - 1] == entry_ref(last));
            }
        }
    }
}

} // verus!
