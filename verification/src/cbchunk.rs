//! Chunks that are gathered record by record for one corrected barcode:
//! the single-bucket collator, which fills a map of them, and the handing
//! of corrected records to a cache of them that threads share.

use vstd::prelude::*;
use vstd::slice::slice_subrange;
use vstd::std_specs::hash::builds_valid_hashers;
use std::collections::HashMap;
use std::hash::BuildHasher;
use bio_types::strand::Strand;
use dashmap::DashMap;
use crate::cells::{
    cell_bytes, cell_count, cell_size, first_seen, lemma_cell_bytes_sized, lemma_first_seen,
    lemma_push_record,
};
use crate::error::RadError;
use crate::primitive::{le_bytes, lemma_le_bytes_len, write_u32, RadIntId};
use crate::raw::{chunk_records, raw_records, records_sized, scan_records, skip_record, RawRecord};
use crate::record::{
    encode_record, filtered_refs, lemma_wire_entries_in_record, record_header_len, wire_entries,
    write_record, Chunk, ReadRecord, ReadRecordView,
};

verus! {

/// The records gathered for one corrected barcode, already encoded. The
/// first eight bytes of `data` are kept free for the chunk header, which
/// `dump_chunk` fills in; `nrec` records follow them.
#[derive(Debug)]
pub struct CorrectedCbChunk {
    pub remaining_records: u32,
    pub corrected_bc: u64,
    pub nrec: u32,
    pub data: Vec<u8>,
}

/// Eight zero bytes: the place kept for a chunk header.
pub open spec fn header_room() -> Seq<u8> {
    Seq::new(8, |i: int| 0u8)
}

impl CorrectedCbChunk {
    /// A chunk for the barcode `corrected_bc_in` that holds no record yet
    /// and expects `num_remain` records.
    pub fn from_label_and_counter(corrected_bc_in: u64, num_remain: u32) -> (r: CorrectedCbChunk)
        ensures
            r.remaining_records == num_remain,
            r.corrected_bc == corrected_bc_in,
            r.nrec == 0,
            r.data@ == header_room(),
    {
        let mut data: Vec<u8> = Vec::new();
        let mut i: usize = 0;
        while i < 8
            invariant
                i <= 8,
                data@ == Seq::new(i as nat, |k: int| 0u8),
            decreases 8 - i,
        {
            data.push(0u8);
            i += 1;
            assert(data@ =~= Seq::new(i as nat, |k: int| 0u8));
        }
        CorrectedCbChunk {
            remaining_records: num_remain,
            corrected_bc: corrected_bc_in,
            nrec: 0,
            data,
        }
    }
}

/// A chunk's bytes with the header filled in: the number of bytes of
/// `data` and the number of records, both as 32-bit integers (a size beyond
/// 32 bits loses its high bits), in place of the first eight bytes.
pub open spec fn dumped(data: Seq<u8>, nrec: u32) -> Seq<u8> {
    le_bytes(data.len(), 4) + le_bytes(nrec as nat, 4) + (if data.len() > 8 {
        data.subrange(8, data.len() as int)
    } else {
        Seq::empty()
    })
}

/// Whether `bytes` are a chunk with its header filled in.
pub open spec fn finished_chunk(bytes: Seq<u8>) -> bool {
    exists|data: Seq<u8>, nrec: u32| bytes == #[trigger] dumped(data, nrec)
}

/// Fills in the header of the chunk `v`: `v.data` is then the chunk as it
/// goes to the output.
pub fn dump_chunk(v: &mut CorrectedCbChunk)
    ensures
        final(v).data@ == dumped(old(v).data@, old(v).nrec),
        final(v).nrec == old(v).nrec,
        final(v).corrected_bc == old(v).corrected_bc,
        final(v).remaining_records == old(v).remaining_records,
{
    let len: usize = v.data.len();
    let mut header: Vec<u8> = Vec::new();
    RadIntId::U32.write_to(len as u64, &mut header);
    write_u32(v.nrec, &mut header);
    proof {
        lemma_le_bytes_len(len as nat, 4);
        lemma_le_bytes_len(v.nrec as nat, 4);
    }
    let ghost before = v.data@;
    let mut i: usize = 0;
    while i < 8
        invariant
            i <= 8,
            header@.len() == 8,
            before == old(v).data@,
            v.data@.len() == (if before.len() >= i {
                before.len()
            } else {
                i as nat
            }),
            v.data@ == header@.subrange(0, i as int) + (if before.len() > i {
                before.subrange(i as int, before.len() as int)
            } else {
                Seq::empty()
            }),
            v.nrec == old(v).nrec,
            v.corrected_bc == old(v).corrected_bc,
            v.remaining_records == old(v).remaining_records,
        decreases 8 - i,
    {
        let b: u8 = header[i];
        if i < v.data.len() {
            v.data[i] = b;
        } else {
            v.data.push(b);
        }
        i += 1;
        assert(v.data@ =~= header@.subrange(0, i as int) + (if before.len() > i {
            before.subrange(i as int, before.len() as int)
        } else {
            Seq::empty()
        }));
    }
    assert(header@.subrange(0, 8) =~= header@);
}

/// One more than `n`, or 0 after the largest 32-bit number.
pub open spec fn wrapping_inc(n: u32) -> u32 {
    if n == u32::MAX {
        0
    } else {
        (n + 1) as u32
    }
}

/// One less than `n`, or the largest 32-bit number before 0.
pub open spec fn wrapping_dec(n: u32) -> u32 {
    if n == 0 {
        u32::MAX
    } else {
        (n - 1) as u32
    }
}

/// What a chunk holds once it has taken the record with the kept
/// alignments `refs` and the UMI `umi` under the barcode `corrected_id`:
/// one record less to wait for and, unless the record kept no alignment,
/// one record more. With no record left to wait for, the header is filled
/// in.
pub open spec fn absorbed(
    chunk: CorrectedCbChunk,
    corrected_id: u64,
    umi: u64,
    refs: Seq<u32>,
    bct: RadIntId,
    umit: RadIntId,
) -> (u32, u32, Seq<u8>) {
    let remaining = wrapping_dec(chunk.remaining_records);
    let nrec = if refs.len() == 0 {
        chunk.nrec
    } else {
        wrapping_inc(chunk.nrec)
    };
    let data = if refs.len() == 0 {
        chunk.data@
    } else {
        chunk.data@ + encode_record(corrected_id, umi, refs, bct, umit)
    };
    (
        remaining,
        nrec,
        if remaining == 0 {
            dumped(data, nrec)
        } else {
            data
        },
    )
}

/// Hands the record `rr`, whose barcode was corrected to `corrected_id`
/// and whose alignments were filtered, to the chunk of that barcode. The
/// chunk waits for one record less; unless `rr` is empty it gets the record
/// appended, with `corrected_id` as its barcode. When the chunk waits for
/// no more records its header is filled in and a copy of its bytes is
/// returned, to be written out.
pub fn absorb_record(
    chunk: &mut CorrectedCbChunk,
    corrected_id: u64,
    rr: &ReadRecord,
    bct: &RadIntId,
    umit: &RadIntId,
) -> (r: Option<Vec<u8>>)
    ensures
        final(chunk).corrected_bc == old(chunk).corrected_bc,
        (final(chunk).remaining_records, final(chunk).nrec, final(chunk).data@) == absorbed(
            *old(chunk),
            corrected_id,
            rr.umi,
            rr.refs@,
            *bct,
            *umit,
        ),
        match r {
            Some(bytes) => final(chunk).remaining_records == 0 && bytes@ == final(chunk).data@
                && finished_chunk(bytes@),
            None => final(chunk).remaining_records != 0,
        },
{
    chunk.remaining_records = if chunk.remaining_records == 0 {
        u32::MAX
    } else {
        chunk.remaining_records - 1
    };
    let last_record: bool = chunk.remaining_records == 0;
    if !rr.is_empty() {
        chunk.nrec = if chunk.nrec == u32::MAX {
            0
        } else {
            chunk.nrec + 1
        };
        write_record(corrected_id, rr.umi, &rr.refs, bct, umit, &mut chunk.data);
    }
    if last_record {
        dump_chunk(chunk);
        let bytes = chunk.data.clone();
        assert(bytes@ =~= chunk.data@);
        Some(bytes)
    } else {
        None
    }
}

/// `n` as a 32-bit counter holds it: counting starts again at 0 after the
/// largest 32-bit number.
pub open spec fn wrap32(n: int) -> u32 {
    (n % 0x1_0000_0000) as u32
}

/// Counting one further in a 32-bit counter is counting one further and
/// then fitting the counter.
proof fn lemma_wrap32_step(n: int)
    requires
        n >= 0,
    ensures
        wrapping_inc(wrap32(n)) == wrap32(n + 1),
{
    let m = 0x1_0000_0000int;
    vstd::arithmetic::div_mod::lemma_fundamental_div_mod(n, m);
    let q = n / m;
    let r = n % m;
    if r == m - 1 {
        vstd::arithmetic::div_mod::lemma_fundamental_div_mod_converse(n + 1, m, q + 1, 0);
    } else {
        vstd::arithmetic::div_mod::lemma_fundamental_div_mod_converse(n + 1, m, q, r + 1);
    }
}

/// Whether `chunk` is what the single-bucket collator makes of the chunk
/// that `before` holds for the barcode `cb` (a fresh one that expects one
/// record, where it holds none) by adding the records of `recs` with that
/// barcode, byte for byte and in their order.
pub open spec fn chunk_grown(
    chunk: CorrectedCbChunk,
    before: Map<u64, CorrectedCbChunk>,
    recs: Seq<RawRecord>,
    cb: u64,
) -> bool {
    if before.contains_key(cb) {
        &&& chunk.remaining_records == before[cb].remaining_records
        &&& chunk.corrected_bc == before[cb].corrected_bc
        &&& chunk.nrec == wrap32(before[cb].nrec + cell_count(recs, cb))
        &&& chunk.data@ == before[cb].data@ + cell_bytes(recs, cb)
    } else {
        &&& chunk.remaining_records == 1
        &&& chunk.corrected_bc == cb
        &&& chunk.nrec == wrap32(cell_count(recs, cb) as int)
        &&& chunk.data@ == header_room() + cell_bytes(recs, cb)
    }
}

/// Whether `after` is the cache `before` with the records `recs` added:
/// it holds a chunk for every barcode that `before` holds or that occurs
/// in `recs`, and each chunk has grown by the records of its barcode.
#[verifier::opaque]
pub open spec fn cache_grown(
    after: Map<u64, CorrectedCbChunk>,
    before: Map<u64, CorrectedCbChunk>,
    recs: Seq<RawRecord>,
) -> bool {
    forall|cb: u64|
        #![trigger after.contains_key(cb)]
        #![trigger after[cb]]
        {
            &&& after.contains_key(cb) <==> (before.contains_key(cb) || first_seen(recs).contains(
                cb,
            ))
            &&& after.contains_key(cb) ==> chunk_grown(after[cb], before, recs, cb)
        }
}

/// A cache that has grown by some records and then gets, for the barcode
/// of one more record, the chunk grown by that record too, has grown by all
/// of them.
proof fn lemma_cache_grows(
    held: Map<u64, CorrectedCbChunk>,
    before: Map<u64, CorrectedCbChunk>,
    recs: Seq<RawRecord>,
    rec: RawRecord,
    chunk: CorrectedCbChunk,
)
    requires
        cache_grown(held, before, recs),
        chunk_grown(chunk, before, recs.push(rec), rec.bc),
    ensures
        cache_grown(held.insert(rec.bc, chunk), before, recs.push(rec)),
{
    reveal(cache_grown);
    let grown = recs.push(rec);
    let after = held.insert(rec.bc, chunk);
    lemma_first_seen(grown);
    assert(grown[recs.len() as int].bc == rec.bc);
    assert forall|cb: u64|
        #![trigger after.contains_key(cb)]
        #![trigger after[cb]]
        {
            &&& after.contains_key(cb) <==> (before.contains_key(cb) || first_seen(grown).contains(
                cb,
            ))
            &&& after.contains_key(cb) ==> chunk_grown(after[cb], before, grown, cb)
        } by {
        lemma_push_record(recs, rec, cb);
        if cb != rec.bc {
            assert(held.contains_key(cb) <==> after.contains_key(cb));
            assert(first_seen(grown).contains(cb) <==> first_seen(recs).contains(cb)) by {
                if first_seen(grown).contains(cb) && !first_seen(recs).contains(cb) {
                    let j = choose|j: int|
                        0 <= j < first_seen(grown).len() && first_seen(grown)[j] == cb;
                    if j < first_seen(recs).len() {
                        assert(first_seen(recs)[j] == cb);
                    }
                }
                if first_seen(recs).contains(cb) {
                    let j = choose|j: int|
                        0 <= j < first_seen(recs).len() && first_seen(recs)[j] == cb;
                    assert(first_seen(grown)[j] == cb);
                }
            }
            if held.contains_key(cb) {
                assert(after[cb] == held[cb]);
                assert(chunk_grown(held[cb], before, recs, cb));
            }
        }
    }
}

/// What a grown cache holds for one barcode.
proof fn lemma_cache_entry(
    held: Map<u64, CorrectedCbChunk>,
    before: Map<u64, CorrectedCbChunk>,
    recs: Seq<RawRecord>,
    cb: u64,
)
    requires
        cache_grown(held, before, recs),
    ensures
        held.contains_key(cb) <==> (before.contains_key(cb) || first_seen(recs).contains(cb)),
        held.contains_key(cb) ==> chunk_grown(held[cb], before, recs, cb),
{
    reveal(cache_grown);
}

/// A cache has grown by no records from itself.
proof fn lemma_cache_unchanged(before: Map<u64, CorrectedCbChunk>)
    ensures
        cache_grown(before, before, Seq::empty()),
{
    reveal(cache_grown);
    assert forall|cb: u64| #[trigger] before.contains_key(cb) implies chunk_grown(
        before[cb],
        before,
        Seq::empty(),
        cb,
    ) by {
        assert(before[cb].data@ + cell_bytes(Seq::empty(), cb) =~= before[cb].data@);
    }
}

/// Byte accounting of a chunk that the single-bucket collator has filled,
/// once its header is filled in: the size that the header states is 8 for
/// the header and, for each record, the bytes that the format gives a
/// record with its number of alignments; and the chunk takes that many
/// bytes.
pub proof fn lemma_dumped_byte_accounting(
    recs: Seq<RawRecord>,
    cb: u64,
    nrec: u32,
    bct: RadIntId,
    umit: RadIntId,
)
    requires
        records_sized(recs, bct, umit),
    ensures
        ({
            let chunk = dumped(header_room() + cell_bytes(recs, cb), nrec);
            &&& chunk.len() == 8 + cell_size(recs, cb, bct, umit)
            &&& chunk.subrange(0, 4) == le_bytes(8 + cell_size(recs, cb, bct, umit), 4)
            &&& chunk.subrange(4, 8) == le_bytes(nrec as nat, 4)
            &&& chunk.subrange(8, chunk.len() as int) == cell_bytes(recs, cb)
        }),
{
    let data = header_room() + cell_bytes(recs, cb);
    let chunk = dumped(data, nrec);
    lemma_cell_bytes_sized(recs, cb, bct, umit);
    lemma_le_bytes_len(data.len(), 4);
    lemma_le_bytes_len(nrec as nat, 4);
    assert(chunk.subrange(0, 4) =~= le_bytes(data.len(), 4));
    assert(chunk.subrange(4, 8) =~= le_bytes(nrec as nat, 4));
    if data.len() > 8 {
        assert(data.subrange(8, data.len() as int) =~= cell_bytes(recs, cb));
    }
    assert(chunk.subrange(8, chunk.len() as int) =~= cell_bytes(recs, cb));
}

/// The chunk of `bc` taken out of `cache`, or a fresh chunk that expects one
/// record where `cache` holds none.
fn take_chunk<S: BuildHasher>(cache: &mut HashMap<u64, CorrectedCbChunk, S>, bc: u64) -> (c:
    CorrectedCbChunk)
    requires
        builds_valid_hashers::<S>(),
    ensures
        final(cache)@ == old(cache)@.remove(bc),
        old(cache)@.contains_key(bc) ==> c == old(cache)@[bc],
        !old(cache)@.contains_key(bc) ==> c.remaining_records == 1 && c.corrected_bc == bc && c.nrec
            == 0 && c.data@ == header_room(),
{
    match cache.remove(&bc) {
        Some(c) => c,
        None => CorrectedCbChunk::from_label_and_counter(bc, 1),
    }
}

/// Adds one encoded record to a chunk.
fn append_encoded(chunk: &mut CorrectedCbChunk, bytes: &[u8])
    ensures
        final(chunk).data@ == old(chunk).data@ + bytes@,
        final(chunk).nrec == wrapping_inc(old(chunk).nrec),
        final(chunk).corrected_bc == old(chunk).corrected_bc,
        final(chunk).remaining_records == old(chunk).remaining_records,
{
    chunk.nrec = if chunk.nrec == u32::MAX {
        0
    } else {
        chunk.nrec + 1
    };
    chunk.data.extend_from_slice(bytes);
    assert(chunk.data@ =~= old(chunk).data@ + bytes@);
}

/// The chunk of a record's barcode, with the record added, has grown by
/// that record too.
proof fn lemma_chunk_grows(
    taken: CorrectedCbChunk,
    added: CorrectedCbChunk,
    held: Map<u64, CorrectedCbChunk>,
    before: Map<u64, CorrectedCbChunk>,
    recs: Seq<RawRecord>,
    rec: RawRecord,
)
    requires
        cache_grown(held, before, recs),
        held.contains_key(rec.bc) ==> taken == held[rec.bc],
        !held.contains_key(rec.bc) ==> taken.remaining_records == 1 && taken.corrected_bc == rec.bc
            && taken.nrec == 0 && taken.data@ == header_room(),
        added.data@ == taken.data@ + rec.bytes,
        added.nrec == wrapping_inc(taken.nrec),
        added.corrected_bc == taken.corrected_bc,
        added.remaining_records == taken.remaining_records,
    ensures
        chunk_grown(added, before, recs.push(rec), rec.bc),
{
    lemma_cache_entry(held, before, recs, rec.bc);
    lemma_push_record(recs, rec, rec.bc);
    if before.contains_key(rec.bc) {
        lemma_wrap32_step(before[rec.bc].nrec + cell_count(recs, rec.bc));
    } else {
        lemma_wrap32_step(cell_count(recs, rec.bc) as int);
    }
    if !held.contains_key(rec.bc) {
        crate::cells::lemma_absent_cell_is_empty(recs, rec.bc);
        assert(cell_bytes(recs, rec.bc) =~= Seq::<u8>::empty());
    }
    let base = if before.contains_key(rec.bc) {
        before[rec.bc].data@
    } else {
        header_room()
    };
    assert(added.data@ =~= base + (cell_bytes(recs, rec.bc) + rec.bytes));
}

/// Reads the `nrec` records that `input` holds from its start and adds each
/// to the chunk that `output_cache` holds for its barcode, making a chunk
/// where there is none. A record is copied as it is; its alignment entries
/// are not decoded.
///
/// Where `input` ends inside one of the records the call fails with
/// `ShortRead` and leaves `output_cache` as it was.
#[verifier::rlimit(30)]
pub fn collate_temporary_bucket<S: BuildHasher>(
    input: &[u8],
    bct: &RadIntId,
    umit: &RadIntId,
    _nchunks: u32,
    nrec: u32,
    output_cache: &mut HashMap<u64, CorrectedCbChunk, S>,
) -> (r: Result<(), RadError>)
    requires
        builds_valid_hashers::<S>(),
    ensures
        match raw_records(input@, 0, nrec as nat, *bct, *umit) {
            Some((recs, _)) => r is Ok && cache_grown(final(output_cache)@, old(output_cache)@, recs),
            None => r == Err::<(), RadError>(RadError::ShortRead) && final(output_cache)@ == old(
                output_cache,
            )@,
        },
{
    match scan_records(input, 0, bct, umit, nrec) {
        Ok(_) => {},
        Err(e) => {
            return Err(e);
        },
    }
    let ghost all = raw_records(input@, 0, nrec as nat, *bct, *umit).unwrap().0;
    let ghost before = output_cache@;
    let len: usize = input.len();
    let mut pos: usize = 0;
    let mut k: u32 = 0;
    proof {
        lemma_cache_unchanged(before);
        crate::raw::lemma_raw_records_prefix(input@, 0, 0, nrec as nat, *bct, *umit);
    }
    while k < nrec
        invariant
            k <= nrec,
            len == input@.len(),
            pos <= len,
            builds_valid_hashers::<S>(),
            raw_records(input@, 0, nrec as nat, *bct, *umit) is Some,
            raw_records(input@, 0, nrec as nat, *bct, *umit).unwrap().0 == all,
            raw_records(input@, 0, k as nat, *bct, *umit) == Some((all.take(k as int), pos as int)),
            cache_grown(output_cache@, before, all.take(k as int)),
        decreases nrec - k,
    {
        let start: usize = pos;
        let ghost recs = all.take(k as int);
        let ghost rec = all[k as int];
        let ghost held = output_cache@;
        proof {
            crate::raw::lemma_next_record(
                input@,
                k as nat,
                nrec as nat,
                *bct,
                *umit,
                all,
                pos as int,
            );
        }
        let (bc, umi, na) = match skip_record(input, &mut pos, bct, umit) {
            Ok(t) => t,
            Err(e) => {
                return Err(e);
            },
        };
        let mut chunk = take_chunk(output_cache, bc);
        let ghost taken = chunk;
        append_encoded(&mut chunk, slice_subrange(input, start, pos));
        let ghost added = chunk;
        output_cache.insert(bc, chunk);
        proof {
            assert(output_cache@ =~= held.insert(bc, added));
            lemma_chunk_grows(taken, added, held, before, recs, rec);
            lemma_cache_grows(held, before, recs, rec, added);
        }
        k += 1;
    }
    assert(all.take(nrec as int) =~= all);
    Ok(())
}

/// `dashmap`'s concurrent map, as a value that is handed on unopened.
#[verifier::external_type_specification]
#[verifier::external_body]
#[verifier::reject_recursive_types(K)]
#[verifier::reject_recursive_types(V)]
#[verifier::reject_recursive_types(S)]
pub struct ExDashMap<K, V, S>(DashMap<K, V, S>);

/// Looks the chunk of `corrected_id` up in the shared cache with
/// `dashmap`'s `get_mut` and, while the entry is held, hands it the record
/// with `absorb_record`. The result is `None` where the cache has no such
/// chunk, else what `absorb_record` returned. Other threads change the
/// cache at any time, so of the chunk nothing is claimed; bytes that come
/// back are, as `absorb_record` makes them, a chunk with its header filled
/// in.
#[verifier::external_body]
fn absorb_into_cache(
    cache: &DashMap<u64, CorrectedCbChunk>,
    corrected_id: u64,
    rr: &ReadRecord,
    bct: &RadIntId,
    umit: &RadIntId,
) -> (r: Option<Option<Vec<u8>>>)
    ensures
        r matches Some(Some(bytes)) ==> finished_chunk(bytes@),
{
    cache.get_mut(&corrected_id).map(|mut v| absorb_record(&mut v, corrected_id, rr, bct, umit))
}

/// The record `rec` as it is handed on once its barcode is corrected: its
/// own barcode and UMI, and of its alignments the reference indices that
/// pass the filter `expected`, in ascending order.
pub open spec fn filtered_record(
    rec: RawRecord,
    expected: Strand,
    bct: RadIntId,
    umit: RadIntId,
) -> ReadRecordView {
    ReadRecordView {
        bc: rec.bc,
        umi: rec.umi,
        dirs: Seq::empty(),
        refs: filtered_refs(
            wire_entries(rec.bytes, record_header_len(bct, umit) as int, rec.na as nat),
            expected,
        ),
    }
}

/// The records of `recs` whose barcode `correct` corrects, in their order,
/// each filtered and with the barcode that its own is corrected to.
pub open spec fn corrected_records(
    recs: Seq<RawRecord>,
    correct: Map<u64, u64>,
    expected: Strand,
    bct: RadIntId,
    umit: RadIntId,
) -> Seq<(u64, ReadRecordView)>
    decreases recs.len(),
{
    if recs.len() == 0 {
        Seq::empty()
    } else {
        let before = corrected_records(recs.drop_last(), correct, expected, bct, umit);
        if correct.contains_key(recs.last().bc) {
            before.push(
                (correct[recs.last().bc], filtered_record(recs.last(), expected, bct, umit)),
            )
        } else {
            before
        }
    }
}

/// What the decoded records hold, as mathematical sequences.
pub open spec fn deliveries_view(found: Seq<(u64, ReadRecord)>) -> Seq<(u64, ReadRecordView)> {
    Seq::new(found.len(), |i: int| (found[i].0, found[i].1@))
}

/// Reads the chunk at `*pos` and decodes the records whose barcode
/// `correct_map` corrects, applying the filter `expected_ori` to their
/// alignments: returned are these records, in their order, each with the
/// barcode that its own is corrected to. The alignment entries of the
/// other records are passed over undecoded.
///
/// Where the input ends inside the chunk the call fails with `ShortRead`,
/// and nothing is consumed.
pub fn decode_corrected_records<S: BuildHasher>(
    input: &[u8],
    pos: &mut usize,
    bct: &RadIntId,
    umit: &RadIntId,
    correct_map: &HashMap<u64, u64, S>,
    expected_ori: &Strand,
) -> (r: Result<Vec<(u64, ReadRecord)>, RadError>)
    requires
        builds_valid_hashers::<S>(),
    ensures
        match chunk_records(input@, *old(pos) as int, *bct, *umit) {
            Some((recs, end)) => (r matches Ok(found) && deliveries_view(found@)
                == corrected_records(recs, correct_map@, *expected_ori, *bct, *umit))
                && *final(pos) == end,
            None => r matches Err(RadError::ShortRead) && *final(pos) == *old(pos),
        },
{
    let start: usize = *pos;
    let (_nbytes, nrec) = match Chunk::read_header(input, pos) {
        Ok(t) => t,
        Err(e) => {
            return Err(e);
        },
    };
    let first: usize = *pos;
    let _len: usize = input.len();
    let end: usize = match scan_records(input, first, bct, umit, nrec) {
        Ok(end) => end,
        Err(e) => {
            *pos = start;
            return Err(e);
        },
    };
    let ghost all = raw_records(input@, first as int, nrec as nat, *bct, *umit).unwrap().0;
    let mut found: Vec<(u64, ReadRecord)> = Vec::new();
    let mut at: usize = first;
    let mut k: u32 = 0;
    proof {
        crate::raw::lemma_raw_records_prefix(input@, first as int, 0, nrec as nat, *bct, *umit);
        assert(all.take(0) =~= Seq::<RawRecord>::empty());
        assert(deliveries_view(found@) =~= Seq::<(u64, ReadRecordView)>::empty());
    }
    while k < nrec
        invariant
            k <= nrec,
            input@.len() <= usize::MAX,
            builds_valid_hashers::<S>(),
            all.len() == nrec,
            raw_records(input@, first as int, nrec as nat, *bct, *umit) == Some((all, end as int)),
            raw_records(input@, first as int, k as nat, *bct, *umit) == Some(
                (all.take(k as int), at as int),
            ),
            deliveries_view(found@) == corrected_records(
                all.take(k as int),
                correct_map@,
                *expected_ori,
                *bct,
                *umit,
            ),
        decreases nrec - k,
    {
        let ghost rec = all[k as int];
        let ghost before = deliveries_view(found@);
        proof {
            crate::raw::lemma_next_record_from(
                input@,
                first as int,
                k as nat,
                nrec as nat,
                *bct,
                *umit,
                all,
                at as int,
            );
            crate::raw::lemma_raw_record_parts(input@, at as int, *bct, *umit);
            lemma_wire_entries_in_record(
                input@,
                at as int,
                at + rec.bytes.len(),
                record_header_len(*bct, *umit) as int,
                rec.na as nat,
            );
            assert(all.take(k + 1).drop_last() =~= all.take(k as int));
            assert(all.take(k + 1).last() == rec);
        }
        let (bc, umi, na) = match ReadRecord::from_bytes_record_header(input, &mut at, bct, umit) {
            Ok(t) => t,
            Err(e) => {
                *pos = start;
                return Err(e);
            },
        };
        let corrected: Option<u64> = match correct_map.get(&bc) {
            Some(id) => Some(*id),
            None => None,
        };
        match corrected {
            Some(corrected_id) => {
                let rr = match ReadRecord::from_bytes_with_header_keep_ori(
                    input,
                    &mut at,
                    bc,
                    umi,
                    na,
                    expected_ori,
                ) {
                    Ok(rr) => rr,
                    Err(e) => {
                        *pos = start;
                        return Err(e);
                    },
                };
                assert(rr@ == filtered_record(rec, *expected_ori, *bct, *umit)) by {
                    assert(rr@.dirs =~= Seq::<bool>::empty());
                }
                found.push((corrected_id, rr));
                assert(deliveries_view(found@) =~= before.push((corrected_id, rr@)));
            },
            None => {
                at = at + 4 * (na as usize);
            },
        }
        k += 1;
    }
    assert(all.take(nrec as int) =~= all);
    *pos = at;
    Ok(found)
}

/// Reads the chunk at `*pos`: each record whose barcode `correct_map`
/// corrects is decoded, its alignments filtered by `expected_ori`, as
/// `decode_corrected_records` says. In their order these records are then
/// handed to the chunk that `output_cache` holds for the corrected
/// barcode, as `absorb_record` says; one for whose corrected barcode the
/// cache holds no chunk is passed over. Returned are the chunks that were
/// completed by this, ready to be written out, in the order in which they
/// were completed.
///
/// The input is checked before any record is handed on: where it ends
/// inside the chunk the call fails with `ShortRead`, and nothing was read
/// or changed.
pub fn process_corrected_cb_chunk<S: BuildHasher>(
    input: &[u8],
    pos: &mut usize,
    bct: &RadIntId,
    umit: &RadIntId,
    correct_map: &HashMap<u64, u64, S>,
    expected_ori: &Strand,
    output_cache: &DashMap<u64, CorrectedCbChunk>,
) -> (r: Result<Vec<Vec<u8>>, RadError>)
    requires
        builds_valid_hashers::<S>(),
    ensures
        match chunk_records(input@, *old(pos) as int, *bct, *umit) {
            Some((recs, end)) => r matches Ok(dumps) && *final(pos) == end && dumps@.len()
                <= corrected_records(recs, correct_map@, *expected_ori, *bct, *umit).len()
                && forall|i: int|
                0 <= i < dumps@.len() ==> finished_chunk((#[trigger] dumps@[i])@),
            None => r matches Err(RadError::ShortRead) && *final(pos) == *old(pos),
        },
{
    let found = match decode_corrected_records(input, pos, bct, umit, correct_map, expected_ori) {
        Ok(found) => found,
        Err(e) => {
            return Err(e);
        },
    };
    let mut dumps: Vec<Vec<u8>> = Vec::new();
    let n: usize = found.len();
    let mut i: usize = 0;
    while i < n
        invariant
            i <= n,
            n == found@.len(),
            dumps@.len() <= i,
            forall|j: int| 0 <= j < dumps@.len() ==> finished_chunk((#[trigger] dumps@[j])@),
        decreases n - i,
    {
        match absorb_into_cache(output_cache, found[i].0, &found[i].1, bct, umit) {
            Some(Some(bytes)) => {
                dumps.push(bytes);
            },
            _ => {},
        }
        i += 1;
    }
    Ok(dumps)
}

} // verus!
