//! The sharder: routes the corrected records of a chunk to temporary
//! buckets through local buffers that are flushed at a limit.

use vstd::prelude::*;
use vstd::std_specs::hash::builds_valid_hashers;
use std::collections::HashMap;
use std::hash::BuildHasher;
use bio_types::strand::Strand;
use crate::cbchunk::wrapping_inc;
use crate::error::RadError;
use crate::primitive::RadIntId;
use crate::raw::{
    chunk_records, lemma_next_record_from, lemma_raw_record_parts, raw_records, scan_records,
    RawRecord,
};
use crate::record::{
    encode_record, filtered_refs, lemma_wire_entries_in_record, record_header_len, wire_entries,
    write_record, Chunk, ReadRecord,
};

verus! {

/// The counters of one temporary bucket. `bucket_id` is its place in the
/// table of buckets and in the table of local buffers.
#[derive(Clone, Copy, Debug, PartialEq, Eq, Structural)]
pub struct TempBucket {
    pub bucket_id: u32,
    pub num_chunks: u32,
    pub num_records: u32,
    pub num_records_written: u32,
    pub num_bytes_written: u64,
}

impl TempBucket {
    /// The bucket `bucket_id`, with nothing written to it yet.
    pub fn from_id(bucket_id: u32) -> (r: TempBucket)
        ensures
            r == (TempBucket {
                bucket_id,
                num_chunks: 0,
                num_records: 0,
                num_records_written: 0,
                num_bytes_written: 0,
            }),
    {
        TempBucket {
            bucket_id,
            num_chunks: 0,
            num_records: 0,
            num_records_written: 0,
            num_bytes_written: 0,
        }
    }
}

/// The decimal digits of `n`, as ASCII bytes.
pub open spec fn decimal_digits(n: nat) -> Seq<u8>
    decreases n,
{
    if n < 10 {
        seq![(48 + n) as u8]
    } else {
        decimal_digits(n / 10).push((48 + n % 10) as u8)
    }
}

/// The name of the file of the bucket `bucket_id`, as ASCII bytes:
/// `bucket_`, the bucket's number in decimal digits, and `.tmp`.
pub open spec fn bucket_file_name(bucket_id: u32) -> Seq<u8> {
    seq![98u8, 117, 99, 107, 101, 116, 95] + decimal_digits(bucket_id as nat) + seq![
        46u8,
        116,
        109,
        112,
    ]
}

impl TempBucket {
    /// The name of the file that holds the records of this bucket.
    pub fn file_name(&self) -> (name: Vec<u8>)
        ensures
            name@ == bucket_file_name(self.bucket_id),
    {
        let mut digits: Vec<u8> = Vec::new();
        let mut rest: u32 = self.bucket_id;
        // the digits from the last to the first
        while rest >= 10
            invariant
                decimal_digits(self.bucket_id as nat) == decimal_digits(rest as nat)
                    + digits@.reverse(),
            decreases rest,
        {
            let ghost before = digits@;
            digits.push(48 + (rest % 10) as u8);
            proof {
                assert(digits@.reverse() =~= seq![(48 + rest % 10) as u8] + before.reverse());
                assert(decimal_digits(rest as nat) + before.reverse() =~= decimal_digits(
                    (rest / 10) as nat,
                ) + digits@.reverse());
            }
            rest = rest / 10;
        }
        let mut name: Vec<u8> = Vec::new();
        name.push(98);
        name.push(117);
        name.push(99);
        name.push(107);
        name.push(101);
        name.push(116);
        name.push(95);
        name.push(48 + rest as u8);
        let ghost head = name@;
        let mut i: usize = digits.len();
        assert(digits@.reverse().take(0) =~= Seq::<u8>::empty());
        while i > 0
            invariant
                i <= digits@.len(),
                name@ == head + digits@.reverse().take(digits@.len() - i),
            decreases i,
        {
            i -= 1;
            name.push(digits[i]);
            assert(name@ =~= head + digits@.reverse().take(digits@.len() - i));
        }
        assert(digits@.reverse().take(digits@.len() as int) =~= digits@.reverse());
        name.push(46);
        name.push(116);
        name.push(109);
        name.push(112);
        assert(name@ =~= bucket_file_name(self.bucket_id));
        name
    }
}

/// The bucket `b` after one more record of `nbytes` bytes was written to
/// it. Both counters start again at 0 after their largest value.
pub open spec fn counted(b: TempBucket, nbytes: nat) -> TempBucket {
    TempBucket {
        bucket_id: b.bucket_id,
        num_chunks: b.num_chunks,
        num_records: b.num_records,
        num_records_written: wrapping_inc(b.num_records_written),
        num_bytes_written: ((b.num_bytes_written + nbytes) % 0x1_0000_0000_0000_0000) as u64,
    }
}

/// Where a record goes and what is written for it: for a record whose
/// barcode `correct` corrects, that keeps an alignment under the filter
/// `expected`, and for whose corrected barcode `cache` names a bucket, the
/// bucket and the record encoded with the corrected barcode and the kept
/// reference indices in ascending order. Any other record is dropped.
pub open spec fn routed(
    rec: RawRecord,
    correct: Map<u64, u64>,
    expected: Strand,
    cache: Map<u64, u32>,
    bct: RadIntId,
    umit: RadIntId,
) -> Option<(u32, Seq<u8>)> {
    if correct.contains_key(rec.bc) {
        let id = correct[rec.bc];
        let refs = filtered_refs(
            wire_entries(rec.bytes, record_header_len(bct, umit) as int, rec.na as nat),
            expected,
        );
        if refs.len() > 0 && cache.contains_key(id) {
            Some((cache[id], encode_record(id, rec.umi, refs, bct, umit)))
        } else {
            None
        }
    } else {
        None
    }
}

/// The state of the sharder: each bucket's local buffer and counters, and
/// the flushes made so far, each with its bucket and its bytes.
pub struct ShardView {
    pub buffers: Seq<Seq<u8>>,
    pub buckets: Seq<TempBucket>,
    pub flushes: Seq<(u32, Seq<u8>)>,
}

/// The sharder's state after one record. A dropped record changes nothing.
/// A routed one is appended to the local buffer of its bucket and counted;
/// where buffer and record together reach `flush_limit`, the buffer is
/// flushed first and starts again empty.
pub open spec fn shard_one(st: ShardView, w: Option<(u32, Seq<u8>)>, flush_limit: nat) -> ShardView {
    match w {
        None => st,
        Some((b, bytes)) => {
            let buf = st.buffers[b as int];
            let flush = buf.len() + bytes.len() >= flush_limit;
            ShardView {
                buffers: st.buffers.update(
                    b as int,
                    if flush {
                        bytes
                    } else {
                        buf + bytes
                    },
                ),
                buckets: st.buckets.update(b as int, counted(st.buckets[b as int], bytes.len())),
                flushes: if flush {
                    st.flushes.push((b, buf))
                } else {
                    st.flushes
                },
            }
        },
    }
}

/// The sharder's state after the records `ws`, taken in order.
pub open spec fn shard_all(st: ShardView, ws: Seq<Option<(u32, Seq<u8>)>>, flush_limit: nat) -> ShardView
    decreases ws.len(),
{
    if ws.len() == 0 {
        st
    } else {
        shard_one(shard_all(st, ws.drop_last(), flush_limit), ws.last(), flush_limit)
    }
}

/// Where each of the records `recs` goes, in order.
pub open spec fn routes(
    recs: Seq<RawRecord>,
    correct: Map<u64, u64>,
    expected: Strand,
    cache: Map<u64, u32>,
    bct: RadIntId,
    umit: RadIntId,
) -> Seq<Option<(u32, Seq<u8>)>> {
    Seq::new(recs.len(), |i: int| routed(recs[i], correct, expected, cache, bct, umit))
}

/// The local buffers as sequences of bytes.
pub open spec fn buffers_view(buffers: Seq<Vec<u8>>) -> Seq<Seq<u8>> {
    Seq::new(buffers.len(), |i: int| buffers[i]@)
}

/// The flushes as pairs of a bucket and its bytes.
pub open spec fn flushes_view(flushes: Seq<(u32, Vec<u8>)>) -> Seq<(u32, Seq<u8>)> {
    Seq::new(flushes.len(), |i: int| (flushes[i].0, flushes[i].1@))
}

/// Puts `new` in place of the `i`-th vector and returns the one that was
/// there.
fn replace_at(v: &mut Vec<Vec<u8>>, i: usize, new: Vec<u8>) -> (was: Vec<u8>)
    requires
        i < old(v)@.len(),
    ensures
        was == old(v)@[i as int],
        final(v)@ == old(v)@.update(i as int, new),
{
    v.push(new);
    let was = v.swap_remove(i);
    assert(v@ =~= old(v)@.update(i as int, new));
    was
}

/// The sum of the buckets' counters of bytes written.
pub open spec fn total_bytes_written(buckets: Seq<TempBucket>) -> nat
    decreases buckets.len(),
{
    if buckets.len() == 0 {
        0
    } else {
        total_bytes_written(buckets.drop_last()) + buckets.last().num_bytes_written as nat
    }
}

/// The sum of the sizes of the records that are routed to a bucket.
pub open spec fn routed_bytes(ws: Seq<Option<(u32, Seq<u8>)>>) -> nat
    decreases ws.len(),
{
    if ws.len() == 0 {
        0
    } else {
        routed_bytes(ws.drop_last()) + (match ws.last() {
            Some((_, bytes)) => bytes.len(),
            None => 0,
        })
    }
}

/// The bytes flushed for the bucket `b`, one flush after the other.
pub open spec fn flushed(flushes: Seq<(u32, Seq<u8>)>, b: u32) -> Seq<u8>
    decreases flushes.len(),
{
    if flushes.len() == 0 {
        Seq::empty()
    } else if flushes.last().0 == b {
        flushed(flushes.drop_last(), b) + flushes.last().1
    } else {
        flushed(flushes.drop_last(), b)
    }
}

/// The records routed to the bucket `b`, one after the other.
pub open spec fn routed_to(ws: Seq<Option<(u32, Seq<u8>)>>, b: u32) -> Seq<u8>
    decreases ws.len(),
{
    if ws.len() == 0 {
        Seq::empty()
    } else {
        routed_to(ws.drop_last(), b) + (match ws.last() {
            Some((to, bytes)) => if to == b {
                bytes
            } else {
                Seq::empty()
            },
            None => Seq::empty(),
        })
    }
}

/// Whether every record is routed to a bucket that exists.
pub open spec fn routes_in_range(ws: Seq<Option<(u32, Seq<u8>)>>, n: nat) -> bool {
    forall|i: int| 0 <= i < ws.len() ==> (#[trigger] ws[i] matches Some((b, _)) ==> b < n)
}

/// What changing one bucket does to the sum of the counters of bytes
/// written.
proof fn lemma_total_bytes_update(buckets: Seq<TempBucket>, b: int, new: TempBucket)
    requires
        0 <= b < buckets.len(),
    ensures
        total_bytes_written(buckets.update(b, new)) + buckets[b].num_bytes_written
            == total_bytes_written(buckets) + new.num_bytes_written,
        buckets[b].num_bytes_written <= total_bytes_written(buckets),
    decreases buckets.len(),
{
    let updated = buckets.update(b, new);
    if b == buckets.len() - 1 {
        assert(updated.drop_last() =~= buckets.drop_last());
    } else {
        lemma_total_bytes_update(buckets.drop_last(), b, new);
        assert(updated.drop_last() =~= buckets.drop_last().update(b, new));
    }
}

/// The sharder keeps the tables of buffers and buckets at their length.
pub proof fn lemma_shard_all_len(st: ShardView, ws: Seq<Option<(u32, Seq<u8>)>>, flush_limit: nat)
    requires
        st.buffers.len() == st.buckets.len(),
        routes_in_range(ws, st.buckets.len()),
    ensures
        shard_all(st, ws, flush_limit).buffers.len() == st.buffers.len(),
        shard_all(st, ws, flush_limit).buckets.len() == st.buckets.len(),
    decreases ws.len(),
{
    if ws.len() > 0 {
        assert(routes_in_range(ws.drop_last(), st.buckets.len())) by {
            assert forall|i: int| 0 <= i < ws.drop_last().len() implies (#[trigger] ws.drop_last()[i]
                matches Some((b, _)) ==> b < st.buckets.len()) by {
                assert(ws.drop_last()[i] == ws[i]);
            }
        }
        lemma_shard_all_len(st, ws.drop_last(), flush_limit);
    }
}

/// Byte accounting of the sharder: the buckets' counters of bytes written
/// grow, taken together, by the sizes of the records that were routed to a
/// bucket. Stated for counters that do not pass their largest value.
pub proof fn lemma_bytes_written_accounted(
    st: ShardView,
    ws: Seq<Option<(u32, Seq<u8>)>>,
    flush_limit: nat,
)
    requires
        st.buffers.len() == st.buckets.len(),
        routes_in_range(ws, st.buckets.len()),
        total_bytes_written(st.buckets) + routed_bytes(ws) <= u64::MAX,
    ensures
        total_bytes_written(shard_all(st, ws, flush_limit).buckets) == total_bytes_written(
            st.buckets,
        ) + routed_bytes(ws),
    decreases ws.len(),
{
    if ws.len() > 0 {
        let n = st.buckets.len();
        assert(routes_in_range(ws.drop_last(), n)) by {
            assert forall|i: int| 0 <= i < ws.drop_last().len() implies (#[trigger] ws.drop_last()[i]
                matches Some((b, _)) ==> b < n) by {
                assert(ws.drop_last()[i] == ws[i]);
            }
        }
        lemma_bytes_written_accounted(st, ws.drop_last(), flush_limit);
        lemma_shard_all_len(st, ws.drop_last(), flush_limit);
        let mid = shard_all(st, ws.drop_last(), flush_limit);
        match ws.last() {
            Some((b, bytes)) => {
                assert(ws[ws.len() - 1] == ws.last());
                let new = counted(mid.buckets[b as int], bytes.len());
                lemma_total_bytes_update(mid.buckets, b as int, new);
                vstd::arithmetic::div_mod::lemma_small_mod(
                    (mid.buckets[b as int].num_bytes_written + bytes.len()) as nat,
                    0x1_0000_0000_0000_0000,
                );
            },
            None => {},
        }
    }
}

/// Nothing is lost and nothing changes its order on the way to a bucket:
/// what was flushed for the bucket, followed by what its local buffer
/// holds, is what was there before followed by the records routed to the
/// bucket, in their order. So every flush ends at the end of a record
/// where the local buffers did at the start.
pub proof fn lemma_bucket_stream(
    st: ShardView,
    ws: Seq<Option<(u32, Seq<u8>)>>,
    flush_limit: nat,
    b: u32,
)
    requires
        st.buffers.len() == st.buckets.len(),
        routes_in_range(ws, st.buckets.len()),
        b < st.buckets.len(),
    ensures
        flushed(shard_all(st, ws, flush_limit).flushes, b) + shard_all(
            st,
            ws,
            flush_limit,
        ).buffers[b as int] == flushed(st.flushes, b) + st.buffers[b as int] + routed_to(ws, b),
    decreases ws.len(),
{
    if ws.len() == 0 {
        assert(flushed(st.flushes, b) + st.buffers[b as int] + routed_to(ws, b) =~= flushed(
            st.flushes,
            b,
        ) + st.buffers[b as int]);
    } else {
        let n = st.buckets.len();
        assert(routes_in_range(ws.drop_last(), n)) by {
            assert forall|i: int| 0 <= i < ws.drop_last().len() implies (#[trigger] ws.drop_last()[i]
                matches Some((to, _)) ==> to < n) by {
                assert(ws.drop_last()[i] == ws[i]);
            }
        }
        lemma_bucket_stream(st, ws.drop_last(), flush_limit, b);
        lemma_shard_all_len(st, ws.drop_last(), flush_limit);
        let mid = shard_all(st, ws.drop_last(), flush_limit);
        let end = shard_all(st, ws, flush_limit);
        let sofar = flushed(st.flushes, b) + st.buffers[b as int] + routed_to(ws.drop_last(), b);
        match ws.last() {
            Some((to, bytes)) => {
                assert(ws[ws.len() - 1] == ws.last());
                let buf = mid.buffers[to as int];
                if buf.len() + bytes.len() >= flush_limit {
                    assert(end.flushes.drop_last() =~= mid.flushes);
                }
                if to == b {
                    assert(flushed(end.flushes, b) + end.buffers[b as int] =~= (flushed(
                        mid.flushes,
                        b,
                    ) + mid.buffers[b as int]) + bytes);
                    assert(sofar + bytes =~= flushed(st.flushes, b) + st.buffers[b as int]
                        + routed_to(ws, b));
                } else {
                    assert(flushed(end.flushes, b) + end.buffers[b as int] =~= flushed(
                        mid.flushes,
                        b,
                    ) + mid.buffers[b as int]);
                    assert(sofar =~= flushed(st.flushes, b) + st.buffers[b as int] + routed_to(
                        ws,
                        b,
                    ));
                }
            },
            None => {
                assert(sofar =~= flushed(st.flushes, b) + st.buffers[b as int] + routed_to(ws, b));
            },
        }
    }
}

/// What is written for a routed record takes the bytes that the format
/// gives a record with the kept alignments.
pub proof fn lemma_routed_size(
    rec: RawRecord,
    correct: Map<u64, u64>,
    expected: Strand,
    cache: Map<u64, u32>,
    bct: RadIntId,
    umit: RadIntId,
)
    ensures
        routed(rec, correct, expected, cache, bct, umit) matches Some((_, bytes)) ==> bytes.len()
            == crate::record::record_bytes(
            filtered_refs(
                wire_entries(rec.bytes, record_header_len(bct, umit) as int, rec.na as nat),
                expected,
            ).len(),
            bct,
            umit,
        ),
{
    if correct.contains_key(rec.bc) {
        crate::record::lemma_encode_record_len(
            correct[rec.bc],
            rec.umi,
            filtered_refs(
                wire_entries(rec.bytes, record_header_len(bct, umit) as int, rec.na as nat),
                expected,
            ),
            bct,
            umit,
        );
    }
}

/// The sharder's state as the three tables hold it.
pub open spec fn shard_state(
    buffers: Seq<Vec<u8>>,
    buckets: Seq<TempBucket>,
    flushes: Seq<(u32, Vec<u8>)>,
) -> ShardView {
    ShardView { buffers: buffers_view(buffers), buckets, flushes: flushes_view(flushes) }
}

/// Writes one encoded record to the bucket `b`: flushes the bucket's local
/// buffer first where buffer and record together reach `flush_limit`,
/// appends the record to the buffer, and counts it.
fn shard_write(
    b: u32,
    encoded: Vec<u8>,
    buckets: &mut Vec<TempBucket>,
    local_buffers: &mut Vec<Vec<u8>>,
    flushes: &mut Vec<(u32, Vec<u8>)>,
    flush_limit: usize,
)
    requires
        b < old(buckets)@.len(),
        old(buckets)@.len() == old(local_buffers)@.len(),
    ensures
        final(buckets)@.len() == final(local_buffers)@.len(),
        final(buckets)@.len() == old(buckets)@.len(),
        shard_state(final(local_buffers)@, final(buckets)@, final(flushes)@) == shard_one(
            shard_state(old(local_buffers)@, old(buckets)@, old(flushes)@),
            Some((b, encoded@)),
            flush_limit as nat,
        ),
{
    let ghost st = shard_state(local_buffers@, buckets@, flushes@);
    let ghost bytes = encoded@;
    let i: usize = b as usize;
    let nb: usize = encoded.len();
    let mut buf = replace_at(local_buffers, i, Vec::new());
    let len: usize = buf.len();
    if nb >= flush_limit || len >= flush_limit - nb {
        flushes.push((b, buf));
        buf = encoded;
    } else {
        buf.extend_from_slice(encoded.as_slice());
        assert(buf@ =~= st.buffers[b as int] + bytes);
    }
    let ghost stored = buf;
    replace_at(local_buffers, i, buf);
    let bucket = buckets[i];
    buckets[i] = TempBucket {
        bucket_id: bucket.bucket_id,
        num_chunks: bucket.num_chunks,
        num_records: bucket.num_records,
        num_records_written: if bucket.num_records_written == u32::MAX {
            0
        } else {
            bucket.num_records_written + 1
        },
        num_bytes_written: bucket.num_bytes_written.wrapping_add(nb as u64),
    };
    proof {
        let want = shard_one(st, Some((b, bytes)), flush_limit as nat);
        assert(buckets@[b as int].num_bytes_written == counted(
            st.buckets[b as int],
            bytes.len(),
        ).num_bytes_written) by {
            lemma_wrapping_add_u64(bucket.num_bytes_written, nb as u64);
        }
        assert(buckets@ =~= want.buckets);
        assert(buffers_view(local_buffers@) =~= want.buffers);
        assert(flushes_view(flushes@) =~= want.flushes);
    }
}

/// What `wrapping_add` gives for 64-bit integers, as a remainder.
proof fn lemma_wrapping_add_u64(a: u64, b: u64)
    ensures
        a.wrapping_add(b) == ((a + b) % 0x1_0000_0000_0000_0000) as u64,
{
    let m = 0x1_0000_0000_0000_0000int;
    if a + b < m {
        vstd::arithmetic::div_mod::lemma_small_mod((a + b) as nat, m as nat);
    } else {
        vstd::arithmetic::div_mod::lemma_fundamental_div_mod_converse(a + b, m, 1, a + b - m);
    }
}

/// Reads the chunk at `*pos` and routes its records to the temporary
/// buckets. A record whose barcode `correct_map` corrects is decoded, its
/// alignments filtered by `expected_ori`; unless it is empty then, or
/// `output_cache` names no bucket for the corrected barcode, it is encoded
/// with the corrected barcode and appended to the local buffer of that
/// bucket, and counted in the bucket's counters. Before a record would
/// bring a local buffer to `flush_limit` bytes or beyond, the buffer's
/// content is flushed and the buffer starts again empty. All other
/// records are passed over.
///
/// Returned are the flushes, each with its bucket and its bytes, in the
/// order in which they are to be appended to the buckets' files.
///
/// The input is checked first: where it ends inside the chunk the call
/// fails with `ShortRead`, and nothing was read or changed.
pub fn dump_corrected_cb_chunk_to_temp_file<S1: BuildHasher, S2: BuildHasher>(
    input: &[u8],
    pos: &mut usize,
    bct: &RadIntId,
    umit: &RadIntId,
    correct_map: &HashMap<u64, u64, S1>,
    expected_ori: &Strand,
    output_cache: &HashMap<u64, u32, S2>,
    buckets: &mut Vec<TempBucket>,
    local_buffers: &mut Vec<Vec<u8>>,
    flush_limit: usize,
) -> (r: Result<Vec<(u32, Vec<u8>)>, RadError>)
    requires
        builds_valid_hashers::<S1>(),
        builds_valid_hashers::<S2>(),
        old(buckets)@.len() == old(local_buffers)@.len(),
        forall|id: u64| #[trigger]
            output_cache@.contains_key(id) ==> output_cache@[id] < old(buckets)@.len(),
    ensures
        match chunk_records(input@, *old(pos) as int, *bct, *umit) {
            Some((recs, end)) => {
                &&& r matches Ok(flushes)
                &&& *final(pos) == end
                &&& shard_state(final(local_buffers)@, final(buckets)@, flushes@) == shard_all(
                    shard_state(old(local_buffers)@, old(buckets)@, Seq::empty()),
                    routes(recs, correct_map@, *expected_ori, output_cache@, *bct, *umit),
                    flush_limit as nat,
                )
            },
            None => {
                &&& r matches Err(RadError::ShortRead)
                &&& *final(pos) == *old(pos)
                &&& final(local_buffers)@ == old(local_buffers)@
                &&& final(buckets)@ == old(buckets)@
            },
        },
{
    let start: usize = *pos;
    let (_nbytes, nrec) = match Chunk::read_header(input, pos) {
        Ok(t) => t,
        Err(e) => {
            return Err(e);
        },
    };
    let first: usize = *pos;
    let _len: usize = input.len();
    let end: usize = match scan_records(input, first, bct, umit, nrec) {
        Ok(end) => end,
        Err(e) => {
            *pos = start;
            return Err(e);
        },
    };
    let ghost all = raw_records(input@, first as int, nrec as nat, *bct, *umit).unwrap().0;
    let ghost ws = routes(all, correct_map@, *expected_ori, output_cache@, *bct, *umit);
    let ghost st0 = shard_state(local_buffers@, buckets@, Seq::empty());
    let mut flushes: Vec<(u32, Vec<u8>)> = Vec::new();
    let mut at: usize = first;
    let mut k: u32 = 0;
    proof {
        crate::raw::lemma_raw_records_prefix(input@, first as int, 0, nrec as nat, *bct, *umit);
        assert(ws.take(0) =~= Seq::empty());
        assert(flushes_view(flushes@) =~= Seq::empty());
    }
    while k < nrec
        invariant
            k <= nrec,
            input@.len() <= usize::MAX,
            builds_valid_hashers::<S1>(),
            builds_valid_hashers::<S2>(),
            raw_records(input@, first as int, nrec as nat, *bct, *umit) == Some((all, end as int)),
            raw_records(input@, first as int, k as nat, *bct, *umit) == Some(
                (all.take(k as int), at as int),
            ),
            ws == routes(all, correct_map@, *expected_ori, output_cache@, *bct, *umit),
            all.len() == nrec,
            buckets@.len() == local_buffers@.len(),
            buckets@.len() == old(buckets)@.len(),
            forall|id: u64| #[trigger]
                output_cache@.contains_key(id) ==> output_cache@[id] < buckets@.len(),
            shard_state(local_buffers@, buckets@, flushes@) == shard_all(
                st0,
                ws.take(k as int),
                flush_limit as nat,
            ),
        decreases nrec - k,
    {
        let ghost rec = all[k as int];
        let ghost before = shard_state(local_buffers@, buckets@, flushes@);
        proof {
            lemma_next_record_from(
                input@,
                first as int,
                k as nat,
                nrec as nat,
                *bct,
                *umit,
                all,
                at as int,
            );
            lemma_raw_record_parts(input@, at as int, *bct, *umit);
            lemma_wire_entries_in_record(
                input@,
                at as int,
                at + rec.bytes.len(),
                record_header_len(*bct, *umit) as int,
                rec.na as nat,
            );
            assert(ws.take(k + 1).drop_last() =~= ws.take(k as int));
            assert(ws.take(k + 1).last() == routed(
                rec,
                correct_map@,
                *expected_ori,
                output_cache@,
                *bct,
                *umit,
            ));
        }
        let (bc, umi, na) = match ReadRecord::from_bytes_record_header(input, &mut at, bct, umit) {
            Ok(t) => t,
            Err(e) => {
                *pos = start;
                return Err(e);
            },
        };
        let found: Option<u64> = match correct_map.get(&bc) {
            Some(id) => Some(*id),
            None => None,
        };
        match found {
            Some(corrected_id) => {
                let rr = match ReadRecord::from_bytes_with_header_keep_ori(
                    input,
                    &mut at,
                    bc,
                    umi,
                    na,
                    expected_ori,
                ) {
                    Ok(rr) => rr,
                    Err(e) => {
                        *pos = start;
                        return Err(e);
                    },
                };
                let bucket: Option<u32> = if rr.is_empty() {
                    None
                } else {
                    match output_cache.get(&corrected_id) {
                        Some(b) => Some(*b),
                        None => None,
                    }
                };
                match bucket {
                    Some(b) => {
                        let mut encoded: Vec<u8> = Vec::new();
                        write_record(corrected_id, rr.umi, &rr.refs, bct, umit, &mut encoded);
                        assert(encoded@ =~= encode_record(
                            corrected_id,
                            rr.umi,
                            rr.refs@,
                            *bct,
                            *umit,
                        ));
                        shard_write(b, encoded, buckets, local_buffers, &mut flushes, flush_limit);
                    },
                    None => {},
                }
            },
            None => {
                at = at + 4 * (na as usize);
            },
        }
        k += 1;
    }
    assert(ws.take(nrec as int) =~= ws);
    *pos = at;
    Ok(flushes)
}

} // verus!
