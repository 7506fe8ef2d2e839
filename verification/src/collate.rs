//! The two-pass collator: from records in any order to one chunk for each
//! barcode, written into a single buffer of the right size.

use vstd::prelude::*;
use std::collections::HashMap;
use crate::cells::{
    cell_bytes, cell_count, cell_reads, cell_size, first_seen, lemma_absent_cell_is_empty,
    lemma_cell_bytes_sized, lemma_cell_bytes_take, lemma_cell_count_bound, lemma_cell_parses,
    lemma_first_seen, lemma_push_record,
};
use crate::error::RadError;
use crate::primitive::{
    holds_at, le_bytes, lemma_holds_at_split, lemma_le_bytes_len, lemma_pow256_values,
    lemma_read_le_of_bytes, write_u32, RadIntId,
};
use crate::raw::{
    lemma_next_record, lemma_raw_records_prefix, lemma_raw_records_stays_none, raw_record,
    raw_records, records_decodable, records_sized, skip_record, RawRecord,
};
use crate::record::{parse_chunk, record_bytes, ChunkView};

verus! {

/// The chunk of the barcode `cb`: a header of its size in bytes (itself
/// included) and its record count, then its records.
pub open spec fn cell_chunk(recs: Seq<RawRecord>, cb: u64) -> Seq<u8> {
    le_bytes(8 + cell_bytes(recs, cb).len(), 4) + le_bytes(cell_count(recs, cb), 4) + cell_bytes(
        recs,
        cb,
    )
}

/// The chunks of the barcodes `cbs`, one after the other.
pub open spec fn chunks_of(recs: Seq<RawRecord>, cbs: Seq<u64>) -> Seq<u8>
    decreases cbs.len(),
{
    if cbs.len() == 0 {
        Seq::empty()
    } else {
        chunks_of(recs, cbs.drop_last()) + cell_chunk(recs, cbs.last())
    }
}

/// The collated form of `recs`: one chunk for each distinct barcode, in the
/// order in which the barcodes are first seen.
pub open spec fn collated(recs: Seq<RawRecord>) -> Seq<u8> {
    chunks_of(recs, first_seen(recs))
}

/// Whether the size of every barcode's chunk fits the 32-bit field of its
/// header.
pub open spec fn cells_fit(recs: Seq<RawRecord>) -> bool {
    forall|cb: u64| 8 + (#[trigger] cell_bytes(recs, cb)).len() <= u32::MAX
}

/// Whether the collated form of `recs` can be held: each chunk's size fits
/// its header field, and the whole fits in memory.
pub open spec fn collatable(recs: Seq<RawRecord>) -> bool {
    cells_fit(recs) && collated(recs).len() <= usize::MAX
}

/// Where the `j`-th chunk starts in the collated output.
pub open spec fn chunk_start(recs: Seq<RawRecord>, cbs: Seq<u64>, j: int) -> int {
    chunks_of(recs, cbs.take(j)).len() as int
}

/// The header of the chunk of `cb`: its size in bytes and its record count.
pub open spec fn cell_header(recs: Seq<RawRecord>, cb: u64) -> Seq<u8> {
    le_bytes(8 + cell_bytes(recs, cb).len(), 4) + le_bytes(cell_count(recs, cb), 4)
}

/// A chunk takes eight bytes more than its records.
pub proof fn lemma_cell_chunk_len(recs: Seq<RawRecord>, cb: u64)
    ensures
        cell_chunk(recs, cb).len() == 8 + cell_bytes(recs, cb).len(),
{
    lemma_le_bytes_len(8 + cell_bytes(recs, cb).len(), 4);
    lemma_le_bytes_len(cell_count(recs, cb), 4);
}

/// Chunk starts ascend, each chunk ending where the next one starts.
pub proof fn lemma_chunk_start_step(recs: Seq<RawRecord>, cbs: Seq<u64>, j: int)
    requires
        0 <= j < cbs.len(),
    ensures
        chunk_start(recs, cbs, j + 1) == chunk_start(recs, cbs, j) + 8 + cell_bytes(
            recs,
            cbs[j],
        ).len(),
        chunks_of(recs, cbs.take(j + 1)) == chunks_of(recs, cbs.take(j)) + cell_chunk(
            recs,
            cbs[j],
        ),
{
    assert(cbs.take(j + 1).drop_last() =~= cbs.take(j));
    lemma_cell_chunk_len(recs, cbs[j]);
}

/// A later chunk starts no earlier than an earlier one.
pub proof fn lemma_chunk_start_ascends(recs: Seq<RawRecord>, cbs: Seq<u64>, i: int, j: int)
    requires
        0 <= i <= j <= cbs.len(),
    ensures
        chunk_start(recs, cbs, i) <= chunk_start(recs, cbs, j),
    decreases j - i,
{
    if i < j {
        lemma_chunk_start_ascends(recs, cbs, i, j - 1);
        lemma_chunk_start_step(recs, cbs, j - 1);
    }
}

/// The chunks of the first `j` barcodes are the start of the chunks of all.
pub proof fn lemma_chunks_prefix(recs: Seq<RawRecord>, cbs: Seq<u64>, j: int)
    requires
        0 <= j <= cbs.len(),
    ensures
        chunks_of(recs, cbs.take(j)).len() <= chunks_of(recs, cbs).len(),
        chunks_of(recs, cbs).subrange(0, chunks_of(recs, cbs.take(j)).len() as int) == chunks_of(
            recs,
            cbs.take(j),
        ),
    decreases cbs.len(),
{
    if j == cbs.len() {
        assert(cbs.take(j) =~= cbs);
        assert(chunks_of(recs, cbs).subrange(0, chunks_of(recs, cbs).len() as int) =~= chunks_of(
            recs,
            cbs,
        ));
    } else {
        lemma_chunks_prefix(recs, cbs.drop_last(), j);
        assert(cbs.drop_last().take(j) =~= cbs.take(j));
        let shorter = chunks_of(recs, cbs.drop_last());
        let k = chunks_of(recs, cbs.take(j)).len() as int;
        assert(chunks_of(recs, cbs).subrange(0, k) =~= shorter.subrange(0, k));
    }
}

/// The chunk of the `j`-th barcode lies at its place in the chunks of all.
pub proof fn lemma_chunk_lies_at(recs: Seq<RawRecord>, cbs: Seq<u64>, j: int)
    requires
        0 <= j < cbs.len(),
    ensures
        holds_at(chunks_of(recs, cbs), chunk_start(recs, cbs, j), cell_chunk(recs, cbs[j])),
        chunk_start(recs, cbs, j + 1) == chunk_start(recs, cbs, j) + cell_chunk(recs, cbs[j]).len(),
{
    let first = chunk_start(recs, cbs, j);
    let end = chunk_start(recs, cbs, j + 1);
    lemma_chunk_start_step(recs, cbs, j);
    lemma_chunks_prefix(recs, cbs, j + 1);
    lemma_cell_chunk_len(recs, cbs[j]);
    let upto = chunks_of(recs, cbs.take(j + 1));
    assert(upto.subrange(first, end) =~= cell_chunk(recs, cbs[j]));
    assert(chunks_of(recs, cbs).subrange(first, end) =~= upto.subrange(first, end));
}

/// Scratch data of the two-pass collator for one barcode: while sizes are
/// taken, the bytes and records counted so far; while records are written,
/// the position at which the barcode's next record goes.
#[derive(Clone, Copy, Debug)]
pub struct TempCellInfo {
    pub offset: u64,
    pub nbytes: u32,
    pub nrec: u32,
}

/// Overwrites `n` bytes of `out` from position `at` on with the `n` bytes
/// of `src` from position `from` on.
pub fn copy_bytes_into(out: &mut Vec<u8>, at: usize, src: &[u8], from: usize, n: usize)
    requires
        at + n <= old(out)@.len(),
        from + n <= src@.len(),
    ensures
        final(out)@ == old(out)@.subrange(0, at as int) + src@.subrange(
            from as int,
            from + n,
        ) + old(out)@.subrange(at + n, old(out)@.len() as int),
{
    let _src_len: usize = src.len();
    let _out_len: usize = out.len();
    let mut i: usize = 0;
    while i < n
        invariant
            i <= n,
            at + n <= out@.len() <= usize::MAX,
            from + n <= src@.len() <= usize::MAX,
            out@.len() == old(out)@.len(),
            out@ == old(out)@.subrange(0, at as int) + src@.subrange(from as int, from + i)
                + old(out)@.subrange(at + i, old(out)@.len() as int),
        decreases n - i,
    {
        let b: u8 = src[from + i];
        out[at + i] = b;
        i += 1;
        assert(out@ =~= old(out)@.subrange(0, at as int) + src@.subrange(from as int, from + i)
            + old(out)@.subrange(at + i, old(out)@.len() as int));
    }
    assert(out@ =~= old(out)@.subrange(0, at as int) + src@.subrange(from as int, from + n)
        + old(out)@.subrange(at + n, old(out)@.len() as int));
}

/// The barcodes seen so far, in the order in which they were first seen,
/// with the scratch data of each and an index from barcode to position.
struct CellTable {
    cbs: Vec<u64>,
    cells: Vec<TempCellInfo>,
    index: HashMap<u64, usize>,
}

impl CellTable {
    /// The index maps each barcode of the table to its position, and
    /// nothing else.
    spec fn indexed(&self) -> bool {
        &&& self.cells@.len() == self.cbs@.len()
        &&& forall|j: int|
            0 <= j < self.cbs@.len() ==> self.index@.contains_key(#[trigger] self.cbs@[j])
                && self.index@[self.cbs@[j]] == j
        &&& forall|cb: u64| #[trigger]
            self.index@.contains_key(cb) ==> self.index@[cb] < self.cbs@.len()
                && self.cbs@[self.index@[cb] as int] == cb
    }

    /// The table holds the barcodes of `recs` with the size and record
    /// count of each one's chunk.
    spec fn sized_for(&self, recs: Seq<RawRecord>) -> bool {
        &&& self.indexed()
        &&& self.cbs@ == first_seen(recs)
        &&& forall|j: int|
            0 <= j < self.cbs@.len() ==> (#[trigger] self.cells@[j]).nbytes == 8 + cell_bytes(
                recs,
                self.cbs@[j],
            ).len() && self.cells@[j].nrec == cell_count(recs, self.cbs@[j])
    }
}

impl CellTable {
    /// Every chunk of `out` holds its header and its records among `done`.
    spec fn filled(&self, out: Seq<u8>, recs: Seq<RawRecord>, done: Seq<RawRecord>) -> bool {
        forall|j: int|
            0 <= j < self.cbs@.len() ==> cell_filled(
                out,
                recs,
                done,
                self.cbs@,
                j,
                (#[trigger] self.cells@[j]).offset as int,
            )
    }
}

/// First pass of the two-pass collator: reads the fixed part of each of the
/// `nrec` records in `input`, skips its alignment entries, and adds the
/// record's size to the chunk of its barcode.
#[verifier::rlimit(30)]
fn size_cells(input: &[u8], bct: &RadIntId, umit: &RadIntId, nrec: u32) -> (r: Result<
    CellTable,
    RadError,
>)
    ensures
        match raw_records(input@, 0, nrec as nat, *bct, *umit) {
            None => r matches Err(RadError::ShortRead),
            Some((recs, _)) => if cells_fit(recs) {
                r matches Ok(t) && t.sized_for(recs)
            } else {
                r matches Err(RadError::MalformedRecord)
            },
        },
{
    let len: usize = input.len();
    let mut table = CellTable { cbs: Vec::new(), cells: Vec::new(), index: HashMap::new() };
    let mut pos: usize = 0;
    let mut too_large: bool = false;
    let ghost mut recs: Seq<RawRecord> = Seq::empty();
    let ghost mut witness: u64 = 0;
    let mut k: u32 = 0;
    while k < nrec
        invariant
            k <= nrec,
            len == input@.len(),
            pos <= len,
            recs.len() == k,
            raw_records(input@, 0, k as nat, *bct, *umit) == Some((recs, pos as int)),
            !too_large ==> table.sized_for(recs),
            too_large ==> 8 + cell_bytes(recs, witness).len() > u32::MAX,
        decreases nrec - k,
    {
        let start: usize = pos;
        let (bc, umi, na) = match skip_record(input, &mut pos, bct, umit) {
            Ok(t) => t,
            Err(e) => {
                proof {
                    assert(raw_records(input@, 0, (k + 1) as nat, *bct, *umit) is None);
                    lemma_raw_records_stays_none(
                        input@,
                        0,
                        (k + 1) as nat,
                        nrec as nat,
                        *bct,
                        *umit,
                    );
                }
                return Err(e);
            },
        };
        let rec_len: usize = pos - start;
        let ghost rec = raw_record(input@, start as int, *bct, *umit).unwrap();
        proof {
            lemma_first_seen(recs);
            lemma_cell_count_bound(recs, bc);
            lemma_push_record(recs, rec, bc);
        }
        let ghost grown = recs.push(rec);
        if !too_large {
            let found: Option<usize> = match table.index.get(&bc) {
                Some(j) => Some(*j),
                None => None,
            };
            match found {
                Some(j) => {
                    assert(table.cbs@[j as int] == bc);
                    let cell = table.cells[j];
                    if rec_len > (u32::MAX - cell.nbytes) as usize {
                        too_large = true;
                        proof {
                            witness = bc;
                        }
                    } else {
                        table.cells[j] = TempCellInfo {
                            offset: cell.offset,
                            nbytes: cell.nbytes + rec_len as u32,
                            nrec: cell.nrec + 1,
                        };
                        assert(table.sized_for(grown)) by {
                            assert forall|i: int| 0 <= i < table.cbs@.len() implies (
                            #[trigger] table.cells@[i]).nbytes == 8 + cell_bytes(
                                grown,
                                table.cbs@[i],
                            ).len() && table.cells@[i].nrec == cell_count(grown, table.cbs@[i]) by {
                                lemma_push_record(recs, rec, table.cbs@[i]);
                                if i != j {
                                    assert(table.cbs@[i] != bc);
                                }
                            }
                        }
                    }
                },
                None => {
                    proof {
                        lemma_absent_cell_is_empty(recs, bc);
                    }
                    if rec_len > (u32::MAX - 8) as usize {
                        too_large = true;
                        proof {
                            witness = bc;
                        }
                    } else {
                        let j: usize = table.cbs.len();
                        let ghost before = table;
                        table.cbs.push(bc);
                        table.cells.push(
                            TempCellInfo { offset: 0, nbytes: 8 + rec_len as u32, nrec: 1 },
                        );
                        table.index.insert(bc, j);
                        assert(table.sized_for(grown)) by {
                            assert forall|i: int| 0 <= i < table.cbs@.len() implies (
                            #[trigger] table.cells@[i]).nbytes == 8 + cell_bytes(
                                grown,
                                table.cbs@[i],
                            ).len() && table.cells@[i].nrec == cell_count(grown, table.cbs@[i]) by {
                                lemma_push_record(recs, rec, table.cbs@[i]);
                                if i < j {
                                    assert(table.cbs@[i] == before.cbs@[i]);
                                    assert(before.index@.contains_key(before.cbs@[i]));
                                    assert(table.cells@[i] == before.cells@[i]);
                                }
                            }
                            assert forall|i: int| 0 <= i < table.cbs@.len() implies
                                table.index@.contains_key(#[trigger] table.cbs@[i])
                                && table.index@[table.cbs@[i]] == i by {
                                if i < j {
                                    assert(table.cbs@[i] == before.cbs@[i]);
                                    assert(before.index@.contains_key(before.cbs@[i]));
                                }
                            }
                            assert forall|cb: u64| #[trigger]
                                table.index@.contains_key(cb) implies table.index@[cb]
                                < table.cbs@.len() && table.cbs@[table.index@[cb] as int] == cb by {
                                if cb != bc {
                                    assert(before.index@.contains_key(cb));
                                }
                            }
                        }
                    }
                },
            }
        } else {
            proof {
                lemma_push_record(recs, rec, witness);
            }
        }
        proof {
            recs = grown;
        }
        k += 1;
    }
    if too_large {
        Err(RadError::MalformedRecord)
    } else {
        proof {
            assert forall|cb: u64| 8 + (#[trigger] cell_bytes(recs, cb)).len() <= u32::MAX by {
                if first_seen(recs).contains(cb) {
                    let j = choose|j: int| 0 <= j < table.cbs@.len() && table.cbs@[j] == cb;
                    assert(table.cells@[j].nbytes == 8 + cell_bytes(recs, cb).len());
                } else {
                    lemma_absent_cell_is_empty(recs, cb);
                }
            }
        }
        Ok(table)
    }
}

/// The `j`-th chunk of `out` holds its header and, behind it, the records
/// of its barcode among `done`; `cursor` is where its next record goes.
#[verifier::opaque]
spec fn cell_filled(
    out: Seq<u8>,
    recs: Seq<RawRecord>,
    done: Seq<RawRecord>,
    cbs: Seq<u64>,
    j: int,
    cursor: int,
) -> bool {
    let start = chunk_start(recs, cbs, j);
    &&& cursor == start + 8 + cell_bytes(done, cbs[j]).len()
    &&& cursor <= out.len()
    &&& out.subrange(start, start + 8) == cell_header(recs, cbs[j])
    &&& out.subrange(start + 8, cursor) == cell_bytes(done, cbs[j])
}

/// Between the passes: gives each chunk its place in one buffer of the
/// whole output's size, writes the chunk headers, and sets each barcode's
/// cursor behind its header.
fn lay_out(table: &mut CellTable, Ghost(recs): Ghost<Seq<RawRecord>>) -> (r: Result<
    Vec<u8>,
    RadError,
>)
    requires
        old(table).sized_for(recs),
    ensures
        final(table).sized_for(recs),
        match r {
            Ok(out) => collated(recs).len() <= usize::MAX && out@.len() == collated(recs).len()
                && final(table).filled(out@, recs, Seq::empty()),
            Err(e) => e == RadError::MalformedRecord && collated(recs).len() > usize::MAX,
        },
{
    let n: usize = table.cbs.len();
    let ghost cbs = table.cbs@;
    let mut total: usize = 0;
    let mut j: usize = 0;
    while j < n
        invariant
            j <= n,
            n == cbs.len(),
            cbs == table.cbs@,
            table.sized_for(recs),
            total == chunk_start(recs, cbs, j as int),
        decreases n - j,
    {
        let nbytes: usize = table.cells[j].nbytes as usize;
        proof {
            lemma_chunk_start_step(recs, cbs, j as int);
        }
        if nbytes > usize::MAX - total {
            proof {
                lemma_chunk_start_ascends(recs, cbs, j + 1, n as int);
                assert(cbs.take(n as int) =~= cbs);
            }
            return Err(RadError::MalformedRecord);
        }
        total = total + nbytes;
        j += 1;
    }
    assert(cbs.take(n as int) =~= cbs);
    let mut out: Vec<u8> = vec![0u8; total];
    let mut next: usize = 0;
    let mut j: usize = 0;
    while j < n
        invariant
            j <= n,
            n == cbs.len(),
            cbs == table.cbs@,
            table.sized_for(recs),
            out@.len() == total,
            total == chunk_start(recs, cbs, n as int),
            next == chunk_start(recs, cbs, j as int),
            forall|i: int|
                0 <= i < j ==> cell_filled(
                    out@,
                    recs,
                    Seq::empty(),
                    cbs,
                    i,
                    (#[trigger] table.cells@[i]).offset as int,
                ),
        decreases n - j,
    {
        let cell = table.cells[j];
        let mut header: Vec<u8> = Vec::new();
        write_u32(cell.nbytes, &mut header);
        write_u32(cell.nrec, &mut header);
        proof {
            lemma_chunk_start_step(recs, cbs, j as int);
            lemma_chunk_start_ascends(recs, cbs, j + 1, n as int);
            lemma_le_bytes_len(cell.nbytes as nat, 4);
            lemma_le_bytes_len(cell.nrec as nat, 4);
            assert(header@ == cell_header(recs, cbs[j as int]));
        }
        let ghost before = out@;
        let ghost cells_before = table.cells@;
        copy_bytes_into(&mut out, next, header.as_slice(), 0, 8);
        table.cells[j] = TempCellInfo {
            offset: (next + 8) as u64,
            nbytes: cell.nbytes,
            nrec: cell.nrec,
        };
        proof {
            reveal(cell_filled);
            assert(header@.subrange(0, 8) =~= header@);
            assert forall|i: int| 0 <= i < j + 1 implies cell_filled(
                out@,
                recs,
                Seq::empty(),
                cbs,
                i,
                (#[trigger] table.cells@[i]).offset as int,
            ) by {
                let start = chunk_start(recs, cbs, i);
                if i < j {
                    assert(table.cells@[i] == cells_before[i]);
                    lemma_chunk_start_step(recs, cbs, i);
                    lemma_chunk_start_ascends(recs, cbs, i + 1, j as int);
                    assert(out@.subrange(start, start + 8) =~= before.subrange(start, start + 8));
                    assert(out@.subrange(start + 8, start + 8) =~= before.subrange(
                        start + 8,
                        start + 8,
                    ));
                } else {
                    assert(out@.subrange(start, start + 8) =~= header@);
                    assert(out@.subrange(start + 8, start + 8) =~= Seq::<u8>::empty());
                }
            }
        }
        next = next + cell.nbytes as usize;
        j += 1;
    }
    Ok(out)
}

/// The chunk of the next record's barcode has room for the record.
proof fn lemma_room_for_record(
    out: Seq<u8>,
    recs: Seq<RawRecord>,
    done: Seq<RawRecord>,
    rec: RawRecord,
    cbs: Seq<u64>,
    j: int,
    cursor: int,
)
    requires
        0 <= j < cbs.len(),
        rec.bc == cbs[j],
        cell_filled(out, recs, done, cbs, j, cursor),
        cell_bytes(done.push(rec), cbs[j]).len() <= cell_bytes(recs, cbs[j]).len(),
        chunk_start(recs, cbs, cbs.len() as int) == out.len(),
    ensures
        0 <= cursor,
        cursor + rec.bytes.len() <= out.len(),
{
    reveal(cell_filled);
    lemma_push_record(done, rec, cbs[j]);
    lemma_chunk_start_step(recs, cbs, j);
    lemma_chunk_start_ascends(recs, cbs, j + 1, cbs.len() as int);
}

/// Writing the next record at the cursor of its barcode's chunk (the
/// `j`-th) leaves every chunk holding its header and its records so far.
proof fn lemma_fill_step(
    before: Seq<u8>,
    after: Seq<u8>,
    recs: Seq<RawRecord>,
    done: Seq<RawRecord>,
    rec: RawRecord,
    cbs: Seq<u64>,
    j: int,
    cursor: int,
    i: int,
    cursor_i: int,
)
    requires
        0 <= j < cbs.len(),
        0 <= i < cbs.len(),
        cbs.no_duplicates(),
        rec.bc == cbs[j],
        cell_filled(before, recs, done, cbs, j, cursor),
        cell_filled(before, recs, done, cbs, i, cursor_i),
        cell_bytes(done.push(rec), cbs[j]).len() <= cell_bytes(recs, cbs[j]).len(),
        cell_bytes(done.push(rec), cbs[i]).len() <= cell_bytes(recs, cbs[i]).len(),
        chunk_start(recs, cbs, cbs.len() as int) == before.len(),
        0 <= cursor,
        cursor + rec.bytes.len() <= before.len(),
        after == before.subrange(0, cursor) + rec.bytes + before.subrange(
            cursor + rec.bytes.len(),
            before.len() as int,
        ),
    ensures
        cell_filled(
            after,
            recs,
            done.push(rec),
            cbs,
            i,
            if i == j {
                cursor + rec.bytes.len()
            } else {
                cursor_i
            },
        ),
{
    reveal(cell_filled);
    let first = chunk_start(recs, cbs, i);
    lemma_push_record(done, rec, cbs[i]);
    lemma_push_record(done, rec, cbs[j]);
    lemma_chunk_start_step(recs, cbs, i);
    lemma_chunk_start_step(recs, cbs, j);
    if i == j {
        assert(after.subrange(first, first + 8) =~= before.subrange(first, first + 8));
        assert(after.subrange(first + 8, cursor + rec.bytes.len()) =~= before.subrange(
            first + 8,
            cursor,
        ) + rec.bytes);
    } else {
        assert(cbs[i] != rec.bc);
        if i < j {
            lemma_chunk_start_ascends(recs, cbs, i + 1, j);
        } else {
            lemma_chunk_start_ascends(recs, cbs, j + 1, i);
        }
        assert(after.subrange(first, first + 8) =~= before.subrange(first, first + 8));
        assert(after.subrange(first + 8, cursor_i) =~= before.subrange(first + 8, cursor_i));
    }
}

/// Second pass of the two-pass collator: reads the records once more and
/// copies each, as it is, to the cursor of its barcode.
#[verifier::rlimit(30)]
fn fill_cells(
    input: &[u8],
    bct: &RadIntId,
    umit: &RadIntId,
    nrec: u32,
    table: &mut CellTable,
    out: &mut Vec<u8>,
    Ghost(recs): Ghost<Seq<RawRecord>>,
) -> (r: Result<(), RadError>)
    requires
        raw_records(input@, 0, nrec as nat, *bct, *umit) is Some,
        raw_records(input@, 0, nrec as nat, *bct, *umit).unwrap().0 == recs,
        old(table).sized_for(recs),
        old(table).filled(old(out)@, recs, Seq::empty()),
        old(out)@.len() == collated(recs).len(),
    ensures
        r is Ok,
        final(table).sized_for(recs),
        final(table).filled(final(out)@, recs, recs),
        final(out)@.len() == collated(recs).len(),
{
    let len: usize = input.len();
    let total: usize = out.len();
    let ghost cbs = table.cbs@;
    let mut pos: usize = 0;
    let mut k: u32 = 0;
    proof {
        lemma_raw_records_prefix(input@, 0, 0, nrec as nat, *bct, *umit);
        lemma_first_seen(recs);
        assert(cbs.take(cbs.len() as int) =~= cbs);
    }
    while k < nrec
        invariant
            k <= nrec,
            len == input@.len(),
            pos <= len,
            recs.len() == nrec,
            cbs == table.cbs@,
            cbs == first_seen(recs),
            cbs.no_duplicates(),
            raw_records(input@, 0, nrec as nat, *bct, *umit) is Some,
            raw_records(input@, 0, nrec as nat, *bct, *umit).unwrap().0 == recs,
            raw_records(input@, 0, k as nat, *bct, *umit) == Some((recs.take(k as int), pos as int)),
            table.sized_for(recs),
            table.filled(out@, recs, recs.take(k as int)),
            out@.len() == total,
            total == chunk_start(recs, cbs, cbs.len() as int),
            forall|i: int| 0 <= i < recs.len() ==> cbs.contains(#[trigger] recs[i].bc),
        decreases nrec - k,
    {
        let start: usize = pos;
        let ghost done = recs.take(k as int);
        let ghost rec = recs[k as int];
        proof {
            lemma_next_record(input@, k as nat, nrec as nat, *bct, *umit, recs, pos as int);
        }
        let (bc, umi, na) = match skip_record(input, &mut pos, bct, umit) {
            Ok(t) => t,
            Err(e) => {
                return Err(e);
            },
        };
        let rec_len: usize = pos - start;
        assert(cbs.contains(recs[k as int].bc));
        let j: usize = match table.index.get(&bc) {
            Some(j) => *j,
            None => {
                return Err(RadError::MalformedRecord);
            },
        };
        let cell = table.cells[j];
        proof {
            assert(cell_filled(out@, recs, done, cbs, j as int, table.cells@[j as int].offset as int));
            lemma_cell_bytes_take(recs, k + 1, bc);
            lemma_room_for_record(out@, recs, done, rec, cbs, j as int, cell.offset as int);
        }
        let cursor: usize = cell.offset as usize;
        let ghost before = out@;
        let ghost cells_before = table.cells@;
        copy_bytes_into(out, cursor, input, start, rec_len);
        table.cells[j] = TempCellInfo {
            offset: (cursor + rec_len) as u64,
            nbytes: cell.nbytes,
            nrec: cell.nrec,
        };
        proof {
            assert forall|i: int| 0 <= i < cbs.len() implies cell_filled(
                out@,
                recs,
                done.push(rec),
                cbs,
                i,
                (#[trigger] table.cells@[i]).offset as int,
            ) by {
                assert(cell_filled(before, recs, done, cbs, i, cells_before[i].offset as int));
                lemma_cell_bytes_take(recs, k + 1, cbs[i]);
                lemma_fill_step(
                    before,
                    out@,
                    recs,
                    done,
                    rec,
                    cbs,
                    j as int,
                    cursor as int,
                    i,
                    cells_before[i].offset as int,
                );
            }
        }
        k += 1;
    }
    assert(recs.take(nrec as int) =~= recs);
    Ok(())
}

/// A buffer whose chunks each hold their header and all their records is
/// the collated output.
proof fn lemma_filled_is_collated(
    out: Seq<u8>,
    recs: Seq<RawRecord>,
    cbs: Seq<u64>,
    cursors: Seq<int>,
    j: int,
)
    requires
        0 <= j <= cbs.len(),
        cursors.len() == cbs.len(),
        forall|i: int|
            0 <= i < cbs.len() ==> cell_filled(out, recs, recs, cbs, i, #[trigger] cursors[i]),
    ensures
        chunk_start(recs, cbs, j) <= out.len(),
        out.subrange(0, chunk_start(recs, cbs, j)) == chunks_of(recs, cbs.take(j)),
    decreases j,
{
    reveal(cell_filled);
    if j == 0 {
        assert(cbs.take(0) =~= Seq::<u64>::empty());
        assert(out.subrange(0, 0) =~= Seq::<u8>::empty());
    } else {
        lemma_filled_is_collated(out, recs, cbs, cursors, j - 1);
        lemma_chunk_start_step(recs, cbs, j - 1);
        let first = chunk_start(recs, cbs, j - 1);
        let end = chunk_start(recs, cbs, j);
        assert(cell_filled(out, recs, recs, cbs, j - 1, cursors[j - 1]));
        assert(out.subrange(first, end) =~= out.subrange(first, first + 8) + out.subrange(
            first + 8,
            end,
        ));
        assert(out.subrange(0, end) =~= out.subrange(0, first) + out.subrange(first, end));
    }
}

/// What the Snappy frame encoder of the `snap` crate makes of `data`.
pub uninterp spec fn snappy_framed(data: Seq<u8>) -> Seq<u8>;

/// Runs `snap`'s `FrameEncoder` over `data`, writing into a vector: what
/// comes back on success is the encoder's output for `data`. Nothing is
/// claimed about when the encoder succeeds.
#[verifier::external_body]
fn snappy_frame_encode(data: &Vec<u8>) -> (r: Option<Vec<u8>>)
    ensures
        r matches Some(v) ==> v@ == snappy_framed(data@),
{
    let mut encoder = snap::write::FrameEncoder::new(Vec::<u8>::with_capacity(data.len()));
    match std::io::Write::write_all(&mut encoder, data) {
        Ok(()) => encoder.into_inner().ok(),
        Err(_) => None,
    }
}

/// Collates the `nrec` records that `input` holds from its start: the
/// result is one chunk for each distinct barcode, in the order in which the
/// barcodes are first seen, each chunk made of its header and the records
/// of its barcode, byte for byte and in their order in `input`. Returned
/// with it is the number of chunks.
///
/// Fails with `ShortRead` where `input` ends inside one of the records,
/// else with `MalformedRecord` where a chunk's size does not fit its header
/// or the output does not fit in memory.
pub fn collate_records_twopass(input: &[u8], bct: &RadIntId, umit: &RadIntId, nrec: u32) -> (r:
    Result<(Vec<u8>, usize), RadError>)
    ensures
        match raw_records(input@, 0, nrec as nat, *bct, *umit) {
            None => r matches Err(RadError::ShortRead),
            Some((recs, _)) => if collatable(recs) {
                r matches Ok((out, n)) && out@ == collated(recs) && n == first_seen(recs).len()
            } else {
                r matches Err(RadError::MalformedRecord)
            },
        },
{
    let mut table = match size_cells(input, bct, umit, nrec) {
        Ok(t) => t,
        Err(e) => {
            return Err(e);
        },
    };
    let ghost recs = raw_records(input@, 0, nrec as nat, *bct, *umit).unwrap().0;
    let mut out = match lay_out(&mut table, Ghost(recs)) {
        Ok(out) => out,
        Err(e) => {
            return Err(e);
        },
    };
    match fill_cells(input, bct, umit, nrec, &mut table, &mut out, Ghost(recs)) {
        Ok(()) => {},
        Err(e) => {
            return Err(e);
        },
    }
    proof {
        let cbs = table.cbs@;
        let cursors = Seq::new(cbs.len(), |i: int| table.cells@[i].offset as int);
        assert forall|i: int| 0 <= i < cbs.len() implies cell_filled(
            out@,
            recs,
            recs,
            cbs,
            i,
            #[trigger] cursors[i],
        ) by {
            assert(cell_filled(out@, recs, recs, cbs, i, table.cells@[i].offset as int));
        }
        lemma_filled_is_collated(out@, recs, cbs, cursors, cbs.len() as int);
        assert(cbs.take(cbs.len() as int) =~= cbs);
        assert(out@.subrange(0, out@.len() as int) =~= out@);
    }
    let n: usize = table.cbs.len();
    Ok((out, n))
}

/// Collates as `collate_records_twopass` does and, where `compress` is
/// set, runs the whole collated output (not each chunk) through the Snappy
/// frame encoder. Only with `compress` set can the call fail with
/// `IoError`: where the encoder fails.
pub fn collate_temporary_bucket_twopass(
    input: &[u8],
    bct: &RadIntId,
    umit: &RadIntId,
    nrec: u32,
    compress: bool,
) -> (r: Result<(Vec<u8>, usize), RadError>)
    ensures
        match raw_records(input@, 0, nrec as nat, *bct, *umit) {
            None => r matches Err(RadError::ShortRead),
            Some((recs, _)) => if !collatable(recs) {
                r matches Err(RadError::MalformedRecord)
            } else if compress {
                match r {
                    Ok((out, n)) => out@ == snappy_framed(collated(recs)) && n == first_seen(
                        recs,
                    ).len(),
                    Err(e) => e == RadError::IoError,
                }
            } else {
                r matches Ok((out, n)) && out@ == collated(recs) && n == first_seen(recs).len()
            },
        },
{
    let (out, n) = match collate_records_twopass(input, bct, umit, nrec) {
        Ok(t) => t,
        Err(e) => {
            return Err(e);
        },
    };
    if compress {
        match snappy_frame_encode(&out) {
            Some(framed) => Ok((framed, n)),
            None => Err(RadError::IoError),
        }
    } else {
        Ok((out, n))
    }
}

/// The layout of collated output: it is made of one chunk for each
/// distinct barcode of the records and of nothing else. No barcode has two
/// chunks, every record's barcode has one, the chunks lie one behind the
/// other, and the chunk of a barcode is its header followed by the bytes of
/// that barcode's records in the order of the input.
pub proof fn lemma_collated_layout(recs: Seq<RawRecord>)
    ensures
        first_seen(recs).no_duplicates(),
        forall|i: int| 0 <= i < recs.len() ==> first_seen(recs).contains(#[trigger] recs[i].bc),
        forall|cb: u64| #[trigger]
            first_seen(recs).contains(cb) ==> exists|i: int| 0 <= i < recs.len() && recs[i].bc == cb,
        chunk_start(recs, first_seen(recs), 0) == 0,
        chunk_start(recs, first_seen(recs), first_seen(recs).len() as int) == collated(recs).len(),
        forall|j: int|
            0 <= j < first_seen(recs).len() ==> {
                let first = #[trigger] chunk_start(recs, first_seen(recs), j);
                let end = chunk_start(recs, first_seen(recs), j + 1);
                &&& first + 8 <= end <= collated(recs).len()
                &&& collated(recs).subrange(first, end) == cell_chunk(recs, first_seen(recs)[j])
                &&& collated(recs).subrange(first + 8, end) == cell_bytes(
                    recs,
                    first_seen(recs)[j],
                )
            },
{
    let cbs = first_seen(recs);
    let n = cbs.len() as int;
    lemma_first_seen(recs);
    assert(cbs.take(0) =~= Seq::<u64>::empty());
    assert(cbs.take(n) =~= cbs);
    assert forall|j: int| 0 <= j < cbs.len() implies {
        let first = #[trigger] chunk_start(recs, cbs, j);
        let end = chunk_start(recs, cbs, j + 1);
        &&& first + 8 <= end <= collated(recs).len()
        &&& collated(recs).subrange(first, end) == cell_chunk(recs, cbs[j])
        &&& collated(recs).subrange(first + 8, end) == cell_bytes(recs, cbs[j])
    } by {
        let first = chunk_start(recs, cbs, j);
        let end = chunk_start(recs, cbs, j + 1);
        lemma_chunk_start_step(recs, cbs, j);
        lemma_chunk_start_ascends(recs, cbs, j + 1, n);
        lemma_chunks_prefix(recs, cbs, j + 1);
        lemma_cell_chunk_len(recs, cbs[j]);
        lemma_le_bytes_len(8 + cell_bytes(recs, cbs[j]).len(), 4);
        lemma_le_bytes_len(cell_count(recs, cbs[j]), 4);
        let upto = chunks_of(recs, cbs.take(j + 1));
        assert(upto.subrange(first, end) =~= cell_chunk(recs, cbs[j]));
        assert(collated(recs).subrange(first, end) =~= upto.subrange(first, end));
        assert(collated(recs).subrange(first + 8, end) =~= cell_chunk(recs, cbs[j]).subrange(
            8,
            end - first,
        ));
        assert(cell_chunk(recs, cbs[j]).subrange(8, end - first) =~= cell_bytes(recs, cbs[j]));
    }
}

/// Byte accounting of a collated chunk: the size that the chunk of a
/// barcode states in its header is 8 for the header and, for each of the
/// barcode's records, the bytes that the format gives a record with its
/// number of alignments; and the chunk takes that many bytes.
pub proof fn lemma_chunk_byte_accounting(
    recs: Seq<RawRecord>,
    cb: u64,
    bct: RadIntId,
    umit: RadIntId,
)
    requires
        records_sized(recs, bct, umit),
    ensures
        cell_chunk(recs, cb).len() == 8 + cell_size(recs, cb, bct, umit),
        cell_chunk(recs, cb).subrange(0, 4) == le_bytes(8 + cell_size(recs, cb, bct, umit), 4),
        cell_chunk(recs, cb).subrange(4, 8) == le_bytes(cell_count(recs, cb), 4),
        cell_chunk(recs, cb).subrange(8, cell_chunk(recs, cb).len() as int) == cell_bytes(recs, cb),
{
    lemma_cell_bytes_sized(recs, cb, bct, umit);
    lemma_le_bytes_len(8 + cell_bytes(recs, cb).len(), 4);
    lemma_le_bytes_len(cell_count(recs, cb), 4);
    assert(cell_chunk(recs, cb).subrange(0, 4) =~= le_bytes(8 + cell_bytes(recs, cb).len(), 4));
    assert(cell_chunk(recs, cb).subrange(4, 8) =~= le_bytes(cell_count(recs, cb), 4));
    assert(cell_chunk(recs, cb).subrange(8, cell_chunk(recs, cb).len() as int) =~= cell_bytes(
        recs,
        cb,
    ));
}

/// Where the chunk of a barcode lies, it can be read as a chunk.
pub proof fn lemma_chunk_parses_at(
    s: Seq<u8>,
    first: int,
    recs: Seq<RawRecord>,
    cb: u64,
    bct: RadIntId,
    umit: RadIntId,
)
    requires
        records_decodable(recs, bct, umit),
        8 + cell_bytes(recs, cb).len() <= u32::MAX,
        recs.len() <= u32::MAX,
        holds_at(s, first, cell_chunk(recs, cb)),
    ensures
        parse_chunk(s, first, bct, umit) == Some(
            (
                ChunkView {
                    nbytes: (8 + cell_bytes(recs, cb).len()) as u32,
                    nrec: cell_count(recs, cb) as u32,
                    reads: cell_reads(recs, cb, bct, umit),
                },
                first + cell_chunk(recs, cb).len(),
            ),
        ),
{
    let size = 8 + cell_bytes(recs, cb).len();
    let count = cell_count(recs, cb);
    lemma_cell_count_bound(recs, cb);
    lemma_pow256_values();
    lemma_le_bytes_len(size, 4);
    lemma_le_bytes_len(count, 4);
    lemma_holds_at_split(s, first, le_bytes(size, 4) + le_bytes(count, 4), cell_bytes(recs, cb));
    lemma_holds_at_split(s, first, le_bytes(size, 4), le_bytes(count, 4));
    lemma_read_le_of_bytes(s, first, size, 4);
    lemma_read_le_of_bytes(s, first + 4, count, 4);
    lemma_cell_parses(s, first + 8, recs, cb, bct, umit);
}

/// Collated output can be read chunk by chunk: at the place of the `j`-th
/// barcode lies a chunk whose header states its size and the number of its
/// records, and whose records are the records of that barcode, in the order
/// of the input; it ends where the next chunk starts.
pub proof fn lemma_collated_chunk_parses(recs: Seq<RawRecord>, bct: RadIntId, umit: RadIntId, j: int)
    requires
        records_decodable(recs, bct, umit),
        cells_fit(recs),
        recs.len() <= u32::MAX,
        0 <= j < first_seen(recs).len(),
    ensures
        parse_chunk(collated(recs), chunk_start(recs, first_seen(recs), j), bct, umit) == Some(
            (
                ChunkView {
                    nbytes: (8 + cell_bytes(recs, first_seen(recs)[j]).len()) as u32,
                    nrec: cell_count(recs, first_seen(recs)[j]) as u32,
                    reads: cell_reads(recs, first_seen(recs)[j], bct, umit),
                },
                chunk_start(recs, first_seen(recs), j + 1),
            ),
        ),
{
    let cbs = first_seen(recs);
    let cb = cbs[j];
    lemma_chunk_lies_at(recs, cbs, j);
    assert(8 + (#[trigger] cell_bytes(recs, cb)).len() <= u32::MAX);
    lemma_chunk_parses_at(collated(recs), chunk_start(recs, cbs, j), recs, cb, bct, umit);
}

} // verus!
