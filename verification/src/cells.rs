//! Records grouped by barcode: which barcodes there are, and the bytes,
//! the number and the sizes of the records of each.

use vstd::prelude::*;
use crate::primitive::{holds_at, lemma_holds_at_split, RadIntId};
use crate::raw::{records_decodable, records_sized, RawRecord};
use crate::record::{
    lemma_parse_record_window, parse_record, parse_records, record_bytes, ReadRecordView,
};

verus! {

/// The bytes of the records of `recs` whose barcode is `cb`, one after the
/// other in the order of `recs`.
pub open spec fn cell_bytes(recs: Seq<RawRecord>, cb: u64) -> Seq<u8>
    decreases recs.len(),
{
    if recs.len() == 0 {
        Seq::empty()
    } else if recs.last().bc == cb {
        cell_bytes(recs.drop_last(), cb) + recs.last().bytes
    } else {
        cell_bytes(recs.drop_last(), cb)
    }
}

/// The number of records of `recs` whose barcode is `cb`.
pub open spec fn cell_count(recs: Seq<RawRecord>, cb: u64) -> nat
    decreases recs.len(),
{
    if recs.len() == 0 {
        0
    } else if recs.last().bc == cb {
        cell_count(recs.drop_last(), cb) + 1
    } else {
        cell_count(recs.drop_last(), cb)
    }
}

/// The distinct barcodes of `recs`, each where it is first seen.
pub open spec fn first_seen(recs: Seq<RawRecord>) -> Seq<u64>
    decreases recs.len(),
{
    if recs.len() == 0 {
        Seq::empty()
    } else {
        let before = first_seen(recs.drop_last());
        if before.contains(recs.last().bc) {
            before
        } else {
            before.push(recs.last().bc)
        }
    }
}

/// The sum, over the records of `recs` with the barcode `cb`, of the bytes
/// that the format gives a record with that many alignments.
pub open spec fn cell_size(recs: Seq<RawRecord>, cb: u64, bct: RadIntId, umit: RadIntId) -> nat
    decreases recs.len(),
{
    if recs.len() == 0 {
        0
    } else if recs.last().bc == cb {
        cell_size(recs.drop_last(), cb, bct, umit) + record_bytes(recs.last().na as nat, bct, umit)
    } else {
        cell_size(recs.drop_last(), cb, bct, umit)
    }
}

/// The records of `recs` with the barcode `cb`, decoded, in their order.
pub open spec fn cell_reads(recs: Seq<RawRecord>, cb: u64, bct: RadIntId, umit: RadIntId) -> Seq<
    ReadRecordView,
>
    decreases recs.len(),
{
    if recs.len() == 0 {
        Seq::empty()
    } else if recs.last().bc == cb {
        cell_reads(recs.drop_last(), cb, bct, umit).push(
            parse_record(recs.last().bytes, 0, bct, umit).unwrap(),
        )
    } else {
        cell_reads(recs.drop_last(), cb, bct, umit)
    }
}

/// What one more record adds to a barcode's bytes and count, and to the
/// barcodes seen.
pub proof fn lemma_push_record(recs: Seq<RawRecord>, r: RawRecord, cb: u64)
    ensures
        cell_bytes(recs.push(r), cb) == (if r.bc == cb {
            cell_bytes(recs, cb) + r.bytes
        } else {
            cell_bytes(recs, cb)
        }),
        cell_count(recs.push(r), cb) == (if r.bc == cb {
            cell_count(recs, cb) + 1
        } else {
            cell_count(recs, cb)
        }),
        first_seen(recs.push(r)) == (if first_seen(recs).contains(r.bc) {
            first_seen(recs)
        } else {
            first_seen(recs).push(r.bc)
        }),
{
    assert(recs.push(r).drop_last() =~= recs);
}

/// A barcode has no more records than there are.
pub proof fn lemma_cell_count_bound(recs: Seq<RawRecord>, cb: u64)
    ensures
        cell_count(recs, cb) <= recs.len(),
    decreases recs.len(),
{
    if recs.len() > 0 {
        lemma_cell_count_bound(recs.drop_last(), cb);
    }
}

/// A barcode's bytes only grow as records are added.
pub proof fn lemma_cell_bytes_take(recs: Seq<RawRecord>, k: int, cb: u64)
    requires
        0 <= k <= recs.len(),
    ensures
        cell_bytes(recs.take(k), cb).len() <= cell_bytes(recs, cb).len(),
    decreases recs.len(),
{
    if k < recs.len() {
        assert(recs.drop_last().take(k) =~= recs.take(k));
        lemma_cell_bytes_take(recs.drop_last(), k, cb);
    } else {
        assert(recs.take(k) =~= recs);
    }
}

/// The barcodes first seen are exactly the barcodes of the records, each
/// once.
pub proof fn lemma_first_seen(recs: Seq<RawRecord>)
    ensures
        first_seen(recs).no_duplicates(),
        forall|i: int| 0 <= i < recs.len() ==> first_seen(recs).contains(#[trigger] recs[i].bc),
        forall|cb: u64| #[trigger]
            first_seen(recs).contains(cb) ==> exists|i: int| 0 <= i < recs.len() && recs[i].bc == cb,
        first_seen(recs).len() <= recs.len(),
    decreases recs.len(),
{
    if recs.len() > 0 {
        let before = recs.drop_last();
        lemma_first_seen(before);
        let fs = first_seen(before);
        let last = recs.last().bc;
        assert forall|i: int| 0 <= i < recs.len() implies first_seen(recs).contains(
            #[trigger] recs[i].bc,
        ) by {
            if i < before.len() {
                assert(before[i] == recs[i]);
                let j = choose|j: int| 0 <= j < fs.len() && fs[j] == before[i].bc;
                assert(first_seen(recs)[j] == recs[i].bc);
            } else {
                if fs.contains(last) {
                } else {
                    assert(first_seen(recs)[fs.len() as int] == last);
                }
            }
        }
        assert forall|cb: u64| #[trigger] first_seen(recs).contains(cb) implies exists|i: int|
            0 <= i < recs.len() && recs[i].bc == cb by {
            if fs.contains(cb) {
                let i = choose|i: int| 0 <= i < before.len() && before[i].bc == cb;
                assert(recs[i].bc == cb);
            } else {
                let j = choose|j: int| 0 <= j < first_seen(recs).len() && first_seen(recs)[j] == cb;
                if j < fs.len() {
                    assert(fs[j] == cb);
                }
                assert(recs[recs.len() - 1].bc == cb);
            }
        }
    }
}

/// A barcode that is not among the records has no bytes and no records.
pub proof fn lemma_absent_cell_is_empty(recs: Seq<RawRecord>, cb: u64)
    requires
        !first_seen(recs).contains(cb),
    ensures
        cell_bytes(recs, cb).len() == 0,
        cell_count(recs, cb) == 0,
    decreases recs.len(),
{
    if recs.len() > 0 {
        lemma_first_seen(recs);
        let before = recs.drop_last();
        let fs = first_seen(before);
        assert(recs[recs.len() - 1].bc != cb);
        if fs.contains(cb) {
            let j = choose|j: int| 0 <= j < fs.len() && fs[j] == cb;
            assert(first_seen(recs)[j] == cb);
        }
        lemma_absent_cell_is_empty(before, cb);
    }
}

/// The records of a barcode take, together, the bytes that the format gives
/// records with their numbers of alignments.
pub proof fn lemma_cell_bytes_sized(recs: Seq<RawRecord>, cb: u64, bct: RadIntId, umit: RadIntId)
    requires
        records_sized(recs, bct, umit),
    ensures
        cell_bytes(recs, cb).len() == cell_size(recs, cb, bct, umit),
    decreases recs.len(),
{
    if recs.len() > 0 {
        assert(records_sized(recs.drop_last(), bct, umit)) by {
            assert forall|i: int| 0 <= i < recs.drop_last().len() implies (
            #[trigger] recs.drop_last()[i]).bytes.len() == record_bytes(
                recs.drop_last()[i].na as nat,
                bct,
                umit,
            ) by {
                assert(recs.drop_last()[i] == recs[i]);
            }
        }
        lemma_cell_bytes_sized(recs.drop_last(), cb, bct, umit);
        assert(recs[recs.len() - 1] == recs.last());
    }
}

/// Where a run of records was read and behind it lie the bytes of one more
/// record, the run with that record can be read.
proof fn lemma_read_one_more(
    s: Seq<u8>,
    pos: int,
    count: nat,
    reads: Seq<ReadRecordView>,
    at: int,
    bytes: Seq<u8>,
    bct: RadIntId,
    umit: RadIntId,
)
    requires
        parse_records(s, pos, count, bct, umit) == Some((reads, at)),
        holds_at(s, at, bytes),
        parse_record(bytes, 0, bct, umit) is Some,
        record_bytes(parse_record(bytes, 0, bct, umit).unwrap().refs.len(), bct, umit)
            == bytes.len(),
    ensures
        parse_records(s, pos, count + 1, bct, umit) == Some(
            (reads.push(parse_record(bytes, 0, bct, umit).unwrap()), at + bytes.len()),
        ),
{
    assert(bytes.subrange(0, bytes.len() as int) =~= bytes);
    lemma_parse_record_window(bytes, 0, s, at, bct, umit);
}

/// Where the bytes of a barcode's records lie, the records can be read one
/// after the other.
#[verifier::rlimit(30)]
pub proof fn lemma_cell_parses(
    s: Seq<u8>,
    pos: int,
    recs: Seq<RawRecord>,
    cb: u64,
    bct: RadIntId,
    umit: RadIntId,
)
    requires
        records_decodable(recs, bct, umit),
        holds_at(s, pos, cell_bytes(recs, cb)),
    ensures
        parse_records(s, pos, cell_count(recs, cb), bct, umit) == Some(
            (cell_reads(recs, cb, bct, umit), pos + cell_bytes(recs, cb).len()),
        ),
    decreases recs.len(),
{
    if recs.len() > 0 {
        let before = recs.drop_last();
        let last = recs.last();
        assert(records_decodable(before, bct, umit)) by {
            assert forall|i: int| 0 <= i < before.len() implies (parse_record(
                (#[trigger] before[i]).bytes,
                0,
                bct,
                umit,
            ) matches Some(r) && record_bytes(r.refs.len(), bct, umit) == before[i].bytes.len()) by {
                assert(before[i] == recs[i]);
            }
        }
        assert(recs[recs.len() - 1] == last);
        if last.bc == cb {
            lemma_holds_at_split(s, pos, cell_bytes(before, cb), last.bytes);
            lemma_cell_parses(s, pos, before, cb, bct, umit);
            lemma_read_one_more(
                s,
                pos,
                cell_count(before, cb),
                cell_reads(before, cb, bct, umit),
                pos + cell_bytes(before, cb).len(),
                last.bytes,
                bct,
                umit,
            );
        } else {
            lemma_cell_parses(s, pos, before, cb, bct, umit);
        }
    }
}

} // verus!
