//! Records as they lie on the wire, taken as bytes: where each starts and
//! ends, with only its fixed part decoded.

use vstd::prelude::*;
use crate::error::RadError;
use crate::primitive::{
    le_bytes, lemma_le_bytes_of_le_value, lemma_le_value_bound, lemma_pow256_values, RadIntId,
};
use crate::record::{
    lemma_parse_record_window, parse_chunk_header, parse_record, parse_record_header, record_bytes,
    ReadRecord,
};

verus! {

/// A record as the collators see it: its barcode and UMI, and all of its
/// bytes as they lie on the wire, alignment entries included.
pub struct RawRecord {
    pub bc: u64,
    pub umi: u64,
    pub na: u32,
    pub bytes: Seq<u8>,
}

/// The record at `pos` in `s`, alignment entries undecoded; `None` where `s`
/// ends inside it.
#[verifier::opaque]
pub open spec fn raw_record(s: Seq<u8>, pos: int, bct: RadIntId, umit: RadIntId) -> Option<
    RawRecord,
> {
    match parse_record_header(s, pos, bct, umit) {
        Some((bc, umi, na)) => if pos + record_bytes(na as nat, bct, umit) <= s.len() {
            Some(
                RawRecord {
                    bc,
                    umi,
                    na,
                    bytes: s.subrange(pos, pos + record_bytes(na as nat, bct, umit)),
                },
            )
        } else {
            None
        },
        None => None,
    }
}

/// What a record that `raw_record` yields is made of: the fixed part that
/// lies at `pos`, and behind it room for all its alignment entries.
pub proof fn lemma_raw_record_parts(s: Seq<u8>, pos: int, bct: RadIntId, umit: RadIntId)
    ensures
        match raw_record(s, pos, bct, umit) {
            Some(rec) => {
                &&& parse_record_header(s, pos, bct, umit) == Some((rec.bc, rec.umi, rec.na))
                &&& 0 <= pos
                &&& pos + record_bytes(rec.na as nat, bct, umit) <= s.len()
                &&& rec.bytes == s.subrange(pos, pos + record_bytes(rec.na as nat, bct, umit))
                &&& rec.bytes.len() == record_bytes(rec.na as nat, bct, umit)
            },
            None => parse_record_header(s, pos, bct, umit) matches Some((_, _, na)) ==> pos
                + record_bytes(na as nat, bct, umit) > s.len(),
        },
{
    reveal(raw_record);
}

/// Copying a record as it is gives what writing its alignment count, its
/// barcode and its UMI anew, and copying its alignment entries, gives: the
/// collators may do the one for the other.
pub proof fn lemma_raw_record_is_rewritten(s: Seq<u8>, pos: int, bct: RadIntId, umit: RadIntId)
    requires
        raw_record(s, pos, bct, umit) is Some,
    ensures
        ({
            let rec = raw_record(s, pos, bct, umit).unwrap();
            rec.bytes == le_bytes(rec.na as nat, 4) + le_bytes(rec.bc as nat, bct.width())
                + le_bytes(rec.umi as nat, umit.width()) + s.subrange(
                pos + 4 + bct.width() + umit.width(),
                pos + record_bytes(rec.na as nat, bct, umit),
            )
        }),
{
    reveal(raw_record);
    let rec = raw_record(s, pos, bct, umit).unwrap();
    let wb = bct.width() as int;
    let wu = umit.width() as int;
    let end = pos + record_bytes(rec.na as nat, bct, umit);
    let na_bytes = s.subrange(pos, pos + 4);
    let bc_bytes = s.subrange(pos + 4, pos + 4 + wb);
    let umi_bytes = s.subrange(pos + 4 + wb, pos + 4 + wb + wu);
    lemma_pow256_values();
    lemma_le_value_bound(na_bytes);
    lemma_le_value_bound(bc_bytes);
    lemma_le_value_bound(umi_bytes);
    lemma_le_bytes_of_le_value(na_bytes);
    lemma_le_bytes_of_le_value(bc_bytes);
    lemma_le_bytes_of_le_value(umi_bytes);
    assert(rec.bytes =~= na_bytes + bc_bytes + umi_bytes + s.subrange(pos + 4 + wb + wu, end));
}

/// The first `n` records from `pos` in `s`, with the position behind the
/// last of them; `None` where `s` ends before that.
pub open spec fn raw_records(s: Seq<u8>, pos: int, n: nat, bct: RadIntId, umit: RadIntId) -> Option<
    (Seq<RawRecord>, int),
>
    decreases n,
{
    if n == 0 {
        Some((Seq::empty(), pos))
    } else {
        match raw_records(s, pos, (n - 1) as nat, bct, umit) {
            Some((before, at)) => match raw_record(s, at, bct, umit) {
                Some(rec) => Some((before.push(rec), at + rec.bytes.len())),
                None => None,
            },
            None => None,
        }
    }
}

/// Once the input has ended inside a record, no longer run of records can
/// be read from it.
pub proof fn lemma_raw_records_stays_none(
    s: Seq<u8>,
    pos: int,
    k: nat,
    n: nat,
    bct: RadIntId,
    umit: RadIntId,
)
    requires
        k <= n,
        raw_records(s, pos, k, bct, umit) is None,
    ensures
        raw_records(s, pos, n, bct, umit) is None,
    decreases n,
{
    if k < n {
        lemma_raw_records_stays_none(s, pos, k, (n - 1) as nat, bct, umit);
    }
}

/// A run of `n` records starts with the run of its first `k` records.
pub proof fn lemma_raw_records_prefix(
    s: Seq<u8>,
    pos: int,
    k: nat,
    n: nat,
    bct: RadIntId,
    umit: RadIntId,
)
    requires
        k <= n,
        raw_records(s, pos, n, bct, umit) is Some,
    ensures
        raw_records(s, pos, k, bct, umit) is Some,
        raw_records(s, pos, k, bct, umit).unwrap().0 == raw_records(
            s,
            pos,
            n,
            bct,
            umit,
        ).unwrap().0.take(k as int),
        raw_records(s, pos, n, bct, umit).unwrap().0.len() == n,
    decreases n,
{
    if n == 0 {
        assert(raw_records(s, pos, n, bct, umit).unwrap().0.take(0) =~= Seq::<RawRecord>::empty());
    } else {
        let all = raw_records(s, pos, n, bct, umit).unwrap().0;
        lemma_raw_records_prefix(s, pos, (n - 1) as nat, (n - 1) as nat, bct, umit);
        if k < n {
            lemma_raw_records_prefix(s, pos, k, (n - 1) as nat, bct, umit);
            let shorter = raw_records(s, pos, (n - 1) as nat, bct, umit).unwrap().0;
            assert(shorter.take(k as int) =~= all.take(k as int));
        } else {
            assert(all.take(k as int) =~= all);
        }
    }
}

/// In a run of `n` records from `from` the `k`-th lies where the run of the
/// first `k` ends.
pub proof fn lemma_next_record_from(
    s: Seq<u8>,
    from: int,
    k: nat,
    n: nat,
    bct: RadIntId,
    umit: RadIntId,
    recs: Seq<RawRecord>,
    pos: int,
)
    requires
        k < n,
        raw_records(s, from, n, bct, umit) is Some,
        raw_records(s, from, n, bct, umit).unwrap().0 == recs,
        raw_records(s, from, k, bct, umit) == Some((recs.take(k as int), pos)),
    ensures
        recs.len() == n,
        raw_record(s, pos, bct, umit) == Some(recs[k as int]),
        raw_records(s, from, k + 1, bct, umit) == Some(
            (recs.take(k as int + 1), pos + recs[k as int].bytes.len()),
        ),
        recs.take(k as int + 1) == recs.take(k as int).push(recs[k as int]),
{
    lemma_raw_records_prefix(s, from, k + 1, n, bct, umit);
    let next = raw_records(s, from, k + 1, bct, umit).unwrap();
    assert(next.0 == recs.take(k as int + 1));
    assert(next.0.last() == recs[k as int]);
    assert(recs.take(k as int + 1) =~= recs.take(k as int).push(recs[k as int]));
}

/// In a run of `n` records from the start the `k`-th lies where the run of
/// the first `k` ends.
pub proof fn lemma_next_record(
    s: Seq<u8>,
    k: nat,
    n: nat,
    bct: RadIntId,
    umit: RadIntId,
    recs: Seq<RawRecord>,
    pos: int,
)
    requires
        k < n,
        raw_records(s, 0, n, bct, umit) is Some,
        raw_records(s, 0, n, bct, umit).unwrap().0 == recs,
        raw_records(s, 0, k, bct, umit) == Some((recs.take(k as int), pos)),
    ensures
        recs.len() == n,
        raw_record(s, pos, bct, umit) == Some(recs[k as int]),
        raw_records(s, 0, k + 1, bct, umit) == Some(
            (recs.take(k as int + 1), pos + recs[k as int].bytes.len()),
        ),
        recs.take(k as int + 1) == recs.take(k as int).push(recs[k as int]),
{
    lemma_next_record_from(s, 0, k, n, bct, umit, recs, pos);
}

/// Reads the fixed part `(bc, umi, na)` of the record at `*pos` and moves
/// `*pos` behind the whole record, its alignment entries skipped. Where
/// `input` ends inside the record, nothing is consumed.
pub fn skip_record(input: &[u8], pos: &mut usize, bct: &RadIntId, umit: &RadIntId) -> (r: Result<
    (u64, u64, u32),
    RadError,
>)
    ensures
        match raw_record(input@, *old(pos) as int, *bct, *umit) {
            Some(rec) => r == Ok::<(u64, u64, u32), RadError>((rec.bc, rec.umi, rec.na))
                && *final(pos) == *old(pos) + rec.bytes.len() && *final(pos) <= input@.len()
                && rec.bytes == input@.subrange(*old(pos) as int, *final(pos) as int),
            None => r == Err::<(u64, u64, u32), RadError>(RadError::ShortRead) && *final(pos)
                == *old(pos),
        },
{
    reveal(raw_record);
    let start: usize = *pos;
    let len: usize = input.len();
    let (bc, umi, na) = match ReadRecord::from_bytes_record_header(input, pos, bct, umit) {
        Ok(t) => t,
        Err(e) => {
            return Err(e);
        },
    };
    if (len - *pos) / 4 < na as usize {
        *pos = start;
        return Err(RadError::ShortRead);
    }
    *pos = *pos + 4 * (na as usize);
    Ok((bc, umi, na))
}

/// Whether each record takes the bytes that the format gives a record with
/// its number of alignments.
pub open spec fn records_sized(recs: Seq<RawRecord>, bct: RadIntId, umit: RadIntId) -> bool {
    forall|i: int|
        0 <= i < recs.len() ==> (#[trigger] recs[i]).bytes.len() == record_bytes(
            recs[i].na as nat,
            bct,
            umit,
        )
}

/// Records read from input take the bytes that the format gives them.
pub proof fn lemma_raw_records_sized(
    s: Seq<u8>,
    pos: int,
    n: nat,
    bct: RadIntId,
    umit: RadIntId,
)
    requires
        raw_records(s, pos, n, bct, umit) is Some,
    ensures
        records_sized(raw_records(s, pos, n, bct, umit).unwrap().0, bct, umit),
    decreases n,
{
    if n > 0 {
        lemma_raw_records_sized(s, pos, (n - 1) as nat, bct, umit);
        let (before, at) = raw_records(s, pos, (n - 1) as nat, bct, umit).unwrap();
        lemma_raw_record_parts(s, at, bct, umit);
        let all = raw_records(s, pos, n, bct, umit).unwrap().0;
        assert forall|i: int| 0 <= i < all.len() implies (#[trigger] all[i]).bytes.len()
            == record_bytes(all[i].na as nat, bct, umit) by {
            if i < before.len() {
                assert(all[i] == before[i]);
            }
        }
    }
}

/// Whether each record's bytes can be read as a record that takes exactly
/// those bytes.
pub open spec fn records_decodable(recs: Seq<RawRecord>, bct: RadIntId, umit: RadIntId) -> bool {
    forall|i: int|
        0 <= i < recs.len() ==> (parse_record((#[trigger] recs[i]).bytes, 0, bct, umit) matches Some(
            r,
        ) && record_bytes(r.refs.len(), bct, umit) == recs[i].bytes.len())
}

/// Records read from input can be decoded, each from its own bytes.
pub proof fn lemma_raw_records_decodable(
    s: Seq<u8>,
    pos: int,
    n: nat,
    bct: RadIntId,
    umit: RadIntId,
)
    requires
        raw_records(s, pos, n, bct, umit) is Some,
    ensures
        records_decodable(raw_records(s, pos, n, bct, umit).unwrap().0, bct, umit),
    decreases n,
{
    if n > 0 {
        lemma_raw_records_decodable(s, pos, (n - 1) as nat, bct, umit);
        let (before, at) = raw_records(s, pos, (n - 1) as nat, bct, umit).unwrap();
        let all = raw_records(s, pos, n, bct, umit).unwrap().0;
        let rec = all.last();
        lemma_raw_record_parts(s, at, bct, umit);
        assert(raw_record(s, at, bct, umit) == Some(rec));
        let len = record_bytes(rec.na as nat, bct, umit) as int;
        assert(parse_record(s, at, bct, umit) is Some);
        assert(rec.bytes.subrange(0, len) =~= rec.bytes);
        lemma_parse_record_window(s, at, rec.bytes, 0, bct, umit);
        assert forall|i: int| 0 <= i < all.len() implies (parse_record(
            (#[trigger] all[i]).bytes,
            0,
            bct,
            umit,
        ) matches Some(r) && record_bytes(r.refs.len(), bct, umit) == all[i].bytes.len()) by {
            if i < before.len() {
                assert(all[i] == before[i]);
            }
        }
    }
}

/// The records of the chunk at `pos` in `s`, alignment entries undecoded,
/// with the position behind the chunk; `None` where `s` ends inside the
/// chunk.
pub open spec fn chunk_records(s: Seq<u8>, pos: int, bct: RadIntId, umit: RadIntId) -> Option<
    (Seq<RawRecord>, int),
> {
    match parse_chunk_header(s, pos) {
        Some((_, nrec)) => raw_records(s, pos + 8, nrec as nat, bct, umit),
        None => None,
    }
}

/// Where the `nrec` records that start at `from` in `input` end, or
/// `ShortRead` where `input` ends before that.
pub fn scan_records(input: &[u8], from: usize, bct: &RadIntId, umit: &RadIntId, nrec: u32) -> (r:
    Result<usize, RadError>)
    ensures
        match raw_records(input@, from as int, nrec as nat, *bct, *umit) {
            Some((_, end)) => (r matches Ok(e) && e == end) && from <= end && (nrec > 0 ==> end
                <= input@.len()),
            None => r == Err::<usize, RadError>(RadError::ShortRead),
        },
{
    let mut pos: usize = from;
    let ghost mut recs: Seq<RawRecord> = Seq::empty();
    let mut k: u32 = 0;
    while k < nrec
        invariant
            k <= nrec,
            from <= pos,
            k > 0 ==> pos <= input@.len(),
            raw_records(input@, from as int, k as nat, *bct, *umit) == Some((recs, pos as int)),
        decreases nrec - k,
    {
        let start: usize = pos;
        match skip_record(input, &mut pos, bct, umit) {
            Ok(_) => {},
            Err(e) => {
                proof {
                    assert(raw_records(input@, from as int, (k + 1) as nat, *bct, *umit) is None);
                    lemma_raw_records_stays_none(
                        input@,
                        from as int,
                        (k + 1) as nat,
                        nrec as nat,
                        *bct,
                        *umit,
                    );
                }
                return Err(e);
            },
        }
        proof {
            recs = recs.push(raw_record(input@, start as int, *bct, *umit).unwrap());
        }
        k += 1;
    }
    Ok(pos)
}

} // verus!
