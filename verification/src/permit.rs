//! Permit lists: reading one from text, making one from a histogram of
//! barcodes, and counting the reads of a chunk into such a histogram.

use vstd::prelude::*;
use vstd::std_specs::hash::builds_valid_hashers;
use vstd::std_specs::iter::IteratorSpec;
use std::collections::HashMap;
use std::hash::BuildHasher;
use bio_types::strand::Strand;
use vstd::slice::slice_subrange;
use crate::barcode::{lemma_small_is_valid_kmer, pow4, valid_kmer};
use crate::error::RadError;
use crate::record::{Chunk, ReadRecord, ReadRecordView};

verus! {

/// The barcodes that the histogram `hist` counts at least `min_freq` times,
/// each once, in the order in which the map hands them out.
pub fn permit_list_from_threshold<S: BuildHasher>(hist: &HashMap<u64, u64, S>, min_freq: u64) -> (r:
    Vec<u64>)
    requires
        builds_valid_hashers::<S>(),
    ensures
        r@.no_duplicates(),
        forall|k: u64| r@.contains(k) <==> (hist@.contains_key(k) && hist@[k] >= min_freq),
{
    let mut valid_bc: Vec<u64> = Vec::new();
    let ghost items = hist.iter().remaining();
    let ghost mut done: int = 0;
    for entry in iter: hist.iter()
        invariant
            builds_valid_hashers::<S>(),
            iter.seq() == items,
            done == iter.index(),
            forall|k: u64|
                valid_bc@.contains(k) <==> exists|i: int|
                    0 <= i < done && *(#[trigger] items[i]).0 == k && *items[i].1 >= min_freq,
            iter.seq().no_duplicates(),
            forall|i: int|
                0 <= i < iter.seq().len() ==> hist@.contains_key(*(#[trigger] iter.seq()[i]).0)
                    && hist@[*iter.seq()[i].0] == *iter.seq()[i].1,
            valid_bc@.no_duplicates(),
            forall|k: u64|
                valid_bc@.contains(k) <==> exists|i: int|
                    0 <= i < iter.index() && *(#[trigger] iter.seq()[i]).0 == k && *iter.seq()[i].1
                        >= min_freq,
    {
        let (k, v) = entry;
        let ghost at = iter.index();
        let ghost before = valid_bc@;
        assert(entry == iter.seq()[at]);
        if *v >= min_freq {
            proof {
                if before.contains(*k) {
                    let i = choose|i: int|
                        0 <= i < at && *(#[trigger] iter.seq()[i]).0 == *k && *iter.seq()[i].1
                            >= min_freq;
                    assert(iter.seq()[i] == iter.seq()[at]);
                }
            }
            valid_bc.push(*k);
            assert(valid_bc@[before.len() as int] == *k);
        }
        proof {
            done = done + 1;
            assert forall|key: u64| valid_bc@.contains(key) <==> exists|i: int|
                0 <= i < at + 1 && *(#[trigger] iter.seq()[i]).0 == key && *iter.seq()[i].1
                    >= min_freq by {
                if valid_bc@.contains(key) {
                    let j = choose|j: int| 0 <= j < valid_bc@.len() && valid_bc@[j] == key;
                    if j < before.len() {
                        assert(before[j] == key);
                        assert(before.contains(key));
                    } else {
                        assert(*iter.seq()[at].0 == key);
                    }
                }
                if exists|i: int|
                    0 <= i < at + 1 && *(#[trigger] iter.seq()[i]).0 == key && *iter.seq()[i].1
                        >= min_freq {
                    let i = choose|i: int|
                        0 <= i < at + 1 && *(#[trigger] iter.seq()[i]).0 == key && *iter.seq()[i].1
                            >= min_freq;
                    if i < at {
                        assert(before.contains(key));
                        let j = choose|j: int| 0 <= j < before.len() && before[j] == key;
                        assert(valid_bc@[j] == key);
                    }
                }
            }
        }
    }
    proof {
        assert forall|k: u64| valid_bc@.contains(k) <==> (hist@.contains_key(k) && hist@[k]
            >= min_freq) by {
            if hist@.contains_key(k) && hist@[k] >= min_freq {
                assert(items.contains((&k, &hist@[k])));
                let i = choose|i: int| 0 <= i < items.len() && items[i] == (&k, &hist@[k]);
                assert(*items[i].0 == k && *items[i].1 >= min_freq);
            }
            if valid_bc@.contains(k) {
                let i = choose|i: int|
                    0 <= i < done && *(#[trigger] items[i]).0 == k && *items[i].1 >= min_freq;
                assert(hist@.contains_key(*items[i].0));
            }
        }
    }
    valid_bc
}

/// Whether a read with the alignment strands `dirs` (`true` is forward)
/// is compatible with the orientation `expected`: it has an alignment on
/// that strand, or no orientation is expected.
pub open spec fn strand_compatible(dirs: Seq<bool>, expected: Strand) -> bool {
    match expected {
        Strand::Unknown => true,
        Strand::Forward => exists|i: int| 0 <= i < dirs.len() && dirs[i],
        Strand::Reverse => exists|i: int| 0 <= i < dirs.len() && !dirs[i],
    }
}

/// The number of reads that are compatible with `expected`.
pub open spec fn compatible_count(reads: Seq<ReadRecordView>, expected: Strand) -> nat
    decreases reads.len(),
{
    if reads.len() == 0 {
        0
    } else {
        compatible_count(reads.drop_last(), expected) + (if strand_compatible(
            reads.last().dirs,
            expected,
        ) {
            1nat
        } else {
            0nat
        })
    }
}

/// The number of reads with the barcode `bc` that are compatible with
/// `expected`.
pub open spec fn hits(reads: Seq<ReadRecordView>, expected: Strand, bc: u64) -> nat
    decreases reads.len(),
{
    if reads.len() == 0 {
        0
    } else {
        hits(reads.drop_last(), expected, bc) + (if reads.last().bc == bc && strand_compatible(
            reads.last().dirs,
            expected,
        ) {
            1nat
        } else {
            0nat
        })
    }
}

/// The largest number of alignments of a read that is compatible with
/// `expected`, or `start` where that is larger.
pub open spec fn widest(reads: Seq<ReadRecordView>, expected: Strand, start: nat) -> nat
    decreases reads.len(),
{
    if reads.len() == 0 {
        start
    } else {
        let before = widest(reads.drop_last(), expected, start);
        if strand_compatible(reads.last().dirs, expected) && reads.last().refs.len() > before {
            reads.last().refs.len()
        } else {
            before
        }
    }
}

/// The barcodes, in order and as often as they occur, of the reads that
/// are compatible with `expected` and whose barcode is not among `known`.
pub open spec fn unmatched_barcodes(
    reads: Seq<ReadRecordView>,
    expected: Strand,
    known: Set<u64>,
) -> Seq<u64>
    decreases reads.len(),
{
    if reads.len() == 0 {
        Seq::empty()
    } else {
        let before = unmatched_barcodes(reads.drop_last(), expected, known);
        if strand_compatible(reads.last().dirs, expected) && !known.contains(reads.last().bc) {
            before.push(reads.last().bc)
        } else {
            before
        }
    }
}

/// A barcode is hit no more often than there are reads.
pub proof fn lemma_hits_bound(reads: Seq<ReadRecordView>, expected: Strand, bc: u64)
    ensures
        hits(reads, expected, bc) <= reads.len(),
    decreases reads.len(),
{
    if reads.len() > 0 {
        lemma_hits_bound(reads.drop_last(), expected, bc);
    }
}

/// Decides whether a read is compatible with the expected orientation.
pub fn is_strand_compatible(r: &ReadRecord, expected_ori: &Strand) -> (b: bool)
    ensures
        b == strand_compatible(r.dirs@, *expected_ori),
{
    match expected_ori {
        Strand::Unknown => true,
        Strand::Forward => has_strand(&r.dirs, true),
        Strand::Reverse => has_strand(&r.dirs, false),
    }
}

/// Whether one of the strands is `want`.
fn has_strand(dirs: &Vec<bool>, want: bool) -> (b: bool)
    ensures
        b == exists|i: int| 0 <= i < dirs@.len() && dirs@[i] == want,
{
    let mut i: usize = 0;
    while i < dirs.len()
        invariant
            i <= dirs@.len(),
            forall|j: int| 0 <= j < i ==> dirs@[j] != want,
        decreases dirs@.len() - i,
    {
        if dirs[i] == want {
            return true;
        }
        i += 1;
    }
    false
}

/// Counts the reads of `chunk` that are compatible with `expected_ori` in
/// the histogram `hist`, by barcode: a barcode that `hist` does not hold
/// yet is entered. `max_ambiguity_read` is raised to the largest number of
/// alignments of such a read.
pub fn update_barcode_hist<S: BuildHasher>(
    hist: &mut HashMap<u64, u64, S>,
    max_ambiguity_read: &mut usize,
    chunk: &Chunk,
    expected_ori: &Strand,
)
    requires
        builds_valid_hashers::<S>(),
        forall|k: u64| #[trigger]
            old(hist)@.contains_key(k) ==> old(hist)@[k] + chunk@.reads.len() <= u64::MAX,
    ensures
        *final(max_ambiguity_read) == widest(
            chunk@.reads,
            *expected_ori,
            *old(max_ambiguity_read) as nat,
        ),
        forall|k: u64|
            #![trigger final(hist)@.contains_key(k)]
            final(hist)@.contains_key(k) <==> (old(hist)@.contains_key(k) || hits(
                chunk@.reads,
                *expected_ori,
                k,
            ) > 0),
        forall|k: u64| #[trigger]
            final(hist)@.contains_key(k) ==> final(hist)@[k] == (if old(hist)@.contains_key(k) {
                old(hist)@[k]
            } else {
                0
            }) + hits(chunk@.reads, *expected_ori, k),
{
    let n: usize = chunk.reads.len();
    let ghost reads = chunk@.reads;
    let ghost before = hist@;
    let mut i: usize = 0;
    assert(reads.take(0) =~= Seq::<ReadRecordView>::empty());
    while i < n
        invariant
            i <= n,
            n == chunk.reads@.len(),
            reads == chunk@.reads,
            reads.len() == n,
            builds_valid_hashers::<S>(),
            forall|k: u64| #[trigger]
                before.contains_key(k) ==> before[k] + reads.len() <= u64::MAX,
            *max_ambiguity_read == widest(
                reads.take(i as int),
                *expected_ori,
                *old(max_ambiguity_read) as nat,
            ),
            forall|k: u64|
                #![trigger hist@.contains_key(k)]
                hist@.contains_key(k) <==> (before.contains_key(k) || hits(
                    reads.take(i as int),
                    *expected_ori,
                    k,
                ) > 0),
            forall|k: u64| #[trigger]
                hist@.contains_key(k) ==> hist@[k] == (if before.contains_key(k) {
                    before[k]
                } else {
                    0
                }) + hits(reads.take(i as int), *expected_ori, k),
        decreases n - i,
    {
        let r = &chunk.reads[i];
        let ghost held = hist@;
        proof {
            assert(reads.take(i + 1).drop_last() =~= reads.take(i as int));
            assert(reads.take(i + 1).last() == r@);
            assert forall|k: u64| hits(reads.take(i as int), *expected_ori, k) <= i by {
                lemma_hits_bound(reads.take(i as int), *expected_ori, k);
            }
        }
        if is_strand_compatible(r, expected_ori) {
            let na: usize = r.refs.len();
            if na > *max_ambiguity_read {
                *max_ambiguity_read = na;
            }
            let count: u64 = match hist.get(&r.bc) {
                Some(c) => *c,
                None => 0,
            };
            assert(hits(reads.take(i as int), *expected_ori, r.bc) <= i);
            hist.insert(r.bc, count + 1);
            assert(hist@ == held.insert(r.bc, (count + 1) as u64));
        }
        i += 1;
    }
    assert(reads.take(n as int) =~= reads);
}

/// Counts the reads of `chunk` that are compatible with `expected_ori` in
/// the histogram `hist`, by barcode, where `hist` holds the barcode; the
/// barcode of a read for which it does not is appended to `unmatched_bc`.
/// `max_ambiguity_read` is raised to the largest number of alignments of
/// such a read. Returned is the number of compatible reads.
pub fn update_barcode_hist_unfiltered<S: BuildHasher>(
    hist: &mut HashMap<u64, u64, S>,
    unmatched_bc: &mut Vec<u64>,
    max_ambiguity_read: &mut usize,
    chunk: &Chunk,
    expected_ori: &Strand,
) -> (num_strand_compat_reads: usize)
    requires
        builds_valid_hashers::<S>(),
        forall|k: u64| #[trigger]
            old(hist)@.contains_key(k) ==> old(hist)@[k] + chunk@.reads.len() <= u64::MAX,
    ensures
        num_strand_compat_reads == compatible_count(chunk@.reads, *expected_ori),
        *final(max_ambiguity_read) == widest(
            chunk@.reads,
            *expected_ori,
            *old(max_ambiguity_read) as nat,
        ),
        final(hist)@.dom() == old(hist)@.dom(),
        forall|k: u64| #[trigger]
            final(hist)@.contains_key(k) ==> final(hist)@[k] == old(hist)@[k] + hits(
                chunk@.reads,
                *expected_ori,
                k,
            ),
        final(unmatched_bc)@ == old(unmatched_bc)@ + unmatched_barcodes(
            chunk@.reads,
            *expected_ori,
            old(hist)@.dom(),
        ),
{
    let n: usize = chunk.reads.len();
    let ghost reads = chunk@.reads;
    let ghost before = hist@;
    let mut num: usize = 0;
    let mut i: usize = 0;
    assert(reads.take(0) =~= Seq::<ReadRecordView>::empty());
    assert(unmatched_bc@ + Seq::<u64>::empty() =~= unmatched_bc@);
    while i < n
        invariant
            i <= n,
            n == chunk.reads@.len(),
            reads == chunk@.reads,
            reads.len() == n,
            builds_valid_hashers::<S>(),
            forall|k: u64| #[trigger]
                before.contains_key(k) ==> before[k] + reads.len() <= u64::MAX,
            num == compatible_count(reads.take(i as int), *expected_ori),
            num <= i,
            *max_ambiguity_read == widest(
                reads.take(i as int),
                *expected_ori,
                *old(max_ambiguity_read) as nat,
            ),
            hist@.dom() == before.dom(),
            forall|k: u64| #[trigger]
                hist@.contains_key(k) ==> hist@[k] == before[k] + hits(
                    reads.take(i as int),
                    *expected_ori,
                    k,
                ),
            unmatched_bc@ == old(unmatched_bc)@ + unmatched_barcodes(
                reads.take(i as int),
                *expected_ori,
                before.dom(),
            ),
        decreases n - i,
    {
        let r = &chunk.reads[i];
        let ghost held = hist@;
        let ghost listed = unmatched_bc@;
        proof {
            assert(reads.take(i + 1).drop_last() =~= reads.take(i as int));
            assert(reads.take(i + 1).last() == r@);
            lemma_hits_bound(reads.take(i as int), *expected_ori, r.bc);
        }
        if is_strand_compatible(r, expected_ori) {
            num += 1;
            let na: usize = r.refs.len();
            if na > *max_ambiguity_read {
                *max_ambiguity_read = na;
            }
            let found: Option<u64> = match hist.get(&r.bc) {
                Some(c) => Some(*c),
                None => None,
            };
            match found {
                Some(count) => {
                    hist.insert(r.bc, count + 1);
                    assert(hist@ == held.insert(r.bc, (count + 1) as u64));
                    assert(hist@.dom() =~= before.dom());
                },
                None => {
                    unmatched_bc.push(r.bc);
                    assert(unmatched_bc@ =~= old(unmatched_bc)@ + unmatched_barcodes(
                        reads.take(i as int),
                        *expected_ori,
                        before.dom(),
                    ).push(r.bc));
                },
            }
        }
        i += 1;
    }
    assert(reads.take(n as int) =~= reads);
    num
}

/// Whether the byte `b` is one of the letters `A`, `C`, `G`, `T`.
pub open spec fn is_nucleotide(b: u8) -> bool {
    b == 65 || b == 67 || b == 71 || b == 84
}

/// The two bits that stand for a nucleotide: `A` is 0, `C` 1, `G` 2, `T` 3.
pub open spec fn nucleotide_code(b: u8) -> nat {
    if b == 67 {
        1
    } else if b == 71 {
        2
    } else if b == 84 {
        3
    } else {
        0
    }
}

/// The 2-bit encoding of the nucleotides `line`: the first nucleotide ends
/// up in the highest bits.
pub open spec fn kmer_value(line: Seq<u8>) -> nat
    decreases line.len(),
{
    if line.len() == 0 {
        0
    } else {
        4 * kmer_value(line.drop_last()) + nucleotide_code(line.last())
    }
}

/// Whether `line` is a barcode of `bclen` nucleotides.
pub open spec fn valid_barcode_line(line: Seq<u8>, bclen: u16) -> bool {
    line.len() == bclen && forall|i: int| 0 <= i < line.len() ==> is_nucleotide(#[trigger] line[i])
}

/// The lines that are complete (each ended by a line feed) within the
/// first `n` bytes of `text`, and the bytes of the line begun after them.
/// A carriage return in front of the line feed does not belong to the line.
pub open spec fn lines_upto(text: Seq<u8>, n: int) -> (Seq<Seq<u8>>, Seq<u8>)
    decreases n,
{
    if n <= 0 {
        (Seq::empty(), Seq::empty())
    } else {
        let (lines, cur) = lines_upto(text, n - 1);
        if text[n - 1] == 10 {
            (
                lines.push(
                    if cur.len() > 0 && cur.last() == 13 {
                        cur.drop_last()
                    } else {
                        cur
                    },
                ),
                Seq::empty(),
            )
        } else {
            (lines, cur.push(text[n - 1]))
        }
    }
}

/// The lines of `text`. A last line need not be ended by a line feed.
pub open spec fn lines_of(text: Seq<u8>) -> Seq<Seq<u8>> {
    let (lines, cur) = lines_upto(text, text.len() as int);
    if cur.len() > 0 {
        lines.push(cur)
    } else {
        lines
    }
}

/// The encoding of `n` nucleotides is below `4^n`.
pub proof fn lemma_kmer_value_bound(line: Seq<u8>)
    ensures
        kmer_value(line) < pow4(line.len()),
    decreases line.len(),
{
    if line.len() > 0 {
        lemma_kmer_value_bound(line.drop_last());
    }
}

/// The encoding of two runs of nucleotides, one after the other.
pub proof fn lemma_kmer_value_concat(a: Seq<u8>, b: Seq<u8>)
    ensures
        kmer_value(a + b) == kmer_value(a) * pow4(b.len()) + kmer_value(b),
    decreases b.len(),
{
    if b.len() == 0 {
        assert(a + b =~= a);
        assert(pow4(0) == 1);
        assert(kmer_value(a) * 1 == kmer_value(a)) by (nonlinear_arith);
    } else {
        lemma_kmer_value_concat(a, b.drop_last());
        assert((a + b).drop_last() =~= a + b.drop_last());
        assert((a + b).last() == b.last());
        let x = kmer_value(a);
        let p = pow4((b.len() - 1) as nat);
        let y = kmer_value(b.drop_last());
        let c = nucleotide_code(b.last());
        assert(kmer_value(a + b) == 4 * (x * p + y) + c);
        assert(pow4(b.len()) == 4 * p);
        assert(4 * (x * p + y) + c == x * (4 * p) + (4 * y + c)) by (nonlinear_arith);
        assert(kmer_value(b) == 4 * y + c);
    }
}

/// `needletail`'s `BitNuclKmer` over a line that is exactly one k-mer of
/// `k` upper-case nucleotides, without reverse complement: its first item
/// is the line's 2-bit encoding. (At other lengths and letters the iterator
/// skips and slides; for `k` of 0 or beyond 31 its arithmetic overflows.)
#[verifier::external_body]
fn first_kmer(line: &[u8], k: u8) -> (r: Option<u64>)
    requires
        1 <= k <= 31,
        line@.len() == k,
        forall|i: int| 0 <= i < line@.len() ==> is_nucleotide(#[trigger] line@[i]),
    ensures
        r == Some(kmer_value(line@) as u64),
{
    needletail::bitkmer::BitNuclKmer::new(line, k, false).next().map(|item| (item.1).0)
}

/// Whether every byte of `line` is a nucleotide letter.
fn all_nucleotides(line: &[u8]) -> (b: bool)
    ensures
        b == forall|i: int| 0 <= i < line@.len() ==> is_nucleotide(#[trigger] line@[i]),
{
    let mut i: usize = 0;
    while i < line.len()
        invariant
            i <= line@.len(),
            forall|j: int| 0 <= j < i ==> is_nucleotide(#[trigger] line@[j]),
        decreases line@.len() - i,
    {
        let b: u8 = line[i];
        if !(b == 65 || b == 67 || b == 71 || b == 84) {
            return false;
        }
        i += 1;
    }
    true
}

/// Encodes one line of a permit list: a barcode of `bclen` nucleotides.
pub fn encode_barcode(line: &[u8], bclen: u16) -> (r: Result<u64, RadError>)
    ensures
        match r {
            Ok(v) => bclen <= 32 && valid_barcode_line(line@, bclen) && v == kmer_value(line@)
                && valid_kmer(v, bclen as u32),
            Err(e) => e == RadError::MalformedRecord && !(bclen <= 32 && valid_barcode_line(
                line@,
                bclen,
            )),
        },
{
    if bclen > 32 || line.len() != bclen as usize || !all_nucleotides(line) {
        return Err(RadError::MalformedRecord);
    }
    proof {
        lemma_kmer_value_bound(line@);
        reveal_with_fuel(pow4, 3);
    }
    let value: Option<u64> = if bclen == 0 {
        Some(0)
    } else if bclen <= 31 {
        proof {
            crate::barcode::lemma_prefix_count_is_power_of_four(bclen as u32);
        }
        first_kmer(line, bclen as u8)
    } else {
        let head = slice_subrange(line, 0, 16);
        let tail = slice_subrange(line, 16, 32);
        proof {
            lemma_kmer_value_bound(head@);
            lemma_kmer_value_bound(tail@);
            lemma_kmer_value_concat(head@, tail@);
            assert(head@ + tail@ =~= line@);
            crate::barcode::lemma_prefix_count_is_power_of_four(16);
            assert(1u64 << 32u64 == 0x1_0000_0000) by (bit_vector);
        }
        match (first_kmer(head, 16), first_kmer(tail, 16)) {
            (Some(hi), Some(lo)) => {
                assert(hi * 0x1_0000_0000 + lo <= u64::MAX) by (nonlinear_arith)
                    requires
                        hi < 0x1_0000_0000,
                        lo < 0x1_0000_0000,
                ;
                Some(hi * 0x1_0000_0000 + lo)
            },
            _ => None,
        }
    };
    match value {
        Some(v) => {
            proof {
                if bclen < 32 {
                    crate::barcode::lemma_prefix_count_is_power_of_four(bclen as u32);
                }
                lemma_small_is_valid_kmer(v, bclen as u32);
            }
            Ok(v)
        },
        None => Err(RadError::MalformedRecord),
    }
}

/// Reads a permit list: plain text with one barcode of `bclen` nucleotides
/// on each line. The result holds the 2-bit encoding of each line's
/// barcode, in the order of the lines.
///
/// Fails with `MalformedRecord` where a line has another length or holds
/// another byte than `A`, `C`, `G`, `T`, or where `bclen` is beyond 32.
pub fn permit_list_from_file(contents: &[u8], bclen: u16) -> (r: Result<Vec<u64>, RadError>)
    ensures
        match r {
            Ok(bc) => {
                &&& bclen <= 32
                &&& bc@.len() == lines_of(contents@).len()
                &&& forall|i: int|
                    #![trigger bc@[i]]
                    #![trigger lines_of(contents@)[i]]
                    0 <= i < bc@.len() ==> valid_barcode_line(lines_of(contents@)[i], bclen)
                        && bc@[i] == kmer_value(lines_of(contents@)[i]) && valid_kmer(
                        bc@[i],
                        bclen as u32,
                    )
            },
            Err(e) => e == RadError::MalformedRecord && !(bclen <= 32 && forall|i: int|
                0 <= i < lines_of(contents@).len() ==> valid_barcode_line(
                    #[trigger] lines_of(contents@)[i],
                    bclen,
                )),
        },
{
    let n: usize = contents.len();
    let mut bc: Vec<u64> = Vec::new();
    let mut cur: Vec<u8> = Vec::new();
    let mut i: usize = 0;
    while i < n
        invariant
            i <= n,
            n == contents@.len(),
            cur@ == lines_upto(contents@, i as int).1,
            bc@.len() == lines_upto(contents@, i as int).0.len(),
            bc@.len() > 0 ==> bclen <= 32,
            forall|j: int|
                #![trigger bc@[j]]
                #![trigger lines_upto(contents@, i as int).0[j]]
                0 <= j < bc@.len() ==> valid_barcode_line(
                    lines_upto(contents@, i as int).0[j],
                    bclen,
                ) && bc@[j] == kmer_value(lines_upto(contents@, i as int).0[j]) && valid_kmer(
                    bc@[j],
                    bclen as u32,
                ),
        decreases n - i,
    {
        let b: u8 = contents[i];
        let ghost lines = lines_upto(contents@, i as int).0;
        let ghost coded = bc@;
        if b == 10 {
            if cur.len() > 0 && cur[cur.len() - 1] == 13 {
                cur.pop();
            }
            let ghost line = cur@;
            match encode_barcode(cur.as_slice(), bclen) {
                Ok(v) => {
                    bc.push(v);
                },
                Err(e) => {
                    proof {
                        lemma_line_stays(contents@, i + 1, lines.len() as int);
                    }
                    return Err(e);
                },
            }
            cur = Vec::new();
        } else {
            cur.push(b);
        }
        proof {
            let next = lines_upto(contents@, i + 1).0;
            assert forall|j: int|
                #![trigger bc@[j]]
                #![trigger next[j]]
                0 <= j < bc@.len() implies valid_barcode_line(next[j], bclen) && bc@[j]
                == kmer_value(next[j]) && valid_kmer(bc@[j], bclen as u32) by {
                if j < lines.len() {
                    assert(next[j] == lines[j]);
                    assert(bc@[j] == coded[j]);
                }
            }
        }
        i += 1;
    }
    let ghost lines = lines_upto(contents@, n as int).0;
    let ghost coded = bc@;
    if cur.len() > 0 {
        match encode_barcode(cur.as_slice(), bclen) {
            Ok(v) => {
                bc.push(v);
            },
            Err(e) => {
                assert(lines_of(contents@)[lines.len() as int] == cur@);
                return Err(e);
            },
        }
    }
    if bclen > 32 {
        return Err(RadError::MalformedRecord);
    }
    proof {
        let all = lines_of(contents@);
        assert(all.len() == bc@.len());
        assert forall|j: int|
            #![trigger bc@[j]]
            #![trigger all[j]]
            0 <= j < bc@.len() implies valid_barcode_line(all[j], bclen) && bc@[j] == kmer_value(
            all[j],
        ) && valid_kmer(bc@[j], bclen as u32) by {
            if j < lines.len() {
                assert(all[j] == lines[j]);
                assert(bc@[j] == coded[j]);
            }
        }
    }
    Ok(bc)
}

/// A line that is complete within the first `n` bytes is a line of the
/// text.
proof fn lemma_line_stays(text: Seq<u8>, n: int, j: int)
    requires
        0 <= n <= text.len(),
        0 <= j < lines_upto(text, n).0.len(),
    ensures
        j < lines_of(text).len(),
        lines_of(text)[j] == lines_upto(text, n).0[j],
    decreases text.len() - n,
{
    if n < text.len() {
        assert(lines_upto(text, n + 1).0.len() >= lines_upto(text, n).0.len());
        assert(lines_upto(text, n + 1).0[j] == lines_upto(text, n).0[j]);
        lemma_line_stays(text, n + 1, j);
    }
}

} // verus!
