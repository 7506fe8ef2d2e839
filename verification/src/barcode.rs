//! A dictionary of barcodes, 2-bit encoded: the barcodes in ascending
//! order with a table of offsets by prefix, for looking a barcode up
//! exactly or by its neighbours at Hamming distance one.

use vstd::prelude::*;
use crate::error::RadError;

verus! {

/// `4^n`.
pub open spec fn pow4(n: nat) -> nat
    decreases n,
{
    if n == 0 {
        1
    } else {
        4 * pow4((n - 1) as nat)
    }
}

/// The number of nucleotides in the prefix of a barcode of `bclen`
/// nucleotides: half of them, rounded up.
pub open spec fn prefix_len_of(bclen: u32) -> u32 {
    ((bclen + 1) / 2) as u32
}

/// The number of bits that the suffix of a barcode of `bclen` nucleotides
/// takes: two for each nucleotide that is not in the prefix.
pub open spec fn suffix_bits_of(bclen: u32) -> u64 {
    (2 * (bclen - prefix_len_of(bclen))) as u64
}

/// The number of distinct prefixes of `prefix_len` nucleotides:
/// `4^prefix_len`, written as a shift.
pub open spec fn prefix_count(prefix_len: u32) -> u64 {
    1u64 << ((2 * prefix_len) as u64)
}

/// Whether `q` is the 2-bit encoding of `bclen` nucleotides: no bit is set
/// beyond the lowest `2 * bclen`.
pub open spec fn valid_kmer(q: u64, bclen: u32) -> bool {
    bclen >= 32 || (q >> ((2 * bclen) as u64)) == 0
}

/// The k-mer `q` with the nucleotide at bit offset `sh` advanced by `k`
/// steps through the four nucleotides.
pub open spec fn mutant(q: u64, sh: u64, k: u64) -> u64 {
    (q & !(3u64 << sh)) | ((((((q >> sh) & 3) + k) as u64) & 3) << sh)
}

/// Whether the k-mers `a` and `b` differ, and differ only in the nucleotide
/// at bit offset `sh`.
pub open spec fn differ_only_at(a: u64, b: u64, sh: u64) -> bool {
    a != b && (a & !(3u64 << sh)) == (b & !(3u64 << sh))
}

/// Whether the k-mers `a` and `b` of `bclen` nucleotides are at Hamming
/// distance exactly one: they differ in one nucleotide and in nothing else.
pub open spec fn hamming_one(a: u64, b: u64, bclen: u32) -> bool {
    exists|i: u64| i < bclen && #[trigger] differ_only_at(a, b, (2 * i) as u64)
}

/// Whether `s` ascends (equal neighbours allowed).
pub open spec fn sorted(s: Seq<u64>) -> bool {
    forall|i: int, j: int| 0 <= i <= j < s.len() ==> s[i] <= s[j]
}

/// Whether `offsets[p]` marks where the barcodes with a prefix below `p`
/// end: exactly the barcodes in front of it have such a prefix.
pub open spec fn marks_prefix(barcodes: Seq<u64>, offsets: Seq<usize>, p: int, sb: u64) -> bool {
    &&& offsets[p] <= barcodes.len()
    &&& forall|idx: int|
        0 <= idx < barcodes.len() ==> (idx < offsets[p] <==> (#[trigger] barcodes[idx] >> sb) < p)
}

/// The number of prefixes, written as a shift, is the power of four.
pub proof fn lemma_prefix_count_is_power_of_four(prefix_len: u32)
    requires
        prefix_len <= 31,
    ensures
        prefix_count(prefix_len) == pow4(prefix_len as nat),
    decreases prefix_len,
{
    if prefix_len == 0 {
        assert(1u64 << 0u64 == 1) by (bit_vector);
    } else {
        let n = (prefix_len - 1) as u32;
        lemma_prefix_count_is_power_of_four(n);
        let a = (2 * n) as u64;
        let b = (2 * prefix_len) as u64;
        assert(b == a + 2 && a <= 60 ==> (1u64 << b) == 4 * (1u64 << a) && (1u64 << a)
            <= 0x1000_0000_0000_0000) by (bit_vector);
    }
}

/// A number below `4^bclen` is the 2-bit encoding of `bclen` nucleotides.
pub proof fn lemma_small_is_valid_kmer(v: u64, bclen: u32)
    requires
        bclen <= 32,
        bclen < 32 ==> v < pow4(bclen as nat),
    ensures
        valid_kmer(v, bclen),
{
    if bclen < 32 {
        lemma_prefix_count_is_power_of_four(bclen);
        let s = (2 * bclen) as u64;
        assert(s < 64 && v < (1u64 << s) ==> (v >> s) == 0) by (bit_vector);
    }
}

/// Shifting to the right keeps the order of two numbers.
proof fn lemma_shift_keeps_order(a: u64, b: u64, s: u64)
    requires
        a <= b,
        s < 64,
    ensures
        (a >> s) <= (b >> s),
{
    assert(a <= b && s < 64 ==> (a >> s) <= (b >> s)) by (bit_vector);
}

/// The zero k-mer is valid at every length.
proof fn lemma_zero_is_valid(bclen: u32)
    requires
        bclen <= 32,
    ensures
        valid_kmer(0, bclen),
{
    let all = (2 * bclen) as u64;
    assert(all <= 64 ==> (0u64 >> all) == 0) by (bit_vector);
}

/// The prefix of a valid k-mer is below the number of prefixes.
proof fn lemma_prefix_in_table(q: u64, bclen: u32)
    requires
        bclen <= 32,
        valid_kmer(q, bclen),
    ensures
        (q >> suffix_bits_of(bclen)) < prefix_count(prefix_len_of(bclen)),
        prefix_count(prefix_len_of(bclen)) <= 0x1_0000_0000,
        prefix_count(prefix_len_of(bclen)) >= 1,
        suffix_bits_of(bclen) <= 32,
{
    let pb = (2 * prefix_len_of(bclen)) as u64;
    let sb = suffix_bits_of(bclen);
    let all = (2 * bclen) as u64;
    assert(pb <= 32 ==> 1 <= (1u64 << pb) <= 0x1_0000_0000) by (bit_vector);
    if bclen >= 32 {
        assert(sb == 32 && pb == 32 ==> (q >> sb) < (1u64 << pb)) by (bit_vector);
    } else {
        assert(all == sb + pb && all <= 62 && (q >> all) == 0 ==> (q >> sb) < (1u64 << pb))
            by (bit_vector);
    }
}

/// Advancing one nucleotide by one to three steps gives a k-mer that
/// differs in that nucleotide alone, and a valid one where `q` is valid.
proof fn lemma_mutant_is_neighbor(q: u64, sh: u64, k: u64, bclen: u32)
    requires
        bclen <= 32,
        valid_kmer(q, bclen),
        sh + 2 <= 2 * bclen,
        1 <= k <= 3,
    ensures
        differ_only_at(q, mutant(q, sh, k), sh),
        valid_kmer(mutant(q, sh, k), bclen),
{
    let m = mutant(q, sh, k);
    assert(m != q && (q & !(3u64 << sh)) == (m & !(3u64 << sh))) by (bit_vector)
        requires
            sh <= 62,
            1 <= k <= 3,
            m == (q & !(3u64 << sh)) | ((((((q >> sh) & 3) + k) as u64) & 3) << sh),
    ;
    if bclen < 32 {
        let all = (2 * bclen) as u64;
        assert((m >> all) == 0) by (bit_vector)
            requires
                sh + 2 <= all,
                all <= 62,
                (q >> all) == 0,
                m == (q & !(3u64 << sh)) | ((((((q >> sh) & 3) + k) as u64) & 3) << sh),
        ;
    }
}

/// A k-mer that differs from `q` in one nucleotide alone is `q` with that
/// nucleotide advanced by one, two or three steps.
proof fn lemma_neighbor_is_mutant(q: u64, v: u64, sh: u64)
    requires
        sh <= 62,
        differ_only_at(q, v, sh),
    ensures
        v == mutant(q, sh, 1) || v == mutant(q, sh, 2) || v == mutant(q, sh, 3),
{
    let m1 = mutant(q, sh, 1);
    let m2 = mutant(q, sh, 2);
    let m3 = mutant(q, sh, 3);
    assert(v == m1 || v == m2 || v == m3) by (bit_vector)
        requires
            sh <= 62,
            v != q,
            (q & !(3u64 << sh)) == (v & !(3u64 << sh)),
            m1 == (q & !(3u64 << sh)) | ((((((q >> sh) & 3) + 1) as u64) & 3) << sh),
            m2 == (q & !(3u64 << sh)) | ((((((q >> sh) & 3) + 2) as u64) & 3) << sh),
            m3 == (q & !(3u64 << sh)) | ((((((q >> sh) & 3) + 3) as u64) & 3) << sh),
    ;
}

/// Different steps at one nucleotide give different k-mers.
proof fn lemma_mutants_differ_by_step(q: u64, sh: u64, k1: u64, k2: u64)
    requires
        sh <= 62,
        1 <= k1 <= 3,
        1 <= k2 <= 3,
        k1 != k2,
    ensures
        mutant(q, sh, k1) != mutant(q, sh, k2),
{
    let m1 = mutant(q, sh, k1);
    let m2 = mutant(q, sh, k2);
    assert(m1 != m2) by (bit_vector)
        requires
            sh <= 62,
            1 <= k1 <= 3,
            1 <= k2 <= 3,
            k1 != k2,
            m1 == (q & !(3u64 << sh)) | ((((((q >> sh) & 3) + k1) as u64) & 3) << sh),
            m2 == (q & !(3u64 << sh)) | ((((((q >> sh) & 3) + k2) as u64) & 3) << sh),
    ;
}

/// No k-mer differs from `q` in one nucleotide alone and also in another
/// nucleotide alone.
proof fn lemma_neighbors_differ_by_position(q: u64, v: u64, i1: u64, i2: u64)
    requires
        i1 < 32,
        i2 < 32,
        i1 != i2,
        differ_only_at(q, v, (2 * i1) as u64),
    ensures
        !differ_only_at(q, v, (2 * i2) as u64),
{
    let s1 = (2 * i1) as u64;
    let s2 = (2 * i2) as u64;
    assert(i1 < 32 && i2 < 32 && i1 != i2 && s1 == 2 * i1 && s2 == 2 * i2 && (q & !(3u64 << s1))
        == (v & !(3u64 << s1)) && (q & !(3u64 << s2)) == (v & !(3u64 << s2)) ==> q == v)
        by (bit_vector);
}

/// An offset table whose every entry marks its prefix starts at 0, never
/// descends, and ends at the number of barcodes.
proof fn lemma_marks_shape(barcodes: Seq<u64>, offsets: Seq<usize>, count: int, sb: u64, bclen: u32)
    requires
        bclen <= 32,
        sb == suffix_bits_of(bclen),
        count == prefix_count(prefix_len_of(bclen)),
        offsets.len() == count + 1,
        forall|i: int| 0 <= i < barcodes.len() ==> valid_kmer(#[trigger] barcodes[i], bclen),
        forall|p: int| 0 <= p <= count ==> #[trigger] marks_prefix(barcodes, offsets, p, sb),
    ensures
        offsets[0] == 0,
        offsets[count] == barcodes.len(),
        forall|p: int, r: int| 0 <= p <= r <= count ==> offsets[p] <= offsets[r],
{
    lemma_zero_is_valid(bclen);
    lemma_prefix_in_table(0, bclen);
    assert(marks_prefix(barcodes, offsets, 0, sb));
    assert(marks_prefix(barcodes, offsets, count, sb));
    if offsets[0] > 0 {
        assert((barcodes[0] >> sb) < 0);
    }
    if offsets[count] < barcodes.len() {
        let idx = offsets[count] as int;
        lemma_prefix_in_table(barcodes[idx], bclen);
        assert(!((barcodes[idx] >> sb) < count));
    }
    assert forall|p: int, r: int| 0 <= p <= r <= count implies offsets[p] <= offsets[r] by {
        assert(marks_prefix(barcodes, offsets, p, sb));
        assert(marks_prefix(barcodes, offsets, r, sb));
        if offsets[p] > offsets[r] {
            let idx = offsets[r] as int;
            assert((barcodes[idx] >> sb) < p);
            assert(!((barcodes[idx] >> sb) < r));
        }
    }
}

/// The standard library's `sort_unstable` on a vector of `u64`: afterwards
/// the vector ascends and holds the same values, each as often as before.
#[verifier::external_body]
fn sort_barcodes(v: &mut Vec<u64>)
    ensures
        sorted(final(v)@),
        final(v)@.to_multiset() == old(v)@.to_multiset(),
{
    v.sort_unstable();
}

/// A dictionary of barcodes: the barcodes in ascending order, and for each
/// prefix the place where the barcodes with that prefix start.
#[derive(Debug)]
pub struct BarcodeLookupMap {
    pub barcodes: Vec<u64>,
    pub offsets: Vec<usize>,
    pub bclen: u32,
    pub prefix_len: u32,
    pub suffix_len: u32,
}

impl BarcodeLookupMap {
    /// The invariant of the map: the barcodes are valid and ascend, and the
    /// offset table has one entry for each prefix and one more, each
    /// marking where the barcodes with a smaller prefix end. So the table
    /// starts at 0, never descends, and ends at the number of barcodes.
    pub open spec fn wf(&self) -> bool {
        let count = prefix_count(self.prefix_len);
        let sb = suffix_bits_of(self.bclen);
        &&& self.bclen <= 32
        &&& self.prefix_len == prefix_len_of(self.bclen)
        &&& self.suffix_len == self.bclen - self.prefix_len
        &&& sorted(self.barcodes@)
        &&& forall|i: int|
            0 <= i < self.barcodes@.len() ==> valid_kmer(#[trigger] self.barcodes@[i], self.bclen)
        &&& self.offsets@.len() == count + 1
        &&& forall|p: int|
            0 <= p <= count ==> #[trigger] marks_prefix(self.barcodes@, self.offsets@, p, sb)
        &&& self.offsets@[0] == 0
        &&& self.offsets@[count as int] == self.barcodes@.len()
        &&& forall|p: int, r: int| 0 <= p <= r <= count ==> self.offsets@[p] <= self.offsets@[r]
    }

    /// Builds the map of the barcodes `kv`, each of `bclen` nucleotides:
    /// sorts them and fills the offset table. Barcodes that occur twice
    /// stay twice.
    pub fn new(kv: Vec<u64>, bclen: u32) -> (r: BarcodeLookupMap)
        requires
            bclen <= 32,
            forall|i: int| 0 <= i < kv@.len() ==> valid_kmer(#[trigger] kv@[i], bclen),
            prefix_count(prefix_len_of(bclen)) < usize::MAX,
        ensures
            r.wf(),
            r.bclen == bclen,
            r.barcodes@.to_multiset() == kv@.to_multiset(),
    {
        let prefix_len: u32 = (bclen + 1) / 2;
        let suffix_len: u32 = bclen - prefix_len;
        let suffix_bits: u64 = 2 * (suffix_len as u64);
        let mut kv = kv;
        let ghost given = kv@;
        sort_barcodes(&mut kv);
        let n: usize = kv.len();
        proof {
            broadcast use vstd::seq_lib::group_to_multiset_ensures;

            assert forall|i: int| 0 <= i < kv@.len() implies valid_kmer(
                #[trigger] kv@[i],
                bclen,
            ) by {
                assert(kv@.contains(kv@[i]));
                assert(given.to_multiset().count(kv@[i]) > 0);
                assert(given.contains(kv@[i]));
            }
            lemma_zero_is_valid(bclen);
            lemma_prefix_in_table(0, bclen);
        }
        let count: usize = (1u64 << (2 * (prefix_len as u64))) as usize;
        let mut offsets: Vec<usize> = vec![0usize; count + 1];
        assert(offsets@[0] == 0);
        let mut prev: usize = 0;
        let mut i: usize = 0;
        while i < n
            invariant
                i <= n,
                n == kv@.len(),
                bclen <= 32,
                suffix_bits <= 32,
                suffix_bits == suffix_bits_of(bclen),
                prefix_len == prefix_len_of(bclen),
                count == prefix_count(prefix_len),
                count < usize::MAX,
                offsets@.len() == count + 1,
                sorted(kv@),
                forall|j: int| 0 <= j < kv@.len() ==> valid_kmer(#[trigger] kv@[j], bclen),
                prev < count,
                i > 0 ==> prev == (kv@[i - 1] >> suffix_bits),
                i == 0 ==> prev == 0,
                forall|p: int|
                    #![trigger offsets@[p]]
                    #![trigger marks_prefix(kv@, offsets@, p, suffix_bits)]
                    0 <= p <= prev ==> offsets@[p] <= i && marks_prefix(
                        kv@,
                        offsets@,
                        p,
                        suffix_bits,
                    ),
            decreases n - i,
        {
            let v: u64 = kv[i];
            proof {
                lemma_prefix_in_table(v, bclen);
                if i > 0 {
                    lemma_shift_keeps_order(kv@[i - 1], v, suffix_bits);
                }
            }
            let ind: usize = (v >> suffix_bits) as usize;
            if ind != prev {
                let mut p: usize = prev + 1;
                while p <= ind
                    invariant
                        prev < p <= ind + 1,
                        suffix_bits <= 32,
                        ind < count,
                        count < usize::MAX,
                        i < n,
                        n == kv@.len(),
                        offsets@.len() == count + 1,
                        sorted(kv@),
                        ind == (kv@[i as int] >> suffix_bits),
                        i > 0 ==> prev == (kv@[i - 1] >> suffix_bits),
                        i == 0 ==> prev == 0,
                        forall|q: int|
                            #![trigger offsets@[q]]
                            #![trigger marks_prefix(kv@, offsets@, q, suffix_bits)]
                            0 <= q < p ==> offsets@[q] <= i && marks_prefix(
                                kv@,
                                offsets@,
                                q,
                                suffix_bits,
                            ),
                    decreases ind + 1 - p,
                {
                    let ghost before = offsets@;
                    offsets[p] = i;
                    proof {
                        assert forall|q: int|
                            #![trigger offsets@[q]]
                            #![trigger marks_prefix(kv@, offsets@, q, suffix_bits)]
                            0 <= q < p + 1 implies offsets@[q] <= i && marks_prefix(
                            kv@,
                            offsets@,
                            q,
                            suffix_bits,
                        ) by {
                            if q < p {
                                assert(marks_prefix(kv@, before, q, suffix_bits));
                                assert(offsets@[q] == before[q]);
                            } else {
                                assert forall|idx: int| 0 <= idx < kv@.len() implies (idx
                                    < offsets@[q] <==> (#[trigger] kv@[idx] >> suffix_bits)
                                    < q) by {
                                    if idx < i {
                                        lemma_shift_keeps_order(
                                            kv@[idx],
                                            kv@[i - 1],
                                            suffix_bits,
                                        );
                                    } else {
                                        lemma_shift_keeps_order(
                                            kv@[i as int],
                                            kv@[idx],
                                            suffix_bits,
                                        );
                                    }
                                }
                            }
                        }
                    }
                    p += 1;
                }
                prev = ind;
            }
            proof {
                assert forall|p: int|
                    #![trigger offsets@[p]]
                    #![trigger marks_prefix(kv@, offsets@, p, suffix_bits)]
                    0 <= p <= prev implies offsets@[p] <= i + 1 && marks_prefix(
                    kv@,
                    offsets@,
                    p,
                    suffix_bits,
                ) by {
                    assert(marks_prefix(kv@, offsets@, p, suffix_bits));
                }
            }
            i += 1;
        }
        let mut p: usize = prev + 1;
        while p <= count
            invariant
                prev < p <= count + 1,
                suffix_bits <= 32,
                count < usize::MAX,
                n == kv@.len(),
                offsets@.len() == count + 1,
                sorted(kv@),
                n > 0 ==> prev == (kv@[n - 1] >> suffix_bits),
                forall|q: int|
                    #![trigger offsets@[q]]
                    #![trigger marks_prefix(kv@, offsets@, q, suffix_bits)]
                    0 <= q < p ==> offsets@[q] <= n && marks_prefix(
                        kv@,
                        offsets@,
                        q,
                        suffix_bits,
                    ),
            decreases count + 1 - p,
        {
            let ghost before = offsets@;
            offsets[p] = n;
            proof {
                assert forall|q: int|
                    #![trigger offsets@[q]]
                    #![trigger marks_prefix(kv@, offsets@, q, suffix_bits)]
                    0 <= q < p + 1 implies offsets@[q] <= n && marks_prefix(
                    kv@,
                    offsets@,
                    q,
                    suffix_bits,
                ) by {
                    if q < p {
                        assert(marks_prefix(kv@, before, q, suffix_bits));
                        assert(offsets@[q] == before[q]);
                    } else {
                        assert forall|idx: int| 0 <= idx < kv@.len() implies (idx < offsets@[q]
                            <==> (#[trigger] kv@[idx] >> suffix_bits) < q) by {
                            lemma_shift_keeps_order(kv@[idx], kv@[n - 1], suffix_bits);
                        }
                    }
                }
            }
            p += 1;
        }
        proof {
            lemma_marks_shape(kv@, offsets@, count as int, suffix_bits, bclen);
        }
        BarcodeLookupMap { barcodes: kv, offsets, bclen, prefix_len, suffix_len }
    }

    /// The barcode at the index `idx`.
    pub fn barcode_for_idx(&self, idx: usize) -> (r: u64)
        requires
            idx < self.barcodes@.len(),
        ensures
            r == self.barcodes@[idx as int],
    {
        self.barcodes[idx]
    }

    /// Looks `query` up. Where the map holds it, the result is the index of
    /// one barcode that equals it; else `None`.
    pub fn find_exact(&self, query: u64) -> (r: Option<usize>)
        requires
            self.wf(),
            valid_kmer(query, self.bclen),
        ensures
            match r {
                Some(i) => i < self.barcodes@.len() && self.barcodes@[i as int] == query,
                None => !self.barcodes@.contains(query),
            },
    {
        let suffix_bits: u64 = 2 * (self.suffix_len as u64);
        proof {
            lemma_prefix_in_table(query, self.bclen);
        }
        let _table_len: usize = self.offsets.len();
        let query_pref: usize = (query >> suffix_bits) as usize;
        let ghost p = query_pref as int;
        assert(marks_prefix(self.barcodes@, self.offsets@, p, suffix_bits));
        assert(marks_prefix(self.barcodes@, self.offsets@, p + 1, suffix_bits));
        let mut lo: usize = self.offsets[query_pref];
        let mut hi: usize = self.offsets[query_pref + 1];
        while lo < hi
            invariant
                lo <= hi <= self.barcodes@.len(),
                sorted(self.barcodes@),
                forall|idx: int|
                    0 <= idx < self.barcodes@.len() && self.barcodes@[idx] == query ==> lo <= idx
                        < hi,
            decreases hi - lo,
        {
            let mid: usize = lo + (hi - lo) / 2;
            let v: u64 = self.barcodes[mid];
            if v == query {
                return Some(mid);
            } else if v < query {
                lo = mid + 1;
            } else {
                hi = mid;
            }
        }
        None
    }
}

impl BarcodeLookupMap {
    /// Whether `i` is the index of a barcode at Hamming distance one from
    /// `query`.
    pub open spec fn is_neighbor_index(&self, query: u64, i: int) -> bool {
        0 <= i < self.barcodes@.len() && hamming_one(query, self.barcodes@[i], self.bclen)
    }

    /// Whether every barcode at Hamming distance one from `query` equals
    /// the barcode at index `i`.
    pub open spec fn only_neighbor(&self, query: u64, i: int) -> bool {
        forall|j: int| #[trigger]
            self.is_neighbor_index(query, j) ==> self.barcodes@[j] == self.barcodes@[i]
    }

    /// Whether the barcode at `idx` is the k-mer tried at nucleotide `i`
    /// with step `k`, and that try lies before step `step` of nucleotide
    /// `upto`.
    spec fn hit(&self, query: u64, upto: u64, step: u64, idx: int, i: u64, k: u64) -> bool {
        &&& 0 <= idx < self.barcodes@.len()
        &&& 1 <= k <= 3
        &&& (i < upto || (i == upto && k < step))
        &&& self.barcodes@[idx] == mutant(query, (2 * i) as u64, k)
    }

    /// What the search knows once it has tried every step at the
    /// nucleotides below `upto`, and at nucleotide `upto` the steps below
    /// `step`: with nothing found, the map holds none of the k-mers tried;
    /// with one found, it holds no other of them. `(wi, wk)` is the try
    /// that gave the one found.
    spec fn searched(
        &self,
        query: u64,
        upto: u64,
        step: u64,
        found: Option<usize>,
        count: usize,
        wi: u64,
        wk: u64,
    ) -> bool {
        if count == 0 {
            found is None && forall|idx: int, i: u64, k: u64|
                !#[trigger] self.hit(query, upto, step, idx, i, k)
        } else if count == 1 {
            &&& found matches Some(f)
            &&& self.hit(query, upto, step, f as int, wi, wk)
            &&& forall|idx: int, i: u64, k: u64| #[trigger]
                self.hit(query, upto, step, idx, i, k) ==> self.barcodes@[idx]
                    == self.barcodes@[f as int]
        } else {
            false
        }
    }

    /// A try that finds nothing leaves what the search knows as it was.
    proof fn lemma_search_miss(
        &self,
        query: u64,
        i: u64,
        k: u64,
        found: Option<usize>,
        count: usize,
        wi: u64,
        wk: u64,
    )
        requires
            1 <= k <= 3,
            self.searched(query, i, k, found, count, wi, wk),
            !self.barcodes@.contains(mutant(query, (2 * i) as u64, k)),
        ensures
            self.searched(query, i, (k + 1) as u64, found, count, wi, wk),
    {
        let next = (k + 1) as u64;
        assert forall|idx: int, j: u64, m: u64| #[trigger]
            self.hit(query, i, next, idx, j, m) implies self.hit(query, i, k, idx, j, m) by {
            if j == i && m == k {
                assert(self.barcodes@.contains(self.barcodes@[idx]));
            }
        }
        if count == 1 {
            assert(self.hit(query, i, next, found.unwrap() as int, wi, wk));
        }
    }

    /// The first try that finds a barcode makes it the one found.
    proof fn lemma_search_first_hit(&self, query: u64, i: u64, k: u64, g: usize, wi: u64, wk: u64)
        requires
            1 <= k <= 3,
            self.searched(query, i, k, None, 0, wi, wk),
            g < self.barcodes@.len(),
            self.barcodes@[g as int] == mutant(query, (2 * i) as u64, k),
        ensures
            self.searched(query, i, (k + 1) as u64, Some(g), 1, i, k),
    {
        let next = (k + 1) as u64;
        assert(self.hit(query, i, next, g as int, i, k));
        assert forall|idx: int, j: u64, m: u64| #[trigger]
            self.hit(query, i, next, idx, j, m) implies self.barcodes@[idx]
            == self.barcodes@[g as int] by {
            if !(j == i && m == k) {
                assert(self.hit(query, i, k, idx, j, m));
            }
        }
    }

    /// With all three steps tried at a nucleotide, the search is at the
    /// first step of the next one.
    proof fn lemma_search_next_position(
        &self,
        query: u64,
        i: u64,
        found: Option<usize>,
        count: usize,
        wi: u64,
        wk: u64,
    )
        requires
            i < 32,
            self.searched(query, i, 4, found, count, wi, wk),
        ensures
            self.searched(query, (i + 1) as u64, 1, found, count, wi, wk),
    {
        let next = (i + 1) as u64;
        assert forall|idx: int, j: u64, m: u64| #[trigger]
            self.hit(query, next, 1, idx, j, m) implies self.hit(query, i, 4, idx, j, m) by {}
        if count == 1 {
            assert(self.hit(query, next, 1, found.unwrap() as int, wi, wk));
        }
    }

    /// Once every step at every nucleotide was tried, what the search
    /// knows of the k-mers tried holds of all barcodes at Hamming distance
    /// one.
    proof fn lemma_searched_all(
        &self,
        query: u64,
        found: Option<usize>,
        count: usize,
        wi: u64,
        wk: u64,
    )
        requires
            self.wf(),
            valid_kmer(query, self.bclen),
            self.searched(query, self.bclen as u64, 1, found, count, wi, wk),
        ensures
            count == 0 ==> found is None && forall|idx: int|
                !#[trigger] self.is_neighbor_index(query, idx),
            count == 1 ==> (found matches Some(f) && self.is_neighbor_index(query, f as int)
                && self.only_neighbor(query, f as int)),
    {
        let upto = self.bclen as u64;
        assert forall|idx: int| #[trigger] self.is_neighbor_index(query, idx) implies exists|
            i: u64,
            k: u64,
        | #[trigger] self.hit(query, upto, 1, idx, i, k) by {
            let i = choose|i: u64|
                i < self.bclen && #[trigger] differ_only_at(
                    query,
                    self.barcodes@[idx],
                    (2 * i) as u64,
                );
            lemma_neighbor_is_mutant(query, self.barcodes@[idx], (2 * i) as u64);
            let sh = (2 * i) as u64;
            if self.barcodes@[idx] == mutant(query, sh, 1) {
                assert(self.hit(query, upto, 1, idx, i, 1));
            } else if self.barcodes@[idx] == mutant(query, sh, 2) {
                assert(self.hit(query, upto, 1, idx, i, 2));
            } else {
                assert(self.hit(query, upto, 1, idx, i, 3));
            }
        }
        if count == 1 {
            let f = found.unwrap();
            assert(self.hit(query, upto, 1, f as int, wi, wk));
            lemma_mutant_is_neighbor(query, (2 * wi) as u64, wk, self.bclen);
            assert(differ_only_at(query, self.barcodes@[f as int], (2 * wi) as u64));
        }
    }

    /// Looks for barcodes at Hamming distance one from `query`, or, where
    /// `try_exact` is set and the map holds `query`, for `query` itself.
    ///
    /// The second part of the result tells how many were found: 0 for none,
    /// 1 for exactly one, 2 for two or more (equal barcodes count once).
    /// The first part is the index of one of those found. With `try_exact`
    /// set and `query` in the map the result is the index of `query` and 1,
    /// whatever its neighbours.
    ///
    /// The search tries, nucleotide by nucleotide from the end of the
    /// suffix to the start of the prefix, the three k-mers that differ from
    /// `query` in that nucleotide, and stops at the second one found.
    pub fn find_neighbors(&self, query: u64, try_exact: bool) -> (r: (Option<usize>, usize))
        requires
            self.wf(),
            valid_kmer(query, self.bclen),
        ensures
            try_exact && self.barcodes@.contains(query) ==> r.1 == 1 && (r.0 matches Some(i) && i
                < self.barcodes@.len() && self.barcodes@[i as int] == query),
            !(try_exact && self.barcodes@.contains(query)) ==> match r.0 {
                None => r.1 == 0 && forall|idx: int| !#[trigger] self.is_neighbor_index(query, idx),
                Some(i) => self.is_neighbor_index(query, i as int) && (if self.only_neighbor(
                    query,
                    i as int,
                ) {
                    r.1 == 1
                } else {
                    r.1 == 2
                }),
            },
            // one barcode at distance one and no other: count 1
            !(try_exact && self.barcodes@.contains(query)) && (exists|m: int|
                self.is_neighbor_index(query, m) && #[trigger] self.only_neighbor(query, m))
                ==> r.1 == 1 && r.0 is Some && self.is_neighbor_index(query, r.0.unwrap() as int),
            // two different barcodes at distance one: count 2
            !(try_exact && self.barcodes@.contains(query)) && (exists|m: int, n: int|
                #![trigger self.is_neighbor_index(query, m), self.is_neighbor_index(query, n)]
                self.is_neighbor_index(query, m) && self.is_neighbor_index(query, n)
                    && self.barcodes@[m] != self.barcodes@[n]) ==> r.1 == 2,
    {
        if try_exact {
            match self.find_exact(query) {
                Some(i) => {
                    return (Some(i), 1);
                },
                None => {},
            }
        }
        let mut ret: Option<usize> = None;
        let mut num_neighbors: usize = 0;
        let ghost mut wi: u64 = 0;
        let ghost mut wk: u64 = 0;
        let positions: u64 = self.bclen as u64;
        let mut i: u64 = 0;
        while i < positions
            invariant
                i <= positions,
                positions == self.bclen,
                self.wf(),
                valid_kmer(query, self.bclen),
                try_exact ==> !self.barcodes@.contains(query),
                self.searched(query, i, 1, ret, num_neighbors, wi, wk),
            decreases positions - i,
        {
            let sh: u64 = 2 * i;
            let mut nmod: u64 = 1;
            while nmod < 4
                invariant
                    1 <= nmod <= 4,
                    i < positions,
                    positions == self.bclen,
                    sh == 2 * i,
                    self.wf(),
                    valid_kmer(query, self.bclen),
                    try_exact ==> !self.barcodes@.contains(query),
                    self.searched(query, i, nmod, ret, num_neighbors, wi, wk),
                decreases 4 - nmod,
            {
                assert(((query >> sh) & 3) <= 3) by (bit_vector);
                let nucl: u64 = (((query >> sh) & 3) + nmod) & 3;
                let nquery: u64 = (query & !(3u64 << sh)) | (nucl << sh);
                proof {
                    assert(nquery == mutant(query, sh, nmod));
                    lemma_mutant_is_neighbor(query, sh, nmod, self.bclen);
                }
                match self.find_exact(nquery) {
                    Some(g) => {
                        if num_neighbors >= 1 {
                            proof {
                                self.lemma_second_neighbor(query, i, nmod, ret.unwrap(), g, wi, wk);
                            }
                            return (Some(g), 2);
                        }
                        proof {
                            self.lemma_search_first_hit(query, i, nmod, g, wi, wk);
                            wi = i;
                            wk = nmod;
                        }
                        ret = Some(g);
                        num_neighbors = 1;
                    },
                    None => {
                        proof {
                            self.lemma_search_miss(query, i, nmod, ret, num_neighbors, wi, wk);
                        }
                    },
                }
                nmod += 1;
            }
            proof {
                self.lemma_search_next_position(query, i, ret, num_neighbors, wi, wk);
            }
            i += 1;
        }
        proof {
            self.lemma_searched_all(query, ret, num_neighbors, wi, wk);
        }
        (ret, num_neighbors)
    }

    /// A second k-mer found is a barcode at Hamming distance one that
    /// differs from the first one found.
    proof fn lemma_second_neighbor(
        &self,
        query: u64,
        i: u64,
        k: u64,
        f: usize,
        g: usize,
        wi: u64,
        wk: u64,
    )
        requires
            self.wf(),
            valid_kmer(query, self.bclen),
            i < self.bclen,
            1 <= k <= 3,
            self.searched(query, i, k, Some(f), 1, wi, wk),
            g < self.barcodes@.len(),
            self.barcodes@[g as int] == mutant(query, (2 * i) as u64, k),
        ensures
            self.is_neighbor_index(query, g as int),
            self.is_neighbor_index(query, f as int),
            self.barcodes@[g as int] != self.barcodes@[f as int],
            !self.only_neighbor(query, g as int),
    {
        assert(self.hit(query, i, k, f as int, wi, wk));
        lemma_mutant_is_neighbor(query, (2 * i) as u64, k, self.bclen);
        lemma_mutant_is_neighbor(query, (2 * wi) as u64, wk, self.bclen);
        assert(differ_only_at(query, self.barcodes@[g as int], (2 * i) as u64));
        assert(differ_only_at(query, self.barcodes@[f as int], (2 * wi) as u64));
        if wi == i {
            lemma_mutants_differ_by_step(query, (2 * i) as u64, k, wk);
        } else {
            lemma_neighbors_differ_by_position(query, self.barcodes@[f as int], wi, i);
        }
        assert(self.is_neighbor_index(query, f as int));
    }
}

/// Every barcode of the list that a map was built from is held by the map:
/// looking it up with `find_exact` gives the index of a barcode equal to
/// it.
pub proof fn lemma_permitted_barcode_is_held(kv: Seq<u64>, map: BarcodeLookupMap, b: u64)
    requires
        map.barcodes@.to_multiset() == kv.to_multiset(),
        kv.contains(b),
    ensures
        map.barcodes@.contains(b),
{
    broadcast use vstd::seq_lib::group_to_multiset_ensures;

    assert(kv.to_multiset().count(b) > 0);
    assert(map.barcodes@.to_multiset().count(b) > 0);
}

/// A k-mer whose prefix is below the number of prefixes is valid.
proof fn lemma_prefix_in_table_is_valid(q: u64, bclen: u32)
    requires
        bclen <= 32,
        (q >> suffix_bits_of(bclen)) < prefix_count(prefix_len_of(bclen)),
    ensures
        valid_kmer(q, bclen),
{
    if bclen < 32 {
        let pb = (2 * prefix_len_of(bclen)) as u64;
        let sb = suffix_bits_of(bclen);
        let all = (2 * bclen) as u64;
        assert(all == sb + pb && all <= 62 && (q >> sb) < (1u64 << pb) ==> (q >> all) == 0)
            by (bit_vector);
    }
}

/// Whether the barcodes between the offsets of each prefix below `upto`
/// have that prefix.
pub open spec fn bucketed(barcodes: Seq<u64>, offsets: Seq<usize>, sb: u64, upto: int) -> bool {
    forall|p: int, idx: int|
        #![trigger offsets[p], barcodes[idx]]
        0 <= p < upto && offsets[p] <= idx < offsets[p + 1] ==> (barcodes[idx] >> sb) == p
}

/// Whether each entry of the table below `upto` is at most the next one.
pub open spec fn steps_up(offsets: Seq<usize>, upto: int) -> bool {
    forall|a: int| 0 <= a < upto ==> #[trigger] offsets[a] <= offsets[a + 1]
}

/// In a table that starts at 0 and never descends, every index below the
/// table's last entry lies between two neighbouring entries.
proof fn lemma_find_bucket(offsets: Seq<usize>, count: int, idx: int) -> (p: int)
    requires
        count >= 0,
        offsets.len() == count + 1,
        offsets[0] == 0,
        steps_up(offsets, count),
        0 <= idx < offsets[count],
    ensures
        0 <= p < count,
        offsets[p] <= idx < offsets[p + 1],
    decreases count,
{
    if idx >= offsets[count - 1] {
        count - 1
    } else {
        let shorter = offsets.take(count);
        assert forall|a: int| 0 <= a < count - 1 implies #[trigger] shorter[a] <= shorter[a
            + 1] by {
            assert(offsets[a] <= offsets[a + 1]);
        }
        lemma_find_bucket(shorter, count - 1, idx)
    }
}

/// In a table that never descends from one entry to the next, a later
/// entry is never below an earlier one.
proof fn lemma_steps_ascend(offsets: Seq<usize>, count: int, p: int, r: int)
    requires
        offsets.len() == count + 1,
        steps_up(offsets, count),
        0 <= p <= r <= count,
    ensures
        offsets[p] <= offsets[r],
    decreases r - p,
{
    if p < r {
        lemma_steps_ascend(offsets, count, p, r - 1);
        assert(offsets[r - 1] <= offsets[r - 1 + 1]);
    }
}

/// A table that starts at 0, never descends, ends at the number of
/// barcodes, and between whose entries lie the barcodes of each prefix,
/// marks every prefix.
proof fn lemma_buckets_mark(barcodes: Seq<u64>, offsets: Seq<usize>, count: int, sb: u64, q: int)
    requires
        count >= 0,
        offsets.len() == count + 1,
        offsets[0] == 0,
        offsets[count] == barcodes.len(),
        steps_up(offsets, count),
        bucketed(barcodes, offsets, sb, count),
        0 <= q <= count,
    ensures
        marks_prefix(barcodes, offsets, q, sb),
{
    lemma_steps_ascend(offsets, count, q, count);
    assert forall|idx: int| 0 <= idx < barcodes.len() implies (idx < offsets[q] <==> (
    #[trigger] barcodes[idx] >> sb) < q) by {
        let p = lemma_find_bucket(offsets, count, idx);
        assert(offsets[p] <= idx < offsets[p + 1]);
        assert((barcodes[idx] >> sb) == p);
        if p < q {
            lemma_steps_ascend(offsets, count, p + 1, q);
        } else {
            lemma_steps_ascend(offsets, count, q, p);
        }
    }
}

/// In a table that marks every prefix, the barcodes between the entries of
/// a prefix have that prefix.
proof fn lemma_marks_bucket(barcodes: Seq<u64>, offsets: Seq<usize>, p: int, idx: int, sb: u64)
    requires
        marks_prefix(barcodes, offsets, p, sb),
        marks_prefix(barcodes, offsets, p + 1, sb),
        0 <= p,
        offsets[p] <= idx < offsets[p + 1],
    ensures
        (barcodes[idx] >> sb) == p,
{
}

impl BarcodeLookupMap {
    /// Whether `query` is a k-mer of the length of this map's barcodes.
    pub fn is_kmer(&self, query: u64) -> (b: bool)
        ensures
            b == valid_kmer(query, self.bclen),
    {
        kmer_fits(query, self.bclen)
    }

    /// Builds the map as `new` does, where the barcodes are k-mers of the
    /// length `bclen`, that length is at most 32, and the offset table can
    /// be addressed; `None` where not.
    pub fn try_new(kv: Vec<u64>, bclen: u32) -> (r: Option<BarcodeLookupMap>)
        ensures
            r is Some <==> (bclen <= 32 && prefix_count(prefix_len_of(bclen)) < usize::MAX
                && forall|i: int| 0 <= i < kv@.len() ==> valid_kmer(#[trigger] kv@[i], bclen)),
            r matches Some(m) ==> m.wf() && m.bclen == bclen && m.barcodes@.to_multiset()
                == kv@.to_multiset(),
    {
        if bclen > 32 {
            return None;
        }
        let prefix_len: u32 = (bclen + 1) / 2;
        proof {
            lemma_zero_is_valid(bclen);
            lemma_prefix_in_table(0, bclen);
        }
        let count: u64 = 1u64 << (2 * (prefix_len as u64));
        if count >= usize::MAX as u64 {
            return None;
        }
        let mut i: usize = 0;
        while i < kv.len()
            invariant
                i <= kv@.len(),
                forall|j: int| 0 <= j < i ==> valid_kmer(#[trigger] kv@[j], bclen),
            decreases kv@.len() - i,
        {
            if !kmer_fits(kv[i], bclen) {
                return None;
            }
            i += 1;
        }
        Some(BarcodeLookupMap::new(kv, bclen))
    }

    /// Whether the barcodes ascend and are k-mers of the map's length.
    fn barcodes_ascend_and_fit(&self) -> (b: bool)
        ensures
            b == (sorted(self.barcodes@) && forall|i: int|
                0 <= i < self.barcodes@.len() ==> valid_kmer(
                    #[trigger] self.barcodes@[i],
                    self.bclen,
                )),
    {
        let n: usize = self.barcodes.len();
        let mut idx: usize = 0;
        while idx < n
            invariant
                idx <= n,
                n == self.barcodes@.len(),
                forall|i: int, j: int| 0 <= i <= j < idx ==> self.barcodes@[i] <= self.barcodes@[j],
                forall|i: int|
                    0 <= i < idx ==> valid_kmer(#[trigger] self.barcodes@[i], self.bclen),
            decreases n - idx,
        {
            let v: u64 = self.barcodes[idx];
            if !kmer_fits(v, self.bclen) || (idx > 0 && self.barcodes[idx - 1] > v) {
                return false;
            }
            proof {
                assert forall|i: int, j: int| 0 <= i <= j < idx + 1 implies self.barcodes@[i]
                    <= self.barcodes@[j] by {
                    if j == idx && i < idx {
                        assert(self.barcodes@[i] <= self.barcodes@[idx - 1]);
                    }
                }
            }
            idx += 1;
        }
        true
    }

    /// Whether the offset table, of `count + 1` entries, never descends.
    fn offsets_step_up(&self, count: usize) -> (b: bool)
        requires
            count + 1 == self.offsets@.len(),
        ensures
            b == steps_up(self.offsets@, count as int),
    {
        let mut p: usize = 0;
        while p < count
            invariant
                p <= count,
                count + 1 == self.offsets@.len(),
                steps_up(self.offsets@, p as int),
            decreases count - p,
        {
            if self.offsets[p] > self.offsets[p + 1] {
                return false;
            }
            p += 1;
        }
        true
    }

    /// Whether the barcodes between the offsets of each prefix have that
    /// prefix.
    fn buckets_hold_prefix(&self, count: usize, sb: u64) -> (b: bool)
        requires
            count + 1 == self.offsets@.len(),
            sb <= 32,
            steps_up(self.offsets@, count as int),
            self.offsets@[count as int] == self.barcodes@.len(),
        ensures
            b == bucketed(self.barcodes@, self.offsets@, sb, count as int),
    {
        let mut p: usize = 0;
        while p < count
            invariant
                p <= count,
                count + 1 == self.offsets@.len(),
                sb <= 32,
                steps_up(self.offsets@, count as int),
                self.offsets@[count as int] == self.barcodes@.len(),
                bucketed(self.barcodes@, self.offsets@, sb, p as int),
            decreases count - p,
        {
            let lo: usize = self.offsets[p];
            let hi: usize = self.offsets[p + 1];
            proof {
                assert(self.offsets@[p as int] <= self.offsets@[p + 1]);
                lemma_steps_ascend(self.offsets@, count as int, p + 1, count as int);
            }
            let mut idx: usize = lo;
            while idx < hi
                invariant
                    lo <= idx <= hi <= self.barcodes@.len(),
                    p < count,
                    count + 1 == self.offsets@.len(),
                    sb <= 32,
                    lo == self.offsets@[p as int],
                    hi == self.offsets@[p + 1],
                    forall|k: int| lo <= k < idx ==> (#[trigger] self.barcodes@[k] >> sb) == p,
                decreases hi - idx,
            {
                if (self.barcodes[idx] >> sb) != p as u64 {
                    return false;
                }
                idx += 1;
            }
            p += 1;
        }
        true
    }

    /// Checks the invariant of the map, whose fields are open to change:
    /// `InvariantViolation` where it does not hold.
    pub fn validate(&self) -> (r: Result<(), RadError>)
        ensures
            r is Ok <==> self.wf(),
            r matches Err(e) ==> e == RadError::InvariantViolation,
    {
        if self.bclen > 32 || self.prefix_len != (self.bclen + 1) / 2 || self.suffix_len
            != self.bclen - self.prefix_len {
            return Err(RadError::InvariantViolation);
        }
        proof {
            lemma_zero_is_valid(self.bclen);
            lemma_prefix_in_table(0, self.bclen);
        }
        let sb: u64 = 2 * (self.suffix_len as u64);
        let count64: u64 = 1u64 << (2 * (self.prefix_len as u64));
        let table_len: usize = self.offsets.len();
        if table_len == 0 || (table_len - 1) as u64 != count64 {
            return Err(RadError::InvariantViolation);
        }
        let count: usize = table_len - 1;
        let n: usize = self.barcodes.len();
        if self.offsets[0] != 0 || self.offsets[count] != n {
            return Err(RadError::InvariantViolation);
        }
        if !self.barcodes_ascend_and_fit() {
            return Err(RadError::InvariantViolation);
        }
        if !self.offsets_step_up(count) {
            proof {
                if self.wf() {
                    assert(steps_up(self.offsets@, count as int));
                }
            }
            return Err(RadError::InvariantViolation);
        }
        if !self.buckets_hold_prefix(count, sb) {
            proof {
                if self.wf() {
                    self.lemma_wf_is_bucketed();
                }
            }
            return Err(RadError::InvariantViolation);
        }
        proof {
            assert forall|q: int| 0 <= q <= count implies #[trigger] marks_prefix(
                self.barcodes@,
                self.offsets@,
                q,
                sb,
            ) by {
                lemma_buckets_mark(self.barcodes@, self.offsets@, count as int, sb, q);
            }
            lemma_marks_shape(self.barcodes@, self.offsets@, count as int, sb, self.bclen);
        }
        Ok(())
    }

    /// In a map that meets its invariant the barcodes between the offsets
    /// of a prefix have that prefix.
    proof fn lemma_wf_is_bucketed(&self)
        requires
            self.wf(),
        ensures
            bucketed(
                self.barcodes@,
                self.offsets@,
                suffix_bits_of(self.bclen),
                prefix_count(self.prefix_len) as int,
            ),
    {
        let sb = suffix_bits_of(self.bclen);
        let count = prefix_count(self.prefix_len) as int;
        assert forall|p: int, idx: int|
            #![trigger self.offsets@[p], self.barcodes@[idx]]
            0 <= p < count && self.offsets@[p] <= idx < self.offsets@[p + 1] implies (
        self.barcodes@[idx] >> sb) == p by {
            assert(marks_prefix(self.barcodes@, self.offsets@, p, sb));
            assert(marks_prefix(self.barcodes@, self.offsets@, p + 1, sb));
            lemma_marks_bucket(self.barcodes@, self.offsets@, p, idx, sb);
        }
    }
}

/// Decides whether `q` is the 2-bit encoding of `bclen` nucleotides.
pub fn kmer_fits(q: u64, bclen: u32) -> (b: bool)
    ensures
        b == valid_kmer(q, bclen),
{
    bclen >= 32 || (q >> (2 * (bclen as u64))) == 0
}

} // verus!
