//! The header of a RAD file and its tags: reading, writing, and the laws
//! that tie the two together.

use vstd::prelude::*;
use vstd::utf8::{decode_utf8, encode_utf8, valid_utf8};
use vstd::slice::slice_subrange;
use crate::error::RadError;
use crate::primitive::{
    holds_at, le_bytes, lemma_holds_at_middle, lemma_holds_at_split, lemma_le_bytes_len,
    lemma_pow256_values, lemma_read_le_of_bytes, pread_u8, read_le, read_u16, read_u64,
    write_str_bin, RadIntId,
};

verus! {

/// The standard library's `str::from_utf8`: the bytes as a string where
/// they are valid UTF-8, nothing where they are not.
#[verifier::external_body]
fn str_from_utf8(bytes: &[u8]) -> (r: Option<&str>)
    ensures
        r is Some <==> valid_utf8(bytes@),
        r matches Some(s) ==> s@ == decode_utf8(bytes@),
{
    std::str::from_utf8(bytes).ok()
}

/// The string at `pos` in `s`: a 16-bit length, then that many bytes of
/// UTF-8, with no terminator. With it comes the position behind it.
/// `ShortRead` where `s` ends inside it, `MalformedHeader` where the bytes
/// are not valid UTF-8.
pub open spec fn parse_name(s: Seq<u8>, pos: int) -> Result<(Seq<char>, int), RadError> {
    match read_le(s, pos, 2) {
        None => Err(RadError::ShortRead),
        Some(len) => if pos + 2 + len > s.len() {
            Err(RadError::ShortRead)
        } else if !valid_utf8(s.subrange(pos + 2, pos + 2 + len)) {
            Err(RadError::MalformedHeader)
        } else {
            Ok((decode_utf8(s.subrange(pos + 2, pos + 2 + len)), pos + 2 + len))
        },
    }
}

/// The first `n` strings from `pos` in `s`, with the position behind them,
/// or the first failure on the way.
pub open spec fn parse_names(s: Seq<u8>, pos: int, n: nat) -> Result<(Seq<Seq<char>>, int), RadError>
    decreases n,
{
    if n == 0 {
        Ok((Seq::empty(), pos))
    } else {
        match parse_names(s, pos, (n - 1) as nat) {
            Err(e) => Err(e),
            Ok((names, at)) => match parse_name(s, at) {
                Err(e) => Err(e),
                Ok((name, end)) => Ok((names.push(name), end)),
            },
        }
    }
}

/// Once reading the strings has failed, reading more of them fails in the
/// same way.
pub proof fn lemma_parse_names_stays_failed(s: Seq<u8>, pos: int, k: nat, n: nat)
    requires
        k <= n,
        parse_names(s, pos, k) is Err,
    ensures
        parse_names(s, pos, n) == parse_names(s, pos, k),
    decreases n,
{
    if k < n {
        lemma_parse_names_stays_failed(s, pos, k, (n - 1) as nat);
    }
}

/// Reads the string at `*pos` and moves `*pos` behind it.
pub fn read_name(buf: &[u8], pos: &mut usize) -> (r: Result<String, RadError>)
    ensures
        match parse_name(buf@, *old(pos) as int) {
            Ok((name, end)) => (r matches Ok(v) && v@ == name) && *final(pos) == end,
            Err(e) => r == Err::<String, RadError>(e) && *final(pos) == *old(pos),
        },
{
    let start: usize = *pos;
    let len: usize = match read_u16(buf, pos) {
        Ok(v) => v as usize,
        Err(e) => {
            return Err(e);
        },
    };
    let first: usize = *pos;
    if buf.len() - first < len {
        *pos = start;
        return Err(RadError::ShortRead);
    }
    match str_from_utf8(slice_subrange(buf, first, first + len)) {
        Some(name) => {
            *pos = first + len;
            Ok(name.to_owned())
        },
        None => {
            *pos = start;
            Err(RadError::MalformedHeader)
        },
    }
}

/// The header of a RAD file.
pub struct RadHeader {
    pub is_paired: u8,
    pub ref_count: u64,
    pub ref_names: Vec<String>,
    pub num_chunks: u64,
}

/// What a `RadHeader` holds, the names as sequences of characters.
pub struct RadHeaderView {
    pub is_paired: u8,
    pub ref_count: u64,
    pub ref_names: Seq<Seq<char>>,
    pub num_chunks: u64,
}

impl View for RadHeader {
    type V = RadHeaderView;

    open spec fn view(&self) -> RadHeaderView {
        RadHeaderView {
            is_paired: self.is_paired,
            ref_count: self.ref_count,
            ref_names: self.ref_names@.map_values(|n: String| n@),
            num_chunks: self.num_chunks,
        }
    }
}

/// The header at `pos` in `s` with the position behind it: one byte for
/// `is_paired`, the number of reference names as a 64-bit integer, the
/// names, and the number of chunks as a 64-bit integer.
pub open spec fn parse_header(s: Seq<u8>, pos: int) -> Result<(RadHeaderView, int), RadError> {
    match (read_le(s, pos, 1), read_le(s, pos + 1, 8)) {
        (Some(is_paired), Some(ref_count)) => match parse_names(s, pos + 9, ref_count) {
            Err(e) => Err(e),
            Ok((ref_names, at)) => match read_le(s, at, 8) {
                None => Err(RadError::ShortRead),
                Some(num_chunks) => Ok(
                    (
                        RadHeaderView {
                            is_paired: is_paired as u8,
                            ref_count: ref_count as u64,
                            ref_names,
                            num_chunks: num_chunks as u64,
                        },
                        at + 8,
                    ),
                ),
            },
        },
        _ => Err(RadError::ShortRead),
    }
}

impl RadHeader {
    /// Reads the header at `*pos` and moves `*pos` behind it. On failure
    /// nothing is consumed.
    pub fn from_bytes(buf: &[u8], pos: &mut usize) -> (r: Result<RadHeader, RadError>)
        ensures
            match parse_header(buf@, *old(pos) as int) {
                Ok((h, end)) => (r matches Ok(v) && v@ == h) && *final(pos) == end,
                Err(e) => (r matches Err(x) && x == e) && *final(pos) == *old(pos),
            },
    {
        let start: usize = *pos;
        let is_paired: u8 = match pread_u8(buf, start) {
            Some(v) => v,
            None => {
                return Err(RadError::ShortRead);
            },
        };
        proof {
            let one = buf@.subrange(start as int, start + 1);
            reveal_with_fuel(crate::primitive::le_value, 2);
            assert(one.drop_first().len() == 0);
        }
        let _len: usize = buf.len();
        *pos = start + 1;
        let ref_count: u64 = match read_u64(buf, pos) {
            Ok(v) => v,
            Err(e) => {
                *pos = start;
                return Err(e);
            },
        };
        let mut ref_names: Vec<String> = Vec::new();
        let mut num_read: u64 = 0;
        assert(ref_names@.map_values(|n: String| n@) =~= Seq::<Seq<char>>::empty());
        while num_read < ref_count
            invariant
                num_read <= ref_count,
                start == *old(pos),
                read_le(buf@, start as int, 1) == Some(is_paired as nat),
                read_le(buf@, start + 1, 8) == Some(ref_count as nat),
                parse_names(buf@, start + 9, num_read as nat) == Ok::<
                    (Seq<Seq<char>>, int),
                    RadError,
                >((ref_names@.map_values(|n: String| n@), *pos as int)),
            decreases ref_count - num_read,
        {
            let ghost names = ref_names@.map_values(|n: String| n@);
            match read_name(buf, pos) {
                Ok(name) => {
                    ref_names.push(name);
                    assert(ref_names@.map_values(|n: String| n@) =~= names.push(name@));
                },
                Err(e) => {
                    proof {
                        assert(parse_names(buf@, start + 9, (num_read + 1) as nat) == Err::<
                            (Seq<Seq<char>>, int),
                            RadError,
                        >(e));
                        lemma_parse_names_stays_failed(
                            buf@,
                            start + 9,
                            (num_read + 1) as nat,
                            ref_count as nat,
                        );
                    }
                    *pos = start;
                    return Err(e);
                },
            }
            num_read += 1;
        }
        let num_chunks: u64 = match read_u64(buf, pos) {
            Ok(v) => v,
            Err(e) => {
                *pos = start;
                return Err(e);
            },
        };
        Ok(RadHeader { is_paired, ref_count, ref_names, num_chunks })
    }

    /// The header for the reference sequences of an alignment file, given
    /// by their names as the file's header lists them: unpaired, with no
    /// chunks yet. Fails with `MalformedHeader` where a name is not valid
    /// UTF-8.
    pub fn from_bam_header(target_names: &Vec<Vec<u8>>) -> (r: Result<RadHeader, RadError>)
        ensures
            match r {
                Ok(h) => {
                    &&& h.is_paired == 0
                    &&& h.num_chunks == 0
                    &&& h.ref_count == target_names@.len()
                    &&& h@.ref_names.len() == target_names@.len()
                    &&& forall|i: int|
                        #![trigger h@.ref_names[i]]
                        #![trigger target_names@[i]]
                        0 <= i < target_names@.len() ==> valid_utf8(target_names@[i]@)
                            && h@.ref_names[i] == decode_utf8(target_names@[i]@)
                },
                Err(e) => e == RadError::MalformedHeader && exists|i: int|
                    0 <= i < target_names@.len() && !valid_utf8((#[trigger] target_names@[i])@),
            },
    {
        let n: usize = target_names.len();
        let mut ref_names: Vec<String> = Vec::new();
        let mut i: usize = 0;
        while i < n
            invariant
                i <= n,
                n == target_names@.len(),
                ref_names@.len() == i,
                forall|j: int|
                    #![trigger ref_names@[j]]
                    #![trigger target_names@[j]]
                    0 <= j < i ==> valid_utf8(target_names@[j]@) && ref_names@[j]@ == decode_utf8(
                        target_names@[j]@,
                    ),
            decreases n - i,
        {
            match str_from_utf8(target_names[i].as_slice()) {
                Some(name) => {
                    ref_names.push(name.to_owned());
                },
                None => {
                    return Err(RadError::MalformedHeader);
                },
            }
            i += 1;
        }
        Ok(RadHeader { is_paired: 0, ref_count: n as u64, ref_names, num_chunks: 0 })
    }

    /// The number of bytes of the header's fixed fields and of the
    /// reference names themselves (their length prefixes not counted).
    pub fn get_size(&self) -> (r: usize)
        requires
            17 + names_len(self@.ref_names) <= usize::MAX,
        ensures
            r == 17 + names_len(self@.ref_names),
    {
        let mut tot_size: usize = 9;
        let n: usize = self.ref_names.len();
        let ghost names = self@.ref_names;
        let mut i: usize = 0;
        assert(names.take(0) =~= Seq::<Seq<char>>::empty());
        while i < n
            invariant
                i <= n,
                n == self.ref_names@.len(),
                names == self@.ref_names,
                tot_size == 9 + names_len(names.take(i as int)),
                17 + names_len(names) <= usize::MAX,
            decreases n - i,
        {
            let name_len: usize = self.ref_names[i].as_str().as_bytes().len();
            proof {
                assert(names.take(i + 1).drop_last() =~= names.take(i as int));
                assert(names.take(i + 1).last() == self.ref_names@[i as int]@);
                lemma_names_len_take(names, i + 1);
            }
            tot_size = tot_size + name_len;
            i += 1;
        }
        assert(names.take(n as int) =~= names);
        tot_size + 8
    }
}

/// The number of bytes that the names take as UTF-8, taken together.
pub open spec fn names_len(names: Seq<Seq<char>>) -> nat
    decreases names.len(),
{
    if names.len() == 0 {
        0
    } else {
        names_len(names.drop_last()) + encode_utf8(names.last()).len()
    }
}

/// The first names take no more bytes than all of them.
proof fn lemma_names_len_take(names: Seq<Seq<char>>, k: int)
    requires
        0 <= k <= names.len(),
    ensures
        names_len(names.take(k)) <= names_len(names),
    decreases names.len(),
{
    if k < names.len() {
        assert(names.drop_last().take(k) =~= names.take(k));
        lemma_names_len_take(names.drop_last(), k);
    } else {
        assert(names.take(k) =~= names);
    }
}

/// The description of one tag: its name and the type of its values.
pub struct TagDesc {
    pub name: String,
    pub typeid: u8,
}

/// What a `TagDesc` holds, the name as a sequence of characters.
pub struct TagDescView {
    pub name: Seq<char>,
    pub typeid: u8,
}

impl View for TagDesc {
    type V = TagDescView;

    open spec fn view(&self) -> TagDescView {
        TagDescView { name: self.name@, typeid: self.typeid }
    }
}

/// The tag description at `pos` in `s` with the position behind it: the
/// name as a string, then one byte for the type.
pub open spec fn parse_tag_desc(s: Seq<u8>, pos: int) -> Result<(TagDescView, int), RadError> {
    match parse_name(s, pos) {
        Err(e) => Err(e),
        Ok((name, at)) => match read_le(s, at, 1) {
            None => Err(RadError::ShortRead),
            Some(typeid) => Ok((TagDescView { name, typeid: typeid as u8 }, at + 1)),
        },
    }
}

impl TagDesc {
    /// Reads the tag description at `*pos` and moves `*pos` behind it. On
    /// failure nothing is consumed.
    pub fn from_bytes(buf: &[u8], pos: &mut usize) -> (r: Result<TagDesc, RadError>)
        ensures
            match parse_tag_desc(buf@, *old(pos) as int) {
                Ok((d, end)) => (r matches Ok(v) && v@ == d) && *final(pos) == end,
                Err(e) => (r matches Err(x) && x == e) && *final(pos) == *old(pos),
            },
    {
        let start: usize = *pos;
        let name: String = match read_name(buf, pos) {
            Ok(v) => v,
            Err(e) => {
                return Err(e);
            },
        };
        let at: usize = *pos;
        let typeid: u8 = match pread_u8(buf, at) {
            Some(v) => v,
            None => {
                *pos = start;
                return Err(RadError::ShortRead);
            },
        };
        proof {
            let one = buf@.subrange(at as int, at + 1);
            reveal_with_fuel(crate::primitive::le_value, 2);
            assert(one.drop_first().len() == 0);
        }
        let _len: usize = buf.len();
        *pos = at + 1;
        Ok(TagDesc { name, typeid })
    }
}

/// A section of tag descriptions.
pub struct TagSection {
    pub tags: Vec<TagDesc>,
}

impl View for TagSection {
    type V = Seq<TagDescView>;

    open spec fn view(&self) -> Seq<TagDescView> {
        self.tags@.map_values(|t: TagDesc| t@)
    }
}

/// The first `n` tag descriptions from `pos` in `s`, with the position
/// behind them, or the first failure on the way.
pub open spec fn parse_tag_descs(s: Seq<u8>, pos: int, n: nat) -> Result<
    (Seq<TagDescView>, int),
    RadError,
>
    decreases n,
{
    if n == 0 {
        Ok((Seq::empty(), pos))
    } else {
        match parse_tag_descs(s, pos, (n - 1) as nat) {
            Err(e) => Err(e),
            Ok((tags, at)) => match parse_tag_desc(s, at) {
                Err(e) => Err(e),
                Ok((tag, end)) => Ok((tags.push(tag), end)),
            },
        }
    }
}

/// The tag section at `pos` in `s` with the position behind it: the number
/// of tags as a 16-bit integer, then their descriptions.
pub open spec fn parse_tag_section(s: Seq<u8>, pos: int) -> Result<(Seq<TagDescView>, int), RadError> {
    match read_le(s, pos, 2) {
        None => Err(RadError::ShortRead),
        Some(n) => parse_tag_descs(s, pos + 2, n),
    }
}

/// Once reading the tag descriptions has failed, reading more of them
/// fails in the same way.
pub proof fn lemma_parse_tag_descs_stays_failed(s: Seq<u8>, pos: int, k: nat, n: nat)
    requires
        k <= n,
        parse_tag_descs(s, pos, k) is Err,
    ensures
        parse_tag_descs(s, pos, n) == parse_tag_descs(s, pos, k),
    decreases n,
{
    if k < n {
        lemma_parse_tag_descs_stays_failed(s, pos, k, (n - 1) as nat);
    }
}

impl TagSection {
    /// Reads the tag section at `*pos` and moves `*pos` behind it. On
    /// failure nothing is consumed.
    pub fn from_bytes(buf: &[u8], pos: &mut usize) -> (r: Result<TagSection, RadError>)
        ensures
            match parse_tag_section(buf@, *old(pos) as int) {
                Ok((tags, end)) => (r matches Ok(v) && v@ == tags) && *final(pos) == end,
                Err(e) => (r matches Err(x) && x == e) && *final(pos) == *old(pos),
            },
    {
        let start: usize = *pos;
        let num_tags: u16 = match read_u16(buf, pos) {
            Ok(v) => v,
            Err(e) => {
                return Err(e);
            },
        };
        let mut tags: Vec<TagDesc> = Vec::new();
        let mut i: u16 = 0;
        assert(tags@.map_values(|t: TagDesc| t@) =~= Seq::<TagDescView>::empty());
        while i < num_tags
            invariant
                i <= num_tags,
                start == *old(pos),
                read_le(buf@, start as int, 2) == Some(num_tags as nat),
                parse_tag_descs(buf@, start + 2, i as nat) == Ok::<
                    (Seq<TagDescView>, int),
                    RadError,
                >((tags@.map_values(|t: TagDesc| t@), *pos as int)),
            decreases num_tags - i,
        {
            let ghost before = tags@.map_values(|t: TagDesc| t@);
            match TagDesc::from_bytes(buf, pos) {
                Ok(tag) => {
                    tags.push(tag);
                    assert(tags@.map_values(|t: TagDesc| t@) =~= before.push(tag@));
                },
                Err(e) => {
                    proof {
                        assert(parse_tag_descs(buf@, start + 2, (i + 1) as nat) == Err::<
                            (Seq<TagDescView>, int),
                            RadError,
                        >(e));
                        lemma_parse_tag_descs_stays_failed(
                            buf@,
                            start + 2,
                            (i + 1) as nat,
                            num_tags as nat,
                        );
                    }
                    *pos = start;
                    return Err(e);
                },
            }
            i += 1;
        }
        Ok(TagSection { tags })
    }
}

/// The tags of a whole file: the lengths, in nucleotides, of its barcodes
/// and of its UMIs.
#[derive(Debug, Clone, Copy, PartialEq, Eq, Structural)]
pub struct FileTags {
    pub bclen: u16,
    pub umilen: u16,
}

/// The file tags at `pos` in `s`: two 16-bit integers.
pub open spec fn parse_file_tags(s: Seq<u8>, pos: int) -> Option<FileTags> {
    match (read_le(s, pos, 2), read_le(s, pos + 2, 2)) {
        (Some(bclen), Some(umilen)) => Some(
            FileTags { bclen: bclen as u16, umilen: umilen as u16 },
        ),
        _ => None,
    }
}

impl FileTags {
    /// Reads the file tags at `*pos` and moves `*pos` behind them.
    pub fn from_bytes(buf: &[u8], pos: &mut usize) -> (r: Result<FileTags, RadError>)
        ensures
            match parse_file_tags(buf@, *old(pos) as int) {
                Some(tags) => r == Ok::<FileTags, RadError>(tags) && *final(pos) == *old(pos) + 4,
                None => r == Err::<FileTags, RadError>(RadError::ShortRead) && *final(pos) == *old(
                    pos,
                ),
            },
    {
        let start: usize = *pos;
        let bclen: u16 = match read_u16(buf, pos) {
            Ok(v) => v,
            Err(e) => {
                return Err(e);
            },
        };
        let umilen: u16 = match read_u16(buf, pos) {
            Ok(v) => v,
            Err(e) => {
                *pos = start;
                return Err(e);
            },
        };
        Ok(FileTags { bclen, umilen })
    }
}

/// A string on the wire: the number of its bytes as a 16-bit integer, then
/// its bytes as UTF-8.
pub open spec fn encode_name(name: Seq<char>) -> Seq<u8> {
    le_bytes(encode_utf8(name).len(), 2) + encode_utf8(name)
}

/// Strings on the wire, one after the other.
pub open spec fn encode_names(names: Seq<Seq<char>>) -> Seq<u8>
    decreases names.len(),
{
    if names.len() == 0 {
        Seq::empty()
    } else {
        encode_names(names.drop_last()) + encode_name(names.last())
    }
}

/// A header on the wire.
pub open spec fn encode_header(h: RadHeaderView) -> Seq<u8> {
    seq![h.is_paired] + le_bytes(h.ref_count as nat, 8) + encode_names(h.ref_names) + le_bytes(
        h.num_chunks as nat,
        8,
    )
}

/// Whether each of the names fits the 16-bit length in front of it.
pub open spec fn names_encodable(names: Seq<Seq<char>>) -> bool {
    forall|i: int| 0 <= i < names.len() ==> encode_utf8(#[trigger] names[i]).len() <= 0xFFFF
}

/// Whether a header can be written and read back: it counts its reference
/// names rightly, and each name fits its length prefix.
pub open spec fn header_encodable(h: RadHeaderView) -> bool {
    h.ref_count == h.ref_names.len() && names_encodable(h.ref_names)
}

/// A tag description on the wire.
pub open spec fn encode_tag_desc(d: TagDescView) -> Seq<u8> {
    encode_name(d.name) + seq![d.typeid]
}

/// Tag descriptions on the wire, one after the other.
pub open spec fn encode_tag_descs(tags: Seq<TagDescView>) -> Seq<u8>
    decreases tags.len(),
{
    if tags.len() == 0 {
        Seq::empty()
    } else {
        encode_tag_descs(tags.drop_last()) + encode_tag_desc(tags.last())
    }
}

/// A tag section on the wire.
pub open spec fn encode_tag_section(tags: Seq<TagDescView>) -> Seq<u8> {
    le_bytes(tags.len(), 2) + encode_tag_descs(tags)
}

/// Whether a tag section can be written and read back: the number of its
/// tags fits 16 bits, and each name fits its length prefix.
pub open spec fn tag_section_encodable(tags: Seq<TagDescView>) -> bool {
    tags.len() <= 0xFFFF && forall|i: int|
        0 <= i < tags.len() ==> encode_utf8((#[trigger] tags[i]).name).len() <= 0xFFFF
}

/// File tags on the wire.
pub open spec fn encode_file_tags(t: FileTags) -> Seq<u8> {
    le_bytes(t.bclen as nat, 2) + le_bytes(t.umilen as nat, 2)
}

/// Reading a string where its encoding lies gives the string.
pub proof fn lemma_parse_encoded_name(s: Seq<u8>, pos: int, name: Seq<char>)
    requires
        holds_at(s, pos, encode_name(name)),
        encode_utf8(name).len() <= 0xFFFF,
    ensures
        parse_name(s, pos) == Ok::<(Seq<char>, int), RadError>(
            (name, pos + encode_name(name).len()),
        ),
{
    let bytes = encode_utf8(name);
    lemma_pow256_values();
    lemma_le_bytes_len(bytes.len(), 2);
    lemma_holds_at_split(s, pos, le_bytes(bytes.len(), 2), bytes);
    lemma_read_le_of_bytes(s, pos, bytes.len(), 2);
    vstd::utf8::encode_utf8_valid_utf8(name);
    vstd::utf8::encode_utf8_decode_utf8(name);
}

/// Reading strings where their encodings lie gives the strings.
pub proof fn lemma_parse_encoded_names(s: Seq<u8>, pos: int, names: Seq<Seq<char>>)
    requires
        holds_at(s, pos, encode_names(names)),
        names_encodable(names),
    ensures
        parse_names(s, pos, names.len()) == Ok::<(Seq<Seq<char>>, int), RadError>(
            (names, pos + encode_names(names).len()),
        ),
    decreases names.len(),
{
    if names.len() == 0 {
        assert(names =~= Seq::<Seq<char>>::empty());
    } else {
        let before = names.drop_last();
        lemma_holds_at_split(s, pos, encode_names(before), encode_name(names.last()));
        assert(names_encodable(before)) by {
            assert forall|i: int| 0 <= i < before.len() implies encode_utf8(
                #[trigger] before[i],
            ).len() <= 0xFFFF by {
                assert(before[i] == names[i]);
            }
        }
        lemma_parse_encoded_names(s, pos, before);
        assert(encode_utf8(names[names.len() - 1]).len() <= 0xFFFF);
        lemma_parse_encoded_name(s, pos + encode_names(before).len(), names.last());
        assert(before.push(names.last()) =~= names);
    }
}

/// Header round trip: reading where the encoding of a header lies gives
/// the header back, and ends behind the encoding.
pub proof fn lemma_header_round_trip(h: RadHeaderView, pre: Seq<u8>, post: Seq<u8>)
    requires
        header_encodable(h),
    ensures
        parse_header(pre + encode_header(h) + post, pre.len() as int) == Ok::<
            (RadHeaderView, int),
            RadError,
        >((h, (pre.len() + encode_header(h).len()) as int)),
{
    let s = pre + encode_header(h) + post;
    let pos = pre.len() as int;
    let names = encode_names(h.ref_names);
    lemma_pow256_values();
    lemma_holds_at_middle(pre, encode_header(h), post);
    lemma_le_bytes_len(h.ref_count as nat, 8);
    lemma_le_bytes_len(h.num_chunks as nat, 8);
    lemma_holds_at_split(
        s,
        pos,
        seq![h.is_paired] + le_bytes(h.ref_count as nat, 8) + names,
        le_bytes(h.num_chunks as nat, 8),
    );
    lemma_holds_at_split(s, pos, seq![h.is_paired] + le_bytes(h.ref_count as nat, 8), names);
    lemma_holds_at_split(s, pos, seq![h.is_paired], le_bytes(h.ref_count as nat, 8));
    assert(read_le(s, pos, 1) == Some(h.is_paired as nat)) by {
        let one = s.subrange(pos, pos + 1);
        assert(one =~= seq![h.is_paired]);
        reveal_with_fuel(crate::primitive::le_value, 2);
        assert(one.drop_first().len() == 0);
    }
    lemma_read_le_of_bytes(s, pos + 1, h.ref_count as nat, 8);
    lemma_parse_encoded_names(s, pos + 9, h.ref_names);
    lemma_read_le_of_bytes(s, pos + 9 + names.len(), h.num_chunks as nat, 8);
}

/// Reading a tag description where its encoding lies gives it back.
pub proof fn lemma_parse_encoded_tag_desc(s: Seq<u8>, pos: int, d: TagDescView)
    requires
        holds_at(s, pos, encode_tag_desc(d)),
        encode_utf8(d.name).len() <= 0xFFFF,
    ensures
        parse_tag_desc(s, pos) == Ok::<(TagDescView, int), RadError>(
            (d, pos + encode_tag_desc(d).len()),
        ),
{
    lemma_holds_at_split(s, pos, encode_name(d.name), seq![d.typeid]);
    lemma_parse_encoded_name(s, pos, d.name);
    let at = pos + encode_name(d.name).len();
    let one = s.subrange(at, at + 1);
    assert(one =~= seq![d.typeid]);
    reveal_with_fuel(crate::primitive::le_value, 2);
    assert(one.drop_first().len() == 0);
}

/// Reading tag descriptions where their encodings lie gives them back.
pub proof fn lemma_parse_encoded_tag_descs(s: Seq<u8>, pos: int, tags: Seq<TagDescView>)
    requires
        holds_at(s, pos, encode_tag_descs(tags)),
        forall|i: int| 0 <= i < tags.len() ==> encode_utf8((#[trigger] tags[i]).name).len() <= 0xFFFF,
    ensures
        parse_tag_descs(s, pos, tags.len()) == Ok::<(Seq<TagDescView>, int), RadError>(
            (tags, pos + encode_tag_descs(tags).len()),
        ),
    decreases tags.len(),
{
    if tags.len() == 0 {
        assert(tags =~= Seq::<TagDescView>::empty());
    } else {
        let before = tags.drop_last();
        lemma_holds_at_split(s, pos, encode_tag_descs(before), encode_tag_desc(tags.last()));
        assert forall|i: int| 0 <= i < before.len() implies encode_utf8(
            (#[trigger] before[i]).name,
        ).len() <= 0xFFFF by {
            assert(before[i] == tags[i]);
        }
        lemma_parse_encoded_tag_descs(s, pos, before);
        assert(encode_utf8(tags[tags.len() - 1].name).len() <= 0xFFFF);
        lemma_parse_encoded_tag_desc(s, pos + encode_tag_descs(before).len(), tags.last());
        assert(before.push(tags.last()) =~= tags);
    }
}

/// Tag section round trip: reading where the encoding of a tag section
/// lies gives the section back, and ends behind the encoding.
pub proof fn lemma_tag_section_round_trip(tags: Seq<TagDescView>, pre: Seq<u8>, post: Seq<u8>)
    requires
        tag_section_encodable(tags),
    ensures
        parse_tag_section(pre + encode_tag_section(tags) + post, pre.len() as int) == Ok::<
            (Seq<TagDescView>, int),
            RadError,
        >((tags, (pre.len() + encode_tag_section(tags).len()) as int)),
{
    let s = pre + encode_tag_section(tags) + post;
    let pos = pre.len() as int;
    lemma_pow256_values();
    lemma_holds_at_middle(pre, encode_tag_section(tags), post);
    lemma_le_bytes_len(tags.len(), 2);
    lemma_holds_at_split(s, pos, le_bytes(tags.len(), 2), encode_tag_descs(tags));
    lemma_read_le_of_bytes(s, pos, tags.len(), 2);
    lemma_parse_encoded_tag_descs(s, pos + 2, tags);
}

/// File tags round trip.
pub proof fn lemma_file_tags_round_trip(t: FileTags, pre: Seq<u8>, post: Seq<u8>)
    ensures
        parse_file_tags(pre + encode_file_tags(t) + post, pre.len() as int) == Some(t),
{
    let s = pre + encode_file_tags(t) + post;
    let pos = pre.len() as int;
    lemma_pow256_values();
    lemma_holds_at_middle(pre, encode_file_tags(t), post);
    lemma_le_bytes_len(t.bclen as nat, 2);
    lemma_le_bytes_len(t.umilen as nat, 2);
    lemma_holds_at_split(s, pos, le_bytes(t.bclen as nat, 2), le_bytes(t.umilen as nat, 2));
    lemma_read_le_of_bytes(s, pos, t.bclen as nat, 2);
    lemma_read_le_of_bytes(s, pos + 2, t.umilen as nat, 2);
}

impl RadHeader {
    /// Appends the header to `out` as it lies on the wire. (A name of more
    /// than 65,535 bytes gets a length prefix that lost its high bits.)
    pub fn write_bytes(&self, out: &mut Vec<u8>)
        ensures
            final(out)@ == old(out)@ + encode_header(self@),
    {
        out.push(self.is_paired);
        RadIntId::U64.write_to(self.ref_count, out);
        let n: usize = self.ref_names.len();
        let ghost names = self@.ref_names;
        let ghost head = old(out)@ + seq![self.is_paired] + le_bytes(self.ref_count as nat, 8);
        let mut i: usize = 0;
        assert(names.take(0) =~= Seq::<Seq<char>>::empty());
        assert(out@ =~= head + encode_names(names.take(0)));
        while i < n
            invariant
                i <= n,
                n == self.ref_names@.len(),
                names == self@.ref_names,
                out@ == head + encode_names(names.take(i as int)),
            decreases n - i,
        {
            let ghost before = out@;
            write_str_bin(self.ref_names[i].as_str(), &RadIntId::U16, out);
            proof {
                assert(names.take(i + 1).drop_last() =~= names.take(i as int));
                assert(names.take(i + 1).last() == self.ref_names@[i as int]@);
                assert(out@ =~= head + (encode_names(names.take(i as int)) + encode_name(
                    names[i as int],
                )));
            }
            i += 1;
        }
        assert(names.take(n as int) =~= names);
        RadIntId::U64.write_to(self.num_chunks, out);
        assert(out@ =~= old(out)@ + encode_header(self@));
    }
}

impl TagDesc {
    /// Appends the tag description to `out` as it lies on the wire. (A
    /// name of more than 65,535 bytes gets a length prefix that lost its
    /// high bits.)
    pub fn write_bytes(&self, out: &mut Vec<u8>)
        ensures
            final(out)@ == old(out)@ + encode_tag_desc(self@),
    {
        write_str_bin(self.name.as_str(), &RadIntId::U16, out);
        out.push(self.typeid);
        assert(out@ =~= old(out)@ + encode_tag_desc(self@));
    }
}

impl TagSection {
    /// Appends the tag section to `out` as it lies on the wire. (A count
    /// or a name length beyond 16 bits loses its high bits.)
    pub fn write_bytes(&self, out: &mut Vec<u8>)
        ensures
            final(out)@ == old(out)@ + encode_tag_section(self@),
    {
        let n: usize = self.tags.len();
        RadIntId::U16.write_to(n as u64, out);
        let ghost tags = self@;
        let ghost head = old(out)@ + le_bytes(n as nat, 2);
        let mut i: usize = 0;
        assert(tags.take(0) =~= Seq::<TagDescView>::empty());
        assert(out@ =~= head + encode_tag_descs(tags.take(0)));
        while i < n
            invariant
                i <= n,
                n == self.tags@.len(),
                tags == self@,
                out@ == head + encode_tag_descs(tags.take(i as int)),
            decreases n - i,
        {
            self.tags[i].write_bytes(out);
            proof {
                assert(tags.take(i + 1).drop_last() =~= tags.take(i as int));
                assert(tags.take(i + 1).last() == self.tags@[i as int]@);
                assert(out@ =~= head + (encode_tag_descs(tags.take(i as int)) + encode_tag_desc(
                    tags[i as int],
                )));
            }
            i += 1;
        }
        assert(tags.take(n as int) =~= tags);
    }
}

impl FileTags {
    /// Appends the file tags to `out` as they lie on the wire.
    pub fn write_bytes(&self, out: &mut Vec<u8>)
        ensures
            final(out)@ == old(out)@ + encode_file_tags(*self),
    {
        RadIntId::U16.write_to(self.bclen as u64, out);
        RadIntId::U16.write_to(self.umilen as u64, out);
        assert(out@ =~= old(out)@ + encode_file_tags(*self));
    }
}

} // verus!
