//! Little-endian integers of one, two, four or eight bytes, strings with
//! their length in front, and the type tags of the format.

use vstd::prelude::*;
use scroll::Pread;
use vstd::utf8::encode_utf8;
use crate::error::RadError;

verus! {

/// `256^w`: the number of values that `w` bytes can hold.
pub open spec fn pow256(w: nat) -> nat
    decreases w,
{
    if w == 0 {
        1
    } else {
        256 * pow256((w - 1) as nat)
    }
}

/// The number that the bytes `s` spell, least significant byte first.
pub open spec fn le_value(s: Seq<u8>) -> nat
    decreases s.len(),
{
    if s.len() == 0 {
        0
    } else {
        s[0] as nat + 256 * le_value(s.drop_first())
    }
}

/// The `width` low-order bytes of `v`, least significant byte first.
/// Bytes of `v` beyond `width` are dropped.
pub open spec fn le_bytes(v: nat, width: nat) -> Seq<u8>
    decreases width,
{
    if width == 0 {
        Seq::empty()
    } else {
        seq![(v % 256) as u8] + le_bytes(v / 256, (width - 1) as nat)
    }
}

/// The number of values of one, two, four and eight bytes.
pub proof fn lemma_pow256_values()
    ensures
        pow256(0) == 1,
        pow256(1) == 0x100,
        pow256(2) == 0x1_0000,
        pow256(4) == 0x1_0000_0000,
        pow256(8) == 0x1_0000_0000_0000_0000,
{
    reveal_with_fuel(pow256, 9);
}

/// Writing at a width gives that many bytes.
pub proof fn lemma_le_bytes_len(v: nat, width: nat)
    ensures
        le_bytes(v, width).len() == width,
    decreases width,
{
    if width > 0 {
        lemma_le_bytes_len(v / 256, (width - 1) as nat);
    }
}

/// What bytes spell is below the number of values that they can hold.
pub proof fn lemma_le_value_bound(s: Seq<u8>)
    ensures
        le_value(s) < pow256(s.len()),
    decreases s.len(),
{
    if s.len() > 0 {
        lemma_le_value_bound(s.drop_first());
    }
}

/// Decoding what `le_bytes` wrote gives the value back, reduced to the width.
pub proof fn lemma_le_value_of_le_bytes(v: nat, width: nat)
    ensures
        le_value(le_bytes(v, width)) == v % pow256(width),
    decreases width,
{
    lemma_le_bytes_len(v, width);
    if width > 0 {
        let rest = le_bytes(v / 256, (width - 1) as nat);
        let s = le_bytes(v, width);
        lemma_le_value_of_le_bytes(v / 256, (width - 1) as nat);
        assert(s.drop_first() =~= rest);
        let p = pow256((width - 1) as nat);
        lemma_pow256_positive((width - 1) as nat);
        assert(v % (256 * p) == (v % 256) + 256 * ((v / 256) % p)) by {
            lemma_mod_split(v, p);
        }
    }
}

/// Bytes can hold at least one value.
pub proof fn lemma_pow256_positive(w: nat)
    ensures
        pow256(w) > 0,
    decreases w,
{
    if w > 0 {
        lemma_pow256_positive((w - 1) as nat);
    }
}

/// The remainder by 256 times `p`, from the remainder by 256 and that of
/// the quotient by `p`.
proof fn lemma_mod_split(v: nat, p: nat)
    requires
        p > 0,
    ensures
        v % (256 * p) == (v % 256) + 256 * ((v / 256) % p),
{
    let q = v / 256;
    let r = v % 256;
    let qq = q / p;
    let qr = q % p;
    assert(v == 256 * q + r);
    assert(q == p * qq + qr) by {
        vstd::arithmetic::div_mod::lemma_fundamental_div_mod(q as int, p as int);
    }
    assert(v == (256 * p) * qq + (256 * qr + r)) by (nonlinear_arith)
        requires
            v == 256 * q + r,
            q == p * qq + qr,
    ;
    assert(0 <= 256 * qr + r < 256 * p) by (nonlinear_arith)
        requires
            0 <= qr < p,
            0 <= r < 256,
    ;
    vstd::arithmetic::div_mod::lemma_fundamental_div_mod_converse(
        v as int,
        (256 * p) as int,
        qq as int,
        (256 * qr + r) as int,
    );
}

/// Writing the value that bytes spell, at their own width, gives the bytes back.
pub proof fn lemma_le_bytes_of_le_value(s: Seq<u8>)
    ensures
        le_bytes(le_value(s), s.len()) == s,
    decreases s.len(),
{
    if s.len() > 0 {
        let t = s.drop_first();
        lemma_le_bytes_of_le_value(t);
        let v = le_value(s);
        assert(v % 256 == s[0] as nat);
        assert(v / 256 == le_value(t));
        assert(le_bytes(v, s.len()) =~= s);
    } else {
        assert(le_bytes(le_value(s), s.len()) =~= s);
    }
}

/// A value below `256^width` survives a write and a read at that width.
pub proof fn lemma_le_round_trip(v: nat, width: nat)
    requires
        v < pow256(width),
    ensures
        le_value(le_bytes(v, width)) == v,
        le_bytes(v, width).len() == width,
{
    lemma_le_bytes_len(v, width);
    lemma_le_value_of_le_bytes(v, width);
    vstd::arithmetic::div_mod::lemma_small_mod(v, pow256(width));
}

/// What a read of `width` bytes at `pos` in `s` yields: the little-endian
/// value of those bytes, or nothing where `s` ends too early.
pub open spec fn read_le(s: Seq<u8>, pos: int, width: nat) -> Option<nat> {
    if 0 <= pos && pos + width <= s.len() {
        Some(le_value(s.subrange(pos, pos + width)))
    } else {
        None
    }
}

/// Whether the bytes `enc` lie in `s` from `pos` on.
pub open spec fn holds_at(s: Seq<u8>, pos: int, enc: Seq<u8>) -> bool {
    0 <= pos && pos + enc.len() <= s.len() && s.subrange(pos, pos + enc.len()) == enc
}

/// Where two runs of bytes lie one behind the other, each lies at its place.
pub proof fn lemma_holds_at_split(s: Seq<u8>, pos: int, a: Seq<u8>, b: Seq<u8>)
    requires
        holds_at(s, pos, a + b),
    ensures
        holds_at(s, pos, a),
        holds_at(s, pos + a.len(), b),
{
    let whole = s.subrange(pos, pos + (a + b).len());
    assert(s.subrange(pos, pos + a.len()) =~= whole.subrange(0, a.len() as int));
    assert(whole.subrange(0, a.len() as int) =~= a);
    assert(s.subrange(pos + a.len(), pos + a.len() + b.len()) =~= whole.subrange(
        a.len() as int,
        (a + b).len() as int,
    ));
    assert(whole.subrange(a.len() as int, (a + b).len() as int) =~= b);
}

/// An encoding lies in the text made of something, the encoding, and
/// something more, behind the first.
pub proof fn lemma_holds_at_middle(pre: Seq<u8>, enc: Seq<u8>, post: Seq<u8>)
    ensures
        holds_at(pre + enc + post, pre.len() as int, enc),
{
    assert((pre + enc + post).subrange(pre.len() as int, (pre.len() + enc.len()) as int) =~= enc);
}

/// Reading an integer where its little-endian bytes lie gives the integer.
pub proof fn lemma_read_le_of_bytes(s: Seq<u8>, pos: int, v: nat, width: nat)
    requires
        holds_at(s, pos, le_bytes(v, width)),
        v < pow256(width),
    ensures
        read_le(s, pos, width) == Some(v),
{
    lemma_le_round_trip(v, width);
}

/// `scroll`'s `pread_with` for a `u8`: the byte at `offset`, or `None`
/// where `offset` is not inside `buf`.
#[verifier::external_body]
pub(crate) fn pread_u8(buf: &[u8], offset: usize) -> (r: Option<u8>)
    ensures
        r == (if offset + 1 <= buf@.len() {
            Some(buf@[offset as int])
        } else {
            None
        }),
{
    buf.pread_with::<u8>(offset, scroll::LE).ok()
}

/// `scroll`'s `pread_with` for a little-endian `u16`: the value of the two
/// bytes at `offset`, or `None` where fewer than two bytes follow `offset`.
#[verifier::external_body]
pub(crate) fn pread_u16(buf: &[u8], offset: usize) -> (r: Option<u16>)
    ensures
        r is Some <==> offset + 2 <= buf@.len(),
        r matches Some(v) ==> v as nat == le_value(buf@.subrange(offset as int, offset + 2)),
{
    buf.pread_with::<u16>(offset, scroll::LE).ok()
}

/// `scroll`'s `pread_with` for a little-endian `u32`: the value of the four
/// bytes at `offset`, or `None` where fewer than four bytes follow `offset`.
#[verifier::external_body]
pub(crate) fn pread_u32(buf: &[u8], offset: usize) -> (r: Option<u32>)
    ensures
        r is Some <==> offset + 4 <= buf@.len(),
        r matches Some(v) ==> v as nat == le_value(buf@.subrange(offset as int, offset + 4)),
{
    buf.pread_with::<u32>(offset, scroll::LE).ok()
}

/// `scroll`'s `pread_with` for a little-endian `u64`: the value of the eight
/// bytes at `offset`, or `None` where fewer than eight bytes follow `offset`.
#[verifier::external_body]
pub(crate) fn pread_u64(buf: &[u8], offset: usize) -> (r: Option<u64>)
    ensures
        r is Some <==> offset + 8 <= buf@.len(),
        r matches Some(v) ==> v as nat == le_value(buf@.subrange(offset as int, offset + 8)),
{
    buf.pread_with::<u64>(offset, scroll::LE).ok()
}

/// The integer types that a barcode or UMI field can be stored as.
#[derive(Copy, Clone, Debug, PartialEq, Eq, Structural)]
pub enum RadIntId {
    U8,
    U16,
    U32,
    U64,
}

impl RadIntId {
    /// The number of bytes that a field of this type takes on the wire.
    pub open spec fn width(&self) -> nat {
        match self {
            RadIntId::U8 => 1,
            RadIntId::U16 => 2,
            RadIntId::U32 => 4,
            RadIntId::U64 => 8,
        }
    }

    /// The number of bytes that a field of this type takes on the wire.
    pub fn bytes_for_type(&self) -> (n: usize)
        ensures
            n == self.width(),
    {
        match self {
            RadIntId::U8 => 1,
            RadIntId::U16 => 2,
            RadIntId::U32 => 4,
            RadIntId::U64 => 8,
        }
    }

    /// Appends `v` to `owriter` as a little-endian integer of this type.
    /// Where `v` is wider than the type its high-order bytes are dropped; it
    /// is for the caller to see that nothing of value is lost.
    pub fn write_to(&self, v: u64, owriter: &mut Vec<u8>)
        ensures
            final(owriter)@ == old(owriter)@ + le_bytes(v as nat, self.width()),
    {
        let n: usize = self.bytes_for_type();
        let mut rest: u64 = v;
        let mut i: usize = 0;
        while i < n
            invariant
                i <= n,
                n == self.width(),
                owriter@ + le_bytes(rest as nat, (n - i) as nat) == old(owriter)@ + le_bytes(
                    v as nat,
                    n as nat,
                ),
            decreases n - i,
        {
            proof {
                let ghost tail = le_bytes(rest as nat / 256, (n - i - 1) as nat);
                assert(le_bytes(rest as nat, (n - i) as nat) == seq![(rest as nat % 256) as u8]
                    + tail);
                assert(owriter@.push((rest % 256) as u8) + tail =~= owriter@ + (seq![
                    (rest as nat % 256) as u8,
                ] + tail));
            }
            owriter.push((rest % 256) as u8);
            rest = rest / 256;
            i += 1;
        }
        assert(owriter@ + le_bytes(rest as nat, 0) =~= owriter@);
    }
}

/// The widths of the barcode and UMI fields of a file, as type tags, and the
/// number of chunks that it holds.
pub struct ChunkConfig {
    pub num_chunks: u64,
    pub bc_type: u8,
    pub umi_type: u8,
}

/// The primitive types that a tag can have.
#[derive(Copy, Clone, Debug, PartialEq, Eq, Structural)]
pub enum RadType {
    Bool,
    U8,
    U16,
    U32,
    U64,
    F32,
    F64,
}

/// The byte that stands for a primitive type on the wire.
pub open spec fn type_tag(t: RadType) -> u8 {
    match t {
        RadType::Bool => 0,
        RadType::U8 => 1,
        RadType::U16 => 2,
        RadType::U32 => 3,
        RadType::U64 => 4,
        RadType::F32 => 5,
        RadType::F64 => 6,
    }
}

/// The integer type that a type tag selects, if it selects one.
pub open spec fn int_type_of_tag(type_id: u8) -> Option<RadIntId> {
    if type_id == 1 {
        Some(RadIntId::U8)
    } else if type_id == 2 {
        Some(RadIntId::U16)
    } else if type_id == 3 {
        Some(RadIntId::U32)
    } else if type_id == 4 {
        Some(RadIntId::U64)
    } else {
        None
    }
}

/// The byte that stands for the type `type_tag` on the wire. There is one
/// for every type.
pub fn encode_type_tag(type_tag: RadType) -> (r: Option<u8>)
    ensures
        r == Some(self::type_tag(type_tag)),
{
    match type_tag {
        RadType::Bool => Some(0),
        RadType::U8 => Some(1),
        RadType::U16 => Some(2),
        RadType::U32 => Some(3),
        RadType::U64 => Some(4),
        RadType::F32 => Some(5),
        RadType::F64 => Some(6),
    }
}

/// The integer type that the type tag `type_id` selects; `None` for a tag
/// that selects no integer type.
pub fn decode_int_type_tag(type_id: u8) -> (r: Option<RadIntId>)
    ensures
        r == int_type_of_tag(type_id),
{
    match type_id {
        1 => Some(RadIntId::U8),
        2 => Some(RadIntId::U16),
        3 => Some(RadIntId::U32),
        4 => Some(RadIntId::U64),
        _ => None,
    }
}

/// Reads one little-endian integer of type `rt` from `buf` at `*pos`, widens
/// it to a `u64` and moves `*pos` past it. Where `buf` ends before the
/// integer does, nothing is consumed.
pub fn read_into_u64(buf: &[u8], pos: &mut usize, rt: &RadIntId) -> (r: Result<u64, RadError>)
    ensures
        match r {
            Ok(v) => read_le(buf@, *old(pos) as int, rt.width()) == Some(v as nat) && *final(pos)
                == *old(pos) + rt.width(),
            Err(e) => e == RadError::ShortRead && read_le(buf@, *old(pos) as int, rt.width())
                is None && *final(pos) == *old(pos),
        },
{
    let at: usize = *pos;
    let _len: usize = buf.len();
    let got: Option<u64> = match rt {
        RadIntId::U8 => match pread_u8(buf, at) {
            Some(v) => {
                proof {
                    let s = buf@.subrange(at as int, at + 1);
                    reveal_with_fuel(le_value, 2);
                    assert(s.drop_first().len() == 0);
                }
                Some(v as u64)
            },
            None => None,
        },
        RadIntId::U16 => match pread_u16(buf, at) {
            Some(v) => Some(v as u64),
            None => None,
        },
        RadIntId::U32 => match pread_u32(buf, at) {
            Some(v) => Some(v as u64),
            None => None,
        },
        RadIntId::U64 => pread_u64(buf, at),
    };
    match got {
        Some(v) => {
            *pos = at + rt.bytes_for_type();
            Ok(v)
        },
        None => Err(RadError::ShortRead),
    }
}

/// Reads a little-endian `u32` from `buf` at `*pos` and moves `*pos` past it.
pub fn read_u32(buf: &[u8], pos: &mut usize) -> (r: Result<u32, RadError>)
    ensures
        match r {
            Ok(v) => read_le(buf@, *old(pos) as int, 4) == Some(v as nat) && *final(pos)
                == *old(pos) + 4,
            Err(e) => e == RadError::ShortRead && read_le(buf@, *old(pos) as int, 4) is None
                && *final(pos) == *old(pos),
        },
{
    let at: usize = *pos;
    let _len: usize = buf.len();
    match pread_u32(buf, at) {
        Some(v) => {
            *pos = at + 4;
            Ok(v)
        },
        None => Err(RadError::ShortRead),
    }
}

/// Reads a little-endian `u16` from `buf` at `*pos` and moves `*pos` past it.
pub fn read_u16(buf: &[u8], pos: &mut usize) -> (r: Result<u16, RadError>)
    ensures
        match r {
            Ok(v) => read_le(buf@, *old(pos) as int, 2) == Some(v as nat) && *final(pos)
                == *old(pos) + 2,
            Err(e) => e == RadError::ShortRead && read_le(buf@, *old(pos) as int, 2) is None
                && *final(pos) == *old(pos),
        },
{
    let at: usize = *pos;
    let _len: usize = buf.len();
    match pread_u16(buf, at) {
        Some(v) => {
            *pos = at + 2;
            Ok(v)
        },
        None => Err(RadError::ShortRead),
    }
}

/// Reads a little-endian `u64` from `buf` at `*pos` and moves `*pos` past it.
pub fn read_u64(buf: &[u8], pos: &mut usize) -> (r: Result<u64, RadError>)
    ensures
        match r {
            Ok(v) => read_le(buf@, *old(pos) as int, 8) == Some(v as nat) && *final(pos)
                == *old(pos) + 8,
            Err(e) => e == RadError::ShortRead && read_le(buf@, *old(pos) as int, 8) is None
                && *final(pos) == *old(pos),
        },
{
    let at: usize = *pos;
    let _len: usize = buf.len();
    match pread_u64(buf, at) {
        Some(v) => {
            *pos = at + 8;
            Ok(v)
        },
        None => Err(RadError::ShortRead),
    }
}

/// Appends `v` to `out` as a little-endian `u32`.
pub fn write_u32(v: u32, out: &mut Vec<u8>)
    ensures
        final(out)@ == old(out)@ + le_bytes(v as nat, 4),
{
    RadIntId::U32.write_to(v as u64, out);
}

/// Appends the string `v` to `owriter`: its length in bytes as a
/// little-endian integer of type `type_id` (truncated to that type), then its
/// UTF-8 bytes, with no terminator.
pub fn write_str_bin(v: &str, type_id: &RadIntId, owriter: &mut Vec<u8>)
    ensures
        final(owriter)@ == old(owriter)@ + le_bytes(encode_utf8(v@).len(), type_id.width())
            + encode_utf8(v@),
{
    let bytes = v.as_bytes();
    let n: usize = bytes.len();
    type_id.write_to(n as u64, owriter);
    owriter.extend_from_slice(bytes);
}

} // verus!
