//! Little-endian byte primitives and the versioned binary envelope.
//!
//! Every artifact this crate persists is a payload of bytes wrapped by an
//! 8-byte header: a 4-byte magic tag followed by a little-endian `u32`
//! version. A reader that expects a different magic or version gets `None`
//! back instead of a misinterpreted payload.

use vstd::prelude::*;
use vstd::utf8::{decode_utf8, encode_utf8, encode_utf8_decode_utf8, encode_utf8_valid_utf8,
    valid_utf8};

use crate::text::string_from_utf8;

verus! {

/// The little-endian byte image of a `u32`.
pub open spec fn spec_u32_le(v: u32) -> Seq<u8> {
    seq![
        (v & 0xff) as u8,
        ((v >> 8) & 0xff) as u8,
        ((v >> 16) & 0xff) as u8,
        ((v >> 24) & 0xff) as u8,
    ]
}

/// The little-endian byte image of a `u64`.
pub open spec fn spec_u64_le(v: u64) -> Seq<u8> {
    seq![
        (v & 0xff) as u8,
        ((v >> 8) & 0xff) as u8,
        ((v >> 16) & 0xff) as u8,
        ((v >> 24) & 0xff) as u8,
        ((v >> 32) & 0xff) as u8,
        ((v >> 40) & 0xff) as u8,
        ((v >> 48) & 0xff) as u8,
        ((v >> 56) & 0xff) as u8,
    ]
}

/// Recombine four little-endian bytes into a `u32`.
pub open spec fn u32_from_le(b0: u8, b1: u8, b2: u8, b3: u8) -> u32 {
    (b0 as u32) | ((b1 as u32) << 8) | ((b2 as u32) << 16) | ((b3 as u32) << 24)
}

/// Recombine eight little-endian bytes into a `u64`.
pub open spec fn u64_from_le(b0: u8, b1: u8, b2: u8, b3: u8, b4: u8, b5: u8, b6: u8, b7: u8) -> u64 {
    (b0 as u64) | ((b1 as u64) << 8) | ((b2 as u64) << 16) | ((b3 as u64) << 24)
        | ((b4 as u64) << 32) | ((b5 as u64) << 40) | ((b6 as u64) << 48) | ((b7 as u64) << 56)
}

/// Splitting a `u32` into little-endian bytes and recombining them is the identity.
pub proof fn lemma_u32_le_roundtrip(v: u32)
    ensures
        u32_from_le(
            (v & 0xff) as u8,
            ((v >> 8) & 0xff) as u8,
            ((v >> 16) & 0xff) as u8,
            ((v >> 24) & 0xff) as u8,
        ) == v,
{
    assert(((v & 0xff) as u8 as u32) | ((((v >> 8) & 0xff) as u8 as u32) << 8)
        | ((((v >> 16) & 0xff) as u8 as u32) << 16) | ((((v >> 24) & 0xff) as u8 as u32) << 24)
        == v) by (bit_vector);
}

/// Splitting a `u64` into little-endian bytes and recombining them is the identity.
pub proof fn lemma_u64_le_roundtrip(v: u64)
    ensures
        u64_from_le(
            (v & 0xff) as u8,
            ((v >> 8) & 0xff) as u8,
            ((v >> 16) & 0xff) as u8,
            ((v >> 24) & 0xff) as u8,
            ((v >> 32) & 0xff) as u8,
            ((v >> 40) & 0xff) as u8,
            ((v >> 48) & 0xff) as u8,
            ((v >> 56) & 0xff) as u8,
        ) == v,
{
    assert(((v & 0xff) as u8 as u64) | ((((v >> 8) & 0xff) as u8 as u64) << 8)
        | ((((v >> 16) & 0xff) as u8 as u64) << 16) | ((((v >> 24) & 0xff) as u8 as u64) << 24)
        | ((((v >> 32) & 0xff) as u8 as u64) << 32) | ((((v >> 40) & 0xff) as u8 as u64) << 40)
        | ((((v >> 48) & 0xff) as u8 as u64) << 48) | ((((v >> 56) & 0xff) as u8 as u64) << 56)
        == v) by (bit_vector);
}

/// Distinct `u32` values have distinct little-endian images.
pub proof fn lemma_u32_le_injective(v1: u32, v2: u32)
    requires
        v1 != v2,
    ensures
        spec_u32_le(v1) != spec_u32_le(v2),
{
    if spec_u32_le(v1) == spec_u32_le(v2) {
        assert(spec_u32_le(v1)[0] == spec_u32_le(v2)[0]);
        assert(spec_u32_le(v1)[1] == spec_u32_le(v2)[1]);
        assert(spec_u32_le(v1)[2] == spec_u32_le(v2)[2]);
        assert(spec_u32_le(v1)[3] == spec_u32_le(v2)[3]);
        lemma_u32_le_roundtrip(v1);
        lemma_u32_le_roundtrip(v2);
    }
}

/// Append the little-endian bytes of `v` to `out`.
pub fn push_u32_le(out: &mut Vec<u8>, v: u32)
    ensures
        final(out)@ == old(out)@ + spec_u32_le(v),
{
    out.push((v & 0xff) as u8);
    out.push(((v >> 8) & 0xff) as u8);
    out.push(((v >> 16) & 0xff) as u8);
    out.push(((v >> 24) & 0xff) as u8);
    assert(final(out)@ =~= old(out)@ + spec_u32_le(v));
}

/// Append the little-endian bytes of `v` to `out`.
pub fn push_u64_le(out: &mut Vec<u8>, v: u64)
    ensures
        final(out)@ == old(out)@ + spec_u64_le(v),
{
    out.push((v & 0xff) as u8);
    out.push(((v >> 8) & 0xff) as u8);
    out.push(((v >> 16) & 0xff) as u8);
    out.push(((v >> 24) & 0xff) as u8);
    out.push(((v >> 32) & 0xff) as u8);
    out.push(((v >> 40) & 0xff) as u8);
    out.push(((v >> 48) & 0xff) as u8);
    out.push(((v >> 56) & 0xff) as u8);
    assert(final(out)@ =~= old(out)@ + spec_u64_le(v));
}

/// Parse a `u32` at `off`; `None` when fewer than four bytes remain.
pub open spec fn spec_read_u32(b: Seq<u8>, off: int) -> Option<(u32, int)> {
    if 0 <= off && off + 4 <= b.len() {
        Some((u32_from_le(b[off], b[off + 1], b[off + 2], b[off + 3]), off + 4))
    } else {
        None
    }
}

/// Parse a `u64` at `off`; `None` when fewer than eight bytes remain.
pub open spec fn spec_read_u64(b: Seq<u8>, off: int) -> Option<(u64, int)> {
    if 0 <= off && off + 8 <= b.len() {
        Some((
            u64_from_le(
                b[off], b[off + 1], b[off + 2], b[off + 3],
                b[off + 4], b[off + 5], b[off + 6], b[off + 7],
            ),
            off + 8,
        ))
    } else {
        None
    }
}

/// Read a `u32` from `bytes` at `off`, returning the value and the new offset.
pub fn read_u32_le(bytes: &[u8], off: usize) -> (r: Option<(u32, usize)>)
    ensures
        r is Some <==> spec_read_u32(bytes@, off as int) is Some,
        r matches Some(p) ==> spec_read_u32(bytes@, off as int) == Some((p.0, p.1 as int)),
{
    if bytes.len() < 4 || off > bytes.len() - 4 {
        return None;
    }
    let v = (bytes[off] as u32) | ((bytes[off + 1] as u32) << 8)
        | ((bytes[off + 2] as u32) << 16) | ((bytes[off + 3] as u32) << 24);
    Some((v, off + 4))
}

/// Read a `u64` from `bytes` at `off`, returning the value and the new offset.
pub fn read_u64_le(bytes: &[u8], off: usize) -> (r: Option<(u64, usize)>)
    ensures
        r is Some <==> spec_read_u64(bytes@, off as int) is Some,
        r matches Some(p) ==> spec_read_u64(bytes@, off as int) == Some((p.0, p.1 as int)),
{
    if bytes.len() < 8 || off > bytes.len() - 8 {
        return None;
    }
    let v = (bytes[off] as u64) | ((bytes[off + 1] as u64) << 8)
        | ((bytes[off + 2] as u64) << 16) | ((bytes[off + 3] as u64) << 24)
        | ((bytes[off + 4] as u64) << 32) | ((bytes[off + 5] as u64) << 40)
        | ((bytes[off + 6] as u64) << 48) | ((bytes[off + 7] as u64) << 56);
    Some((v, off + 8))
}

/// Recombining four bytes and splitting the value again gives the same bytes.
pub proof fn lemma_u32_le_of_from(b0: u8, b1: u8, b2: u8, b3: u8)
    ensures
        spec_u32_le(u32_from_le(b0, b1, b2, b3)) == seq![b0, b1, b2, b3],
{
    let v = u32_from_le(b0, b1, b2, b3);
    assert((((b0 as u32) | ((b1 as u32) << 8) | ((b2 as u32) << 16) | ((b3 as u32) << 24)) & 0xff)
        as u8 == b0) by (bit_vector);
    assert(((((b0 as u32) | ((b1 as u32) << 8) | ((b2 as u32) << 16) | ((b3 as u32) << 24)) >> 8)
        & 0xff) as u8 == b1) by (bit_vector);
    assert(((((b0 as u32) | ((b1 as u32) << 8) | ((b2 as u32) << 16) | ((b3 as u32) << 24)) >> 16)
        & 0xff) as u8 == b2) by (bit_vector);
    assert(((((b0 as u32) | ((b1 as u32) << 8) | ((b2 as u32) << 16) | ((b3 as u32) << 24)) >> 24)
        & 0xff) as u8 == b3) by (bit_vector);
    assert(spec_u32_le(v) =~= seq![b0, b1, b2, b3]);
}

/// Parsing directly after writing a `u32` yields the value back.
pub proof fn lemma_read_u32_after_write(b: Seq<u8>, off: int, v: u32)
    requires
        0 <= off,
        off + 4 <= b.len(),
        b.subrange(off, off + 4) == spec_u32_le(v),
    ensures
        spec_read_u32(b, off) == Some((v, off + 4)),
{
    assert(b[off] == spec_u32_le(v)[0]);
    assert(b[off + 1] == spec_u32_le(v)[1]);
    assert(b[off + 2] == spec_u32_le(v)[2]);
    assert(b[off + 3] == spec_u32_le(v)[3]);
    lemma_u32_le_roundtrip(v);
}

/// Parsing directly after writing a `u64` yields the value back.
pub proof fn lemma_read_u64_after_write(b: Seq<u8>, off: int, v: u64)
    requires
        0 <= off,
        off + 8 <= b.len(),
        b.subrange(off, off + 8) == spec_u64_le(v),
    ensures
        spec_read_u64(b, off) == Some((v, off + 8)),
{
    assert(b[off] == spec_u64_le(v)[0]);
    assert(b[off + 1] == spec_u64_le(v)[1]);
    assert(b[off + 2] == spec_u64_le(v)[2]);
    assert(b[off + 3] == spec_u64_le(v)[3]);
    assert(b[off + 4] == spec_u64_le(v)[4]);
    assert(b[off + 5] == spec_u64_le(v)[5]);
    assert(b[off + 6] == spec_u64_le(v)[6]);
    assert(b[off + 7] == spec_u64_le(v)[7]);
    lemma_u64_le_roundtrip(v);
}

/// The byte image of a boolean: one byte, `1` for true and `0` for false.
pub open spec fn spec_enc_bool(b: bool) -> Seq<u8> {
    if b {
        seq![1u8]
    } else {
        seq![0u8]
    }
}

/// A byte block with its length in front.
pub open spec fn spec_enc_bytes(b: Seq<u8>) -> Seq<u8> {
    spec_u64_le(b.len() as u64) + b
}

/// The byte image of a string: its UTF-8 bytes with their length in front.
pub open spec fn spec_enc_string(s: Seq<char>) -> Seq<u8> {
    spec_enc_bytes(encode_utf8(s))
}

/// Parse one boolean byte at `off`; only `0` and `1` are accepted.
pub open spec fn spec_read_bool(b: Seq<u8>, off: int) -> Option<(bool, int)> {
    if 0 <= off < b.len() && (b[off] == 0u8 || b[off] == 1u8) {
        Some((b[off] == 1u8, off + 1))
    } else {
        None
    }
}

/// Parse a length-prefixed string at `off`; `None` when the buffer is short
/// or the bytes are not valid UTF-8.
pub open spec fn spec_read_string(b: Seq<u8>, off: int) -> Option<(Seq<char>, int)> {
    match spec_read_u64(b, off) {
        Some((n, o2)) => {
            if o2 + n <= b.len() && valid_utf8(b.subrange(o2, o2 + n)) {
                Some((decode_utf8(b.subrange(o2, o2 + n)), o2 + n))
            } else {
                None
            }
        },
        None => None,
    }
}

/// Append the boolean byte of `v` to `out`.
pub fn push_bool(out: &mut Vec<u8>, v: bool)
    ensures
        final(out)@ == old(out)@ + spec_enc_bool(v),
{
    if v {
        out.push(1u8);
    } else {
        out.push(0u8);
    }
    assert(final(out)@ =~= old(out)@ + spec_enc_bool(v));
}

/// Append the length-prefixed UTF-8 bytes of `s` to `out`.
pub fn push_string(out: &mut Vec<u8>, s: &str)
    ensures
        final(out)@ == old(out)@ + spec_enc_string(s@),
{
    let bytes = s.as_bytes();
    push_u64_le(out, bytes.len() as u64);
    out.extend_from_slice(bytes);
    assert(final(out)@ =~= old(out)@ + spec_enc_string(s@));
}

/// Read a boolean at `off`, returning the value and the new offset.
pub fn read_bool(bytes: &[u8], off: usize) -> (r: Option<(bool, usize)>)
    ensures
        r is Some <==> spec_read_bool(bytes@, off as int) is Some,
        r matches Some(p) ==> spec_read_bool(bytes@, off as int) == Some((p.0, p.1 as int)),
{
    if off >= bytes.len() {
        return None;
    }
    let b = bytes[off];
    if b == 1u8 {
        Some((true, off + 1))
    } else if b == 0u8 {
        Some((false, off + 1))
    } else {
        None
    }
}

/// Read a length-prefixed string at `off`, returning it and the new offset.
pub fn read_string(bytes: &[u8], off: usize) -> (r: Option<(String, usize)>)
    ensures
        r is Some <==> spec_read_string(bytes@, off as int) is Some,
        r matches Some(p) ==> spec_read_string(bytes@, off as int) matches Some(sp)
            && p.0@ == sp.0 && p.1 as int == sp.1,
{
    let total = bytes.len();
    let (n64, o2) = match read_u64_le(bytes, off) {
        Some(p) => p,
        None => {
            return None;
        },
    };
    if n64 > (total - o2) as u64 {
        return None;
    }
    let n = n64 as usize;
    let mut block: Vec<u8> = Vec::new();
    let mut i: usize = 0;
    while i < n
        invariant
            o2 + n <= total,
            total == bytes@.len(),
            i <= n,
            block@ == bytes@.subrange(o2 as int, o2 + i),
        decreases n - i,
    {
        block.push(bytes[o2 + i]);
        i = i + 1;
        assert(block@ =~= bytes@.subrange(o2 as int, o2 + i));
    }
    match string_from_utf8(block) {
        Some(s) => Some((s, o2 + n)),
        None => None,
    }
}

/// Parsing directly after writing a boolean yields the value back.
pub proof fn lemma_read_bool_after_write(b: Seq<u8>, off: int, v: bool)
    requires
        0 <= off,
        off + 1 <= b.len(),
        b.subrange(off, off + 1) == spec_enc_bool(v),
    ensures
        spec_read_bool(b, off) == Some((v, off + 1)),
{
    assert(b[off] == spec_enc_bool(v)[0]);
}

/// Parsing directly after writing a string yields the string back.
pub proof fn lemma_read_string_after_write(b: Seq<u8>, off: int, s: Seq<char>)
    requires
        0 <= off,
        off + spec_enc_string(s).len() <= b.len(),
        b.subrange(off, off + spec_enc_string(s).len()) == spec_enc_string(s),
        encode_utf8(s).len() <= u64::MAX,
    ensures
        spec_read_string(b, off) == Some((s, off + spec_enc_string(s).len())),
{
    let utf8 = encode_utf8(s);
    let n = utf8.len() as u64;
    let enc = spec_enc_string(s);
    assert(enc == spec_u64_le(n) + utf8);
    assert(b.subrange(off, off + 8) =~= spec_u64_le(n)) by {
        assert(forall|j: int| 0 <= j < 8 ==> b.subrange(off, off + enc.len())[j] == enc[j]);
    }
    lemma_read_u64_after_write(b, off, n);
    assert forall|j: int| 0 <= j < utf8.len() implies #[trigger] b.subrange(
        off + 8,
        off + 8 + n as int,
    )[j] == utf8[j] by {
        assert(b.subrange(off + 8, off + 8 + n as int)[j] == b[off + 8 + j]);
        assert(b[off + 8 + j] == b.subrange(off, off + enc.len())[8 + j]);
        assert(enc[8 + j] == utf8[j]);
    }
    assert(b.subrange(off + 8, off + 8 + n as int) =~= utf8);
    broadcast use encode_utf8_valid_utf8, encode_utf8_decode_utf8;

    assert(valid_utf8(utf8));
    assert(decode_utf8(utf8) == s);
}

/// A window onto a concatenation splits into windows onto the parts.
pub proof fn lemma_split_subrange(b: Seq<u8>, off: int, x: Seq<u8>, y: Seq<u8>)
    requires
        0 <= off,
        off + x.len() + y.len() <= b.len(),
        b.subrange(off, off + x.len() + y.len()) == x + y,
    ensures
        b.subrange(off, off + x.len()) == x,
        b.subrange(off + x.len(), off + x.len() + y.len()) == y,
{
    let whole = b.subrange(off, off + x.len() + y.len());
    assert forall|i: int| 0 <= i < x.len() implies b.subrange(off, off + x.len())[i] == x[i] by {
        assert(whole[i] == (x + y)[i]);
    }
    assert(b.subrange(off, off + x.len()) =~= x);
    assert forall|i: int| 0 <= i < y.len() implies b.subrange(
        off + x.len(),
        off + x.len() + y.len(),
    )[i] == y[i] by {
        assert(whole[x.len() + i] == (x + y)[x.len() + i]);
    }
    assert(b.subrange(off + x.len(), off + x.len() + y.len()) =~= y);
}

/// The full image of a persisted artifact: a 4-byte magic, the little-endian
/// version, then the payload.
pub open spec fn spec_with_header(magic: Seq<u8>, version: u32, payload: Seq<u8>) -> Seq<u8> {
    magic + spec_u32_le(version) + payload
}

/// The payload of `b` when `b` carries the expected magic and version;
/// `None` on a short buffer, a different magic, or a different version.
pub open spec fn spec_strip_header(b: Seq<u8>, magic: Seq<u8>, version: u32) -> Option<Seq<u8>> {
    if b.len() >= 8 && b.subrange(0, 4) == magic && b.subrange(4, 8) == spec_u32_le(version) {
        Some(b.skip(8))
    } else {
        None
    }
}

/// Wrap `payload` in the envelope: magic, little-endian version, payload.
pub fn serialize_with_header(magic: [u8; 4], version: u32, payload: &Vec<u8>) -> (r: Vec<u8>)
    ensures
        r@ == spec_with_header(magic@, version, payload@),
{
    let mut out: Vec<u8> = Vec::new();
    out.push(magic[0]);
    out.push(magic[1]);
    out.push(magic[2]);
    out.push(magic[3]);
    assert(out@ =~= magic@);
    push_u32_le(&mut out, version);
    out.extend_from_slice(payload.as_slice());
    assert(out@ =~= spec_with_header(magic@, version, payload@));
    out
}

/// Unwrap the envelope: the payload when magic and version match, else `None`.
pub fn deserialize_with_header(bytes: &[u8], magic: [u8; 4], version: u32) -> (r: Option<Vec<u8>>)
    ensures
        r is Some <==> spec_strip_header(bytes@, magic@, version) is Some,
        r matches Some(p) ==> spec_strip_header(bytes@, magic@, version) == Some(p@),
{
    let total = bytes.len();
    if total < 8 {
        return None;
    }
    if bytes[0] != magic[0] || bytes[1] != magic[1] || bytes[2] != magic[2] || bytes[3] != magic[3]
    {
        assert(bytes@.subrange(0, 4) != magic@) by {
            if bytes@.subrange(0, 4) == magic@ {
                assert(bytes@.subrange(0, 4)[0] == magic@[0]);
                assert(bytes@.subrange(0, 4)[1] == magic@[1]);
                assert(bytes@.subrange(0, 4)[2] == magic@[2]);
                assert(bytes@.subrange(0, 4)[3] == magic@[3]);
            }
        }
        return None;
    }
    assert(bytes@.subrange(0, 4) =~= magic@);
    let (v, _o) = match read_u32_le(bytes, 4) {
        Some(p) => p,
        None => {
            return None;
        },
    };
    proof {
        lemma_u32_le_of_from(bytes@[4], bytes@[5], bytes@[6], bytes@[7]);
        assert(bytes@.subrange(4, 8) =~= seq![bytes@[4], bytes@[5], bytes@[6], bytes@[7]]);
    }
    if v != version {
        proof {
            lemma_u32_le_injective(v, version);
        }
        return None;
    }
    let mut payload: Vec<u8> = Vec::new();
    let mut i: usize = 8;
    while i < total
        invariant
            8 <= i <= total,
            total == bytes@.len(),
            payload@ == bytes@.subrange(8, i as int),
        decreases total - i,
    {
        payload.push(bytes[i]);
        i = i + 1;
        assert(payload@ =~= bytes@.subrange(8, i as int));
    }
    assert(payload@ =~= bytes@.skip(8));
    Some(payload)
}

/// Stripping the header just written yields the payload back.
pub proof fn lemma_header_roundtrip(magic: Seq<u8>, version: u32, payload: Seq<u8>)
    requires
        magic.len() == 4,
    ensures
        spec_strip_header(spec_with_header(magic, version, payload), magic, version) == Some(
            payload,
        ),
{
    let b = spec_with_header(magic, version, payload);
    assert(b.subrange(0, 4) =~= magic);
    assert(b.subrange(4, 8) =~= spec_u32_le(version));
    assert(b.skip(8) =~= payload);
}

/// A reader expecting a different magic refuses the envelope.
pub proof fn lemma_header_magic_mismatch(
    magic: Seq<u8>,
    other: Seq<u8>,
    version: u32,
    payload: Seq<u8>,
)
    requires
        magic.len() == 4,
        other.len() == 4,
        magic != other,
    ensures
        spec_strip_header(spec_with_header(magic, version, payload), other, version) is None,
{
    let b = spec_with_header(magic, version, payload);
    assert(b.subrange(0, 4) =~= magic);
}

/// A reader expecting a different version refuses the envelope.
pub proof fn lemma_header_version_mismatch(
    magic: Seq<u8>,
    version: u32,
    other_version: u32,
    payload: Seq<u8>,
)
    requires
        magic.len() == 4,
        version != other_version,
    ensures
        spec_strip_header(spec_with_header(magic, version, payload), magic, other_version) is None,
{
    let b = spec_with_header(magic, version, payload);
    assert(b.subrange(4, 8) =~= spec_u32_le(version));
    lemma_u32_le_injective(version, other_version);
}

} // verus!
