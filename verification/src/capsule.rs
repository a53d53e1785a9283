//! Model capsule decoding: the framed UFO stage payloads stored in a capsule,
//! their varint and zig-zag primitives, and the integrity checks applied to each
//! member.

use vstd::prelude::*;
use vstd::string::StringSliceAdditionalSpecFns;

verus! {

/// How a capsule entry was served.
#[derive(Debug, Clone, Copy, PartialEq, Eq, Structural)]
pub enum CapsuleCacheStatus {
    Extracted,
    ReusedVerified,
}

impl CapsuleCacheStatus {
    pub fn as_str(self) -> (r: &'static str)
        ensures
            r@ == match self {
                CapsuleCacheStatus::Extracted => "extracted"@,
                CapsuleCacheStatus::ReusedVerified => "reused-verified"@,
            },
    {
        match self {
            CapsuleCacheStatus::Extracted => "extracted",
            CapsuleCacheStatus::ReusedVerified => "reused-verified",
        }
    }
}

/// Why a capsule payload was refused.
#[derive(Debug, Clone, Copy, PartialEq, Eq, Structural)]
pub enum CapsuleError {
    TruncatedVarint,
    VarintTooLarge,
    MissingMagic,
    WrongStage,
    LengthOverflow,
    FrameLengthMismatch,
    EmptyPayload,
    UnknownMode,
    Truncated,
    InvalidUtf8,
    IndexOutOfRange,
    PrefixTooLong,
    ChunkTooLong,
    LengthMismatch,
    TrailingBytes,
    UnknownToken,
    Zlib,
    HashMismatch,
    SizeMismatch,
    NotUfo,
    LevelOutOfRange,
}

/// Varint decoding from `off`, with `acc` read so far at bit `shift`: the value
/// and the offset after it.
pub open spec fn varint_from(d: Seq<u8>, off: int, shift: u32, acc: u64) -> Result<(u64, int), CapsuleError>
    decreases d.len() - off,
{
    if off < 0 || off >= d.len() {
        Err(CapsuleError::TruncatedVarint)
    } else {
        let b = d[off];
        let v = acc | (((b & 0x7f) as u64) << shift);
        if b < 0x80 {
            Ok((v, off + 1))
        } else if shift + 7 > 63 {
            Err(CapsuleError::VarintTooLarge)
        } else {
            varint_from(d, off + 1, (shift + 7) as u32, v)
        }
    }
}

/// LEB128 varint at `off`.
pub open spec fn varint_at(d: Seq<u8>, off: int) -> Result<(u64, int), CapsuleError> {
    varint_from(d, off, 0, 0)
}

proof fn lemma_varint_from_offset(d: Seq<u8>, off: int, shift: u32, acc: u64)
    ensures
        varint_from(d, off, shift, acc) matches Ok((v, next)) ==> off < next <= d.len(),
    decreases d.len() - off,
{
    if 0 <= off < d.len() && d[off] >= 0x80 && shift + 7 <= 63 {
        let b = d[off];
        lemma_varint_from_offset(d, off + 1, (shift + 7) as u32, acc | (((b & 0x7f) as u64) << shift));
    }
}

/// Reads the LEB128 varint at `offset`: its value and the offset after it.
pub fn decode_varint(data: &[u8], offset: usize) -> (r: Result<(u64, usize), CapsuleError>)
    ensures
        match r {
            Ok((v, next)) => varint_at(data@, offset as int) == Ok::<(u64, int), CapsuleError>((v, next as int)),
            Err(e) => varint_at(data@, offset as int) == Err::<(u64, int), CapsuleError>(e),
        },
        r matches Ok((v, next)) ==> offset < next <= data@.len(),
{
    let mut off: usize = offset;
    let mut shift: u32 = 0;
    let mut value: u64 = 0;
    proof {
        lemma_varint_from_offset(data@, offset as int, 0, 0);
    }
    loop
        invariant
            offset <= off,
            shift <= 63,
            varint_at(data@, offset as int) == varint_from(data@, off as int, shift, value),
        decreases data@.len() - off,
    {
        if off >= data.len() {
            return Err(CapsuleError::TruncatedVarint);
        }
        let byte: u8 = data[off];
        off += 1;
        value = value | (((byte & 0x7f) as u64) << shift);
        if byte < 0x80 {
            return Ok((value, off));
        }
        if shift + 7 > 63 {
            return Err(CapsuleError::VarintTooLarge);
        }
        shift += 7;
    }
}

/// Zig-zag decoding: even codes are non-negative, odd codes negative.
pub open spec fn unzigzag_spec(v: u64) -> int {
    if v % 2 == 0 {
        (v / 2) as int
    } else {
        -((v / 2) as int) - 1
    }
}

/// Zig-zag coding interleaves signs: code `2k` is `k` and code `2k + 1` is
/// `-(k + 1)`, so every 64-bit signed value has exactly one code, the
/// non-negative ones even and the negative ones odd.
pub proof fn lemma_zigzag_codes(z: int)
    requires
        -0x8000_0000_0000_0000 <= z < 0x8000_0000_0000_0000,
    ensures
        unzigzag_spec((if z >= 0 { 2 * z } else { -2 * z - 1 }) as u64) == z,
        forall|v: u64| #[trigger] unzigzag_spec(v) == z ==> v as int == (if z >= 0 { 2 * z } else { -2 * z - 1 }),
{
}

/// Zig-zag decoding of `value`.
pub fn unzigzag(value: u64) -> (r: i64)
    ensures
        r as int == unzigzag_spec(value),
{
    let half: i64 = (value / 2) as i64;
    if value % 2 == 0 {
        half
    } else {
        -half - 1
    }
}

/// The frame magic "UFO9".
pub open spec fn ufo_magic() -> Seq<u8> {
    seq![0x55u8, 0x46, 0x4F, 0x39]
}

/// Payload of a stage frame: magic, stage id, varint length, then exactly that
/// many bytes; as the range it occupies.
pub open spec fn unframe_spec(stage_id: u8, d: Seq<u8>) -> Result<(int, int), CapsuleError> {
    if d.len() < 6 || d.subrange(0, 4) != ufo_magic() {
        Err(CapsuleError::MissingMagic)
    } else if d[4] != stage_id {
        Err(CapsuleError::WrongStage)
    } else {
        match varint_at(d, 5) {
            Err(e) => Err(e),
            Ok((len, off)) => if off + len > usize::MAX {
                Err(CapsuleError::LengthOverflow)
            } else if off + len != d.len() {
                Err(CapsuleError::FrameLengthMismatch)
            } else {
                Ok((off, d.len() as int))
            },
        }
    }
}

/// Removes the frame of stage `stage_id` and returns its payload.
pub fn unframe(stage_id: u8, data: &[u8]) -> (r: Result<&[u8], CapsuleError>)
    ensures
        match unframe_spec(stage_id, data@) {
            Ok((s, e)) => r matches Ok(p) && p@ == data@.subrange(s, e),
            Err(err) => r == Err::<&[u8], CapsuleError>(err),
        },
{
    if data.len() < 6 || data[0] != 0x55 || data[1] != 0x46 || data[2] != 0x4F || data[3] != 0x39 {
        proof {
            if data@.len() >= 6 && data@.subrange(0, 4) == ufo_magic() {
                assert(data@.subrange(0, 4)[0] == data@[0]);
                assert(data@.subrange(0, 4)[1] == data@[1]);
                assert(data@.subrange(0, 4)[2] == data@[2]);
                assert(data@.subrange(0, 4)[3] == data@[3]);
            }
        }
        return Err(CapsuleError::MissingMagic);
    }
    assert(data@.subrange(0, 4) =~= ufo_magic());
    if data[4] != stage_id {
        return Err(CapsuleError::WrongStage);
    }
    let (payload_len, offset) = match decode_varint(data, 5) {
        Ok(p) => p,
        Err(e) => return Err(e),
    };
    if payload_len > (usize::MAX - offset) as u64 {
        return Err(CapsuleError::LengthOverflow);
    }
    let end: usize = offset + payload_len as usize;
    if end != data.len() {
        return Err(CapsuleError::FrameLengthMismatch);
    }
    Ok(vstd::slice::slice_subrange(data, offset, end))
}

/// Outcome of a stage decoder; `None` on the inputs where adding a residual
/// would overflow a 64-bit signed integer.
pub type Decoded = Option<Result<Seq<u8>, CapsuleError>>;

/// The byte sequence inside an executable decoder result.
pub open spec fn decoded_view(r: Result<Vec<u8>, CapsuleError>) -> Result<Seq<u8>, CapsuleError> {
    match r {
        Ok(v) => Ok(v@),
        Err(e) => Err(e),
    }
}

/// The outcome inside an executable decoder result.
pub open spec fn option_decoded(r: Option<Result<Vec<u8>, CapsuleError>>) -> Decoded {
    match r {
        Some(x) => Some(decoded_view(x)),
        None => None,
    }
}

/// `prev` plus the zig-zag residual `code`, modulo 256; `None` where the sum
/// leaves the 64-bit signed range.
pub open spec fn add_residual(prev: u8, code: u64) -> Option<u8> {
    let sum = prev as int + unzigzag_spec(code);
    if sum > i64::MAX {
        None
    } else {
        Some((sum % 256) as u8)
    }
}

fn apply_residual(prev: u8, code: u64) -> (r: Option<u8>)
    ensures
        r == add_residual(prev, code),
{
    let z: i64 = unzigzag(code);
    if z > i64::MAX - prev as i64 {
        return None;
    }
    let sum: i64 = prev as i64 + z;
    let m: i64 = sum % 256;
    let b: i64 = if m < 0 { m + 256 } else { m };
    Some(b as u8)
}

/// Payload of a framed stage, or the framing error.
pub open spec fn framed(stage_id: u8, d: Seq<u8>) -> Result<Seq<u8>, CapsuleError> {
    match unframe_spec(stage_id, d) {
        Ok((s, e)) => Ok(d.subrange(s, e)),
        Err(e) => Err(e),
    }
}

/// Delta stage body: each varint residual moves the previous byte.
pub open spec fn delta_from(p: Seq<u8>, off: int, prev: u8, out: Seq<u8>, orig: int) -> Decoded
    decreases p.len() - off,
{
    if out.len() >= orig {
        if off != p.len() {
            Some(Err(CapsuleError::TrailingBytes))
        } else {
            Some(Ok(out))
        }
    } else {
        match varint_at(p, off) {
            Err(e) => Some(Err(e)),
            Ok((code, next)) => if next <= off || next > p.len() {
                Some(Err(CapsuleError::TruncatedVarint))
            } else {
                match add_residual(prev, code) {
                    None => None,
                    Some(b) => delta_from(p, next, b, out.push(b), orig),
                }
            },
        }
    }
}

proof fn lemma_varint_one_byte(d: Seq<u8>, q: int)
    requires
        0 <= q < d.len(),
        d[q] < 0x80,
    ensures
        varint_at(d, q) == Ok::<(u64, int), CapsuleError>((d[q] as u64, q + 1)),
{
    let b = d[q];
    assert((0u64 | (((b & 0x7f) as u64) << 0u32)) == b as u64) by (bit_vector)
        requires
            b < 0x80u8,
    ;
}

/// The wrapped step from `a` to `b` when it lies in -64..=63, the range a
/// one-byte zig-zag code can carry.
pub open spec fn small_step(a: u8, b: u8) -> Option<int> {
    let d = (b as int - a as int + 256) % 256;
    if d < 64 {
        Some(d)
    } else if d >= 192 {
        Some(d - 256)
    } else {
        None
    }
}

/// The one-byte zig-zag code of a step in -64..=63.
pub open spec fn step_code(step: int) -> int {
    if step >= 0 {
        2 * step
    } else {
        -2 * step - 1
    }
}

/// The delta stage undoes delta coding: a body whose codes are the zig-zag
/// codes of the steps between consecutive bytes of `s` (each step small enough
/// for a one-byte code), starting from the first byte of `s`, decodes to `s`.
pub proof fn lemma_delta_codes_decode(p: Seq<u8>, off: int, s: Seq<u8>, j: int)
    requires
        1 <= j <= s.len(),
        0 <= off,
        p.len() == off + s.len() - 1,
        forall|k: int| 1 <= k < s.len() ==> (#[trigger] small_step(s[k - 1], s[k])) is Some && p[off + k - 1] as int
            == step_code(small_step(s[k - 1], s[k])->Some_0),
    ensures
        delta_from(p, off + j - 1, s[j - 1], s.take(j), s.len() as int) == Some(Ok::<Seq<u8>, CapsuleError>(s)),
    decreases s.len() - j,
{
    if j == s.len() {
        assert(s.take(j) =~= s);
    } else {
        let q = off + j - 1;
        let st = small_step(s[j - 1], s[j])->Some_0;
        assert(small_step(s[j - 1], s[j]) is Some);
        lemma_varint_one_byte(p, q);
        let code = p[q] as u64;
        assert(unzigzag_spec(code) == st);
        assert(add_residual(s[j - 1], code) == Some(s[j])) by {
            assert(((s[j - 1] as int + st) % 256) == s[j] as int);
        }
        assert(s.take(j).push(s[j]) =~= s.take(j + 1));
        lemma_delta_codes_decode(p, off, s, j + 1);
    }
}

/// What the delta-varint stage decodes.
pub open spec fn level3_spec(d: Seq<u8>) -> Decoded {
    match framed(3, d) {
        Err(e) => Some(Err(e)),
        Ok(p) => match varint_at(p, 0) {
            Err(e) => Some(Err(e)),
            Ok((orig, off)) => if orig == 0 {
                Some(Ok(Seq::empty()))
            } else if off >= p.len() {
                Some(Err(CapsuleError::Truncated))
            } else {
                delta_from(p, off + 1, p[off], seq![p[off]], orig as int)
            },
        },
    }
}

/// Decodes the delta-varint stage.
pub fn level3_delta_varint_decode(data: &[u8]) -> (r: Option<Result<Vec<u8>, CapsuleError>>)
    ensures
        option_decoded(r) == level3_spec(data@),
{
    let payload = match unframe(3, data) {
        Ok(p) => p,
        Err(e) => return Some(Err(e)),
    };
    let ghost p = payload@;
    let (original_len, first) = match decode_varint(payload, 0) {
        Ok(v) => v,
        Err(e) => return Some(Err(e)),
    };
    if original_len == 0 {
        return Some(Ok(Vec::new()));
    }
    if first >= payload.len() {
        return Some(Err(CapsuleError::Truncated));
    }
    let mut previous: u8 = payload[first];
    let mut offset: usize = first + 1;
    let mut out: Vec<u8> = Vec::new();
    out.push(previous);
    assert(out@ =~= seq![p[first as int]]);
    let ghost total = level3_spec(data@);
    while (out.len() as u64) < original_len
        invariant
            p == payload@,
            total == level3_spec(data@),
            total == delta_from(p, offset as int, previous, out@, original_len as int),
            offset <= p.len(),
        decreases p.len() - offset,
    {
        let (code, next) = match decode_varint(payload, offset) {
            Ok(v) => v,
            Err(e) => return Some(Err(e)),
        };
        previous = match apply_residual(previous, code) {
            Some(b) => b,
            None => return None,
        };
        out.push(previous);
        offset = next;
    }
    if offset != payload.len() {
        return Some(Err(CapsuleError::TrailingBytes));
    }
    Some(Ok(out))
}

/// Geometric stage body: residuals around three repeating centroids.
pub open spec fn geometric_from(p: Seq<u8>, off: int, c: Seq<u8>, out: Seq<u8>, orig: int) -> Decoded
    decreases p.len() - off,
{
    if out.len() >= orig {
        Some(Ok(out))
    } else {
        match varint_at(p, off) {
            Err(e) => Some(Err(e)),
            Ok((code, next)) => if next <= off || next > p.len() {
                Some(Err(CapsuleError::TruncatedVarint))
            } else {
                match add_residual(c[(out.len() % 3) as int], code) {
                    None => None,
                    Some(b) => geometric_from(p, next, c, out.push(b), orig),
                }
            },
        }
    }
}

/// The geometric stage decodes each byte from its centroid: a body whose code
/// for byte `k` of `s` is the zig-zag code of the step from centroid `k % 3` to
/// that byte (each step small enough for a one-byte code) decodes to `s`.
pub proof fn lemma_geometric_codes_decode(p: Seq<u8>, off: int, c: Seq<u8>, s: Seq<u8>, j: int)
    requires
        0 <= j <= s.len(),
        0 <= off,
        c.len() == 3,
        off + s.len() <= p.len(),
        forall|k: int| 0 <= k < s.len() ==> (#[trigger] small_step(c[k % 3], s[k])) is Some && p[off + k] as int
            == step_code(small_step(c[k % 3], s[k])->Some_0),
    ensures
        geometric_from(p, off + j, c, s.take(j), s.len() as int) == Some(Ok::<Seq<u8>, CapsuleError>(s)),
    decreases s.len() - j,
{
    if j == s.len() {
        assert(s.take(j) =~= s);
    } else {
        let q = off + j;
        assert(small_step(c[j % 3], s[j]) is Some);
        let st = small_step(c[j % 3], s[j])->Some_0;
        lemma_varint_one_byte(p, q);
        let code = p[q] as u64;
        assert(unzigzag_spec(code) == st);
        assert(s.take(j).len() == j);
        assert(add_residual(c[(s.take(j).len() % 3) as int], code) == Some(s[j])) by {
            assert(((c[j % 3] as int + st) % 256) == s[j] as int);
        }
        assert(s.take(j).push(s[j]) =~= s.take(j + 1));
        lemma_geometric_codes_decode(p, off, c, s, j + 1);
    }
}

/// What the geometric stage decodes.
pub open spec fn level7_spec(d: Seq<u8>) -> Decoded {
    match framed(7, d) {
        Err(e) => Some(Err(e)),
        Ok(p) => match varint_at(p, 0) {
            Err(e) => Some(Err(e)),
            Ok((orig, off)) => if orig == 0 {
                Some(Ok(Seq::empty()))
            } else if off + 3 > p.len() {
                Some(Err(CapsuleError::Truncated))
            } else {
                geometric_from(p, off + 3, p.subrange(off, off + 3), Seq::empty(), orig as int)
            },
        },
    }
}

/// Decodes the geometric stage.
pub fn level7_geometric_decode(data: &[u8]) -> (r: Option<Result<Vec<u8>, CapsuleError>>)
    ensures
        option_decoded(r) == level7_spec(data@),
{
    let payload = match unframe(7, data) {
        Ok(p) => p,
        Err(e) => return Some(Err(e)),
    };
    let ghost p = payload@;
    let (original_len, first) = match decode_varint(payload, 0) {
        Ok(v) => v,
        Err(e) => return Some(Err(e)),
    };
    if original_len == 0 {
        return Some(Ok(Vec::new()));
    }
    if payload.len() - first < 3 {
        return Some(Err(CapsuleError::Truncated));
    }
    let centroids = vstd::slice::slice_subrange(payload, first, first + 3);
    let mut offset: usize = first + 3;
    let mut out: Vec<u8> = Vec::new();
    let ghost total = level7_spec(data@);
    while (out.len() as u64) < original_len
        invariant
            p == payload@,
            first + 3 <= p.len(),
            centroids@ == p.subrange(first as int, first + 3),
            total == level7_spec(data@),
            total == geometric_from(p, offset as int, centroids@, out@, original_len as int),
            offset <= p.len(),
        decreases p.len() - offset,
    {
        let (code, next) = match decode_varint(payload, offset) {
            Ok(v) => v,
            Err(e) => return Some(Err(e)),
        };
        let centroid: u8 = centroids[out.len() % 3];
        let b: u8 = match apply_residual(centroid, code) {
            Some(b) => b,
            None => return None,
        };
        out.push(b);
        offset = next;
    }
    Some(Ok(out))
}

/// What the hashed stage decodes: the body, once its length and SHA-256 match.
pub open spec fn level9_spec(d: Seq<u8>) -> Result<Seq<u8>, CapsuleError> {
    match framed(9, d) {
        Err(e) => Err(e),
        Ok(p) => match varint_at(p, 0) {
            Err(e) => Err(e),
            Ok((orig, off)) => if off + 32 > p.len() {
                Err(CapsuleError::Truncated)
            } else if p.len() - (off + 32) != orig {
                Err(CapsuleError::LengthMismatch)
            } else if crate::ecosystem::sha256_digest(p.subrange(off + 32, p.len() as int)) != p.subrange(off, off + 32) {
                Err(CapsuleError::HashMismatch)
            } else {
                Ok(p.subrange(off + 32, p.len() as int))
            },
        },
    }
}

/// Decodes the hashed stage.
pub fn level9_cosmic_hash_decode(data: &[u8]) -> (r: Result<Vec<u8>, CapsuleError>)
    ensures
        decoded_view(r) == level9_spec(data@),
{
    let payload = match unframe(9, data) {
        Ok(p) => p,
        Err(e) => return Err(e),
    };
    let (original_len, offset) = match decode_varint(payload, 0) {
        Ok(v) => v,
        Err(e) => return Err(e),
    };
    if payload.len() - offset < 32 {
        return Err(CapsuleError::Truncated);
    }
    let expected = vstd::slice::slice_subrange(payload, offset, offset + 32);
    let body = vstd::slice::slice_subrange(payload, offset + 32, payload.len());
    if body.len() as u64 != original_len {
        return Err(CapsuleError::LengthMismatch);
    }
    let digest = crate::ecosystem::sha256(body);
    let mut same: bool = true;
    let mut i: usize = 0;
    while i < 32
        invariant
            i <= 32,
            digest@.len() == 32,
            expected@.len() == 32,
            same == (forall|k: int| 0 <= k < i ==> digest@[k] == expected@[k]),
        decreases 32 - i,
    {
        if digest[i] != expected[i] {
            same = false;
        }
        i += 1;
    }
    proof {
        if same {
            assert(digest@ =~= expected@);
        } else {
            let k = choose|k: int| 0 <= k < 32 && digest@[k] != expected@[k];
            assert(digest@[k] != expected@[k]);
        }
    }
    if !same {
        return Err(CapsuleError::HashMismatch);
    }
    Ok(vstd::slice::slice_to_vec(body))
}

/// What the zlib stage decodes.
pub open spec fn level6_spec(d: Seq<u8>) -> Result<Seq<u8>, CapsuleError> {
    match framed(6, d) {
        Err(e) => Err(e),
        Ok(p) => match varint_at(p, 0) {
            Err(e) => Err(e),
            Ok((orig, off)) => match crate::cascade::zlib_inflated(p.subrange(off, p.len() as int)) {
                None => Err(CapsuleError::Zlib),
                Some(out) => if out.len() != orig {
                    Err(CapsuleError::LengthMismatch)
                } else {
                    Ok(out)
                },
            },
        },
    }
}

/// Decodes the zlib stage.
pub fn level6_zlib_decode(data: &[u8]) -> (r: Result<Vec<u8>, CapsuleError>)
    ensures
        decoded_view(r) == level6_spec(data@),
{
    let payload = match unframe(6, data) {
        Ok(p) => p,
        Err(e) => return Err(e),
    };
    let (original_len, offset) = match decode_varint(payload, 0) {
        Ok(v) => v,
        Err(e) => return Err(e),
    };
    let body = vstd::slice::slice_subrange(payload, offset, payload.len());
    let out = match crate::cascade::zlib_decompress(body) {
        Some(v) => v,
        None => return Err(CapsuleError::Zlib),
    };
    if out.len() as u64 != original_len {
        return Err(CapsuleError::LengthMismatch);
    }
    Ok(out)
}

/// Reads `n - k` fixed-size chunks of `cs` bytes from `off`: the chunks and the
/// offset after them; `None` where an offset would overflow.
pub open spec fn fixed_chunks(p: Seq<u8>, off: int, k: int, n: int, cs: int, acc: Seq<Seq<u8>>) -> Option<
    Result<(Seq<Seq<u8>>, int), CapsuleError>,
>
    decreases n - k,
{
    if k >= n {
        Some(Ok((acc, off)))
    } else if off + cs > usize::MAX {
        None
    } else if off + cs > p.len() {
        Some(Err(CapsuleError::Truncated))
    } else {
        fixed_chunks(p, off + cs, k + 1, n, cs, acc.push(p.subrange(off, off + cs)))
    }
}

/// Reads `n - k` length-prefixed chunks (varint length, then the bytes) from
/// `off`; `None` where an offset would overflow.
pub open spec fn sized_chunks(p: Seq<u8>, off: int, k: int, n: int, acc: Seq<Seq<u8>>) -> Option<
    Result<(Seq<Seq<u8>>, int), CapsuleError>,
>
    decreases n - k,
{
    if k >= n {
        Some(Ok((acc, off)))
    } else {
        match varint_at(p, off) {
            Err(e) => Some(Err(e)),
            Ok((size, next)) => if next + (size as usize) > usize::MAX {
                None
            } else if next + (size as usize) > p.len() {
                Some(Err(CapsuleError::Truncated))
            } else {
                sized_chunks(p, next + (size as usize), k + 1, n, acc.push(p.subrange(next, next + (size as usize))))
            },
        }
    }
}

fn read_fixed_chunks(p: &[u8], offset: usize, n: u64, cs: usize) -> (r: Option<Result<(Vec<Vec<u8>>, usize), CapsuleError>>)
    requires
        offset <= p@.len(),
    ensures
        match fixed_chunks(p@, offset as int, 0, n as int, cs as int, Seq::empty()) {
            Some(Ok((chunks, end))) => r matches Some(Ok((v, e))) && crate::cascade::vecs_view(v@) == chunks && e == end
                && e <= p@.len(),
            Some(Err(err)) => r == Some(Err::<(Vec<Vec<u8>>, usize), CapsuleError>(err)),
            None => r is None,
        },
{
    let mut chunks: Vec<Vec<u8>> = Vec::new();
    let mut off: usize = offset;
    let mut k: u64 = 0;
    let ghost total = fixed_chunks(p@, offset as int, 0, n as int, cs as int, Seq::empty());
    assert(crate::cascade::vecs_view(chunks@) =~= Seq::<Seq<u8>>::empty());
    while k < n
        invariant
            k <= n,
            off <= p@.len(),
            total == fixed_chunks(p@, offset as int, 0, n as int, cs as int, Seq::empty()),
            total == fixed_chunks(p@, off as int, k as int, n as int, cs as int, crate::cascade::vecs_view(chunks@)),
        decreases n - k,
    {
        if cs > usize::MAX - off {
            return None;
        }
        if p.len() - off < cs {
            return Some(Err(CapsuleError::Truncated));
        }
        let ghost before = crate::cascade::vecs_view(chunks@);
        chunks.push(vstd::slice::slice_to_vec(vstd::slice::slice_subrange(p, off, off + cs)));
        assert(crate::cascade::vecs_view(chunks@) =~= before.push(p@.subrange(off as int, off + cs)));
        off = off + cs;
        k += 1;
    }
    Some(Ok((chunks, off)))
}

fn read_sized_chunks(p: &[u8], offset: usize, n: u64) -> (r: Option<Result<(Vec<Vec<u8>>, usize), CapsuleError>>)
    ensures
        match sized_chunks(p@, offset as int, 0, n as int, Seq::empty()) {
            Some(Ok((chunks, end))) => r matches Some(Ok((v, e))) && crate::cascade::vecs_view(v@) == chunks && e == end,
            Some(Err(err)) => r == Some(Err::<(Vec<Vec<u8>>, usize), CapsuleError>(err)),
            None => r is None,
        },
{
    let mut chunks: Vec<Vec<u8>> = Vec::new();
    let mut off: usize = offset;
    let mut k: u64 = 0;
    let ghost total = sized_chunks(p@, offset as int, 0, n as int, Seq::empty());
    assert(crate::cascade::vecs_view(chunks@) =~= Seq::<Seq<u8>>::empty());
    while k < n
        invariant
            k <= n,
            total == sized_chunks(p@, offset as int, 0, n as int, Seq::empty()),
            total == sized_chunks(p@, off as int, k as int, n as int, crate::cascade::vecs_view(chunks@)),
        decreases n - k,
    {
        let (size, next) = match decode_varint(p, off) {
            Ok(v) => v,
            Err(e) => return Some(Err(e)),
        };
        let sz: usize = size as usize;
        if sz > usize::MAX - next {
            return None;
        }
        if p.len() - next < sz {
            return Some(Err(CapsuleError::Truncated));
        }
        let end: usize = next + sz;
        let ghost before = crate::cascade::vecs_view(chunks@);
        chunks.push(vstd::slice::slice_to_vec(vstd::slice::slice_subrange(p, next, end)));
        assert(crate::cascade::vecs_view(chunks@) =~= before.push(p@.subrange(next as int, end as int)));
        off = end;
        k += 1;
    }
    Some(Ok((chunks, off)))
}

/// Dictionary stage body: tag 1 names a dictionary chunk, tag 0 a varint-sized
/// literal.
pub open spec fn dictionary_body(p: Seq<u8>, off: int, dict: Seq<Seq<u8>>, out: Seq<u8>) -> Decoded
    decreases p.len() - off,
{
    if off < 0 || off >= p.len() {
        Some(Ok(out))
    } else if p[off] == 1 {
        if off + 1 >= p.len() {
            Some(Err(CapsuleError::Truncated))
        } else if p[off + 1] as int >= dict.len() {
            Some(Err(CapsuleError::IndexOutOfRange))
        } else {
            dictionary_body(p, off + 2, dict, out + dict[p[off + 1] as int])
        }
    } else if p[off] == 0 {
        match varint_at(p, off + 1) {
            Err(e) => Some(Err(e)),
            Ok((size, next)) => if next <= off || next + (size as usize) > usize::MAX {
                None
            } else if next + (size as usize) > p.len() {
                Some(Err(CapsuleError::Truncated))
            } else {
                dictionary_body(p, next + (size as usize), dict, out + p.subrange(next, next + (size as usize)))
            },
        }
    } else {
        Some(Err(CapsuleError::UnknownToken))
    }
}

/// A decoded body, refused unless it has the recorded length.
pub open spec fn with_length(r: Decoded, orig: u64) -> Decoded {
    match r {
        Some(Ok(out)) => if out.len() != orig {
            Some(Err(CapsuleError::LengthMismatch))
        } else {
            Some(Ok(out))
        },
        other => other,
    }
}

/// What the dictionary stage decodes.
pub open spec fn level5_spec(d: Seq<u8>) -> Decoded {
    match framed(5, d) {
        Err(e) => Some(Err(e)),
        Ok(p) => match varint_at(p, 0) {
            Err(e) => Some(Err(e)),
            Ok((orig, o1)) => match varint_at(p, o1) {
                Err(e) => Some(Err(e)),
                Ok((cs, o2)) => match varint_at(p, o2) {
                    Err(e) => Some(Err(e)),
                    Ok((n, o3)) => match fixed_chunks(p, o3, 0, n as int, (cs as usize) as int, Seq::empty()) {
                        None => None,
                        Some(Err(e)) => Some(Err(e)),
                        Some(Ok((dict, o4))) => with_length(dictionary_body(p, o4, dict, Seq::empty()), orig),
                    },
                },
            },
        },
    }
}

/// Decodes the dictionary stage.
pub fn level5_dictionary_decode(data: &[u8]) -> (r: Option<Result<Vec<u8>, CapsuleError>>)
    ensures
        option_decoded(r) == level5_spec(data@),
{
    let payload = match unframe(5, data) {
        Ok(p) => p,
        Err(e) => return Some(Err(e)),
    };
    let ghost p = payload@;
    let (original_len, o1) = match decode_varint(payload, 0) {
        Ok(v) => v,
        Err(e) => return Some(Err(e)),
    };
    let (chunk_size, o2) = match decode_varint(payload, o1) {
        Ok(v) => v,
        Err(e) => return Some(Err(e)),
    };
    let (dict_len, o3) = match decode_varint(payload, o2) {
        Ok(v) => v,
        Err(e) => return Some(Err(e)),
    };
    let (dictionary, o4) = match read_fixed_chunks(payload, o3, dict_len, chunk_size as usize) {
        Some(Ok(v)) => v,
        Some(Err(e)) => return Some(Err(e)),
        None => return None,
    };
    let ghost dict = crate::cascade::vecs_view(dictionary@);
    let ghost total = dictionary_body(p, o4 as int, dict, Seq::empty());
    assert(level5_spec(data@) == with_length(total, original_len));
    let mut out: Vec<u8> = Vec::new();
    let mut offset: usize = o4;
    while offset < payload.len()
        invariant
            p == payload@,
            level5_spec(data@) == with_length(total, original_len),
            dict == crate::cascade::vecs_view(dictionary@),
            total == dictionary_body(p, offset as int, dict, out@),
        decreases p.len() - offset,
    {
        let tag: u8 = payload[offset];
        if tag == 1 {
            if payload.len() - offset <= 1 {
                return Some(Err(CapsuleError::Truncated));
            }
            let idx: usize = payload[offset + 1] as usize;
            if idx >= dictionary.len() {
                return Some(Err(CapsuleError::IndexOutOfRange));
            }
            assert(dictionary@[idx as int]@ == dict[idx as int]);
            crate::cascade::push_all(&mut out, dictionary[idx].as_slice());
            offset += 2;
        } else if tag == 0 {
            let (size, next) = match decode_varint(payload, offset + 1) {
                Ok(v) => v,
                Err(e) => return Some(Err(e)),
            };
            let sz: usize = size as usize;
            if sz > usize::MAX - next {
                return None;
            }
            if payload.len() - next < sz {
                return Some(Err(CapsuleError::Truncated));
            }
            let end: usize = next + sz;
            crate::cascade::push_all(&mut out, vstd::slice::slice_subrange(payload, next, end));
            offset = end;
        } else {
            return Some(Err(CapsuleError::UnknownToken));
        }
    }
    if out.len() as u64 != original_len {
        return Some(Err(CapsuleError::LengthMismatch));
    }
    Some(Ok(out))
}

/// DNA stage body: until `orig` bytes are out, tag 1 names a motif and tag 0
/// carries one literal byte.
pub open spec fn dna_body(p: Seq<u8>, off: int, motifs: Seq<Seq<u8>>, out: Seq<u8>, orig: int) -> Result<Seq<u8>, CapsuleError>
    decreases p.len() - off,
{
    if out.len() >= orig {
        Ok(out)
    } else if off < 0 || off >= p.len() {
        Err(CapsuleError::Truncated)
    } else if p[off] == 1 {
        if off + 1 >= p.len() {
            Err(CapsuleError::Truncated)
        } else if p[off + 1] as int >= motifs.len() {
            Err(CapsuleError::IndexOutOfRange)
        } else {
            dna_body(p, off + 2, motifs, out + motifs[p[off + 1] as int], orig)
        }
    } else if p[off] == 0 {
        if off + 1 >= p.len() {
            Err(CapsuleError::Truncated)
        } else {
            dna_body(p, off + 2, motifs, out.push(p[off + 1]), orig)
        }
    } else {
        Err(CapsuleError::UnknownToken)
    }
}

/// The body bytes of DNA tokens: a literal `(true, b)` is written `0, b`, a
/// motif reference `(false, k)` is written `1, k`.
pub open spec fn dna_token_bytes(t: Seq<(bool, u8)>) -> Seq<u8>
    decreases t.len(),
{
    if t.len() == 0 {
        Seq::empty()
    } else {
        (if t[0].0 {
            seq![0u8, t[0].1]
        } else {
            seq![1u8, t[0].1]
        }) + dna_token_bytes(t.drop_first())
    }
}

/// What DNA tokens stand for: each literal its byte, each motif reference the
/// motif's bytes, in order.
pub open spec fn dna_token_text(t: Seq<(bool, u8)>, motifs: Seq<Seq<u8>>) -> Seq<u8>
    decreases t.len(),
{
    if t.len() == 0 {
        Seq::empty()
    } else {
        (if t[0].0 {
            seq![t[0].1]
        } else {
            motifs[t[0].1 as int]
        }) + dna_token_text(t.drop_first(), motifs)
    }
}

proof fn lemma_dna_token_bytes_len(t: Seq<(bool, u8)>)
    ensures
        dna_token_bytes(t).len() == 2 * t.len(),
    decreases t.len(),
{
    if t.len() > 0 {
        lemma_dna_token_bytes_len(t.drop_first());
    }
}

/// The DNA stage decodes what its tokens stand for: a body holding the bytes
/// of tokens `t` (literals copied, motif references to existing motifs
/// expanded) decodes, after whatever was decoded before, to exactly the text
/// the tokens stand for. In particular a body of literal tokens decodes to the
/// literal bytes.
pub proof fn lemma_dna_tokens_decode(p: Seq<u8>, off: int, motifs: Seq<Seq<u8>>, out: Seq<u8>, t: Seq<(bool, u8)>)
    requires
        0 <= off,
        off + dna_token_bytes(t).len() <= p.len(),
        p.subrange(off, off + dna_token_bytes(t).len()) == dna_token_bytes(t),
        forall|j: int| 0 <= j < t.len() && !(#[trigger] t[j]).0 ==> (t[j].1 as int) < motifs.len(),
    ensures
        dna_body(p, off, motifs, out, (out.len() + dna_token_text(t, motifs).len()) as int) == Ok::<Seq<u8>, CapsuleError>(
            out + dna_token_text(t, motifs),
        ),
    decreases t.len(),
{
    let orig: int = (out.len() + dna_token_text(t, motifs).len()) as int;
    lemma_dna_token_bytes_len(t);
    if t.len() == 0 {
        assert(out + dna_token_text(t, motifs) =~= out);
    } else {
        let rest = t.drop_first();
        lemma_dna_token_bytes_len(rest);
        let head: Seq<u8> = if t[0].0 { seq![0u8, t[0].1] } else { seq![1u8, t[0].1] };
        assert(dna_token_bytes(t) == head + dna_token_bytes(rest));
        assert(p[off] == dna_token_bytes(t)[0]);
        assert(p[off + 1] == dna_token_bytes(t)[1]);
        assert(p.subrange(off + 2, off + 2 + dna_token_bytes(rest).len()) =~= dna_token_bytes(rest)) by {
            assert forall|q: int| 0 <= q < dna_token_bytes(rest).len() implies p.subrange(off + 2, off + 2 + dna_token_bytes(rest).len())[q]
                == dna_token_bytes(rest)[q] by {
                assert(p[off + 2 + q] == p.subrange(off, off + dna_token_bytes(t).len())[2 + q]);
                assert(dna_token_bytes(t)[2 + q] == dna_token_bytes(rest)[q]);
            }
        }
        assert forall|j: int| 0 <= j < rest.len() && !(#[trigger] rest[j]).0 implies (rest[j].1 as int) < motifs.len() by {
            assert(rest[j] == t[j + 1]);
        }
        let piece: Seq<u8> = if t[0].0 { seq![t[0].1] } else { motifs[t[0].1 as int] };
        assert(dna_token_text(t, motifs) == piece + dna_token_text(rest, motifs));
        let out2 = out + piece;
        lemma_dna_tokens_decode(p, off + 2, motifs, out2, rest);
        assert(out2 + dna_token_text(rest, motifs) =~= out + dna_token_text(t, motifs));
        assert(out2.len() + dna_token_text(rest, motifs).len() == orig);
        if out.len() >= orig {
            assert(dna_token_text(t, motifs).len() == 0);
            assert(piece.len() == 0);
            assert(dna_token_text(rest, motifs).len() == 0);
            assert(out + dna_token_text(t, motifs) =~= out);
            assert(!t[0].0);
            assert(dna_body(p, off, motifs, out, orig) == Ok::<Seq<u8>, CapsuleError>(out));
        } else if t[0].0 {
            assert(out.push(t[0].1) =~= out2);
        } else {
            assert(out + motifs[p[off + 1] as int] == out2);
        }
    }
}

/// Body bytes of dictionary tokens: a reference `(true, k, _)` is written
/// `1, k`; a literal `(false, _, bytes)` is written `0`, its length as a
/// one-byte varint, then the bytes.
pub open spec fn dict_token_bytes(t: Seq<(bool, u8, Seq<u8>)>) -> Seq<u8>
    decreases t.len(),
{
    if t.len() == 0 {
        Seq::empty()
    } else {
        (if t[0].0 {
            seq![1u8, t[0].1]
        } else {
            seq![0u8, t[0].2.len() as u8] + t[0].2
        }) + dict_token_bytes(t.drop_first())
    }
}

/// What dictionary tokens stand for: each reference its dictionary entry, each
/// literal its bytes, in order.
pub open spec fn dict_token_text(t: Seq<(bool, u8, Seq<u8>)>, dict: Seq<Seq<u8>>) -> Seq<u8>
    decreases t.len(),
{
    if t.len() == 0 {
        Seq::empty()
    } else {
        (if t[0].0 {
            dict[t[0].1 as int]
        } else {
            t[0].2
        }) + dict_token_text(t.drop_first(), dict)
    }
}

/// The dictionary stage decodes what its tokens stand for: a body made of the
/// bytes of tokens `t` (references to existing entries, literals shorter than
/// 128 bytes) decodes, after whatever was decoded before, to exactly the text
/// the tokens stand for.
pub proof fn lemma_dict_tokens_decode(p: Seq<u8>, off: int, dict: Seq<Seq<u8>>, out: Seq<u8>, t: Seq<(bool, u8, Seq<u8>)>)
    requires
        0 <= off,
        p.len() == off + dict_token_bytes(t).len(),
        p.len() <= usize::MAX,
        p.subrange(off, p.len() as int) == dict_token_bytes(t),
        forall|j: int| 0 <= j < t.len() ==> if (#[trigger] t[j]).0 {
            (t[j].1 as int) < dict.len()
        } else {
            t[j].2.len() < 128
        },
    ensures
        dictionary_body(p, off, dict, out) == Some(Ok::<Seq<u8>, CapsuleError>(out + dict_token_text(t, dict))),
    decreases t.len(),
{
    if t.len() == 0 {
        assert(out + dict_token_text(t, dict) =~= out);
    } else {
        let rest = t.drop_first();
        assert forall|j: int| 0 <= j < rest.len() implies if (#[trigger] rest[j]).0 {
            (rest[j].1 as int) < dict.len()
        } else {
            rest[j].2.len() < 128
        } by {
            assert(rest[j] == t[j + 1]);
        }
        let head: Seq<u8> = if t[0].0 { seq![1u8, t[0].1] } else { seq![0u8, t[0].2.len() as u8] + t[0].2 };
        assert(dict_token_bytes(t) == head + dict_token_bytes(rest));
        let h = head.len() as int;
        assert(p.subrange(off + h, p.len() as int) =~= dict_token_bytes(rest)) by {
            assert forall|q: int| 0 <= q < dict_token_bytes(rest).len() implies p.subrange(off + h, p.len() as int)[q]
                == dict_token_bytes(rest)[q] by {
                assert(p[off + h + q] == p.subrange(off, p.len() as int)[h + q]);
                assert(dict_token_bytes(t)[h + q] == dict_token_bytes(rest)[q]);
            }
        }
        assert(p[off] == dict_token_bytes(t)[0]);
        assert(p[off + 1] == dict_token_bytes(t)[1]);
        let piece: Seq<u8> = if t[0].0 { dict[t[0].1 as int] } else { t[0].2 };
        assert(dict_token_text(t, dict) == piece + dict_token_text(rest, dict));
        lemma_dict_tokens_decode(p, off + h, dict, out + piece, rest);
        assert((out + piece) + dict_token_text(rest, dict) =~= out + dict_token_text(t, dict));
        if !t[0].0 {
            lemma_varint_one_byte(p, off + 1);
            let size = p[off + 1] as u64;
            assert(size as int == t[0].2.len());
            assert(p.subrange(off + 2, off + 2 + t[0].2.len()) =~= t[0].2) by {
                assert forall|q: int| 0 <= q < t[0].2.len() implies p.subrange(off + 2, off + 2 + t[0].2.len())[q] == t[0].2[q] by {
                    assert(p[off + 2 + q] == p.subrange(off, p.len() as int)[2 + q]);
                    assert(dict_token_bytes(t)[2 + q] == head[2 + q]);
                }
            }
        }
    }
}

/// A decoded body cut to `n` bytes.
pub open spec fn cut_to(r: Result<Seq<u8>, CapsuleError>, n: int) -> Decoded {
    match r {
        Ok(out) => Some(Ok(crate::cascade::truncated(out, n))),
        Err(e) => Some(Err(e)),
    }
}

/// What the DNA stage decodes (cut to the recorded length).
pub open spec fn level8_spec(d: Seq<u8>) -> Decoded {
    match framed(8, d) {
        Err(e) => Some(Err(e)),
        Ok(p) => match varint_at(p, 0) {
            Err(e) => Some(Err(e)),
            Ok((orig, o1)) => match varint_at(p, o1) {
                Err(e) => Some(Err(e)),
                Ok((n, o2)) => match sized_chunks(p, o2, 0, n as int, Seq::empty()) {
                    None => None,
                    Some(Err(e)) => Some(Err(e)),
                    Some(Ok((motifs, o3))) => cut_to(dna_body(p, o3, motifs, Seq::empty(), (orig as usize) as int), (orig as usize) as int),
                },
            },
        },
    }
}

/// Decodes the DNA stage.
pub fn level8_dna_decode(data: &[u8]) -> (r: Option<Result<Vec<u8>, CapsuleError>>)
    ensures
        option_decoded(r) == level8_spec(data@),
{
    let payload = match unframe(8, data) {
        Ok(p) => p,
        Err(e) => return Some(Err(e)),
    };
    let ghost p = payload@;
    let (original_len, o1) = match decode_varint(payload, 0) {
        Ok(v) => v,
        Err(e) => return Some(Err(e)),
    };
    let (motif_count, o2) = match decode_varint(payload, o1) {
        Ok(v) => v,
        Err(e) => return Some(Err(e)),
    };
    let (motifs, o3) = match read_sized_chunks(payload, o2, motif_count) {
        Some(Ok(v)) => v,
        Some(Err(e)) => return Some(Err(e)),
        None => return None,
    };
    let orig: usize = original_len as usize;
    let ghost ms = crate::cascade::vecs_view(motifs@);
    let ghost total = dna_body(p, o3 as int, ms, Seq::empty(), orig as int);
    assert(level8_spec(data@) == cut_to(total, orig as int));
    let mut out: Vec<u8> = Vec::new();
    let mut offset: usize = o3;
    while out.len() < orig
        invariant
            p == payload@,
            level8_spec(data@) == cut_to(total, orig as int),
            ms == crate::cascade::vecs_view(motifs@),
            total == dna_body(p, o3 as int, ms, Seq::empty(), orig as int),
            total == dna_body(p, offset as int, ms, out@, orig as int),
        decreases p.len() - offset,
    {
        if offset >= payload.len() {
            return Some(Err(CapsuleError::Truncated));
        }
        let tag: u8 = payload[offset];
        if tag == 1 {
            if payload.len() - offset <= 1 {
                return Some(Err(CapsuleError::Truncated));
            }
            let idx: usize = payload[offset + 1] as usize;
            if idx >= motifs.len() {
                return Some(Err(CapsuleError::IndexOutOfRange));
            }
            assert(motifs@[idx as int]@ == ms[idx as int]);
            crate::cascade::push_all(&mut out, motifs[idx].as_slice());
            offset += 2;
        } else if tag == 0 {
            if payload.len() - offset <= 1 {
                return Some(Err(CapsuleError::Truncated));
            }
            out.push(payload[offset + 1]);
            offset += 2;
        } else {
            return Some(Err(CapsuleError::UnknownToken));
        }
    }
    let ghost full = out@;
    out.truncate(orig);
    assert(out@ == crate::cascade::truncated(full, orig as int));
    Some(Ok(out))
}

/// Prefix-suffix stage body: each chunk reuses a prefix of the previous chunk
/// and appends a suffix.
pub open spec fn prefix_suffix_body(p: Seq<u8>, off: int, cs: int, prev: Seq<u8>, out: Seq<u8>) -> Decoded
    decreases p.len() - off,
{
    if off < 0 || off >= p.len() {
        Some(Ok(out))
    } else {
        match varint_at(p, off) {
            Err(e) => Some(Err(e)),
            Ok((prefix, o1)) => match varint_at(p, o1) {
                Err(e) => Some(Err(e)),
                Ok((suffix_len, o2)) => {
                    let pl = (prefix as usize) as int;
                    let sl = (suffix_len as usize) as int;
                    if o1 <= off || o2 <= o1 {
                        Some(Err(CapsuleError::TruncatedVarint))
                    } else if pl > prev.len() {
                        Some(Err(CapsuleError::PrefixTooLong))
                    } else if o2 + sl > usize::MAX {
                        None
                    } else if o2 + sl > p.len() {
                        Some(Err(CapsuleError::Truncated))
                    } else {
                        let chunk = prev.subrange(0, pl) + p.subrange(o2, o2 + sl);
                        if chunk.len() > cs {
                            Some(Err(CapsuleError::ChunkTooLong))
                        } else {
                            prefix_suffix_body(p, o2 + sl, cs, chunk, out + chunk)
                        }
                    }
                },
            },
        }
    }
}

/// Body bytes for chunks `ch` from chunk `k` on, chunk `k` written as its
/// prefix length `pls[k]` (shared with the chunk before), the length of the
/// rest, and the rest.
pub open spec fn ps_bytes(ch: Seq<Seq<u8>>, pls: Seq<int>, k: int) -> Seq<u8>
    decreases ch.len() - k,
{
    if k < 0 || k >= ch.len() {
        Seq::empty()
    } else {
        seq![pls[k] as u8, (ch[k].len() - pls[k]) as u8] + ch[k].subrange(pls[k], ch[k].len() as int) + ps_bytes(
            ch,
            pls,
            k + 1,
        )
    }
}

/// Chunks `ch` from chunk `k` on, joined.
pub open spec fn chunks_from(ch: Seq<Seq<u8>>, k: int) -> Seq<u8>
    decreases ch.len() - k,
{
    if k < 0 || k >= ch.len() {
        Seq::empty()
    } else {
        ch[k] + chunks_from(ch, k + 1)
    }
}

/// Chunk `k` may be written by sharing `pls[k]` bytes with the chunk before
/// (none before the first), with one-byte lengths and within the chunk size.
pub open spec fn ps_chunk_ok(ch: Seq<Seq<u8>>, pls: Seq<int>, cs: int, k: int) -> bool {
    let prev = if k == 0 { Seq::<u8>::empty() } else { ch[k - 1] };
    &&& 0 <= pls[k] <= prev.len()
    &&& pls[k] <= ch[k].len()
    &&& ch[k].subrange(0, pls[k]) == prev.subrange(0, pls[k])
    &&& pls[k] < 128
    &&& ch[k].len() - pls[k] < 128
    &&& ch[k].len() <= cs
}

/// The prefix-suffix stage rebuilds each chunk from the prefix it shares with
/// the chunk before and its own rest: a body of such chunk records decodes
/// (after whatever was decoded before) to the chunks joined in order.
pub proof fn lemma_prefix_suffix_decode(p: Seq<u8>, off: int, cs: int, ch: Seq<Seq<u8>>, pls: Seq<int>, out: Seq<u8>, k: int)
    requires
        0 <= k <= ch.len(),
        pls.len() == ch.len(),
        0 <= off,
        p.len() <= usize::MAX,
        p.len() == off + ps_bytes(ch, pls, k).len(),
        p.subrange(off, p.len() as int) == ps_bytes(ch, pls, k),
        forall|q: int| 0 <= q < ch.len() ==> #[trigger] ps_chunk_ok(ch, pls, cs, q),
    ensures
        prefix_suffix_body(p, off, cs, if k == 0 { Seq::<u8>::empty() } else { ch[k - 1] }, out) == Some(
            Ok::<Seq<u8>, CapsuleError>(out + chunks_from(ch, k)),
        ),
    decreases ch.len() - k,
{
    if k == ch.len() {
        assert(out + chunks_from(ch, k) =~= out);
    } else {
        assert(ps_chunk_ok(ch, pls, cs, k));
        let prev = if k == 0 { Seq::<u8>::empty() } else { ch[k - 1] };
        let pl = pls[k];
        let rest = ch[k].subrange(pl, ch[k].len() as int);
        let sl = rest.len() as int;
        let head = seq![pl as u8, sl as u8] + rest;
        assert(ps_bytes(ch, pls, k) == head + ps_bytes(ch, pls, k + 1));
        let h = head.len() as int;
        assert(p[off] == pl as u8) by {
            assert(p[off] == p.subrange(off, p.len() as int)[0]);
        }
        assert(p[off + 1] == sl as u8) by {
            assert(p[off + 1] == p.subrange(off, p.len() as int)[1]);
        }
        lemma_varint_one_byte(p, off);
        lemma_varint_one_byte(p, off + 1);
        let mid = p.subrange(off + 2, off + 2 + sl);
        assert(mid =~= rest) by {
            assert forall|q: int| 0 <= q < sl implies #[trigger] mid[q] == rest[q] by {
                assert(p[off + 2 + q] == p.subrange(off, p.len() as int)[2 + q]);
            }
        }
        let nb = ps_bytes(ch, pls, k + 1);
        let tail = p.subrange(off + h, p.len() as int);
        assert(tail =~= nb) by {
            assert forall|q: int| 0 <= q < nb.len() implies #[trigger] tail[q] == nb[q] by {
                assert(p[off + h + q] == p.subrange(off, p.len() as int)[h + q]);
            }
        }
        let chunk = prev.subrange(0, pl) + p.subrange(off + 2, off + 2 + sl);
        assert(chunk =~= ch[k]) by {
            assert(ch[k] =~= ch[k].subrange(0, pl) + rest);
        }
        lemma_prefix_suffix_decode(p, off + h, cs, ch, pls, out + ch[k], k + 1);
        assert((out + ch[k]) + chunks_from(ch, k + 1) =~= out + chunks_from(ch, k));
    }
}

/// What the prefix-suffix stage decodes.
pub open spec fn level2_spec(d: Seq<u8>) -> Decoded {
    match framed(2, d) {
        Err(e) => Some(Err(e)),
        Ok(p) => match varint_at(p, 0) {
            Err(e) => Some(Err(e)),
            Ok((orig, o1)) => match varint_at(p, o1) {
                Err(e) => Some(Err(e)),
                Ok((cs, o2)) => with_length(
                    prefix_suffix_body(p, o2, (cs as usize) as int, Seq::empty(), Seq::empty()),
                    orig,
                ),
            },
        },
    }
}

/// Decodes the prefix-suffix stage.
pub fn level2_prefix_suffix_decode(data: &[u8]) -> (r: Option<Result<Vec<u8>, CapsuleError>>)
    ensures
        option_decoded(r) == level2_spec(data@),
{
    let payload = match unframe(2, data) {
        Ok(p) => p,
        Err(e) => return Some(Err(e)),
    };
    let ghost p = payload@;
    let (original_len, o1) = match decode_varint(payload, 0) {
        Ok(v) => v,
        Err(e) => return Some(Err(e)),
    };
    let (chunk_size, o2) = match decode_varint(payload, o1) {
        Ok(v) => v,
        Err(e) => return Some(Err(e)),
    };
    let cs: usize = chunk_size as usize;
    let ghost total = prefix_suffix_body(p, o2 as int, cs as int, Seq::empty(), Seq::empty());
    assert(level2_spec(data@) == with_length(total, original_len));
    let mut previous: Vec<u8> = Vec::new();
    let mut out: Vec<u8> = Vec::new();
    let mut offset: usize = o2;
    while offset < payload.len()
        invariant
            p == payload@,
            level2_spec(data@) == with_length(total, original_len),
            total == prefix_suffix_body(p, offset as int, cs as int, previous@, out@),
        decreases p.len() - offset,
    {
        let (prefix, n1) = match decode_varint(payload, offset) {
            Ok(v) => v,
            Err(e) => return Some(Err(e)),
        };
        let (suffix_len, n2) = match decode_varint(payload, n1) {
            Ok(v) => v,
            Err(e) => return Some(Err(e)),
        };
        let pl: usize = prefix as usize;
        let sl: usize = suffix_len as usize;
        if pl > previous.len() {
            return Some(Err(CapsuleError::PrefixTooLong));
        }
        if sl > usize::MAX - n2 {
            return None;
        }
        if payload.len() - n2 < sl {
            return Some(Err(CapsuleError::Truncated));
        }
        let end: usize = n2 + sl;
        let mut chunk: Vec<u8> = vstd::slice::slice_to_vec(vstd::slice::slice_subrange(previous.as_slice(), 0, pl));
        crate::cascade::push_all(&mut chunk, vstd::slice::slice_subrange(payload, n2, end));
        offset = end;
        if chunk.len() > cs {
            return Some(Err(CapsuleError::ChunkTooLong));
        }
        crate::cascade::push_all(&mut out, chunk.as_slice());
        previous = chunk;
    }
    if out.len() as u64 != original_len {
        return Some(Err(CapsuleError::LengthMismatch));
    }
    Some(Ok(out))
}

/// Tokenizer stage vocabulary: `n - k` varint-sized UTF-8 tokens from `off`.
pub open spec fn utf8_tokens(p: Seq<u8>, off: int, k: int, n: int, acc: Seq<Seq<u8>>) -> Option<
    Result<(Seq<Seq<u8>>, int), CapsuleError>,
>
    decreases n - k,
{
    if k >= n {
        Some(Ok((acc, off)))
    } else {
        match varint_at(p, off) {
            Err(e) => Some(Err(e)),
            Ok((size, next)) => {
                let sz = (size as usize) as int;
                if next + sz > usize::MAX {
                    None
                } else if next + sz > p.len() {
                    Some(Err(CapsuleError::Truncated))
                } else if !vstd::utf8::valid_utf8(p.subrange(next, next + sz)) {
                    Some(Err(CapsuleError::InvalidUtf8))
                } else {
                    utf8_tokens(p, next + sz, k + 1, n, acc.push(p.subrange(next, next + sz)))
                }
            },
        }
    }
}

/// Tokenizer stage body: `n - k` varint token ids, each replaced by its token.
pub open spec fn token_ids(p: Seq<u8>, off: int, k: int, n: int, vocab: Seq<Seq<u8>>, out: Seq<u8>) -> Result<Seq<u8>, CapsuleError>
    decreases n - k,
{
    if k >= n {
        Ok(out)
    } else {
        match varint_at(p, off) {
            Err(e) => Err(e),
            Ok((idx, next)) => if (idx as usize) as int >= vocab.len() {
                Err(CapsuleError::IndexOutOfRange)
            } else {
                token_ids(p, next, k + 1, n, vocab, out + vocab[(idx as usize) as int])
            },
        }
    }
}

/// The vocabulary entries that token ids `ids` name, joined in order.
pub open spec fn joined_tokens(ids: Seq<u8>, vocab: Seq<Seq<u8>>) -> Seq<u8>
    decreases ids.len(),
{
    if ids.len() == 0 {
        Seq::empty()
    } else {
        joined_tokens(ids.drop_last(), vocab) + vocab[ids.last() as int]
    }
}

/// The tokenizer stage joins the vocabulary entries its ids name: ids written
/// as one-byte varints, each naming an entry of the vocabulary, decode (after
/// whatever was decoded before) to those entries joined in order.
pub proof fn lemma_token_ids_decode(p: Seq<u8>, off: int, ids: Seq<u8>, vocab: Seq<Seq<u8>>, out: Seq<u8>, k: int)
    requires
        0 <= off,
        0 <= k <= ids.len(),
        off + ids.len() <= p.len(),
        forall|q: int| 0 <= q < ids.len() ==> p[off + q] == #[trigger] ids[q] && ids[q] < 128 && (ids[q] as int) < vocab.len(),
    ensures
        token_ids(p, off + k, k, ids.len() as int, vocab, out + joined_tokens(ids.take(k), vocab)) == Ok::<Seq<u8>, CapsuleError>(
            out + joined_tokens(ids, vocab),
        ),
    decreases ids.len() - k,
{
    if k == ids.len() {
        assert(ids.take(k) =~= ids);
    } else {
        assert(p[off + k] == ids[k] && ids[k] < 128);
        lemma_varint_one_byte(p, off + k);
        assert(ids.take(k + 1).drop_last() =~= ids.take(k));
        assert(joined_tokens(ids.take(k + 1), vocab) == joined_tokens(ids.take(k), vocab) + vocab[ids[k] as int]);
        assert(out + joined_tokens(ids.take(k), vocab) + vocab[ids[k] as int] =~= out + joined_tokens(ids.take(k + 1), vocab));
        lemma_token_ids_decode(p, off, ids, vocab, out, k + 1);
    }
}

/// What the tokenizer stage decodes: mode 0 stores the text raw, mode 1 as a
/// vocabulary and token ids.
pub open spec fn level1_spec(d: Seq<u8>) -> Decoded {
    match framed(1, d) {
        Err(e) => Some(Err(e)),
        Ok(p) => if p.len() == 0 {
            Some(Err(CapsuleError::EmptyPayload))
        } else {
            match varint_at(p, 1) {
                Err(e) => Some(Err(e)),
                Ok((orig, o1)) => if p[0] == 0 {
                    if p.len() - o1 != orig {
                        Some(Err(CapsuleError::LengthMismatch))
                    } else {
                        Some(Ok(p.subrange(o1, p.len() as int)))
                    }
                } else if p[0] != 1 {
                    Some(Err(CapsuleError::UnknownMode))
                } else {
                    match varint_at(p, o1) {
                        Err(e) => Some(Err(e)),
                        Ok((vl, o2)) => match utf8_tokens(p, o2, 0, vl as int, Seq::empty()) {
                            None => None,
                            Some(Err(e)) => Some(Err(e)),
                            Some(Ok((vocab, o3))) => match varint_at(p, o3) {
                                Err(e) => Some(Err(e)),
                                Ok((tc, o4)) => with_length(Some(token_ids(p, o4, 0, tc as int, vocab, Seq::empty())), orig),
                            },
                        },
                    }
                },
            }
        },
    }
}

fn read_utf8_tokens(p: &[u8], offset: usize, n: u64) -> (r: Option<Result<(Vec<Vec<u8>>, usize), CapsuleError>>)
    ensures
        match utf8_tokens(p@, offset as int, 0, n as int, Seq::empty()) {
            Some(Ok((toks, end))) => r matches Some(Ok((v, e))) && crate::cascade::vecs_view(v@) == toks && e == end,
            Some(Err(err)) => r == Some(Err::<(Vec<Vec<u8>>, usize), CapsuleError>(err)),
            None => r is None,
        },
{
    let mut toks: Vec<Vec<u8>> = Vec::new();
    let mut off: usize = offset;
    let mut k: u64 = 0;
    let ghost total = utf8_tokens(p@, offset as int, 0, n as int, Seq::empty());
    assert(crate::cascade::vecs_view(toks@) =~= Seq::<Seq<u8>>::empty());
    while k < n
        invariant
            k <= n,
            total == utf8_tokens(p@, offset as int, 0, n as int, Seq::empty()),
            total == utf8_tokens(p@, off as int, k as int, n as int, crate::cascade::vecs_view(toks@)),
        decreases n - k,
    {
        let (size, next) = match decode_varint(p, off) {
            Ok(v) => v,
            Err(e) => return Some(Err(e)),
        };
        let sz: usize = size as usize;
        if sz > usize::MAX - next {
            return None;
        }
        if p.len() - next < sz {
            return Some(Err(CapsuleError::Truncated));
        }
        let end: usize = next + sz;
        let tok = vstd::slice::slice_subrange(p, next, end);
        if !crate::cascade::is_valid_utf8(tok) {
            return Some(Err(CapsuleError::InvalidUtf8));
        }
        let ghost before = crate::cascade::vecs_view(toks@);
        toks.push(vstd::slice::slice_to_vec(tok));
        assert(crate::cascade::vecs_view(toks@) =~= before.push(p@.subrange(next as int, end as int)));
        off = end;
        k += 1;
    }
    Some(Ok((toks, off)))
}

/// Decodes the tokenizer stage.
pub fn level1_tokenization_decode(data: &[u8]) -> (r: Option<Result<Vec<u8>, CapsuleError>>)
    ensures
        option_decoded(r) == level1_spec(data@),
{
    let payload = match unframe(1, data) {
        Ok(p) => p,
        Err(e) => return Some(Err(e)),
    };
    let ghost p = payload@;
    if payload.len() == 0 {
        return Some(Err(CapsuleError::EmptyPayload));
    }
    let mode: u8 = payload[0];
    let (original_len, o1) = match decode_varint(payload, 1) {
        Ok(v) => v,
        Err(e) => return Some(Err(e)),
    };
    if mode == 0 {
        let raw = vstd::slice::slice_subrange(payload, o1, payload.len());
        if raw.len() as u64 != original_len {
            return Some(Err(CapsuleError::LengthMismatch));
        }
        return Some(Ok(vstd::slice::slice_to_vec(raw)));
    }
    if mode != 1 {
        return Some(Err(CapsuleError::UnknownMode));
    }
    let (vocab_len, o2) = match decode_varint(payload, o1) {
        Ok(v) => v,
        Err(e) => return Some(Err(e)),
    };
    let (vocab, o3) = match read_utf8_tokens(payload, o2, vocab_len) {
        Some(Ok(v)) => v,
        Some(Err(e)) => return Some(Err(e)),
        None => return None,
    };
    let (token_count, o4) = match decode_varint(payload, o3) {
        Ok(v) => v,
        Err(e) => return Some(Err(e)),
    };
    let ghost vv = crate::cascade::vecs_view(vocab@);
    let ghost total = token_ids(p, o4 as int, 0, token_count as int, vv, Seq::empty());
    assert(level1_spec(data@) == with_length(Some(total), original_len));
    let mut out: Vec<u8> = Vec::new();
    let mut offset: usize = o4;
    let mut k: u64 = 0;
    while k < token_count
        invariant
            k <= token_count,
            level1_spec(data@) == with_length(Some(total), original_len),
            p == payload@,
            vv == crate::cascade::vecs_view(vocab@),
            total == token_ids(p, o4 as int, 0, token_count as int, vv, Seq::empty()),
            total == token_ids(p, offset as int, k as int, token_count as int, vv, out@),
        decreases token_count - k,
    {
        let (idx, next) = match decode_varint(payload, offset) {
            Ok(v) => v,
            Err(e) => return Some(Err(e)),
        };
        let i: usize = idx as usize;
        if i >= vocab.len() {
            return Some(Err(CapsuleError::IndexOutOfRange));
        }
        assert(vocab@[i as int]@ == vv[i as int]);
        crate::cascade::push_all(&mut out, vocab[i].as_slice());
        offset = next;
        k += 1;
    }
    if out.len() as u64 != original_len {
        return Some(Err(CapsuleError::LengthMismatch));
    }
    Some(Ok(out))
}

/// ASCII hex digit.
pub open spec fn is_hex_byte(b: u8) -> bool {
    (0x30 <= b <= 0x39) || (0x41 <= b <= 0x46) || (0x61 <= b <= 0x66)
}

/// Sixty-four hex digits.
pub open spec fn sha256_hex_shape(s: Seq<u8>) -> bool {
    s.len() == 64 && forall|i: int| 0 <= i < 64 ==> is_hex_byte(#[trigger] s[i])
}

/// Whether `value` is a SHA-256 digest written as 64 hex digits.
pub fn is_sha256_hex(value: &str) -> (r: bool)
    ensures
        r == sha256_hex_shape(value.spec_bytes()),
{
    let b = value.as_bytes();
    if b.len() != 64 {
        return false;
    }
    let mut i: usize = 0;
    while i < 64
        invariant
            i <= 64,
            b@.len() == 64,
            b@ == value.spec_bytes(),
            forall|k: int| 0 <= k < i ==> is_hex_byte(#[trigger] b@[k]),
        decreases 64 - i,
    {
        let c: u8 = b[i];
        if !((0x30 <= c && c <= 0x39) || (0x41 <= c && c <= 0x46) || (0x61 <= c && c <= 0x66)) {
            assert(!is_hex_byte(value.spec_bytes()[i as int]));
            return false;
        }
        i += 1;
    }
    true
}

/// A path written with a backslash or a drive letter.
pub open spec fn windows_path_shape(s: Seq<u8>) -> bool {
    s.contains(0x5Cu8) || (s.len() >= 2 && ((0x41 <= s[0] <= 0x5A) || (0x61 <= s[0] <= 0x7A)) && s[1] == 0x3A)
}

/// Whether `value` uses Windows path syntax (a backslash, or a drive letter and
/// colon at the start).
pub fn has_windows_path_syntax(value: &str) -> (r: bool)
    ensures
        r == windows_path_shape(value.spec_bytes()),
{
    let b = value.as_bytes();
    let mut i: usize = 0;
    while i < b.len()
        invariant
            i <= b@.len(),
            b@ == value.spec_bytes(),
            forall|k: int| 0 <= k < i ==> b@[k] != 0x5Cu8,
        decreases b@.len() - i,
    {
        if b[i] == 0x5C {
            assert(value.spec_bytes()[i as int] == 0x5Cu8);
            assert(value.spec_bytes().contains(0x5Cu8));
            return true;
        }
        i += 1;
    }
    b.len() >= 2 && ((0x41 <= b[0] && b[0] <= 0x5A) || (0x61 <= b[0] && b[0] <= 0x7A)) && b[1] == 0x3A
}

/// Decimal value of the digits `s` (all of them ASCII digits).
pub open spec fn digits_value(s: Seq<u8>) -> nat
    decreases s.len(),
{
    if s.len() == 0 {
        0
    } else {
        digits_value(s.drop_last()) * 10 + (s.last() - 0x30) as nat
    }
}

/// How `str::parse::<usize>` reads `s`: an optional plus sign, then at least one
/// decimal digit, with no overflow.
pub open spec fn parse_usize(s: Seq<u8>) -> Option<nat> {
    parse_digits(
        if s.len() > 0 && s[0] == 0x2B {
            s.subrange(1, s.len() as int)
        } else {
            s
        },
    )
}

/// Value of a non-empty run of decimal digits that fits in `usize`.
pub open spec fn parse_digits(d: Seq<u8>) -> Option<nat> {
    if d.len() == 0 || !(forall|i: int| 0 <= i < d.len() ==> 0x30 <= #[trigger] d[i] <= 0x39) || digits_value(d)
        > usize::MAX {
        None
    } else {
        Some(digits_value(d))
    }
}

fn parse_usize_bytes(s: &[u8]) -> (r: Option<usize>)
    ensures
        match parse_usize(s@) {
            Some(v) => r == Some(v as usize),
            None => r is None,
        },
{
    let start: usize = if s.len() > 0 && s[0] == 0x2B { 1 } else { 0 };
    let ghost d = if s@.len() > 0 && s@[0] == 0x2B {
        s@.subrange(1, s@.len() as int)
    } else {
        s@
    };
    assert(d =~= s@.subrange(start as int, s@.len() as int));
    if start == s.len() {
        return None;
    }
    let mut value: usize = 0;
    let mut i: usize = start;
    assert(d.subrange(0, 0) =~= Seq::<u8>::empty());
    while i < s.len()
        invariant
            start <= i <= s@.len(),
            d == s@.subrange(start as int, s@.len() as int),
            parse_usize(s@) == parse_digits(d),
            forall|k: int| 0 <= k < i - start ==> 0x30 <= #[trigger] d[k] <= 0x39,
            value as nat == digits_value(d.subrange(0, i - start)),
        decreases s@.len() - i,
    {
        let c: u8 = s[i];
        assert(d[i - start] == c);
        if c < 0x30 || c > 0x39 {
            assert(!(0x30 <= d[i - start] <= 0x39));
            return None;
        }
        let digit: usize = (c - 0x30) as usize;
        assert(d.subrange(0, i + 1 - start).drop_last() =~= d.subrange(0, i - start));
        if value > (usize::MAX - digit) / 10 {
            proof {
                assert(value * 10 + digit > usize::MAX) by (nonlinear_arith)
                    requires value > (usize::MAX - digit) / 10, digit <= 9;
                assert(digits_value(d.subrange(0, i + 1 - start)) == value * 10 + digit);
                if forall|k: int| 0 <= k < d.len() ==> 0x30 <= #[trigger] d[k] <= 0x39 {
                    lemma_digits_prefix_bound(d, i + 1 - start);
                }
            }
            return None;
        }
        value = value * 10 + digit;
        i += 1;
    }
    assert(d.subrange(0, d.len() as int) =~= d);
    Some(value)
}

proof fn lemma_digits_prefix_bound(d: Seq<u8>, n: int)
    requires
        0 <= n <= d.len(),
        forall|k: int| 0 <= k < d.len() ==> 0x30 <= #[trigger] d[k] <= 0x39,
    ensures
        digits_value(d.subrange(0, n)) <= digits_value(d),
    decreases d.len() - n,
{
    if n < d.len() {
        lemma_digits_prefix_bound(d, n + 1);
        assert(d.subrange(0, n + 1).drop_last() =~= d.subrange(0, n));
    } else {
        assert(d.subrange(0, n) =~= d);
    }
}

/// The UFO level of a capsule entry: the explicit level, else 9 for "ufo9", else
/// the number after "ufo"; it must lie in 1..=9.
pub open spec fn ufo_level_spec(explicit: Option<usize>, t: Seq<u8>) -> Result<usize, CapsuleError> {
    let level: Result<usize, CapsuleError> = match explicit {
        Some(l) => Ok(l),
        None => if t == seq![0x75u8, 0x66, 0x6F, 0x39] {
            Ok(9usize)
        } else if t.len() >= 3 && t[0] == 0x75 && t[1] == 0x66 && t[2] == 0x6F {
            match parse_usize(t.subrange(3, t.len() as int)) {
                Some(v) => Ok(v as usize),
                None => Err(CapsuleError::NotUfo),
            }
        } else {
            Err(CapsuleError::NotUfo)
        },
    };
    match level {
        Ok(l) => if 1 <= l <= 9 {
            Ok(l)
        } else {
            Err(CapsuleError::LevelOutOfRange)
        },
        Err(e) => Err(e),
    }
}

/// The UFO level of an entry with transform `transform` and optional explicit
/// level.
pub fn ufo_level(explicit: Option<usize>, transform: &str) -> (r: Result<usize, CapsuleError>)
    ensures
        r == ufo_level_spec(explicit, transform.spec_bytes()),
{
    let t = transform.as_bytes();
    let level: usize = match explicit {
        Some(l) => l,
        None => {
            let nine: [u8; 4] = [0x75, 0x66, 0x6F, 0x39];
            assert(nine@ =~= seq![0x75u8, 0x66, 0x6F, 0x39]);
            if crate::cascade::bytes_equal(t, &nine) {
                9
            } else if t.len() >= 3 && t[0] == 0x75 && t[1] == 0x66 && t[2] == 0x6F {
                match parse_usize_bytes(vstd::slice::slice_subrange(t, 3, t.len())) {
                    Some(v) => v,
                    None => return Err(CapsuleError::NotUfo),
                }
            } else {
                return Err(CapsuleError::NotUfo);
            }
        },
    };
    if 1 <= level && level <= 9 {
        Ok(level)
    } else {
        Err(CapsuleError::LevelOutOfRange)
    }
}

/// Checks a decoded member against the size and (when given) SHA-256 that the
/// manifest records.
pub fn verify_digest_and_size(size: u64, digest: &str, original_size: u64, original_sha256: &str) -> (r: Result<(), CapsuleError>)
    ensures
        r == if size != original_size {
            Err::<(), CapsuleError>(CapsuleError::SizeMismatch)
        } else if original_sha256.spec_bytes().len() > 0 && digest.spec_bytes() != original_sha256.spec_bytes() {
            Err(CapsuleError::HashMismatch)
        } else {
            Ok(())
        },
{
    if size != original_size {
        return Err(CapsuleError::SizeMismatch);
    }
    let expected = original_sha256.as_bytes();
    if expected.len() > 0 && !crate::cascade::bytes_equal(digest.as_bytes(), expected) {
        return Err(CapsuleError::HashMismatch);
    }
    Ok(())
}

/// What decoding one UFO stage gives, for every level but the transform
/// stage 4: the stage's own decoder, or a refused level outside 1..=9.
pub open spec fn ufo_stage_spec(level: usize, d: Seq<u8>) -> Decoded {
    if level == 1 {
        level1_spec(d)
    } else if level == 2 {
        level2_spec(d)
    } else if level == 3 {
        level3_spec(d)
    } else if level == 5 {
        level5_spec(d)
    } else if level == 6 {
        Some(level6_spec(d))
    } else if level == 7 {
        level7_spec(d)
    } else if level == 8 {
        level8_spec(d)
    } else if level == 9 {
        Some(level9_spec(d))
    } else {
        Some(Err(CapsuleError::LevelOutOfRange))
    }
}

/// Decodes one UFO stage of level `level` (the transform stage 4 is decoded
/// elsewhere); `None` where the stage's residual arithmetic would overflow.
pub fn decode_ufo_stage(level: usize, data: &[u8]) -> (r: Option<Result<Vec<u8>, CapsuleError>>)
    requires
        level != 4,
    ensures
        option_decoded(r) == ufo_stage_spec(level, data@),
{
    if level == 1 {
        level1_tokenization_decode(data)
    } else if level == 2 {
        level2_prefix_suffix_decode(data)
    } else if level == 3 {
        level3_delta_varint_decode(data)
    } else if level == 5 {
        level5_dictionary_decode(data)
    } else if level == 6 {
        Some(level6_zlib_decode(data))
    } else if level == 7 {
        level7_geometric_decode(data)
    } else if level == 8 {
        level8_dna_decode(data)
    } else if level == 9 {
        Some(level9_cosmic_hash_decode(data))
    } else {
        Some(Err(CapsuleError::LevelOutOfRange))
    }
}

// ---------------------------------------------------------------------------
// Manifest integrity policy
// ---------------------------------------------------------------------------

/// What the integrity policy reads of one manifest entry: its path and archive
/// name, whether each is a safe relative path, and its digests.
#[derive(Debug, Clone)]
pub struct ManifestEntryFacts {
    pub path: String,
    pub archive_name: String,
    pub path_safe: bool,
    pub archive_name_safe: bool,
    pub original_sha256: String,
    pub stored_payload_sha256: Option<String>,
}

/// Why a manifest entry breaks the integrity policy.
#[derive(Debug, Clone, Copy, PartialEq, Eq, Structural)]
pub enum ManifestViolation {
    UnsafePath,
    UnsafeArchiveName,
    DuplicatePath,
    DuplicateArchiveName,
    MissingDirectHash,
    InvalidHash,
    InvalidStoredHash,
}

/// The UTF-8 bytes of a string.
pub open spec fn text_bytes(s: String) -> Seq<u8> {
    vstd::utf8::encode_utf8(s@)
}

/// The first rule, in order, that entry `i` breaks given the entries before it.
pub open spec fn entry_violation(es: Seq<ManifestEntryFacts>, i: int, v2: bool) -> Option<ManifestViolation> {
    let e = es[i];
    if !e.path_safe {
        Some(ManifestViolation::UnsafePath)
    } else if !e.archive_name_safe {
        Some(ManifestViolation::UnsafeArchiveName)
    } else if exists|k: int| 0 <= k < i && #[trigger] es[k].path@ == e.path@ {
        Some(ManifestViolation::DuplicatePath)
    } else if exists|k: int| 0 <= k < i && #[trigger] es[k].archive_name@ == e.archive_name@ {
        Some(ManifestViolation::DuplicateArchiveName)
    } else if v2 && !sha256_hex_shape(text_bytes(e.original_sha256)) {
        Some(ManifestViolation::MissingDirectHash)
    } else if text_bytes(e.original_sha256).len() != 0 && !sha256_hex_shape(text_bytes(e.original_sha256)) {
        Some(ManifestViolation::InvalidHash)
    } else if e.stored_payload_sha256 matches Some(h) && !sha256_hex_shape(text_bytes(h)) {
        Some(ManifestViolation::InvalidStoredHash)
    } else {
        None
    }
}

/// The first entry among the first `n` that breaks the policy, with the rule.
pub open spec fn first_violation(es: Seq<ManifestEntryFacts>, v2: bool, n: int) -> Option<(usize, ManifestViolation)>
    decreases n,
{
    if n <= 0 {
        None
    } else {
        match first_violation(es, v2, n - 1) {
            Some(x) => Some(x),
            None => match entry_violation(es, n - 1, v2) {
                Some(v) => Some(((n - 1) as usize, v)),
                None => None,
            },
        }
    }
}

proof fn lemma_first_violation_found(es: Seq<ManifestEntryFacts>, v2: bool, i: int, n: int)
    requires
        0 <= i < n,
        first_violation(es, v2, i) is None,
        entry_violation(es, i, v2) is Some,
    ensures
        first_violation(es, v2, n) == Some((i as usize, entry_violation(es, i, v2)->Some_0)),
    decreases n - i,
{
    if n > i + 1 {
        lemma_first_violation_found(es, v2, i, n - 1);
    }
}

proof fn lemma_first_unmanifested_found(members: Seq<(String, bool)>, mn: Seq<char>, es: Seq<ManifestEntryFacts>, k: int, n: int)
    requires
        0 <= k < n,
        first_unmanifested(members, mn, es, k) is None,
        first_unmanifested(members, mn, es, k + 1) is Some,
    ensures
        first_unmanifested(members, mn, es, n) == Some(k as usize),
    decreases n - k,
{
    if n > k + 1 {
        lemma_first_unmanifested_found(members, mn, es, k, n - 1);
    }
}

/// Whether an earlier entry (before `i`) has the same path, or the same archive
/// name.
fn earlier_duplicates(es: &[ManifestEntryFacts], i: usize) -> (r: (bool, bool))
    requires
        i < es@.len(),
    ensures
        r.0 == exists|k: int| 0 <= k < i && #[trigger] es@[k].path@ == es@[i as int].path@,
        r.1 == exists|k: int| 0 <= k < i && #[trigger] es@[k].archive_name@ == es@[i as int].archive_name@,
{
    let mut dup_path = false;
    let mut dup_archive = false;
    let mut k: usize = 0;
    while k < i
        invariant
            k <= i < es@.len(),
            dup_path == exists|q: int| 0 <= q < k && #[trigger] es@[q].path@ == es@[i as int].path@,
            dup_archive == exists|q: int| 0 <= q < k && #[trigger] es@[q].archive_name@ == es@[i as int].archive_name@,
        decreases i - k,
    {
        if es[k].path == es[i].path {
            dup_path = true;
        }
        if es[k].archive_name == es[i].archive_name {
            dup_archive = true;
        }
        proof {
            if dup_path {
                if es@[k as int].path@ == es@[i as int].path@ {
                    assert(es@[k as int].path@ == es@[i as int].path@);
                }
            }
        }
        k += 1;
        assert(dup_path == exists|q: int| 0 <= q < k && #[trigger] es@[q].path@ == es@[i as int].path@) by {
            if es@[k - 1].path@ == es@[i as int].path@ {
                assert(es@[k - 1].path@ == es@[i as int].path@);
            }
        }
        assert(dup_archive == exists|q: int| 0 <= q < k && #[trigger] es@[q].archive_name@ == es@[i as int].archive_name@) by {
            if es@[k - 1].archive_name@ == es@[i as int].archive_name@ {
                assert(es@[k - 1].archive_name@ == es@[i as int].archive_name@);
            }
        }
    }
    (dup_path, dup_archive)
}

/// Checks the manifest's entries in order against the integrity policy: safe
/// relative paths and archive names, no path or archive name twice, a direct
/// SHA-256 on every entry of a `ufo-v2` capsule, and well-formed digests.
/// Returns the first entry that breaks a rule and the rule it breaks.
pub fn validate_manifest_integrity_policy(format: &str, entries: &[ManifestEntryFacts]) -> (r: Result<
    (),
    (usize, ManifestViolation),
>)
    ensures
        r == (match first_violation(entries@, format@ == "ufo-v2"@, entries@.len() as int) {
            Some(x) => Err::<(), (usize, ManifestViolation)>(x),
            None => Ok(()),
        }),
{
    let v2_name: String = "ufo-v2".to_owned();
    let fmt: String = format.to_owned();
    let v2: bool = fmt == v2_name;
    let ghost es = entries@;
    let mut i: usize = 0;
    while i < entries.len()
        invariant
            i <= es.len(),
            es == entries@,
            v2 == (format@ == "ufo-v2"@),
            first_violation(es, v2, i as int) is None,
        decreases es.len() - i,
    {
        let e = &entries[i];
        let (dup_path, dup_archive) = earlier_duplicates(entries, i);
        let orig_hex: bool = is_sha256_hex(e.original_sha256.as_str());
        let orig_empty: bool = e.original_sha256.as_str().as_bytes().len() == 0;
        let stored_bad: bool = match &e.stored_payload_sha256 {
            Some(h) => !is_sha256_hex(h.as_str()),
            None => false,
        };
        let violation: Option<ManifestViolation> = if !e.path_safe {
            Some(ManifestViolation::UnsafePath)
        } else if !e.archive_name_safe {
            Some(ManifestViolation::UnsafeArchiveName)
        } else if dup_path {
            Some(ManifestViolation::DuplicatePath)
        } else if dup_archive {
            Some(ManifestViolation::DuplicateArchiveName)
        } else if v2 && !orig_hex {
            Some(ManifestViolation::MissingDirectHash)
        } else if !orig_empty && !orig_hex {
            Some(ManifestViolation::InvalidHash)
        } else if stored_bad {
            Some(ManifestViolation::InvalidStoredHash)
        } else {
            None
        };
        assert(violation == entry_violation(es, i as int, v2));
        match violation {
            Some(v) => {
                proof {
                    lemma_first_violation_found(es, v2, i as int, es.len() as int);
                }
                return Err((i, v));
            },
            None => {},
        }
        i += 1;
    }
    Ok(())
}

/// The first archive member, in archive order, that is neither a directory,
/// the manifest itself, nor named by a manifest entry.
pub open spec fn first_unmanifested(members: Seq<(String, bool)>, manifest_name: Seq<char>, es: Seq<ManifestEntryFacts>, n: int) -> Option<usize>
    decreases n,
{
    if n <= 0 {
        None
    } else {
        match first_unmanifested(members, manifest_name, es, n - 1) {
            Some(k) => Some(k),
            None => if !members[n - 1].1 && members[n - 1].0@ != manifest_name && !(exists|j: int|
                0 <= j < es.len() && #[trigger] es[j].archive_name@ == members[n - 1].0@) {
                Some((n - 1) as usize)
            } else {
                None
            },
        }
    }
}

/// Whether some entry is stored under archive name `name`.
fn names_member(es: &[ManifestEntryFacts], name: &String) -> (r: bool)
    ensures
        r == exists|j: int| 0 <= j < es@.len() && #[trigger] es@[j].archive_name@ == name@,
{
    let mut j: usize = 0;
    while j < es.len()
        invariant
            j <= es@.len(),
            forall|q: int| 0 <= q < j ==> #[trigger] es@[q].archive_name@ != name@,
        decreases es@.len() - j,
    {
        if es[j].archive_name == *name {
            return true;
        }
        j += 1;
    }
    false
}

/// Checks that every archive member (name, and whether it is a directory) other
/// than directories and the manifest is named by an entry; the position of the
/// first that is not.
pub fn first_unmanifested_member(members: &[(String, bool)], manifest_name: &str, entries: &[ManifestEntryFacts]) -> (r: Option<usize>)
    ensures
        r == first_unmanifested(members@, manifest_name@, entries@, members@.len() as int),
{
    let mname: String = manifest_name.to_owned();
    let mut k: usize = 0;
    while k < members.len()
        invariant
            k <= members@.len(),
            mname@ == manifest_name@,
            first_unmanifested(members@, manifest_name@, entries@, k as int) is None,
        decreases members@.len() - k,
    {
        let m = &members[k];
        if !m.1 && m.0 != mname && !names_member(entries, &m.0) {
            proof {
                lemma_first_unmanifested_found(members@, manifest_name@, entries@, k as int, members@.len() as int);
            }
            return Some(k);
        }
        k += 1;
    }
    None
}

} // verus!
