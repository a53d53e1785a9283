//! GGUF header parsing, tensor metadata and the size arithmetic used before a
//! tensor is read.

use crate::cascade::{decimal, push_decimal};
use crate::gemma_hf::{find_first, first_present, names_of, owned_names};
use crate::model::GemmaConfig;
use vstd::prelude::*;

verus! {

/// Name, shape, element type and data offset of one GGUF tensor.
#[derive(Debug, Clone)]
pub struct GgufTensorInfo {
    pub name: String,
    pub dimensions: Vec<usize>,
    pub ggml_type: u32,
    pub offset: u64,
}

/// Product of the first `n` dimensions.
pub open spec fn dims_product(dims: Seq<usize>, n: int) -> int
    decreases n,
{
    if n <= 0 {
        1
    } else {
        dims_product(dims, n - 1) * dims[n - 1]
    }
}

proof fn lemma_product_nonneg(dims: Seq<usize>, n: int)
    ensures
        dims_product(dims, n) >= 0,
    decreases n,
{
    if n > 0 {
        lemma_product_nonneg(dims, n - 1);
        assert(dims_product(dims, n - 1) * dims[n - 1] >= 0) by (nonlinear_arith)
            requires dims_product(dims, n - 1) >= 0, dims[n - 1] >= 0;
    }
}

/// Number of elements of a tensor with these dimensions; `None` when a partial
/// product leaves `usize`.
pub fn total_elements(dims: &[usize]) -> (r: Option<usize>)
    ensures
        match r {
            Some(t) => t as int == dims_product(dims@, dims@.len() as int),
            None => exists|k: int| 1 <= k <= dims@.len() && dims_product(dims@, k) > usize::MAX,
        },
{
    let mut total: usize = 1;
    let mut i: usize = 0;
    while i < dims.len()
        invariant
            i <= dims@.len(),
            total as int == dims_product(dims@, i as int),
        decreases dims@.len() - i,
    {
        match total.checked_mul(dims[i]) {
            Some(t) => {
                total = t;
            },
            None => {
                assert(dims_product(dims@, i + 1) > usize::MAX);
                return None;
            },
        }
        i += 1;
    }
    Some(total)
}

/// Bytes that a tensor of `total` elements takes for the element types whose
/// size is checked (0: f32, 1: f16, 2: q4_0, 6: q5_0, 8: q8_0); 0 where the
/// product leaves `u64`.
pub open spec fn payload_bytes_spec(ggml_type: u32, total: usize) -> Option<u64> {
    let (count, unit) = if ggml_type == 0 {
        (total as int, 4int)
    } else if ggml_type == 1 {
        (total as int, 2int)
    } else if ggml_type == 2 {
        ((total / 32) as int, 18int)
    } else if ggml_type == 6 {
        ((total / 32) as int, 22int)
    } else {
        ((total / 32) as int, 34int)
    };
    if ggml_type != 0 && ggml_type != 1 && ggml_type != 2 && ggml_type != 6 && ggml_type != 8 {
        None
    } else if count * unit > u64::MAX {
        Some(0)
    } else {
        Some((count * unit) as u64)
    }
}

/// Bytes that a tensor occupies in the file, for the checked element types.
pub fn payload_bytes(ggml_type: u32, total: usize) -> (r: Option<u64>)
    ensures
        r == payload_bytes_spec(ggml_type, total),
{
    let (count, unit): (u64, u64) = if ggml_type == 0 {
        (total as u64, 4)
    } else if ggml_type == 1 {
        (total as u64, 2)
    } else if ggml_type == 2 {
        ((total / 32) as u64, 18)
    } else if ggml_type == 6 {
        ((total / 32) as u64, 22)
    } else if ggml_type == 8 {
        ((total / 32) as u64, 34)
    } else {
        return None;
    };
    match count.checked_mul(unit) {
        Some(b) => Some(b),
        None => Some(0),
    }
}

/// Bytes of a half-precision float.
pub open spec fn f16_bytes() -> int {
    2
}

/// Elements in one quantized block.
pub open spec fn block_elems() -> int {
    32
}

/// The on-disk size of a tensor's data: `f32` elements take four bytes and
/// `f16` two; the quantized types store whole blocks of 32 elements, each an
/// `f16` scale followed by the packed weights: 4-bit weights for q4_0, 4-bit
/// weights plus a 32-bit mask of fifth bits for q5_0, and bytes for q8_0.
/// Elements past the last whole block take no space.
pub open spec fn layout_bytes(ggml_type: u32, total: int) -> int {
    let blocks = total / block_elems();
    if ggml_type == 0 {
        total * 4
    } else if ggml_type == 1 {
        total * f16_bytes()
    } else if ggml_type == 2 {
        blocks * (f16_bytes() + block_elems() * 4 / 8)
    } else if ggml_type == 6 {
        blocks * (f16_bytes() + 4 + block_elems() * 4 / 8)
    } else {
        blocks * (f16_bytes() + block_elems())
    }
}

/// Payload sizes follow the block layout of each element type: the size is the
/// layout's byte count, 0 where that count leaves `u64`, and no size for an
/// element type whose layout is not checked. Growing a quantized tensor by one
/// whole block adds exactly one block's bytes.
pub proof fn lemma_payload_bytes_layout(ggml_type: u32, total: usize)
    ensures
        (ggml_type == 0 || ggml_type == 1 || ggml_type == 2 || ggml_type == 6 || ggml_type == 8) ==> payload_bytes_spec(
            ggml_type,
            total,
        ) == if layout_bytes(ggml_type, total as int) <= u64::MAX {
            Some(layout_bytes(ggml_type, total as int) as u64)
        } else {
            Some(0u64)
        },
        !(ggml_type == 0 || ggml_type == 1 || ggml_type == 2 || ggml_type == 6 || ggml_type == 8) ==> payload_bytes_spec(
            ggml_type,
            total,
        ) is None,
        (ggml_type == 2 || ggml_type == 6 || ggml_type == 8) ==> layout_bytes(ggml_type, total as int + 32)
            == layout_bytes(ggml_type, total as int) + layout_bytes(ggml_type, 32),
{
    let t = total as int;
    assert((t + 32) / 32 == t / 32 + 1) by (nonlinear_arith)
        requires t >= 0;
    assert(32int / 32 == 1);
}

/// Why a GGUF header was refused.
#[derive(Debug, Clone, Copy, PartialEq, Eq, Structural)]
pub enum GgufError {
    /// The input ends inside a field.
    Truncated,
    /// The magic is not "GGUF".
    NotGguf,
    /// A version other than 2 or 3.
    UnsupportedVersion,
    /// A string longer than 10 MiB.
    StringTooLong,
    /// A string that is not UTF-8.
    InvalidUtf8,
    /// An array of more than a million elements.
    ArrayTooLarge,
    /// A metadata value type this reader does not know.
    UnknownValueType,
}

/// Little-endian 32-bit value at `i`.
pub open spec fn le_u32(b: Seq<u8>, i: int) -> u32 {
    (b[i] as int + b[i + 1] as int * 0x100 + b[i + 2] as int * 0x10000 + b[i + 3] as int * 0x1000000) as u32
}

/// Little-endian 64-bit value at `i`.
pub open spec fn le_u64(b: Seq<u8>, i: int) -> u64 {
    (le_u32(b, i) as int + le_u32(b, i + 4) as int * 0x1_0000_0000) as u64
}

/// A length-prefixed UTF-8 string at `pos`: its bytes and the position after it.
pub open spec fn gguf_string(b: Seq<u8>, pos: int) -> Result<(Seq<u8>, int), GgufError> {
    if pos < 0 || pos + 8 > b.len() {
        Err(GgufError::Truncated)
    } else if le_u64(b, pos) > 10 * 1024 * 1024 {
        Err(GgufError::StringTooLong)
    } else if pos + 8 + le_u64(b, pos) > b.len() {
        Err(GgufError::Truncated)
    } else if !vstd::utf8::valid_utf8(b.subrange(pos + 8, pos + 8 + le_u64(b, pos))) {
        Err(GgufError::InvalidUtf8)
    } else {
        Ok((b.subrange(pos + 8, pos + 8 + le_u64(b, pos)), pos + 8 + le_u64(b, pos)))
    }
}

/// Position after a metadata value of type `vt` at `pos`.
pub open spec fn skip_value(b: Seq<u8>, pos: int, vt: u32) -> Result<int, GgufError>
    decreases b.len() - pos, 0int, 0int,
{
    if pos < 0 || pos > b.len() {
        Err(GgufError::Truncated)
    } else if vt == 0 || vt == 1 || vt == 7 {
        if pos + 1 > b.len() {
            Err(GgufError::Truncated)
        } else {
            Ok(pos + 1)
        }
    } else if vt == 2 || vt == 3 {
        if pos + 2 > b.len() {
            Err(GgufError::Truncated)
        } else {
            Ok(pos + 2)
        }
    } else if 4 <= vt <= 6 {
        if pos + 4 > b.len() {
            Err(GgufError::Truncated)
        } else {
            Ok(pos + 4)
        }
    } else if vt == 8 {
        match gguf_string(b, pos) {
            Ok((_, p)) => Ok(p),
            Err(e) => Err(e),
        }
    } else if vt == 9 {
        if pos + 12 > b.len() {
            Err(GgufError::Truncated)
        } else if le_u64(b, pos + 4) > 1_000_000 {
            Err(GgufError::ArrayTooLarge)
        } else {
            skip_elems(b, pos + 12, le_u32(b, pos), le_u64(b, pos + 4) as int)
        }
    } else {
        Err(GgufError::UnknownValueType)
    }
}

/// Position after `n` metadata values of type `vt` from `pos`.
pub open spec fn skip_elems(b: Seq<u8>, pos: int, vt: u32, n: int) -> Result<int, GgufError>
    decreases b.len() - pos, 1int, n,
{
    if pos < 0 || pos > b.len() {
        Err(GgufError::Truncated)
    } else if n <= 0 {
        Ok(pos)
    } else {
        match skip_value(b, pos, vt) {
            Err(e) => Err(e),
            Ok(p) => if p <= pos || p > b.len() {
                Err(GgufError::Truncated)
            } else {
                skip_elems(b, p, vt, n - 1)
            },
        }
    }
}

/// The key that carries the data alignment.
pub open spec fn alignment_key() -> Seq<u8> {
    seq![103u8, 101, 110, 101, 114, 97, 108, 46, 97, 108, 105, 103, 110, 109, 101, 110, 116]
}

/// Walks `n - k` metadata pairs from `pos`: the position after them and the
/// alignment in force (a 32-bit "general.alignment" value overrides it).
pub open spec fn kv_walk(b: Seq<u8>, pos: int, k: int, n: int, align: u64) -> Result<(int, u64), GgufError>
    decreases b.len() - pos,
{
    if k >= n {
        Ok((pos, align))
    } else if pos < 0 || pos > b.len() {
        Err(GgufError::Truncated)
    } else {
        match gguf_string(b, pos) {
            Err(e) => Err(e),
            Ok((key, p1)) => if p1 + 4 > b.len() {
                Err(GgufError::Truncated)
            } else {
                let vt = le_u32(b, p1);
                match skip_value(b, p1 + 4, vt) {
                    Err(e) => Err(e),
                    Ok(p2) => if p2 <= pos || p2 > b.len() {
                        Err(GgufError::Truncated)
                    } else {
                        kv_walk(
                            b,
                            p2,
                            k + 1,
                            n,
                            if key == alignment_key() && vt == 4 {
                                le_u32(b, p1 + 4) as u64
                            } else {
                                align
                            },
                        )
                    },
                }
            },
        }
    }
}

/// One tensor record: name bytes, dimensions, element type and data offset.
pub type TensorRecord = (Seq<u8>, Seq<usize>, u32, u64);

/// Reads `n - k` tensor records from `pos`: the records and the position after.
pub open spec fn tensor_walk(b: Seq<u8>, pos: int, k: int, n: int, acc: Seq<TensorRecord>) -> Result<
    (Seq<TensorRecord>, int),
    GgufError,
>
    decreases b.len() - pos,
{
    if k >= n {
        Ok((acc, pos))
    } else if pos < 0 || pos > b.len() {
        Err(GgufError::Truncated)
    } else {
        match gguf_string(b, pos) {
            Err(e) => Err(e),
            Ok((name, p1)) => if p1 + 4 > b.len() {
                Err(GgufError::Truncated)
            } else {
                let nd = le_u32(b, p1) as int;
                let p2 = p1 + 4 + 8 * nd;
                if p2 + 12 > b.len() {
                    Err(GgufError::Truncated)
                } else {
                    let dims = Seq::new(nd as nat, |i: int| le_u64(b, p1 + 4 + 8 * i) as usize);
                    tensor_walk(b, p2 + 12, k + 1, n, acc.push((name, dims, le_u32(b, p2), le_u64(b, p2 + 4))))
                }
            },
        }
    }
}

proof fn lemma_skip_value_advances(b: Seq<u8>, pos: int, vt: u32)
    ensures
        skip_value(b, pos, vt) matches Ok(p) ==> pos < p <= b.len(),
    decreases b.len() - pos, 0int, 0int,
{
    if 0 <= pos <= b.len() && vt == 9 && pos + 12 <= b.len() && le_u64(b, pos + 4) <= 1_000_000 {
        lemma_skip_elems_advances(b, pos + 12, le_u32(b, pos), le_u64(b, pos + 4) as int);
    }
}

proof fn lemma_skip_elems_advances(b: Seq<u8>, pos: int, vt: u32, n: int)
    ensures
        skip_elems(b, pos, vt, n) matches Ok(p) ==> pos <= p <= b.len(),
    decreases b.len() - pos, 1int, n,
{
    if 0 <= pos <= b.len() && n > 0 {
        lemma_skip_value_advances(b, pos, vt);
        if let Ok(p) = skip_value(b, pos, vt) {
            if pos < p <= b.len() {
                lemma_skip_elems_advances(b, p, vt, n - 1);
            }
        }
    }
}

fn read_le_u32(b: &[u8], i: usize) -> (r: u32)
    requires
        i + 4 <= b@.len(),
    ensures
        r == le_u32(b@, i as int),
{
    let v: u64 = b[i] as u64 + b[i + 1] as u64 * 0x100 + b[i + 2] as u64 * 0x10000 + b[i + 3] as u64 * 0x1000000;
    v as u32
}

fn read_le_u64(b: &[u8], i: usize) -> (r: u64)
    requires
        i + 8 <= b@.len(),
    ensures
        r == le_u64(b@, i as int),
{
    let total: usize = b.len();
    assert(i + 8 <= total);
    let lo: u32 = read_le_u32(b, i);
    let hi: u32 = read_le_u32(b, i + 4);
    let v: u128 = lo as u128 + hi as u128 * 0x1_0000_0000;
    v as u64
}

/// The byte range of the string at `pos`, and the position after it.
fn read_string_range(b: &[u8], pos: usize) -> (r: Result<(usize, usize), GgufError>)
    ensures
        match gguf_string(b@, pos as int) {
            Ok((bytes, next)) => r matches Ok((start, end)) && start + 0 <= end <= b@.len() && b@.subrange(
                start as int,
                end as int,
            ) == bytes && end == next,
            Err(e) => r == Err::<(usize, usize), GgufError>(e),
        },
{
    if pos > b.len() || b.len() - pos < 8 {
        return Err(GgufError::Truncated);
    }
    let n: u64 = read_le_u64(b, pos);
    if n > 10 * 1024 * 1024 {
        return Err(GgufError::StringTooLong);
    }
    let len: usize = n as usize;
    if b.len() - pos - 8 < len {
        return Err(GgufError::Truncated);
    }
    let start: usize = pos + 8;
    let end: usize = start + len;
    if !crate::cascade::is_valid_utf8(vstd::slice::slice_subrange(b, start, end)) {
        return Err(GgufError::InvalidUtf8);
    }
    Ok((start, end))
}

/// Skips a metadata value of type `vt` at `pos`.
fn skip_value_exec(b: &[u8], pos: usize, vt: u32) -> (r: Result<usize, GgufError>)
    requires
        pos <= b@.len(),
    ensures
        match skip_value(b@, pos as int, vt) {
            Ok(p) => r == Ok::<usize, GgufError>(p as usize),
            Err(e) => r == Err::<usize, GgufError>(e),
        },
    decreases b@.len() - pos, 0int, 0int,
{
    proof {
        lemma_skip_value_advances(b@, pos as int, vt);
    }
    let rest: usize = b.len() - pos;
    if vt == 0 || vt == 1 || vt == 7 {
        if rest < 1 {
            return Err(GgufError::Truncated);
        }
        Ok(pos + 1)
    } else if vt == 2 || vt == 3 {
        if rest < 2 {
            return Err(GgufError::Truncated);
        }
        Ok(pos + 2)
    } else if 4 <= vt && vt <= 6 {
        if rest < 4 {
            return Err(GgufError::Truncated);
        }
        Ok(pos + 4)
    } else if vt == 8 {
        match read_string_range(b, pos) {
            Ok((_, end)) => Ok(end),
            Err(e) => Err(e),
        }
    } else if vt == 9 {
        if rest < 12 {
            return Err(GgufError::Truncated);
        }
        let at: u32 = read_le_u32(b, pos);
        let n: u64 = read_le_u64(b, pos + 4);
        if n > 1_000_000 {
            return Err(GgufError::ArrayTooLarge);
        }
        skip_elems_exec(b, pos + 12, at, n)
    } else {
        Err(GgufError::UnknownValueType)
    }
}

/// Skips `n` metadata values of type `vt` from `pos`.
fn skip_elems_exec(b: &[u8], pos: usize, vt: u32, n: u64) -> (r: Result<usize, GgufError>)
    requires
        pos <= b@.len(),
    ensures
        match skip_elems(b@, pos as int, vt, n as int) {
            Ok(p) => r == Ok::<usize, GgufError>(p as usize),
            Err(e) => r == Err::<usize, GgufError>(e),
        },
    decreases b@.len() - pos, 1int, n as int,
{
    if n == 0 {
        return Ok(pos);
    }
    let total: usize = b.len();
    proof {
        lemma_skip_value_advances(b@, pos as int, vt);
    }
    match skip_value_exec(b, pos, vt) {
        Err(e) => Err(e),
        Ok(p) => {
            assert(skip_value(b@, pos as int, vt) == Ok::<int, GgufError>(p as int));
            assert(pos < p);
            skip_elems_exec(b, p, vt, n - 1)
        },
    }
}

/// `String::from_utf8`: a string exactly when the bytes are valid UTF-8, and
/// then one whose UTF-8 encoding is those bytes.
#[verifier::external_body]
fn string_from_utf8(bytes: &[u8]) -> (r: Option<String>)
    ensures
        r is Some <==> vstd::utf8::valid_utf8(bytes@),
        r matches Some(s) ==> vstd::utf8::encode_utf8(s@) == bytes@,
{
    String::from_utf8(bytes.to_vec()).ok()
}

/// The parsed header: the tensor table and where tensor data begins.
#[derive(Debug, Clone)]
pub struct GgufHeader {
    pub tensors: Vec<GgufTensorInfo>,
    pub data_payload_start: u64,
}

/// Outcome of reading a GGUF header from `b`: the tensor records and the
/// aligned start of tensor data; `None` where the alignment is 0 or aligning
/// overflows.
pub open spec fn header_spec(b: Seq<u8>) -> Option<Result<(Seq<TensorRecord>, u64), GgufError>> {
    if b.len() < 4 {
        Some(Err(GgufError::Truncated))
    } else if b.subrange(0, 4) != seq![71u8, 71, 85, 70] {
        Some(Err(GgufError::NotGguf))
    } else if b.len() < 8 {
        Some(Err(GgufError::Truncated))
    } else if le_u32(b, 4) != 2 && le_u32(b, 4) != 3 {
        Some(Err(GgufError::UnsupportedVersion))
    } else if b.len() < 24 {
        Some(Err(GgufError::Truncated))
    } else {
        match kv_walk(b, 24, 0, le_u64(b, 16) as int, 32) {
            Err(e) => Some(Err(e)),
            Ok((p, align)) => match tensor_walk(b, p, 0, le_u64(b, 8) as int, Seq::empty()) {
                Err(e) => Some(Err(e)),
                Ok((recs, p2)) => if align == 0 || p2 + align > u64::MAX {
                    None
                } else {
                    Some(Ok((recs, ((p2 + align - 1) as u64) & !((align - 1) as u64))))
                },
            },
        }
    }
}

/// The record that a tensor entry holds.
pub open spec fn record_of(t: GgufTensorInfo) -> TensorRecord {
    (vstd::utf8::encode_utf8(t.name@), t.dimensions@, t.ggml_type, t.offset)
}

proof fn lemma_kv_walk_bounds(b: Seq<u8>, pos: int, k: int, n: int, align: u64)
    requires
        0 <= pos <= b.len(),
    ensures
        kv_walk(b, pos, k, n, align) matches Ok((p, _)) ==> pos <= p <= b.len(),
    decreases b.len() - pos,
{
    if k < n {
        if let Ok((key, p1)) = gguf_string(b, pos) {
            if p1 + 4 <= b.len() {
                let vt = le_u32(b, p1);
                if let Ok(p2) = skip_value(b, p1 + 4, vt) {
                    if pos < p2 <= b.len() {
                        lemma_kv_walk_bounds(
                            b,
                            p2,
                            k + 1,
                            n,
                            if key == alignment_key() && vt == 4 {
                                le_u32(b, p1 + 4) as u64
                            } else {
                                align
                            },
                        );
                    }
                }
            }
        }
    }
}

fn is_alignment_key(b: &[u8], start: usize, end: usize) -> (r: bool)
    requires
        start <= end <= b@.len(),
    ensures
        r == (b@.subrange(start as int, end as int) == alignment_key()),
{
    let key: [u8; 17] = [103, 101, 110, 101, 114, 97, 108, 46, 97, 108, 105, 103, 110, 109, 101, 110, 116];
    assert(key@ =~= alignment_key());
    crate::cascade::bytes_equal(vstd::slice::slice_subrange(b, start, end), &key)
}

/// Walks the metadata pairs: the position after them and the alignment.
fn walk_kv(b: &[u8], pos: usize, n: u64) -> (r: Result<(usize, u64), GgufError>)
    requires
        pos <= b@.len(),
    ensures
        match kv_walk(b@, pos as int, 0, n as int, 32) {
            Ok((p, a)) => r == Ok::<(usize, u64), GgufError>((p as usize, a)) && pos <= p <= b@.len(),
            Err(e) => r == Err::<(usize, u64), GgufError>(e),
        },
{
    let total: usize = b.len();
    let ghost whole = kv_walk(b@, pos as int, 0, n as int, 32);
    proof {
        lemma_kv_walk_bounds(b@, pos as int, 0, n as int, 32);
    }
    let mut p: usize = pos;
    let mut align: u64 = 32;
    let mut k: u64 = 0;
    while k < n
        invariant
            k <= n,
            p <= b@.len(),
            total == b@.len(),
            whole == kv_walk(b@, pos as int, 0, n as int, 32),
            whole == kv_walk(b@, p as int, k as int, n as int, align),
        decreases b@.len() - p,
    {
        let (start, end) = match read_string_range(b, p) {
            Ok(v) => v,
            Err(e) => return Err(e),
        };
        if b.len() - end < 4 {
            return Err(GgufError::Truncated);
        }
        let vt: u32 = read_le_u32(b, end);
        proof {
            lemma_skip_value_advances(b@, end + 4, vt);
        }
        let p2: usize = match skip_value_exec(b, end + 4, vt) {
            Ok(v) => v,
            Err(e) => return Err(e),
        };
        assert(skip_value(b@, end + 4, vt) == Ok::<int, GgufError>(p2 as int));
        if vt == 4 && is_alignment_key(b, start, end) {
            align = read_le_u32(b, end + 4) as u64;
        }
        p = p2;
        k += 1;
    }
    Ok((p, align))
}

proof fn lemma_tensor_walk_bounds(b: Seq<u8>, pos: int, k: int, n: int, acc: Seq<TensorRecord>)
    requires
        0 <= pos <= b.len(),
    ensures
        tensor_walk(b, pos, k, n, acc) matches Ok((_, p)) ==> pos <= p <= b.len(),
    decreases b.len() - pos,
{
    if k < n {
        if let Ok((name, p1)) = gguf_string(b, pos) {
            if p1 + 4 <= b.len() {
                let nd = le_u32(b, p1) as int;
                let p2 = p1 + 4 + 8 * nd;
                if p2 + 12 <= b.len() {
                    let dims = Seq::new(nd as nat, |i: int| le_u64(b, p1 + 4 + 8 * i) as usize);
                    lemma_tensor_walk_bounds(b, p2 + 12, k + 1, n, acc.push((name, dims, le_u32(b, p2), le_u64(b, p2 + 4))));
                }
            }
        }
    }
}

/// Reads the tensor table.
fn walk_tensors(b: &[u8], pos: usize, n: u64) -> (r: Result<(Vec<GgufTensorInfo>, usize), GgufError>)
    requires
        pos <= b@.len(),
    ensures
        match tensor_walk(b@, pos as int, 0, n as int, Seq::empty()) {
            Ok((recs, p)) => r matches Ok((v, e)) && v@.map_values(|t: GgufTensorInfo| record_of(t)) == recs
                && e == p,
            Err(err) => r matches Err(e2) && e2 == err,
        },
{
    let total: usize = b.len();
    let ghost whole = tensor_walk(b@, pos as int, 0, n as int, Seq::empty());
    proof {
        lemma_tensor_walk_bounds(b@, pos as int, 0, n as int, Seq::empty());
    }
    let mut out: Vec<GgufTensorInfo> = Vec::new();
    let mut p: usize = pos;
    let mut k: u64 = 0;
    assert(out@.map_values(|t: GgufTensorInfo| record_of(t)) =~= Seq::<TensorRecord>::empty());
    while k < n
        invariant
            k <= n,
            p <= b@.len(),
            total == b@.len(),
            whole == tensor_walk(b@, pos as int, 0, n as int, Seq::empty()),
            whole == tensor_walk(b@, p as int, k as int, n as int, out@.map_values(|t: GgufTensorInfo| record_of(t))),
        decreases b@.len() - p,
    {
        let (start, end) = match read_string_range(b, p) {
            Ok(v) => v,
            Err(e) => return Err(e),
        };
        if b.len() - end < 4 {
            return Err(GgufError::Truncated);
        }
        let nd: u32 = read_le_u32(b, end);
        let dims_start: usize = end + 4;
        if (b.len() - dims_start) / 8 < nd as usize || b.len() - dims_start - 8 * (nd as usize) < 12 {
            return Err(GgufError::Truncated);
        }
        let mut dims: Vec<usize> = Vec::new();
        let mut i: usize = 0;
        while i < nd as usize
            invariant
                i <= nd,
                total == b@.len(),
                dims_start + 8 * nd + 12 <= b@.len(),
                dims@.len() == i,
                forall|q: int| 0 <= q < i ==> #[trigger] dims@[q] == le_u64(b@, dims_start + 8 * q) as usize,
            decreases nd - i,
        {
            let v: u64 = read_le_u64(b, dims_start + 8 * i);
            dims.push(v as usize);
            i += 1;
        }
        let p2: usize = dims_start + 8 * (nd as usize);
        let ggml_type: u32 = read_le_u32(b, p2);
        let offset: u64 = read_le_u64(b, p2 + 4);
        let name = match string_from_utf8(vstd::slice::slice_subrange(b, start, end)) {
            Some(s) => s,
            None => {
                proof {
                    assert(false);
                }
                return Err(GgufError::InvalidUtf8);
            },
        };
        let ghost before = out@.map_values(|t: GgufTensorInfo| record_of(t));
        let info = GgufTensorInfo { name, dimensions: dims, ggml_type, offset };
        out.push(info);
        proof {
            let nd_i = nd as int;
            assert(info.dimensions@ =~= Seq::new(nd_i as nat, |q: int| le_u64(b@, end + 4 + 8 * q) as usize));
            assert(out@.map_values(|t: GgufTensorInfo| record_of(t)) =~= before.push(record_of(info)));
        }
        p = p2 + 12;
        k += 1;
    }
    Ok((out, p))
}

/// Reads a GGUF header: magic, version 2 or 3, the metadata pairs (of which a
/// 32-bit "general.alignment" sets the data alignment, 32 by default), and the
/// tensor table; tensor data starts at the next aligned position. `None` where
/// the alignment is 0.
pub fn parse_gguf_header(bytes: &[u8]) -> (r: Option<Result<GgufHeader, GgufError>>)
    ensures
        match header_spec(bytes@) {
            None => r is None,
            Some(Err(e)) => r matches Some(Err(e2)) && e2 == e,
            Some(Ok((recs, start))) => r matches Some(Ok(h)) && h.tensors@.map_values(
                |t: GgufTensorInfo| record_of(t),
            ) == recs && h.data_payload_start == start,
        },
{
    if bytes.len() < 4 {
        return Some(Err(GgufError::Truncated));
    }
    if !(bytes[0] == 71 && bytes[1] == 71 && bytes[2] == 85 && bytes[3] == 70) {
        proof {
            if bytes@.subrange(0, 4) == seq![71u8, 71, 85, 70] {
                assert(bytes@.subrange(0, 4)[0] == bytes@[0]);
                assert(bytes@.subrange(0, 4)[1] == bytes@[1]);
                assert(bytes@.subrange(0, 4)[2] == bytes@[2]);
                assert(bytes@.subrange(0, 4)[3] == bytes@[3]);
            }
        }
        return Some(Err(GgufError::NotGguf));
    }
    assert(bytes@.subrange(0, 4) =~= seq![71u8, 71, 85, 70]);
    if bytes.len() < 8 {
        return Some(Err(GgufError::Truncated));
    }
    let version: u32 = read_le_u32(bytes, 4);
    if version != 2 && version != 3 {
        return Some(Err(GgufError::UnsupportedVersion));
    }
    if bytes.len() < 24 {
        return Some(Err(GgufError::Truncated));
    }
    let total: usize = bytes.len();
    let tensor_count: u64 = read_le_u64(bytes, 8);
    let kv_count: u64 = read_le_u64(bytes, 16);
    let (p, align) = match walk_kv(bytes, 24, kv_count) {
        Ok(v) => v,
        Err(e) => return Some(Err(e)),
    };
    proof {
        match kv_walk(bytes@, 24, 0, kv_count as int, 32) {
            Ok((sp, sa)) => {
                assert(sp <= bytes@.len());
                assert(p as int == sp);
                assert(align == sa);
            },
            Err(_) => {},
        }
    }
    let (tensors, p2) = match walk_tensors(bytes, p, tensor_count) {
        Ok(v) => v,
        Err(e) => return Some(Err(e)),
    };
    proof {
        match tensor_walk(bytes@, p as int, 0, tensor_count as int, Seq::empty()) {
            Ok((recs, sp2)) => {
                assert(p2 as int == sp2);
            },
            Err(_) => {},
        }
    }
    if align == 0 || p2 as u64 > u64::MAX - align {
        return None;
    }
    let start: u64 = (p2 as u64 + align - 1) & !(align - 1);
    Some(Ok(GgufHeader { tensors, data_payload_start: start }))
}

/// A dimension of a converted tensor, in terms of the model config.
#[derive(Debug, Clone, Copy, PartialEq, Eq, Structural)]
pub enum ConvDim {
    One,
    Hidden,
    Vocab,
    Intermediate,
    QueryWidth,
    KvWidth,
}

/// The value of a dimension for `c`.
pub open spec fn conv_dim(c: GemmaConfig, d: ConvDim) -> int {
    match d {
        ConvDim::One => 1,
        ConvDim::Hidden => c.hidden_size as int,
        ConvDim::Vocab => c.vocab_size as int,
        ConvDim::Intermediate => c.intermediate_size as int,
        ConvDim::QueryWidth => c.num_attention_heads * c.head_dim,
        ConvDim::KvWidth => c.num_key_value_heads * c.head_dim,
    }
}

/// A tensor of the whole model that a conversion looks for: its role, the
/// names it may go by, its rows and columns, and whether it is required.
pub open spec fn gguf_model_request(k: int) -> (Seq<char>, Seq<Seq<char>>, ConvDim, ConvDim, bool) {
    if k == 0 {
        ("token_embedding"@, seq!["token_embd.weight"@, "model.embed_tokens.weight"@], ConvDim::Vocab, ConvDim::Hidden, true)
    } else if k == 1 {
        ("token_embedding_per_layer"@, seq!["model.embed_tokens_per_layer.weight"@], ConvDim::Vocab, ConvDim::Hidden, false)
    } else if k == 2 {
        ("per_layer_model_projection"@, seq!["model.per_layer_model_projection.weight"@], ConvDim::Vocab, ConvDim::Hidden, false)
    } else if k == 3 {
        ("final_norm"@, seq!["output_norm.weight"@, "model.norm.weight"@], ConvDim::One, ConvDim::Hidden, true)
    } else {
        ("lm_head"@, seq!["output.weight"@, "lm_head.weight"@], ConvDim::Vocab, ConvDim::Hidden, true)
    }
}

/// A tensor of each layer that a conversion looks for: its role, its GGUF
/// suffix, its Hugging Face suffix, its rows and columns, and whether it is
/// required.
pub open spec fn gguf_layer_request(j: int) -> (Seq<char>, Seq<char>, Seq<char>, ConvDim, ConvDim, bool) {
    if j == 0 {
        ("input_norm"@, "attn_norm.weight"@, "input_layernorm.weight"@, ConvDim::One, ConvDim::Hidden, true)
    } else if j == 1 {
        ("post_attention_norm"@, "attn_post_norm.weight"@, "post_attention_layernorm.weight"@, ConvDim::One, ConvDim::Hidden, true)
    } else if j == 2 {
        ("pre_feedforward_norm"@, "ffn_norm.weight"@, "pre_feedforward_layernorm.weight"@, ConvDim::One, ConvDim::Hidden, true)
    } else if j == 3 {
        ("post_feedforward_norm"@, "ffn_post_norm.weight"@, "post_feedforward_layernorm.weight"@, ConvDim::One, ConvDim::Hidden, true)
    } else if j == 4 {
        ("q_norm"@, "attn_q_norm.weight"@, "self_attn.q_norm.weight"@, ConvDim::One, ConvDim::QueryWidth, false)
    } else if j == 5 {
        ("k_norm"@, "attn_k_norm.weight"@, "self_attn.k_norm.weight"@, ConvDim::One, ConvDim::KvWidth, false)
    } else if j == 6 {
        ("q_proj"@, "attn_q.weight"@, "self_attn.q_proj.weight"@, ConvDim::QueryWidth, ConvDim::Hidden, true)
    } else if j == 7 {
        ("k_proj"@, "attn_k.weight"@, "self_attn.k_proj.weight"@, ConvDim::KvWidth, ConvDim::Hidden, true)
    } else if j == 8 {
        ("v_proj"@, "attn_v.weight"@, "self_attn.v_proj.weight"@, ConvDim::KvWidth, ConvDim::Hidden, true)
    } else if j == 9 {
        ("o_proj"@, "attn_output.weight"@, "self_attn.o_proj.weight"@, ConvDim::Hidden, ConvDim::QueryWidth, true)
    } else if j == 10 {
        ("gate_proj"@, "ffn_gate.weight"@, "mlp.gate_proj.weight"@, ConvDim::Intermediate, ConvDim::Hidden, true)
    } else if j == 11 {
        ("up_proj"@, "ffn_up.weight"@, "mlp.up_proj.weight"@, ConvDim::Intermediate, ConvDim::Hidden, true)
    } else {
        ("down_proj"@, "ffn_down.weight"@, "mlp.down_proj.weight"@, ConvDim::Hidden, ConvDim::Intermediate, true)
    }
}

/// The `k`-th tensor a conversion looks for: the model's, then each layer's
/// in turn (a layer's under `blk.{layer}.` first, then `model.layers.{layer}.`).
pub open spec fn gguf_request(k: int) -> (Seq<char>, Seq<Seq<char>>, ConvDim, ConvDim, bool) {
    if k < 5 {
        gguf_model_request(k)
    } else {
        let layer = decimal(((k - 5) / 13) as nat);
        let (role, gguf, hf, rows, cols, required) = gguf_layer_request((k - 5) % 13);
        (
            "layers."@ + layer + "."@ + role,
            seq!["blk."@ + layer + "."@ + gguf, "model.layers."@ + layer + "."@ + hf],
            rows,
            cols,
            required,
        )
    }
}

/// The conversions planned from the first `m` requests: for each whose
/// tensor the file holds, its role, the name found, its rows and columns.
pub open spec fn gguf_plan(c: GemmaConfig, names: Seq<Seq<char>>, m: nat) -> Seq<(Seq<char>, Seq<char>, int, int)>
    decreases m,
{
    if m == 0 {
        Seq::empty()
    } else {
        let prev = gguf_plan(c, names, (m - 1) as nat);
        let (role, cands, rows, cols, _required) = gguf_request(m - 1);
        match first_present(cands, names) {
            Some(found) => prev.push((role, found, conv_dim(c, rows), conv_dim(c, cols))),
            None => prev,
        }
    }
}

/// The required roles among the first `m` requests whose tensor the file
/// does not hold.
pub open spec fn gguf_unfound(names: Seq<Seq<char>>, m: nat) -> Seq<Seq<char>>
    decreases m,
{
    if m == 0 {
        Seq::empty()
    } else {
        let prev = gguf_unfound(names, (m - 1) as nat);
        let (role, cands, _rows, _cols, required) = gguf_request(m - 1);
        if required && first_present(cands, names) is None {
            prev.push(role)
        } else {
            prev
        }
    }
}

/// A planned conversion as plain values.
pub open spec fn conversion_view(t: (String, String, usize, usize)) -> (Seq<char>, Seq<char>, int, int) {
    (t.0@, t.1@, t.2 as int, t.3 as int)
}

/// The dimensions of a layer's tensors fit in a `usize`.
pub open spec fn layer_dims_fit(c: GemmaConfig) -> bool {
    c.num_attention_heads * c.head_dim <= usize::MAX && c.num_key_value_heads * c.head_dim <= usize::MAX
}

/// A tensor request of the whole model, as literals.
fn model_request(k: usize) -> (r: (&'static str, Vec<&'static str>, ConvDim, ConvDim, bool))
    requires
        k < 5,
    ensures
        r.0@ == gguf_model_request(k as int).0,
        r.1@.map_values(|s: &str| s@) == gguf_model_request(k as int).1,
        r.2 == gguf_model_request(k as int).2,
        r.3 == gguf_model_request(k as int).3,
        r.4 == gguf_model_request(k as int).4,
{
    let r: (&'static str, Vec<&'static str>, ConvDim, ConvDim, bool) = if k == 0 {
        ("token_embedding", vec!["token_embd.weight", "model.embed_tokens.weight"], ConvDim::Vocab, ConvDim::Hidden, true)
    } else if k == 1 {
        ("token_embedding_per_layer", vec!["model.embed_tokens_per_layer.weight"], ConvDim::Vocab, ConvDim::Hidden, false)
    } else if k == 2 {
        ("per_layer_model_projection", vec!["model.per_layer_model_projection.weight"], ConvDim::Vocab, ConvDim::Hidden, false)
    } else if k == 3 {
        ("final_norm", vec!["output_norm.weight", "model.norm.weight"], ConvDim::One, ConvDim::Hidden, true)
    } else {
        ("lm_head", vec!["output.weight", "lm_head.weight"], ConvDim::Vocab, ConvDim::Hidden, true)
    };
    assert(r.1@.map_values(|s: &str| s@) =~= gguf_model_request(k as int).1);
    r
}

/// A tensor request of each layer, as literals.
fn layer_request(j: usize) -> (r: (&'static str, &'static str, &'static str, ConvDim, ConvDim, bool))
    requires
        j < 13,
    ensures
        r.0@ == gguf_layer_request(j as int).0,
        r.1@ == gguf_layer_request(j as int).1,
        r.2@ == gguf_layer_request(j as int).2,
        r.3 == gguf_layer_request(j as int).3,
        r.4 == gguf_layer_request(j as int).4,
        r.5 == gguf_layer_request(j as int).5,
{
    if j == 0 {
        ("input_norm", "attn_norm.weight", "input_layernorm.weight", ConvDim::One, ConvDim::Hidden, true)
    } else if j == 1 {
        ("post_attention_norm", "attn_post_norm.weight", "post_attention_layernorm.weight", ConvDim::One, ConvDim::Hidden, true)
    } else if j == 2 {
        ("pre_feedforward_norm", "ffn_norm.weight", "pre_feedforward_layernorm.weight", ConvDim::One, ConvDim::Hidden, true)
    } else if j == 3 {
        ("post_feedforward_norm", "ffn_post_norm.weight", "post_feedforward_layernorm.weight", ConvDim::One, ConvDim::Hidden, true)
    } else if j == 4 {
        ("q_norm", "attn_q_norm.weight", "self_attn.q_norm.weight", ConvDim::One, ConvDim::QueryWidth, false)
    } else if j == 5 {
        ("k_norm", "attn_k_norm.weight", "self_attn.k_norm.weight", ConvDim::One, ConvDim::KvWidth, false)
    } else if j == 6 {
        ("q_proj", "attn_q.weight", "self_attn.q_proj.weight", ConvDim::QueryWidth, ConvDim::Hidden, true)
    } else if j == 7 {
        ("k_proj", "attn_k.weight", "self_attn.k_proj.weight", ConvDim::KvWidth, ConvDim::Hidden, true)
    } else if j == 8 {
        ("v_proj", "attn_v.weight", "self_attn.v_proj.weight", ConvDim::KvWidth, ConvDim::Hidden, true)
    } else if j == 9 {
        ("o_proj", "attn_output.weight", "self_attn.o_proj.weight", ConvDim::Hidden, ConvDim::QueryWidth, true)
    } else if j == 10 {
        ("gate_proj", "ffn_gate.weight", "mlp.gate_proj.weight", ConvDim::Intermediate, ConvDim::Hidden, true)
    } else if j == 11 {
        ("up_proj", "ffn_up.weight", "mlp.up_proj.weight", ConvDim::Intermediate, ConvDim::Hidden, true)
    } else {
        ("down_proj", "ffn_down.weight", "mlp.down_proj.weight", ConvDim::Hidden, ConvDim::Intermediate, true)
    }
}

/// The value of a dimension for `c`.
fn dim_value(c: &GemmaConfig, d: ConvDim) -> (r: usize)
    requires
        (d == ConvDim::QueryWidth || d == ConvDim::KvWidth) ==> layer_dims_fit(*c),
    ensures
        r == conv_dim(*c, d),
{
    match d {
        ConvDim::One => 1,
        ConvDim::Hidden => c.hidden_size,
        ConvDim::Vocab => c.vocab_size,
        ConvDim::Intermediate => c.intermediate_size,
        ConvDim::QueryWidth => c.num_attention_heads * c.head_dim,
        ConvDim::KvWidth => c.num_key_value_heads * c.head_dim,
    }
}

/// `prefix`, the decimal `layer`, a dot and `suffix`.
fn layer_name(prefix: &str, layer: usize, suffix: &str) -> (r: String)
    ensures
        r@ == prefix@ + decimal(layer as nat) + "."@ + suffix@,
{
    let mut s: String = prefix.to_owned();
    push_decimal(&mut s, layer);
    s.append(".");
    s.append(suffix);
    s
}

/// Records the conversion of a role's tensor: the first of `candidates` that
/// the file's tensor names `names` hold, with its shape; returns whether one
/// was found.
fn push_conversion(
    names: &[String],
    conversions: &mut Vec<(String, String, usize, usize)>,
    role: String,
    candidates: &Vec<String>,
    rows: usize,
    cols: usize,
) -> (found: bool)
    ensures
        found == (first_present(names_of(candidates@), names_of(names@)) is Some),
        final(conversions)@.map_values(|t: (String, String, usize, usize)| conversion_view(t)) == (match first_present(
            names_of(candidates@),
            names_of(names@),
        ) {
            Some(n) => old(conversions)@.map_values(|t: (String, String, usize, usize)| conversion_view(t)).push(
                (role@, n, rows as int, cols as int),
            ),
            None => old(conversions)@.map_values(|t: (String, String, usize, usize)| conversion_view(t)),
        }),
{
    match find_first(names, candidates) {
        Some(name) => {
            let ghost prev = conversions@;
            let t = (role, name, rows, cols);
            conversions.push(t);
            assert(conversions@.map_values(|t: (String, String, usize, usize)| conversion_view(t)) =~= prev.map_values(
                |t: (String, String, usize, usize)| conversion_view(t),
            ).push(conversion_view(t)));
            true
        },
        None => false,
    }
}

/// Plans the conversion of a GGUF file with tensor names `names` for a model
/// with `config`: for each tensor the model needs, in order, the first of its
/// names that the file holds, with its shape; and the roles of the required
/// tensors it holds under none of them.
pub fn plan_gguf_conversion(config: &GemmaConfig, names: &[String]) -> (r: (
    Vec<(String, String, usize, usize)>,
    Vec<String>,
))
    requires
        config.num_hidden_layers > 0 ==> layer_dims_fit(*config),
    ensures
        r.0@.map_values(|t: (String, String, usize, usize)| conversion_view(t)) == gguf_plan(
            *config,
            names_of(names@),
            (5 + 13 * config.num_hidden_layers) as nat,
        ),
        names_of(r.1@) == gguf_unfound(names_of(names@), (5 + 13 * config.num_hidden_layers) as nat),
{
    let ghost ns = names_of(names@);
    let mut conversions: Vec<(String, String, usize, usize)> = Vec::new();
    let mut unfound: Vec<String> = Vec::new();
    let mut k: usize = 0;
    while k < 5
        invariant
            k <= 5,
            ns == names_of(names@),
            conversions@.map_values(|t: (String, String, usize, usize)| conversion_view(t)) == gguf_plan(*config, ns, k as nat),
            names_of(unfound@) == gguf_unfound(ns, k as nat),
        decreases 5 - k,
    {
        let (role, lits, rows, cols, required) = model_request(k);
        let cands = owned_names(&lits);
        let role_name: String = role.to_owned();
        let found = push_conversion(names, &mut conversions, role_name, &cands, dim_value(config, rows), dim_value(config, cols));
        if required && !found {
            let ghost prev = unfound@;
            unfound.push(role.to_owned());
            assert(names_of(unfound@) =~= names_of(prev).push(role@));
        }
        k += 1;
    }
    let n: usize = config.num_hidden_layers;
    let mut layer: usize = 0;
    while layer < n
        invariant
            layer <= n,
            n == config.num_hidden_layers,
            n > 0 ==> layer_dims_fit(*config),
            ns == names_of(names@),
            conversions@.map_values(|t: (String, String, usize, usize)| conversion_view(t)) == gguf_plan(
                *config,
                ns,
                (5 + 13 * layer) as nat,
            ),
            names_of(unfound@) == gguf_unfound(ns, (5 + 13 * layer) as nat),
        decreases n - layer,
    {
        let mut j: usize = 0;
        while j < 13
            invariant
                j <= 13,
                layer < n,
                layer_dims_fit(*config),
                ns == names_of(names@),
                conversions@.map_values(|t: (String, String, usize, usize)| conversion_view(t)) == gguf_plan(
                    *config,
                    ns,
                    (5 + 13 * layer + j) as nat,
                ),
                names_of(unfound@) == gguf_unfound(ns, (5 + 13 * layer + j) as nat),
            decreases 13 - j,
        {
            let (role, gguf, hf, rows, cols, required) = layer_request(j);
            let mut cands: Vec<String> = Vec::new();
            cands.push(layer_name("blk.", layer, gguf));
            cands.push(layer_name("model.layers.", layer, hf));
            let label = layer_name("layers.", layer, role);
            let ghost q: int = 5 + 13 * layer + j;
            proof {
                assert((q - 5) / 13 == layer as int) by (nonlinear_arith)
                    requires q == 5 + 13 * layer + j, 0 <= j < 13;
                assert((q - 5) % 13 == j as int) by (nonlinear_arith)
                    requires q == 5 + 13 * layer + j, 0 <= j < 13;
                assert(names_of(cands@) =~= gguf_request(q).1);
                assert(label@ == gguf_request(q).0);
            }
            let ghost label_view = label@;
            let found = push_conversion(names, &mut conversions, label, &cands, dim_value(config, rows), dim_value(config, cols));
            if required && !found {
                let ghost prev = unfound@;
                unfound.push(layer_name("layers.", layer, role));
                assert(names_of(unfound@) =~= names_of(prev).push(label_view));
            }
            assert((q + 1) as nat == (5 + 13 * layer + (j + 1)) as nat);
            j += 1;
        }
        assert((5 + 13 * layer + 13) == 5 + 13 * (layer + 1));
        layer += 1;
    }
    (conversions, unfound)
}

} // verus!
