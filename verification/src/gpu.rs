//! GPU-side bookkeeping: the persistent KV buffer, the description of the
//! backend in use, and the sizing and packing of storage buffers.

use vstd::prelude::*;

verus! {

/// Description of the GPU adapter and backend in use.
#[derive(Debug, Clone, PartialEq, Eq)]
pub struct GpuBackendInfo {
    pub adapter_name: String,
    pub backend: String,
    pub device_type: String,
}

/// KV storage kept resident in GPU memory.
#[derive(Debug)]
pub struct PersistentGpuKvBuffer {
    pub capacity_bytes: u64,
    pub resident_vram_active: bool,
}

impl PersistentGpuKvBuffer {
    /// A resident buffer of `capacity_bytes`.
    pub fn new(capacity_bytes: u64) -> (r: Self)
        ensures
            r.capacity_bytes == capacity_bytes,
            r.resident_vram_active,
    {
        PersistentGpuKvBuffer { capacity_bytes, resident_vram_active: true }
    }
}

/// The byte at `i`, zero past the end.
pub open spec fn byte_or_zero(b: Seq<u8>, i: int) -> int {
    if 0 <= i < b.len() {
        b[i] as int
    } else {
        0
    }
}

/// The little-endian word made of bytes `4w` to `4w + 3`.
pub open spec fn word_at(b: Seq<u8>, w: int) -> int {
    byte_or_zero(b, 4 * w) + 256 * byte_or_zero(b, 4 * w + 1) + 65536 * byte_or_zero(b, 4 * w + 2) + 16777216
        * byte_or_zero(b, 4 * w + 3)
}

/// Packs bytes into little-endian 32-bit words, four to a word, the last word
/// padded with zero bytes.
pub fn pack_bytes_to_words(bytes: &[u8]) -> (r: Vec<u32>)
    ensures
        r@.len() == (bytes@.len() + 3) / 4,
        forall|w: int| 0 <= w < r@.len() ==> #[trigger] r@[w] as int == word_at(bytes@, w),
{
    let mut out: Vec<u32> = Vec::new();
    let len: usize = bytes.len();
    let n_words: usize = len / 4 + if len % 4 != 0 { 1 } else { 0 };
    assert(n_words == (bytes@.len() + 3) / 4);
    let mut w: usize = 0;
    while w < n_words
        invariant
            w <= n_words,
            len == bytes@.len(),
            n_words == (bytes@.len() + 3) / 4,
            out@.len() == w,
            forall|k: int| 0 <= k < out@.len() ==> #[trigger] out@[k] as int == word_at(bytes@, k),
        decreases n_words - w,
    {
        assert(4 * w < bytes@.len()) by (nonlinear_arith)
            requires w < n_words, n_words == (len + 3) / 4, len == bytes@.len();
        let i: usize = 4 * w;
        let b0: u32 = bytes[i] as u32;
        let b1: u32 = if i + 1 < bytes.len() { bytes[i + 1] as u32 } else { 0 };
        let b2: u32 = if i + 2 < bytes.len() { bytes[i + 2] as u32 } else { 0 };
        let b3: u32 = if i + 3 < bytes.len() { bytes[i + 3] as u32 } else { 0 };
        let word: u32 = b0 + 256 * b1 + 65536 * b2 + 16777216 * b3;
        let ghost prev = out@;
        out.push(word);
        assert(word as int == word_at(bytes@, w as int));
        assert(forall|k: int| 0 <= k < prev.len() ==> out@[k] == prev[k]);
        w += 1;
    }
    out
}

/// The size in bytes of a buffer of `elements` 32-bit floats, if it fits in a
/// `usize`.
pub fn buffer_bytes(elements: usize) -> (r: Option<u64>)
    ensures
        r == (if elements * 4 <= usize::MAX {
            Some((elements * 4) as u64)
        } else {
            None::<u64>
        }),
{
    match elements.checked_mul(4) {
        Some(b) => Some(b as u64),
        None => None,
    }
}

/// Why a storage buffer does not fit the device.
#[derive(Debug, Clone, Copy, PartialEq, Eq)]
pub enum BufferLimitError {
    /// Larger than the device's largest buffer.
    MaxBufferSize { bytes: u64, limit: u64 },
    /// Larger than the device's largest storage binding.
    MaxStorageBinding { bytes: u64, limit: u64 },
}

/// Checks a storage buffer of `bytes` bytes against the device's largest
/// buffer and largest storage binding, in that order.
pub fn validate_storage_buffer(bytes: u64, max_buffer_size: u64, max_storage_buffer_binding_size: u64) -> (r: Result<(), BufferLimitError>)
    ensures
        r == (if bytes > max_buffer_size {
            Err(BufferLimitError::MaxBufferSize { bytes, limit: max_buffer_size })
        } else if bytes > max_storage_buffer_binding_size {
            Err(BufferLimitError::MaxStorageBinding { bytes, limit: max_storage_buffer_binding_size })
        } else {
            Ok::<(), BufferLimitError>(())
        }),
{
    if bytes > max_buffer_size {
        return Err(BufferLimitError::MaxBufferSize { bytes, limit: max_buffer_size });
    }
    if bytes > max_storage_buffer_binding_size {
        return Err(BufferLimitError::MaxStorageBinding { bytes, limit: max_storage_buffer_binding_size });
    }
    Ok(())
}

} // verus!
