//! Lossless compression cascade: six reversible byte-stream stages (tokenizer,
//! chunk deduplication, delta coding, run-length coding, frequency reordering and
//! zlib) chained into a pipeline, plus a tiered model fallback chain.

use std::collections::HashMap;
use vstd::prelude::*;
use vstd::string::StringExecFns;

verus! {

broadcast use vstd::std_specs::hash::group_hash_axioms;

/// Why a stage or the fallback chain gave up.
#[derive(Debug, Clone, Copy, PartialEq, Eq, Structural)]
pub enum CascadeError {
    /// More distinct words than a 16-bit vocabulary index can hold.
    VocabularyTooLarge,
    /// Input longer than a 16-bit length header can record.
    InputTooLarge,
    /// Compressed input shorter than the stage's fixed header.
    InputTooShort,
    /// Compressed input ends in the middle of a field.
    UnexpectedEof,
    /// A vocabulary word is not valid UTF-8.
    InvalidUtf8,
    /// A token id or reordering index points past its table.
    IndexOutOfRange,
    /// A back-reference names a chunk that was never stored.
    MissingReference,
    /// The zlib stream could not be produced or read back.
    Zlib,
    /// Every model endpoint failed or has its circuit breaker open.
    AllEndpointsFailed,
}

/// Result of a stage over byte sequences.
pub type StageResult = Result<Seq<u8>, CascadeError>;

/// The byte sequence inside an executable stage result.
pub open spec fn result_view(r: Result<Vec<u8>, CascadeError>) -> StageResult {
    match r {
        Ok(v) => Ok(v@),
        Err(e) => Err(e),
    }
}

/// Big-endian encoding of a 16-bit quantity.
pub open spec fn be16(n: int) -> Seq<u8> {
    seq![(n / 256) as u8, (n % 256) as u8]
}

/// Big-endian 16-bit quantity read at `i`.
pub open spec fn read_be16(d: Seq<u8>, i: int) -> int {
    d[i] as int * 256 + d[i + 1] as int
}

/// Appends every byte of `src` to `out`.
pub(crate) fn push_all(out: &mut Vec<u8>, src: &[u8])
    ensures
        final(out)@ == old(out)@ + src@,
{
    let mut i: usize = 0;
    while i < src.len()
        invariant
            i <= src@.len(),
            out@ == old(out)@ + src@.subrange(0, i as int),
        decreases src@.len() - i,
    {
        out.push(src[i]);
        i += 1;
        assert(src@.subrange(0, i as int) =~= src@.subrange(0, i - 1).push(src@[i - 1]));
    }
    assert(src@.subrange(0, src@.len() as int) =~= src@);
}

/// Appends the big-endian header for `n`.
fn push_be16(out: &mut Vec<u8>, n: usize)
    requires
        n <= 65535,
    ensures
        final(out)@ == old(out)@ + be16(n as int),
{
    out.push((n / 256) as u8);
    out.push((n % 256) as u8);
    assert(final(out)@ =~= old(out)@ + be16(n as int));
}

// ---------------------------------------------------------------------------
// Delta coding
// ---------------------------------------------------------------------------

/// Difference of two bytes modulo 256.
pub open spec fn byte_delta(a: u8, b: u8) -> u8 {
    ((a as int - b as int) % 256) as u8
}

/// First byte, then each byte's difference from its predecessor.
pub open spec fn delta_body(d: Seq<u8>) -> Seq<u8> {
    Seq::new(d.len(), |i: int| if i == 0 { d[0] } else { byte_delta(d[i], d[i - 1]) })
}

/// What delta compression produces.
pub open spec fn delta_compress_spec(d: Seq<u8>) -> StageResult {
    if d.len() == 0 {
        Ok(seq![0u8, 0u8])
    } else if d.len() > 65535 {
        Err(CascadeError::InputTooLarge)
    } else {
        Ok(be16(d.len() as int) + delta_body(d))
    }
}

/// Running sum modulo 256 of the deltas stored after the header: byte `j` of the
/// decoded output.
pub open spec fn undelta(d: Seq<u8>, j: int) -> u8
    decreases j,
{
    if j <= 0 {
        d[2]
    } else {
        ((undelta(d, j - 1) as int + d[2 + j] as int) % 256) as u8
    }
}

/// What delta decompression produces.
pub open spec fn delta_decompress_spec(d: Seq<u8>) -> StageResult {
    if d.len() < 2 {
        Err(CascadeError::InputTooShort)
    } else if read_be16(d, 0) == 0 {
        Ok(Seq::empty())
    } else if d.len() < 2 + read_be16(d, 0) {
        Err(CascadeError::UnexpectedEof)
    } else {
        Ok(Seq::new(read_be16(d, 0) as nat, |j: int| undelta(d, j)))
    }
}

/// Delta coding: each byte replaced by its difference from the one before.
pub struct Level3Delta;

impl Level3Delta {
    pub fn compress(&self, data: &[u8]) -> (r: Result<Vec<u8>, CascadeError>)
        ensures
            result_view(r) == delta_compress_spec(data@),
    {
        let mut out: Vec<u8> = Vec::new();
        if data.len() == 0 {
            out.push(0);
            out.push(0);
            assert(out@ =~= seq![0u8, 0u8]);
            return Ok(out);
        }
        if data.len() > 65535 {
            return Err(CascadeError::InputTooLarge);
        }
        push_be16(&mut out, data.len());
        out.push(data[0]);
        let ghost hdr = be16(data@.len() as int);
        let mut i: usize = 1;
        while i < data.len()
            invariant
                1 <= i <= data@.len(),
                hdr == be16(data@.len() as int),
                out@ == hdr + delta_body(data@).subrange(0, i as int),
            decreases data@.len() - i,
        {
            let a: u8 = data[i];
            let b: u8 = data[i - 1];
            let delta: u8 = if a >= b { a - b } else { (256 - b as u16 + a as u16) as u8 };
            assert(delta == byte_delta(a, b));
            out.push(delta);
            i += 1;
            assert(delta_body(data@).subrange(0, i as int) =~= delta_body(data@).subrange(
                0,
                i - 1,
            ).push(delta));
        }
        assert(delta_body(data@).subrange(0, data@.len() as int) =~= delta_body(data@));
        Ok(out)
    }

    pub fn decompress(&self, data: &[u8]) -> (r: Result<Vec<u8>, CascadeError>)
        ensures
            result_view(r) == delta_decompress_spec(data@),
    {
        if data.len() < 2 {
            return Err(CascadeError::InputTooShort);
        }
        let orig_len: usize = data[0] as usize * 256 + data[1] as usize;
        if orig_len == 0 {
            return Ok(Vec::new());
        }
        if data.len() - 2 < orig_len {
            return Err(CascadeError::UnexpectedEof);
        }
        let mut result: Vec<u8> = Vec::new();
        let mut last: u8 = data[2];
        result.push(last);
        let mut j: usize = 1;
        while j < orig_len
            invariant
                1 <= j <= orig_len,
                orig_len == read_be16(data@, 0),
                2 + orig_len <= data@.len(),
                result@.len() == j,
                last == undelta(data@, j - 1),
                forall|k: int| 0 <= k < j ==> #[trigger] result@[k] == undelta(data@, k),
            decreases orig_len - j,
        {
            let next: u8 = ((last as u16 + data[2 + j] as u16) % 256) as u8;
            result.push(next);
            last = next;
            j += 1;
        }
        assert(result@ =~= Seq::new(orig_len as nat, |k: int| undelta(data@, k)));
        Ok(result)
    }
}

/// Delta decoding restores every input that delta coding accepts.
pub proof fn lemma_delta_round_trip(d: Seq<u8>)
    requires
        d.len() <= 65535,
    ensures
        delta_compress_spec(d) matches Ok(c) && delta_decompress_spec(c) == Ok::<Seq<u8>, CascadeError>(d),
{
    if d.len() > 0 {
        let c = be16(d.len() as int) + delta_body(d);
        assert(read_be16(c, 0) == d.len());
        assert forall|j: int| 0 <= j < d.len() implies undelta(c, j) == d[j] by {
            lemma_undelta(d, c, j);
        }
        assert(Seq::new(d.len(), |j: int| undelta(c, j)) =~= d);
    } else {
        assert(read_be16(seq![0u8, 0u8], 0) == 0);
        assert(Seq::<u8>::empty() =~= d);
    }
}

proof fn lemma_undelta(d: Seq<u8>, c: Seq<u8>, j: int)
    requires
        0 <= j < d.len() <= 65535,
        c == be16(d.len() as int) + delta_body(d),
    ensures
        undelta(c, j) == d[j],
    decreases j,
{
    if j > 0 {
        lemma_undelta(d, c, j - 1);
        assert(c[2 + j] == byte_delta(d[j], d[j - 1]));
        assert(((d[j - 1] as int + ((d[j] as int - d[j - 1] as int) % 256)) % 256) == d[j] as int) by (nonlinear_arith)
            requires 0 <= d[j] < 256, 0 <= d[j - 1] < 256;
    }
}

// ---------------------------------------------------------------------------
// Run-length coding
// ---------------------------------------------------------------------------

/// Length of the run of bytes equal to `d[i]` that starts at `i`, counted from
/// `c` on and capped at 255.
pub open spec fn run_ext(d: Seq<u8>, i: int, c: int) -> int
    decreases 255 - c,
{
    if c < 255 && i + c < d.len() && d[i + c] == d[i] {
        run_ext(d, i, c + 1)
    } else {
        c
    }
}

/// Length of the (capped) run that starts at `i`.
pub open spec fn run_len(d: Seq<u8>, i: int) -> int {
    run_ext(d, i, 1)
}

/// A literal byte: 0xFF is escaped as a run of one.
pub open spec fn rle_literal(b: u8) -> Seq<u8> {
    if b == 0xFF {
        seq![0xFFu8, 1u8, 0xFFu8]
    } else {
        seq![b]
    }
}

/// Code for a run of `c` copies of `b`: a run marker from three copies on.
pub open spec fn rle_token(b: u8, c: int) -> Seq<u8> {
    if c >= 3 {
        seq![0xFFu8, c as u8, b]
    } else if c == 2 {
        rle_literal(b) + rle_literal(b)
    } else {
        rle_literal(b)
    }
}

/// Codes of the runs from position `i` on.
pub open spec fn rle_body(d: Seq<u8>, i: int) -> Seq<u8>
    decreases d.len() - i,
{
    if i < 0 || i >= d.len() {
        Seq::empty()
    } else {
        let c = run_len(d, i);
        if 1 <= c && i + c <= d.len() {
            rle_token(d[i], c) + rle_body(d, i + c)
        } else {
            Seq::empty()
        }
    }
}

/// What run-length compression produces.
pub open spec fn rle_compress_spec(d: Seq<u8>) -> StageResult {
    if d.len() == 0 {
        Ok(seq![0u8, 0u8])
    } else if d.len() > 65535 {
        Err(CascadeError::InputTooLarge)
    } else {
        Ok(be16(d.len() as int) + rle_body(d, 0))
    }
}

/// Decoding from position `i` with output `res` so far, stopping at the end of
/// the input or once `orig` bytes are out.
pub open spec fn rle_decode_from(d: Seq<u8>, i: int, res: Seq<u8>, orig: int) -> Seq<u8>
    decreases d.len() - i,
{
    if 0 <= i < d.len() && res.len() < orig {
        if d[i] == 0xFF && i + 2 < d.len() {
            rle_decode_from(d, i + 3, res + Seq::new(d[i + 1] as nat, |k: int| d[i + 2]), orig)
        } else {
            rle_decode_from(d, i + 1, res.push(d[i]), orig)
        }
    } else {
        res
    }
}

/// First `n` bytes of `s`, or all of it.
pub open spec fn truncated(s: Seq<u8>, n: int) -> Seq<u8> {
    if n <= s.len() {
        s.subrange(0, n)
    } else {
        s
    }
}

/// What run-length decompression produces.
pub open spec fn rle_decompress_spec(d: Seq<u8>) -> StageResult {
    if d.len() < 2 {
        Err(CascadeError::InputTooShort)
    } else if read_be16(d, 0) == 0 {
        Ok(Seq::empty())
    } else {
        Ok(truncated(rle_decode_from(d, 2, Seq::empty(), read_be16(d, 0)), read_be16(d, 0)))
    }
}

proof fn lemma_run_ext(d: Seq<u8>, i: int, c: int)
    requires
        0 <= i,
        1 <= c <= 255,
        i + c <= d.len(),
        forall|j: int| 0 <= j < c ==> #[trigger] d[i + j] == d[i],
    ensures
        c <= run_ext(d, i, c) <= 255,
        i + run_ext(d, i, c) <= d.len(),
        forall|j: int| 0 <= j < run_ext(d, i, c) ==> #[trigger] d[i + j] == d[i],
    decreases 255 - c,
{
    if c < 255 && i + c < d.len() && d[i + c] == d[i] {
        assert forall|j: int| 0 <= j < c + 1 implies #[trigger] d[i + j] == d[i] by {
            if j < c {
            }
        }
        lemma_run_ext(d, i, c + 1);
    }
}

proof fn lemma_run_len(d: Seq<u8>, i: int)
    requires
        0 <= i < d.len(),
    ensures
        1 <= run_len(d, i) <= 255,
        i + run_len(d, i) <= d.len(),
        forall|j: int| 0 <= j < run_len(d, i) ==> #[trigger] d[i + j] == d[i],
{
    assert forall|j: int| 0 <= j < 1 implies #[trigger] d[i + j] == d[i] by {
        assert(j == 0);
    }
    lemma_run_ext(d, i, 1);
}

/// Run-length coding of repeated bytes.
pub struct Level4Rle;

impl Level4Rle {
    pub fn compress(&self, data: &[u8]) -> (r: Result<Vec<u8>, CascadeError>)
        ensures
            result_view(r) == rle_compress_spec(data@),
    {
        let mut out: Vec<u8> = Vec::new();
        if data.len() == 0 {
            out.push(0);
            out.push(0);
            assert(out@ =~= seq![0u8, 0u8]);
            return Ok(out);
        }
        if data.len() > 65535 {
            return Err(CascadeError::InputTooLarge);
        }
        push_be16(&mut out, data.len());
        let ghost hdr = be16(data@.len() as int);
        let mut i: usize = 0;
        while i < data.len()
            invariant
                i <= data@.len() <= 65535,
                hdr == be16(data@.len() as int),
                hdr + rle_body(data@, 0) == out@ + rle_body(data@, i as int),
            decreases data@.len() - i,
        {
            let b: u8 = data[i];
            let mut count: usize = 1;
            while i + count < data.len() && data[i + count] == b && count < 255
                invariant
                    i < data@.len() <= 65535,
                    b == data@[i as int],
                    1 <= count <= 255,
                    i + count <= data@.len(),
                    run_ext(data@, i as int, count as int) == run_len(data@, i as int),
                decreases 255 - count,
            {
                count += 1;
            }
            proof {
                lemma_run_len(data@, i as int);
            }
            let ghost before = out@;
            if count >= 3 {
                out.push(0xFF);
                out.push(count as u8);
                out.push(b);
                assert(out@ =~= before + rle_token(b, count as int));
            } else {
                let mut j: usize = 0;
                while j < count
                    invariant
                        j <= count <= 2,
                        out@ == before + (if j == 0 {
                            Seq::empty()
                        } else if j == 1 {
                            rle_literal(b)
                        } else {
                            rle_literal(b) + rle_literal(b)
                        }),
                    decreases count - j,
                {
                    let ghost mid = out@;
                    if b == 0xFF {
                        out.push(0xFF);
                        out.push(0x01);
                        out.push(0xFF);
                    } else {
                        out.push(b);
                    }
                    assert(out@ =~= mid + rle_literal(b));
                    j += 1;
                    if j == 2 {
                        assert(before + rle_literal(b) + rle_literal(b) =~= before + (rle_literal(b)
                            + rle_literal(b)));
                    }
                }
                assert(out@ =~= before + rle_token(b, count as int));
            }
            assert(rle_body(data@, i as int) == rle_token(b, count as int) + rle_body(
                data@,
                i + count,
            ));
            assert(before + rle_body(data@, i as int) =~= out@ + rle_body(data@, i + count));
            i += count;
        }
        assert(rle_body(data@, data@.len() as int) =~= Seq::<u8>::empty());
        assert(out@ + Seq::<u8>::empty() =~= out@);
        Ok(out)
    }

    pub fn decompress(&self, data: &[u8]) -> (r: Result<Vec<u8>, CascadeError>)
        ensures
            result_view(r) == rle_decompress_spec(data@),
    {
        if data.len() < 2 {
            return Err(CascadeError::InputTooShort);
        }
        let orig_len: usize = data[0] as usize * 256 + data[1] as usize;
        if orig_len == 0 {
            return Ok(Vec::new());
        }
        let mut result: Vec<u8> = Vec::new();
        let mut i: usize = 2;
        while i < data.len() && result.len() < orig_len
            invariant
                2 <= i,
                orig_len == read_be16(data@, 0),
                result@.len() <= orig_len + 255,
                rle_decode_from(data@, 2, Seq::empty(), orig_len as int) == rle_decode_from(
                    data@,
                    i as int,
                    result@,
                    orig_len as int,
                ),
            decreases data@.len() - i,
        {
            if data[i] == 0xFF && data.len() - i > 2 {
                let count: u8 = data[i + 1];
                let val: u8 = data[i + 2];
                let ghost before = result@;
                let mut k: u8 = 0;
                while k < count
                    invariant
                        k <= count,
                        result@ == before + Seq::new(k as nat, |m: int| val),
                    decreases count - k,
                {
                    result.push(val);
                    k += 1;
                    assert(result@ =~= before + Seq::new(k as nat, |m: int| val));
                }
                assert(Seq::new(count as nat, |m: int| val) =~= Seq::new(
                    data@[i + 1] as nat,
                    |m: int| data@[i + 2],
                ));
                i += 3;
            } else {
                result.push(data[i]);
                i += 1;
            }
        }
        let ghost full = result@;
        result.truncate(orig_len);
        assert(result@ == truncated(full, orig_len as int));
        Ok(result)
    }
}

proof fn lemma_literal_step(s: Seq<u8>, p: int, b: u8, rest: Seq<u8>, res: Seq<u8>, orig: int)
    requires
        0 <= p <= s.len(),
        s.subrange(p, s.len() as int) == rle_literal(b) + rest,
        res.len() < orig,
    ensures
        rle_decode_from(s, p, res, orig) == rle_decode_from(s, p + rle_literal(b).len(), res.push(b), orig),
        s.subrange(p + rle_literal(b).len(), s.len() as int) == rest,
{
    let t = s.subrange(p, s.len() as int);
    assert(t.len() == rle_literal(b).len() + rest.len());
    assert(t[0] == s[p]);
    if b == 0xFF {
        assert(t[1] == s[p + 1] && t[2] == s[p + 2]);
        assert(Seq::new(s[p + 1] as nat, |k: int| s[p + 2]) =~= seq![b]);
        assert(res + seq![b] =~= res.push(b));
    }
    assert(s.subrange(p + rle_literal(b).len(), s.len() as int) =~= t.subrange(
        rle_literal(b).len() as int,
        t.len() as int,
    ));
    assert(t.subrange(rle_literal(b).len() as int, t.len() as int) =~= rest);
}

proof fn lemma_rle_decode_body(d: Seq<u8>, i: int, s: Seq<u8>, p: int, res: Seq<u8>)
    requires
        0 <= i <= d.len(),
        0 <= p <= s.len(),
        s.subrange(p, s.len() as int) == rle_body(d, i),
        res == d.subrange(0, i),
    ensures
        rle_decode_from(s, p, res, d.len() as int) == d,
    decreases d.len() - i,
{
    let orig = d.len() as int;
    if i == d.len() {
        assert(s.subrange(p, s.len() as int).len() == 0);
        assert(res =~= d);
    } else {
        lemma_run_len(d, i);
        let c = run_len(d, i);
        let b = d[i];
        let rest = rle_body(d, i + c);
        assert(s.subrange(p, s.len() as int) == rle_token(b, c) + rest);
        if c >= 3 {
            let t = s.subrange(p, s.len() as int);
            assert(t.len() == 3 + rest.len());
            assert(t[0] == s[p] && t[1] == s[p + 1] && t[2] == s[p + 2]);
            assert(s[p + 1] as int == c);
            assert(s[p + 2] == b);
            let run = Seq::new(s[p + 1] as nat, |k: int| s[p + 2]);
            assert forall|k: int| 0 <= k < i + c implies #[trigger] (res + run)[k] == d[k] by {
                if k >= i {
                    assert(d[i + (k - i)] == b);
                }
            }
            assert(res + run =~= d.subrange(0, i + c));
            assert(s.subrange(p + 3, s.len() as int) =~= t.subrange(3, t.len() as int));
            assert(t.subrange(3, t.len() as int) =~= rest);
            lemma_rle_decode_body(d, i + c, s, p + 3, d.subrange(0, i + c));
        } else if c == 2 {
            assert(d[i + 1] == b);
            assert(rle_token(b, c) + rest =~= rle_literal(b) + (rle_literal(b) + rest));
            lemma_literal_step(s, p, b, rle_literal(b) + rest, res, orig);
            let p1 = p + rle_literal(b).len();
            assert(res.push(b) =~= d.subrange(0, i + 1));
            lemma_literal_step(s, p1, b, rest, res.push(b), orig);
            assert(res.push(b).push(b) =~= d.subrange(0, i + 2));
            lemma_rle_decode_body(d, i + 2, s, p1 + rle_literal(b).len(), d.subrange(0, i + 2));
        } else {
            lemma_literal_step(s, p, b, rest, res, orig);
            assert(res.push(b) =~= d.subrange(0, i + 1));
            lemma_rle_decode_body(d, i + 1, s, p + rle_literal(b).len(), d.subrange(0, i + 1));
        }
    }
}

/// Run-length decoding restores every input that run-length coding accepts.
pub proof fn lemma_rle_round_trip(d: Seq<u8>)
    requires
        d.len() <= 65535,
    ensures
        rle_compress_spec(d) matches Ok(c) && rle_decompress_spec(c) == Ok::<Seq<u8>, CascadeError>(d),
{
    if d.len() > 0 {
        let c = be16(d.len() as int) + rle_body(d, 0);
        assert(read_be16(c, 0) == d.len());
        assert(c.subrange(2, c.len() as int) =~= rle_body(d, 0));
        assert(d.subrange(0, 0) =~= Seq::<u8>::empty());
        lemma_rle_decode_body(d, 0, c, 2, Seq::empty());
        assert(d.subrange(0, d.len() as int) =~= d);
    } else {
        assert(read_be16(seq![0u8, 0u8], 0) == 0);
        assert(Seq::<u8>::empty() =~= d);
    }
}

// ---------------------------------------------------------------------------
// Chunk deduplication
// ---------------------------------------------------------------------------

/// The `k`-th chunk of four bytes (the last one may be shorter).
pub open spec fn chunk_at(d: Seq<u8>, k: int) -> Seq<u8> {
    if 4 * k + 4 <= d.len() {
        d.subrange(4 * k, 4 * k + 4)
    } else {
        d.subrange(4 * k, d.len() as int)
    }
}

/// Position of `x` in `s` (its last occurrence; `s.len()` when absent).
pub open spec fn pos_in(s: Seq<Seq<u8>>, x: Seq<u8>) -> int
    decreases s.len(),
{
    if s.len() == 0 {
        0
    } else if s.last() == x {
        s.len() - 1
    } else {
        pos_in(s.drop_last(), x)
    }
}

/// Codes of the chunks from the `k`-th on, given the full chunks stored so far.
/// A full chunk seen before becomes a reference to its position; any other
/// chunk is a literal, and a full literal is stored.
pub open spec fn dedup_body(d: Seq<u8>, k: int, seen: Seq<Seq<u8>>) -> Seq<u8>
    decreases d.len() + 4 - 4 * k,
{
    if k < 0 || 4 * k >= d.len() {
        Seq::empty()
    } else {
        let c = chunk_at(d, k);
        if c.len() == 4 && seen.contains(c) {
            seq![0xFFu8] + be16(pos_in(seen, c)) + dedup_body(d, k + 1, seen)
        } else {
            seq![c.len() as u8] + c + dedup_body(
                d,
                k + 1,
                if c.len() == 4 {
                    seen.push(c)
                } else {
                    seen
                },
            )
        }
    }
}

/// What chunk deduplication produces.
pub open spec fn dedup_compress_spec(d: Seq<u8>) -> StageResult {
    if d.len() > 65535 {
        Err(CascadeError::InputTooLarge)
    } else {
        Ok(be16(d.len() as int) + dedup_body(d, 0, Seq::empty()))
    }
}

/// Decoding of codes from position `i`, with the chunks stored so far and the
/// output so far; `None` where the 16-bit count of stored chunks would overflow.
pub open spec fn dedup_decode_from(d: Seq<u8>, i: int, seen: Seq<Seq<u8>>, res: Seq<u8>) -> Option<StageResult>
    decreases d.len() - i,
{
    if i < 0 || i >= d.len() {
        Some(Ok(res))
    } else if d[i] == 0xFF {
        if i + 3 > d.len() {
            Some(Err(CascadeError::UnexpectedEof))
        } else if read_be16(d, i + 1) >= seen.len() {
            Some(Err(CascadeError::MissingReference))
        } else {
            dedup_decode_from(d, i + 3, seen, res + seen[read_be16(d, i + 1)])
        }
    } else {
        let n = d[i] as int;
        let c = d.subrange(i + 1, i + 1 + n);
        if i + 1 + n > d.len() {
            Some(Err(CascadeError::UnexpectedEof))
        } else if n == 4 && seen.len() >= 65535 {
            None
        } else {
            dedup_decode_from(
                d,
                i + 1 + n,
                if n == 4 {
                    seen.push(c)
                } else {
                    seen
                },
                res + c,
            )
        }
    }
}

/// What chunk reconstruction produces; `None` on the inputs that store more
/// chunks than a 16-bit counter holds.
pub open spec fn dedup_decompress_spec(d: Seq<u8>) -> Option<StageResult> {
    if d.len() < 2 {
        Some(Err(CascadeError::InputTooShort))
    } else {
        match dedup_decode_from(d, 2, Seq::empty(), Seq::empty()) {
            Some(Ok(res)) => Some(Ok(truncated(res, read_be16(d, 0)))),
            other => other,
        }
    }
}

/// Key of a four-byte chunk.
pub open spec fn chunk_key(c: Seq<u8>) -> u32 {
    (c[0] as int * 16777216 + c[1] as int * 65536 + c[2] as int * 256 + c[3] as int) as u32
}

proof fn lemma_chunk_key_injective(a: Seq<u8>, b: Seq<u8>)
    requires
        a.len() == 4,
        b.len() == 4,
        chunk_key(a) == chunk_key(b),
    ensures
        a == b,
{
    let ka = a[0] as int * 16777216 + a[1] as int * 65536 + a[2] as int * 256 + a[3] as int;
    let kb = b[0] as int * 16777216 + b[1] as int * 65536 + b[2] as int * 256 + b[3] as int;
    assert(ka == kb);
    assert(a[0] == b[0]);
    assert(a[1] == b[1]);
    assert(a[2] == b[2]);
    assert(a =~= b);
}

proof fn lemma_pos_in(s: Seq<Seq<u8>>, j: int)
    requires
        0 <= j < s.len(),
        forall|a: int, b: int| 0 <= a < b < s.len() ==> s[a] != s[b],
    ensures
        pos_in(s, s[j]) == j,
    decreases s.len(),
{
    if j < s.len() - 1 {
        assert(s.drop_last()[j] == s[j]);
        lemma_pos_in(s.drop_last(), j);
    }
}

/// Deduplication of repeated four-byte chunks.
pub struct Level2PrefixSuffix;

impl Level2PrefixSuffix {
    pub fn compress(&self, data: &[u8]) -> (r: Result<Vec<u8>, CascadeError>)
        ensures
            result_view(r) == dedup_compress_spec(data@),
    {
        if data.len() > 65535 {
            return Err(CascadeError::InputTooLarge);
        }
        let mut out: Vec<u8> = Vec::new();
        push_be16(&mut out, data.len());
        let ghost hdr = be16(data@.len() as int);
        let mut seen: HashMap<u32, u16> = HashMap::new();
        let ghost mut stored: Seq<Seq<u8>> = Seq::empty();
        let mut count: u16 = 0;
        let mut k: usize = 0;
        while k * 4 < data.len()
            invariant
                4 * k <= data@.len() + 3,
                data@.len() <= 65535,
                hdr == be16(data@.len() as int),
                hdr + dedup_body(data@, 0, Seq::empty()) == out@ + dedup_body(data@, k as int, stored),
                count as int == stored.len(),
                stored.len() <= k,
                forall|j: int| 0 <= j < stored.len() ==> (#[trigger] stored[j]).len() == 4,
                forall|j: int|
                    0 <= j < stored.len() ==> seen@.contains_key(chunk_key(#[trigger] stored[j]))
                        && seen@[chunk_key(stored[j])] as int == j,
                forall|key: u32|
                    #[trigger] seen@.contains_key(key) ==> seen@[key] < stored.len() && chunk_key(
                        stored[seen@[key] as int],
                    ) == key,
            decreases data@.len() + 4 - 4 * k,
        {
            let i: usize = k * 4;
            let end: usize = if data.len() - i >= 4 { i + 4 } else { data.len() };
            let ghost c = chunk_at(data@, k as int);
            assert(c =~= data@.subrange(i as int, end as int));
            let ghost before = out@;
            if end - i == 4 {
                let key: u32 = data[i] as u32 * 16777216 + data[i + 1] as u32 * 65536 + data[i + 2] as u32
                    * 256 + data[i + 3] as u32;
                assert(key == chunk_key(c));
                proof {
                    if stored.contains(c) {
                        let j = choose|j: int| 0 <= j < stored.len() && stored[j] == c;
                        assert(seen@.contains_key(chunk_key(stored[j])));
                    }
                    if seen@.contains_key(key) {
                        lemma_chunk_key_injective(stored[seen@[key] as int], c);
                        assert(stored.contains(c));
                    }
                }
                match seen.get(&key) {
                    Some(index) => {
                        let index: u16 = *index;
                        proof {
                            assert(stored[index as int] == c);
                            assert forall|a: int, b: int| 0 <= a < b < stored.len() implies stored[a]
                                != stored[b] by {
                                if stored[a] == stored[b] {
                                    assert(seen@[chunk_key(stored[a])] as int == a);
                                }
                            }
                            lemma_pos_in(stored, index as int);
                        }
                        out.push(0xFF);
                        push_be16(&mut out, index as usize);
                        assert(out@ =~= before + (seq![0xFFu8] + be16(pos_in(stored, c))));
                    },
                    None => {
                        seen.insert(key, count);
                        proof {
                            stored = stored.push(c);
                        }
                        count = count + 1;
                        out.push(4);
                        push_all(&mut out, &data[i..end]);
                        assert(out@ =~= before + (seq![c.len() as u8] + c));
                    },
                }
            } else {
                out.push((end - i) as u8);
                push_all(&mut out, &data[i..end]);
                assert(out@ =~= before + (seq![c.len() as u8] + c));
            }
            k += 1;
        }
        assert(dedup_body(data@, k as int, stored) =~= Seq::<u8>::empty());
        assert(out@ + Seq::<u8>::empty() =~= out@);
        Ok(out)
    }

    /// Rebuilds the input, or `None` on the inputs that store more chunks than a
    /// 16-bit counter holds.
    pub fn try_decompress(&self, data: &[u8]) -> (r: Option<Result<Vec<u8>, CascadeError>>)
        ensures
            match r {
                Some(x) => Some(result_view(x)) == dedup_decompress_spec(data@),
                None => dedup_decompress_spec(data@) is None,
            },
    {
        if data.len() < 2 {
            return Some(Err(CascadeError::InputTooShort));
        }
        let orig_len: usize = data[0] as usize * 256 + data[1] as usize;
        let mut offset: usize = 2;
        let mut seen: Vec<Vec<u8>> = Vec::new();
        let mut result: Vec<u8> = Vec::new();
        let ghost total = dedup_decode_from(data@, 2, Seq::empty(), Seq::empty());
        assert(seen@.map_values(|v: Vec<u8>| v@) =~= Seq::<Seq<u8>>::empty());
        while offset < data.len()
            invariant
                2 <= offset,
                total == dedup_decode_from(data@, 2, Seq::empty(), Seq::empty()),
                total == dedup_decode_from(data@, offset as int, seen@.map_values(|v: Vec<u8>| v@), result@),
            decreases data@.len() - offset,
        {
            let ghost sv = seen@.map_values(|v: Vec<u8>| v@);
            let marker: u8 = data[offset];
            if marker == 0xFF {
                if data.len() - offset < 3 {
                    return Some(Err(CascadeError::UnexpectedEof));
                }
                let ref_val: usize = data[offset + 1] as usize * 256 + data[offset + 2] as usize;
                if ref_val >= seen.len() {
                    return Some(Err(CascadeError::MissingReference));
                }
                push_all(&mut result, seen[ref_val].as_slice());
                offset += 3;
            } else {
                let chunk_len: usize = marker as usize;
                if data.len() - offset - 1 < chunk_len {
                    return Some(Err(CascadeError::UnexpectedEof));
                }
                let chunk = vstd::slice::slice_subrange(data, offset + 1, offset + 1 + chunk_len);
                if chunk_len == 4 {
                    if seen.len() >= 65535 {
                        return None;
                    }
                    seen.push(vstd::slice::slice_to_vec(chunk));
                    assert(seen@.map_values(|v: Vec<u8>| v@) =~= sv.push(chunk@));
                }
                push_all(&mut result, chunk);
                offset += 1 + chunk_len;
            }
        }
        let ghost full = result@;
        assert(total == Some(Ok::<Seq<u8>, CascadeError>(full)));
        assert(orig_len == read_be16(data@, 0));
        result.truncate(orig_len);
        assert(result@ == truncated(full, orig_len as int));
        Some(Ok(result))
    }

    pub fn decompress(&self, data: &[u8]) -> (r: Result<Vec<u8>, CascadeError>)
        requires
            dedup_decompress_spec(data@) is Some,
        ensures
            Some(result_view(r)) == dedup_decompress_spec(data@),
    {
        match self.try_decompress(data) {
            Some(r) => r,
            None => {
                proof {
                    assert(false);
                }
                Err(CascadeError::InputTooShort)
            },
        }
    }
}

proof fn lemma_pos_in_contains(s: Seq<Seq<u8>>, x: Seq<u8>)
    requires
        s.contains(x),
    ensures
        0 <= pos_in(s, x) < s.len(),
        s[pos_in(s, x)] == x,
    decreases s.len(),
{
    if s.last() != x {
        let j = choose|j: int| 0 <= j < s.len() && s[j] == x;
        assert(s.drop_last()[j] == x);
        lemma_pos_in_contains(s.drop_last(), x);
    }
}

proof fn lemma_dedup_decode_body(d: Seq<u8>, k: int, s: Seq<u8>, p: int, seen: Seq<Seq<u8>>, res: Seq<u8>)
    requires
        d.len() <= 65535,
        0 <= k,
        4 * k <= d.len() + 3,
        0 <= p <= s.len(),
        s.subrange(p, s.len() as int) == dedup_body(d, k, seen),
        4 * k <= d.len() ==> res == d.subrange(0, 4 * k),
        4 * k > d.len() ==> res == d,
        seen.len() <= k,
        forall|a: int, b: int| 0 <= a < b < seen.len() ==> seen[a] != seen[b],
    ensures
        dedup_decode_from(s, p, seen, res) == Some(Ok::<Seq<u8>, CascadeError>(d)),
    decreases d.len() + 4 - 4 * k,
{
    let t = s.subrange(p, s.len() as int);
    if 4 * k >= d.len() {
        assert(t.len() == 0);
        if 4 * k == d.len() {
            assert(d.subrange(0, 4 * k) =~= d);
        }
    } else {
        let c = chunk_at(d, k);
        let next = if 4 * k + 4 <= d.len() {
            d.subrange(0, 4 * k + 4)
        } else {
            d
        };
        assert(res + c =~= next);
        if c.len() == 4 && seen.contains(c) {
            let q = pos_in(seen, c);
            lemma_pos_in_contains(seen, c);
            let rest = dedup_body(d, k + 1, seen);
            assert(t == seq![0xFFu8] + be16(q) + rest);
            assert(t[0] == s[p] && t[1] == s[p + 1] && t[2] == s[p + 2]);
            assert(read_be16(s, p + 1) == q);
            assert(s.subrange(p + 3, s.len() as int) =~= t.subrange(3, t.len() as int));
            assert(t.subrange(3, t.len() as int) =~= rest);
            lemma_dedup_decode_body(d, k + 1, s, p + 3, seen, next);
        } else {
            let n = c.len() as int;
            let seen2 = if n == 4 {
                seen.push(c)
            } else {
                seen
            };
            let rest = dedup_body(d, k + 1, seen2);
            assert(t == seq![n as u8] + c + rest);
            assert(t[0] == s[p]);
            assert(s.subrange(p + 1, p + 1 + n) =~= c) by {
                assert forall|j: int| 0 <= j < n implies #[trigger] s.subrange(p + 1, p + 1 + n)[j] == c[j] by {
                    assert(t[1 + j] == s[p + 1 + j]);
                }
            }
            assert(s.subrange(p + 1 + n, s.len() as int) =~= t.subrange(1 + n, t.len() as int));
            assert(t.subrange(1 + n, t.len() as int) =~= rest);
            assert forall|a: int, b: int| 0 <= a < b < seen2.len() implies seen2[a] != seen2[b] by {
                if b == seen.len() && n == 4 {
                    assert(seen[a] == seen2[a]);
                    if seen[a] == c {
                        assert(seen.contains(c));
                    }
                }
            }
            lemma_dedup_decode_body(d, k + 1, s, p + 1 + n, seen2, next);
        }
    }
}

/// Chunk reconstruction restores every input that chunk deduplication accepts.
pub proof fn lemma_dedup_round_trip(d: Seq<u8>)
    requires
        d.len() <= 65535,
    ensures
        dedup_compress_spec(d) matches Ok(c) && dedup_decompress_spec(c) == Some(Ok::<Seq<u8>, CascadeError>(d)),
{
    let c = be16(d.len() as int) + dedup_body(d, 0, Seq::empty());
    assert(read_be16(c, 0) == d.len());
    assert(c.subrange(2, c.len() as int) =~= dedup_body(d, 0, Seq::empty()));
    assert(d.subrange(0, 0) =~= Seq::<u8>::empty());
    lemma_dedup_decode_body(d, 0, c, 2, Seq::empty(), Seq::empty());
    assert(d.subrange(0, d.len() as int) =~= d);
}

// ---------------------------------------------------------------------------
// Frequency reordering
// ---------------------------------------------------------------------------

/// Number of occurrences of `b` in `d`.
pub open spec fn occurrences(d: Seq<u8>, b: u8) -> int
    decreases d.len(),
{
    if d.len() == 0 {
        0
    } else {
        occurrences(d.drop_last(), b) + if d.last() == b {
            1int
        } else {
            0int
        }
    }
}

/// In the reordering table of `d`, `a` comes before `b`: more frequent first,
/// equal frequencies by increasing byte value.
pub open spec fn ranks_before(d: Seq<u8>, a: u8, b: u8) -> bool {
    occurrences(d, a) > occurrences(d, b) || (occurrences(d, a) == occurrences(d, b) && a < b)
}

/// `t` lists each byte that occurs in `d` exactly once, in rank order.
pub open spec fn is_rank_table(d: Seq<u8>, t: Seq<u8>) -> bool {
    &&& forall|a: int, b: int| 0 <= a < b < t.len() ==> ranks_before(d, #[trigger] t[a], #[trigger] t[b])
    &&& forall|v: u8| t.contains(v) <==> occurrences(d, v) > 0
}

proof fn lemma_sorted_unique(d: Seq<u8>, t1: Seq<u8>, t2: Seq<u8>)
    requires
        forall|a: int, b: int| 0 <= a < b < t1.len() ==> ranks_before(d, #[trigger] t1[a], #[trigger] t1[b]),
        forall|a: int, b: int| 0 <= a < b < t2.len() ==> ranks_before(d, #[trigger] t2[a], #[trigger] t2[b]),
        forall|v: u8| t1.contains(v) <==> t2.contains(v),
    ensures
        t1 == t2,
    decreases t1.len(),
{
    if t1.len() == 0 {
        if t2.len() > 0 {
            assert(t2.contains(t2[0]));
        }
        assert(t1 =~= t2);
    } else {
        assert(t1.contains(t1[0]));
        assert(t2.len() > 0);
        if t1[0] != t2[0] {
            assert(t2.contains(t2[0]));
            let j = choose|j: int| 0 <= j < t1.len() && t1[j] == t2[0];
            let i = choose|i: int| 0 <= i < t2.len() && t2[i] == t1[0];
            assert(j > 0 && i > 0);
            assert(ranks_before(d, t1[0], t1[j]));
            assert(ranks_before(d, t2[0], t2[i]));
        }
        let r1 = t1.drop_first();
        let r2 = t2.drop_first();
        assert forall|v: u8| r1.contains(v) <==> r2.contains(v) by {
            if r1.contains(v) {
                let k = choose|k: int| 0 <= k < r1.len() && r1[k] == v;
                assert(t1[k + 1] == v);
                assert(ranks_before(d, t1[0], t1[k + 1]));
                assert(t1.contains(v));
                let m = choose|m: int| 0 <= m < t2.len() && t2[m] == v;
                assert(m != 0);
                assert(r2[m - 1] == v);
            }
            if r2.contains(v) {
                let k = choose|k: int| 0 <= k < r2.len() && r2[k] == v;
                assert(t2[k + 1] == v);
                assert(ranks_before(d, t2[0], t2[k + 1]));
                assert(t2.contains(v));
                let m = choose|m: int| 0 <= m < t1.len() && t1[m] == v;
                assert(m != 0);
                assert(r1[m - 1] == v);
            }
        }
        assert forall|a: int, b: int| 0 <= a < b < r1.len() implies ranks_before(d, #[trigger] r1[a], #[trigger] r1[b]) by {
            assert(ranks_before(d, t1[a + 1], t1[b + 1]));
        }
        assert forall|a: int, b: int| 0 <= a < b < r2.len() implies ranks_before(d, #[trigger] r2[a], #[trigger] r2[b]) by {
            assert(ranks_before(d, t2[a + 1], t2[b + 1]));
        }
        lemma_sorted_unique(d, r1, r2);
        assert(t1 =~= seq![t1[0]] + r1);
        assert(t2 =~= seq![t2[0]] + r2);
    }
}

/// A text has exactly one rank table, so the reordering encoding of a text is
/// determined by the text.
pub proof fn lemma_rank_table_unique(d: Seq<u8>, t1: Seq<u8>, t2: Seq<u8>)
    requires
        is_rank_table(d, t1),
        is_rank_table(d, t2),
    ensures
        t1 == t2,
{
    lemma_sorted_unique(d, t1, t2);
}

/// Position of byte `b` in `t` (its last occurrence; `t.len()` when absent).
pub open spec fn byte_pos(t: Seq<u8>, b: u8) -> int
    decreases t.len(),
{
    if t.len() == 0 {
        0
    } else if t.last() == b {
        t.len() - 1
    } else {
        byte_pos(t.drop_last(), b)
    }
}

/// Table size minus one, the table, the length, then each byte's table position.
pub open spec fn reorder_encoding(d: Seq<u8>, t: Seq<u8>) -> Seq<u8> {
    seq![(t.len() - 1) as u8] + t + be16(d.len() as int) + d.map_values(|b: u8| byte_pos(t, b) as u8)
}

/// The table that a reordering encoding carries.
pub open spec fn carried_table(out: Seq<u8>) -> Seq<u8> {
    out.subrange(1, out[0] as int + 2)
}

/// What frequency reordering produces.
pub open spec fn reorder_compress_ok(d: Seq<u8>, r: StageResult) -> bool {
    if d.len() == 0 {
        r == Ok::<Seq<u8>, CascadeError>(Seq::empty())
    } else if d.len() > 65535 {
        r == Err::<Seq<u8>, CascadeError>(CascadeError::InputTooLarge)
    } else {
        r matches Ok(out) && out[0] as int + 2 <= out.len() && is_rank_table(d, carried_table(out)) && out
            == reorder_encoding(d, carried_table(out))
    }
}

/// What frequency restoration produces.
pub open spec fn reorder_decompress_spec(d: Seq<u8>) -> StageResult {
    let n = d[0] as int + 1;
    let q = n + 3;
    let orig = read_be16(d, n + 1);
    if d.len() == 0 {
        Ok(Seq::empty())
    } else if q > d.len() {
        Err(CascadeError::UnexpectedEof)
    } else if q + orig > d.len() {
        Err(CascadeError::UnexpectedEof)
    } else if exists|i: int| 0 <= i < orig && #[trigger] d[q + i] >= n {
        Err(CascadeError::IndexOutOfRange)
    } else {
        Ok(Seq::new(orig as nat, |i: int| d[1 + d[q + i]]))
    }
}

/// Counts of every byte value in `data`.
fn byte_counts(data: &[u8]) -> (counts: Vec<usize>)
    ensures
        counts@.len() == 256,
        forall|v: u8| #[trigger] counts@[v as int] as int == occurrences(data@, v),
{
    let mut counts: Vec<usize> = Vec::new();
    let mut v: usize = 0;
    while v < 256
        invariant
            v <= 256,
            counts@.len() == v,
            forall|u: int| 0 <= u < v ==> #[trigger] counts@[u] == 0,
        decreases 256 - v,
    {
        counts.push(0);
        v += 1;
    }
    let mut i: usize = 0;
    assert(data@.subrange(0, 0) =~= Seq::<u8>::empty());
    while i < data.len()
        invariant
            i <= data@.len(),
            counts@.len() == 256,
            forall|u: u8| #[trigger] counts@[u as int] as int == occurrences(data@.subrange(0, i as int), u),
        decreases data@.len() - i,
    {
        let b: u8 = data[i];
        proof {
            assert(data@.subrange(0, i + 1).drop_last() =~= data@.subrange(0, i as int));
            assert(counts@[b as int] as int == occurrences(data@.subrange(0, i as int), b));
            assert(occurrences(data@.subrange(0, i as int), b) <= i) by {
                lemma_occurrences_bound(data@.subrange(0, i as int), b);
            }
        }
        let c: usize = counts[b as usize];
        counts.set(b as usize, c + 1);
        i += 1;
        assert forall|u: u8| #[trigger] counts@[u as int] as int == occurrences(data@.subrange(0, i as int), u) by {
            assert(data@.subrange(0, i as int).drop_last() =~= data@.subrange(0, i - 1));
        }
    }
    assert(data@.subrange(0, data@.len() as int) =~= data@);
    counts
}

proof fn lemma_occurrences_bound(d: Seq<u8>, b: u8)
    ensures
        0 <= occurrences(d, b) <= d.len(),
    decreases d.len(),
{
    if d.len() > 0 {
        lemma_occurrences_bound(d.drop_last(), b);
    }
}

/// The rank table of `data`: its distinct bytes, most frequent first.
fn rank_table(data: &[u8], counts: &Vec<usize>) -> (table: Vec<u8>)
    requires
        counts@.len() == 256,
        forall|v: u8| #[trigger] counts@[v as int] as int == occurrences(data@, v),
    ensures
        is_rank_table(data@, table@),
        table@.len() <= 256,
{
    let ghost d = data@;
    let mut table: Vec<u8> = Vec::new();
    let mut v: usize = 0;
    while v < 256
        invariant
            v <= 256,
            d == data@,
            counts@.len() == 256,
            forall|u: u8| #[trigger] counts@[u as int] as int == occurrences(d, u),
            table@.len() <= v,
            forall|a: int, b: int| 0 <= a < b < table@.len() ==> ranks_before(d, #[trigger] table@[a], #[trigger] table@[b]),
            forall|u: u8| table@.contains(u) <==> (u < v && occurrences(d, u) > 0),
        decreases 256 - v,
    {
        let b: u8 = v as u8;
        assert(counts@[b as int] == counts@[v as int]);
        if counts[v] > 0 {
            let mut j: usize = table.len();
            while j > 0 && (counts[b as usize] > counts[table[j - 1] as usize] || (counts[b as usize]
                == counts[table[j - 1] as usize] && b < table[j - 1]))
                invariant
                    j <= table@.len(),
                    counts@.len() == 256,
                    forall|u: u8| #[trigger] counts@[u as int] as int == occurrences(d, u),
                    forall|m: int| j <= m < table@.len() ==> ranks_before(d, b, #[trigger] table@[m]),
                decreases j,
            {
                j -= 1;
            }
            let ghost old_t = table@;
            proof {
                if j > 0 {
                    assert(old_t.contains(old_t[j - 1]));
                    assert(old_t[j - 1] < b);
                    assert(ranks_before(d, old_t[j - 1], b));
                }
            }
            table.insert(j, b);
            proof {
                let t = table@;
                assert(t == old_t.insert(j as int, b));
                assert forall|a: int, c: int| 0 <= a < c < t.len() implies ranks_before(d, #[trigger] t[a], #[trigger] t[c]) by {
                    if c < j {
                        assert(t[a] == old_t[a] && t[c] == old_t[c]);
                    } else if c == j {
                        assert(t[a] == old_t[a]);
                        if a < j - 1 {
                            assert(ranks_before(d, old_t[a], old_t[j - 1]));
                        }
                    } else if a == j {
                        assert(t[c] == old_t[c - 1]);
                    } else if a < j {
                        assert(t[a] == old_t[a] && t[c] == old_t[c - 1]);
                    } else {
                        assert(t[a] == old_t[a - 1] && t[c] == old_t[c - 1]);
                    }
                }
                assert forall|u: u8| t.contains(u) <==> (u < v + 1 && occurrences(d, u) > 0) by {
                    if t.contains(u) {
                        let m = choose|m: int| 0 <= m < t.len() && t[m] == u;
                        if m < j {
                            assert(old_t[m] == u);
                            assert(old_t.contains(u));
                        } else if m > j {
                            assert(old_t[m - 1] == u);
                            assert(old_t.contains(u));
                        }
                    }
                    if u < v && occurrences(d, u) > 0 {
                        assert(old_t.contains(u));
                        let m = choose|m: int| 0 <= m < old_t.len() && old_t[m] == u;
                        if m < j {
                            assert(t[m] == u);
                        } else {
                            assert(t[m + 1] == u);
                        }
                    }
                    if u == v {
                        assert(t[j as int] == u);
                    }
                }
            }
        } else {
            assert forall|u: u8| table@.contains(u) <==> (u < v + 1 && occurrences(d, u) > 0) by {
                if u == v {
                    assert(u == b);
                }
            }
        }
        v += 1;
    }
    table
}

proof fn lemma_occurs(d: Seq<u8>, i: int)
    requires
        0 <= i < d.len(),
    ensures
        occurrences(d, d[i]) > 0,
    decreases d.len(),
{
    if i < d.len() - 1 {
        assert(d.drop_last()[i] == d[i]);
        lemma_occurs(d.drop_last(), i);
        lemma_occurrences_bound(d.drop_last(), d[i]);
    }
    lemma_occurrences_bound(d.drop_last(), d[i]);
}

proof fn lemma_byte_pos(t: Seq<u8>, j: int)
    requires
        0 <= j < t.len(),
        forall|a: int, b: int| 0 <= a < b < t.len() ==> t[a] != t[b],
    ensures
        byte_pos(t, t[j]) == j,
    decreases t.len(),
{
    if j < t.len() - 1 {
        assert(t.drop_last()[j] == t[j]);
        lemma_byte_pos(t.drop_last(), j);
    }
}

/// Reordering of bytes by frequency so that common bytes get small codes.
pub struct Level5FreqReorder;

impl Level5FreqReorder {
    pub fn compress(&self, data: &[u8]) -> (r: Result<Vec<u8>, CascadeError>)
        ensures
            reorder_compress_ok(data@, result_view(r)),
    {
        if data.len() == 0 {
            return Ok(Vec::new());
        }
        let ghost d = data@;
        let counts = byte_counts(data);
        let table = rank_table(data, &counts);
        proof {
            lemma_occurs(d, 0);
            assert(table@.contains(d[0]));
            assert forall|a: int, b: int| 0 <= a < b < table@.len() implies table@[a] != table@[b] by {
                assert(ranks_before(d, table@[a], table@[b]));
            }
        }
        let mut mapping: Vec<u8> = Vec::new();
        let mut v: usize = 0;
        while v < 256
            invariant
                v <= 256,
                mapping@.len() == v,
            decreases 256 - v,
        {
            mapping.push(0);
            v += 1;
        }
        let mut i: usize = 0;
        while i < table.len()
            invariant
                i <= table@.len() <= 256,
                mapping@.len() == 256,
                forall|a: int, b: int| 0 <= a < b < table@.len() ==> table@[a] != table@[b],
                forall|m: int| 0 <= m < i ==> mapping@[#[trigger] table@[m] as int] as int == m,
            decreases table@.len() - i,
        {
            let ghost before = mapping@;
            mapping.set(table[i] as usize, i as u8);
            i += 1;
            assert forall|m: int| 0 <= m < i implies mapping@[#[trigger] table@[m] as int] as int == m by {
                if m < i - 1 {
                    assert(table@[m] != table@[i - 1]);
                    assert(mapping@[table@[m] as int] == before[table@[m] as int]);
                }
            }
        }
        let mut out: Vec<u8> = Vec::new();
        out.push((table.len() - 1) as u8);
        push_all(&mut out, table.as_slice());
        if data.len() > 65535 {
            return Err(CascadeError::InputTooLarge);
        }
        push_be16(&mut out, data.len());
        let ghost head = out@;
        let ghost t = table@;
        let mut k: usize = 0;
        while k < data.len()
            invariant
                k <= data@.len(),
                d == data@,
                t == table@,
                mapping@.len() == 256,
                is_rank_table(d, t),
                forall|a: int, b: int| 0 <= a < b < t.len() ==> t[a] != t[b],
                forall|m: int| 0 <= m < t.len() ==> mapping@[#[trigger] t[m] as int] as int == m,
                out@ == head + d.subrange(0, k as int).map_values(|b: u8| byte_pos(t, b) as u8),
            decreases data@.len() - k,
        {
            let b: u8 = data[k];
            proof {
                lemma_occurs(d, k as int);
                assert(t.contains(b));
                let m = choose|m: int| 0 <= m < t.len() && t[m] == b;
                lemma_byte_pos(t, m);
                assert(mapping@[b as int] as int == byte_pos(t, b));
            }
            out.push(mapping[b as usize]);
            k += 1;
            assert(d.subrange(0, k as int).map_values(|b: u8| byte_pos(t, b) as u8) =~= d.subrange(
                0,
                k - 1,
            ).map_values(|b: u8| byte_pos(t, b) as u8).push(byte_pos(t, b) as u8));
        }
        proof {
            assert(d.subrange(0, d.len() as int) =~= d);
            assert(out@ =~= reorder_encoding(d, t));
            assert(out@[0] as int + 2 == t.len() + 1);
            assert(carried_table(out@) =~= t);
        }
        Ok(out)
    }

    pub fn decompress(&self, data: &[u8]) -> (r: Result<Vec<u8>, CascadeError>)
        ensures
            result_view(r) == reorder_decompress_spec(data@),
    {
        if data.len() == 0 {
            return Ok(Vec::new());
        }
        let table_size: usize = data[0] as usize + 1;
        if data.len() - 1 < table_size + 2 {
            return Err(CascadeError::UnexpectedEof);
        }
        let orig_len: usize = data[table_size + 1] as usize * 256 + data[table_size + 2] as usize;
        let start: usize = table_size + 3;
        if data.len() - start < orig_len {
            return Err(CascadeError::UnexpectedEof);
        }
        let mut result: Vec<u8> = Vec::new();
        let mut i: usize = 0;
        while i < orig_len
            invariant
                i <= orig_len,
                start == table_size + 3,
                table_size == data@[0] as int + 1,
                orig_len == read_be16(data@, table_size + 1),
                start + orig_len <= data@.len(),
                result@.len() == i,
                forall|m: int| 0 <= m < i ==> #[trigger] data@[start + m] < table_size,
                forall|m: int| 0 <= m < i ==> #[trigger] result@[m] == data@[1 + data@[start + m]],
            decreases orig_len - i,
        {
            let idx: usize = data[start + i] as usize;
            if idx >= table_size {
                assert(data@[start + i as int] >= table_size);
                return Err(CascadeError::IndexOutOfRange);
            }
            result.push(data[1 + idx]);
            i += 1;
        }
        proof {
            assert(!exists|m: int| 0 <= m < orig_len && #[trigger] data@[start + m] >= table_size);
            assert(result@ =~= Seq::new(orig_len as nat, |m: int| data@[1 + data@[start + m]]));
        }
        Ok(result)
    }
}

proof fn lemma_byte_pos_contains(t: Seq<u8>, b: u8)
    requires
        t.contains(b),
    ensures
        0 <= byte_pos(t, b) < t.len(),
        t[byte_pos(t, b)] == b,
    decreases t.len(),
{
    if t.last() != b {
        let j = choose|j: int| 0 <= j < t.len() && t[j] == b;
        assert(t.drop_last()[j] == b);
        lemma_byte_pos_contains(t.drop_last(), b);
    }
}

/// Frequency restoration gives back every input that frequency reordering encoded.
pub proof fn lemma_reorder_round_trip(d: Seq<u8>, out: Seq<u8>)
    requires
        reorder_compress_ok(d, Ok(out)),
    ensures
        reorder_decompress_spec(out) == Ok::<Seq<u8>, CascadeError>(d),
{
    if d.len() == 0 {
        assert(out.len() == 0);
        assert(Seq::<u8>::empty() =~= d);
    } else {
        let t = carried_table(out);
        let n = out[0] as int + 1;
        assert(t.len() == n);
        let q = n + 3;
        let body = d.map_values(|b: u8| byte_pos(t, b) as u8);
        assert(out == seq![(t.len() - 1) as u8] + t + be16(d.len() as int) + body);
        assert(out.len() == q + d.len());
        assert(out[n + 1] == (d.len() / 256) as u8 && out[n + 2] == (d.len() % 256) as u8);
        assert(read_be16(out, n + 1) == d.len());
        assert forall|i: int| 0 <= i < d.len() implies #[trigger] out[q + i] < n && out[1 + out[q + i]] == d[i] by {
            lemma_occurs(d, i);
            lemma_byte_pos_contains(t, d[i]);
            assert(out[q + i] == body[i]);
            assert(out[1 + out[q + i]] == t[out[q + i] as int]);
        }
        assert(Seq::new(d.len(), |i: int| out[1 + out[q + i]]) =~= d);
    }
}

// ---------------------------------------------------------------------------
// zlib
// ---------------------------------------------------------------------------

/// The zlib stream that flate2 writes for `data` at the best compression level.
pub uninterp spec fn zlib_deflated(data: Seq<u8>) -> Seq<u8>;

/// What flate2 reads back out of the zlib stream `data`, or `None` where it
/// reports an error.
pub uninterp spec fn zlib_inflated(data: Seq<u8>) -> Option<Seq<u8>>;

/// The byte sequence inside an optional vector.
pub open spec fn option_view(o: Option<Vec<u8>>) -> Option<Seq<u8>> {
    match o {
        Some(v) => Some(v@),
        None => None,
    }
}

/// Compresses through `flate2::write::ZlibEncoder` (`new` at
/// `Compression::best()`, `write_all`, `finish`). Claimed: the stream always
/// comes back (an encoder writing into a `Vec` reports no error: the sink
/// never fails and miniz raises no error the writer passes on), it is
/// `zlib_deflated(data)`, and flate2's decoder reads it back as `data` (zlib is
/// lossless).
#[verifier::external_body]
fn zlib_compress_best(data: &[u8]) -> (r: Option<Vec<u8>>)
    ensures
        option_view(r) == Some(zlib_deflated(data@)),
        zlib_inflated(option_view(r).unwrap()) == Some(data@),
{
    let mut encoder = flate2::write::ZlibEncoder::new(Vec::new(), flate2::Compression::best());
    match std::io::Write::write_all(&mut encoder, data) {
        Ok(()) => {},
        Err(_) => return None,
    }
    match encoder.finish() {
        Ok(v) => Some(v),
        Err(_) => None,
    }
}

/// Decompresses through `flate2::read::ZlibDecoder` (`new`, `read_to_end`).
/// Claimed: the outcome is `zlib_inflated(data)`.
#[verifier::external_body]
pub(crate) fn zlib_decompress(data: &[u8]) -> (r: Option<Vec<u8>>)
    ensures
        option_view(r) == zlib_inflated(data@),
{
    let mut decoder = flate2::read::ZlibDecoder::new(data);
    let mut out: Vec<u8> = Vec::new();
    match std::io::Read::read_to_end(&mut decoder, &mut out) {
        Ok(_) => Some(out),
        Err(_) => None,
    }
}

/// What zlib compression produces: the length header followed by the
/// deflated stream (which reads back as `d`), refused above 16-bit lengths.
pub open spec fn zlib_compress_ok(d: Seq<u8>, r: StageResult) -> bool {
    ||| (d.len() > 65535 && r == Err::<Seq<u8>, CascadeError>(CascadeError::InputTooLarge))
    ||| (zlib_inflated(zlib_deflated(d)) == Some(d) && d.len() <= 65535 && r == Ok::<Seq<u8>, CascadeError>(
        be16(d.len() as int) + zlib_deflated(d),
    ))
}

/// What zlib decompression produces.
pub open spec fn zlib_decompress_spec(d: Seq<u8>) -> StageResult {
    if d.len() < 2 {
        Err(CascadeError::InputTooShort)
    } else {
        match zlib_inflated(d.subrange(2, d.len() as int)) {
            Some(v) => Ok(v),
            None => Err(CascadeError::Zlib),
        }
    }
}

/// zlib deflate at the best level behind a 16-bit length header.
pub struct Level6Zlib;

impl Level6Zlib {
    pub fn compress(&self, data: &[u8]) -> (r: Result<Vec<u8>, CascadeError>)
        ensures
            zlib_compress_ok(data@, result_view(r)),
            data@.len() <= 65535 ==> result_view(r) == Ok::<Seq<u8>, CascadeError>(
                be16(data@.len() as int) + zlib_deflated(data@),
            ),
            data@.len() > 65535 ==> r == Err::<Vec<u8>, CascadeError>(CascadeError::InputTooLarge),
    {
        let compressed = match zlib_compress_best(data) {
            Some(c) => c,
            None => return Err(CascadeError::Zlib),
        };
        if data.len() > 65535 {
            return Err(CascadeError::InputTooLarge);
        }
        let mut out: Vec<u8> = Vec::new();
        push_be16(&mut out, data.len());
        push_all(&mut out, compressed.as_slice());
        Ok(out)
    }

    pub fn decompress(&self, data: &[u8]) -> (r: Result<Vec<u8>, CascadeError>)
        ensures
            result_view(r) == zlib_decompress_spec(data@),
    {
        if data.len() < 2 {
            return Err(CascadeError::InputTooShort);
        }
        let body = vstd::slice::slice_subrange(data, 2, data.len());
        let r = match zlib_decompress(body) {
            Some(v) => Ok(v),
            None => Err(CascadeError::Zlib),
        };
        assert(body@ =~= data@.subrange(2, data@.len() as int));
        r
    }
}

// ---------------------------------------------------------------------------
// Tokenizer
// ---------------------------------------------------------------------------

/// The Latin-1 character with code `b` is alphabetic or numeric in Unicode.
pub open spec fn latin1_alnum(b: u8) -> bool {
    ||| 0x30 <= b <= 0x39
    ||| 0x41 <= b <= 0x5A
    ||| 0x61 <= b <= 0x7A
    ||| b == 0xAA || b == 0xB2 || b == 0xB3 || b == 0xB5 || b == 0xB9 || b == 0xBA
    ||| 0xBC <= b <= 0xBE
    ||| 0xC0 <= b <= 0xD6
    ||| 0xD8 <= b <= 0xF6
    ||| 0xF8 <= b
}

/// Whether the Latin-1 character with code `b` is alphanumeric.
pub fn is_latin1_alphanumeric(b: u8) -> (r: bool)
    ensures
        r == latin1_alnum(b),
{
    (0x30 <= b && b <= 0x39) || (0x41 <= b && b <= 0x5A) || (0x61 <= b && b <= 0x7A) || b == 0xAA
        || b == 0xB2 || b == 0xB3 || b == 0xB5 || b == 0xB9 || b == 0xBA || (0xBC <= b && b <= 0xBE)
        || (0xC0 <= b && b <= 0xD6) || (0xD8 <= b && b <= 0xF6) || 0xF8 <= b
}

/// UTF-8 width of the Latin-1 character `b`.
pub open spec fn char_width(b: u8) -> int {
    if b < 0x80 {
        1
    } else {
        2
    }
}

/// UTF-8 width of a Latin-1 text.
pub open spec fn text_width(w: Seq<u8>) -> int
    decreases w.len(),
{
    if w.len() == 0 {
        0
    } else {
        text_width(w.drop_last()) + char_width(w.last())
    }
}

/// UTF-8 encoding of the Latin-1 character `b`.
pub open spec fn latin1_char_utf8(b: u8) -> Seq<u8> {
    if b < 0x80 {
        seq![b]
    } else {
        seq![0xC0u8 | (b >> 6u8), 0x80u8 | (b & 0x3Fu8)]
    }
}

/// UTF-8 encoding of a Latin-1 text.
pub open spec fn latin1_utf8(w: Seq<u8>) -> Seq<u8>
    decreases w.len(),
{
    if w.len() == 0 {
        Seq::empty()
    } else {
        latin1_utf8(w.drop_last()) + latin1_char_utf8(w.last())
    }
}

/// Tokenizer state after reading `d`: finished chunks, the open chunk and
/// whether the open chunk is alphanumeric. A chunk grows while the character
/// class stays the same and its UTF-8 width stays within 255 bytes.
pub open spec fn split_state(d: Seq<u8>) -> (Seq<Seq<u8>>, Seq<u8>, bool)
    decreases d.len(),
{
    if d.len() == 0 {
        (Seq::empty(), Seq::empty(), true)
    } else {
        let (done, cur, w) = split_state(d.drop_last());
        let b = d.last();
        let cw = latin1_alnum(b);
        if cur.len() == 0 {
            (done, seq![b], cw)
        } else if w == cw && text_width(cur) + char_width(b) <= 255 {
            (done, cur.push(b), w)
        } else {
            (done.push(cur), seq![b], cw)
        }
    }
}

/// Chunks of `d`: runs of alphanumeric or of other characters, at most 255
/// UTF-8 bytes each.
pub open spec fn words_of(d: Seq<u8>) -> Seq<Seq<u8>> {
    let (done, cur, _) = split_state(d);
    if cur.len() == 0 {
        done
    } else {
        done.push(cur)
    }
}

/// Distinct chunks in order of first appearance.
pub open spec fn vocab_of(words: Seq<Seq<u8>>) -> Seq<Seq<u8>>
    decreases words.len(),
{
    if words.len() == 0 {
        Seq::empty()
    } else {
        let v = vocab_of(words.drop_last());
        if v.contains(words.last()) {
            v
        } else {
            v.push(words.last())
        }
    }
}

/// Views of a vector of byte vectors.
pub open spec fn vecs_view(v: Seq<Vec<u8>>) -> Seq<Seq<u8>> {
    v.map_values(|x: Vec<u8>| x@)
}

/// Vocabulary entry: UTF-8 width, then the UTF-8 bytes.
pub open spec fn vocab_entry(w: Seq<u8>) -> Seq<u8> {
    seq![text_width(w) as u8] + latin1_utf8(w)
}

/// Encoded token id: two bytes big-endian for vocabularies over 256 entries.
pub open spec fn token_code(id: int, two: bool) -> Seq<u8> {
    if two {
        be16(id)
    } else {
        seq![id as u8]
    }
}

/// What tokenization produces: the vocabulary size, the vocabulary entries, then
/// the id of each chunk.
pub open spec fn tokenize_spec(d: Seq<u8>) -> StageResult {
    let words = words_of(d);
    let vocab = vocab_of(words);
    let two = vocab.len() > 256;
    if vocab.len() > 65535 {
        Err(CascadeError::VocabularyTooLarge)
    } else {
        Ok(be16(vocab.len() as int) + vocab.map_values(|w: Seq<u8>| vocab_entry(w)).flatten()
            + words.map_values(|w: Seq<u8>| token_code(pos_in(vocab, w), two)).flatten())
    }
}

/// Chunks of a text never have width zero or above 255 bytes.
pub open spec fn chunks_fit(words: Seq<Seq<u8>>) -> bool {
    forall|k: int| 0 <= k < words.len() ==> (#[trigger] words[k]).len() > 0 && text_width(words[k]) <= 255
}

proof fn lemma_text_width_nonneg(w: Seq<u8>)
    ensures
        text_width(w) >= w.len(),
    decreases w.len(),
{
    if w.len() > 0 {
        lemma_text_width_nonneg(w.drop_last());
    }
}

/// Splits `data` into alphanumeric and other chunks.
fn split_words(data: &[u8]) -> (words: Vec<Vec<u8>>)
    ensures
        vecs_view(words@) == words_of(data@),
        chunks_fit(words_of(data@)),
{
    let ghost d = data@;
    let mut words: Vec<Vec<u8>> = Vec::new();
    let mut cur: Vec<u8> = Vec::new();
    let mut cur_width: usize = 0;
    let mut is_word: bool = true;
    let mut i: usize = 0;
    assert(d.subrange(0, 0) =~= Seq::<u8>::empty());
    while i < data.len()
        invariant
            i <= d.len(),
            d == data@,
            split_state(d.subrange(0, i as int)) == (vecs_view(words@), cur@, is_word),
            cur_width as int == text_width(cur@),
            cur_width <= 255,
            chunks_fit(vecs_view(words@)),
        decreases d.len() - i,
    {
        let b: u8 = data[i];
        let cw: bool = is_latin1_alphanumeric(b);
        let width: usize = if b < 0x80 { 1 } else { 2 };
        let ghost prev = d.subrange(0, i as int);
        assert(d.subrange(0, i + 1).drop_last() =~= prev);
        assert(d.subrange(0, i + 1).last() == b);
        let ghost wv = vecs_view(words@);
        if cur.len() == 0 {
            is_word = cw;
            cur.push(b);
            cur_width = width;
            proof {
                assert(cur@ =~= seq![b]);
                assert(seq![b].drop_last() =~= Seq::<u8>::empty());
                assert(text_width(cur@) == text_width(Seq::<u8>::empty()) + char_width(b));
            }
        } else if is_word == cw && cur_width + width <= 255 {
            let ghost c0 = cur@;
            cur.push(b);
            cur_width = cur_width + width;
            proof {
                assert(cur@.drop_last() =~= c0);
                assert(text_width(cur@) == text_width(c0) + char_width(b));
            }
        } else {
            let ghost c0 = cur@;
            proof {
                lemma_text_width_nonneg(c0);
            }
            let finished = cur;
            words.push(finished);
            cur = Vec::new();
            cur.push(b);
            cur_width = width;
            is_word = cw;
            proof {
                assert(vecs_view(words@) =~= wv.push(c0));
                assert(cur@ =~= seq![b]);
                assert(seq![b].drop_last() =~= Seq::<u8>::empty());
                assert(text_width(cur@) == text_width(Seq::<u8>::empty()) + char_width(b));
                assert forall|k: int| 0 <= k < vecs_view(words@).len() implies (#[trigger] vecs_view(words@)[k]).len() > 0
                    && text_width(vecs_view(words@)[k]) <= 255 by {
                    if k < wv.len() {
                        assert(vecs_view(words@)[k] == wv[k]);
                    }
                }
            }
        }
        i += 1;
    }
    assert(d.subrange(0, d.len() as int) =~= d);
    if cur.len() > 0 {
        let ghost wv = vecs_view(words@);
        let ghost c0 = cur@;
        proof {
            lemma_text_width_nonneg(c0);
        }
        words.push(cur);
        proof {
            assert(vecs_view(words@) =~= wv.push(c0));
            assert forall|k: int| 0 <= k < vecs_view(words@).len() implies (#[trigger] vecs_view(words@)[k]).len() > 0
                && text_width(vecs_view(words@)[k]) <= 255 by {
                if k < wv.len() {
                    assert(vecs_view(words@)[k] == wv[k]);
                }
            }
        }
    }
    words
}

/// Whether two byte strings are equal.
pub(crate) fn bytes_equal(a: &[u8], b: &[u8]) -> (r: bool)
    ensures
        r == (a@ == b@),
{
    if a.len() != b.len() {
        return false;
    }
    let mut i: usize = 0;
    while i < a.len()
        invariant
            i <= a@.len(),
            a@.len() == b@.len(),
            forall|k: int| 0 <= k < i ==> a@[k] == b@[k],
        decreases a@.len() - i,
    {
        if a[i] != b[i] {
            return false;
        }
        i += 1;
    }
    assert(a@ =~= b@);
    true
}

/// Position of `w` in `vocab`, if it is there.
fn find_word(vocab: &Vec<Vec<u8>>, w: &[u8]) -> (r: Option<usize>)
    ensures
        r matches Some(j) ==> j < vocab@.len() && vocab@[j as int]@ == w@,
        r is None ==> !vecs_view(vocab@).contains(w@),
{
    let mut j: usize = 0;
    while j < vocab.len()
        invariant
            j <= vocab@.len(),
            forall|k: int| 0 <= k < j ==> vocab@[k]@ != w@,
        decreases vocab@.len() - j,
    {
        if bytes_equal(vocab[j].as_slice(), w) {
            return Some(j);
        }
        j += 1;
    }
    proof {
        if vecs_view(vocab@).contains(w@) {
            let k = choose|k: int| 0 <= k < vecs_view(vocab@).len() && vecs_view(vocab@)[k] == w@;
            assert(vocab@[k]@ == w@);
        }
    }
    None
}

/// The vocabulary of `words` and the vocabulary position of each word.
fn build_vocab(words: &Vec<Vec<u8>>) -> (r: (Vec<Vec<u8>>, Vec<usize>))
    ensures
        vecs_view(r.0@) == vocab_of(vecs_view(words@)),
        r.1@.len() == words@.len(),
        forall|k: int| 0 <= k < words@.len() ==> #[trigger] r.1@[k] as int == pos_in(
            vocab_of(vecs_view(words@)),
            vecs_view(words@)[k],
        ),
        forall|k: int| 0 <= k < words@.len() ==> r.1@[k] < r.0@.len(),
{
    let ghost wv = vecs_view(words@);
    let mut vocab: Vec<Vec<u8>> = Vec::new();
    let mut ids: Vec<usize> = Vec::new();
    let mut i: usize = 0;
    assert(wv.subrange(0, 0) =~= Seq::<Seq<u8>>::empty());
    assert(vecs_view(vocab@) =~= Seq::<Seq<u8>>::empty());
    while i < words.len()
        invariant
            i <= words@.len(),
            wv == vecs_view(words@),
            vecs_view(vocab@) == vocab_of(wv.subrange(0, i as int)),
            forall|a: int, b: int| 0 <= a < b < vocab@.len() ==> vocab@[a]@ != vocab@[b]@,
            ids@.len() == i,
            forall|k: int| 0 <= k < i ==> #[trigger] ids@[k] < vocab@.len() && vocab@[ids@[k] as int]@ == wv[k],
        decreases words@.len() - i,
    {
        let ghost pre = wv.subrange(0, i as int);
        assert(wv.subrange(0, i + 1).drop_last() =~= pre);
        assert(wv.subrange(0, i + 1).last() == wv[i as int]);
        assert(words@[i as int]@ == wv[i as int]);
        let ghost vv = vecs_view(vocab@);
        match find_word(&vocab, words[i].as_slice()) {
            Some(j) => {
                ids.push(j);
                assert(vv.contains(wv[i as int])) by {
                    assert(vv[j as int] == wv[i as int]);
                }
            },
            None => {
                ids.push(vocab.len());
                let copy = vstd::slice::slice_to_vec(words[i].as_slice());
                vocab.push(copy);
                assert(vecs_view(vocab@) =~= vv.push(wv[i as int]));
                assert forall|a: int, b: int| 0 <= a < b < vocab@.len() implies vocab@[a]@ != vocab@[b]@ by {
                    if b == vocab@.len() - 1 {
                        assert(vv[a] == vocab@[a]@);
                    }
                }
            },
        }
        i += 1;
    }
    assert(wv.subrange(0, words@.len() as int) =~= wv);
    proof {
        assert forall|k: int| 0 <= k < words@.len() implies #[trigger] ids@[k] as int == pos_in(vocab_of(wv), wv[k]) by {
            let vv = vecs_view(vocab@);
            assert(vv[ids@[k] as int] == wv[k]);
            assert forall|a: int, b: int| 0 <= a < b < vv.len() implies vv[a] != vv[b] by {
                assert(vocab@[a]@ != vocab@[b]@);
            }
            lemma_pos_in(vv, ids@[k] as int);
        }
    }
    (vocab, ids)
}

/// Appends the UTF-8 encoding of the Latin-1 text `w` and returns its width.
fn push_latin1_utf8(out: &mut Vec<u8>, w: &[u8]) -> (width: usize)
    requires
        text_width(w@) <= 255,
    ensures
        final(out)@ == old(out)@ + latin1_utf8(w@),
        width as int == text_width(w@),
{
    let mut i: usize = 0;
    let mut width: usize = 0;
    assert(w@.subrange(0, 0) =~= Seq::<u8>::empty());
    while i < w.len()
        invariant
            i <= w@.len(),
            text_width(w@) <= 255,
            out@ == old(out)@ + latin1_utf8(w@.subrange(0, i as int)),
            width as int == text_width(w@.subrange(0, i as int)),
        decreases w@.len() - i,
    {
        let b: u8 = w[i];
        let ghost pre = w@.subrange(0, i as int);
        assert(w@.subrange(0, i + 1).drop_last() =~= pre);
        proof {
            lemma_text_width_prefix(w@, i + 1);
        }
        if b < 0x80 {
            out.push(b);
            width = width + 1;
        } else {
            out.push(0xC0 | (b >> 6));
            out.push(0x80 | (b & 0x3F));
            width = width + 2;
        }
        i += 1;
        assert(out@ =~= old(out)@ + latin1_utf8(w@.subrange(0, i as int)));
    }
    assert(w@.subrange(0, w@.len() as int) =~= w@);
    width
}

proof fn lemma_text_width_prefix(w: Seq<u8>, i: int)
    requires
        0 <= i <= w.len(),
    ensures
        text_width(w.subrange(0, i)) <= text_width(w),
    decreases w.len() - i,
{
    if i < w.len() {
        lemma_text_width_prefix(w, i + 1);
        assert(w.subrange(0, i + 1).drop_last() =~= w.subrange(0, i));
    } else {
        assert(w.subrange(0, i) =~= w);
    }
}

/// Word-level tokenizer over Latin-1 text: a vocabulary of distinct chunks
/// followed by one id per chunk.
pub struct Level1Tokenizer;

impl Level1Tokenizer {
    pub fn compress(&self, data: &[u8]) -> (r: Result<Vec<u8>, CascadeError>)
        ensures
            result_view(r) == tokenize_spec(data@),
    {
        let words = split_words(data);
        let ghost wv = vecs_view(words@);
        let (vocab, ids) = build_vocab(&words);
        let ghost vv = vecs_view(vocab@);
        if vocab.len() > 65535 {
            return Err(CascadeError::VocabularyTooLarge);
        }
        let mut out: Vec<u8> = Vec::new();
        push_be16(&mut out, vocab.len());
        let ghost head = out@;
        let mut k: usize = 0;
        assert(vv.subrange(0, 0).map_values(|w: Seq<u8>| vocab_entry(w)) =~= Seq::<Seq<u8>>::empty());
        while k < vocab.len()
            invariant
                k <= vocab@.len(),
                vv == vecs_view(vocab@),
                wv == vecs_view(words@),
                vv == vocab_of(wv),
                chunks_fit(wv),
                out@ == head + vv.subrange(0, k as int).map_values(|w: Seq<u8>| vocab_entry(w)).flatten(),
            decreases vocab@.len() - k,
        {
            proof {
                lemma_vocab_from_words(wv, k as int);
            }
            let ghost before = out@;
            let w = vocab[k].as_slice();
            assert(w@ == vv[k as int]);
            let width_pos: usize = out.len();
            out.push(0);
            let width: usize = push_latin1_utf8(&mut out, w);
            out.set(width_pos, width as u8);
            proof {
                assert(out@ =~= before + vocab_entry(vv[k as int]));
                let f = |w: Seq<u8>| vocab_entry(w);
                assert(vv.subrange(0, k + 1).map_values(f) =~= vv.subrange(0, k as int).map_values(f).push(
                    vocab_entry(vv[k as int]),
                ));
                vv.subrange(0, k as int).map_values(f).lemma_flatten_push(vocab_entry(vv[k as int]));
            }
            k += 1;
        }
        assert(vv.subrange(0, vv.len() as int) =~= vv);
        let two: bool = vocab.len() > 256;
        let ghost mid = out@;
        let mut i: usize = 0;
        assert(wv.subrange(0, 0).map_values(|w: Seq<u8>| token_code(pos_in(vv, w), two)) =~= Seq::<Seq<u8>>::empty());
        while i < ids.len()
            invariant
                i <= ids@.len(),
                ids@.len() == wv.len(),
                vv.len() <= 65535,
                two == (vv.len() > 256),
                forall|k: int| 0 <= k < wv.len() ==> #[trigger] ids@[k] as int == pos_in(vv, wv[k]),
                forall|k: int| 0 <= k < wv.len() ==> ids@[k] < vv.len(),
                out@ == mid + wv.subrange(0, i as int).map_values(|w: Seq<u8>| token_code(pos_in(vv, w), two)).flatten(),
            decreases ids@.len() - i,
        {
            let ghost before = out@;
            let id: usize = ids[i];
            assert(id < vv.len());
            if two {
                push_be16(&mut out, id);
            } else {
                out.push(id as u8);
            }
            proof {
                let f = |w: Seq<u8>| token_code(pos_in(vv, w), two);
                assert(out@ =~= before + f(wv[i as int]));
                assert(wv.subrange(0, i + 1).map_values(f) =~= wv.subrange(0, i as int).map_values(f).push(
                    f(wv[i as int]),
                ));
                wv.subrange(0, i as int).map_values(f).lemma_flatten_push(f(wv[i as int]));
            }
            i += 1;
        }
        assert(wv.subrange(0, wv.len() as int) =~= wv);
        Ok(out)
    }
}

/// Every vocabulary entry is one of the words.
proof fn lemma_vocab_from_words(words: Seq<Seq<u8>>, k: int)
    requires
        0 <= k < vocab_of(words).len(),
    ensures
        words.contains(vocab_of(words)[k]),
    decreases words.len(),
{
    if words.len() > 0 {
        let v = vocab_of(words.drop_last());
        if k < v.len() {
            lemma_vocab_from_words(words.drop_last(), k);
            let j = choose|j: int| 0 <= j < words.drop_last().len() && words.drop_last()[j] == v[k];
            assert(words[j] == v[k]);
        } else {
            assert(words[words.len() - 1] == vocab_of(words)[k]);
        }
    }
}

/// Low byte of each character of the UTF-8 text `w` (up to its first invalid
/// sequence).
pub open spec fn utf8_low_bytes(w: Seq<u8>) -> Seq<u8>
    decreases w.len(),
{
    if w.len() == 0 || !vstd::utf8::valid_first_scalar(w) {
        Seq::empty()
    } else {
        seq![(vstd::utf8::decode_first_scalar(w) % 256) as u8] + utf8_low_bytes(
            vstd::utf8::pop_first_scalar(w),
        )
    }
}

/// Reads `count - k` vocabulary entries from offset `off`: the entries read, and
/// the offset after them.
pub open spec fn parse_vocab(d: Seq<u8>, off: int, k: int, count: int, acc: Seq<Seq<u8>>) -> Result<
    (Seq<Seq<u8>>, int),
    CascadeError,
>
    decreases count - k,
{
    if k >= count {
        Ok((acc, off))
    } else if off < 0 || off >= d.len() {
        Err(CascadeError::UnexpectedEof)
    } else {
        let n = d[off] as int;
        let w = d.subrange(off + 1, off + 1 + n);
        if off + 1 + n > d.len() {
            Err(CascadeError::UnexpectedEof)
        } else if !vstd::utf8::valid_utf8(w) {
            Err(CascadeError::InvalidUtf8)
        } else {
            parse_vocab(d, off + 1 + n, k + 1, count, acc.push(w))
        }
    }
}

/// Reads token ids from offset `off` on and appends the Latin-1 bytes of each
/// named vocabulary entry.
pub open spec fn parse_tokens(d: Seq<u8>, off: int, vocab: Seq<Seq<u8>>, two: bool, acc: Seq<u8>) -> StageResult
    decreases d.len() - off,
{
    if off < 0 || off >= d.len() {
        Ok(acc)
    } else if two {
        if off + 2 > d.len() {
            Err(CascadeError::UnexpectedEof)
        } else if read_be16(d, off) >= vocab.len() {
            Err(CascadeError::IndexOutOfRange)
        } else {
            parse_tokens(d, off + 2, vocab, two, acc + utf8_low_bytes(vocab[read_be16(d, off)]))
        }
    } else if d[off] as int >= vocab.len() {
        Err(CascadeError::IndexOutOfRange)
    } else {
        parse_tokens(d, off + 1, vocab, two, acc + utf8_low_bytes(vocab[d[off] as int]))
    }
}

/// What detokenization produces.
pub open spec fn detokenize_spec(d: Seq<u8>) -> StageResult {
    if d.len() < 2 {
        Err(CascadeError::InputTooShort)
    } else {
        match parse_vocab(d, 2, 0, read_be16(d, 0), Seq::empty()) {
            Err(e) => Err(e),
            Ok((vocab, off)) => parse_tokens(d, off, vocab, read_be16(d, 0) > 256, Seq::empty()),
        }
    }
}

/// `std::str::from_utf8`, which accepts exactly the valid UTF-8 byte strings.
#[verifier::external_body]
pub(crate) fn is_valid_utf8(bytes: &[u8]) -> (r: bool)
    ensures
        r == vstd::utf8::valid_utf8(bytes@),
{
    std::str::from_utf8(bytes).is_ok()
}

proof fn lemma_low_byte_2(b0: u8, b1: u8)
    ensures
        ((((b0 & 0x1F) as u32) << 6u32) | ((b1 & 0x3F) as u32)) % 256 == ((((b0 & 3u8) << 6u8) | (b1 & 0x3Fu8))
            as u32),
{
    assert(((((b0 & 0x1F) as u32) << 6u32) | ((b1 & 0x3F) as u32)) % 256 == ((((b0 & 3u8) << 6u8) | (b1
        & 0x3Fu8)) as u32)) by (bit_vector);
}

proof fn lemma_low_byte_3(b0: u8, b1: u8, b2: u8)
    ensures
        ((((b0 & 0x0F) as u32) << 12u32) | (((b1 & 0x3F) as u32) << 6u32) | ((b2 & 0x3F) as u32)) % 256
            == ((((b1 & 3u8) << 6u8) | (b2 & 0x3Fu8)) as u32),
{
    assert(((((b0 & 0x0F) as u32) << 12u32) | (((b1 & 0x3F) as u32) << 6u32) | ((b2 & 0x3F) as u32))
        % 256 == ((((b1 & 3u8) << 6u8) | (b2 & 0x3Fu8)) as u32)) by (bit_vector);
}

proof fn lemma_low_byte_4(b0: u8, b1: u8, b2: u8, b3: u8)
    ensures
        ((((b0 & 0x07) as u32) << 18u32) | (((b1 & 0x3F) as u32) << 12u32) | (((b2 & 0x3F) as u32) << 6u32)
            | ((b3 & 0x3F) as u32)) % 256 == ((((b2 & 3u8) << 6u8) | (b3 & 0x3Fu8)) as u32),
{
    assert(((((b0 & 0x07) as u32) << 18u32) | (((b1 & 0x3F) as u32) << 12u32) | (((b2 & 0x3F) as u32)
        << 6u32) | ((b3 & 0x3F) as u32)) % 256 == ((((b2 & 3u8) << 6u8) | (b3 & 0x3Fu8)) as u32)) by (bit_vector);
}

/// Low byte of each character of the valid UTF-8 text `w`.
fn utf8_to_latin1(w: &[u8]) -> (r: Vec<u8>)
    requires
        vstd::utf8::valid_utf8(w@),
    ensures
        r@ == utf8_low_bytes(w@),
{
    let mut out: Vec<u8> = Vec::new();
    let mut p: usize = 0;
    assert(w@.subrange(0, w@.len() as int) =~= w@);
    while p < w.len()
        invariant
            p <= w@.len(),
            vstd::utf8::valid_utf8(w@.subrange(p as int, w@.len() as int)),
            out@ + utf8_low_bytes(w@.subrange(p as int, w@.len() as int)) == utf8_low_bytes(w@),
        decreases w@.len() - p,
    {
        let ghost rest = w@.subrange(p as int, w@.len() as int);
        assert(vstd::utf8::valid_first_scalar(rest));
        let b0: u8 = w[p];
        assert(rest[0] == b0);
        let low: u8;
        let step: usize;
        if b0 < 0x80 {
            low = b0;
            step = 1;
            assert((b0 & 0x7F) == b0) by (bit_vector)
                requires b0 < 0x80u8;
        } else if b0 < 0xE0 {
            let b1: u8 = w[p + 1];
            assert(rest[1] == b1);
            low = ((b0 & 3) << 6) | (b1 & 0x3F);
            step = 2;
            proof {
                lemma_low_byte_2(b0, b1);
            }
        } else if b0 < 0xF0 {
            let b1: u8 = w[p + 1];
            let b2: u8 = w[p + 2];
            assert(rest[1] == b1 && rest[2] == b2);
            low = ((b1 & 3) << 6) | (b2 & 0x3F);
            step = 3;
            proof {
                lemma_low_byte_3(b0, b1, b2);
            }
        } else {
            let b1: u8 = w[p + 1];
            let b2: u8 = w[p + 2];
            let b3: u8 = w[p + 3];
            assert(rest[1] == b1 && rest[2] == b2 && rest[3] == b3);
            low = ((b2 & 3) << 6) | (b3 & 0x3F);
            step = 4;
            proof {
                lemma_low_byte_4(b0, b1, b2, b3);
            }
        }
        assert(step as int == vstd::utf8::length_of_first_scalar(rest));
        assert(low as int == vstd::utf8::decode_first_scalar(rest) % 256);
        let ghost before = out@;
        out.push(low);
        p += step;
        proof {
            assert(vstd::utf8::pop_first_scalar(rest) =~= w@.subrange(p as int, w@.len() as int));
            assert(utf8_low_bytes(rest) == seq![low] + utf8_low_bytes(vstd::utf8::pop_first_scalar(rest)));
            assert(out@ + utf8_low_bytes(w@.subrange(p as int, w@.len() as int)) =~= before + utf8_low_bytes(rest));
        }
    }
    assert(w@.subrange(p as int, w@.len() as int) =~= Seq::<u8>::empty());
    assert(out@ + Seq::<u8>::empty() =~= out@);
    out
}

impl Level1Tokenizer {
    pub fn decompress(&self, data: &[u8]) -> (r: Result<Vec<u8>, CascadeError>)
        ensures
            result_view(r) == detokenize_spec(data@),
    {
        if data.len() < 2 {
            return Err(CascadeError::InputTooShort);
        }
        let ghost d = data@;
        let vocab_size: usize = data[0] as usize * 256 + data[1] as usize;
        let mut offset: usize = 2;
        let mut vocab: Vec<Vec<u8>> = Vec::new();
        let ghost mut raw: Seq<Seq<u8>> = Seq::empty();
        let ghost whole = parse_vocab(d, 2, 0, vocab_size as int, Seq::empty());
        let mut k: usize = 0;
        while k < vocab_size
            invariant
                k <= vocab_size,
                d == data@,
                vocab_size == read_be16(d, 0),
                2 <= offset <= d.len(),
                whole == parse_vocab(d, 2, 0, vocab_size as int, Seq::empty()),
                whole == parse_vocab(d, offset as int, k as int, vocab_size as int, raw),
                raw.len() == k,
                vocab@.len() == k,
                forall|m: int| 0 <= m < k ==> #[trigger] vocab@[m]@ == utf8_low_bytes(raw[m]),
            decreases vocab_size - k,
        {
            if offset >= data.len() {
                return Err(CascadeError::UnexpectedEof);
            }
            let wlen: usize = data[offset] as usize;
            offset += 1;
            if data.len() - offset < wlen {
                return Err(CascadeError::UnexpectedEof);
            }
            let word = vstd::slice::slice_subrange(data, offset, offset + wlen);
            if !is_valid_utf8(word) {
                return Err(CascadeError::InvalidUtf8);
            }
            let decoded = utf8_to_latin1(word);
            vocab.push(decoded);
            proof {
                raw = raw.push(word@);
            }
            offset += wlen;
            k += 1;
        }
        let ghost vocab_raw = raw;
        assert(whole == Ok::<(Seq<Seq<u8>>, int), CascadeError>((vocab_raw, offset as int)));
        let two: bool = vocab_size > 256;
        let mut result: Vec<u8> = Vec::new();
        let ghost total = parse_tokens(d, offset as int, vocab_raw, two, Seq::empty());
        assert(detokenize_spec(d) == total);
        while offset < data.len()
            invariant
                d == data@,
                detokenize_spec(d) == total,
                offset <= d.len(),
                vocab@.len() == vocab_raw.len(),
                forall|m: int| 0 <= m < vocab_raw.len() ==> #[trigger] vocab@[m]@ == utf8_low_bytes(vocab_raw[m]),
                total == parse_tokens(d, offset as int, vocab_raw, two, result@),
            decreases d.len() - offset,
        {
            let id: usize;
            if two {
                if data.len() - offset < 2 {
                    return Err(CascadeError::UnexpectedEof);
                }
                id = data[offset] as usize * 256 + data[offset + 1] as usize;
                offset += 2;
            } else {
                id = data[offset] as usize;
                offset += 1;
            }
            if id >= vocab.len() {
                return Err(CascadeError::IndexOutOfRange);
            }
            push_all(&mut result, vocab[id].as_slice());
        }
        Ok(result)
    }
}

// ---------------------------------------------------------------------------
// Pipeline
// ---------------------------------------------------------------------------

/// One stage of a cascade.
#[derive(Debug, Clone, Copy, PartialEq, Eq, Structural)]
pub enum CascadeStage {
    Tokenizer,
    PrefixSuffix,
    Delta,
    Rle,
    FreqReorder,
    Zlib,
}

/// Outcomes that compressing `d` with `st` may have.
pub open spec fn stage_compress_ok(st: CascadeStage, d: Seq<u8>, r: StageResult) -> bool {
    match st {
        CascadeStage::Tokenizer => r == tokenize_spec(d),
        CascadeStage::PrefixSuffix => r == dedup_compress_spec(d),
        CascadeStage::Delta => r == delta_compress_spec(d),
        CascadeStage::Rle => r == rle_compress_spec(d),
        CascadeStage::FreqReorder => reorder_compress_ok(d, r),
        CascadeStage::Zlib => zlib_compress_ok(d, r),
    }
}

/// Outcome of decompressing `d` with `st`; `None` where the stage's 16-bit
/// chunk counter would overflow.
pub open spec fn stage_decompress_spec(st: CascadeStage, d: Seq<u8>) -> Option<StageResult> {
    match st {
        CascadeStage::Tokenizer => Some(detokenize_spec(d)),
        CascadeStage::PrefixSuffix => dedup_decompress_spec(d),
        CascadeStage::Delta => Some(delta_decompress_spec(d)),
        CascadeStage::Rle => Some(rle_decompress_spec(d)),
        CascadeStage::FreqReorder => Some(reorder_decompress_spec(d)),
        CascadeStage::Zlib => Some(zlib_decompress_spec(d)),
    }
}

impl CascadeStage {
    pub fn compress(&self, data: &[u8]) -> (r: Result<Vec<u8>, CascadeError>)
        ensures
            stage_compress_ok(*self, data@, result_view(r)),
    {
        match self {
            CascadeStage::Tokenizer => Level1Tokenizer.compress(data),
            CascadeStage::PrefixSuffix => Level2PrefixSuffix.compress(data),
            CascadeStage::Delta => Level3Delta.compress(data),
            CascadeStage::Rle => Level4Rle.compress(data),
            CascadeStage::FreqReorder => Level5FreqReorder.compress(data),
            CascadeStage::Zlib => Level6Zlib.compress(data),
        }
    }

    /// Undoes the stage, or `None` where the stage cannot run (see
    /// `stage_decompress_spec`).
    pub fn try_decompress(&self, data: &[u8]) -> (r: Option<Result<Vec<u8>, CascadeError>>)
        ensures
            match r {
                Some(x) => Some(result_view(x)) == stage_decompress_spec(*self, data@),
                None => stage_decompress_spec(*self, data@) is None,
            },
    {
        match self {
            CascadeStage::PrefixSuffix => Level2PrefixSuffix.try_decompress(data),
            _ => Some(self.decompress(data)),
        }
    }

    pub fn decompress(&self, data: &[u8]) -> (r: Result<Vec<u8>, CascadeError>)
        requires
            stage_decompress_spec(*self, data@) is Some,
        ensures
            Some(result_view(r)) == stage_decompress_spec(*self, data@),
    {
        match self {
            CascadeStage::Tokenizer => Level1Tokenizer.decompress(data),
            CascadeStage::PrefixSuffix => Level2PrefixSuffix.decompress(data),
            CascadeStage::Delta => Level3Delta.decompress(data),
            CascadeStage::Rle => Level4Rle.decompress(data),
            CascadeStage::FreqReorder => Level5FreqReorder.decompress(data),
            CascadeStage::Zlib => Level6Zlib.decompress(data),
        }
    }
}

/// Compressing `d` with stage `st` may have outcome `r`.
pub open spec fn step_ok<S: CompressionStage>(st: S, d: Seq<u8>, r: StageResult) -> bool {
    st.compress_ok(d, r)
}

/// `chain` holds `chain[0]` and its successive compressions by `stages`.
pub open spec fn compress_chain<S: CompressionStage>(stages: Seq<S>, chain: Seq<Seq<u8>>) -> bool {
    &&& chain.len() == stages.len() + 1
    &&& forall|i: int| 0 <= i < stages.len() ==> step_ok(#[trigger] stages[i], chain[i], Ok(chain[i + 1]))
}

/// Outcome of decompressing `d` by running `stages` in reverse.
pub open spec fn pipeline_decompress_spec<S: CompressionStage>(stages: Seq<S>, d: Seq<u8>) -> Option<StageResult>
    decreases stages.len(),
{
    if stages.len() == 0 {
        Some(Ok(d))
    } else {
        match stages.last().decompress_outcome(d) {
            Some(Ok(x)) => pipeline_decompress_spec(stages.drop_last(), x),
            other => other,
        }
    }
}

/// Decimal digits of `n`.
pub open spec fn decimal(n: nat) -> Seq<char>
    decreases n,
{
    if n < 10 {
        seq![digit_char(n)]
    } else {
        decimal(n / 10).push(digit_char(n % 10))
    }
}

/// The character of decimal digit `d`.
pub open spec fn digit_char(d: nat) -> char {
    if d == 0 {
        '0'
    } else if d == 1 {
        '1'
    } else if d == 2 {
        '2'
    } else if d == 3 {
        '3'
    } else if d == 4 {
        '4'
    } else if d == 5 {
        '5'
    } else if d == 6 {
        '6'
    } else if d == 7 {
        '7'
    } else if d == 8 {
        '8'
    } else {
        '9'
    }
}

pub(crate) fn digit_str(d: usize) -> (r: &'static str)
    requires
        d < 10,
    ensures
        r@ == seq![digit_char(d as nat)],
{
    proof {
        reveal_strlit("0");
        reveal_strlit("1");
        reveal_strlit("2");
        reveal_strlit("3");
        reveal_strlit("4");
        reveal_strlit("5");
        reveal_strlit("6");
        reveal_strlit("7");
        reveal_strlit("8");
        reveal_strlit("9");
    }
    if d == 0 {
        "0"
    } else if d == 1 {
        "1"
    } else if d == 2 {
        "2"
    } else if d == 3 {
        "3"
    } else if d == 4 {
        "4"
    } else if d == 5 {
        "5"
    } else if d == 6 {
        "6"
    } else if d == 7 {
        "7"
    } else if d == 8 {
        "8"
    } else {
        "9"
    }
}

/// Appends the decimal digits of `n`.
pub(crate) fn push_decimal(s: &mut String, n: usize)
    ensures
        final(s)@ == old(s)@ + decimal(n as nat),
    decreases n,
{
    if n >= 10 {
        push_decimal(s, n / 10);
    }
    s.append(digit_str(n % 10));
    assert(final(s)@ =~= old(s)@ + decimal(n as nat));
}

/// Label of the `n`-th level in the intermediate sizes.
pub open spec fn level_label(n: nat) -> Seq<char> {
    seq!['L', 'e', 'v', 'e', 'l', ' '] + decimal(n)
}

/// Label and size of each step of a compression.
pub type CascadeIntermediates = Vec<(String, usize)>;

/// The intermediate sizes record the input and every stage's output.
pub open spec fn intermediates_match(inter: Seq<(String, usize)>, chain: Seq<Seq<u8>>) -> bool {
    &&& inter.len() == chain.len()
    &&& inter[0].0@ == seq!['I', 'n', 'p', 'u', 't']
    &&& forall|i: int| 0 <= i < inter.len() ==> (#[trigger] inter[i]).1 as int == chain[i].len()
    &&& forall|i: int| 1 <= i < inter.len() ==> (#[trigger] inter[i]).0@ == level_label(i as nat)
}

/// A chain of reversible stages.
pub struct UFOPipeline<S: CompressionStage> {
    stages: Vec<S>,
}

impl<S: CompressionStage> UFOPipeline<S> {
    /// The stages, in compression order.
    pub closed spec fn stage_list(&self) -> Seq<S> {
        self.stages@
    }

    pub fn new(stages: Vec<S>) -> (r: Self)
        ensures
            r.stage_list() == stages@,
    {
        UFOPipeline { stages }
    }

    /// Runs every stage in order. On success, returns the last output and the
    /// size after each step; on failure, the error of the first stage that failed.
    pub fn compress(&self, data: &[u8]) -> (r: Result<(Vec<u8>, CascadeIntermediates), CascadeError>)
        ensures
            match r {
                Ok((out, inter)) => exists|chain: Seq<Seq<u8>>|
                    #[trigger] compress_chain(self.stage_list(), chain) && chain[0] == data@ && chain.last()
                        == out@ && intermediates_match(inter@, chain),
                Err(e) => exists|chain: Seq<Seq<u8>>|
                    #[trigger] compress_chain(self.stage_list().subrange(0, chain.len() - 1), chain)
                        && chain[0] == data@ && chain.len() <= self.stage_list().len()
                        && step_ok(
                        self.stage_list()[chain.len() - 1],
                        chain.last(),
                        Err(e),
                    ),
            },
    {
        let ghost st = self.stages@;
        let mut current: Vec<u8> = vstd::slice::slice_to_vec(data);
        let mut intermediates: Vec<(String, usize)> = Vec::new();
        let input_label: String = "Input".to_owned();
        proof {
            reveal_strlit("Input");
        }
        intermediates.push((input_label, data.len()));
        let ghost mut chain: Seq<Seq<u8>> = seq![data@];
        assert(intermediates@[0].0@ =~= seq!['I', 'n', 'p', 'u', 't']);
        assert(intermediates@[0].1 as int == chain[0].len());
        assert(st.subrange(0, 0) =~= Seq::<S>::empty());
        let mut i: usize = 0;
        while i < self.stages.len()
            invariant
                i <= st.len(),
                st == self.stages@,
                chain.len() == i + 1,
                chain[0] == data@,
                chain.last() == current@,
                compress_chain(st.subrange(0, i as int), chain),
                intermediates_match(intermediates@, chain),
            decreases st.len() - i,
        {
            let stage: &S = &self.stages[i];
            let next = match stage.compress(current.as_slice()) {
                Ok(v) => v,
                Err(e) => {
                    assert(self.stage_list().subrange(0, chain.len() - 1) == st.subrange(0, i as int));
                    assert(compress_chain(self.stage_list().subrange(0, chain.len() - 1), chain));
                    return Err(e);
                },
            };
            let mut label: String = "Level ".to_owned();
            proof {
                reveal_strlit("Level ");
            }
            push_decimal(&mut label, i + 1);
            assert(label@ =~= level_label((i + 1) as nat));
            let size: usize = next.len();
            let ghost old_inter = intermediates@;
            intermediates.push((label, size));
            proof {
                let c0 = chain;
                chain = chain.push(next@);
                assert forall|j: int| 0 <= j < i + 1 implies step_ok(
                    #[trigger] st.subrange(0, i + 1)[j],
                    chain[j],
                    Ok(chain[j + 1]),
                ) by {
                    if j < i {
                        assert(st.subrange(0, i as int)[j] == st[j]);
                        assert(step_ok(st.subrange(0, i as int)[j], c0[j], Ok(c0[j + 1])));
                    }
                }
                assert forall|j: int| 0 <= j < intermediates@.len() implies (#[trigger] intermediates@[j]).1 as int
                    == chain[j].len() by {
                    if j < i + 1 {
                        assert(intermediates@[j] == old_inter[j]);
                    }
                }
                assert forall|j: int| 1 <= j < intermediates@.len() implies (#[trigger] intermediates@[j]).0@
                    == level_label(j as nat) by {
                    if j < i + 1 {
                        assert(intermediates@[j] == old_inter[j]);
                    }
                }
            }
            current = next;
            i += 1;
        }
        assert(st.subrange(0, st.len() as int) =~= st);
        assert(compress_chain(self.stage_list(), chain));
        Ok((current, intermediates))
    }

    /// Undoes the stages in reverse order, or `None` where a stage cannot run.
    pub fn try_decompress(&self, data: &[u8]) -> (r: Option<Result<Vec<u8>, CascadeError>>)
        ensures
            match r {
                Some(x) => Some(result_view(x)) == pipeline_decompress_spec(self.stage_list(), data@),
                None => pipeline_decompress_spec(self.stage_list(), data@) is None,
            },
    {
        let ghost st = self.stages@;
        let mut current: Vec<u8> = vstd::slice::slice_to_vec(data);
        let mut i: usize = self.stages.len();
        assert(st.subrange(0, st.len() as int) =~= st);
        while i > 0
            invariant
                i <= st.len(),
                st == self.stages@,
                pipeline_decompress_spec(st, data@) == pipeline_decompress_spec(st.subrange(0, i as int), current@),
            decreases i,
        {
            let stage: &S = &self.stages[i - 1];
            assert(st.subrange(0, i as int).last() == *stage);
            assert(st.subrange(0, i as int).drop_last() =~= st.subrange(0, i - 1));
            current = match stage.try_decompress(current.as_slice()) {
                Some(Ok(v)) => v,
                Some(Err(e)) => {
                    return Some(Err(e));
                },
                None => {
                    return None;
                },
            };
            i -= 1;
        }
        Some(Ok(current))
    }

    /// Undoes the stages in reverse order.
    pub fn decompress(&self, data: &[u8]) -> (r: Result<Vec<u8>, CascadeError>)
        requires
            pipeline_decompress_spec(self.stage_list(), data@) is Some,
        ensures
            Some(result_view(r)) == pipeline_decompress_spec(self.stage_list(), data@),
    {
        let ghost st = self.stages@;
        let mut current: Vec<u8> = vstd::slice::slice_to_vec(data);
        let mut i: usize = self.stages.len();
        assert(st.subrange(0, st.len() as int) =~= st);
        while i > 0
            invariant
                i <= st.len(),
                st == self.stages@,
                pipeline_decompress_spec(st, data@) == pipeline_decompress_spec(st.subrange(0, i as int), current@),
                pipeline_decompress_spec(st, data@) is Some,
            decreases i,
        {
            let stage: &S = &self.stages[i - 1];
            assert(st.subrange(0, i as int).last() == *stage);
            assert(st.subrange(0, i as int).drop_last() =~= st.subrange(0, i - 1));
            current = match stage.decompress(current.as_slice()) {
                Ok(v) => v,
                Err(e) => {
                    return Err(e);
                },
            };
            i -= 1;
        }
        Ok(current)
    }
}

// ---------------------------------------------------------------------------
// Tokenizer round trip
// ---------------------------------------------------------------------------

proof fn lemma_split_flatten(d: Seq<u8>)
    ensures
        split_state(d).0.flatten() + split_state(d).1 == d,
        words_of(d).flatten() == d,
    decreases d.len(),
{
    if d.len() > 0 {
        lemma_split_flatten(d.drop_last());
        let (done, cur, w) = split_state(d.drop_last());
        let b = d.last();
        assert(d.drop_last().push(b) =~= d);
        if cur.len() == 0 {
            assert(done.flatten() + seq![b] =~= done.flatten() + cur + seq![b]);
        } else if w == latin1_alnum(b) && text_width(cur) + char_width(b) <= 255 {
            assert(done.flatten() + cur.push(b) =~= done.flatten() + cur + seq![b]);
        } else {
            done.lemma_flatten_push(cur);
            assert(done.push(cur).flatten() + seq![b] =~= done.flatten() + cur + seq![b]);
        }
    }
    let (done, cur, w) = split_state(d);
    if cur.len() == 0 {
        assert(done.flatten() + cur =~= done.flatten());
    } else {
        done.lemma_flatten_push(cur);
    }
}

proof fn lemma_vocab_covers(words: Seq<Seq<u8>>)
    ensures
        forall|k: int| 0 <= k < words.len() ==> vocab_of(words).contains(#[trigger] words[k]),
        forall|a: int, b: int| 0 <= a < b < vocab_of(words).len() ==> vocab_of(words)[a] != vocab_of(words)[b],
        vocab_of(words).len() <= words.len(),
    decreases words.len(),
{
    if words.len() > 0 {
        let pre = words.drop_last();
        lemma_vocab_covers(pre);
        let v = vocab_of(pre);
        assert forall|k: int| 0 <= k < words.len() implies vocab_of(words).contains(#[trigger] words[k]) by {
            if k < words.len() - 1 {
                assert(pre[k] == words[k]);
                assert(v.contains(pre[k]));
                if !v.contains(words.last()) {
                    let j = choose|j: int| 0 <= j < v.len() && v[j] == pre[k];
                    assert(v.push(words.last())[j] == words[k]);
                }
            } else if !v.contains(words.last()) {
                assert(v.push(words.last())[v.len() as int] == words[k]);
            }
        }
        if !v.contains(words.last()) {
            assert forall|a: int, b: int| 0 <= a < b < vocab_of(words).len() implies vocab_of(words)[a]
                != vocab_of(words)[b] by {
                if b == v.len() {
                    assert(vocab_of(words)[a] == v[a]);
                }
            }
        }
    }
}

proof fn lemma_latin1_utf8_len(w: Seq<u8>)
    ensures
        latin1_utf8(w).len() == text_width(w),
    decreases w.len(),
{
    if w.len() > 0 {
        lemma_latin1_utf8_len(w.drop_last());
    }
}

proof fn lemma_char_utf8(b: u8)
    ensures
        vstd::utf8::valid_first_scalar(latin1_char_utf8(b)),
        vstd::utf8::length_of_first_scalar(latin1_char_utf8(b)) == latin1_char_utf8(b).len(),
        vstd::utf8::decode_first_scalar(latin1_char_utf8(b)) == b as u32,
{
    let c = latin1_char_utf8(b);
    if b < 0x80 {
        assert((b & 0x7F) == b) by (bit_vector)
            requires b < 0x80u8;
    } else {
        let c0: u8 = 0xC0u8 | (b >> 6u8);
        let c1: u8 = 0x80u8 | (b & 0x3Fu8);
        assert(((((c0 & 0x1F) as u32) << 6u32) | ((c1 & 0x3F) as u32)) == b as u32) by (bit_vector)
            requires
                b >= 0x80u8,
                c0 == 0xC0u8 | (b >> 6u8),
                c1 == 0x80u8 | (b & 0x3Fu8),
        ;
        assert(0xC0u8 <= c0 <= 0xDFu8 && 0x80u8 <= c1 <= 0xBFu8) by (bit_vector)
            requires
                b >= 0x80u8,
                c0 == 0xC0u8 | (b >> 6u8),
                c1 == 0x80u8 | (b & 0x3Fu8),
        ;
        assert(c[0] == c0 && c[1] == c1);
    }
}

proof fn lemma_low_bytes_concat(a: Seq<u8>, b: Seq<u8>)
    requires
        vstd::utf8::valid_utf8(a),
    ensures
        utf8_low_bytes(a + b) == utf8_low_bytes(a) + utf8_low_bytes(b),
    decreases a.len(),
{
    if a.len() == 0 {
        assert(a + b =~= b);
        assert(utf8_low_bytes(a) =~= Seq::<u8>::empty());
        assert(Seq::<u8>::empty() + utf8_low_bytes(b) =~= utf8_low_bytes(b));
    } else {
        let ab = a + b;
        let n = vstd::utf8::length_of_first_scalar(a);
        assert(1 <= n <= a.len());
        assert(forall|i: int| 0 <= i < a.len() ==> ab[i] == a[i]);
        assert(vstd::utf8::valid_first_scalar(ab));
        assert(vstd::utf8::decode_first_scalar(ab) == vstd::utf8::decode_first_scalar(a));
        assert(vstd::utf8::length_of_first_scalar(ab) == n);
        let rest = vstd::utf8::pop_first_scalar(a);
        assert(vstd::utf8::pop_first_scalar(ab) =~= rest + b);
        lemma_low_bytes_concat(rest, b);
        assert(utf8_low_bytes(ab) =~= utf8_low_bytes(a) + utf8_low_bytes(b));
    }
}

proof fn lemma_latin1_round_trip(w: Seq<u8>)
    ensures
        vstd::utf8::valid_utf8(latin1_utf8(w)),
        utf8_low_bytes(latin1_utf8(w)) == w,
    decreases w.len(),
{
    if w.len() == 0 {
        assert(utf8_low_bytes(Seq::<u8>::empty()) =~= w);
    } else {
        let pre = w.drop_last();
        let b = w.last();
        lemma_latin1_round_trip(pre);
        let c = latin1_char_utf8(b);
        lemma_char_utf8(b);
        assert(vstd::utf8::pop_first_scalar(c) =~= Seq::<u8>::empty());
        assert(vstd::utf8::valid_utf8(Seq::<u8>::empty()));
        assert(vstd::utf8::valid_utf8(c));
        vstd::utf8::valid_utf8_concat(latin1_utf8(pre), c);
        lemma_low_bytes_concat(latin1_utf8(pre), c);
        assert(utf8_low_bytes(Seq::<u8>::empty()) =~= Seq::<u8>::empty());
        assert(utf8_low_bytes(c) =~= seq![b]);
        assert(pre.push(b) =~= w);
        assert(pre + seq![b] =~= w);
    }
}

proof fn lemma_flatten_split<A>(s: Seq<Seq<A>>, k: int)
    requires
        0 <= k < s.len(),
    ensures
        s.flatten() == s.subrange(0, k).flatten() + s[k] + s.subrange(k + 1, s.len() as int).flatten(),
        s.subrange(0, k + 1).flatten() == s.subrange(0, k).flatten() + s[k],
{
    vstd::seq_lib::lemma_flatten_concat(s.subrange(0, k + 1), s.subrange(k + 1, s.len() as int));
    assert(s.subrange(0, k + 1) + s.subrange(k + 1, s.len() as int) =~= s);
    assert(s.subrange(0, k + 1) =~= s.subrange(0, k).push(s[k]));
    s.subrange(0, k).lemma_flatten_push(s[k]);
}

proof fn lemma_parse_vocab_entries(out: Seq<u8>, vocab: Seq<Seq<u8>>, tail: Seq<u8>, k: int)
    requires
        0 <= k <= vocab.len() <= 65535,
        forall|j: int| 0 <= j < vocab.len() ==> text_width(#[trigger] vocab[j]) <= 255,
        out == be16(vocab.len() as int) + vocab.map_values(|w: Seq<u8>| vocab_entry(w)).flatten() + tail,
    ensures
        parse_vocab(
            out,
            2 + vocab.map_values(|w: Seq<u8>| vocab_entry(w)).subrange(0, k).flatten().len() as int,
            k,
            vocab.len() as int,
            vocab.map_values(|w: Seq<u8>| latin1_utf8(w)).subrange(0, k),
        ) == Ok::<(Seq<Seq<u8>>, int), CascadeError>(
            (
                vocab.map_values(|w: Seq<u8>| latin1_utf8(w)),
                2 + vocab.map_values(|w: Seq<u8>| vocab_entry(w)).flatten().len() as int,
            ),
        ),
    decreases vocab.len() - k,
{
    let ents = vocab.map_values(|w: Seq<u8>| vocab_entry(w));
    let raws = vocab.map_values(|w: Seq<u8>| latin1_utf8(w));
    if k == vocab.len() {
        assert(ents.subrange(0, k) =~= ents);
        assert(raws.subrange(0, k) =~= raws);
    } else {
        let pre = ents.subrange(0, k).flatten();
        let post = ents.subrange(k + 1, ents.len() as int).flatten();
        lemma_flatten_split(ents, k);
        let w = vocab[k];
        let e = vocab_entry(w);
        assert(ents[k] == e);
        let off = 2 + pre.len() as int;
        lemma_latin1_utf8_len(w);
        let n = text_width(w);
        assert(0 <= n <= 255) by {
            lemma_text_width_nonneg(w);
        }
        assert(out =~= be16(vocab.len() as int) + pre + e + (post + tail));
        assert(out[off] == e[0]);
        assert(out[off] as int == n);
        assert(out.subrange(off + 1, off + 1 + n) =~= latin1_utf8(w));
        lemma_latin1_round_trip(w);
        assert(raws.subrange(0, k).push(latin1_utf8(w)) =~= raws.subrange(0, k + 1));
        lemma_parse_vocab_entries(out, vocab, tail, k + 1);
    }
}

proof fn lemma_parse_token_ids(
    out: Seq<u8>,
    head: Seq<u8>,
    vocab: Seq<Seq<u8>>,
    words: Seq<Seq<u8>>,
    k: int,
)
    requires
        0 <= k <= words.len(),
        vocab.len() <= 65535,
        forall|j: int| 0 <= j < words.len() ==> vocab.contains(#[trigger] words[j]),
        forall|a: int, b: int| 0 <= a < b < vocab.len() ==> vocab[a] != vocab[b],
        out == head + words.map_values(|w: Seq<u8>| token_code(pos_in(vocab, w), vocab.len() > 256)).flatten(),
    ensures
        parse_tokens(
            out,
            head.len() + words.map_values(|w: Seq<u8>| token_code(pos_in(vocab, w), vocab.len() > 256)).subrange(
                0,
                k,
            ).flatten().len() as int,
            vocab.map_values(|w: Seq<u8>| latin1_utf8(w)),
            vocab.len() > 256,
            words.subrange(0, k).flatten(),
        ) == Ok::<Seq<u8>, CascadeError>(words.flatten()),
    decreases words.len() - k,
{
    let two = vocab.len() > 256;
    let codes = words.map_values(|w: Seq<u8>| token_code(pos_in(vocab, w), two));
    let raws = vocab.map_values(|w: Seq<u8>| latin1_utf8(w));
    if k == words.len() {
        assert(codes.subrange(0, k) =~= codes);
        assert(words.subrange(0, k) =~= words);
    } else {
        let pre = codes.subrange(0, k).flatten();
        let post = codes.subrange(k + 1, codes.len() as int).flatten();
        lemma_flatten_split(codes, k);
        lemma_flatten_split(words, k);
        let w = words[k];
        let id = pos_in(vocab, w);
        lemma_pos_in_contains(vocab, w);
        let c = token_code(id, two);
        assert(codes[k] == c);
        let off = head.len() + pre.len() as int;
        assert(out =~= head + pre + c + post);
        if two {
            assert(out[off] == c[0] && out[off + 1] == c[1]);
            assert(read_be16(out, off) == id);
        } else {
            assert(out[off] == c[0]);
            assert(out[off] as int == id);
        }
        assert(raws[id] == latin1_utf8(w));
        lemma_latin1_round_trip(w);
        lemma_parse_token_ids(out, head, vocab, words, k + 1);
    }
}

/// Detokenization restores every text that tokenization encodes.
pub proof fn lemma_tokenizer_round_trip(d: Seq<u8>)
    requires
        tokenize_spec(d) is Ok,
    ensures
        detokenize_spec(tokenize_spec(d)->Ok_0) == Ok::<Seq<u8>, CascadeError>(d),
{
    let words = words_of(d);
    let vocab = vocab_of(words);
    let two = vocab.len() > 256;
    let ents = vocab.map_values(|w: Seq<u8>| vocab_entry(w));
    let codes = words.map_values(|w: Seq<u8>| token_code(pos_in(vocab, w), two));
    let out = be16(vocab.len() as int) + ents.flatten() + codes.flatten();
    assert(tokenize_spec(d) == Ok::<Seq<u8>, CascadeError>(out));
    lemma_split_flatten(d);
    lemma_vocab_covers(words);
    assert(chunks_fit(words_of(d))) by {
        lemma_words_fit(d);
    }
    assert forall|j: int| 0 <= j < vocab.len() implies text_width(#[trigger] vocab[j]) <= 255 by {
        lemma_vocab_from_words(words, j);
        let m = choose|m: int| 0 <= m < words.len() && words[m] == vocab[j];
        assert(text_width(words[m]) <= 255);
    }
    assert(read_be16(out, 0) == vocab.len());
    lemma_parse_vocab_entries(out, vocab, codes.flatten(), 0);
    assert(ents.subrange(0, 0) =~= Seq::<Seq<u8>>::empty());
    assert(vocab.map_values(|w: Seq<u8>| latin1_utf8(w)).subrange(0, 0) =~= Seq::<Seq<u8>>::empty());
    let head = be16(vocab.len() as int) + ents.flatten();
    lemma_parse_token_ids(out, head, vocab, words, 0);
    assert(codes.subrange(0, 0) =~= Seq::<Seq<u8>>::empty());
    assert(words.subrange(0, 0) =~= Seq::<Seq<u8>>::empty());
}

proof fn lemma_words_fit(d: Seq<u8>)
    ensures
        chunks_fit(words_of(d)),
        chunks_fit(split_state(d).0),
        split_state(d).1.len() > 0 ==> text_width(split_state(d).1) <= 255,
        split_state(d).1.len() == 0 ==> d.len() == 0,
    decreases d.len(),
{
    if d.len() > 0 {
        lemma_words_fit(d.drop_last());
        let (done, cur, w) = split_state(d.drop_last());
        let b = d.last();
        assert(text_width(seq![b]) == text_width(Seq::<u8>::empty()) + char_width(b)) by {
            assert(seq![b].drop_last() =~= Seq::<u8>::empty());
        }
        if cur.len() > 0 && w == latin1_alnum(b) && text_width(cur) + char_width(b) <= 255 {
            assert(cur.push(b).drop_last() =~= cur);
        } else if cur.len() > 0 {
            assert forall|k: int| 0 <= k < done.push(cur).len() implies (#[trigger] done.push(cur)[k]).len() > 0
                && text_width(done.push(cur)[k]) <= 255 by {
                if k < done.len() {
                    assert(done.push(cur)[k] == done[k]);
                }
            }
        }
    }
    let (done, cur, w) = split_state(d);
    if cur.len() > 0 {
        assert forall|k: int| 0 <= k < done.push(cur).len() implies (#[trigger] done.push(cur)[k]).len() > 0
            && text_width(done.push(cur)[k]) <= 255 by {
            if k < done.len() {
                assert(done.push(cur)[k] == done[k]);
            }
        }
    }
}

/// Every stage undoes itself: whatever a stage compresses successfully, its
/// decompression gives back unchanged.
pub proof fn lemma_stage_round_trip(st: CascadeStage, d: Seq<u8>, out: Seq<u8>)
    requires
        stage_compress_ok(st, d, Ok(out)),
    ensures
        stage_decompress_spec(st, out) == Some(Ok::<Seq<u8>, CascadeError>(d)),
{
    match st {
        CascadeStage::Tokenizer => {
            lemma_tokenizer_round_trip(d);
        },
        CascadeStage::PrefixSuffix => {
            lemma_dedup_round_trip(d);
        },
        CascadeStage::Delta => {
            if d.len() <= 65535 {
                lemma_delta_round_trip(d);
            }
        },
        CascadeStage::Rle => {
            if d.len() <= 65535 {
                lemma_rle_round_trip(d);
            }
        },
        CascadeStage::FreqReorder => {
            lemma_reorder_round_trip(d, out);
        },
        CascadeStage::Zlib => {
            let body = zlib_deflated(d);
            assert(out == be16(d.len() as int) + body);
            assert(out.subrange(2, out.len() as int) =~= body);
        },
    }
}

/// Every stage is a function of its input: two outcomes that compressing `d`
/// with `st` may have are the same outcome.
pub proof fn lemma_stage_compress_determined(st: CascadeStage, d: Seq<u8>, r1: StageResult, r2: StageResult)
    requires
        stage_compress_ok(st, d, r1),
        stage_compress_ok(st, d, r2),
    ensures
        r1 == r2,
{
    if st == CascadeStage::FreqReorder && d.len() > 0 && d.len() <= 65535 {
        let o1 = r1->Ok_0;
        let o2 = r2->Ok_0;
        lemma_rank_table_unique(d, carried_table(o1), carried_table(o2));
    }
}

/// Two compression chains of the same stages from the same input are the same
/// chain.
pub proof fn lemma_compress_chain_unique<S: CompressionStage>(stages: Seq<S>, c1: Seq<Seq<u8>>, c2: Seq<Seq<u8>>)
    requires
        compress_chain(stages, c1),
        compress_chain(stages, c2),
        c1[0] == c2[0],
    ensures
        c1 == c2,
    decreases stages.len(),
{
    if stages.len() > 0 {
        let n = stages.len() - 1;
        let pre = stages.drop_last();
        assert forall|i: int| 0 <= i < pre.len() implies step_ok(#[trigger] pre[i], c1.drop_last()[i], Ok(c1.drop_last()[i + 1])) by {
            assert(step_ok(stages[i], c1[i], Ok(c1[i + 1])));
        }
        assert forall|i: int| 0 <= i < pre.len() implies step_ok(#[trigger] pre[i], c2.drop_last()[i], Ok(c2.drop_last()[i + 1])) by {
            assert(step_ok(stages[i], c2[i], Ok(c2[i + 1])));
        }
        lemma_compress_chain_unique(pre, c1.drop_last(), c2.drop_last());
        assert(c1[n] == c1.drop_last()[n]);
        assert(c2[n] == c2.drop_last()[n]);
        assert(step_ok(stages[n], c1[n], Ok(c1[n + 1])));
        assert(step_ok(stages[n], c2[n], Ok(c2[n + 1])));
        stages[n].lemma_compress_determined(c1[n], Ok(c1[n + 1]), Ok(c2[n + 1]));
        assert(c1 =~= c1.drop_last().push(c1[n + 1]));
        assert(c2 =~= c2.drop_last().push(c2[n + 1]));
    }
}

/// When every stage compresses its predecessor's output, the pipeline cannot
/// report a failing stage: its compression then succeeds.
pub proof fn lemma_pipeline_compress_succeeds<S: CompressionStage>(stages: Seq<S>, chain: Seq<Seq<u8>>, pre: Seq<Seq<u8>>, e: CascadeError)
    requires
        compress_chain(stages, chain),
        1 <= pre.len() <= stages.len(),
        compress_chain(stages.subrange(0, pre.len() - 1), pre),
        pre[0] == chain[0],
    ensures
        !step_ok(stages[pre.len() - 1], pre.last(), Err(e)),
{
    let k = pre.len() - 1;
    let sub = stages.subrange(0, k);
    let c = chain.subrange(0, k + 1);
    assert forall|i: int| 0 <= i < sub.len() implies step_ok(#[trigger] sub[i], c[i], Ok(c[i + 1])) by {
        assert(step_ok(stages[i], chain[i], Ok(chain[i + 1])));
    }
    lemma_compress_chain_unique(sub, c, pre);
    assert(pre.last() == chain[k]);
    assert(step_ok(stages[k], chain[k], Ok(chain[k + 1])));
    if step_ok(stages[k], pre.last(), Err(e)) {
        stages[k].lemma_compress_determined(chain[k], Ok(chain[k + 1]), Err(e));
    }
}

/// The cascade is lossless: decompressing what a pipeline compressed gives back
/// the original input, for any list of stages.
pub proof fn lemma_pipeline_round_trip<S: CompressionStage>(stages: Seq<S>, chain: Seq<Seq<u8>>)
    requires
        compress_chain(stages, chain),
    ensures
        pipeline_decompress_spec(stages, chain.last()) == Some(Ok::<Seq<u8>, CascadeError>(chain[0])),
    decreases stages.len(),
{
    if stages.len() > 0 {
        let n = stages.len() - 1;
        assert(step_ok(stages[n], chain[n], Ok(chain[n + 1])));
        stages[n].lemma_round_trip(chain[n], chain[n + 1]);
        let pre = stages.drop_last();
        let c0 = chain.drop_last();
        assert forall|i: int| 0 <= i < pre.len() implies step_ok(#[trigger] pre[i], c0[i], Ok(c0[i + 1])) by {
            assert(step_ok(stages[i], chain[i], Ok(chain[i + 1])));
        }
        lemma_pipeline_round_trip(pre, c0);
    }
}

// ---------------------------------------------------------------------------
// Model fallback chain
// ---------------------------------------------------------------------------

/// Where a model runs, from most local to most remote.
#[derive(Debug, Clone, Copy, PartialEq, Eq, Hash, Structural)]
pub enum ModelTier {
    LocalGpu,
    LocalCpu,
    P2pSwarm,
    RemoteMcp,
}

/// A model endpoint with its circuit-breaker threshold.
#[derive(Debug, Clone)]
pub struct ModelEndpoint {
    pub name: String,
    pub tier: ModelTier,
    pub enabled: bool,
    pub max_consecutive_failures: usize,
}

/// Consecutive failures recorded for endpoint name `nm` (the last entry for it).
pub open spec fn fail_count(fails: Seq<(String, usize)>, nm: Seq<char>) -> int
    decreases fails.len(),
{
    if fails.len() == 0 {
        0
    } else if fails.last().0@ == nm {
        fails.last().1 as int
    } else {
        fail_count(fails.drop_last(), nm)
    }
}

/// Endpoint `e` may be tried: it is enabled and its breaker is closed.
pub open spec fn available(e: ModelEndpoint, fails: Seq<(String, usize)>) -> bool {
    e.enabled && fail_count(fails, e.name@) < e.max_consecutive_failures
}

proof fn lemma_fail_count_nonneg(fails: Seq<(String, usize)>, nm: Seq<char>)
    ensures
        fail_count(fails, nm) >= 0,
    decreases fails.len(),
{
    if fails.len() > 0 {
        lemma_fail_count_nonneg(fails.drop_last(), nm);
    }
}

/// A failure count `c` for name `nm` that some endpoint of that name allows:
/// a count rises one failure at a time, and only while the breaker is closed,
/// so it never passes the breaker's limit.
pub open spec fn within_breaker(eps: Seq<ModelEndpoint>, nm: Seq<char>, c: int) -> bool {
    exists|j: int| 0 <= j < eps.len() && #[trigger] eps[j].name@ == nm && c <= eps[j].max_consecutive_failures
}

/// Some endpoint of `eps` named `nm` is one on which `f` may fail.
pub open spec fn failed_on<F: Fn(&ModelEndpoint) -> Result<String, String>>(f: F, eps: Seq<ModelEndpoint>, nm: Seq<char>) -> bool {
    exists|j: int|
        0 <= j < eps.len() && eps[j].name@ == nm && exists|m: String| #[trigger] f.ensures((&eps[j],), Err::<String, String>(m))
}

/// Tries left for endpoint `e` before its breaker opens.
pub open spec fn tries_left(e: ModelEndpoint, fails: Seq<(String, usize)>) -> int {
    if available(e, fails) {
        e.max_consecutive_failures - fail_count(fails, e.name@)
    } else {
        0
    }
}

/// Tries left over the first `n` endpoints.
pub open spec fn budget(eps: Seq<ModelEndpoint>, fails: Seq<(String, usize)>, n: int) -> int
    decreases n,
{
    if n <= 0 {
        0
    } else {
        budget(eps, fails, n - 1) + tries_left(eps[n - 1], fails)
    }
}

/// Tiered model chain: tries endpoints in order, skipping disabled ones and
/// those whose circuit breaker has opened after too many consecutive failures.
pub struct ModelFallbackChain {
    endpoints: Vec<ModelEndpoint>,
    failures: Vec<(String, usize)>,
}

/// Last position in `fails` recorded for `name`.
fn find_failure(fails: &Vec<(String, usize)>, name: &String) -> (r: Option<usize>)
    ensures
        match r {
            Some(j) => j < fails@.len() && fails@[j as int].0@ == name@ && fail_count(fails@, name@)
                == fails@[j as int].1 && forall|k: int| j < k < fails@.len() ==> fails@[k].0@ != name@,
            None => fail_count(fails@, name@) == 0 && forall|k: int| 0 <= k < fails@.len() ==> fails@[k].0@ != name@,
        },
{
    let mut j: usize = fails.len();
    assert(fails@.subrange(0, fails@.len() as int) =~= fails@);
    while j > 0
        invariant
            j <= fails@.len(),
            forall|k: int| j <= k < fails@.len() ==> fails@[k].0@ != name@,
            fail_count(fails@, name@) == fail_count(fails@.subrange(0, j as int), name@),
        decreases j,
    {
        let ghost pre = fails@.subrange(0, j as int);
        assert(pre.drop_last() =~= fails@.subrange(0, j - 1));
        if fails[j - 1].0 == *name {
            return Some(j - 1);
        }
        j -= 1;
    }
    None
}

proof fn lemma_fail_count_set(fails: Seq<(String, usize)>, j: int, e: (String, usize), nm: Seq<char>)
    requires
        0 <= j < fails.len(),
        fails[j].0@ == e.0@,
        forall|k: int| j < k < fails.len() ==> fails[k].0@ != e.0@,
    ensures
        fail_count(fails.update(j, e), nm) == if nm == e.0@ {
            e.1 as int
        } else {
            fail_count(fails, nm)
        },
    decreases fails.len(),
{
    let f2 = fails.update(j, e);
    if j < fails.len() - 1 {
        assert(f2.drop_last() =~= fails.drop_last().update(j, e));
        lemma_fail_count_set(fails.drop_last(), j, e, nm);
        assert(f2.last() == fails.last());
    } else {
        assert(f2.drop_last() =~= fails.drop_last());
    }
}

proof fn lemma_fail_count_push(fails: Seq<(String, usize)>, e: (String, usize), nm: Seq<char>)
    ensures
        fail_count(fails.push(e), nm) == if nm == e.0@ {
            e.1 as int
        } else {
            fail_count(fails, nm)
        },
{
    assert(fails.push(e).drop_last() =~= fails);
}

/// Records `count` consecutive failures for `name`.
fn set_failures(fails: &mut Vec<(String, usize)>, name: &String, count: usize)
    ensures
        forall|nm: Seq<char>| #[trigger] fail_count(final(fails)@, nm) == if nm == name@ {
            count as int
        } else {
            fail_count(old(fails)@, nm)
        },
{
    match find_failure(fails, name) {
        Some(j) => {
            let entry = (name.clone(), count);
            let ghost before = fails@;
            fails.set(j, entry);
            assert forall|nm: Seq<char>| #[trigger] fail_count(fails@, nm) == if nm == name@ {
                count as int
            } else {
                fail_count(before, nm)
            } by {
                lemma_fail_count_set(before, j as int, entry, nm);
            }
        },
        None => {
            let entry = (name.clone(), count);
            let ghost before = fails@;
            fails.push(entry);
            assert forall|nm: Seq<char>| #[trigger] fail_count(fails@, nm) == if nm == name@ {
                count as int
            } else {
                fail_count(before, nm)
            } by {
                lemma_fail_count_push(before, entry, nm);
            }
        },
    }
}

proof fn lemma_budget_drops(
    eps: Seq<ModelEndpoint>,
    f1: Seq<(String, usize)>,
    f2: Seq<(String, usize)>,
    k: int,
    n: int,
)
    requires
        0 <= k < eps.len(),
        0 <= n <= eps.len(),
        available(eps[k], f1),
        forall|nm: Seq<char>| #[trigger] fail_count(f2, nm) == if nm == eps[k].name@ {
            fail_count(f1, nm) + 1
        } else {
            fail_count(f1, nm)
        },
    ensures
        budget(eps, f2, n) <= budget(eps, f1, n),
        n > k ==> budget(eps, f2, n) < budget(eps, f1, n),
        budget(eps, f2, n) >= 0,
    decreases n,
{
    if n > 0 {
        lemma_budget_drops(eps, f1, f2, k, n - 1);
        let e = eps[n - 1];
        assert(fail_count(f2, e.name@) == fail_count(f1, e.name@) || fail_count(f2, e.name@) == fail_count(
            f1,
            e.name@,
        ) + 1);
        assert(fail_count(f2, eps[k].name@) == fail_count(f1, eps[k].name@) + 1);
    }
}

impl ModelFallbackChain {
    /// Endpoints, in the order they are tried.
    pub closed spec fn endpoint_list(&self) -> Seq<ModelEndpoint> {
        self.endpoints@
    }

    /// Consecutive failures recorded per endpoint name.
    pub closed spec fn failure_log(&self) -> Seq<(String, usize)> {
        self.failures@
    }

    /// First endpoint that may be tried, if any.
    pub open spec fn first_available(&self, i: int) -> bool {
        &&& 0 <= i < self.endpoint_list().len()
        &&& available(self.endpoint_list()[i], self.failure_log())
        &&& forall|j: int| 0 <= j < i ==> !available(#[trigger] self.endpoint_list()[j], self.failure_log())
    }

    /// A chain over `endpoints` with no failures recorded.
    pub fn new(endpoints: Vec<ModelEndpoint>) -> (r: Self)
        ensures
            r.endpoint_list() == endpoints@,
            forall|nm: Seq<char>| #[trigger] fail_count(r.failure_log(), nm) == 0,
    {
        ModelFallbackChain { endpoints, failures: Vec::new() }
    }

    /// Local GPU, local CPU, peer swarm, then remote server, each with a breaker
    /// that opens after three consecutive failures.
    pub fn default_cascade() -> (r: Self)
        ensures
            r.endpoint_list().len() == 4,
            r.endpoint_list()[0].name@ == "local-gpu-gguf"@,
            r.endpoint_list()[1].name@ == "local-cpu-quantized"@,
            r.endpoint_list()[2].name@ == "p2p-swarm-node"@,
            r.endpoint_list()[3].name@ == "remote-mcp-server"@,
            r.endpoint_list()[0].tier == ModelTier::LocalGpu,
            r.endpoint_list()[1].tier == ModelTier::LocalCpu,
            r.endpoint_list()[2].tier == ModelTier::P2pSwarm,
            r.endpoint_list()[3].tier == ModelTier::RemoteMcp,
            forall|i: int| 0 <= i < 4 ==> (#[trigger] r.endpoint_list()[i]).enabled && r.endpoint_list()[i].max_consecutive_failures == 3,
            forall|nm: Seq<char>| #[trigger] fail_count(r.failure_log(), nm) == 0,
    {
        let mut endpoints: Vec<ModelEndpoint> = Vec::new();
        endpoints.push(ModelEndpoint { name: "local-gpu-gguf".to_owned(), tier: ModelTier::LocalGpu, enabled: true, max_consecutive_failures: 3 });
        endpoints.push(ModelEndpoint { name: "local-cpu-quantized".to_owned(), tier: ModelTier::LocalCpu, enabled: true, max_consecutive_failures: 3 });
        endpoints.push(ModelEndpoint { name: "p2p-swarm-node".to_owned(), tier: ModelTier::P2pSwarm, enabled: true, max_consecutive_failures: 3 });
        endpoints.push(ModelEndpoint { name: "remote-mcp-server".to_owned(), tier: ModelTier::RemoteMcp, enabled: true, max_consecutive_failures: 3 });
        Self::new(endpoints)
    }

    /// Position of the first endpoint that may be tried.
    fn next_available(&self) -> (r: Option<usize>)
        ensures
            match r {
                Some(i) => self.first_available(i as int),
                None => forall|j: int| 0 <= j < self.endpoint_list().len() ==> !available(#[trigger] self.endpoint_list()[j], self.failure_log()),
            },
    {
        let mut i: usize = 0;
        while i < self.endpoints.len()
            invariant
                i <= self.endpoints@.len(),
                forall|j: int| 0 <= j < i ==> !available(#[trigger] self.endpoint_list()[j], self.failure_log()),
            decreases self.endpoints@.len() - i,
        {
            let e = &self.endpoints[i];
            if e.enabled {
                let count: usize = match find_failure(&self.failures, &e.name) {
                    Some(j) => self.failures[j].1,
                    None => 0,
                };
                if count < e.max_consecutive_failures {
                    return Some(i);
                }
            }
            i += 1;
        }
        None
    }

    /// Tries the first available endpoint. A success clears its failure count and
    /// returns the output with the endpoint's tier; a failure adds one to its count
    /// and starts over from the first endpoint. Gives up once no endpoint is
    /// available.
    pub fn execute_with_fallback<F: Fn(&ModelEndpoint) -> Result<String, String>>(&mut self, generate_fn: F) -> (r: Result<(String, ModelTier), CascadeError>)
        requires
            forall|e: &ModelEndpoint| #[trigger] generate_fn.requires((e,)),
        ensures
            final(self).endpoint_list() == old(self).endpoint_list(),
            match r {
                Ok((out, tier)) => exists|i: int|
                    0 <= i < final(self).endpoint_list().len() && #[trigger] final(self).endpoint_list()[i].tier == tier
                        && final(self).endpoint_list()[i].enabled
                        && available(final(self).endpoint_list()[i], old(self).failure_log())
                        && generate_fn.ensures((&final(self).endpoint_list()[i],), Ok::<String, String>(out))
                        && fail_count(final(self).failure_log(), final(self).endpoint_list()[i].name@) == 0
                        && forall|j: int| 0 <= j < i && final(self).endpoint_list()[j].name@ != final(self).endpoint_list()[i].name@
                            ==> !available(#[trigger] final(self).endpoint_list()[j], final(self).failure_log()),
                Err(e) => e == CascadeError::AllEndpointsFailed && forall|j: int| 0 <= j < final(self).endpoint_list().len()
                    ==> !available(#[trigger] final(self).endpoint_list()[j], final(self).failure_log()),
            },
            match r {
                Ok(_) => exists|i: int|
                    0 <= i < final(self).endpoint_list().len() && #[trigger] fail_count(
                        final(self).failure_log(),
                        final(self).endpoint_list()[i].name@,
                    ) == 0 && (exists|out: String| generate_fn.ensures((&final(self).endpoint_list()[i],), Ok::<String, String>(out)))
                        && forall|nm: Seq<char>|
                        nm != final(self).endpoint_list()[i].name@ ==> #[trigger] fail_count(final(self).failure_log(), nm)
                            >= fail_count(old(self).failure_log(), nm),
                Err(_) => forall|nm: Seq<char>|
                    #[trigger] fail_count(final(self).failure_log(), nm) >= fail_count(old(self).failure_log(), nm),
            },
            forall|nm: Seq<char>|
                #[trigger] fail_count(final(self).failure_log(), nm) > fail_count(old(self).failure_log(), nm)
                    ==> failed_on(generate_fn, final(self).endpoint_list(), nm),
            forall|nm: Seq<char>|
                #[trigger] fail_count(final(self).failure_log(), nm) > fail_count(old(self).failure_log(), nm)
                    ==> within_breaker(final(self).endpoint_list(), nm, fail_count(final(self).failure_log(), nm)),
            (forall|j: int| 0 <= j < old(self).endpoint_list().len() ==> !available(
                #[trigger] old(self).endpoint_list()[j],
                old(self).failure_log(),
            )) ==> r == Err::<(String, ModelTier), CascadeError>(CascadeError::AllEndpointsFailed)
                && final(self).failure_log() == old(self).failure_log(),
    {
        loop
            invariant
                forall|nm: Seq<char>|
                    #[trigger] fail_count(self.failure_log(), nm) > fail_count(old(self).failure_log(), nm)
                        ==> within_breaker(self.endpoint_list(), nm, fail_count(self.failure_log(), nm)),
                (forall|j: int| 0 <= j < old(self).endpoint_list().len() ==> !available(
                    #[trigger] old(self).endpoint_list()[j],
                    old(self).failure_log(),
                )) ==> self.failure_log() == old(self).failure_log(),
                self.endpoint_list() == old(self).endpoint_list(),
                forall|e: &ModelEndpoint| #[trigger] generate_fn.requires((e,)),
                forall|nm: Seq<char>|
                    #[trigger] fail_count(self.failure_log(), nm) >= fail_count(old(self).failure_log(), nm),
                forall|nm: Seq<char>|
                    #[trigger] fail_count(self.failure_log(), nm) > fail_count(old(self).failure_log(), nm)
                        ==> failed_on(generate_fn, self.endpoint_list(), nm),
            decreases budget(self.endpoint_list(), self.failure_log(), self.endpoint_list().len() as int),
        {
            let i: usize = match self.next_available() {
                Some(i) => i,
                None => {
                    return Err(CascadeError::AllEndpointsFailed);
                },
            };
            let ghost eps = self.endpoint_list();
            let ghost f1 = self.failure_log();
            proof {
                assert(fail_count(f1, eps[i as int].name@) >= fail_count(old(self).failure_log(), eps[i as int].name@));
                assert(available(eps[i as int], old(self).failure_log()));
            }
            let outcome = generate_fn(&self.endpoints[i]);
            match outcome {
                Ok(output) => {
                    let name = self.endpoints[i].name.clone();
                    set_failures(&mut self.failures, &name, 0);
                    let tier = self.endpoints[i].tier;
                    assert forall|j: int| 0 <= j < i && eps[j].name@ != eps[i as int].name@ implies !available(
                        #[trigger] self.endpoint_list()[j],
                        self.failure_log(),
                    ) by {
                        assert(!available(eps[j], f1));
                        assert(fail_count(self.failure_log(), eps[j].name@) == fail_count(f1, eps[j].name@));
                    }
                    assert(self.endpoint_list()[i as int].tier == tier);
                    assert(generate_fn.ensures((&self.endpoint_list()[i as int],), Ok::<String, String>(output)));
                    assert(fail_count(self.failure_log(), self.endpoint_list()[i as int].name@) == 0);
                    assert forall|nm: Seq<char>|
                        #[trigger] fail_count(self.failure_log(), nm) > fail_count(old(self).failure_log(), nm)
                            implies failed_on(generate_fn, self.endpoint_list(), nm) && within_breaker(
                            self.endpoint_list(),
                            nm,
                            fail_count(self.failure_log(), nm),
                        ) by {
                        lemma_fail_count_nonneg(old(self).failure_log(), nm);
                        if nm != eps[i as int].name@ {
                            assert(fail_count(f1, nm) > fail_count(old(self).failure_log(), nm));
                        }
                    }
                    return Ok((output, tier));
                },
                Err(msg) => {
                    assert(generate_fn.ensures((&eps[i as int],), Err::<String, String>(msg)));
                    let name = self.endpoints[i].name.clone();
                    let count: usize = match find_failure(&self.failures, &name) {
                        Some(j) => self.failures[j].1,
                        None => 0,
                    };
                    set_failures(&mut self.failures, &name, count + 1);
                    proof {
                        lemma_budget_nonneg(eps, f1, eps.len() as int);
                        lemma_budget_drops(eps, f1, self.failure_log(), i as int, eps.len() as int);
                        assert forall|nm: Seq<char>|
                            #[trigger] fail_count(self.failure_log(), nm) > fail_count(old(self).failure_log(), nm)
                                implies failed_on(generate_fn, self.endpoint_list(), nm) && within_breaker(
                                self.endpoint_list(),
                                nm,
                                fail_count(self.failure_log(), nm),
                            ) by {
                            if nm == eps[i as int].name@ {
                                assert(eps[i as int].name@ == nm);
                                assert(fail_count(self.failure_log(), nm) == fail_count(f1, nm) + 1);
                                assert(fail_count(self.failure_log(), nm) <= eps[i as int].max_consecutive_failures);
                            } else {
                                assert(fail_count(f1, nm) > fail_count(old(self).failure_log(), nm));
                            }
                        }
                    }
                },
            }
        }
    }
}

proof fn lemma_budget_nonneg(eps: Seq<ModelEndpoint>, f: Seq<(String, usize)>, n: int)
    ensures
        budget(eps, f, n) >= 0,
    decreases n,
{
    if n > 0 {
        lemma_budget_nonneg(eps, f, n - 1);
    }
}

// ---------------------------------------------------------------------------
// Stage interface
// ---------------------------------------------------------------------------

/// A reversible byte-stream stage.
pub trait CompressionStage {
    /// Outcomes that compressing `d` may have.
    spec fn compress_ok(&self, d: Seq<u8>, r: StageResult) -> bool;

    /// Outcome of decompressing `d`; `None` where the stage cannot run.
    spec fn decompress_outcome(&self, d: Seq<u8>) -> Option<StageResult>;

    fn compress(&self, data: &[u8]) -> (r: Result<Vec<u8>, CascadeError>)
        ensures
            self.compress_ok(data@, result_view(r)),
    ;

    fn decompress(&self, data: &[u8]) -> (r: Result<Vec<u8>, CascadeError>)
        requires
            self.decompress_outcome(data@) is Some,
        ensures
            Some(result_view(r)) == self.decompress_outcome(data@),
    ;

    /// Decompresses, or gives `None` where the stage cannot run.
    fn try_decompress(&self, data: &[u8]) -> (r: Option<Result<Vec<u8>, CascadeError>>)
        ensures
            match r {
                Some(x) => Some(result_view(x)) == self.decompress_outcome(data@),
                None => self.decompress_outcome(data@) is None,
            },
    ;

    /// Compression is a function of its input.
    proof fn lemma_compress_determined(&self, d: Seq<u8>, r1: StageResult, r2: StageResult)
        requires
            self.compress_ok(d, r1),
            self.compress_ok(d, r2),
        ensures
            r1 == r2,
    ;

    /// Decompression undoes compression.
    proof fn lemma_round_trip(&self, d: Seq<u8>, out: Seq<u8>)
        requires
            self.compress_ok(d, Ok(out)),
        ensures
            self.decompress_outcome(out) == Some(Ok::<Seq<u8>, CascadeError>(d)),
    ;
}

impl CompressionStage for Level1Tokenizer {
    open spec fn compress_ok(&self, d: Seq<u8>, r: StageResult) -> bool {
        stage_compress_ok(CascadeStage::Tokenizer, d, r)
    }

    open spec fn decompress_outcome(&self, d: Seq<u8>) -> Option<StageResult> {
        stage_decompress_spec(CascadeStage::Tokenizer, d)
    }

    fn compress(&self, data: &[u8]) -> (r: Result<Vec<u8>, CascadeError>) {
        Level1Tokenizer::compress(self, data)
    }

    fn decompress(&self, data: &[u8]) -> (r: Result<Vec<u8>, CascadeError>) {
        Level1Tokenizer::decompress(self, data)
    }

    fn try_decompress(&self, data: &[u8]) -> (r: Option<Result<Vec<u8>, CascadeError>>) {
        CascadeStage::Tokenizer.try_decompress(data)
    }

    proof fn lemma_compress_determined(&self, d: Seq<u8>, r1: StageResult, r2: StageResult) {
        lemma_stage_compress_determined(CascadeStage::Tokenizer, d, r1, r2);
    }

    proof fn lemma_round_trip(&self, d: Seq<u8>, out: Seq<u8>) {
        lemma_stage_round_trip(CascadeStage::Tokenizer, d, out);
    }
}

impl CompressionStage for Level2PrefixSuffix {
    open spec fn compress_ok(&self, d: Seq<u8>, r: StageResult) -> bool {
        stage_compress_ok(CascadeStage::PrefixSuffix, d, r)
    }

    open spec fn decompress_outcome(&self, d: Seq<u8>) -> Option<StageResult> {
        stage_decompress_spec(CascadeStage::PrefixSuffix, d)
    }

    fn compress(&self, data: &[u8]) -> (r: Result<Vec<u8>, CascadeError>) {
        Level2PrefixSuffix::compress(self, data)
    }

    fn decompress(&self, data: &[u8]) -> (r: Result<Vec<u8>, CascadeError>) {
        Level2PrefixSuffix::decompress(self, data)
    }

    fn try_decompress(&self, data: &[u8]) -> (r: Option<Result<Vec<u8>, CascadeError>>) {
        CascadeStage::PrefixSuffix.try_decompress(data)
    }

    proof fn lemma_compress_determined(&self, d: Seq<u8>, r1: StageResult, r2: StageResult) {
        lemma_stage_compress_determined(CascadeStage::PrefixSuffix, d, r1, r2);
    }

    proof fn lemma_round_trip(&self, d: Seq<u8>, out: Seq<u8>) {
        lemma_stage_round_trip(CascadeStage::PrefixSuffix, d, out);
    }
}

impl CompressionStage for Level3Delta {
    open spec fn compress_ok(&self, d: Seq<u8>, r: StageResult) -> bool {
        stage_compress_ok(CascadeStage::Delta, d, r)
    }

    open spec fn decompress_outcome(&self, d: Seq<u8>) -> Option<StageResult> {
        stage_decompress_spec(CascadeStage::Delta, d)
    }

    fn compress(&self, data: &[u8]) -> (r: Result<Vec<u8>, CascadeError>) {
        Level3Delta::compress(self, data)
    }

    fn decompress(&self, data: &[u8]) -> (r: Result<Vec<u8>, CascadeError>) {
        Level3Delta::decompress(self, data)
    }

    fn try_decompress(&self, data: &[u8]) -> (r: Option<Result<Vec<u8>, CascadeError>>) {
        CascadeStage::Delta.try_decompress(data)
    }

    proof fn lemma_compress_determined(&self, d: Seq<u8>, r1: StageResult, r2: StageResult) {
        lemma_stage_compress_determined(CascadeStage::Delta, d, r1, r2);
    }

    proof fn lemma_round_trip(&self, d: Seq<u8>, out: Seq<u8>) {
        lemma_stage_round_trip(CascadeStage::Delta, d, out);
    }
}

impl CompressionStage for Level4Rle {
    open spec fn compress_ok(&self, d: Seq<u8>, r: StageResult) -> bool {
        stage_compress_ok(CascadeStage::Rle, d, r)
    }

    open spec fn decompress_outcome(&self, d: Seq<u8>) -> Option<StageResult> {
        stage_decompress_spec(CascadeStage::Rle, d)
    }

    fn compress(&self, data: &[u8]) -> (r: Result<Vec<u8>, CascadeError>) {
        Level4Rle::compress(self, data)
    }

    fn decompress(&self, data: &[u8]) -> (r: Result<Vec<u8>, CascadeError>) {
        Level4Rle::decompress(self, data)
    }

    fn try_decompress(&self, data: &[u8]) -> (r: Option<Result<Vec<u8>, CascadeError>>) {
        CascadeStage::Rle.try_decompress(data)
    }

    proof fn lemma_compress_determined(&self, d: Seq<u8>, r1: StageResult, r2: StageResult) {
        lemma_stage_compress_determined(CascadeStage::Rle, d, r1, r2);
    }

    proof fn lemma_round_trip(&self, d: Seq<u8>, out: Seq<u8>) {
        lemma_stage_round_trip(CascadeStage::Rle, d, out);
    }
}

impl CompressionStage for Level5FreqReorder {
    open spec fn compress_ok(&self, d: Seq<u8>, r: StageResult) -> bool {
        stage_compress_ok(CascadeStage::FreqReorder, d, r)
    }

    open spec fn decompress_outcome(&self, d: Seq<u8>) -> Option<StageResult> {
        stage_decompress_spec(CascadeStage::FreqReorder, d)
    }

    fn compress(&self, data: &[u8]) -> (r: Result<Vec<u8>, CascadeError>) {
        Level5FreqReorder::compress(self, data)
    }

    fn decompress(&self, data: &[u8]) -> (r: Result<Vec<u8>, CascadeError>) {
        Level5FreqReorder::decompress(self, data)
    }

    fn try_decompress(&self, data: &[u8]) -> (r: Option<Result<Vec<u8>, CascadeError>>) {
        CascadeStage::FreqReorder.try_decompress(data)
    }

    proof fn lemma_compress_determined(&self, d: Seq<u8>, r1: StageResult, r2: StageResult) {
        lemma_stage_compress_determined(CascadeStage::FreqReorder, d, r1, r2);
    }

    proof fn lemma_round_trip(&self, d: Seq<u8>, out: Seq<u8>) {
        lemma_stage_round_trip(CascadeStage::FreqReorder, d, out);
    }
}

impl CompressionStage for Level6Zlib {
    open spec fn compress_ok(&self, d: Seq<u8>, r: StageResult) -> bool {
        stage_compress_ok(CascadeStage::Zlib, d, r)
    }

    open spec fn decompress_outcome(&self, d: Seq<u8>) -> Option<StageResult> {
        stage_decompress_spec(CascadeStage::Zlib, d)
    }

    fn compress(&self, data: &[u8]) -> (r: Result<Vec<u8>, CascadeError>) {
        Level6Zlib::compress(self, data)
    }

    fn decompress(&self, data: &[u8]) -> (r: Result<Vec<u8>, CascadeError>) {
        Level6Zlib::decompress(self, data)
    }

    fn try_decompress(&self, data: &[u8]) -> (r: Option<Result<Vec<u8>, CascadeError>>) {
        CascadeStage::Zlib.try_decompress(data)
    }

    proof fn lemma_compress_determined(&self, d: Seq<u8>, r1: StageResult, r2: StageResult) {
        lemma_stage_compress_determined(CascadeStage::Zlib, d, r1, r2);
    }

    proof fn lemma_round_trip(&self, d: Seq<u8>, out: Seq<u8>) {
        lemma_stage_round_trip(CascadeStage::Zlib, d, out);
    }
}

impl CompressionStage for CascadeStage {
    open spec fn compress_ok(&self, d: Seq<u8>, r: StageResult) -> bool {
        stage_compress_ok(*self, d, r)
    }

    open spec fn decompress_outcome(&self, d: Seq<u8>) -> Option<StageResult> {
        stage_decompress_spec(*self, d)
    }

    fn compress(&self, data: &[u8]) -> (r: Result<Vec<u8>, CascadeError>) {
        CascadeStage::compress(self, data)
    }

    fn decompress(&self, data: &[u8]) -> (r: Result<Vec<u8>, CascadeError>) {
        CascadeStage::decompress(self, data)
    }

    fn try_decompress(&self, data: &[u8]) -> (r: Option<Result<Vec<u8>, CascadeError>>) {
        CascadeStage::try_decompress(self, data)
    }

    proof fn lemma_compress_determined(&self, d: Seq<u8>, r1: StageResult, r2: StageResult) {
        lemma_stage_compress_determined(*self, d, r1, r2);
    }

    proof fn lemma_round_trip(&self, d: Seq<u8>, out: Seq<u8>) {
        lemma_stage_round_trip(*self, d, out);
    }
}

} // verus!
