//! Decoding what the range coder encoded gives back the concepts: the encoder
//! keeps the final code stream inside every interval it passes through, and the
//! decoder, mirroring its steps, reads that stream back symbol by symbol.

use crate::cuneiform::{concept_of_radicals, lemma_radical_nibbles, coder_fits, decode_spec, dec_run, encode_spec, enc_run, lemma_observe_fits, lemma_radicals_round_trip, model_observe, read_bits, cum_table, dec_concept, enc_concept, Concept6D, dec_symbol, enc_symbol, lemma_cum_table, lemma_narrow, lemma_step_cum_facts, lemma_symbol_above, model_fits, step_cum, step_key, RadicalModel, dec_renorm, emit, DecState, enc_finish, enc_renorm, lemma_pow2_grows, lemma_pow2_pos, pow2, lemma_put_bit_packed, packed, put_bit, put_run, read_bit_at, EncState};
use vstd::prelude::*;

verus! {

/// Bit number `i` of the stream, zero past its end.
pub open spec fn stream_bit(buf: Seq<u8>, i: nat) -> u8 {
    read_bit_at(buf, i).0
}

/// Every bit from number `n` on is zero.
pub open spec fn clean(buf: Seq<u8>, n: nat) -> bool {
    forall|i: nat| n <= i ==> #[trigger] stream_bit(buf, i) == 0
}

/// `b2` holds the same bits as `b1` below bit number `n`.
pub open spec fn agrees(b2: Seq<u8>, b1: Seq<u8>, n: nat) -> bool {
    forall|i: nat| i < n ==> #[trigger] stream_bit(b2, i) == stream_bit(b1, i)
}

proof fn lemma_byte_bits(x: u8, k: u8, j: u8)
    requires
        k < 8,
        j < 8,
    ensures
        ((x | (1u8 << k)) >> j) & 1u8 == (if j == k { 1u8 } else { (x >> j) & 1u8 }),
        ((0u8 >> j) & 1u8) == 0u8,
        (x >> j) & 1u8 <= 1u8,
{
    assert(((x | (1u8 << k)) >> j) & 1u8 == (if j == k { 1u8 } else { (x >> j) & 1u8 }) && ((0u8 >> j) & 1u8)
        == 0u8 && (x >> j) & 1u8 <= 1u8) by (bit_vector)
        requires
            k < 8,
            j < 8,
    ;
}

proof fn lemma_put_bit_bits(buf: Seq<u8>, n: nat, bit: u8)
    requires
        packed(buf, n),
        clean(buf, n),
        bit <= 1,
    ensures
        packed(put_bit(buf, n, bit), n + 1),
        clean(put_bit(buf, n, bit), n + 1),
        stream_bit(put_bit(buf, n, bit), n) == bit,
        agrees(put_bit(buf, n, bit), buf, n),
{
    lemma_put_bit_packed(buf, n, bit);
    let b1 = if n / 8 == buf.len() {
        buf.push(0u8)
    } else {
        buf
    };
    let out = put_bit(buf, n, bit);
    let k = (7 - n % 8) as u8;
    assert forall|i: nat| true implies #[trigger] stream_bit(out, i) == (if i == n {
        bit
    } else {
        stream_bit(buf, i)
    }) by {
        let j = (7 - i % 8) as u8;
        if i < out.len() * 8 {
            let x = b1[(i / 8) as int];
            lemma_byte_bits(x, k, j);
            if i / 8 == n / 8 {
                if i < buf.len() * 8 {
                    assert(x == buf[(i / 8) as int]);
                } else {
                    assert(x == 0u8);
                    assert(i >= n);
                }
                if i == n {
                } else {
                    assert(j != k);
                }
                if bit == 0 && i == n {
                    assert(i >= n);
                    if i < buf.len() * 8 {
                        assert(stream_bit(buf, i) == 0);
                    }
                }
            } else {
                assert(i / 8 < buf.len());
                assert(out[(i / 8) as int] == buf[(i / 8) as int]);
            }
        } else {
            assert(i >= buf.len() * 8);
            assert(i != n);
        }
    }
}

proof fn lemma_put_run_bits(buf: Seq<u8>, n: nat, bit: u8, count: nat)
    requires
        packed(buf, n),
        clean(buf, n),
        bit <= 1,
    ensures
        packed(put_run(buf, n, bit, count), n + count),
        clean(put_run(buf, n, bit, count), n + count),
        agrees(put_run(buf, n, bit, count), buf, n),
        forall|i: nat| n <= i < n + count ==> #[trigger] stream_bit(put_run(buf, n, bit, count), i) == bit,
    decreases count,
{
    if count > 0 {
        let b1 = put_bit(buf, n, bit);
        lemma_put_bit_bits(buf, n, bit);
        lemma_put_run_bits(b1, n + 1, bit, (count - 1) as nat);
        let out = put_run(buf, n, bit, count);
        assert(out == put_run(b1, n + 1, bit, (count - 1) as nat));
        assert forall|i: nat| n <= i < n + count implies #[trigger] stream_bit(out, i) == bit by {
            if i == n {
                assert(stream_bit(out, i) == stream_bit(b1, i));
            }
        }
        assert forall|i: nat| i < n implies #[trigger] stream_bit(out, i) == stream_bit(buf, i) by {
            assert(stream_bit(out, i) == stream_bit(b1, i));
        }
    }
}

/// What writing a settled bit does to the stream: the bit, then the pending
/// opposite bits; the bits before stay.
proof fn lemma_emit_bits(st: EncState, b: u8)
    requires
        packed(st.buf, st.nbits),
        clean(st.buf, st.nbits),
        b <= 1,
    ensures
        packed(emit(st, b).buf, emit(st, b).nbits),
        clean(emit(st, b).buf, emit(st, b).nbits),
        emit(st, b).nbits == st.nbits + 1 + st.underflow,
        agrees(emit(st, b).buf, st.buf, st.nbits),
        stream_bit(emit(st, b).buf, st.nbits) == b,
        forall|i: nat| st.nbits < i <= st.nbits + st.underflow ==> #[trigger] stream_bit(emit(st, b).buf, i) == 1 - b,
{
    let b1 = put_bit(st.buf, st.nbits, b);
    lemma_put_bit_bits(st.buf, st.nbits, b);
    lemma_put_run_bits(b1, st.nbits + 1, (1 - b) as u8, st.underflow as nat);
    let out = emit(st, b).buf;
    assert(stream_bit(out, st.nbits) == stream_bit(b1, st.nbits));
    assert forall|i: nat| i < st.nbits implies #[trigger] stream_bit(out, i) == stream_bit(st.buf, i) by {
        assert(stream_bit(out, i) == stream_bit(b1, i));
    }
}

/// The `l` bits of the stream from bit number `p` on, as a number.
pub open spec fn stream_num(buf: Seq<u8>, p: nat, l: nat) -> int
    decreases l,
{
    if l == 0 {
        0
    } else {
        2 * stream_num(buf, p, (l - 1) as nat) + stream_bit(buf, (p + l - 1) as nat)
    }
}

/// The code value the stream gives an encoder state that has written `n`
/// bits and holds `u` pending ones, at `r` bits of extra precision: the 32 + r
/// bits from `n` on with the pending bits folded out.
pub open spec fn tail_value(buf: Seq<u8>, n: nat, u: nat, r: nat) -> int {
    stream_num(buf, n, 32 + u + r) - (pow2(u) - 1) * pow2(31 + r)
}

/// The stream lies inside the encoder state's interval, at every precision.
pub open spec fn tail_in(buf: Seq<u8>, st: EncState) -> bool {
    forall|r: nat|
        st.low * pow2(r) <= #[trigger] tail_value(buf, st.nbits, st.underflow as nat, r) < (st.high + 1) * pow2(r)
}

proof fn lemma_pow2_add(a: nat, b: nat)
    ensures
        pow2(a + b) == pow2(a) * pow2(b),
    decreases b,
{
    if b > 0 {
        lemma_pow2_add(a, (b - 1) as nat);
        assert(pow2(a + b) == 2 * pow2((a + b - 1) as nat));
        assert(pow2(b) == 2 * pow2((b - 1) as nat));
        assert(2 * (pow2(a) * pow2((b - 1) as nat)) == pow2(a) * (2 * pow2((b - 1) as nat))) by (nonlinear_arith);
    }
}

proof fn lemma_stream_bit_le1(buf: Seq<u8>, i: nat)
    ensures
        stream_bit(buf, i) <= 1,
{
    if i < buf.len() * 8 {
        lemma_byte_bits(buf[(i / 8) as int], 0, (7 - i % 8) as u8);
    }
}

proof fn lemma_num_split(buf: Seq<u8>, p: nat, a: nat, b: nat)
    ensures
        stream_num(buf, p, a + b) == stream_num(buf, p, a) * pow2(b) + stream_num(buf, p + a, b),
    decreases b,
{
    if b > 0 {
        lemma_num_split(buf, p, a, (b - 1) as nat);
        let x = stream_num(buf, p, a);
        let y = pow2((b - 1) as nat);
        assert(stream_num(buf, p, a + b) == 2 * stream_num(buf, p, (a + b - 1) as nat) + stream_bit(
            buf,
            (p + a + b - 1) as nat,
        ));
        assert(pow2(b) == 2 * y);
        assert(2 * (x * y) == x * (2 * y)) by (nonlinear_arith);
    }
}

proof fn lemma_num_run(buf: Seq<u8>, p: nat, c: nat, bit: u8)
    requires
        forall|i: nat| p <= i < p + c ==> #[trigger] stream_bit(buf, i) == bit,
        bit <= 1,
    ensures
        stream_num(buf, p, c) == bit * (pow2(c) - 1),
    decreases c,
{
    if c > 0 {
        lemma_num_run(buf, p, (c - 1) as nat, bit);
        assert(stream_bit(buf, (p + c - 1) as nat) == bit);
        assert(stream_num(buf, p, c) == 2 * stream_num(buf, p, (c - 1) as nat) + stream_bit(buf, (p + c - 1) as nat));
        assert(pow2(c) == 2 * pow2((c - 1) as nat));
        assert(2 * (bit * (pow2((c - 1) as nat) - 1)) + bit == bit * (2 * pow2((c - 1) as nat) - 1)) by (nonlinear_arith);
    } else {
        assert(pow2(0) == 1);
        assert(bit * (1 - 1) == 0);
    }
}

proof fn lemma_num_bounds(buf: Seq<u8>, p: nat, l: nat)
    ensures
        0 <= stream_num(buf, p, l) < pow2(l),
    decreases l,
{
    if l > 0 {
        lemma_num_bounds(buf, p, (l - 1) as nat);
        lemma_stream_bit_le1(buf, (p + l - 1) as nat);
    }
}

proof fn lemma_tail_shift(buf: Seq<u8>, n: nat, u: nat, r: nat)
    ensures
        tail_value(buf, n, u, r + 1) == 2 * tail_value(buf, n, u, r) + stream_bit(buf, n + 32 + u + r),
{
    assert(stream_num(buf, n, 32 + u + r + 1) == 2 * stream_num(buf, n, 32 + u + r) + stream_bit(buf, n + 32 + u + r));
    assert(pow2(31 + r + 1) == 2 * pow2(31 + r));
    assert((pow2(u) - 1) * (2 * pow2(31 + r)) == 2 * ((pow2(u) - 1) * pow2(31 + r))) by (nonlinear_arith);
}

/// The bounds at every precision follow from those above the first.
proof fn lemma_tail_in_from_above(buf: Seq<u8>, st: EncState)
    requires
        forall|r: nat|
            r >= 1 ==> st.low * pow2(r) <= #[trigger] tail_value(buf, st.nbits, st.underflow as nat, r) < (st.high + 1)
                * pow2(r),
    ensures
        tail_in(buf, st),
{
    assert forall|r: nat|
        st.low * pow2(r) <= #[trigger] tail_value(buf, st.nbits, st.underflow as nat, r) < (st.high + 1) * pow2(r) by {
        if r == 0 {
            let u = st.underflow as nat;
            lemma_tail_shift(buf, st.nbits, u, 0);
            lemma_stream_bit_le1(buf, st.nbits + 32 + u + 0);
            let t1 = tail_value(buf, st.nbits, u, 1);
            assert(pow2(1) == 2 * pow2(0));
            assert(pow2(0) == 1);
            assert(st.low * pow2(1) <= t1 < (st.high + 1) * pow2(1));
            assert(st.low * pow2(1) == 2 * st.low && (st.high + 1) * pow2(1) == 2 * (st.high + 1)) by (nonlinear_arith)
                requires pow2(1) == 2;
            let t0 = tail_value(buf, st.nbits, u, 0);
            assert(st.low * 1 <= t0 < (st.high + 1) * 1);
        }
    }
}

/// After a settled zero and its pending ones, the code value is what follows.
proof fn lemma_tail_emit0(buf: Seq<u8>, n: nat, u: nat, r: nat)
    requires
        stream_bit(buf, n) == 0,
        forall|i: nat| n < i <= n + u ==> #[trigger] stream_bit(buf, i) == 1,
    ensures
        tail_value(buf, n, u, r) == stream_num(buf, n + 1 + u, 31 + r),
{
    lemma_num_split(buf, n, 1 + u, 31 + r);
    lemma_num_split(buf, n, 1, u);
    lemma_num_run(buf, n + 1, u, 1);
    assert(stream_num(buf, n, 1) == 2 * stream_num(buf, n, 0) + stream_bit(buf, n));
    assert(stream_num(buf, n, 1) == 0);
    assert(0 * pow2(u) == 0);
    assert(1 * (pow2(u) - 1) == pow2(u) - 1);
    assert(stream_num(buf, n, 1 + u) == pow2(u) - 1);
    assert(1 + u + (31 + r) == 32 + u + r);
    assert(stream_num(buf, n, 32 + u + r) == (pow2(u) - 1) * pow2(31 + r) + stream_num(buf, n + 1 + u, 31 + r));
}

/// After a settled one and its pending zeros, the code value is half the range
/// above what follows.
proof fn lemma_tail_emit1(buf: Seq<u8>, n: nat, u: nat, r: nat)
    requires
        stream_bit(buf, n) == 1,
        forall|i: nat| n < i <= n + u ==> #[trigger] stream_bit(buf, i) == 0,
    ensures
        tail_value(buf, n, u, r) == pow2(31 + r) + stream_num(buf, n + 1 + u, 31 + r),
{
    lemma_num_split(buf, n, 1 + u, 31 + r);
    lemma_num_split(buf, n, 1, u);
    lemma_num_run(buf, n + 1, u, 0);
    assert(stream_num(buf, n, 1) == 2 * stream_num(buf, n, 0) + stream_bit(buf, n));
    assert(stream_num(buf, n, 1) == 1);
    assert(0 * (pow2(u) - 1) == 0);
    assert(1 * pow2(u) == pow2(u));
    assert(stream_num(buf, n, 1 + u) == pow2(u));
    assert(1 + u + (31 + r) == 32 + u + r);
    assert(stream_num(buf, n, 32 + u + r) == pow2(u) * pow2(31 + r) + stream_num(buf, n + 1 + u, 31 + r));
    assert(pow2(u) * pow2(31 + r) - (pow2(u) - 1) * pow2(31 + r) == pow2(31 + r)) by (nonlinear_arith);
}

/// One more pending bit moves the code value down by a quarter of the range.
proof fn lemma_tail_underflow(buf: Seq<u8>, n: nat, u: nat, r: nat)
    ensures
        tail_value(buf, n, u, r + 1) == tail_value(buf, n, u + 1, r) + pow2(31 + r),
{
    assert(32 + u + (r + 1) == 32 + (u + 1) + r);
    assert(pow2(u + 1) == 2 * pow2(u));
    assert(pow2(31 + (r + 1)) == 2 * pow2(31 + r));
    let a = pow2(u);
    let b = pow2(31 + r);
    assert((2 * a - 1) * b - (a - 1) * (2 * b) == b) by (nonlinear_arith);
}

/// A reachable encoder state: the stream packed, nothing written past its end,
/// and a non-empty interval.
pub open spec fn enc_ok(st: EncState) -> bool {
    packed(st.buf, st.nbits) && clean(st.buf, st.nbits) && st.low <= st.high
}

/// The interval straddles the midpoint and is not within the middle half: no
/// renormalization step applies.
pub open spec fn settled(st: EncState) -> bool {
    st.low < 0x8000_0000 <= st.high && !(st.low >= 0x4000_0000 && st.high < 0xC000_0000)
}

/// Progress of a renormalization begun from a state with `base` bits written
/// or pending, at most `u0` of them pending, and width `w0`: each step doubles
/// the width and adds one bit.
pub open spec fn renorm_progress(st: EncState, base: int, u0: int, w0: int) -> bool {
    let d = st.nbits + st.underflow - base;
    &&& d >= 0
    &&& w0 >= 1
    &&& u0 + 33 < 0x1_0000_0000
    &&& st.underflow <= u0 + d
    &&& st.high - st.low + 1 >= pow2(d as nat) * w0
}

proof fn lemma_progress_bound(st: EncState, base: int, u0: int, w0: int)
    requires
        renorm_progress(st, base, u0, w0),
        st.low <= st.high,
    ensures
        st.nbits + st.underflow - base <= 32,
        st.underflow <= u0 + 32,
{
    let d = (st.nbits + st.underflow - base) as nat;
    if d >= 33 {
        lemma_pow2_grows(d);
        assert(pow2(d) * w0 >= pow2(d)) by (nonlinear_arith)
            requires w0 >= 1, pow2(d) >= 0;
    }
}

proof fn lemma_progress_step(st: EncState, next: EncState, base: int, u0: int, w0: int)
    requires
        renorm_progress(st, base, u0, w0),
        st.low <= st.high,
        next.nbits + next.underflow == st.nbits + st.underflow + 1,
        next.underflow <= st.underflow + 1,
        next.high - next.low + 1 == 2 * (st.high - st.low + 1),
    ensures
        renorm_progress(next, base, u0, w0),
{
    let d = (st.nbits + st.underflow - base) as nat;
    assert(pow2(d + 1) == 2 * pow2(d));
    assert(2 * (st.high - st.low + 1) >= 2 * (pow2(d) * w0));
    assert(2 * (pow2(d) * w0) == (2 * pow2(d)) * w0) by (nonlinear_arith);
}

/// Renormalizing keeps the state reachable and settles it; the bits already
/// written stay.
proof fn lemma_renorm_facts(st: EncState, base: int, u0: int, w0: int)
    requires
        enc_ok(st),
        renorm_progress(st, base, u0, w0),
    ensures
        enc_ok(enc_renorm(st)),
        settled(enc_renorm(st)),
        renorm_progress(enc_renorm(st), base, u0, w0),
        enc_renorm(st).nbits >= st.nbits,
        agrees(enc_renorm(st).buf, st.buf, st.nbits),
    decreases 0x1_0000_0000 - (st.high - st.low + 1),
{
    lemma_progress_bound(st, base, u0, w0);
    if st.high < 0x8000_0000 {
        let e = emit(st, 0);
        lemma_emit_bits(st, 0);
        let next = EncState { low: (2 * st.low) as u32, high: (2 * st.high + 1) as u32, ..e };
        lemma_progress_step(st, next, base, u0, w0);
        lemma_renorm_facts(next, base, u0, w0);
    } else if st.low >= 0x8000_0000 {
        let e = emit(st, 1);
        lemma_emit_bits(st, 1);
        let next = EncState {
            low: (2 * (st.low - 0x8000_0000)) as u32,
            high: (2 * (st.high - 0x8000_0000) + 1) as u32,
            ..e
        };
        lemma_progress_step(st, next, base, u0, w0);
        lemma_renorm_facts(next, base, u0, w0);
    } else if st.low >= 0x4000_0000 && st.high < 0xC000_0000 {
        let next = EncState {
            low: (2 * (st.low - 0x4000_0000)) as u32,
            high: (2 * (st.high - 0x4000_0000) + 1) as u32,
            underflow: (st.underflow + 1) as u32,
            ..st
        };
        lemma_progress_step(st, next, base, u0, w0);
        lemma_renorm_facts(next, base, u0, w0);
    }
}

proof fn lemma_scale_bounds(lo: int, hi: int, t: int, a: int, r: nat)
    requires
        r >= 1,
        (2 * lo - a) * pow2((r - 1) as nat) <= t - a * pow2((r - 1) as nat) < (2 * hi + 2 - a) * pow2((r - 1) as nat),
    ensures
        lo * pow2(r) <= t < (hi + 1) * pow2(r),
{
    let p = pow2((r - 1) as nat);
    assert(pow2(r) == 2 * p);
    assert((2 * lo - a) * p == lo * (2 * p) - a * p) by (nonlinear_arith);
    assert((2 * hi + 2 - a) * p == (hi + 1) * (2 * p) - a * p) by (nonlinear_arith);
}

proof fn lemma_pow2_31(r: nat)
    ensures
        pow2(31 + r) == 0x8000_0000 * pow2(r),
        pow2(31 + r + 1) == 0x1_0000_0000 * pow2(r),
{
    lemma_pow2_add(31, r);
    reveal_with_fuel(pow2, 32);
    assert(pow2(31) == 0x8000_0000);
    assert(pow2(31 + r + 1) == 2 * pow2(31 + r));
}

/// A settled bit `b` and its pending opposite bits at bit `n` carry the
/// interval bounds back across one emitting step.
proof fn lemma_back_emit(st: EncState, next: EncState, buf: Seq<u8>, b: u8)
    requires
        b <= 1,
        tail_in(buf, next),
        next.nbits == st.nbits + 1 + st.underflow,
        next.underflow == 0,
        next.low == 2 * st.low - b * 0x1_0000_0000,
        next.high == 2 * st.high + 1 - b * 0x1_0000_0000,
        stream_bit(buf, st.nbits) == b,
        forall|i: nat| st.nbits < i <= st.nbits + st.underflow ==> #[trigger] stream_bit(buf, i) == 1 - b,
    ensures
        tail_in(buf, st),
{
    let n = st.nbits;
    let u = st.underflow as nat;
    assert forall|r: nat| r >= 1 implies st.low * pow2(r) <= #[trigger] tail_value(buf, n, u, r) < (st.high + 1) * pow2(r) by {
        let r1 = (r - 1) as nat;
        assert(next.low * pow2(r1) <= tail_value(buf, next.nbits, 0, r1) < (next.high + 1) * pow2(r1));
        assert(pow2(0) == 1);
        assert((pow2(0) - 1) * pow2(31 + r1) == 0) by (nonlinear_arith)
            requires pow2(0) == 1;
        assert(32 + 0 + r1 == 31 + r);
        assert(tail_value(buf, next.nbits, 0, r1) == stream_num(buf, n + 1 + u, 31 + r));
        if b == 0 {
            lemma_tail_emit0(buf, n, u, r);
            lemma_scale_bounds(st.low as int, st.high as int, tail_value(buf, n, u, r), 0, r);
        } else {
            lemma_tail_emit1(buf, n, u, r);
            lemma_pow2_31(r1);
            assert(31 + r == 31 + r1 + 1);
            lemma_scale_bounds(st.low as int, st.high as int, tail_value(buf, n, u, r), 0x1_0000_0000, r);
        }
    }
    lemma_tail_in_from_above(buf, st);
}

/// Counting one more pending bit carries the interval bounds back.
proof fn lemma_back_underflow(st: EncState, next: EncState, buf: Seq<u8>)
    requires
        tail_in(buf, next),
        next.nbits == st.nbits,
        next.underflow == st.underflow + 1,
        next.low == 2 * st.low - 0x8000_0000,
        next.high == 2 * st.high + 1 - 0x8000_0000,
    ensures
        tail_in(buf, st),
{
    let n = st.nbits;
    let u = st.underflow as nat;
    assert forall|r: nat| r >= 1 implies st.low * pow2(r) <= #[trigger] tail_value(buf, n, u, r) < (st.high + 1) * pow2(r) by {
        let r1 = (r - 1) as nat;
        assert(next.low * pow2(r1) <= tail_value(buf, n, u + 1, r1) < (next.high + 1) * pow2(r1));
        lemma_tail_underflow(buf, n, u, r1);
        lemma_pow2_31(r1);
        lemma_scale_bounds(st.low as int, st.high as int, tail_value(buf, n, u, r), 0x8000_0000, r);
    }
    lemma_tail_in_from_above(buf, st);
}

/// If the stream lies in the interval after renormalizing, it lay in the
/// interval before.
proof fn lemma_renorm_back(st: EncState, buf: Seq<u8>, base: int, u0: int, w0: int)
    requires
        enc_ok(st),
        renorm_progress(st, base, u0, w0),
        agrees(buf, enc_renorm(st).buf, enc_renorm(st).nbits),
        tail_in(buf, enc_renorm(st)),
    ensures
        tail_in(buf, st),
    decreases 0x1_0000_0000 - (st.high - st.low + 1),
{
    lemma_progress_bound(st, base, u0, w0);
    let n = st.nbits;
    let u = st.underflow as nat;
    if st.high < 0x8000_0000 || st.low >= 0x8000_0000 {
        let b: u8 = if st.high < 0x8000_0000 { 0 } else { 1 };
        let e = emit(st, b);
        lemma_emit_bits(st, b);
        let next = if b == 0 {
            EncState { low: (2 * st.low) as u32, high: (2 * st.high + 1) as u32, ..e }
        } else {
            EncState { low: (2 * (st.low - 0x8000_0000)) as u32, high: (2 * (st.high - 0x8000_0000) + 1) as u32, ..e }
        };
        assert(enc_renorm(next) == enc_renorm(st));
        lemma_progress_step(st, next, base, u0, w0);
        lemma_renorm_facts(next, base, u0, w0);
        lemma_renorm_back(next, buf, base, u0, w0);
        assert(stream_bit(buf, n) == b) by {
            assert(stream_bit(enc_renorm(st).buf, n) == stream_bit(e.buf, n));
        }
        assert forall|i: nat| n < i <= n + u implies #[trigger] stream_bit(buf, i) == 1 - b by {
            assert(stream_bit(enc_renorm(st).buf, i) == stream_bit(e.buf, i));
        }
        lemma_back_emit(st, next, buf, b);
    } else if st.low >= 0x4000_0000 && st.high < 0xC000_0000 {
        let next = EncState {
            low: (2 * (st.low - 0x4000_0000)) as u32,
            high: (2 * (st.high - 0x4000_0000) + 1) as u32,
            underflow: (st.underflow + 1) as u32,
            ..st
        };
        assert(enc_renorm(next) == enc_renorm(st));
        lemma_progress_step(st, next, base, u0, w0);
        lemma_renorm_back(next, buf, base, u0, w0);
        lemma_back_underflow(st, next, buf);
    }
}

proof fn lemma_pow2_30(r: nat)
    ensures
        pow2(30 + r) == 0x4000_0000 * pow2(r),
{
    lemma_pow2_add(30, r);
    reveal_with_fuel(pow2, 31);
    assert(pow2(30) == 0x4000_0000);
}

/// The code value of a flushed stream: a settled bit `b`, then `u + 1`
/// opposite bits, then zeros.
proof fn lemma_flush_value(buf: Seq<u8>, n: nat, u: nat, r: nat, b: u8)
    requires
        b <= 1,
        stream_bit(buf, n) == b,
        forall|i: nat| n < i <= n + u + 1 ==> #[trigger] stream_bit(buf, i) == 1 - b,
        forall|i: nat| n + u + 2 <= i ==> #[trigger] stream_bit(buf, i) == 0,
    ensures
        tail_value(buf, n, u, r) == (1 + b) * pow2(30 + r),
{
    lemma_num_split(buf, n, u + 2, 30 + r);
    assert forall|i: nat| n + u + 2 <= i < n + u + 2 + (30 + r) implies #[trigger] stream_bit(buf, i) == 0 by {}
    lemma_num_run(buf, n + u + 2, 30 + r, 0);
    lemma_num_split(buf, n, 1, u + 1);
    assert forall|i: nat| n + 1 <= i < n + 1 + (u + 1) implies #[trigger] stream_bit(buf, i) == 1 - b by {}
    lemma_num_run(buf, n + 1, u + 1, (1 - b) as u8);
    assert(stream_num(buf, n, 1) == 2 * stream_num(buf, n, 0) + stream_bit(buf, n));
    assert(u + 2 + (30 + r) == 32 + u + r);
    assert(1 + (u + 1) == u + 2);
    let pu = pow2(u);
    let q = pow2(30 + r);
    assert(pow2(u + 1) == 2 * pu);
    assert(pow2(31 + r) == 2 * q);
    let z = stream_num(buf, n + u + 2, 30 + r);
    assert(z == 0) by (nonlinear_arith)
        requires z == 0 * (pow2(30 + r) - 1);
    let h = stream_num(buf, n + 1, u + 1);
    let hb = stream_num(buf, n, u + 2);
    let t = tail_value(buf, n, u, r);
    assert(h == (1 - b) * (2 * pu - 1)) by (nonlinear_arith)
        requires h == (1 - b) * (pow2(u + 1) - 1), pow2(u + 1) == 2 * pu;
    assert(hb == b * (2 * pu) + h) by (nonlinear_arith)
        requires hb == stream_num(buf, n, 1) * pow2(u + 1) + h, stream_num(buf, n, 1) == b, pow2(u + 1) == 2 * pu;
    assert(t == (1 + b) * q) by (nonlinear_arith)
        requires
            t == stream_num(buf, n, 32 + u + r) - (pu - 1) * (2 * q),
            stream_num(buf, n, 32 + u + r) == hb * q + z,
            z == 0,
            hb == b * (2 * pu) + h,
            h == (1 - b) * (2 * pu - 1),
            b <= 1;
}

/// The flushed stream lies in the interval of the settled state it flushed.
proof fn lemma_finish_in(st: EncState)
    requires
        enc_ok(st),
        settled(st),
        st.underflow + 1 < 0x1_0000_0000,
    ensures
        tail_in(enc_finish(st).buf, st),
        agrees(enc_finish(st).buf, st.buf, st.nbits),
        packed(enc_finish(st).buf, enc_finish(st).nbits),
        clean(enc_finish(st).buf, enc_finish(st).nbits),
        enc_finish(st).nbits == st.nbits + st.underflow + 2,
{
    let b: u8 = if st.low < 0x4000_0000 { 0 } else { 1 };
    let s1 = EncState { underflow: (st.underflow + 1) as u32, ..st };
    lemma_emit_bits(s1, b);
    let buf = enc_finish(st).buf;
    let n = st.nbits;
    let u = st.underflow as nat;
    assert(buf == emit(s1, b).buf);
    assert forall|r: nat| st.low * pow2(r) <= #[trigger] tail_value(buf, n, u, r) < (st.high + 1) * pow2(r) by {
        lemma_flush_value(buf, n, u, r, b);
        lemma_pow2_pos(r);
        lemma_pow2_30(r);
        if b == 0 {
            assert(st.low * pow2(r) <= 1 * (0x4000_0000 * pow2(r)) < (st.high + 1) * pow2(r)) by (nonlinear_arith)
                requires st.low < 0x4000_0000, st.high >= 0x8000_0000, pow2(r) >= 1;
        } else {
            assert(st.low * pow2(r) <= 2 * (0x4000_0000 * pow2(r)) < (st.high + 1) * pow2(r)) by (nonlinear_arith)
                requires st.low < 0x8000_0000, st.high >= 0x8000_0000, pow2(r) >= 1;
        }
    }
}

/// The smaller of two numbers.
pub open spec fn min_nat(a: nat, b: nat) -> nat {
    if a <= b {
        a
    } else {
        b
    }
}

/// The decoder state mirrors the encoder state over the final stream `buf`:
/// the same interval, the code value the stream gives the encoder state, and
/// the reader 32 bits past what the encoder has written or holds pending.
pub open spec fn mirrors(d: DecState, e: EncState, buf: Seq<u8>) -> bool {
    &&& d.low == e.low
    &&& d.high == e.high
    &&& d.value == tail_value(buf, e.nbits, e.underflow as nat, 0)
    &&& d.pos == min_nat(e.nbits + e.underflow as nat + 32, buf.len() * 8)
}

proof fn lemma_read_next(buf: Seq<u8>, k: nat)
    ensures
        read_bit_at(buf, min_nat(k, buf.len() * 8)) == (stream_bit(buf, k), min_nat(k + 1, buf.len() * 8)),
{
}

proof fn lemma_tail_zero_bounds(buf: Seq<u8>, e: EncState)
    requires
        tail_in(buf, e),
    ensures
        e.low <= tail_value(buf, e.nbits, e.underflow as nat, 0) <= e.high,
{
    let t = tail_value(buf, e.nbits, e.underflow as nat, 0);
    assert(pow2(0) == 1);
    assert(e.low * pow2(0) <= t < (e.high + 1) * pow2(0));
    assert(e.low * 1 <= t < (e.high + 1) * 1);
}

/// The decoder's renormalization mirrors the encoder's.
proof fn lemma_renorm_forward(e: EncState, d: DecState, buf: Seq<u8>, base: int, u0: int, w0: int)
    requires
        enc_ok(e),
        renorm_progress(e, base, u0, w0),
        mirrors(d, e, buf),
        agrees(buf, enc_renorm(e).buf, enc_renorm(e).nbits),
        tail_in(buf, enc_renorm(e)),
    ensures
        mirrors(dec_renorm(d, buf), enc_renorm(e), buf),
    decreases 0x1_0000_0000 - (e.high - e.low + 1),
{
    lemma_progress_bound(e, base, u0, w0);
    lemma_renorm_back(e, buf, base, u0, w0);
    lemma_tail_zero_bounds(buf, e);
    let n = e.nbits;
    let u = e.underflow as nat;
    let t0 = tail_value(buf, n, u, 0);
    lemma_read_next(buf, n + u + 32);
    let bit = stream_bit(buf, n + u + 32);
    lemma_stream_bit_le1(buf, n + u + 32);
    if e.high < 0x8000_0000 || e.low >= 0x8000_0000 {
        let b: u8 = if e.high < 0x8000_0000 { 0 } else { 1 };
        let em = emit(e, b);
        lemma_emit_bits(e, b);
        let next = if b == 0 {
            EncState { low: (2 * e.low) as u32, high: (2 * e.high + 1) as u32, ..em }
        } else {
            EncState { low: (2 * (e.low - 0x8000_0000)) as u32, high: (2 * (e.high - 0x8000_0000) + 1) as u32, ..em }
        };
        assert(enc_renorm(next) == enc_renorm(e));
        lemma_progress_step(e, next, base, u0, w0);
        lemma_renorm_facts(next, base, u0, w0);
        assert(stream_bit(buf, n) == b) by {
            assert(stream_bit(enc_renorm(e).buf, n) == stream_bit(em.buf, n));
        }
        assert forall|i: nat| n < i <= n + u implies #[trigger] stream_bit(buf, i) == 1 - b by {
            assert(stream_bit(enc_renorm(e).buf, i) == stream_bit(em.buf, i));
        }
        assert(stream_num(buf, n + 1 + u, 32) == 2 * stream_num(buf, n + 1 + u, 31) + bit);
        assert(pow2(0) == 1);
        assert((pow2(0) - 1) * pow2(31) == 0) by (nonlinear_arith)
            requires pow2(0) == 1;
        assert(tail_value(buf, next.nbits, 0, 0) == stream_num(buf, n + 1 + u, 32));
        let d2 = if b == 0 {
            DecState { low: (2 * d.low) as u32, high: (2 * d.high + 1) as u32, value: (2 * d.value + bit) as u32, pos: min_nat(n + u + 33, buf.len() * 8) }
        } else {
            DecState {
                low: (2 * (d.low - 0x8000_0000)) as u32,
                high: (2 * (d.high - 0x8000_0000) + 1) as u32,
                value: (2 * (d.value - 0x8000_0000) + bit) as u32,
                pos: min_nat(n + u + 33, buf.len() * 8),
            }
        };
        assert(dec_renorm(d, buf) == dec_renorm(d2, buf));
        if b == 0 {
            lemma_tail_emit0(buf, n, u, 0);
        } else {
            lemma_tail_emit1(buf, n, u, 0);
            reveal_with_fuel(pow2, 32);
        }
        assert(mirrors(d2, next, buf));
        lemma_renorm_forward(next, d2, buf, base, u0, w0);
    } else if e.low >= 0x4000_0000 && e.high < 0xC000_0000 {
        let next = EncState {
            low: (2 * (e.low - 0x4000_0000)) as u32,
            high: (2 * (e.high - 0x4000_0000) + 1) as u32,
            underflow: (e.underflow + 1) as u32,
            ..e
        };
        assert(enc_renorm(next) == enc_renorm(e));
        lemma_progress_step(e, next, base, u0, w0);
        lemma_tail_underflow(buf, n, u, 0);
        lemma_tail_shift(buf, n, u, 0);
        lemma_pow2_31(0);
        assert(pow2(0) == 1);
        let d2 = DecState {
            low: (2 * (d.low - 0x4000_0000)) as u32,
            high: (2 * (d.high - 0x4000_0000) + 1) as u32,
            value: (2 * (d.value - 0x4000_0000) + bit) as u32,
            pos: min_nat(n + u + 33, buf.len() * 8),
        };
        assert(dec_renorm(d, buf) == dec_renorm(d2, buf));
        assert(mirrors(d2, next, buf));
        lemma_renorm_forward(next, d2, buf, base, u0, w0);
    }
}

proof fn lemma_scaled_in(v: int, rw: int, total: int, cl: int, ch: int)
    requires
        rw >= total >= 1,
        0 <= cl < ch <= total,
        rw * cl / total <= v <= rw * ch / total - 1,
    ensures
        cl <= ((v + 1) * total - 1) / rw < ch,
{
    let x = (v + 1) * total - 1;
    assert(rw * cl >= 0) by (nonlinear_arith)
        requires rw >= 1, cl >= 0;
    assert(rw * cl < (v + 1) * total) by (nonlinear_arith)
        requires rw * cl / total <= v, total >= 1, rw * cl >= 0;
    assert((v + 1) * total <= rw * ch) by (nonlinear_arith)
        requires v + 1 <= rw * ch / total, total >= 1;
    assert(x >= cl * rw) by (nonlinear_arith)
        requires rw * cl < (v + 1) * total, x == (v + 1) * total - 1;
    assert(x / rw >= cl) by (nonlinear_arith)
        requires x >= cl * rw, rw >= 1;
    assert(x < ch * rw) by (nonlinear_arith)
        requires (v + 1) * total <= rw * ch, x == (v + 1) * total - 1;
    assert(x / rw < ch) by (nonlinear_arith)
        requires x < ch * rw, rw >= 1, x >= 0;
}

/// The cumulative counts of one radical, as 32-bit values, are exact, rise
/// with the symbol and give every symbol a share.
proof fn lemma_cum_exact(m: RadicalModel, step: int, rc: u8, rf: u8)
    requires
        0 <= step < 3,
        m.alpha >= 1,
        model_fits(m, 0),
    ensures
        forall|i: int| 0 <= i <= 256 ==> #[trigger] cum_table(m, step, rc, rf)[i] as int == step_cum(m, step, rc, rf, i),
        forall|i: int, j: int| 0 <= i <= j <= 256 ==> cum_table(m, step, rc, rf)[i] <= cum_table(m, step, rc, rf)[j],
{
    assert forall|i: int| 0 <= i <= 256 implies #[trigger] cum_table(m, step, rc, rf)[i] as int == step_cum(m, step, rc, rf, i) by {
        if i < 256 {
            lemma_step_cum_facts(m, step, rc, rf, i);
        } else {
            lemma_step_cum_facts(m, step, rc, rf, 255);
        }
    }
    lemma_cum_table(m, step, rc, rf, cum_table(m, step, rc, rf));
}

/// The interval narrowed to a symbol's share.
pub open spec fn narrowed(st: EncState, cl: int, ch: int, total: int) -> EncState {
    let rw = st.high - st.low + 1;
    EncState { low: (st.low + rw * cl / total) as u32, high: (st.low + rw * ch / total - 1) as u32, ..st }
}

/// Decoding one radical from a mirrored state gives the radical the encoder
/// coded, and leaves the states mirrored.
proof fn lemma_symbol_forward(e: EncState, d: DecState, buf: Seq<u8>, m: RadicalModel, step: int, rc: u8, rf: u8, sym: u8, rc2: u8, rf2: u8)
    requires
        enc_ok(e),
        e.high - e.low + 1 > 0x4000_0000,
        e.underflow + 33 < 0x1_0000_0000,
        mirrors(d, e, buf),
        0 <= step < 3,
        m.alpha >= 1,
        model_fits(m, 0),
        step_key(m, step, rc2, rf2) == step_key(m, step, rc, rf),
        agrees(buf, enc_symbol(e, m, step, rc, rf, sym).buf, enc_symbol(e, m, step, rc, rf, sym).nbits),
        tail_in(buf, enc_symbol(e, m, step, rc, rf, sym)),
    ensures
        dec_symbol(d, buf, m, step, rc2, rf2).1 == sym,
        mirrors(dec_symbol(d, buf, m, step, rc2, rf2).0, enc_symbol(e, m, step, rc, rf, sym), buf),
{
    let cl = step_cum(m, step, rc, rf, sym as int);
    let ch = step_cum(m, step, rc, rf, sym + 1);
    let total = step_cum(m, step, rc, rf, 256);
    lemma_step_cum_facts(m, step, rc, rf, sym as int);
    let rw = e.high - e.low + 1;
    lemma_narrow(e.low as int, e.high as int, cl, ch, total);
    let en = narrowed(e, cl, ch, total);
    assert(enc_symbol(e, m, step, rc, rf, sym) == enc_renorm(en));
    assert(en.high - en.low + 1 >= 1);
    assert(enc_ok(en));
    assert(renorm_progress(en, en.nbits + en.underflow, en.underflow as int, en.high - en.low + 1)) by {
        assert(pow2(0) == 1);
    }
    lemma_renorm_back(en, buf, en.nbits + en.underflow, en.underflow as int, en.high - en.low + 1);
    lemma_tail_zero_bounds(buf, en);
    let cum = cum_table(m, step, rc2, rf2);
    assert(step_cum(m, step, rc2, rf2, sym as int) == cl);
    lemma_cum_exact(m, step, rc2, rf2);
    assert forall|i: int| 0 <= i <= 256 implies #[trigger] step_cum(m, step, rc2, rf2, i) == step_cum(m, step, rc, rf, i) by {}
    let v = d.value - d.low;
    lemma_scaled_in(v, rw, total, cl, ch);
    let scaled = ((d.value - d.low + 1) * (cum[256] as int) - 1) / rw;
    assert(cum[256] as int == total);
    assert(cum[sym as int] as int == cl);
    assert(cum[sym + 1] as int == ch);
    assert forall|t: int| 0 <= t < sym implies #[trigger] cum[t + 1] <= scaled by {
        assert(cum[t + 1] <= cum[sym as int]);
    }
    lemma_symbol_above(cum, scaled, 0, sym as int);
    let dn = DecState { low: en.low, high: en.high, ..d };
    assert(dec_symbol(d, buf, m, step, rc2, rf2) == (dec_renorm(dn, buf), sym));
    assert(mirrors(dn, en, buf));
    lemma_renorm_forward(en, dn, buf, en.nbits + en.underflow, en.underflow as int, en.high - en.low + 1);
}

/// The bits two streams share carry over to a third that agrees with the
/// longer one.
proof fn lemma_agrees_trans(b3: Seq<u8>, b2: Seq<u8>, n2: nat, b1: Seq<u8>, n1: nat)
    requires
        agrees(b3, b2, n2),
        agrees(b2, b1, n1),
        n1 <= n2,
    ensures
        agrees(b3, b1, n1),
{
    assert forall|i: nat| i < n1 implies #[trigger] stream_bit(b3, i) == stream_bit(b1, i) by {
        assert(stream_bit(b3, i) == stream_bit(b2, i));
    }
}

/// Coding one radical keeps the encoder state reachable and settled, adds at
/// most 32 written or pending bits, and keeps the bits already written.
proof fn lemma_symbol_facts(e: EncState, m: RadicalModel, step: int, rc: u8, rf: u8, sym: u8)
    requires
        enc_ok(e),
        settled(e),
        e.underflow + 33 < 0x1_0000_0000,
        0 <= step < 3,
        m.alpha >= 1,
        model_fits(m, 0),
    ensures
        enc_ok(enc_symbol(e, m, step, rc, rf, sym)),
        settled(enc_symbol(e, m, step, rc, rf, sym)),
        enc_symbol(e, m, step, rc, rf, sym).nbits + enc_symbol(e, m, step, rc, rf, sym).underflow <= e.nbits
            + e.underflow + 32,
        enc_symbol(e, m, step, rc, rf, sym).nbits >= e.nbits,
        agrees(enc_symbol(e, m, step, rc, rf, sym).buf, e.buf, e.nbits),
{
    let cl = step_cum(m, step, rc, rf, sym as int);
    let ch = step_cum(m, step, rc, rf, sym + 1);
    let total = step_cum(m, step, rc, rf, 256);
    lemma_step_cum_facts(m, step, rc, rf, sym as int);
    lemma_narrow(e.low as int, e.high as int, cl, ch, total);
    let en = narrowed(e, cl, ch, total);
    assert(enc_symbol(e, m, step, rc, rf, sym) == enc_renorm(en));
    let base = en.nbits + en.underflow;
    assert(renorm_progress(en, base, en.underflow as int, en.high - en.low + 1)) by {
        assert(pow2(0) == 1);
    }
    lemma_renorm_facts(en, base, en.underflow as int, en.high - en.low + 1);
    lemma_progress_bound(enc_renorm(en), base, en.underflow as int, en.high - en.low + 1);
}

/// If the stream lies in the interval after a radical is coded, it lay in the
/// interval before.
proof fn lemma_symbol_back(e: EncState, buf: Seq<u8>, m: RadicalModel, step: int, rc: u8, rf: u8, sym: u8)
    requires
        enc_ok(e),
        settled(e),
        e.underflow + 33 < 0x1_0000_0000,
        0 <= step < 3,
        m.alpha >= 1,
        model_fits(m, 0),
        agrees(buf, enc_symbol(e, m, step, rc, rf, sym).buf, enc_symbol(e, m, step, rc, rf, sym).nbits),
        tail_in(buf, enc_symbol(e, m, step, rc, rf, sym)),
    ensures
        tail_in(buf, e),
{
    let cl = step_cum(m, step, rc, rf, sym as int);
    let ch = step_cum(m, step, rc, rf, sym + 1);
    let total = step_cum(m, step, rc, rf, 256);
    lemma_step_cum_facts(m, step, rc, rf, sym as int);
    lemma_narrow(e.low as int, e.high as int, cl, ch, total);
    let en = narrowed(e, cl, ch, total);
    assert(enc_symbol(e, m, step, rc, rf, sym) == enc_renorm(en));
    let base = en.nbits + en.underflow;
    assert(renorm_progress(en, base, en.underflow as int, en.high - en.low + 1)) by {
        assert(pow2(0) == 1);
    }
    lemma_renorm_back(en, buf, base, en.underflow as int, en.high - en.low + 1);
    assert forall|r: nat| e.low * pow2(r) <= #[trigger] tail_value(buf, e.nbits, e.underflow as nat, r) < (e.high + 1) * pow2(r) by {
        assert(en.low * pow2(r) <= tail_value(buf, e.nbits, e.underflow as nat, r) < (en.high + 1) * pow2(r));
        lemma_pow2_pos(r);
        assert(e.low * pow2(r) <= en.low * pow2(r)) by (nonlinear_arith)
            requires e.low <= en.low, pow2(r) >= 1;
        assert((en.high + 1) * pow2(r) <= (e.high + 1) * pow2(r)) by (nonlinear_arith)
            requires en.high <= e.high, pow2(r) >= 1;
    }
}

/// The encoder state after the first `j` radicals of `c`.
pub open spec fn enc_partial(e: EncState, m: RadicalModel, c: Concept6D, j: int) -> EncState
    decreases j,
{
    let r = c.radicals_spec();
    if j <= 0 {
        e
    } else {
        enc_symbol(enc_partial(e, m, c, j - 1), m, j - 1, r[0], r[1], r[j - 1])
    }
}

/// The states within a concept stay reachable and settled, with room for the
/// pending count.
pub open spec fn concept_room(e: EncState, m: RadicalModel) -> bool {
    &&& enc_ok(e)
    &&& settled(e)
    &&& e.nbits + e.underflow + 97 < 0x1_0000_0000
    &&& m.alpha >= 1
    &&& model_fits(m, 0)
}

proof fn lemma_partial_facts(e: EncState, m: RadicalModel, c: Concept6D, j: int)
    requires
        concept_room(e, m),
        0 <= j <= 3,
    ensures
        enc_ok(enc_partial(e, m, c, j)),
        settled(enc_partial(e, m, c, j)),
        enc_partial(e, m, c, j).nbits + enc_partial(e, m, c, j).underflow <= e.nbits + e.underflow + 32 * j,
        enc_partial(e, m, c, j).nbits >= e.nbits,
        agrees(enc_partial(e, m, c, j).buf, e.buf, e.nbits),
    decreases j,
{
    if j > 0 {
        lemma_partial_facts(e, m, c, j - 1);
        let p = enc_partial(e, m, c, j - 1);
        let r = c.radicals_spec();
        lemma_symbol_facts(p, m, j - 1, r[0], r[1], r[j - 1]);
        lemma_agrees_trans(enc_partial(e, m, c, j).buf, p.buf, p.nbits, e.buf, e.nbits);
    }
}

proof fn lemma_partial_concept(e: EncState, m: RadicalModel, c: Concept6D)
    ensures
        enc_partial(e, m, c, 3) == enc_concept(e, m, c),
{
    reveal_with_fuel(enc_partial, 4);
}

/// If the stream lies in the interval after the concept, it lies in the
/// interval after each of its radicals, and agrees with what each wrote.
proof fn lemma_partial_back(e: EncState, buf: Seq<u8>, m: RadicalModel, c: Concept6D, j: int)
    requires
        concept_room(e, m),
        0 <= j <= 3,
        agrees(buf, enc_partial(e, m, c, 3).buf, enc_partial(e, m, c, 3).nbits),
        tail_in(buf, enc_partial(e, m, c, 3)),
    ensures
        agrees(buf, enc_partial(e, m, c, j).buf, enc_partial(e, m, c, j).nbits),
        tail_in(buf, enc_partial(e, m, c, j)),
    decreases 3 - j,
{
    if j < 3 {
        lemma_partial_back(e, buf, m, c, j + 1);
        lemma_partial_facts(e, m, c, j);
        lemma_partial_facts(e, m, c, j + 1);
        let p = enc_partial(e, m, c, j);
        let r = c.radicals_spec();
        assert(enc_partial(e, m, c, j + 1) == enc_symbol(p, m, j, r[0], r[1], r[j]));
        lemma_symbol_facts(p, m, j, r[0], r[1], r[j]);
        lemma_agrees_trans(buf, enc_partial(e, m, c, j + 1).buf, enc_partial(e, m, c, j + 1).nbits, p.buf, p.nbits);
        lemma_symbol_back(p, buf, m, j, r[0], r[1], r[j]);
    }
}

/// Decoding a concept from a mirrored state gives its three radicals back and
/// leaves the states mirrored.
proof fn lemma_concept_forward(e: EncState, d: DecState, buf: Seq<u8>, m: RadicalModel, c: Concept6D)
    requires
        concept_room(e, m),
        mirrors(d, e, buf),
        agrees(buf, enc_concept(e, m, c).buf, enc_concept(e, m, c).nbits),
        tail_in(buf, enc_concept(e, m, c)),
    ensures
        dec_concept(d, buf, m).1 == (c.radicals_spec()[0], c.radicals_spec()[1], c.radicals_spec()[2]),
        mirrors(dec_concept(d, buf, m).0, enc_concept(e, m, c), buf),
{
    let r = c.radicals_spec();
    lemma_partial_concept(e, m, c);
    lemma_partial_back(e, buf, m, c, 1);
    lemma_partial_back(e, buf, m, c, 2);
    lemma_partial_back(e, buf, m, c, 3);
    lemma_partial_facts(e, m, c, 0);
    lemma_partial_facts(e, m, c, 1);
    lemma_partial_facts(e, m, c, 2);
    let e1 = enc_partial(e, m, c, 1);
    let e2 = enc_partial(e, m, c, 2);
    assert(e1 == enc_symbol(e, m, 0, r[0], r[1], r[0]));
    assert(e2 == enc_symbol(e1, m, 1, r[0], r[1], r[1]));
    assert(enc_partial(e, m, c, 3) == enc_symbol(e2, m, 2, r[0], r[1], r[2]));
    lemma_symbol_forward(e, d, buf, m, 0, r[0], r[1], r[0], 0, 0);
    let (s0, rc) = dec_symbol(d, buf, m, 0, 0, 0);
    lemma_symbol_forward(e1, s0, buf, m, 1, r[0], r[1], r[1], rc, 0);
    let (s1, rf) = dec_symbol(s0, buf, m, 1, rc, 0);
    lemma_symbol_forward(e2, s1, buf, m, 2, r[0], r[1], r[2], rc, rf);
}

/// Encoder state and model after the first `k` concepts.
pub open spec fn enc_prefix(cs: Seq<Concept6D>, alpha: u32, weight: u32, k: int) -> (EncState, RadicalModel) {
    enc_run(cs.take(k), alpha, weight)
}

proof fn lemma_prefix_step(cs: Seq<Concept6D>, alpha: u32, weight: u32, k: int)
    requires
        0 <= k < cs.len(),
    ensures
        enc_prefix(cs, alpha, weight, k + 1) == ({
            let (st, m) = enc_prefix(cs, alpha, weight, k);
            let r = cs[k].radicals_spec();
            (enc_concept(st, m, cs[k]), model_observe(m, r[0], r[1], r[2]))
        }),
{
    assert(cs.take(k + 1).drop_last() =~= cs.take(k));
    assert(cs.take(k + 1).last() == cs[k]);
}

proof fn lemma_prefix_facts(cs: Seq<Concept6D>, alpha: u32, weight: u32, k: int)
    requires
        coder_fits(cs.len() as int, alpha, weight),
        0 <= k <= cs.len(),
    ensures
        enc_ok(enc_prefix(cs, alpha, weight, k).0),
        settled(enc_prefix(cs, alpha, weight, k).0),
        enc_prefix(cs, alpha, weight, k).0.nbits + enc_prefix(cs, alpha, weight, k).0.underflow <= 96 * k,
        enc_prefix(cs, alpha, weight, k).1.alpha == alpha,
        enc_prefix(cs, alpha, weight, k).1.weight == weight,
        model_fits(enc_prefix(cs, alpha, weight, k).1, weight * (cs.len() - k)),
    decreases k,
{
    let n = cs.len() as int;
    if k == 0 {
        assert(cs.take(0) =~= Seq::<Concept6D>::empty());
        assert(weight * (n - 0) == weight * n);
        assert(weight * n >= 0) by (nonlinear_arith)
            requires n >= 0;
    } else {
        lemma_prefix_facts(cs, alpha, weight, k - 1);
        lemma_prefix_step(cs, alpha, weight, k - 1);
        let (st, m) = enc_prefix(cs, alpha, weight, k - 1);
        let r = cs[k - 1].radicals_spec();
        assert(weight * (n - (k - 1)) == weight * (n - k) + weight) by (nonlinear_arith);
        assert(weight * (n - k) >= 0) by (nonlinear_arith)
            requires n - k >= 0;
        assert(concept_room(st, m));
        lemma_partial_facts(st, m, cs[k - 1], 3);
        lemma_partial_concept(st, m, cs[k - 1]);
        lemma_observe_fits(m, r[0], r[1], r[2], weight * (n - k));
    }
}

proof fn lemma_prefix_agrees(cs: Seq<Concept6D>, alpha: u32, weight: u32, j: int, k: int)
    requires
        coder_fits(cs.len() as int, alpha, weight),
        0 <= j <= k <= cs.len(),
    ensures
        agrees(enc_prefix(cs, alpha, weight, k).0.buf, enc_prefix(cs, alpha, weight, j).0.buf, enc_prefix(cs, alpha, weight, j).0.nbits),
        enc_prefix(cs, alpha, weight, j).0.nbits <= enc_prefix(cs, alpha, weight, k).0.nbits,
    decreases k - j,
{
    if j < k {
        lemma_prefix_agrees(cs, alpha, weight, j, k - 1);
        lemma_prefix_facts(cs, alpha, weight, k - 1);
        lemma_prefix_step(cs, alpha, weight, k - 1);
        let (st, m) = enc_prefix(cs, alpha, weight, k - 1);
        let n = cs.len() as int;
        assert(weight * (n - (k - 1)) >= 0) by (nonlinear_arith)
            requires n - (k - 1) >= 0;
        assert(concept_room(st, m));
        lemma_partial_facts(st, m, cs[k - 1], 3);
        lemma_partial_concept(st, m, cs[k - 1]);
        let pj = enc_prefix(cs, alpha, weight, j).0;
        lemma_agrees_trans(enc_prefix(cs, alpha, weight, k).0.buf, st.buf, st.nbits, pj.buf, pj.nbits);
    }
}

/// The final stream lies in the interval of every state the encoder passed
/// through after whole concepts, and agrees with what it had written there.
proof fn lemma_prefix_back(cs: Seq<Concept6D>, alpha: u32, weight: u32, k: int)
    requires
        coder_fits(cs.len() as int, alpha, weight),
        0 <= k <= cs.len(),
    ensures
        tail_in(encode_spec(cs, alpha, weight).buf, enc_prefix(cs, alpha, weight, k).0),
        agrees(encode_spec(cs, alpha, weight).buf, enc_prefix(cs, alpha, weight, k).0.buf, enc_prefix(cs, alpha, weight, k).0.nbits),
    decreases cs.len() - k,
{
    let n = cs.len() as int;
    let buf = encode_spec(cs, alpha, weight).buf;
    assert(cs.take(n) =~= cs);
    if k == n {
        lemma_prefix_facts(cs, alpha, weight, n);
        lemma_finish_in(enc_prefix(cs, alpha, weight, n).0);
    } else {
        lemma_prefix_back(cs, alpha, weight, k + 1);
        lemma_prefix_facts(cs, alpha, weight, k);
        lemma_prefix_step(cs, alpha, weight, k);
        let (st, m) = enc_prefix(cs, alpha, weight, k);
        assert(weight * (n - k) >= 0) by (nonlinear_arith)
            requires n - k >= 0;
        assert(concept_room(st, m));
        lemma_partial_concept(st, m, cs[k]);
        lemma_partial_back(st, buf, m, cs[k], 0);
    }
}

proof fn lemma_read_bits(buf: Seq<u8>, q: nat, v: u32, k: nat)
    requires
        (v + 1) * pow2(k) <= 0x1_0000_0000,
    ensures
        read_bits(buf, min_nat(q, buf.len() * 8), v, k) == ((v * pow2(k) + stream_num(buf, q, k)) as u32, min_nat(q + k, buf.len() * 8)),
    decreases k,
{
    if k == 0 {
        assert(pow2(0) == 1);
    } else {
        lemma_read_next(buf, q);
        let b = stream_bit(buf, q);
        lemma_stream_bit_le1(buf, q);
        let k1 = (k - 1) as nat;
        assert(pow2(k) == 2 * pow2(k1));
        lemma_pow2_pos(k1);
        assert(2 * v + 2 <= 0x1_0000_0000) by (nonlinear_arith)
            requires (v + 1) * (2 * pow2(k1)) <= 0x1_0000_0000, pow2(k1) >= 1;
        let v2 = (((v as int) * 2) % 0x1_0000_0000 + b) as u32;
        assert(v2 == 2 * v + b);
        assert((v2 + 1) * pow2(k1) <= 0x1_0000_0000) by (nonlinear_arith)
            requires v2 == 2 * v + b, b <= 1, (v + 1) * (2 * pow2(k1)) <= 0x1_0000_0000, pow2(k1) >= 1;
        lemma_read_bits(buf, q + 1, v2, k1);
        lemma_num_split(buf, q, 1, k1);
        assert(stream_num(buf, q, 1) == 2 * stream_num(buf, q, 0) + stream_bit(buf, q));
        assert(v2 * pow2(k1) + stream_num(buf, q + 1, k1) == v * pow2(k) + stream_num(buf, q, k)) by (nonlinear_arith)
            requires
                v2 == 2 * v + b,
                pow2(k) == 2 * pow2(k1),
                stream_num(buf, q, 1 + k1) == stream_num(buf, q, 1) * pow2(k1) + stream_num(buf, q + 1, k1),
                stream_num(buf, q, 1) == b,
                1 + k1 == k;
        assert(q + 1 + k1 == q + k);
    }
}

/// Decoding `k` concepts from the final stream gives the first `k` concepts,
/// the encoder's model, and a state that mirrors the encoder's.
proof fn lemma_prefix_forward(cs: Seq<Concept6D>, alpha: u32, weight: u32, k: int)
    requires
        coder_fits(cs.len() as int, alpha, weight),
        forall|i: int| 0 <= i < cs.len() ==> #[trigger] cs[i].wf(),
        0 <= k <= cs.len(),
    ensures
        dec_run(encode_spec(cs, alpha, weight).buf, k as nat, alpha, weight).1 == enc_prefix(cs, alpha, weight, k).1,
        dec_run(encode_spec(cs, alpha, weight).buf, k as nat, alpha, weight).2 == cs.take(k),
        mirrors(dec_run(encode_spec(cs, alpha, weight).buf, k as nat, alpha, weight).0, enc_prefix(cs, alpha, weight, k).0, encode_spec(cs, alpha, weight).buf),
    decreases k,
{
    let buf = encode_spec(cs, alpha, weight).buf;
    let n = cs.len() as int;
    if k == 0 {
        assert(cs.take(0) =~= Seq::<Concept6D>::empty());
        reveal_with_fuel(pow2, 33);
        assert(pow2(32) == 0x1_0000_0000);
        lemma_read_bits(buf, 0, 0, 32);
        lemma_num_bounds(buf, 0, 32);
        assert(pow2(0) == 1);
        assert((pow2(0) - 1) * pow2(31) == 0) by (nonlinear_arith)
            requires pow2(0) == 1;
        assert(0 * pow2(32) == 0);
    } else {
        lemma_prefix_forward(cs, alpha, weight, k - 1);
        lemma_prefix_facts(cs, alpha, weight, k - 1);
        lemma_prefix_step(cs, alpha, weight, k - 1);
        lemma_prefix_back(cs, alpha, weight, k);
        let (st, m) = enc_prefix(cs, alpha, weight, k - 1);
        assert(weight * (n - (k - 1)) >= 0) by (nonlinear_arith)
            requires n - (k - 1) >= 0;
        assert(concept_room(st, m));
        let d = dec_run(buf, (k - 1) as nat, alpha, weight).0;
        lemma_concept_forward(st, d, buf, m, cs[k - 1]);
        lemma_radicals_round_trip(cs[k - 1]);
        assert(cs.take(k) =~= cs.take(k - 1).push(cs[k - 1]));
    }
}

/// Decoding the range-coded stream of well-formed concepts, with the same
/// `alpha` and `weight` and the same count, gives the concepts back.
pub proof fn lemma_range_coder_round_trip(cs: Seq<Concept6D>, alpha: u32, weight: u32)
    requires
        coder_fits(cs.len() as int, alpha, weight),
        forall|i: int| 0 <= i < cs.len() ==> #[trigger] cs[i].wf(),
    ensures
        decode_spec(encode_spec(cs, alpha, weight).buf, cs.len() as nat, alpha, weight) == cs,
{
    lemma_prefix_forward(cs, alpha, weight, cs.len() as int);
    assert(cs.take(cs.len() as int) =~= cs);
}

/// The encoded stream holds exactly the bytes its bits occupy, and it has at
/// least the two flush bits.
pub proof fn lemma_encoding_shape(cs: Seq<Concept6D>, alpha: u32, weight: u32)
    requires
        coder_fits(cs.len() as int, alpha, weight),
    ensures
        encode_spec(cs, alpha, weight).buf.len() == (encode_spec(cs, alpha, weight).nbits + 7) / 8,
        encode_spec(cs, alpha, weight).nbits >= 2,
{
    let n = cs.len() as int;
    lemma_prefix_facts(cs, alpha, weight, n);
    assert(cs.take(n) =~= cs);
    lemma_finish_in(enc_prefix(cs, alpha, weight, n).0);
}

/// Decoding `count` concepts from any stream gives exactly `count` concepts,
/// each with 4-bit axes.
pub proof fn lemma_decode_shape(buf: Seq<u8>, count: nat, alpha: u32, weight: u32)
    ensures
        decode_spec(buf, count, alpha, weight).len() == count,
        forall|i: int| 0 <= i < count ==> (#[trigger] decode_spec(buf, count, alpha, weight)[i]).wf(),
    decreases count,
{
    if count > 0 {
        lemma_decode_shape(buf, (count - 1) as nat, alpha, weight);
        let (st, m, out) = dec_run(buf, (count - 1) as nat, alpha, weight);
        let (st2, r) = dec_concept(st, buf, m);
        lemma_radical_nibbles(r.0);
        lemma_radical_nibbles(r.1);
        lemma_radical_nibbles(r.2);
        let all = decode_spec(buf, count, alpha, weight);
        assert(all == out.push(concept_of_radicals(r.0, r.1, r.2)));
        assert forall|i: int| 0 <= i < count implies (#[trigger] all[i]).wf() by {
            if i < count - 1 {
                assert(all[i] == decode_spec(buf, (count - 1) as nat, alpha, weight)[i]);
            }
        }
    }
}

} // verus!
