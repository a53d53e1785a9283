//! Z-SPAR: semantic parity and repair over GF(16).
//!
//! An 8-axis semantic coordinate (eight 4-bit symbols) is protected by four
//! parity symbols of a systematic Reed-Solomon style code over GF(16) built on
//! the primitive polynomial x^4 + x + 1.  A receiver recomputes the syndromes,
//! and repairs one or two drifted axes locally.

use vstd::prelude::*;
use vstd::string::StringSliceAdditionalSpecFns;

verus! {

// ---------------------------------------------------------------------------
// GF(16) model
// ---------------------------------------------------------------------------

/// alpha^i for the generator alpha = x of GF(16) (exponent taken modulo 15).
pub open spec fn gf_exp(i: u8) -> u8 {
    let k = i % 15;
    if k == 0 { 1 } else if k == 1 { 2 } else if k == 2 { 4 } else if k == 3 { 8 }
    else if k == 4 { 3 } else if k == 5 { 6 } else if k == 6 { 12 } else if k == 7 { 11 }
    else if k == 8 { 5 } else if k == 9 { 10 } else if k == 10 { 7 } else if k == 11 { 14 }
    else if k == 12 { 15 } else if k == 13 { 13 } else { 9 }
}

/// Discrete logarithm to base alpha of a nonzero element (0 for 0 and 1).
pub open spec fn gf_log(a: u8) -> u8 {
    if a == 2 { 1 } else if a == 3 { 4 } else if a == 4 { 2 } else if a == 5 { 8 }
    else if a == 6 { 5 } else if a == 7 { 10 } else if a == 8 { 3 } else if a == 9 { 14 }
    else if a == 10 { 9 } else if a == 11 { 7 } else if a == 12 { 6 } else if a == 13 { 13 }
    else if a == 14 { 11 } else if a == 15 { 12 } else { 0 }
}

/// Product in GF(16): carry-less polynomial product reduced modulo x^4 + x + 1.
pub open spec fn gf_mul(a: u8, b: u8) -> u8 {
    let p: u8 = (if b & 1 != 0 { a } else { 0u8 })
        ^ (if b & 2 != 0 { a << 1u8 } else { 0u8 })
        ^ (if b & 4 != 0 { a << 2u8 } else { 0u8 })
        ^ (if b & 8 != 0 { a << 3u8 } else { 0u8 });
    let p1: u8 = if p & 0x40 != 0 { p ^ 0x4C } else { p };
    let p2: u8 = if p1 & 0x20 != 0 { p1 ^ 0x26 } else { p1 };
    if p2 & 0x10 != 0 { p2 ^ 0x13 } else { p2 }
}

/// Quotient a / b in GF(16) for a nonzero divisor b.
pub open spec fn gf_div(a: u8, b: u8) -> u8 {
    if a == 0 { 0 } else { gf_exp(((gf_log(a) + 15 - gf_log(b)) % 15) as u8) }
}

/// a^e in GF(16), with the convention that 0 raised to any power is 0.
pub open spec fn gf_pow(a: u8, e: int) -> u8 {
    if a == 0 { 0 } else { gf_exp(((gf_log(a) * e) % 15) as u8) }
}

/// Code weight alpha^((j+1)(i+1)) used by parity symbol j for data axis i.
pub open spec fn wt(j: int, i: int) -> u8 {
    gf_exp((((j + 1) * (i + 1)) % 15) as u8)
}

proof fn lemma_tables_literal()
    ensures
        forall|i: int| 0 <= i < 32 ==> #[trigger] GF16::EXP@[i] == gf_exp(i as u8),
        forall|a: int| 1 <= a < 16 ==> #[trigger] GF16::LOG@[a] == gf_log(a as u8),
{
    assert forall|i: int| 0 <= i < 32 implies #[trigger] GF16::EXP@[i] == gf_exp(i as u8) by {}
    assert forall|a: int| 1 <= a < 16 implies #[trigger] GF16::LOG@[a] == gf_log(a as u8) by {}
}

proof fn lemma_table_mul(a: u8, b: u8)
    requires
        1 <= a < 16,
        1 <= b < 16,
    ensures
        gf_exp(((gf_log(a) + gf_log(b)) % 15) as u8) == gf_mul(a, b),
{
    assert(gf_exp(((gf_log(a) + gf_log(b)) % 15) as u8) == gf_mul(a, b)) by (bit_vector)
        requires
            1 <= a < 16,
            1 <= b < 16,
    ;
}

proof fn lemma_mul_small(a: u8, b: u8)
    requires
        a < 16,
        b < 16,
    ensures
        gf_mul(a, b) < 16,
        gf_mul(a, b) == gf_mul(b, a),
        a == 0 ==> gf_mul(a, b) == 0,
        b == 0 ==> gf_mul(a, b) == 0,
        a != 0 && b != 0 ==> gf_mul(a, b) != 0,
        gf_mul(a, 1) == a,
{
    assert(gf_mul(a, b) < 16 && gf_mul(a, b) == gf_mul(b, a) && (a == 0 ==> gf_mul(a, b) == 0)
        && (b == 0 ==> gf_mul(a, b) == 0) && (a != 0 && b != 0 ==> gf_mul(a, b) != 0)
        && gf_mul(a, 1) == a) by (bit_vector)
        requires
            a < 16,
            b < 16,
    ;
}

proof fn lemma_distrib(a: u8, b: u8, c: u8)
    requires
        a < 16,
        b < 16,
        c < 16,
    ensures
        gf_mul(a ^ b, c) == gf_mul(a, c) ^ gf_mul(b, c),
{
    assert(gf_mul(a ^ b, c) == gf_mul(a, c) ^ gf_mul(b, c)) by (bit_vector)
        requires
            a < 16,
            b < 16,
            c < 16,
    ;
}

proof fn lemma_xor(a: u8, b: u8, c: u8)
    requires
        a < 16,
        b < 16,
        c < 16,
    ensures
        a ^ b < 16,
        (a ^ b) & 0x0F == a ^ b,
        a & 0x0F == a,
        a ^ a == 0,
        a ^ 0 == a,
        0 ^ a == a,
        a ^ b == b ^ a,
        (a ^ b) ^ c == a ^ (b ^ c),
        (a ^ b) ^ b == a,
        (a ^ b == 0) == (a == b),
{
    assert(a ^ b < 16 && (a ^ b) & 0x0F == a ^ b && a & 0x0F == a && a ^ a == 0 && a ^ 0 == a
        && 0 ^ a == a && a ^ b == b ^ a && (a ^ b) ^ c == a ^ (b ^ c) && (a ^ b) ^ b == a
        && (a ^ b == 0) == (a == b)) by (bit_vector)
        requires
            a < 16,
            b < 16,
            c < 16,
    ;
}

proof fn lemma_exp_facts(x: u8)
    ensures
        gf_exp(x) != 0,
        gf_exp(x) < 16,
        gf_exp(x) == gf_exp(x % 15),
        x < 15 ==> gf_log(gf_exp(x)) == x,
{
    assert(gf_exp(x) != 0 && gf_exp(x) < 16 && gf_exp(x) == gf_exp(x % 15) && (x < 15 ==> gf_log(
        gf_exp(x),
    ) == x)) by (bit_vector);
}

proof fn lemma_log_facts(a: u8)
    requires
        1 <= a < 16,
    ensures
        gf_log(a) < 15,
        gf_exp(gf_log(a)) == a,
{
    assert(gf_log(a) < 15 && gf_exp(gf_log(a)) == a) by (bit_vector)
        requires
            1 <= a < 16,
    ;
}

proof fn lemma_exp_injective(x: u8, y: u8)
    requires
        x < 15,
        y < 15,
        gf_exp(x) == gf_exp(y),
    ensures
        x == y,
{
    assert(x == y) by (bit_vector)
        requires
            x < 15,
            y < 15,
            gf_exp(x) == gf_exp(y),
    ;
}

proof fn lemma_exp_mul(x: u8, y: u8)
    requires
        x < 15,
        y < 15,
    ensures
        gf_mul(gf_exp(x), gf_exp(y)) == gf_exp(((x + y) % 15) as u8),
{
    lemma_exp_facts(x);
    lemma_exp_facts(y);
    lemma_table_mul(gf_exp(x), gf_exp(y));
}

/// Exponent form of a quotient of powers of the generator.
proof fn lemma_exp_div(x: u8, y: u8)
    requires
        x < 15,
        y < 15,
    ensures
        gf_div(gf_exp(x), gf_exp(y)) == gf_exp(((x + 15 - y) % 15) as u8),
{
    lemma_exp_facts(x);
    lemma_exp_facts(y);
}

proof fn lemma_div_mul(a: u8, b: u8)
    requires
        a < 16,
        1 <= b < 16,
    ensures
        gf_mul(gf_div(a, b), b) == a,
        gf_div(gf_mul(a, b), b) == a,
        gf_div(a, b) < 16,
        (gf_div(a, b) == 0) == (a == 0),
{
    assert(gf_mul(gf_div(a, b), b) == a && gf_div(gf_mul(a, b), b) == a && gf_div(a, b) < 16 && (
    gf_div(a, b) == 0) == (a == 0)) by (bit_vector)
        requires
            a < 16,
            1 <= b < 16,
    ;
}

/// The low nibble of a byte is a field element.
pub proof fn lemma_nibble(x: u8)
    ensures
        x & 0x0F < 16,
        (x & 0x0F) & 0x0F == x & 0x0F,
        x < 16 ==> x & 0x0F == x,
{
    assert(x & 0x0F < 16 && (x & 0x0F) & 0x0F == x & 0x0F && (x < 16 ==> x & 0x0F == x))
        by (bit_vector);
}

proof fn lemma_wt(j: int, i: int)
    requires
        0 <= j < 4,
        0 <= i < 8,
    ensures
        wt(j, i) != 0,
        wt(j, i) < 16,
        gf_pow(gf_exp((j + 1) as u8), i + 1) == wt(j, i),
        gf_log(wt(j, i)) == ((j + 1) * (i + 1)) % 15,
{
    lemma_exp_facts((j + 1) as u8);
    let k: u8 = (((j + 1) * (i + 1)) % 15) as u8;
    lemma_exp_facts(k);
}

// ---------------------------------------------------------------------------
// GF(16) executable arithmetic
// ---------------------------------------------------------------------------

/// Galois field GF(16) arithmetic with the primitive polynomial x^4 + x + 1.
pub struct GF16;

impl GF16 {
    /// Powers of the generator alpha = 2, repeated for fast modular indexing.
    pub const EXP: [u8; 32] = [
        1, 2, 4, 8, 3, 6, 12, 11, 5, 10, 7, 14, 15, 13, 9,
        1,
        2, 4, 8, 3, 6, 12, 11, 5, 10, 7, 14, 15, 13, 9, 1, 2,
    ];

    /// Discrete logarithms of the nonzero elements (entry 0 unused).
    pub const LOG: [u8; 16] = [0, 0, 1, 4, 2, 8, 5, 10, 3, 14, 9, 7, 6, 13, 11, 12];

    /// Field addition: XOR of the low nibbles.
    pub fn add(a: u8, b: u8) -> (r: u8)
        ensures
            r == (a ^ b) & 0x0F,
    {
        (a ^ b) & 0x0F
    }

    /// Field multiplication of the low nibbles.
    pub fn mul(a: u8, b: u8) -> (r: u8)
        ensures
            r == gf_mul(a & 0x0F, b & 0x0F),
            r < 16,
    {
        proof {
            lemma_nibble(a);
            lemma_nibble(b);
        }
        let a: u8 = a & 0x0F;
        let b: u8 = b & 0x0F;
        proof {
            lemma_mul_small(a, b);
        }
        if a == 0 || b == 0 {
            0
        } else {
            proof {
                lemma_tables_literal();
                lemma_table_mul(a, b);
                lemma_log_facts(a);
                lemma_log_facts(b);
            }
            let log_sum: usize = (Self::LOG[a as usize] as usize) + (Self::LOG[b as usize] as usize);
            Self::EXP[log_sum % 15]
        }
    }

    /// Field division of the low nibbles; dividing by zero is an error.
    #[verifier::rlimit(40)]
    pub fn div(a: u8, b: u8) -> (r: Result<u8, &'static str>)
        ensures
            (b & 0x0F == 0) <==> r is Err,
            r matches Ok(q) ==> q == gf_div(a & 0x0F, b & 0x0F) && q < 16,
    {
        proof {
            lemma_nibble(a);
            lemma_nibble(b);
        }
        let a: u8 = a & 0x0F;
        let b: u8 = b & 0x0F;
        if b == 0 {
            return Err("Division by zero in GF(16)");
        }
        if a == 0 {
            return Ok(0);
        }
        proof {
            lemma_tables_literal();
            lemma_log_facts(a);
            lemma_log_facts(b);
        }
        let log_diff: i32 = (Self::LOG[a as usize] as i32) - (Self::LOG[b as usize] as i32) + 15;
        let k: usize = (log_diff as usize) % 15;
        proof {
            lemma_exp_facts(k as u8);
            lemma_div_mul(a, b);
        }
        Ok(Self::EXP[k])
    }

    /// Exponentiation of the low nibble; zero stays zero for every exponent.
    pub fn power(a: u8, exp: usize) -> (r: u8)
        requires
            a & 0x0F == 0 || gf_log(a & 0x0F) * exp <= usize::MAX,
        ensures
            r == gf_pow(a & 0x0F, exp as int),
            r < 16,
    {
        proof {
            lemma_nibble(a);
        }
        let a: u8 = a & 0x0F;
        if a == 0 {
            return 0;
        }
        proof {
            lemma_tables_literal();
            lemma_log_facts(a);
        }
        let log_a: usize = Self::LOG[a as usize] as usize;
        let k: usize = (log_a * exp) % 15;
        proof {
            lemma_exp_facts(k as u8);
        }
        Self::EXP[k]
    }
}


// ---------------------------------------------------------------------------
// 8D semantic state
// ---------------------------------------------------------------------------

/// 8D semantic state coordinate vector: eight 4-bit axes.
#[derive(Debug, Clone, Copy, PartialEq, Eq, Hash)]
pub struct Concept8DState {
    pub domain: u8,
    pub subdomain: u8,
    pub operation: u8,
    pub modality: u8,
    pub strength: u8,
    pub polarity: u8,
    pub temporal_horizon: u8,
    pub epistemic_certainty: u8,
}

/// The state whose axes are the low nibbles of the given eight symbols.
pub open spec fn state_of(s: Seq<u8>) -> Concept8DState {
    Concept8DState {
        domain: s[0] & 0x0F,
        subdomain: s[1] & 0x0F,
        operation: s[2] & 0x0F,
        modality: s[3] & 0x0F,
        strength: s[4] & 0x0F,
        polarity: s[5] & 0x0F,
        temporal_horizon: s[6] & 0x0F,
        epistemic_certainty: s[7] & 0x0F,
    }
}

impl Concept8DState {
    /// The eight axes in order.
    pub open spec fn symbols(self) -> Seq<u8> {
        seq![
            self.domain,
            self.subdomain,
            self.operation,
            self.modality,
            self.strength,
            self.polarity,
            self.temporal_horizon,
            self.epistemic_certainty,
        ]
    }

    /// Every axis is a 4-bit value.
    pub open spec fn wf(self) -> bool {
        forall|i: int| 0 <= i < 8 ==> #[trigger] self.symbols()[i] < 16
    }

    /// Builds a state from the low nibbles of the eight arguments.
    pub fn new(d: u8, sd: u8, op: u8, m: u8, s: u8, p: u8, t: u8, e: u8) -> (r: Self)
        ensures
            r == state_of(seq![d, sd, op, m, s, p, t, e]),
            r.wf(),
    {
        proof {
            lemma_nibble(d);
            lemma_nibble(sd);
            lemma_nibble(op);
            lemma_nibble(m);
            lemma_nibble(s);
            lemma_nibble(p);
            lemma_nibble(t);
            lemma_nibble(e);
        }
        let r = Self {
            domain: d & 0x0F,
            subdomain: sd & 0x0F,
            operation: op & 0x0F,
            modality: m & 0x0F,
            strength: s & 0x0F,
            polarity: p & 0x0F,
            temporal_horizon: t & 0x0F,
            epistemic_certainty: e & 0x0F,
        };
        assert(r.symbols() =~= seq![d & 0x0F, sd & 0x0F, op & 0x0F, m & 0x0F, s & 0x0F, p & 0x0F, t & 0x0F, e & 0x0F]);
        r
    }

    /// The eight axes as symbols.
    pub fn to_symbols(&self) -> (r: [u8; 8])
        ensures
            r@ == self.symbols(),
    {
        let r = [
            self.domain,
            self.subdomain,
            self.operation,
            self.modality,
            self.strength,
            self.polarity,
            self.temporal_horizon,
            self.epistemic_certainty,
        ];
        assert(r@ =~= self.symbols());
        r
    }

    /// Builds a state from the low nibbles of eight symbols.
    pub fn from_symbols(syms: &[u8; 8]) -> (r: Self)
        ensures
            r == state_of(syms@),
            r.wf(),
    {
        Self::new(syms[0], syms[1], syms[2], syms[3], syms[4], syms[5], syms[6], syms[7])
    }

    /// Packs the axes into a 32-bit word, domain in the top nibble.
    pub fn to_dword(&self) -> (r: u32)
        ensures
            r == ((self.domain as u32) << 28u32) | ((self.subdomain as u32) << 24u32) | ((
            self.operation as u32) << 20u32) | ((self.modality as u32) << 16u32) | ((
            self.strength as u32) << 12u32) | ((self.polarity as u32) << 8u32) | ((
            self.temporal_horizon as u32) << 4u32) | (self.epistemic_certainty as u32 & 0x0F),
    {
        ((self.domain as u32) << 28) | ((self.subdomain as u32) << 24) | ((self.operation as u32)
            << 20) | ((self.modality as u32) << 16) | ((self.strength as u32) << 12) | ((
        self.polarity as u32) << 8) | ((self.temporal_horizon as u32) << 4) | (
        self.epistemic_certainty as u32 & 0x0F)
    }

    /// Unpacks the eight nibbles of a 32-bit word, domain from the top nibble.
    pub fn from_dword(val: u32) -> (r: Self)
        ensures
            r.domain == (val >> 28u32) & 0x0F,
            r.subdomain == (val >> 24u32) & 0x0F,
            r.operation == (val >> 20u32) & 0x0F,
            r.modality == (val >> 16u32) & 0x0F,
            r.strength == (val >> 12u32) & 0x0F,
            r.polarity == (val >> 8u32) & 0x0F,
            r.temporal_horizon == (val >> 4u32) & 0x0F,
            r.epistemic_certainty == val & 0x0F,
            r.wf(),
    {
        let x0: u8 = ((val >> 28) & 0x0F) as u8;
        let x1: u8 = ((val >> 24) & 0x0F) as u8;
        let x2: u8 = ((val >> 20) & 0x0F) as u8;
        let x3: u8 = ((val >> 16) & 0x0F) as u8;
        let x4: u8 = ((val >> 12) & 0x0F) as u8;
        let x5: u8 = ((val >> 8) & 0x0F) as u8;
        let x6: u8 = ((val >> 4) & 0x0F) as u8;
        let x7: u8 = (val & 0x0F) as u8;
        proof {
            lemma_u32_nibbles(val);
            lemma_nibble(x0);
            lemma_nibble(x1);
            lemma_nibble(x2);
            lemma_nibble(x3);
            lemma_nibble(x4);
            lemma_nibble(x5);
            lemma_nibble(x6);
            lemma_nibble(x7);
        }
        Self::new(x0, x1, x2, x3, x4, x5, x6, x7)
    }
}

proof fn lemma_u32_nibbles(v: u32)
    ensures
        forall|k: u32| k < 32 ==> #[trigger] ((v >> k) & 0x0F) < 16,
        (v & 0x0F) < 16,
{
    assert(forall|k: u32| k < 32 ==> #[trigger] ((v >> k) & 0x0F) < 16) by (bit_vector);
    assert((v & 0x0F) < 16) by (bit_vector);
}

/// Packing a well-formed state into a word and back gives the same state.
pub proof fn lemma_dword_round_trip(c: Concept8DState)
    requires
        c.wf(),
    ensures
        ({
            let w = ((c.domain as u32) << 28u32) | ((c.subdomain as u32) << 24u32) | ((
            c.operation as u32) << 20u32) | ((c.modality as u32) << 16u32) | ((
            c.strength as u32) << 12u32) | ((c.polarity as u32) << 8u32) | ((
            c.temporal_horizon as u32) << 4u32) | (c.epistemic_certainty as u32 & 0x0F);
            &&& (w >> 28u32) & 0x0F == c.domain as u32
            &&& (w >> 24u32) & 0x0F == c.subdomain as u32
            &&& (w >> 20u32) & 0x0F == c.operation as u32
            &&& (w >> 16u32) & 0x0F == c.modality as u32
            &&& (w >> 12u32) & 0x0F == c.strength as u32
            &&& (w >> 8u32) & 0x0F == c.polarity as u32
            &&& (w >> 4u32) & 0x0F == c.temporal_horizon as u32
            &&& w & 0x0F == c.epistemic_certainty as u32
        }),
{
    assert(c.symbols()[0] < 16 && c.symbols()[1] < 16 && c.symbols()[2] < 16 && c.symbols()[3]
        < 16 && c.symbols()[4] < 16 && c.symbols()[5] < 16 && c.symbols()[6] < 16
        && c.symbols()[7] < 16);
    let a = c.domain as u32;
    let b = c.subdomain as u32;
    let cc = c.operation as u32;
    let d = c.modality as u32;
    let e = c.strength as u32;
    let f = c.polarity as u32;
    let g = c.temporal_horizon as u32;
    let h = c.epistemic_certainty as u32;
    assert({
        let w = (a << 28u32) | (b << 24u32) | (cc << 20u32) | (d << 16u32) | (e << 12u32) | (f
            << 8u32) | (g << 4u32) | (h & 0x0F);
        &&& (w >> 28u32) & 0x0F == a
        &&& (w >> 24u32) & 0x0F == b
        &&& (w >> 20u32) & 0x0F == cc
        &&& (w >> 16u32) & 0x0F == d
        &&& (w >> 12u32) & 0x0F == e
        &&& (w >> 8u32) & 0x0F == f
        &&& (w >> 4u32) & 0x0F == g
        &&& w & 0x0F == h
    }) by (bit_vector)
        requires
            a < 16,
            b < 16,
            cc < 16,
            d < 16,
            e < 16,
            f < 16,
            g < 16,
            h < 16,
    ;
}


// ---------------------------------------------------------------------------
// Parity model
// ---------------------------------------------------------------------------

/// XOR of the first `n` weighted data symbols for parity row `j`.
pub open spec fn parity_upto(d: Seq<u8>, j: int, n: int) -> u8
    decreases n,
{
    if n <= 0 {
        0
    } else {
        parity_upto(d, j, n - 1) ^ gf_mul(d[n - 1] & 0x0F, wt(j, n - 1))
    }
}

/// Parity symbol `j` of eight data symbols.
pub open spec fn parity_of(d: Seq<u8>, j: int) -> u8 {
    parity_upto(d, j, 8)
}

/// The four parity symbols of eight data symbols.
pub open spec fn parity_seq(d: Seq<u8>) -> Seq<u8> {
    seq![parity_of(d, 0), parity_of(d, 1), parity_of(d, 2), parity_of(d, 3)]
}

/// Syndrome `j`: expected parity XOR recomputed parity, as a nibble.
pub open spec fn syndrome_of(d: Seq<u8>, p: Seq<u8>, j: int) -> u8 {
    (p[j] ^ parity_of(d, j)) & 0x0F
}

/// The four syndromes.
pub open spec fn syndrome_seq(d: Seq<u8>, p: Seq<u8>) -> Seq<u8> {
    seq![syndrome_of(d, p, 0), syndrome_of(d, p, 1), syndrome_of(d, p, 2), syndrome_of(d, p, 3)]
}

/// Error value that syndrome `j` implies for a single drift on axis `t`.
pub open spec fn quotient(s: Seq<u8>, j: int, t: int) -> u8 {
    gf_div(s[j], wt(j, t))
}

/// The syndromes are explained by a single nonzero drift on axis `t`.
#[verifier::opaque]
pub open spec fn single_fits(s: Seq<u8>, t: int) -> bool {
    &&& quotient(s, 0, t) == quotient(s, 1, t)
    &&& quotient(s, 0, t) == quotient(s, 2, t)
    &&& quotient(s, 0, t) == quotient(s, 3, t)
    &&& quotient(s, 0, t) != 0
}

/// First axis at or after `t` whose single drift explains the syndromes.
pub open spec fn first_single_from(s: Seq<u8>, t: int) -> Option<int>
    decreases 8 - t,
{
    if t >= 8 {
        None
    } else if single_fits(s, t) {
        Some(t)
    } else {
        first_single_from(s, t + 1)
    }
}

/// Errors on axes `i1` and `i2` solved from the first two syndromes (Cramer's
/// rule), kept only when they also reproduce the last two syndromes.
#[verifier::opaque]
pub open spec fn pair_solution(s: Seq<u8>, i1: int, i2: int) -> Option<(u8, u8)> {
    let a11 = wt(0, i1);
    let a12 = wt(0, i2);
    let a21 = wt(1, i1);
    let a22 = wt(1, i2);
    let det = gf_mul(a11, a22) ^ gf_mul(a12, a21);
    if det == 0 {
        None
    } else {
        let e1 = gf_div(gf_mul(a22, s[0]) ^ gf_mul(a12, s[1]), det);
        let e2 = gf_div(gf_mul(a11, s[1]) ^ gf_mul(a21, s[0]), det);
        if (gf_mul(wt(2, i1), e1) ^ gf_mul(wt(2, i2), e2)) == s[2] && (gf_mul(wt(3, i1), e1)
            ^ gf_mul(wt(3, i2), e2)) == s[3] {
            Some((e1, e2))
        } else {
            None
        }
    }
}

/// First axis pair, in lexicographic order from `(i1, i2)`, that explains the syndromes.
pub open spec fn first_pair_from(s: Seq<u8>, i1: int, i2: int) -> Option<(int, int, u8, u8)>
    decreases 8 - i1, 9 - i2,
{
    if i1 >= 8 || i2 < 0 {
        None
    } else if i2 >= 8 {
        first_pair_from(s, i1 + 1, i1 + 2)
    } else {
        match pair_solution(s, i1, i2) {
            Some((e1, e2)) => Some((i1, i2, e1, e2)),
            None => first_pair_from(s, i1, i2 + 1),
        }
    }
}

/// Bit `i` is set exactly for the nonzero syndromes among the first `n`.
pub open spec fn mask_upto(s: Seq<u8>, n: int) -> u8
    decreases n,
{
    if n <= 0 {
        0
    } else {
        mask_upto(s, n - 1) | (if s[n - 1] != 0 { 1u8 << ((n - 1) as u8) } else { 0u8 })
    }
}

/// Abstract outcome of syndrome analysis.
pub enum SyndromeView {
    Exact,
    Repaired { axes: Seq<usize>, state: Concept8DState },
    Divergent { syndrome: Seq<u8>, mask: u8 },
}

/// What analysis of received data symbols `d` against expected parity `p` yields.
pub open spec fn repair_outcome(d: Seq<u8>, p: Seq<u8>) -> SyndromeView {
    let s = syndrome_seq(d, p);
    if s[0] == 0 && s[1] == 0 && s[2] == 0 && s[3] == 0 {
        SyndromeView::Exact
    } else {
        match first_single_from(s, 0) {
            Some(t) => SyndromeView::Repaired {
                axes: seq![t as usize],
                state: state_of(d.update(t, (d[t] ^ quotient(s, 0, t)) & 0x0F)),
            },
            None => match first_pair_from(s, 0, 1) {
                Some((i1, i2, e1, e2)) => SyndromeView::Repaired {
                    axes: seq![i1 as usize, i2 as usize],
                    state: state_of(
                        d.update(i1, (d[i1] ^ e1) & 0x0F).update(i2, (d[i2] ^ e2) & 0x0F),
                    ),
                },
                None => SyndromeView::Divergent { syndrome: s, mask: mask_upto(s, 4) },
            },
        }
    }
}

proof fn lemma_parity_small(d: Seq<u8>, j: int, n: int)
    requires
        0 <= j < 4,
        n <= 8,
    ensures
        parity_upto(d, j, n) < 16,
    decreases n,
{
    if n > 0 {
        lemma_parity_small(d, j, n - 1);
        lemma_nibble(d[n - 1]);
        lemma_wt(j, n - 1);
        lemma_mul_small(d[n - 1] & 0x0F, wt(j, n - 1));
        lemma_xor(parity_upto(d, j, n - 1), gf_mul(d[n - 1] & 0x0F, wt(j, n - 1)), 0);
    }
}

/// Computes parity row `j` of the data symbols by the executable field operations.
fn parity_row(d: &[u8; 8], j: usize) -> (sum: u8)
    requires
        j < 4,
    ensures
        sum == parity_of(d@, j as int),
        sum < 16,
{
    proof {
        lemma_tables_literal();
        lemma_exp_facts((j + 1) as u8);
    }
    let mut sum: u8 = 0;
    let root: u8 = GF16::EXP[j + 1];
    let mut i: usize = 0;
    while i < 8
        invariant
            i <= 8,
            j < 4,
            root == gf_exp((j + 1) as u8),
            sum == parity_upto(d@, j as int, i as int),
            sum < 16,
        decreases 8 - i,
    {
        proof {
            lemma_exp_facts((j + 1) as u8);
            lemma_nibble(root);
            lemma_wt(j as int, i as int);
        }
        let weight: u8 = GF16::power(root, i + 1);
        proof {
            lemma_nibble(weight);
        }
        let term: u8 = GF16::mul(d[i], weight);
        proof {
            lemma_xor(sum, term, 0);
        }
        sum = GF16::add(sum, term);
        i += 1;
    }
    sum
}

// ---------------------------------------------------------------------------
// Codewords and repair
// ---------------------------------------------------------------------------

/// A semantic codeword: eight data nibbles plus four parity nibbles.
#[derive(Debug, Clone, Copy, PartialEq, Eq)]
pub struct SemanticCodeword8D {
    pub state: Concept8DState,
    pub parity: [u8; 4],
}

impl SemanticCodeword8D {
    /// The twelve symbols: data followed by parity.
    pub open spec fn symbols(self) -> Seq<u8> {
        self.state.symbols() + self.parity@
    }

    /// Computes the four parity symbols of a state.
    pub fn encode(state: Concept8DState) -> (r: Self)
        ensures
            r.state == state,
            r.parity@ == parity_seq(state.symbols()),
    {
        let d = state.to_symbols();
        let mut p: [u8; 4] = [0u8; 4];
        let mut j: usize = 0;
        while j < 4
            invariant
                j <= 4,
                d@ == state.symbols(),
                p@.len() == 4,
                forall|jj: int| 0 <= jj < j ==> p@[jj] == parity_of(d@, jj),
            decreases 4 - j,
        {
            let sum: u8 = parity_row(&d, j);
            p[j] = sum;
            j += 1;
        }
        assert(p@ =~= parity_seq(state.symbols()));
        Self { state, parity: p }
    }

    /// Packs the twelve nibbles into six bytes, high nibble first.
    pub fn to_bytes(&self) -> (r: [u8; 6])
        ensures
            forall|i: int|
                0 <= i < 6 ==> #[trigger] r@[i] == (self.symbols()[2 * i] << 4u8) | (
                self.symbols()[2 * i + 1] & 0x0F),
    {
        let syms = self.to_symbols();
        let mut bytes: [u8; 6] = [0u8; 6];
        let mut i: usize = 0;
        while i < 6
            invariant
                i <= 6,
                syms@ == self.symbols(),
                bytes@.len() == 6,
                forall|k: int|
                    0 <= k < i ==> #[trigger] bytes@[k] == (syms@[2 * k] << 4u8) | (syms@[2 * k
                        + 1] & 0x0F),
            decreases 6 - i,
        {
            bytes[i] = (syms[i * 2] << 4) | (syms[i * 2 + 1] & 0x0F);
            i += 1;
        }
        bytes
    }

    /// Splits six bytes into twelve nibbles: eight data symbols then parity.
    pub fn from_bytes(bytes: &[u8; 6]) -> (r: Self)
        ensures
            r.state == state_of(nibbles(bytes@).subrange(0, 8)),
            r.parity@ == nibbles(bytes@).subrange(8, 12),
    {
        let mut syms: [u8; 12] = [0u8; 12];
        let mut i: usize = 0;
        while i < 6
            invariant
                i <= 6,
                syms@.len() == 12,
                forall|k: int| 0 <= k < 2 * i ==> #[trigger] syms@[k] == nibbles(bytes@)[k],
            decreases 6 - i,
        {
            let b: u8 = bytes[i];
            syms[i * 2] = (b >> 4) & 0x0F;
            syms[i * 2 + 1] = b & 0x0F;
            i += 1;
        }
        let data: [u8; 8] = [syms[0], syms[1], syms[2], syms[3], syms[4], syms[5], syms[6], syms[7]];
        let parity: [u8; 4] = [syms[8], syms[9], syms[10], syms[11]];
        assert(data@ =~= nibbles(bytes@).subrange(0, 8));
        assert(parity@ =~= nibbles(bytes@).subrange(8, 12));
        Self { state: Concept8DState::from_symbols(&data), parity }
    }

    /// The twelve symbols: data followed by parity.
    pub fn to_symbols(&self) -> (r: [u8; 12])
        ensures
            r@ == self.symbols(),
    {
        let d = self.state.to_symbols();
        let r = [
            d[0],
            d[1],
            d[2],
            d[3],
            d[4],
            d[5],
            d[6],
            d[7],
            self.parity[0],
            self.parity[1],
            self.parity[2],
            self.parity[3],
        ];
        assert(r@ =~= self.symbols());
        r
    }
}

/// The nibbles of a byte sequence, high nibble first.
pub open spec fn nibbles(b: Seq<u8>) -> Seq<u8> {
    Seq::new(2 * b.len(), |k: int| if k % 2 == 0 { (b[k / 2] >> 4u8) & 0x0F } else { b[k / 2] & 0x0F })
}


/// Result of semantic syndrome analysis and auto-correction.
#[derive(Debug, Clone, PartialEq, Eq)]
pub enum SemanticSyndromeResult {
    /// Meaning is intact: every syndrome is zero.
    ExactMatch,
    /// Drift on one or two axes was corrected locally.
    Corrected { drifted_axes: Vec<usize>, corrected_state: Concept8DState },
    /// Divergence beyond local correction capacity.
    UncorrectableDivergence { syndrome: [u8; 4], drifted_axes_mask: u8 },
}

impl SemanticSyndromeResult {
    /// The abstract outcome this result reports.
    pub open spec fn outcome(&self) -> SyndromeView {
        match self {
            SemanticSyndromeResult::ExactMatch => SyndromeView::Exact,
            SemanticSyndromeResult::Corrected { drifted_axes, corrected_state } => SyndromeView::Repaired {
                axes: drifted_axes@,
                state: *corrected_state,
            },
            SemanticSyndromeResult::UncorrectableDivergence { syndrome, drifted_axes_mask } => SyndromeView::Divergent {
                syndrome: syndrome@,
                mask: *drifted_axes_mask,
            },
        }
    }
}

/// Z-SPAR decoder and semantic repair engine.
pub struct ZSparEngine;

/// The four syndromes of received data against expected parity.
fn compute_syndromes(d: &[u8; 8], expected_parity: &[u8; 4]) -> (r: [u8; 4])
    ensures
        r@ == syndrome_seq(d@, expected_parity@),
        forall|jj: int| 0 <= jj < 4 ==> #[trigger] r@[jj] < 16,
{
    let mut syndromes: [u8; 4] = [0u8; 4];
    let mut j: usize = 0;
    while j < 4
        invariant
            j <= 4,
            syndromes@.len() == 4,
            forall|jj: int| 0 <= jj < j ==> #[trigger] syndromes@[jj] == syndrome_of(d@, expected_parity@, jj),
        decreases 4 - j,
    {
        let sum: u8 = parity_row(d, j);
        let syndrome: u8 = GF16::add(expected_parity[j], sum);
        syndromes[j] = syndrome;
        j += 1;
    }
    assert(syndromes@ =~= syndrome_seq(d@, expected_parity@));
    assert forall|jj: int| 0 <= jj < 4 implies #[trigger] syndromes@[jj] < 16 by {
        lemma_nibble(expected_parity@[jj] ^ parity_of(d@, jj));
    }
    syndromes
}

/// The error value when a single drift on axis `t` explains the syndromes.
fn single_axis_error(syndromes: &[u8; 4], t: usize) -> (r: Option<u8>)
    requires
        t < 8,
        forall|jj: int| 0 <= jj < 4 ==> #[trigger] syndromes@[jj] < 16,
    ensures
        r is Some <==> single_fits(syndromes@, t as int),
        r matches Some(e) ==> e == quotient(syndromes@, 0, t as int),
{
    reveal(single_fits);
    let ghost s = syndromes@;
    proof {
        lemma_pair_weights(t as int, t as int);
    }
    let mut candidate_error: Option<u8> = None;
    let mut consistent: bool = true;
    let mut j: usize = 0;
    while j < 4 && consistent
        invariant
            j <= 4,
            t < 8,
            s == syndromes@,
            forall|jj: int| 0 <= jj < 4 ==> #[trigger] s[jj] < 16,
            forall|jj: int| 0 <= jj < 4 ==> #[trigger] GF16::EXP@[jj + 1] == gf_exp((jj + 1) as u8),
            forall|jj: int| 0 <= jj < 4 ==> #[trigger] gf_exp((jj + 1) as u8) & 0x0F == gf_exp((jj + 1) as u8),
            forall|jj: int| 0 <= jj < 4 ==> gf_log(#[trigger] gf_exp((jj + 1) as u8)) == jj + 1,
            forall|jj: int|
                0 <= jj < 4 ==> #[trigger] gf_pow(gf_exp((jj + 1) as u8), t + 1) == wt(jj, t as int) && wt(jj, t as int) < 16
                    && wt(jj, t as int) & 0x0F == wt(jj, t as int),
            consistent ==> (j == 0 <==> candidate_error is None),
            consistent && j > 0 ==> candidate_error == Some(quotient(s, 0, t as int)),
            consistent ==> forall|jj: int|
                0 <= jj < j ==> #[trigger] quotient(s, jj, t as int) == quotient(s, 0, t as int),
            !consistent ==> !single_fits(s, t as int),
        decreases 4 - j,
    {
        proof {
            reveal(single_fits);
            lemma_nibble(s[j as int]);
            lemma_wt(j as int, t as int);
            lemma_exp_facts((j + 1) as u8);
            lemma_nibble(gf_exp((j + 1) as u8));
        }
        let root: u8 = GF16::EXP[j + 1];
        assert(root == gf_exp((j + 1) as u8));
        assert((j + 1) * (t + 1) <= 40) by (nonlinear_arith)
            requires
                j < 4,
                t < 8,
        ;
        let weight: u8 = GF16::power(root, t + 1);
        match GF16::div(syndromes[j], weight) {
            Ok(err) => {
                match candidate_error {
                    Some(prev_err) => {
                        if prev_err != err {
                            consistent = false;
                        }
                    },
                    None => {
                        candidate_error = Some(err);
                    },
                }
            },
            Err(_) => {
                consistent = false;
            },
        }
        j += 1;
    }
    if consistent {
        match candidate_error {
            Some(err) => {
                if err != 0 {
                    return Some(err);
                }
            },
            None => {},
        }
    }
    None
}

/// Candidate errors for a drift on axes `i1` and `i2`.
fn pair_errors(syndromes: &[u8; 4], i1: usize, i2: usize) -> (r: Option<(u8, u8)>)
    requires
        i1 < 8,
        i2 < 8,
        forall|jj: int| 0 <= jj < 4 ==> #[trigger] syndromes@[jj] < 16,
    ensures
        r == pair_solution(syndromes@, i1 as int, i2 as int),
{
    reveal(pair_solution);
    let ghost s = syndromes@;
    proof {
        lemma_tables_literal();
        lemma_pair_weights(i1 as int, i2 as int);
        lemma_nibble(s[0]);
        lemma_nibble(s[1]);
    }
    let r0: u8 = GF16::EXP[1];
    let r1: u8 = GF16::EXP[2];
    let a11: u8 = GF16::power(r0, i1 + 1);
    let a12: u8 = GF16::power(r0, i2 + 1);
    let a21: u8 = GF16::power(r1, i1 + 1);
    let a22: u8 = GF16::power(r1, i2 + 1);
    let m1: u8 = GF16::mul(a11, a22);
    let m2: u8 = GF16::mul(a12, a21);
    proof {
        lemma_xor(m1, m2, 0);
    }
    let det: u8 = GF16::add(m1, m2);
    if det == 0 {
        return None;
    }
    let n11: u8 = GF16::mul(a22, syndromes[0]);
    let n12: u8 = GF16::mul(a12, syndromes[1]);
    let n21: u8 = GF16::mul(a11, syndromes[1]);
    let n22: u8 = GF16::mul(a21, syndromes[0]);
    proof {
        lemma_xor(n11, n12, 0);
        lemma_xor(n21, n22, 0);
    }
    let num1: u8 = GF16::add(n11, n12);
    let num2: u8 = GF16::add(n21, n22);
    proof {
        lemma_nibble(num1);
        lemma_nibble(num2);
        lemma_nibble(det);
    }
    match (GF16::div(num1, det), GF16::div(num2, det)) {
        (Ok(e1), Ok(e2)) => {
            let r2: u8 = GF16::EXP[3];
            let r3: u8 = GF16::EXP[4];
            let w21: u8 = GF16::power(r2, i1 + 1);
            let w22: u8 = GF16::power(r2, i2 + 1);
            let w31: u8 = GF16::power(r3, i1 + 1);
            let w32: u8 = GF16::power(r3, i2 + 1);
            proof {
                lemma_nibble(e1);
                lemma_nibble(e2);
            }
            let c21: u8 = GF16::mul(w21, e1);
            let c22: u8 = GF16::mul(w22, e2);
            let c31: u8 = GF16::mul(w31, e1);
            let c32: u8 = GF16::mul(w32, e2);
            proof {
                lemma_xor(c21, c22, 0);
                lemma_xor(c31, c32, 0);
            }
            let check_s2: u8 = GF16::add(c21, c22);
            let check_s3: u8 = GF16::add(c31, c32);
            if check_s2 == syndromes[2] && check_s3 == syndromes[3] {
                Some((e1, e2))
            } else {
                None
            }
        },
        _ => None,
    }
}

/// Bit `i` set for each nonzero syndrome `i`.
fn syndrome_mask(syndromes: &[u8; 4]) -> (mask: u8)
    ensures
        mask == mask_upto(syndromes@, 4),
{
    let mut mask: u8 = 0;
    let mut i: usize = 0;
    while i < 4
        invariant
            i <= 4,
            mask == mask_upto(syndromes@, i as int),
        decreases 4 - i,
    {
        let ghost old_mask = mask;
        if syndromes[i] != 0 {
            mask = mask | (1u8 << (i as u8));
        } else {
            assert(old_mask | 0u8 == old_mask) by (bit_vector);
        }
        assert((i + 1 - 1) as u8 == i as u8);
        i += 1;
    }
    mask
}

impl ZSparEngine {
    /// Computes the syndromes of a received state against expected parity and
    /// repairs a drift on one axis, else on two axes, else reports divergence.
    pub fn verify_and_repair(reconstructed_state: Concept8DState, expected_parity: [u8; 4]) -> (r:
        SemanticSyndromeResult)
        ensures
            r.outcome() == repair_outcome(reconstructed_state.symbols(), expected_parity@),
    {
        let d = reconstructed_state.to_symbols();
        let syndromes = compute_syndromes(&d, &expected_parity);
        let ghost s = syndromes@;
        if syndromes[0] == 0 && syndromes[1] == 0 && syndromes[2] == 0 && syndromes[3] == 0 {
            return SemanticSyndromeResult::ExactMatch;
        }
        let mut target_axis: usize = 0;
        while target_axis < 8
            invariant
                target_axis <= 8,
                s == syndromes@,
                s == syndrome_seq(d@, expected_parity@),
                d@ == reconstructed_state.symbols(),
                !(s[0] == 0 && s[1] == 0 && s[2] == 0 && s[3] == 0),
                forall|jj: int| 0 <= jj < 4 ==> #[trigger] s[jj] < 16,
                first_single_from(s, 0) == first_single_from(s, target_axis as int),
            decreases 8 - target_axis,
        {
            match single_axis_error(&syndromes, target_axis) {
                Some(err) => {
                    let mut corrected_symbols: [u8; 8] = d;
                    corrected_symbols[target_axis] = GF16::add(corrected_symbols[target_axis], err);
                    let mut axes: Vec<usize> = Vec::new();
                    axes.push(target_axis);
                    assert(axes@ =~= seq![target_axis]);
                    assert(corrected_symbols@ =~= d@.update(
                        target_axis as int,
                        (d@[target_axis as int] ^ quotient(s, 0, target_axis as int)) & 0x0F,
                    ));
                    assert(s =~= syndrome_seq(d@, expected_parity@));
                    assert(!(s[0] == 0 && s[1] == 0 && s[2] == 0 && s[3] == 0));
                    assert(first_single_from(s, target_axis as int) == Some(target_axis as int));
                    return SemanticSyndromeResult::Corrected {
                        drifted_axes: axes,
                        corrected_state: Concept8DState::from_symbols(&corrected_symbols),
                    };
                },
                None => {},
            }
            target_axis += 1;
        }
        let mut i1: usize = 0;
        while i1 < 8
            invariant
                i1 <= 8,
                s == syndromes@,
                s == syndrome_seq(d@, expected_parity@),
                d@ == reconstructed_state.symbols(),
                !(s[0] == 0 && s[1] == 0 && s[2] == 0 && s[3] == 0),
                forall|jj: int| 0 <= jj < 4 ==> #[trigger] s[jj] < 16,
                first_single_from(s, 0) is None,
                first_pair_from(s, 0, 1) == first_pair_from(s, i1 as int, i1 + 1),
            decreases 8 - i1,
        {
            let mut i2: usize = i1 + 1;
            while i2 < 8
                invariant
                    i1 < 8,
                    i1 < i2 <= 8,
                    s == syndromes@,
                    s == syndrome_seq(d@, expected_parity@),
                    d@ == reconstructed_state.symbols(),
                    !(s[0] == 0 && s[1] == 0 && s[2] == 0 && s[3] == 0),
                    first_single_from(s, 0) is None,
                    forall|jj: int| 0 <= jj < 4 ==> #[trigger] s[jj] < 16,
                    first_pair_from(s, 0, 1) == first_pair_from(s, i1 as int, i2 as int),
                decreases 8 - i2,
            {
                match pair_errors(&syndromes, i1, i2) {
                    Some((e1, e2)) => {
                        let mut corrected_symbols: [u8; 8] = d;
                        corrected_symbols[i1] = GF16::add(corrected_symbols[i1], e1);
                        corrected_symbols[i2] = GF16::add(corrected_symbols[i2], e2);
                        let mut axes: Vec<usize> = Vec::new();
                        axes.push(i1);
                        axes.push(i2);
                        assert(axes@ =~= seq![i1, i2]);
                        assert(s =~= syndrome_seq(d@, expected_parity@));
                        assert(!(s[0] == 0 && s[1] == 0 && s[2] == 0 && s[3] == 0));
                        assert(first_pair_from(s, i1 as int, i2 as int) == Some((i1 as int, i2 as int, e1, e2)));
                        assert(corrected_symbols@ =~= d@.update(i1 as int, (d@[i1 as int] ^ e1) & 0x0F).update(
                            i2 as int,
                            (d@[i2 as int] ^ e2) & 0x0F,
                        ));
                        return SemanticSyndromeResult::Corrected {
                            drifted_axes: axes,
                            corrected_state: Concept8DState::from_symbols(&corrected_symbols),
                        };
                    },
                    None => {},
                }
                i2 += 1;
            }
            i1 += 1;
        }
        let mask: u8 = syndrome_mask(&syndromes);
        SemanticSyndromeResult::UncorrectableDivergence { syndrome: syndromes, drifted_axes_mask: mask }
    }

    /// Builds a 3-byte semantic repair chirp.
    pub fn build_repair_chirp(trajectory_id: u8, mask: u8, syndrome_tag: u8) -> (r: [u8; 3])
        ensures
            r@ == seq![trajectory_id, mask, syndrome_tag],
    {
        let r = [trajectory_id, mask, syndrome_tag];
        assert(r@ =~= seq![trajectory_id, mask, syndrome_tag]);
        r
    }
}

proof fn lemma_pair_weights(i1: int, i2: int)
    requires
        0 <= i1 < 8,
        0 <= i2 < 8,
    ensures
        GF16::EXP@[1] == gf_exp(1),
        GF16::EXP@[2] == gf_exp(2),
        GF16::EXP@[3] == gf_exp(3),
        GF16::EXP@[4] == gf_exp(4),
        gf_log(gf_exp(1)) == 1 && gf_log(gf_exp(2)) == 2 && gf_log(gf_exp(3)) == 3 && gf_log(gf_exp(4)) == 4,
        gf_exp(1) & 0x0F == gf_exp(1) && gf_exp(2) & 0x0F == gf_exp(2) && gf_exp(3) & 0x0F == gf_exp(3) && gf_exp(4) & 0x0F == gf_exp(4),
        gf_pow(gf_exp(1), i1 + 1) == wt(0, i1) && gf_pow(gf_exp(2), i1 + 1) == wt(1, i1) && gf_pow(gf_exp(3), i1 + 1) == wt(2, i1) && gf_pow(gf_exp(4), i1 + 1) == wt(3, i1),
        gf_pow(gf_exp(1), i2 + 1) == wt(0, i2) && gf_pow(gf_exp(2), i2 + 1) == wt(1, i2) && gf_pow(gf_exp(3), i2 + 1) == wt(2, i2) && gf_pow(gf_exp(4), i2 + 1) == wt(3, i2),
        forall|jj: int| 0 <= jj < 4 ==> #[trigger] GF16::EXP@[jj + 1] == gf_exp((jj + 1) as u8),
        forall|j: int| 0 <= j < 4 ==> #[trigger] gf_exp((j + 1) as u8) & 0x0F == gf_exp((j + 1) as u8),
        forall|j: int| 0 <= j < 4 ==> gf_log(#[trigger] gf_exp((j + 1) as u8)) == j + 1,
        forall|j: int|
            0 <= j < 4 ==> #[trigger] gf_pow(gf_exp((j + 1) as u8), i1 + 1) == wt(j, i1) && wt(j, i1) < 16
                && wt(j, i1) & 0x0F == wt(j, i1),
        forall|j: int|
            0 <= j < 4 ==> #[trigger] gf_pow(gf_exp((j + 1) as u8), i2 + 1) == wt(j, i2) && wt(j, i2) < 16
                && wt(j, i2) & 0x0F == wt(j, i2),
{
    lemma_tables_literal();
    lemma_exp_facts(1);
    lemma_exp_facts(2);
    lemma_exp_facts(3);
    lemma_exp_facts(4);
    lemma_nibble(gf_exp(1));
    lemma_nibble(gf_exp(2));
    lemma_nibble(gf_exp(3));
    lemma_nibble(gf_exp(4));
    assert forall|j: int| 0 <= j < 4 implies #[trigger] gf_exp((j + 1) as u8) & 0x0F == gf_exp(
        (j + 1) as u8,
    ) by {
        lemma_exp_facts((j + 1) as u8);
        lemma_nibble(gf_exp((j + 1) as u8));
    }
    assert forall|j: int| 0 <= j < 4 implies gf_log(#[trigger] gf_exp((j + 1) as u8)) == j + 1 by {
        lemma_exp_facts((j + 1) as u8);
    }
    assert forall|j: int|
        0 <= j < 4 implies #[trigger] gf_pow(gf_exp((j + 1) as u8), i1 + 1) == wt(j, i1) && wt(j, i1)
        < 16 && wt(j, i1) & 0x0F == wt(j, i1) by {
        lemma_wt(j, i1);
        lemma_nibble(wt(j, i1));
    }
    lemma_wt(0, i1);
    lemma_wt(1, i1);
    lemma_wt(2, i1);
    lemma_wt(3, i1);
    lemma_wt(0, i2);
    lemma_wt(1, i2);
    lemma_wt(2, i2);
    lemma_wt(3, i2);
    assert forall|j: int|
        0 <= j < 4 implies #[trigger] gf_pow(gf_exp((j + 1) as u8), i2 + 1) == wt(j, i2) && wt(j, i2)
        < 16 && wt(j, i2) & 0x0F == wt(j, i2) by {
        lemma_wt(j, i2);
        lemma_nibble(wt(j, i2));
    }
}


// ---------------------------------------------------------------------------
// Laws
// ---------------------------------------------------------------------------

proof fn lemma_parity_update(d: Seq<u8>, t: int, v: u8, j: int, n: int)
    requires
        d.len() == 8,
        forall|i: int| 0 <= i < 8 ==> #[trigger] d[i] < 16,
        0 <= t < 8,
        v < 16,
        0 <= j < 4,
        0 <= n <= 8,
    ensures
        parity_upto(d.update(t, v), j, n) == parity_upto(d, j, n) ^ (if t < n {
            gf_mul(v ^ d[t], wt(j, t))
        } else {
            0u8
        }),
    decreases n,
{
    let d2 = d.update(t, v);
    if n == 0 {
        assert(0u8 ^ 0u8 == 0u8) by (bit_vector);
    } else {
        lemma_parity_update(d, t, v, j, n - 1);
        lemma_parity_small(d, j, n - 1);
        lemma_wt(j, n - 1);
        lemma_wt(j, t);
        let p = parity_upto(d, j, n - 1);
        let w = wt(j, n - 1);
        let term = gf_mul(d[n - 1] & 0x0F, w);
        lemma_nibble(d[n - 1]);
        lemma_nibble(v);
        lemma_mul_small(d[n - 1], w);
        if n - 1 == t {
            let a = gf_mul(v, w);
            let b = gf_mul(d[t], w);
            lemma_mul_small(v, w);
            lemma_distrib(v, d[t], w);
            assert(d2[n - 1] == v);
            assert((p ^ 0u8) ^ a == (p ^ b) ^ (a ^ b)) by (bit_vector)
                requires
                    p < 16,
                    a < 16,
                    b < 16,
            ;
        } else {
            assert(d2[n - 1] == d[n - 1]);
            let x: u8 = if t < n - 1 {
                gf_mul(v ^ d[t], wt(j, t))
            } else {
                0u8
            };
            lemma_xor(v, d[t], 0);
            lemma_mul_small(v ^ d[t], wt(j, t));
            assert((p ^ x) ^ term == (p ^ term) ^ x) by (bit_vector)
                requires
                    p < 16,
                    x < 16,
                    term < 16,
            ;
        }
    }
}

/// A well-formed state is the state of its own symbols.
proof fn lemma_state_of_symbols(c: Concept8DState)
    requires
        c.wf(),
    ensures
        state_of(c.symbols()) == c,
{
    let d = c.symbols();
    assert(d[0] < 16 && d[1] < 16 && d[2] < 16 && d[3] < 16 && d[4] < 16 && d[5] < 16 && d[6] < 16 && d[7] < 16);
    lemma_nibble(c.domain);
    lemma_nibble(c.subdomain);
    lemma_nibble(c.operation);
    lemma_nibble(c.modality);
    lemma_nibble(c.strength);
    lemma_nibble(c.polarity);
    lemma_nibble(c.temporal_horizon);
    lemma_nibble(c.epistemic_certainty);
}

/// A received state equal to the sent one has all-zero syndromes and is
/// reported as an exact match.
pub proof fn lemma_intact_state_matches(c: Concept8DState)
    requires
        c.wf(),
    ensures
        repair_outcome(c.symbols(), parity_seq(c.symbols())) == SyndromeView::Exact,
{
    let d = c.symbols();
    let p = parity_seq(d);
    assert forall|j: int| 0 <= j < 4 implies #[trigger] syndrome_of(d, p, j) == 0 by {
        lemma_parity_small(d, j, 8);
        lemma_xor(parity_of(d, j), parity_of(d, j), 0);
    }
    let s = syndrome_seq(d, p);
    assert(s[0] == 0 && s[1] == 0 && s[2] == 0 && s[3] == 0);
}

/// Syndromes of a single drift of size `e` on axis `t`.
proof fn lemma_single_syndromes(d: Seq<u8>, t: int, v: u8)
    requires
        d.len() == 8,
        forall|i: int| 0 <= i < 8 ==> #[trigger] d[i] < 16,
        0 <= t < 8,
        v < 16,
    ensures
        forall|j: int|
            0 <= j < 4 ==> #[trigger] syndrome_of(d.update(t, v), parity_seq(d), j) == gf_mul(
                v ^ d[t],
                wt(j, t),
            ),
{
    assert forall|j: int| 0 <= j < 4 implies #[trigger] syndrome_of(
        d.update(t, v),
        parity_seq(d),
        j,
    ) == gf_mul(v ^ d[t], wt(j, t)) by {
        lemma_parity_update(d, t, v, j, 8);
        lemma_parity_small(d, j, 8);
        lemma_wt(j, t);
        lemma_xor(v, d[t], 0);
        lemma_mul_small(v ^ d[t], wt(j, t));
        let pj = parity_of(d, j);
        let m = gf_mul(v ^ d[t], wt(j, t));
        assert((pj ^ (pj ^ m)) & 0x0F == m) by (bit_vector)
            requires
                pj < 16,
                m < 16,
        ;
    }
}

/// Quotients of single-drift syndromes, in exponent form.
proof fn lemma_mod_chain(k: int, x: int, y: int)
    requires
        0 <= k < 15,
        0 <= x <= 32,
        0 <= y <= 32,
    ensures
        ((k + x % 15) % 15 + 15 - y % 15) % 15 == (k + x - y + 1200) % 15,
{
    assert(((k + x % 15) % 15 + 15 - y % 15) % 15 == (k + x - y + 1200) % 15) by (nonlinear_arith)
        requires
            0 <= k < 15,
            0 <= x <= 32,
            0 <= y <= 32,
    ;
}

proof fn lemma_single_quotient(k: u8, t: int, a: int, j: int)
    requires
        k < 15,
        0 <= t < 8,
        0 <= a < 8,
        0 <= j < 4,
    ensures
        gf_div(gf_mul(gf_exp(k), wt(j, t)), wt(j, a)) == gf_exp(
            ((k + (j + 1) * (t + 1) - (j + 1) * (a + 1) + 1200) % 15) as u8,
        ),
{
    let x = (j + 1) * (t + 1);
    let y = (j + 1) * (a + 1);
    assert(x <= 32 && y <= 32 && x >= 0 && y >= 0) by (nonlinear_arith)
        requires
            0 <= j < 4,
            0 <= t < 8,
            0 <= a < 8,
            x == (j + 1) * (t + 1),
            y == (j + 1) * (a + 1),
    ;
    let lt: u8 = (x % 15) as u8;
    let la: u8 = (y % 15) as u8;
    assert(wt(j, t) == gf_exp(lt));
    assert(wt(j, a) == gf_exp(la));
    lemma_exp_mul(k, lt);
    let kk: u8 = ((k + lt) % 15) as u8;
    lemma_exp_div(kk, la);
    lemma_mod_chain(k as int, x, y);
}

proof fn lemma_mod_distinct(k: int, t: int, a: int)
    requires
        0 <= k < 15,
        0 <= t < 8,
        0 <= a < 8,
        a != t,
    ensures
        (k + (t + 1) - (a + 1) + 1200) % 15 != (k + 2 * (t + 1) - 2 * (a + 1) + 1200) % 15,
{
    assert((k + (t + 1) - (a + 1) + 1200) % 15 != (k + 2 * (t + 1) - 2 * (a + 1) + 1200) % 15)
        by (nonlinear_arith)
        requires
            0 <= k < 15,
            0 <= t < 8,
            0 <= a < 8,
            a != t,
    ;
}

proof fn lemma_other_axis_unfit(s: Seq<u8>, e: u8, t: int, a: int)
    requires
        s.len() == 4,
        1 <= e < 16,
        0 <= t < 8,
        0 <= a < 8,
        a != t,
        s[0] == gf_mul(e, wt(0, t)),
        s[1] == gf_mul(e, wt(1, t)),
    ensures
        !single_fits(s, a),
{
    reveal(single_fits);
    lemma_log_facts(e);
    let k = gf_log(e);
    lemma_single_quotient(k, t, a, 0);
    lemma_single_quotient(k, t, a, 1);
    let x0: u8 = ((k + (t + 1) - (a + 1) + 1200) % 15) as u8;
    let x1: u8 = ((k + 2 * (t + 1) - 2 * (a + 1) + 1200) % 15) as u8;
    lemma_mod_distinct(k as int, t, a);
    if quotient(s, 0, a) == quotient(s, 1, a) {
        lemma_exp_injective(x0, x1);
    }
}

proof fn lemma_own_axis_quotient(s: Seq<u8>, e: u8, t: int, j: int)
    requires
        s.len() == 4,
        1 <= e < 16,
        0 <= t < 8,
        0 <= j < 4,
        s[j] == gf_mul(e, wt(j, t)),
    ensures
        quotient(s, j, t) == e,
{
    lemma_wt(j, t);
    lemma_div_mul(e, wt(j, t));
}

/// Syndromes of a single drift of size `e` on axis `t` fit that axis only.
proof fn lemma_single_fit_facts(s: Seq<u8>, e: u8, t: int)
    requires
        s.len() == 4,
        1 <= e < 16,
        0 <= t < 8,
        forall|j: int| 0 <= j < 4 ==> #[trigger] s[j] == gf_mul(e, wt(j, t)),
    ensures
        forall|a: int| 0 <= a < 8 && a != t ==> !#[trigger] single_fits(s, a),
        single_fits(s, t),
        quotient(s, 0, t) == e,
{
    assert forall|a: int| 0 <= a < 8 && a != t implies !#[trigger] single_fits(s, a) by {
        lemma_other_axis_unfit(s, e, t, a);
    }
    lemma_own_axis_quotient(s, e, t, 0);
    lemma_own_axis_quotient(s, e, t, 1);
    lemma_own_axis_quotient(s, e, t, 2);
    lemma_own_axis_quotient(s, e, t, 3);
    reveal(single_fits);
}

/// A drift on a single axis is repaired back to the state that was sent.
pub proof fn lemma_single_drift_repaired(c: Concept8DState, t: int, v: u8)
    requires
        c.wf(),
        0 <= t < 8,
        v < 16,
        v != c.symbols()[t],
    ensures
        repair_outcome(c.symbols().update(t, v), parity_seq(c.symbols()))
            == (SyndromeView::Repaired { axes: seq![t as usize], state: c }),
{
    let d = c.symbols();
    let d2 = d.update(t, v);
    let p = parity_seq(d);
    assert(forall|i: int| 0 <= i < 8 ==> #[trigger] d[i] < 16);
    lemma_single_syndromes(d, t, v);
    let e = v ^ d[t];
    lemma_xor(v, d[t], 0);
    let s = syndrome_seq(d2, p);
    assert forall|j: int| 0 <= j < 4 implies #[trigger] s[j] == gf_mul(e, wt(j, t)) by {}
    lemma_single_fit_facts(s, e, t);
    lemma_wt(0, t);
    lemma_mul_small(e, wt(0, t));
    assert(s[0] != 0);
    lemma_first_single(s, 0, t);
    let dt = d[t];
    assert((v ^ (v ^ dt)) & 0x0F == dt) by (bit_vector)
        requires
            v < 16,
            dt < 16,
    ;
    assert(d2.update(t, (d2[t] ^ e) & 0x0F) =~= d);
    lemma_state_of_symbols(c);
}

proof fn lemma_first_single(s: Seq<u8>, from: int, t: int)
    requires
        0 <= from <= t < 8,
        single_fits(s, t),
        forall|a: int| from <= a < t ==> !#[trigger] single_fits(s, a),
    ensures
        first_single_from(s, from) == Some(t),
    decreases t - from,
{
    if from < t {
        lemma_first_single(s, from + 1, t);
    }
}


/// Every nonzero element of GF(16) has a multiplicative inverse: `a * (1 / a) == 1`,
/// and adding an element to itself gives zero.
pub proof fn lemma_gf16_inverse(a: u8)
    requires
        1 <= a < 16,
    ensures
        gf_mul(a, gf_div(1, a)) == 1,
        gf_div(1, a) != 0,
        a ^ a == 0,
{
    lemma_div_mul(1, a);
    lemma_mul_small(gf_div(1, a), a);
    lemma_xor(a, a, 0);
}

/// Powers in GF(16) follow the recurrence `a^0 = 1`, `a^n = a * a^(n-1)` for
/// a nonzero nibble, and zero raised to any power is zero.
pub proof fn lemma_gf16_power_step(a: u8, n: int)
    requires
        a < 16,
        n >= 1,
    ensures
        a == 0 ==> gf_pow(a, n) == 0 && gf_pow(a, 0) == 0,
        a != 0 ==> gf_pow(a, 0) == 1,
        a != 0 ==> gf_pow(a, n) == gf_mul(a, gf_pow(a, n - 1)),
        gf_pow(a, n) < 16,
{
    if a != 0 {
        lemma_log_facts(a);
        let la = gf_log(a);
        let x = la * (n - 1);
        assert(x >= 0) by (nonlinear_arith)
            requires la >= 0, n >= 1, x == la * (n - 1);
        let k = x % 15;
        assert(la * n == la + x) by (nonlinear_arith)
            requires x == la * (n - 1);
        assert((la + k) % 15 == (la + x) % 15) by (nonlinear_arith)
            requires k == x % 15, x >= 0, la >= 0;
        lemma_exp_mul(la, k as u8);
        assert(gf_exp(0) == 1);
        lemma_exp_facts(((la * n) % 15) as u8);
    } else {
        lemma_exp_facts(0);
    }
}

/// GF(16) is a field on the nibbles: its product stays a nibble, is
/// commutative and associative, distributes over addition (XOR), has 1 as its
/// unit and no zero divisors, and division by a nonzero element undoes
/// multiplication.
pub proof fn lemma_gf16_field_laws(a: u8, b: u8, c: u8)
    requires
        a < 16,
        b < 16,
        c < 16,
    ensures
        gf_mul(a, b) < 16,
        gf_mul(a, b) == gf_mul(b, a),
        gf_mul(gf_mul(a, b), c) == gf_mul(a, gf_mul(b, c)),
        gf_mul(a, b ^ c) == gf_mul(a, b) ^ gf_mul(a, c),
        gf_mul(1, a) == a,
        (gf_mul(a, b) == 0) == (a == 0 || b == 0),
        b != 0 ==> gf_div(a, b) < 16 && gf_mul(gf_div(a, b), b) == a,
{
    lemma_mul_small(a, b);
    lemma_mul_small(1, a);
    lemma_mul_small(a, 1);
    lemma_mul_assoc(a, b, c);
    lemma_xor(b, c, 0);
    lemma_distrib(b, c, a);
    lemma_mul_small(b ^ c, a);
    lemma_mul_small(b, a);
    lemma_mul_small(c, a);
    if b != 0 {
        lemma_div_mul(a, b);
    }
}

// ---------------------------------------------------------------------------
// Two-axis repair
// ---------------------------------------------------------------------------

proof fn lemma_mul_assoc(a: u8, b: u8, c: u8)
    requires
        a < 16,
        b < 16,
        c < 16,
    ensures
        gf_mul(gf_mul(a, b), c) == gf_mul(a, gf_mul(b, c)),
        gf_mul(a, b) < 16,
{
    lemma_mul_small(a, b);
    lemma_mul_small(b, c);
    lemma_mul_small(gf_mul(a, b), c);
    lemma_mul_small(a, gf_mul(b, c));
    if a != 0 && b != 0 && c != 0 {
        lemma_log_facts(a);
        lemma_log_facts(b);
        lemma_log_facts(c);
        let la = gf_log(a);
        let lb = gf_log(b);
        let lc = gf_log(c);
        lemma_exp_mul(la, lb);
        lemma_exp_mul(lb, lc);
        let lab: u8 = ((la + lb) % 15) as u8;
        let lbc: u8 = ((lb + lc) % 15) as u8;
        lemma_exp_mul(lab, lc);
        lemma_exp_mul(la, lbc);
        assert((lab + lc) % 15 == (la + lbc) % 15) by (nonlinear_arith)
            requires
                lab == (la + lb) % 15,
                lbc == (lb + lc) % 15,
                la < 15,
                lb < 15,
                lc < 15,
        ;
    }
}

/// Left distributivity and the other small facts used in the elimination.
proof fn lemma_mul_facts(a: u8, b: u8, c: u8)
    requires
        a < 16,
        b < 16,
        c < 16,
    ensures
        gf_mul(c, a ^ b) == gf_mul(c, a) ^ gf_mul(c, b),
        gf_mul(a ^ b, c) == gf_mul(a, c) ^ gf_mul(b, c),
        gf_mul(a, b) == gf_mul(b, a),
        gf_mul(a, b) < 16,
        a ^ b < 16,
{
    lemma_xor(a, b, 0);
    lemma_distrib(a, b, c);
    lemma_mul_small(c, a ^ b);
    lemma_mul_small(c, a);
    lemma_mul_small(c, b);
    lemma_mul_small(a, b);
}

/// Multiplication by a nonzero element can be cancelled.
proof fn lemma_mul_cancel(x: u8, y: u8, z: u8)
    requires
        x < 16,
        y < 16,
        1 <= z < 16,
        gf_mul(x, z) == gf_mul(y, z),
    ensures
        x == y,
{
    lemma_div_mul(x, z);
    lemma_div_mul(y, z);
}

proof fn lemma_xor4(a: u8, b: u8, c: u8, d: u8)
    requires
        a < 16,
        b < 16,
        c < 16,
        d < 16,
    ensures
        (a ^ b) ^ (c ^ d) == (a ^ c) ^ (b ^ d),
{
    lemma_xor(c, d, 0);
    lemma_xor(b, d, 0);
    lemma_xor(b, c, 0);
    lemma_xor(c, b, d);
    lemma_xor(b, c, d);
    lemma_xor(a, b, c ^ d);
    lemma_xor(a, c, b ^ d);
    lemma_xor(c, b, 0);
}

/// `y` to the power `k`, by repeated multiplication.
pub open spec fn pw(y: u8, k: nat) -> u8
    decreases k,
{
    if k == 0 {
        1
    } else {
        gf_mul(pw(y, (k - 1) as nat), y)
    }
}

proof fn lemma_pw_small(y: u8, k: nat)
    requires
        y < 16,
    ensures
        pw(y, k) < 16,
        y != 0 ==> pw(y, k) != 0,
    decreases k,
{
    if k > 0 {
        lemma_pw_small(y, (k - 1) as nat);
        lemma_mul_small(pw(y, (k - 1) as nat), y);
    }
}

proof fn lemma_pw_exp(a: u8, k: nat)
    requires
        a < 15,
    ensures
        pw(gf_exp(a), k) == gf_exp(((a * k) % 15) as u8),
    decreases k,
{
    if k == 0 {
        lemma_exp_facts(0);
    } else {
        lemma_pw_exp(a, (k - 1) as nat);
        let prev: u8 = ((a * (k - 1)) % 15) as u8;
        lemma_exp_mul(prev, a);
        assert((prev + a) % 15 == (a * k) % 15) by (nonlinear_arith)
            requires
                prev == (a * (k - 1)) % 15,
                k >= 1,
                a < 15,
        ;
    }
}

/// The code node of axis `i`: alpha^(i+1).
pub open spec fn node(i: int) -> u8 {
    gf_exp((i + 1) as u8)
}

proof fn lemma_node(i: int, j: int)
    requires
        0 <= i < 8,
        0 <= j < 4,
    ensures
        node(i) != 0,
        node(i) < 16,
        wt(j, i) == pw(node(i), (j + 1) as nat),
{
    lemma_exp_facts((i + 1) as u8);
    lemma_pw_exp((i + 1) as u8, (j + 1) as nat);
    assert(((i + 1) * (j + 1)) % 15 == ((j + 1) * (i + 1)) % 15) by (nonlinear_arith);
}

proof fn lemma_nodes_distinct(a: int, b: int)
    requires
        0 <= a < 8,
        0 <= b < 8,
        a != b,
    ensures
        node(a) != node(b),
        node(a) ^ node(b) != 0,
        node(a) ^ node(b) < 16,
{
    lemma_exp_facts((a + 1) as u8);
    lemma_exp_facts((b + 1) as u8);
    if node(a) == node(b) {
        lemma_exp_injective((a + 1) as u8, (b + 1) as u8);
    }
    lemma_xor(node(a), node(b), 0);
}

/// Weighted sum of the first `n` terms `c[l] * y[l]^k`.
pub open spec fn vsum(c: Seq<u8>, y: Seq<u8>, k: nat, n: int) -> u8
    decreases n,
{
    if n <= 0 {
        0
    } else {
        vsum(c, y, k, n - 1) ^ gf_mul(c[n - 1], pw(y[n - 1], k))
    }
}

/// All entries of `s` below `n` are field elements.
pub open spec fn nibbles_upto(s: Seq<u8>, n: int) -> bool {
    n <= s.len() && forall|l: int| 0 <= l < n ==> #[trigger] s[l] < 16
}

proof fn lemma_vsum_small(c: Seq<u8>, y: Seq<u8>, k: nat, n: int)
    requires
        nibbles_upto(c, n),
        nibbles_upto(y, n),
    ensures
        vsum(c, y, k, n) < 16,
    decreases n,
{
    if n > 0 {
        lemma_vsum_small(c, y, k, n - 1);
        lemma_pw_small(y[n - 1], k);
        lemma_mul_small(c[n - 1], pw(y[n - 1], k));
        lemma_xor(vsum(c, y, k, n - 1), gf_mul(c[n - 1], pw(y[n - 1], k)), 0);
    }
}

proof fn lemma_vsum_zero(c: Seq<u8>, y: Seq<u8>, k: nat, n: int)
    requires
        nibbles_upto(y, n),
        n <= c.len(),
        forall|l: int| 0 <= l < n ==> #[trigger] c[l] == 0,
    ensures
        vsum(c, y, k, n) == 0,
    decreases n,
{
    if n > 0 {
        lemma_vsum_zero(c, y, k, n - 1);
        lemma_pw_small(y[n - 1], k);
        lemma_mul_small(c[n - 1], pw(y[n - 1], k));
        lemma_xor(0, 0, 0);
    }
}

/// Coefficients after eliminating node `z`.
pub open spec fn eliminated(c: Seq<u8>, y: Seq<u8>, z: u8) -> Seq<u8> {
    Seq::new(c.len(), |l: int| gf_mul(c[l], z ^ y[l]))
}

proof fn lemma_shift(c: Seq<u8>, y: Seq<u8>, z: u8, k: nat, n: int)
    requires
        nibbles_upto(c, n),
        nibbles_upto(y, n),
        z < 16,
        n <= y.len(),
    ensures
        gf_mul(z, vsum(c, y, k, n)) ^ vsum(c, y, k + 1, n) == vsum(eliminated(c, y, z), y, k, n),
    decreases n,
{
    let cz = eliminated(c, y, z);
    if n <= 0 {
        lemma_mul_small(z, 0);
        lemma_xor(0, 0, 0);
    } else {
        lemma_shift(c, y, z, k, n - 1);
        let l = n - 1;
        let cl = c[l];
        let yl = y[l];
        let pk = pw(yl, k);
        let a = vsum(c, y, k, n - 1);
        let b = vsum(c, y, k + 1, n - 1);
        let t1 = gf_mul(cl, pk);
        let t2 = gf_mul(cl, pw(yl, k + 1));
        lemma_vsum_small(c, y, k, n - 1);
        lemma_vsum_small(c, y, k + 1, n - 1);
        lemma_pw_small(yl, k);
        lemma_mul_small(cl, pk);
        assert(pw(yl, k + 1) == gf_mul(pk, yl));
        lemma_mul_facts(a, t1, z);
        lemma_mul_facts(z, yl, cl);
        lemma_mul_assoc(z, cl, pk);
        lemma_mul_assoc(cl, pk, yl);
        lemma_mul_assoc(cl, yl, pk);
        lemma_mul_small(pk, yl);
        lemma_mul_small(z, cl);
        lemma_mul_small(cl, yl);
        lemma_mul_small(gf_mul(cl, z), pk);
        lemma_mul_small(gf_mul(cl, yl), pk);
        lemma_mul_facts(gf_mul(cl, z), gf_mul(cl, yl), pk);
        lemma_mul_small(z, a);
        lemma_mul_small(z, t1);
        lemma_mul_small(cl, pw(yl, k + 1));
        assert(gf_mul(cl, z ^ yl) == gf_mul(cl, z) ^ gf_mul(cl, yl));
        assert(cz[l] == gf_mul(cl, z ^ yl));
        assert(gf_mul(cz[l], pk) == gf_mul(gf_mul(cl, z), pk) ^ gf_mul(gf_mul(cl, yl), pk));
        assert(gf_mul(z, t1) == gf_mul(gf_mul(cl, z), pk));
        assert(t2 == gf_mul(gf_mul(cl, yl), pk));
        let za = gf_mul(z, a);
        let zt = gf_mul(z, t1);
        lemma_xor4(za, zt, b, t2);
    }
}

proof fn lemma_pw_one(y: u8)
    requires
        y < 16,
    ensures
        pw(y, 1) == y,
{
    assert(pw(y, 0) == 1);
    assert(pw(y, 1) == gf_mul(pw(y, 0), y));
    lemma_mul_small(1, y);
    lemma_mul_small(y, 1);
}

/// Distinct nonzero nodes give an invertible Vandermonde system: if the
/// weighted power sums vanish for the powers 1 to `m`, every coefficient is 0.
proof fn lemma_vandermonde(c: Seq<u8>, y: Seq<u8>, m: int)
    requires
        1 <= m,
        nibbles_upto(c, m),
        nibbles_upto(y, m),
        forall|l: int| 0 <= l < m ==> #[trigger] y[l] != 0,
        forall|a: int, b: int| 0 <= a < m && 0 <= b < m && a != b ==> y[a] != y[b],
        forall|k: nat| 1 <= k <= m ==> #[trigger] vsum(c, y, k, m) == 0,
    ensures
        forall|l: int| 0 <= l < m ==> #[trigger] c[l] == 0,
    decreases m,
{
    let z = y[m - 1];
    lemma_pw_one(z);
    if m == 1 {
        assert(vsum(c, y, 1, 1) == 0);
        lemma_mul_small(c[0], z);
        lemma_mul_small(c[0], pw(z, 1));
        lemma_xor(0, gf_mul(c[0], z), 0);
        lemma_vsum_zero(c, y, 1, 0);
    } else {
        let cz = eliminated(c, y, z);
        assert(nibbles_upto(cz, m)) by {
            assert forall|q: int| 0 <= q < m implies #[trigger] cz[q] < 16 by {
                lemma_xor(z, y[q], 0);
                lemma_mul_small(c[q], z ^ y[q]);
            }
        }
        lemma_xor(z, z, 0);
        lemma_mul_small(c[m - 1], 0);
        assert(cz[m - 1] == 0);
        assert forall|k: nat| 1 <= k <= m - 1 implies #[trigger] vsum(cz, y, k, m - 1) == 0 by {
            lemma_shift(c, y, z, k, m);
            assert(vsum(c, y, k, m) == 0);
            assert(vsum(c, y, k + 1, m) == 0);
            lemma_mul_small(z, 0);
            lemma_xor(0, 0, 0);
            lemma_pw_small(y[m - 1], k);
            lemma_mul_small(cz[m - 1], pw(y[m - 1], k));
            lemma_vsum_small(cz, y, k, m - 1);
            lemma_xor(vsum(cz, y, k, m - 1), 0, 0);
        }
        lemma_vandermonde(cz, y, m - 1);
        assert forall|l: int| 0 <= l < m - 1 implies #[trigger] c[l] == 0 by {
            assert(cz[l] == 0);
            assert(y[l] != z);
            lemma_xor(z, y[l], 0);
            lemma_mul_small(c[l], z ^ y[l]);
        }
        lemma_vsum_zero(c, y, 1, m - 1);
        assert(vsum(c, y, 1, m) == 0);
        lemma_mul_small(c[m - 1], z);
        lemma_xor(0, gf_mul(c[m - 1], z), 0);
    }
}

/// The syndromes are those of drifts `f1` on axis `a` and `f2` on axis `b`.
pub open spec fn rows_fit(s: Seq<u8>, a: int, b: int, f1: u8, f2: u8) -> bool {
    forall|j: int| 0 <= j < 4 ==> #[trigger] s[j] == gf_mul(wt(j, a), f1) ^ gf_mul(wt(j, b), f2)
}

/// Syndromes of drifts on two axes.
#[verifier::rlimit(80)]
proof fn lemma_pair_syndromes(d: Seq<u8>, i1: int, i2: int, v1: u8, v2: u8)
    requires
        d.len() == 8,
        forall|i: int| 0 <= i < 8 ==> #[trigger] d[i] < 16,
        0 <= i1 < 8,
        0 <= i2 < 8,
        i1 != i2,
        v1 < 16,
        v2 < 16,
    ensures
        rows_fit(syndrome_seq(d.update(i1, v1).update(i2, v2), parity_seq(d)), i1, i2, v1 ^ d[i1], v2 ^ d[i2]),
{
    let d1 = d.update(i1, v1);
    let d2 = d1.update(i2, v2);
    let p = parity_seq(d);
    let e1 = v1 ^ d[i1];
    let e2 = v2 ^ d[i2];
    lemma_xor(v1, d[i1], 0);
    lemma_xor(v2, d[i2], 0);
    assert forall|i: int| 0 <= i < 8 implies #[trigger] d1[i] < 16 by {}
    assert(d1[i2] == d[i2]);
    let s = syndrome_seq(d2, p);
    assert forall|j: int| 0 <= j < 4 implies #[trigger] s[j] == gf_mul(wt(j, i1), e1) ^ gf_mul(wt(j, i2), e2) by {
        lemma_parity_update(d, i1, v1, j, 8);
        lemma_parity_update(d1, i2, v2, j, 8);
        lemma_parity_small(d, j, 8);
        lemma_wt(j, i1);
        lemma_wt(j, i2);
        lemma_mul_small(e1, wt(j, i1));
        lemma_mul_small(e2, wt(j, i2));
        let pj = parity_of(d, j);
        let a = gf_mul(e1, wt(j, i1));
        let b = gf_mul(e2, wt(j, i2));
        lemma_xor(a, b, 0);
        lemma_xor(pj, a, b);
        lemma_xor(pj, a, 0);
        lemma_xor(pj ^ a, b, 0);
        lemma_xor(pj, pj, a ^ b);
        lemma_xor(0, a ^ b, 0);
        lemma_xor(a ^ b, 0, 0);
        assert(s[j] == syndrome_of(d2, p, j));
        assert(parity_of(d2, j) == (pj ^ a) ^ b);
        assert(pj ^ ((pj ^ a) ^ b) == a ^ b);
    }
}

/// What a pair solution satisfies, read off its definition.
#[verifier::rlimit(80)]
proof fn lemma_pair_solution_facts(s: Seq<u8>, a: int, b: int)
    requires
        s.len() == 4,
        forall|j: int| 0 <= j < 4 ==> #[trigger] s[j] < 16,
        0 <= a < 8,
        0 <= b < 8,
        pair_solution(s, a, b) is Some,
    ensures
        ({
            let (f1, f2) = pair_solution(s, a, b)->0;
            let det = gf_mul(wt(0, a), wt(1, b)) ^ gf_mul(wt(0, b), wt(1, a));
            &&& 1 <= det < 16
            &&& f1 < 16 && f2 < 16
            &&& gf_mul(f1, det) == gf_mul(wt(1, b), s[0]) ^ gf_mul(wt(0, b), s[1])
            &&& gf_mul(f2, det) == gf_mul(wt(0, a), s[1]) ^ gf_mul(wt(1, a), s[0])
            &&& s[2] == gf_mul(wt(2, a), f1) ^ gf_mul(wt(2, b), f2)
            &&& s[3] == gf_mul(wt(3, a), f1) ^ gf_mul(wt(3, b), f2)
        }),
{
    reveal(pair_solution);
    let a11 = wt(0, a);
    let a12 = wt(0, b);
    let a21 = wt(1, a);
    let a22 = wt(1, b);
    lemma_wt(0, a);
    lemma_wt(0, b);
    lemma_wt(1, a);
    lemma_wt(1, b);
    lemma_mul_small(a11, a22);
    lemma_mul_small(a12, a21);
    lemma_xor(gf_mul(a11, a22), gf_mul(a12, a21), 0);
    let det = gf_mul(a11, a22) ^ gf_mul(a12, a21);
    lemma_mul_small(a22, s[0]);
    lemma_mul_small(a12, s[1]);
    lemma_mul_small(a11, s[1]);
    lemma_mul_small(a21, s[0]);
    lemma_xor(gf_mul(a22, s[0]), gf_mul(a12, s[1]), 0);
    lemma_xor(gf_mul(a11, s[1]), gf_mul(a21, s[0]), 0);
    lemma_div_mul(gf_mul(a22, s[0]) ^ gf_mul(a12, s[1]), det);
    lemma_div_mul(gf_mul(a11, s[1]) ^ gf_mul(a21, s[0]), det);
}

/// Drifts found by Cramer's rule reproduce all four syndromes.
#[verifier::rlimit(100)]
proof fn lemma_cramer_rows(s: Seq<u8>, a: int, b: int)
    requires
        s.len() == 4,
        forall|j: int| 0 <= j < 4 ==> #[trigger] s[j] < 16,
        0 <= a < 8,
        0 <= b < 8,
        pair_solution(s, a, b) is Some,
    ensures
        rows_fit(s, a, b, (pair_solution(s, a, b)->0).0, (pair_solution(s, a, b)->0).1),
{
    lemma_pair_solution_facts(s, a, b);
    let (f1, f2) = pair_solution(s, a, b)->0;
    let a11 = wt(0, a);
    let a12 = wt(0, b);
    let a21 = wt(1, a);
    let a22 = wt(1, b);
    lemma_wt(0, a);
    lemma_wt(0, b);
    lemma_wt(1, a);
    lemma_wt(1, b);
    let det = gf_mul(a11, a22) ^ gf_mul(a12, a21);
    lemma_row_identity(a11, a12, a21, a22, s[0], s[1], f1, f2, det);
    lemma_mul_small(a21, a12);
    lemma_mul_small(a22, a11);
    lemma_mul_small(a11, a22);
    lemma_mul_small(a12, a21);
    lemma_xor(gf_mul(a11, a22), gf_mul(a12, a21), 0);
    lemma_xor(gf_mul(a22, a11), gf_mul(a21, a12), 0);
    assert(det == gf_mul(a22, a11) ^ gf_mul(a21, a12));
    lemma_mul_small(a11, s[1]);
    lemma_mul_small(a21, s[0]);
    lemma_xor(gf_mul(a11, s[1]), gf_mul(a21, s[0]), 0);
    lemma_row_identity(a22, a21, a12, a11, s[1], s[0], f2, f1, det);
    lemma_mul_small(a21, f1);
    lemma_mul_small(a22, f2);
    lemma_xor(gf_mul(a22, f2), gf_mul(a21, f1), 0);
    assert(s[1] == gf_mul(a21, f1) ^ gf_mul(a22, f2));
}

/// If `f1 * det = a22 s0 + a12 s1` and `f2 * det = a11 s1 + a21 s0` with
/// `det = a11 a22 + a12 a21` nonzero, then `a11 f1 + a12 f2 = s0`.
proof fn lemma_row_identity(a11: u8, a12: u8, a21: u8, a22: u8, s0: u8, s1: u8, f1: u8, f2: u8, det: u8)
    requires
        a11 < 16,
        a12 < 16,
        a21 < 16,
        a22 < 16,
        s0 < 16,
        s1 < 16,
        f1 < 16,
        f2 < 16,
        1 <= det < 16,
        det == gf_mul(a11, a22) ^ gf_mul(a12, a21) || det == gf_mul(a22, a11) ^ gf_mul(a21, a12),
        gf_mul(f1, det) == gf_mul(a22, s0) ^ gf_mul(a12, s1),
        gf_mul(f2, det) == gf_mul(a11, s1) ^ gf_mul(a21, s0),
    ensures
        s0 == gf_mul(a11, f1) ^ gf_mul(a12, f2),
{
    let x = gf_mul(a11, f1) ^ gf_mul(a12, f2);
    lemma_mul_small(a22, s0);
    lemma_mul_small(a12, s1);
    lemma_mul_small(a11, s1);
    lemma_mul_small(a21, s0);
    lemma_mul_small(a11, f1);
    lemma_mul_small(a12, f2);
    lemma_mul_facts(gf_mul(a11, f1), gf_mul(a12, f2), det);
    lemma_mul_assoc(a11, f1, det);
    lemma_mul_assoc(a12, f2, det);
    lemma_mul_small(f1, det);
    lemma_mul_small(f2, det);
    // a11 (a22 s0 + a12 s1) + a12 (a11 s1 + a21 s0)
    lemma_mul_facts(gf_mul(a22, s0), gf_mul(a12, s1), a11);
    lemma_mul_facts(gf_mul(a11, s1), gf_mul(a21, s0), a12);
    lemma_mul_assoc(a11, a22, s0);
    lemma_mul_assoc(a11, a12, s1);
    lemma_mul_assoc(a12, a11, s1);
    lemma_mul_assoc(a12, a21, s0);
    lemma_mul_small(a11, a12);
    lemma_mul_small(a11, a22);
    lemma_mul_small(a12, a21);
    lemma_mul_small(a22, a11);
    lemma_mul_small(a21, a12);
    lemma_mul_small(a22, s0);
    lemma_mul_small(a12, s1);
    lemma_mul_small(a11, s1);
    lemma_mul_small(a21, s0);
    let p = gf_mul(gf_mul(a11, a22), s0);
    let q = gf_mul(gf_mul(a11, a12), s1);
    let r = gf_mul(gf_mul(a12, a21), s0);
    lemma_mul_small(gf_mul(a11, a22), s0);
    lemma_mul_small(gf_mul(a11, a12), s1);
    lemma_mul_small(gf_mul(a12, a21), s0);
    assert(gf_mul(a11, gf_mul(a22, s0) ^ gf_mul(a12, s1)) == p ^ q);
    assert(gf_mul(a12, gf_mul(a11, s1) ^ gf_mul(a21, s0)) == q ^ r);
    assert(gf_mul(gf_mul(a11, f1), det) == p ^ q);
    assert(gf_mul(gf_mul(a12, f2), det) == q ^ r);
    assert(gf_mul(x, det) == (p ^ q) ^ (q ^ r));
    lemma_xor(q, r, 0);
    lemma_xor(r, q, 0);
    lemma_xor(p, q, 0);
    lemma_xor4(p, q, r, q);
    lemma_xor(q, q, 0);
    lemma_xor(p, r, 0);
    lemma_xor(p ^ r, 0, 0);
    assert((p ^ q) ^ (q ^ r) == p ^ r);
    lemma_mul_facts(gf_mul(a11, a22), gf_mul(a12, a21), s0);
    lemma_mul_small(det, s0);
    lemma_mul_small(gf_mul(a22, a11), s0);
    assert(gf_mul(x, det) == gf_mul(det, s0));
    lemma_mul_small(s0, det);
    lemma_xor(gf_mul(a11, f1), gf_mul(a12, f2), 0);
    lemma_mul_cancel(x, s0, det);
}

/// Row `j` of a drift pair in power-sum form.
proof fn lemma_row_terms(s: Seq<u8>, a: int, b: int, f1: u8, f2: u8, j: int)
    requires
        rows_fit(s, a, b, f1, f2),
        0 <= a < 8,
        0 <= b < 8,
        0 <= j < 4,
        f1 < 16,
        f2 < 16,
    ensures
        s[j] == gf_mul(f1, pw(node(a), (j + 1) as nat)) ^ gf_mul(f2, pw(node(b), (j + 1) as nat)),
        s[j] < 16,
        gf_mul(f1, pw(node(a), (j + 1) as nat)) < 16,
        gf_mul(f2, pw(node(b), (j + 1) as nat)) < 16,
{
    lemma_node(a, j);
    lemma_node(b, j);
    lemma_wt(j, a);
    lemma_wt(j, b);
    lemma_mul_small(wt(j, a), f1);
    lemma_mul_small(wt(j, b), f2);
    lemma_xor(gf_mul(f1, wt(j, a)), gf_mul(f2, wt(j, b)), 0);
}

/// Syndromes that single drift `q` on axis `t` explains, in power-sum form.
#[verifier::rlimit(100)]
proof fn lemma_single_terms(s: Seq<u8>, t: int, j: int)
    requires
        s.len() == 4,
        forall|i: int| 0 <= i < 4 ==> #[trigger] s[i] < 16,
        single_fits(s, t),
        0 <= t < 8,
        0 <= j < 4,
    ensures
        s[j] == gf_mul(quotient(s, 0, t), pw(node(t), (j + 1) as nat)),
        1 <= quotient(s, 0, t) < 16,
{
    reveal(single_fits);
    lemma_node(t, j);
    lemma_wt(j, t);
    lemma_wt(0, t);
    lemma_div_mul(s[j], wt(j, t));
    lemma_div_mul(s[0], wt(0, t));
    assert(quotient(s, j, t) == quotient(s, 0, t));
}

proof fn lemma_xor_cancel3(a: u8, b: u8, c: u8)
    requires
        a < 16,
        b < 16,
        c < 16,
        a ^ b == c,
    ensures
        (a ^ b) ^ c == 0,
{
    lemma_xor(a, b, 0);
    lemma_xor(c, c, 0);
}

proof fn lemma_xor_cancel4(a: u8, b: u8, c: u8, d: u8)
    requires
        a < 16,
        b < 16,
        c < 16,
        d < 16,
        a ^ b == c ^ d,
    ensures
        ((a ^ b) ^ c) ^ d == 0,
{
    lemma_xor(a, b, 0);
    lemma_xor(c, d, 0);
    lemma_xor(a ^ b, c, d);
    lemma_xor(c ^ d, c ^ d, 0);
}

proof fn lemma_vsum2(c: Seq<u8>, y: Seq<u8>, k: nat)
    requires
        c.len() == 2,
        y.len() == 2,
    ensures
        vsum(c, y, k, 2) == (0 ^ gf_mul(c[0], pw(y[0], k))) ^ gf_mul(c[1], pw(y[1], k)),
{
    reveal_with_fuel(vsum, 3);
}

proof fn lemma_vsum3(c: Seq<u8>, y: Seq<u8>, k: nat)
    requires
        c.len() == 3,
        y.len() == 3,
    ensures
        vsum(c, y, k, 3) == ((0 ^ gf_mul(c[0], pw(y[0], k))) ^ gf_mul(c[1], pw(y[1], k))) ^ gf_mul(c[2], pw(y[2], k)),
{
    reveal_with_fuel(vsum, 4);
}

proof fn lemma_vsum4(c: Seq<u8>, y: Seq<u8>, k: nat)
    requires
        c.len() == 4,
        y.len() == 4,
    ensures
        vsum(c, y, k, 4) == (((0 ^ gf_mul(c[0], pw(y[0], k))) ^ gf_mul(c[1], pw(y[1], k))) ^ gf_mul(c[2], pw(y[2], k)))
            ^ gf_mul(c[3], pw(y[3], k)),
{
    reveal_with_fuel(vsum, 5);
}

/// Three distinct nonzero nodes: a two-term sum never equals a third single term
/// on the first three powers unless the first coefficient vanishes.
proof fn lemma_far_core(e1: u8, e2: u8, q: u8, x1: u8, x2: u8, x3: u8, sv: Seq<u8>)
    requires
        e1 < 16 && e2 < 16 && q < 16,
        1 <= x1 < 16 && 1 <= x2 < 16 && 1 <= x3 < 16,
        x1 != x2 && x1 != x3 && x2 != x3,
        sv.len() == 3,
        forall|k: nat| 1 <= k <= 3 ==> #[trigger] sv[k - 1] == gf_mul(e1, pw(x1, k)) ^ gf_mul(e2, pw(x2, k)),
        forall|k: nat| 1 <= k <= 3 ==> #[trigger] sv[k - 1] == gf_mul(q, pw(x3, k)),
    ensures
        e1 == 0,
{
    let c = seq![e1, e2, q];
    let y = seq![x1, x2, x3];
    assert(c[0] == e1 && c[1] == e2 && c[2] == q);
    assert(y[0] == x1 && y[1] == x2 && y[2] == x3);
    assert forall|k: nat| 1 <= k <= 3 implies #[trigger] vsum(c, y, k, 3) == 0 by {
        lemma_vsum3(c, y, k);
        assert(c[0] == e1 && c[1] == e2 && c[2] == q);
        assert(y[0] == x1 && y[1] == x2 && y[2] == x3);
        lemma_pw_small(x1, k);
        lemma_pw_small(x2, k);
        lemma_pw_small(x3, k);
        let t1 = gf_mul(e1, pw(x1, k));
        let t2 = gf_mul(e2, pw(x2, k));
        let t3 = gf_mul(q, pw(x3, k));
        lemma_mul_small(e1, pw(x1, k));
        lemma_mul_small(e2, pw(x2, k));
        lemma_mul_small(q, pw(x3, k));
        assert(sv[k - 1] == t1 ^ t2);
        assert(sv[k - 1] == t3);
        lemma_xor(t1, 0, 0);
        lemma_xor_cancel3(t1, t2, t3);
    }
    lemma_vandermonde(c, y, 3);
    assert(c[0] == 0);
}

/// Two distinct nonzero nodes: if a drift on the first node is moved by `q`, a
/// nonzero drift on the second cannot be absorbed.
proof fn lemma_near_core(es: u8, eo: u8, q: u8, xs: u8, xo: u8, sv: Seq<u8>)
    requires
        es < 16 && eo < 16 && q < 16,
        1 <= xs < 16 && 1 <= xo < 16,
        xs != xo,
        sv.len() == 2,
        forall|k: nat| 1 <= k <= 2 ==> #[trigger] sv[k - 1] == gf_mul(es, pw(xs, k)) ^ gf_mul(eo, pw(xo, k)),
        forall|k: nat| 1 <= k <= 2 ==> #[trigger] sv[k - 1] == gf_mul(q, pw(xs, k)),
    ensures
        eo == 0,
{
    lemma_xor(es, q, 0);
    let c = seq![es ^ q, eo];
    let y = seq![xs, xo];
    assert forall|k: nat| 1 <= k <= 2 implies #[trigger] vsum(c, y, k, 2) == 0 by {
        lemma_vsum2(c, y, k);
        lemma_pw_small(xs, k);
        lemma_pw_small(xo, k);
        let ps = pw(xs, k);
        let a1 = gf_mul(es, ps);
        let a2 = gf_mul(q, ps);
        let a3 = gf_mul(eo, pw(xo, k));
        lemma_mul_small(es, ps);
        lemma_mul_small(q, ps);
        lemma_mul_small(eo, pw(xo, k));
        lemma_mul_facts(es, q, ps);
        assert(gf_mul(es ^ q, ps) == a1 ^ a2);
        assert(sv[k - 1] == a1 ^ a3);
        assert(sv[k - 1] == a2);
        lemma_xor(a1, a2, 0);
        lemma_xor(0, a1 ^ a2, 0);
        lemma_xor(a1, a2, a3);
        lemma_xor(a2, a3, 0);
        lemma_xor(a1, a3, a2);
        lemma_xor(a1, a3, 0);
        lemma_xor(a1 ^ a3, a1 ^ a3, 0);
    }
    lemma_vandermonde(c, y, 2);
    assert(c[1] == 0);
}

/// Syndromes of two nonzero drifts are not explained by any single drift.
proof fn lemma_no_single(s: Seq<u8>, i1: int, i2: int, e1: u8, e2: u8, t: int)
    requires
        s.len() == 4,
        forall|i: int| 0 <= i < 4 ==> #[trigger] s[i] < 16,
        rows_fit(s, i1, i2, e1, e2),
        0 <= i1 < i2 < 8,
        1 <= e1 < 16,
        1 <= e2 < 16,
        0 <= t < 8,
    ensures
        !single_fits(s, t),
{
    if single_fits(s, t) {
        let q = quotient(s, 0, t);
        lemma_single_terms(s, t, 0);
        lemma_node(i1, 0);
        lemma_node(i2, 0);
        lemma_node(t, 0);
        assert forall|k: nat| 1 <= k <= 3 implies #[trigger] s[k - 1] == gf_mul(e1, pw(node(i1), k)) ^ gf_mul(
            e2,
            pw(node(i2), k),
        ) && s[k - 1] == gf_mul(q, pw(node(t), k)) by {
            lemma_row_terms(s, i1, i2, e1, e2, k - 1);
            lemma_single_terms(s, t, k - 1);
        }
        if t != i1 && t != i2 {
            lemma_nodes_distinct(i1, i2);
            lemma_nodes_distinct(i1, t);
            lemma_nodes_distinct(i2, t);
            let sv = s.subrange(0, 3);
            lemma_far_core(e1, e2, q, node(i1), node(i2), node(t), sv);
        } else if t == i1 {
            lemma_nodes_distinct(i1, i2);
            let sv = s.subrange(0, 2);
            lemma_near_core(e1, e2, q, node(i1), node(i2), sv);
        } else {
            lemma_nodes_distinct(i1, i2);
            let sv = s.subrange(0, 2);
            assert forall|k: nat| 1 <= k <= 2 implies #[trigger] sv[k - 1] == gf_mul(e2, pw(node(i2), k)) ^ gf_mul(
                e1,
                pw(node(i1), k),
            ) by {
                lemma_pw_small(node(i1), k);
                lemma_pw_small(node(i2), k);
                lemma_mul_small(e1, pw(node(i1), k));
                lemma_mul_small(e2, pw(node(i2), k));
                lemma_xor(gf_mul(e1, pw(node(i1), k)), gf_mul(e2, pw(node(i2), k)), 0);
            }
            lemma_near_core(e2, e1, q, node(i2), node(i1), sv);
        }
    }
}

proof fn lemma_core4(e1: u8, e2: u8, f1: u8, f2: u8, x1: u8, x2: u8, x3: u8, x4: u8, sv: Seq<u8>)
    requires
        e1 < 16 && e2 < 16 && f1 < 16 && f2 < 16,
        1 <= x1 < 16 && 1 <= x2 < 16 && 1 <= x3 < 16 && 1 <= x4 < 16,
        x1 != x2 && x1 != x3 && x1 != x4 && x2 != x3 && x2 != x4 && x3 != x4,
        sv.len() == 4,
        forall|k: nat| 1 <= k <= 4 ==> #[trigger] sv[k - 1] == gf_mul(e1, pw(x1, k)) ^ gf_mul(e2, pw(x2, k)),
        forall|k: nat| 1 <= k <= 4 ==> #[trigger] sv[k - 1] == gf_mul(f1, pw(x3, k)) ^ gf_mul(f2, pw(x4, k)),
    ensures
        e1 == 0,
{
    let c = seq![e1, e2, f1, f2];
    let y = seq![x1, x2, x3, x4];
    assert(c[0] == e1 && c[1] == e2 && c[2] == f1 && c[3] == f2);
    assert(y[0] == x1 && y[1] == x2 && y[2] == x3 && y[3] == x4);
    assert forall|k: nat| 1 <= k <= 4 implies #[trigger] vsum(c, y, k, 4) == 0 by {
        lemma_vsum4(c, y, k);
        assert(c[0] == e1 && c[1] == e2 && c[2] == f1 && c[3] == f2);
        assert(y[0] == x1 && y[1] == x2 && y[2] == x3 && y[3] == x4);
        lemma_pw_small(x1, k);
        lemma_pw_small(x2, k);
        lemma_pw_small(x3, k);
        lemma_pw_small(x4, k);
        let t1 = gf_mul(e1, pw(x1, k));
        let t2 = gf_mul(e2, pw(x2, k));
        let t3 = gf_mul(f1, pw(x3, k));
        let t4 = gf_mul(f2, pw(x4, k));
        lemma_mul_small(e1, pw(x1, k));
        lemma_mul_small(e2, pw(x2, k));
        lemma_mul_small(f1, pw(x3, k));
        lemma_mul_small(f2, pw(x4, k));
        assert(sv[k - 1] == t1 ^ t2);
        assert(sv[k - 1] == t3 ^ t4);
        lemma_xor(t1, 0, 0);
        lemma_xor_cancel4(t1, t2, t3, t4);
    }
    lemma_vandermonde(c, y, 4);
    assert(c[0] == 0);
}

proof fn lemma_core3(es: u8, fs: u8, eo: u8, ff: u8, xs: u8, xo: u8, xf: u8, sv: Seq<u8>)
    requires
        es < 16 && fs < 16 && eo < 16 && ff < 16,
        1 <= xs < 16 && 1 <= xo < 16 && 1 <= xf < 16,
        xs != xo && xs != xf && xo != xf,
        sv.len() == 3,
        forall|k: nat| 1 <= k <= 3 ==> #[trigger] sv[k - 1] == gf_mul(es, pw(xs, k)) ^ gf_mul(eo, pw(xo, k)),
        forall|k: nat| 1 <= k <= 3 ==> #[trigger] sv[k - 1] == gf_mul(fs, pw(xs, k)) ^ gf_mul(ff, pw(xf, k)),
    ensures
        eo == 0,
{
    lemma_xor(es, fs, 0);
    let c = seq![es ^ fs, eo, ff];
    let y = seq![xs, xo, xf];
    assert(c[0] == es ^ fs && c[1] == eo && c[2] == ff);
    assert(y[0] == xs && y[1] == xo && y[2] == xf);
    assert forall|k: nat| 1 <= k <= 3 implies #[trigger] vsum(c, y, k, 3) == 0 by {
        lemma_vsum3(c, y, k);
        assert(c[0] == es ^ fs && c[1] == eo && c[2] == ff);
        assert(y[0] == xs && y[1] == xo && y[2] == xf);
        lemma_pw_small(xs, k);
        lemma_pw_small(xo, k);
        lemma_pw_small(xf, k);
        let ps = pw(xs, k);
        let a = gf_mul(es, ps);
        let b = gf_mul(fs, ps);
        let t2 = gf_mul(eo, pw(xo, k));
        let t3 = gf_mul(ff, pw(xf, k));
        lemma_mul_small(es, ps);
        lemma_mul_small(fs, ps);
        lemma_mul_small(eo, pw(xo, k));
        lemma_mul_small(ff, pw(xf, k));
        lemma_mul_facts(es, fs, ps);
        assert(gf_mul(es ^ fs, ps) == a ^ b);
        assert(sv[k - 1] == a ^ t2);
        assert(sv[k - 1] == b ^ t3);
        lemma_xor(a, b, 0);
        lemma_xor(a ^ b, 0, 0);
        lemma_xor4(a, b, t2, t3);
        lemma_xor(a, t2, 0);
        lemma_xor(b, t3, 0);
        lemma_xor(a ^ b, t2, t3);
        lemma_xor(t2, t3, 0);
        assert((a ^ b) ^ (t2 ^ t3) == (a ^ t2) ^ (b ^ t3));
        lemma_xor(a ^ t2, a ^ t2, 0);
        assert(((a ^ b) ^ t2) ^ t3 == 0);
    }
    lemma_vandermonde(c, y, 3);
    assert(c[1] == 0);
}

proof fn lemma_core2(e1: u8, e2: u8, f1: u8, f2: u8, x1: u8, x2: u8, sv: Seq<u8>)
    requires
        e1 < 16 && e2 < 16 && f1 < 16 && f2 < 16,
        1 <= x1 < 16 && 1 <= x2 < 16,
        x1 != x2,
        sv.len() == 2,
        forall|k: nat| 1 <= k <= 2 ==> #[trigger] sv[k - 1] == gf_mul(e1, pw(x1, k)) ^ gf_mul(e2, pw(x2, k)),
        forall|k: nat| 1 <= k <= 2 ==> #[trigger] sv[k - 1] == gf_mul(f1, pw(x1, k)) ^ gf_mul(f2, pw(x2, k)),
    ensures
        e1 == f1,
        e2 == f2,
{
    lemma_xor(e1, f1, 0);
    lemma_xor(e2, f2, 0);
    let c = seq![e1 ^ f1, e2 ^ f2];
    let y = seq![x1, x2];
    assert(c[0] == e1 ^ f1 && c[1] == e2 ^ f2);
    assert(y[0] == x1 && y[1] == x2);
    assert forall|k: nat| 1 <= k <= 2 implies #[trigger] vsum(c, y, k, 2) == 0 by {
        lemma_vsum2(c, y, k);
        assert(c[0] == e1 ^ f1 && c[1] == e2 ^ f2);
        assert(y[0] == x1 && y[1] == x2);
        lemma_pw_small(x1, k);
        lemma_pw_small(x2, k);
        let p1 = pw(x1, k);
        let p2 = pw(x2, k);
        let a = gf_mul(e1, p1);
        let b = gf_mul(f1, p1);
        let c2 = gf_mul(e2, p2);
        let d = gf_mul(f2, p2);
        lemma_mul_small(e1, p1);
        lemma_mul_small(f1, p1);
        lemma_mul_small(e2, p2);
        lemma_mul_small(f2, p2);
        lemma_mul_facts(e1, f1, p1);
        lemma_mul_facts(e2, f2, p2);
        assert(sv[k - 1] == a ^ c2);
        assert(sv[k - 1] == b ^ d);
        lemma_xor(a, b, 0);
        lemma_xor(c2, d, 0);
        lemma_xor(a ^ b, 0, 0);
        lemma_xor4(a, b, c2, d);
        lemma_xor(a, c2, 0);
        lemma_xor(a ^ c2, a ^ c2, 0);
    }
    lemma_vandermonde(c, y, 2);
    assert(c[0] == 0 && c[1] == 0);
    lemma_xor(e1, f1, 0);
    lemma_xor(e2, f2, 0);
}

/// Row `k - 1` of a drift pair, with its two terms in either order.
proof fn lemma_row_k(s: Seq<u8>, a: int, b: int, f1: u8, f2: u8, k: nat)
    requires
        rows_fit(s, a, b, f1, f2),
        0 <= a < 8,
        0 <= b < 8,
        1 <= k <= 4,
        f1 < 16,
        f2 < 16,
    ensures
        s[k - 1] == gf_mul(f1, pw(node(a), k)) ^ gf_mul(f2, pw(node(b), k)),
        s[k - 1] == gf_mul(f2, pw(node(b), k)) ^ gf_mul(f1, pw(node(a), k)),
{
    lemma_row_terms(s, a, b, f1, f2, k - 1);
    lemma_xor(gf_mul(f1, pw(node(a), k)), gf_mul(f2, pw(node(b), k)), 0);
}

/// Two drift pairs with the same syndromes are the same pair with the same
/// drifts, when the first pair's drifts are nonzero.
#[verifier::rlimit(80)]
proof fn lemma_pair_forced(s: Seq<u8>, i1: int, i2: int, e1: u8, e2: u8, a: int, b: int, f1: u8, f2: u8)
    requires
        s.len() == 4,
        rows_fit(s, i1, i2, e1, e2),
        rows_fit(s, a, b, f1, f2),
        0 <= i1 < i2 < 8,
        0 <= a < b < 8,
        1 <= e1 < 16,
        1 <= e2 < 16,
        f1 < 16,
        f2 < 16,
    ensures
        a == i1 && b == i2 && f1 == e1 && f2 == e2,
{
    lemma_node(i1, 0);
    lemma_node(i2, 0);
    lemma_node(a, 0);
    lemma_node(b, 0);
    lemma_nodes_distinct(i1, i2);
    lemma_nodes_distinct(a, b);
    assert forall|k: nat| 1 <= k <= 4 implies #[trigger] s[k - 1] == gf_mul(e1, pw(node(i1), k)) ^ gf_mul(
        e2,
        pw(node(i2), k),
    ) && s[k - 1] == gf_mul(e2, pw(node(i2), k)) ^ gf_mul(e1, pw(node(i1), k)) && s[k - 1] == gf_mul(
        f1,
        pw(node(a), k),
    ) ^ gf_mul(f2, pw(node(b), k)) && s[k - 1] == gf_mul(f2, pw(node(b), k)) ^ gf_mul(f1, pw(node(a), k)) by {
        lemma_row_k(s, i1, i2, e1, e2, k);
        lemma_row_k(s, a, b, f1, f2, k);
    }
    if a == i1 && b == i2 {
        lemma_core2(e1, e2, f1, f2, node(i1), node(i2), s.subrange(0, 2));
    } else if a != i1 && a != i2 && b != i1 && b != i2 {
        lemma_nodes_distinct(i1, a);
        lemma_nodes_distinct(i1, b);
        lemma_nodes_distinct(i2, a);
        lemma_nodes_distinct(i2, b);
        lemma_core4(e1, e2, f1, f2, node(i1), node(i2), node(a), node(b), s.subrange(0, 4));
    } else if a == i1 {
        lemma_nodes_distinct(i2, b);
        lemma_nodes_distinct(i1, b);
        lemma_core3(e1, f1, e2, f2, node(i1), node(i2), node(b), s.subrange(0, 3));
    } else if a == i2 {
        lemma_nodes_distinct(i1, b);
        lemma_nodes_distinct(i2, b);
        lemma_core3(e2, f1, e1, f2, node(i2), node(i1), node(b), s.subrange(0, 3));
    } else if b == i1 {
        lemma_nodes_distinct(i2, a);
        lemma_nodes_distinct(i1, a);
        lemma_core3(e1, f2, e2, f1, node(i1), node(i2), node(a), s.subrange(0, 3));
    } else {
        assert(b == i2);
        lemma_nodes_distinct(i1, a);
        lemma_nodes_distinct(i2, a);
        lemma_core3(e2, f2, e1, f1, node(i2), node(i1), node(a), s.subrange(0, 3));
    }
}

/// Determinant of the first two rows for axes `a` and `b`.
pub open spec fn pair_det(a: int, b: int) -> u8 {
    gf_mul(wt(0, a), wt(1, b)) ^ gf_mul(wt(0, b), wt(1, a))
}

#[verifier::rlimit(80)]
proof fn lemma_pair_det(a: int, b: int)
    requires
        0 <= a < b < 8,
    ensures
        1 <= pair_det(a, b) < 16,
{
    let x1 = node(a);
    let x2 = node(b);
    lemma_node(a, 0);
    lemma_node(a, 1);
    lemma_node(b, 0);
    lemma_node(b, 1);
    lemma_pw_one(x1);
    lemma_pw_one(x2);
    assert(pw(x1, 2) == gf_mul(pw(x1, 1), x1));
    assert(pw(x2, 2) == gf_mul(pw(x2, 1), x2));
    lemma_nodes_distinct(a, b);
    lemma_mul_small(x1, x2);
    lemma_mul_small(x1, x1);
    lemma_mul_small(x2, x2);
    lemma_mul_small(x1, gf_mul(x2, x2));
    lemma_mul_small(x2, gf_mul(x1, x1));
    lemma_mul_assoc(x1, x2, x2);
    lemma_mul_assoc(x2, x1, x1);
    lemma_mul_small(x2, x1);
    let m12 = gf_mul(x1, x2);
    lemma_mul_small(m12, x2);
    lemma_mul_small(m12, x1);
    let p = gf_mul(x1, gf_mul(x2, x2));
    let q = gf_mul(x2, gf_mul(x1, x1));
    lemma_xor(p, q, 0);
    if pair_det(a, b) == 0 {
        assert(p == q);
        assert(gf_mul(m12, x2) == gf_mul(m12, x1));
        lemma_mul_small(x2, m12);
        lemma_mul_small(x1, m12);
        lemma_mul_cancel(x2, x1, m12);
    }
}

/// The drifts that Cramer's rule computes fit the first two rows.
#[verifier::rlimit(100)]
proof fn lemma_cramer_fit(s: Seq<u8>, i1: int, i2: int, g1: u8, g2: u8)
    requires
        s.len() == 4,
        forall|j: int| 0 <= j < 4 ==> #[trigger] s[j] < 16,
        0 <= i1 < i2 < 8,
        g1 == gf_div(gf_mul(wt(1, i2), s[0]) ^ gf_mul(wt(0, i2), s[1]), pair_det(i1, i2)),
        g2 == gf_div(gf_mul(wt(0, i1), s[1]) ^ gf_mul(wt(1, i1), s[0]), pair_det(i1, i2)),
    ensures
        g1 < 16 && g2 < 16,
        s[0] == gf_mul(wt(0, i1), g1) ^ gf_mul(wt(0, i2), g2),
        s[1] == gf_mul(wt(1, i1), g1) ^ gf_mul(wt(1, i2), g2),
{
    let a11 = wt(0, i1);
    let a12 = wt(0, i2);
    let a21 = wt(1, i1);
    let a22 = wt(1, i2);
    lemma_wt(0, i1);
    lemma_wt(0, i2);
    lemma_wt(1, i1);
    lemma_wt(1, i2);
    lemma_pair_det(i1, i2);
    let det = pair_det(i1, i2);
    let s0 = s[0];
    let s1 = s[1];
    lemma_mul_small(a22, s0);
    lemma_mul_small(a12, s1);
    lemma_mul_small(a11, s1);
    lemma_mul_small(a21, s0);
    let n1 = gf_mul(a22, s0) ^ gf_mul(a12, s1);
    let n2 = gf_mul(a11, s1) ^ gf_mul(a21, s0);
    lemma_xor(gf_mul(a22, s0), gf_mul(a12, s1), 0);
    lemma_xor(gf_mul(a11, s1), gf_mul(a21, s0), 0);
    lemma_div_mul(n1, det);
    lemma_div_mul(n2, det);
    lemma_row_identity(a11, a12, a21, a22, s0, s1, g1, g2, det);
    lemma_mul_small(a21, a12);
    lemma_mul_small(a22, a11);
    lemma_mul_small(a11, a22);
    lemma_mul_small(a12, a21);
    lemma_xor(gf_mul(a11, a22), gf_mul(a12, a21), 0);
    lemma_xor(gf_mul(a22, a11), gf_mul(a21, a12), 0);
    lemma_row_identity(a22, a21, a12, a11, s1, s0, g2, g1, det);
    lemma_mul_small(a21, g1);
    lemma_mul_small(a22, g2);
    lemma_xor(gf_mul(a22, g2), gf_mul(a21, g1), 0);
}

/// Cramer's rule recovers a drift pair from the first two syndromes.
#[verifier::rlimit(100)]
proof fn lemma_cramer_solution(s: Seq<u8>, i1: int, i2: int, e1: u8, e2: u8)
    requires
        s.len() == 4,
        rows_fit(s, i1, i2, e1, e2),
        0 <= i1 < i2 < 8,
        e1 < 16,
        e2 < 16,
    ensures
        gf_div(gf_mul(wt(1, i2), s[0]) ^ gf_mul(wt(0, i2), s[1]), pair_det(i1, i2)) == e1,
        gf_div(gf_mul(wt(0, i1), s[1]) ^ gf_mul(wt(1, i1), s[0]), pair_det(i1, i2)) == e2,
{
    let g1 = gf_div(gf_mul(wt(1, i2), s[0]) ^ gf_mul(wt(0, i2), s[1]), pair_det(i1, i2));
    let g2 = gf_div(gf_mul(wt(0, i1), s[1]) ^ gf_mul(wt(1, i1), s[0]), pair_det(i1, i2));
    assert forall|j: int| 0 <= j < 4 implies #[trigger] s[j] < 16 by {
        lemma_row_terms(s, i1, i2, e1, e2, j);
    }
    lemma_cramer_fit(s, i1, i2, g1, g2);
    lemma_node(i1, 0);
    lemma_node(i2, 0);
    lemma_nodes_distinct(i1, i2);
    let sv = s.subrange(0, 2);
    assert forall|k: nat| 1 <= k <= 2 implies #[trigger] sv[k - 1] == gf_mul(e1, pw(node(i1), k)) ^ gf_mul(
        e2,
        pw(node(i2), k),
    ) && sv[k - 1] == gf_mul(g1, pw(node(i1), k)) ^ gf_mul(g2, pw(node(i2), k)) by {
        lemma_row_terms(s, i1, i2, e1, e2, k - 1);
        lemma_mul_small(wt(k - 1, i1), g1);
        lemma_mul_small(wt(k - 1, i2), g2);
        lemma_node(i1, k - 1);
        lemma_node(i2, k - 1);
    }
    lemma_core2(e1, e2, g1, g2, node(i1), node(i2), sv);
}

/// The true drift pair is found by its own pair solution.
#[verifier::rlimit(80)]
proof fn lemma_true_pair(s: Seq<u8>, i1: int, i2: int, e1: u8, e2: u8)
    requires
        s.len() == 4,
        rows_fit(s, i1, i2, e1, e2),
        0 <= i1 < i2 < 8,
        e1 < 16,
        e2 < 16,
    ensures
        pair_solution(s, i1, i2) == Some((e1, e2)),
{
    lemma_pair_det(i1, i2);
    lemma_cramer_solution(s, i1, i2, e1, e2);
    assert(s[2] == gf_mul(wt(2, i1), e1) ^ gf_mul(wt(2, i2), e2));
    assert(s[3] == gf_mul(wt(3, i1), e1) ^ gf_mul(wt(3, i2), e2));
    reveal(pair_solution);
}

proof fn lemma_no_first_single(s: Seq<u8>, i1: int, i2: int, e1: u8, e2: u8, from: int)
    requires
        s.len() == 4,
        forall|i: int| 0 <= i < 4 ==> #[trigger] s[i] < 16,
        rows_fit(s, i1, i2, e1, e2),
        0 <= i1 < i2 < 8,
        1 <= e1 < 16,
        1 <= e2 < 16,
        0 <= from <= 8,
    ensures
        first_single_from(s, from) is None,
    decreases 8 - from,
{
    if from < 8 {
        lemma_no_single(s, i1, i2, e1, e2, from);
        lemma_no_first_single(s, i1, i2, e1, e2, from + 1);
    }
}

#[verifier::rlimit(80)]
proof fn lemma_first_pair(s: Seq<u8>, i1: int, i2: int, e1: u8, e2: u8, p: int, q: int)
    requires
        s.len() == 4,
        forall|i: int| 0 <= i < 4 ==> #[trigger] s[i] < 16,
        rows_fit(s, i1, i2, e1, e2),
        0 <= i1 < i2 < 8,
        1 <= e1 < 16,
        1 <= e2 < 16,
        0 <= p < q <= 8,
        p < i1 || (p == i1 && q <= i2),
    ensures
        first_pair_from(s, p, q) == Some((i1, i2, e1, e2)),
    decreases 8 - p, 9 - q,
{
    if q >= 8 {
        lemma_first_pair(s, i1, i2, e1, e2, p + 1, p + 2);
    } else if p == i1 && q == i2 {
        lemma_true_pair(s, i1, i2, e1, e2);
    } else {
        if pair_solution(s, p, q) is Some {
            lemma_pair_solution_facts(s, p, q);
            lemma_cramer_rows(s, p, q);
            let (f1, f2) = pair_solution(s, p, q)->0;
            lemma_pair_forced(s, i1, i2, e1, e2, p, q, f1, f2);
        }
        lemma_first_pair(s, i1, i2, e1, e2, p, q + 1);
    }
}

/// A drift on any two axes is repaired back to the state that was sent.
#[verifier::rlimit(100)]
#[verifier::spinoff_prover]
pub proof fn lemma_two_axis_drift_repaired(c: Concept8DState, i1: int, i2: int, v1: u8, v2: u8)
    requires
        c.wf(),
        0 <= i1 < i2 < 8,
        v1 < 16,
        v2 < 16,
        v1 != c.symbols()[i1],
        v2 != c.symbols()[i2],
    ensures
        repair_outcome(c.symbols().update(i1, v1).update(i2, v2), parity_seq(c.symbols()))
            == (SyndromeView::Repaired { axes: seq![i1 as usize, i2 as usize], state: c }),
{
    let d = c.symbols();
    assert(forall|i: int| 0 <= i < 8 ==> #[trigger] d[i] < 16);
    let d2 = d.update(i1, v1).update(i2, v2);
    let p = parity_seq(d);
    let s = syndrome_seq(d2, p);
    let e1 = v1 ^ d[i1];
    let e2 = v2 ^ d[i2];
    lemma_xor(v1, d[i1], 0);
    lemma_xor(v2, d[i2], 0);
    lemma_pair_syndromes(d, i1, i2, v1, v2);
    assert forall|j: int| 0 <= j < 4 implies #[trigger] s[j] < 16 by {
        lemma_row_terms(s, i1, i2, e1, e2, j);
    }
    if s[0] == 0 && s[1] == 0 && s[2] == 0 && s[3] == 0 {
        assert forall|j: int| 0 <= j < 4 implies #[trigger] s[j] == gf_mul(wt(j, i1), 0u8) ^ gf_mul(wt(j, i2), 0u8) by {
            lemma_wt(j, i1);
            lemma_wt(j, i2);
            lemma_mul_small(wt(j, i1), 0);
            lemma_mul_small(wt(j, i2), 0);
            lemma_xor(0, 0, 0);
        }
        lemma_pair_forced(s, i1, i2, e1, e2, i1, i2, 0, 0);
    }
    lemma_no_first_single(s, i1, i2, e1, e2, 0);
    lemma_first_pair(s, i1, i2, e1, e2, 0, 1);
    let di1 = d[i1];
    let di2 = d[i2];
    lemma_xor(v1, e1, 0);
    lemma_xor(v2, e2, 0);
    lemma_xor(v1, di1, di1);
    lemma_xor(v2, di2, di2);
    assert(v1 ^ e1 == di1) by {
        lemma_xor(v1, di1, 0);
        lemma_xor(di1, v1, v1);
        lemma_xor(v1, v1, di1);
    }
    assert(v2 ^ e2 == di2) by {
        lemma_xor(v2, di2, 0);
        lemma_xor(di2, v2, v2);
        lemma_xor(v2, v2, di2);
    }
    let r = d2.update(i1, (d2[i1] ^ e1) & 0x0F);
    assert(d2[i1] == v1);
    assert(r[i2] == v2);
    assert(r.update(i2, (r[i2] ^ e2) & 0x0F) =~= d);
    lemma_state_of_symbols(c);
}

// ---------------------------------------------------------------------------
// Semantic invariant guard
// ---------------------------------------------------------------------------

/// One FNV-1a step over a byte.
pub open spec fn fnv1a_step(h: u32, b: u8) -> u32 {
    (((h ^ (b as u32)) as nat * 16777619nat) % 4294967296nat) as u32
}

/// 32-bit FNV-1a hash of a byte sequence.
pub open spec fn fnv1a(bytes: Seq<u8>) -> u32
    decreases bytes.len(),
{
    if bytes.len() == 0 {
        0x811c9dc5u32
    } else {
        fnv1a_step(fnv1a(bytes.drop_last()), bytes.last())
    }
}

/// Keyed entries as text keys and values.
pub open spec fn entries_view<V>(e: Seq<(String, V)>) -> Seq<(Seq<char>, V)> {
    e.map_values(|p: (String, V)| (p.0@, p.1))
}

/// Value of the first entry with key `k`, if any.
pub open spec fn lookup<V>(entries: Seq<(Seq<char>, V)>, k: Seq<char>) -> Option<V>
    decreases entries.len(),
{
    if entries.len() == 0 {
        None
    } else if entries[0].0 == k {
        Some(entries[0].1)
    } else {
        lookup(entries.drop_first(), k)
    }
}

/// Entries after setting key `k` to `v`: the first entry with that key is
/// replaced, or a new entry is appended.
pub open spec fn assign<V>(entries: Seq<(Seq<char>, V)>, k: Seq<char>, v: V) -> Seq<(Seq<char>, V)>
    decreases entries.len(),
{
    if entries.len() == 0 {
        seq![(k, v)]
    } else if entries[0].0 == k {
        entries.update(0, (k, v))
    } else {
        seq![entries[0]] + assign(entries.drop_first(), k, v)
    }
}

/// Every entry of `a` is found with the same value in `b`.
pub open spec fn entries_kept<V>(a: Seq<(Seq<char>, V)>, b: Seq<(Seq<char>, V)>) -> bool {
    forall|i: int| 0 <= i < a.len() ==> lookup(b, #[trigger] a[i].0) == Some(a[i].1)
}

/// Semantic invariant guard protecting critical entities, numbers and negation.
#[derive(Debug, Clone, Default)]
pub struct SemanticInvariantGuard {
    entity_hashes: Vec<(String, u32)>,
    critical_numerical_values: Vec<(String, i64)>,
    negation_bit: bool,
}

/// No key occurs twice.
pub open spec fn keys_unique<V>(e: Seq<(Seq<char>, V)>) -> bool {
    forall|i: int, j: int| 0 <= i < j < e.len() ==> #[trigger] e[i].0 != #[trigger] e[j].0
}

/// Some entry has key `k`.
pub open spec fn has_key<V>(e: Seq<(Seq<char>, V)>, k: Seq<char>) -> bool {
    exists|j: int| 0 <= j < e.len() && #[trigger] e[j].0 == k
}

proof fn lemma_assign_keys<V>(e: Seq<(Seq<char>, V)>, k: Seq<char>, v: V)
    ensures
        forall|i: int| 0 <= i < assign(e, k, v).len() ==> (#[trigger] assign(e, k, v)[i]).0 == k || has_key(e, assign(e, k, v)[i].0),
        keys_unique(e) ==> keys_unique(assign(e, k, v)),
    decreases e.len(),
{
    let a = assign(e, k, v);
    if e.len() == 0 {
    } else if e[0].0 == k {
        assert forall|i: int| 0 <= i < a.len() implies (#[trigger] a[i]).0 == k || has_key(e, a[i].0) by {
            if i > 0 {
                assert(a[i] == e[i]);
            }
        }
    } else {
        let rest = e.drop_first();
        lemma_assign_keys(rest, k, v);
        let ar = assign(rest, k, v);
        assert(a == seq![e[0]] + ar);
        assert forall|i: int| 0 <= i < a.len() implies (#[trigger] a[i]).0 == k || has_key(e, a[i].0) by {
            if i == 0 {
                assert(e[0].0 == a[0].0);
            } else {
                assert(a[i] == ar[i - 1]);
                if ar[i - 1].0 != k {
                    let j = choose|j: int| 0 <= j < rest.len() && #[trigger] rest[j].0 == ar[i - 1].0;
                    assert(e[j + 1].0 == a[i].0);
                }
            }
        }
        if keys_unique(e) {
            assert(keys_unique(rest)) by {
                assert forall|i: int, j: int| 0 <= i < j < rest.len() implies #[trigger] rest[i].0 != #[trigger] rest[j].0 by {
                    assert(rest[i] == e[i + 1] && rest[j] == e[j + 1]);
                }
            }
            assert forall|i: int, j: int| 0 <= i < j < a.len() implies #[trigger] a[i].0 != #[trigger] a[j].0 by {
                if i == 0 {
                    assert(a[j] == ar[j - 1]);
                    if ar[j - 1].0 != k {
                        let t = choose|t: int| 0 <= t < rest.len() && #[trigger] rest[t].0 == ar[j - 1].0;
                        assert(e[t + 1].0 == rest[t].0);
                    }
                } else {
                    assert(a[i] == ar[i - 1] && a[j] == ar[j - 1]);
                }
            }
        }
    }
}

proof fn lemma_lookup_unique<V>(e: Seq<(Seq<char>, V)>, i: int)
    requires
        keys_unique(e),
        0 <= i < e.len(),
    ensures
        lookup(e, e[i].0) == Some(e[i].1),
    decreases i,
{
    if i > 0 {
        let rest = e.drop_first();
        assert(e[0].0 != e[i].0);
        assert forall|a: int, b: int| 0 <= a < b < rest.len() implies #[trigger] rest[a].0 != #[trigger] rest[b].0 by {
            assert(rest[a] == e[a + 1] && rest[b] == e[b + 1]);
        }
        assert(rest[i - 1] == e[i]);
        lemma_lookup_unique(rest, i - 1);
    }
}

fn fnv1a_bytes(bytes: &[u8]) -> (h: u32)
    ensures
        h == fnv1a(bytes@),
{
    let mut h: u32 = 0x811c9dc5u32;
    let mut i: usize = 0;
    while i < bytes.len()
        invariant
            i <= bytes.len(),
            h == fnv1a(bytes@.subrange(0, i as int)),
        decreases bytes.len() - i,
    {
        assert(bytes@.subrange(0, i + 1).drop_last() =~= bytes@.subrange(0, i as int));
        h = h ^ (bytes[i] as u32);
        h = h.wrapping_mul(0x01000193);
        i += 1;
    }
    assert(bytes@.subrange(0, bytes.len() as int) =~= bytes@);
    h
}

proof fn lemma_assign_at<V>(e: Seq<(Seq<char>, V)>, k: Seq<char>, v: V, i: int)
    requires
        0 <= i <= e.len(),
        forall|j: int| 0 <= j < i ==> #[trigger] e[j].0 != k,
        i < e.len() ==> e[i].0 == k,
    ensures
        assign(e, k, v) == if i < e.len() {
            e.update(i, (k, v))
        } else {
            e.push((k, v))
        },
    decreases i,
{
    if i > 0 {
        lemma_assign_at(e.drop_first(), k, v, i - 1);
        if i < e.len() {
            assert(seq![e[0]] + e.drop_first().update(i - 1, (k, v)) =~= e.update(i, (k, v)));
        } else {
            assert(seq![e[0]] + e.drop_first().push((k, v)) =~= e.push((k, v)));
        }
    } else if e.len() == 0 {
        assert(seq![(k, v)] =~= e.push((k, v)));
    }
}

fn assign_entry<V: Copy>(entries: &mut Vec<(String, V)>, k: String, v: V)
    ensures
        entries_view(final(entries)@) == assign(entries_view(old(entries)@), k@, v),
{
    let ghost orig = entries_view(entries@);
    let mut i: usize = 0;
    while i < entries.len()
        invariant
            i <= entries.len(),
            entries_view(entries@) == orig,
            orig == entries_view(old(entries)@),
            forall|j: int| 0 <= j < i ==> #[trigger] orig[j].0 != k@,
        decreases entries.len() - i,
    {
        if entries[i].0 == k {
            assert(orig[i as int].0 == k@);
            proof {
                lemma_assign_at(orig, k@, v, i as int);
            }
            let ghost kv = k@;
            entries.set(i, (k, v));
            assert(entries_view(entries@) =~= orig.update(i as int, (kv, v)));
            return;
        }
        assert(orig[i as int].0 == entries@[i as int].0@);
        i += 1;
    }
    proof {
        lemma_assign_at(orig, k@, v, orig.len() as int);
    }
    let ghost kv = k@;
    entries.push((k, v));
    assert(entries_view(entries@) =~= orig.push((kv, v)));
}

fn lookup_entry<V: Copy>(entries: &Vec<(String, V)>, k: &String) -> (r: Option<V>)
    ensures
        r == lookup(entries_view(entries@), k@),
{
    let ghost ev = entries_view(entries@);
    assert(ev.subrange(0, ev.len() as int) =~= ev);
    let mut i: usize = 0;
    while i < entries.len()
        invariant
            i <= entries.len(),
            ev == entries_view(entries@),
            lookup(ev, k@) == lookup(ev.subrange(i as int, ev.len() as int), k@),
        decreases entries.len() - i,
    {
        let ghost rest = ev.subrange(i as int, ev.len() as int);
        assert(rest.drop_first() =~= ev.subrange(i + 1, ev.len() as int));
        if entries[i].0 == *k {
            return Some(entries[i].1);
        }
        i += 1;
    }
    None
}

impl SemanticInvariantGuard {
    /// The protected entity hashes, keyed by entity type.
    pub closed spec fn entities(&self) -> Seq<(Seq<char>, u32)> {
        entries_view(self.entity_hashes@)
    }

    /// The protected numbers, keyed by parameter name.
    pub closed spec fn numbers(&self) -> Seq<(Seq<char>, i64)> {
        entries_view(self.critical_numerical_values@)
    }

    /// Whether the guarded statement is negated.
    pub closed spec fn negated(&self) -> bool {
        self.negation_bit
    }

    /// Each entity type and each parameter name is recorded once.
    pub open spec fn wf(&self) -> bool {
        keys_unique(self.entities()) && keys_unique(self.numbers())
    }

    /// An empty guard: no entities, no numbers, negation off.
    pub fn new() -> (r: Self)
        ensures
            r.entities().len() == 0,
            r.numbers().len() == 0,
            !r.negated(),
            r.wf(),
    {
        SemanticInvariantGuard {
            entity_hashes: Vec::new(),
            critical_numerical_values: Vec::new(),
            negation_bit: false,
        }
    }

    /// Records the FNV-1a hash of an entity value under its type.
    pub fn protect_entity(&mut self, entity_type: &str, entity_val: &str)
        ensures
            final(self).entities() == assign(old(self).entities(), entity_type@, fnv1a(entity_val.spec_bytes())),
            final(self).numbers() == old(self).numbers(),
            final(self).negated() == old(self).negated(),
            old(self).wf() ==> final(self).wf(),
    {
        let h: u32 = fnv1a_bytes(entity_val.as_bytes());
        let key: String = entity_type.to_owned();
        assign_entry(&mut self.entity_hashes, key, h);
        proof {
            lemma_assign_keys(old(self).entities(), entity_type@, fnv1a(entity_val.spec_bytes()));
        }
    }

    /// Records a critical number under its parameter name.
    pub fn protect_number(&mut self, parameter_name: &str, value: i64)
        ensures
            final(self).numbers() == assign(old(self).numbers(), parameter_name@, value),
            final(self).entities() == old(self).entities(),
            final(self).negated() == old(self).negated(),
            old(self).wf() ==> final(self).wf(),
    {
        let key: String = parameter_name.to_owned();
        assign_entry(&mut self.critical_numerical_values, key, value);
        proof {
            lemma_assign_keys(old(self).numbers(), parameter_name@, value);
        }
    }

    /// Sets the negation flag.
    pub fn set_negation(&mut self, is_negated: bool)
        ensures
            final(self).negated() == is_negated,
            final(self).entities() == old(self).entities(),
            final(self).numbers() == old(self).numbers(),
            old(self).wf() ==> final(self).wf(),
    {
        self.negation_bit = is_negated;
    }

    /// True when `other` has the same negation flag and keeps every protected
    /// number and entity hash of `self` with the same value.
    pub fn verify_invariants(&self, other: &Self) -> (r: bool)
        ensures
            r == (self.negated() == other.negated() && entries_kept(self.numbers(), other.numbers())
                && entries_kept(self.entities(), other.entities())),
    {
        if self.negation_bit != other.negation_bit {
            return false;
        }
        if !all_kept_i64(&self.critical_numerical_values, &other.critical_numerical_values) {
            return false;
        }
        all_kept_u32(&self.entity_hashes, &other.entity_hashes)
    }
}

/// A well-formed guard verifies against itself: every protected entity and
/// number is found in it with its own value.
pub proof fn lemma_guard_verifies_itself(g: SemanticInvariantGuard)
    requires
        g.wf(),
    ensures
        entries_kept(g.numbers(), g.numbers()),
        entries_kept(g.entities(), g.entities()),
{
    assert forall|i: int| 0 <= i < g.numbers().len() implies lookup(g.numbers(), #[trigger] g.numbers()[i].0)
        == Some(g.numbers()[i].1) by {
        lemma_lookup_unique(g.numbers(), i);
    }
    assert forall|i: int| 0 <= i < g.entities().len() implies lookup(g.entities(), #[trigger] g.entities()[i].0)
        == Some(g.entities()[i].1) by {
        lemma_lookup_unique(g.entities(), i);
    }
}

fn all_kept_u32(a: &Vec<(String, u32)>, b: &Vec<(String, u32)>) -> (r: bool)
    ensures
        r == entries_kept(entries_view(a@), entries_view(b@)),
{
    let ghost av = entries_view(a@);
    let ghost bv = entries_view(b@);
    let mut i: usize = 0;
    while i < a.len()
        invariant
            i <= a.len(),
            av == entries_view(a@),
            bv == entries_view(b@),
            forall|j: int| 0 <= j < i ==> lookup(bv, #[trigger] av[j].0) == Some(av[j].1),
        decreases a.len() - i,
    {
        assert(av[i as int].0 == a@[i as int].0@ && av[i as int].1 == a@[i as int].1);
        let found = lookup_entry(b, &a[i].0);
        match found {
            Some(v) => {
                if v != a[i].1 {
                    assert(lookup(bv, av[i as int].0) != Some(av[i as int].1));
                    return false;
                }
            },
            None => {
                return false;
            },
        }
        i += 1;
    }
    true
}


fn all_kept_i64(a: &Vec<(String, i64)>, b: &Vec<(String, i64)>) -> (r: bool)
    ensures
        r == entries_kept(entries_view(a@), entries_view(b@)),
{
    let ghost av = entries_view(a@);
    let ghost bv = entries_view(b@);
    let mut i: usize = 0;
    while i < a.len()
        invariant
            i <= a.len(),
            av == entries_view(a@),
            bv == entries_view(b@),
            forall|j: int| 0 <= j < i ==> lookup(bv, #[trigger] av[j].0) == Some(av[j].1),
        decreases a.len() - i,
    {
        assert(av[i as int].0 == a@[i as int].0@ && av[i as int].1 == a@[i as int].1);
        let found = lookup_entry(b, &a[i].0);
        match found {
            Some(v) => {
                if v != a[i].1 {
                    assert(lookup(bv, av[i as int].0) != Some(av[i as int].1));
                    return false;
                }
            },
            None => {
                return false;
            },
        }
        i += 1;
    }
    true
}


/// Packing a codeword of 4-bit symbols into bytes and unpacking them gives the
/// same state and parity back.
#[verifier::rlimit(60)]
pub proof fn lemma_codeword_bytes_round_trip(cw: SemanticCodeword8D, bytes: Seq<u8>)
    requires
        cw.state.wf(),
        forall|i: int| 0 <= i < 4 ==> #[trigger] cw.parity@[i] < 16,
        bytes.len() == 6,
        forall|i: int|
            0 <= i < 6 ==> #[trigger] bytes[i] == (cw.symbols()[2 * i] << 4u8) | (cw.symbols()[2 * i
                + 1] & 0x0F),
    ensures
        state_of(nibbles(bytes).subrange(0, 8)) == cw.state,
        nibbles(bytes).subrange(8, 12) == cw.parity@,
{
    let sy = cw.symbols();
    assert(forall|i: int| 0 <= i < 8 ==> #[trigger] cw.state.symbols()[i] < 16);
    assert forall|k: int| 0 <= k < 12 implies #[trigger] nibbles(bytes)[k] == sy[k] by {
        let i = k / 2;
        let hi = sy[2 * i];
        let lo = sy[2 * i + 1];
        assert(hi < 16 && lo < 16);
        assert(((hi << 4u8) | (lo & 0x0F)) >> 4u8 & 0x0F == hi && ((hi << 4u8) | (lo & 0x0F)) & 0x0F
            == lo) by (bit_vector)
            requires
                hi < 16,
                lo < 16,
        ;
    }
    assert(nibbles(bytes).subrange(0, 8) =~= cw.state.symbols());
    assert(nibbles(bytes).subrange(8, 12) =~= cw.parity@);
    lemma_state_of_symbols(cw.state);
}

// ---------------------------------------------------------------------------
// Repair, stated over the axes that differ
// ---------------------------------------------------------------------------

/// The axes among the first `n` on which `a` and `b` differ, ascending.
pub open spec fn drift_axes(a: Seq<u8>, b: Seq<u8>, n: int) -> Seq<usize>
    decreases n,
{
    if n <= 0 {
        Seq::empty()
    } else if a[n - 1] != b[n - 1] {
        drift_axes(a, b, n - 1).push((n - 1) as usize)
    } else {
        drift_axes(a, b, n - 1)
    }
}

proof fn lemma_drift_axes(a: Seq<u8>, b: Seq<u8>, n: int)
    requires
        0 <= n <= 8,
    ensures
        forall|k: int| 0 <= k < drift_axes(a, b, n).len() ==> #[trigger] drift_axes(a, b, n)[k] < n,
        forall|k: int, l: int| 0 <= k < l < drift_axes(a, b, n).len() ==> #[trigger] drift_axes(a, b, n)[k] < #[trigger] drift_axes(a, b, n)[l],
        forall|k: int| 0 <= k < drift_axes(a, b, n).len() ==> a[#[trigger] drift_axes(a, b, n)[k] as int] != b[drift_axes(a, b, n)[k] as int],
        forall|i: int| 0 <= i < n && a[i] != b[i] ==> drift_axes(a, b, n).contains(i as usize),
    decreases n,
{
    if n > 0 {
        lemma_drift_axes(a, b, n - 1);
        let prev = drift_axes(a, b, n - 1);
        if a[n - 1] != b[n - 1] {
            let cur = prev.push((n - 1) as usize);
            assert forall|i: int| 0 <= i < n && a[i] != b[i] implies cur.contains(i as usize) by {
                if i < n - 1 {
                    assert(prev.contains(i as usize));
                    let k = choose|k: int| 0 <= k < prev.len() && prev[k] == i as usize;
                    assert(cur[k] == i as usize);
                } else {
                    assert(cur[prev.len() as int] == i as usize);
                }
            }
        }
    }
}

/// Sent `t` and received `r`, both well formed, differing on at most two axes:
/// the receiver reports an exact match when they agree, and otherwise repairs
/// exactly the differing axes, in ascending order, back to `t`.
pub proof fn lemma_drift_within_two_repaired(t: Concept8DState, r: Concept8DState)
    requires
        t.wf(),
        r.wf(),
        drift_axes(t.symbols(), r.symbols(), 8).len() <= 2,
    ensures
        repair_outcome(r.symbols(), parity_seq(t.symbols())) == (if drift_axes(t.symbols(), r.symbols(), 8).len() == 0 {
            SyndromeView::Exact
        } else {
            SyndromeView::Repaired { axes: drift_axes(t.symbols(), r.symbols(), 8), state: t }
        }),
{
    let a = t.symbols();
    let b = r.symbols();
    let dd = drift_axes(a, b, 8);
    lemma_drift_axes(a, b, 8);
    assert(a.len() == 8 && b.len() == 8);
    if dd.len() == 0 {
        assert forall|i: int| 0 <= i < 8 implies a[i] == b[i] by {
            if a[i] != b[i] {
                assert(dd.contains(i as usize));
            }
        }
        assert(a =~= b);
        lemma_intact_state_matches(t);
    } else if dd.len() == 1 {
        let k = dd[0] as int;
        assert forall|i: int| 0 <= i < 8 && i != k implies a[i] == b[i] by {
            if a[i] != b[i] {
                assert(dd.contains(i as usize));
            }
        }
        assert(b =~= a.update(k, b[k]));
        assert(b[k] < 16);
        lemma_single_drift_repaired(t, k, b[k]);
        assert(dd =~= seq![k as usize]);
    } else {
        let k1 = dd[0] as int;
        let k2 = dd[1] as int;
        assert(k1 < k2);
        assert forall|i: int| 0 <= i < 8 && i != k1 && i != k2 implies a[i] == b[i] by {
            if a[i] != b[i] {
                assert(dd.contains(i as usize));
            }
        }
        assert(b =~= a.update(k1, b[k1]).update(k2, b[k2]));
        assert(b[k1] < 16 && b[k2] < 16);
        lemma_two_axis_drift_repaired(t, k1, k2, b[k1], b[k2]);
        assert(dd =~= seq![k1 as usize, k2 as usize]);
    }
}

proof fn lemma_first_single_props(s: Seq<u8>, t: int)
    requires
        0 <= t,
        first_single_from(s, t) is Some,
    ensures
        t <= first_single_from(s, t)->Some_0 < 8,
        single_fits(s, first_single_from(s, t)->Some_0),
    decreases 8 - t,
{
    if t < 8 && !single_fits(s, t) {
        lemma_first_single_props(s, t + 1);
    }
}

proof fn lemma_first_pair_props(s: Seq<u8>, i1: int, i2: int)
    requires
        0 <= i1 < i2,
        first_pair_from(s, i1, i2) is Some,
    ensures
        ({
            let (a, b, e1, e2) = first_pair_from(s, i1, i2)->Some_0;
            &&& 0 <= a < b < 8
            &&& pair_solution(s, a, b) == Some((e1, e2))
        }),
    decreases 8 - i1, 9 - i2,
{
    if i1 < 8 {
        if i2 >= 8 {
            lemma_first_pair_props(s, i1 + 1, i1 + 2);
        } else if pair_solution(s, i1, i2) is None {
            lemma_first_pair_props(s, i1, i2 + 1);
        }
    }
}

/// Nibble-level cancellation: equal masked sums with a common term have equal
/// other terms.
proof fn lemma_xor_same(x: u8, y: u8, c: u8)
    requires
        x < 16,
        y < 16,
        c < 16,
        (x ^ c) & 0x0F == (y ^ c) & 0x0F,
    ensures
        x == y,
{
    lemma_xor(x, c, 0);
    lemma_xor(y, c, 0);
    lemma_xor(x, c, c);
    lemma_xor(y, c, c);
}

/// The syndromes of `d` against the parity of `d2` equal those against `p`:
/// then `d2`'s parity is `p`.
proof fn lemma_parity_from_syndromes(d: Seq<u8>, d2: Seq<u8>, p: Seq<u8>)
    requires
        p.len() == 4,
        forall|j: int| 0 <= j < 4 ==> #[trigger] p[j] < 16,
        forall|j: int| 0 <= j < 4 ==> #[trigger] syndrome_of(d, parity_seq(d2), j) == syndrome_of(d, p, j),
    ensures
        parity_seq(d2) == p,
{
    assert forall|j: int| 0 <= j < 4 implies #[trigger] parity_seq(d2)[j] == p[j] by {
        lemma_parity_small(d2, j, 8);
        lemma_parity_small(d, j, 8);
        assert(syndrome_of(d, parity_seq(d2), j) == (parity_of(d2, j) ^ parity_of(d, j)) & 0x0F);
        lemma_xor_same(parity_of(d2, j), p[j], parity_of(d, j));
    }
    assert(parity_seq(d2) =~= p);
}

proof fn lemma_symbols_of_state(d: Seq<u8>)
    requires
        d.len() == 8,
        forall|i: int| 0 <= i < 8 ==> #[trigger] d[i] < 16,
    ensures
        state_of(d).symbols() == d,
        state_of(d).wf(),
{
    lemma_nibble(d[0]);
    lemma_nibble(d[1]);
    lemma_nibble(d[2]);
    lemma_nibble(d[3]);
    lemma_nibble(d[4]);
    lemma_nibble(d[5]);
    lemma_nibble(d[6]);
    lemma_nibble(d[7]);
    assert(state_of(d).symbols() =~= d);
}

proof fn lemma_xor_back(a: u8, e: u8)
    requires
        a < 16,
        e < 16,
    ensures
        a ^ ((a ^ e) & 0x0F) == e,
        (a ^ e) & 0x0F < 16,
{
    lemma_xor(a, e, 0);
    lemma_xor(a, a, e);
    lemma_xor(e, e, 0);
    lemma_xor(0, e, 0);
    assert(0u8 ^ e == e);
}

/// A single fit means every syndrome is the drift times its axis weight.
proof fn lemma_single_fit_rows(s: Seq<u8>, t: int)
    requires
        s.len() == 4,
        forall|j: int| 0 <= j < 4 ==> #[trigger] s[j] < 16,
        0 <= t < 8,
        single_fits(s, t),
    ensures
        quotient(s, 0, t) < 16,
        forall|j: int| 0 <= j < 4 ==> #[trigger] s[j] == gf_mul(quotient(s, 0, t), wt(j, t)),
{
    reveal(single_fits);
    let q = quotient(s, 0, t);
    assert forall|j: int| 0 <= j < 4 implies #[trigger] s[j] == gf_mul(q, wt(j, t)) by {
        lemma_wt(j, t);
        lemma_div_mul(s[j], wt(j, t));
        assert(quotient(s, j, t) == q);
    }
    lemma_wt(0, t);
    lemma_div_mul(s[0], wt(0, t));
}

/// A single-axis repair gives a state with the expected parity.
#[verifier::spinoff_prover]
#[verifier::rlimit(100)]
proof fn lemma_single_repair_parity(d: Seq<u8>, p: Seq<u8>, t: int)
    requires
        d.len() == 8,
        forall|i: int| 0 <= i < 8 ==> #[trigger] d[i] < 16,
        p.len() == 4,
        forall|j: int| 0 <= j < 4 ==> #[trigger] p[j] < 16,
        0 <= t < 8,
        forall|j: int| 0 <= j < 4 ==> #[trigger] syndrome_seq(d, p)[j] < 16,
        single_fits(syndrome_seq(d, p), t),
    ensures
        ({
            let d2 = d.update(t, (d[t] ^ quotient(syndrome_seq(d, p), 0, t)) & 0x0F);
            &&& state_of(d2).wf()
            &&& parity_seq(state_of(d2).symbols()) == p
        }),
{
    let s = syndrome_seq(d, p);
    lemma_single_fit_rows(s, t);
    let q = quotient(s, 0, t);
    lemma_xor_back(d[t], q);
    let v = (d[t] ^ q) & 0x0F;
    let d2 = d.update(t, v);
    assert forall|i: int| 0 <= i < 8 implies #[trigger] d2[i] < 16 by {}
    lemma_symbols_of_state(d2);
    lemma_single_syndromes(d2, t, d[t]);
    assert(d2.update(t, d[t]) =~= d);
    assert forall|j: int| 0 <= j < 4 implies #[trigger] syndrome_of(d, parity_seq(d2), j) == syndrome_of(d, p, j) by {
        assert(s[j] == syndrome_of(d, p, j));
        assert(s[j] == gf_mul(q, wt(j, t)));
    }
    lemma_parity_from_syndromes(d, d2, p);
}

/// A two-axis repair gives a state with the expected parity.
#[verifier::spinoff_prover]
#[verifier::rlimit(100)]
proof fn lemma_pair_repair_parity(d: Seq<u8>, p: Seq<u8>, i1: int, i2: int)
    requires
        d.len() == 8,
        forall|i: int| 0 <= i < 8 ==> #[trigger] d[i] < 16,
        p.len() == 4,
        forall|j: int| 0 <= j < 4 ==> #[trigger] p[j] < 16,
        0 <= i1 < i2 < 8,
        forall|j: int| 0 <= j < 4 ==> #[trigger] syndrome_seq(d, p)[j] < 16,
        pair_solution(syndrome_seq(d, p), i1, i2) is Some,
    ensures
        ({
            let (e1, e2) = pair_solution(syndrome_seq(d, p), i1, i2)->Some_0;
            let d2 = d.update(i1, (d[i1] ^ e1) & 0x0F).update(i2, (d[i2] ^ e2) & 0x0F);
            &&& state_of(d2).wf()
            &&& parity_seq(state_of(d2).symbols()) == p
        }),
{
    let s = syndrome_seq(d, p);
    lemma_cramer_rows(s, i1, i2);
    lemma_pair_solution_facts(s, i1, i2);
    let (e1, e2) = pair_solution(s, i1, i2)->Some_0;
    lemma_xor_back(d[i1], e1);
    lemma_xor_back(d[i2], e2);
    let v1 = (d[i1] ^ e1) & 0x0F;
    let v2 = (d[i2] ^ e2) & 0x0F;
    let d2 = d.update(i1, v1).update(i2, v2);
    assert(d2[i1] == v1 && d2[i2] == v2);
    assert forall|i: int| 0 <= i < 8 implies #[trigger] d2[i] < 16 by {}
    lemma_symbols_of_state(d2);
    lemma_pair_syndromes(d2, i1, i2, d[i1], d[i2]);
    assert(d2.update(i1, d[i1]).update(i2, d[i2]) =~= d);
    assert forall|j: int| 0 <= j < 4 implies #[trigger] syndrome_of(d, parity_seq(d2), j) == syndrome_of(d, p, j) by {
        assert(syndrome_seq(d, parity_seq(d2))[j] == syndrome_of(d, parity_seq(d2), j));
        assert(s[j] == syndrome_of(d, p, j));
    }
    lemma_parity_from_syndromes(d, d2, p);
}

/// What an outcome promises: a repaired state is well formed, has the
/// expected parity and names one or two axes; a divergence reports the
/// syndromes, their nonzero mask, and that no well-formed state within two
/// axes of the received one has the expected parity.
pub open spec fn outcome_sound(o: SyndromeView, d: Seq<u8>, p: Seq<u8>) -> bool {
    match o {
        SyndromeView::Exact => true,
        SyndromeView::Repaired { axes, state } => state.wf() && parity_seq(state.symbols()) == p && 1 <= axes.len()
            <= 2,
        SyndromeView::Divergent { syndrome, mask } => syndrome == syndrome_seq(d, p) && mask == mask_upto(
            syndrome,
            4,
        ) && forall|u: Concept8DState|
            u.wf() && drift_axes(u.symbols(), d, 8).len() <= 2 ==> #[trigger] parity_seq(u.symbols()) != p,
    }
}

/// The decoder is sound and complete within two axes: for a well-formed
/// received state and expected parity, it reports an exact match exactly when
/// the parity is the state's own, a repair only to a state with that parity,
/// and a divergence only when no state within two axes has that parity.
#[verifier::spinoff_prover]
pub proof fn lemma_repair_sound(r: Concept8DState, p: Seq<u8>)
    requires
        r.wf(),
        p.len() == 4,
        forall|j: int| 0 <= j < 4 ==> #[trigger] p[j] < 16,
    ensures
        (repair_outcome(r.symbols(), p) == SyndromeView::Exact) == (p == parity_seq(r.symbols())),
        outcome_sound(repair_outcome(r.symbols(), p), r.symbols(), p),
{
    let d = r.symbols();
    assert(forall|i: int| 0 <= i < 8 ==> #[trigger] d[i] < 16);
    let s = syndrome_seq(d, p);
    assert forall|j: int| 0 <= j < 4 implies #[trigger] s[j] < 16 by {
        lemma_nibble(p[j] ^ parity_of(d, j));
    }
    if p == parity_seq(d) {
        lemma_intact_state_matches(r);
    }
    if s[0] == 0 && s[1] == 0 && s[2] == 0 && s[3] == 0 {
        assert forall|j: int| 0 <= j < 4 implies #[trigger] syndrome_of(d, parity_seq(d), j) == syndrome_of(d, p, j) by {
            lemma_parity_small(d, j, 8);
            lemma_xor(parity_of(d, j), parity_of(d, j), 0);
            lemma_nibble(0);
            assert(s[j] == syndrome_of(d, p, j));
        }
        lemma_parity_from_syndromes(d, d, p);
    } else {
        match first_single_from(s, 0) {
            Some(t) => {
                lemma_first_single_props(s, 0);
                lemma_single_repair_parity(d, p, t);
            },
            None => {
                match first_pair_from(s, 0, 1) {
                    Some((i1, i2, e1, e2)) => {
                        lemma_first_pair_props(s, 0, 1);
                        lemma_pair_repair_parity(d, p, i1, i2);
                    },
                    None => {
                        assert forall|u: Concept8DState|
                            u.wf() && drift_axes(u.symbols(), d, 8).len() <= 2 implies #[trigger] parity_seq(u.symbols()) != p by {
                            if parity_seq(u.symbols()) == p {
                                lemma_drift_within_two_repaired(u, r);
                            }
                        }
                    },
                }
            },
        }
    }
}

} // verus!
