//! Cuneiform-U semantic coordinate codec.
//!
//! 6D semantic coordinates (six 4-bit axes) are packed into three radical
//! bytes, projected onto vocabulary ids, delta-coded along geodesic
//! trajectories, and compressed with an adaptive 32-bit range coder.

use vstd::prelude::*;

verus! {

/// A 6D semantic coordinate with six 4-bit axes.
#[derive(Clone, Copy, Debug, PartialEq, Eq)]
pub struct Concept6D {
    pub domain: u8,
    pub subdomain: u8,
    pub operation: u8,
    pub modality: u8,
    pub depth: u8,
    pub polarity: u8,
}

/// SplitMix64 finalizer.
pub open spec fn splitmix64_spec(v: u64) -> u64 {
    let a = vstd::wrapping::u64_specs::wrapping_add(v, 0x9E3779B97F4A7C15u64);
    let b = vstd::wrapping::u64_specs::wrapping_mul(a ^ (a >> 30u64), 0xBF58476D1CE4E5B9u64);
    let c = vstd::wrapping::u64_specs::wrapping_mul(b ^ (b >> 27u64), 0x94D049BB133111EBu64);
    c ^ (c >> 31u64)
}

/// Absolute difference of two axis values.
pub open spec fn axis_gap(a: u8, b: u8) -> int {
    if a >= b { a - b } else { b - a }
}

/// The concept whose axes are the nibbles of three radical bytes.
pub open spec fn concept_of_radicals(r0: u8, r1: u8, r2: u8) -> Concept6D {
    Concept6D {
        domain: r0 >> 4u8,
        subdomain: r0 & 0x0f,
        operation: r1 >> 4u8,
        modality: r1 & 0x0f,
        depth: r2 >> 4u8,
        polarity: r2 & 0x0f,
    }
}

impl Concept6D {
    /// Every axis is a 4-bit value.
    pub open spec fn wf(self) -> bool {
        self.domain < 16 && self.subdomain < 16 && self.operation < 16 && self.modality < 16
            && self.depth < 16 && self.polarity < 16
    }

    /// The three radical bytes: axis pairs packed high nibble first.
    pub open spec fn radicals_spec(self) -> Seq<u8> {
        seq![
            (self.domain << 4u8) | self.subdomain,
            (self.operation << 4u8) | self.modality,
            (self.depth << 4u8) | self.polarity,
        ]
    }

    /// The six axes in order.
    pub open spec fn axes_spec(self) -> Seq<u8> {
        seq![self.domain, self.subdomain, self.operation, self.modality, self.depth, self.polarity]
    }

    /// L1 distance between two concepts.
    pub open spec fn manhattan_spec(self, other: Self) -> int {
        axis_gap(self.domain, other.domain) + axis_gap(self.subdomain, other.subdomain) + axis_gap(
            self.operation,
            other.operation,
        ) + axis_gap(self.modality, other.modality) + axis_gap(self.depth, other.depth) + axis_gap(
            self.polarity,
            other.polarity,
        )
    }

    /// The 24-bit code of the radicals.
    pub open spec fn code_spec(self) -> u64 {
        let r = self.radicals_spec();
        ((r[0] as u64) << 16u64) | ((r[1] as u64) << 8u64) | (r[2] as u64)
    }

    /// Builds a concept; every axis must be a 4-bit value.
    pub fn new(domain: u8, subdomain: u8, operation: u8, modality: u8, depth: u8, polarity: u8) -> (r:
        Self)
        requires
            domain < 16,
            subdomain < 16,
            operation < 16,
            modality < 16,
            depth < 16,
            polarity < 16,
        ensures
            r == (Concept6D { domain, subdomain, operation, modality, depth, polarity }),
            r.wf(),
    {
        Self { domain, subdomain, operation, modality, depth, polarity }
    }

    /// Packs the axes into three radical bytes.
    pub fn radicals(self) -> (r: [u8; 3])
        ensures
            r@ == self.radicals_spec(),
    {
        let r = [
            (self.domain << 4) | self.subdomain,
            (self.operation << 4) | self.modality,
            (self.depth << 4) | self.polarity,
        ];
        assert(r@ =~= self.radicals_spec());
        r
    }

    /// The six axes.
    pub fn axes(self) -> (r: [u8; 6])
        ensures
            r@ == self.axes_spec(),
    {
        let r = [self.domain, self.subdomain, self.operation, self.modality, self.depth, self.polarity];
        assert(r@ =~= self.axes_spec());
        r
    }

    /// Sum of the absolute axis differences.
    pub fn manhattan_distance(self, other: Self) -> (r: u32)
        ensures
            r == self.manhattan_spec(other),
    {
        let a = self.axes();
        let b = other.axes();
        let mut sum: u32 = 0;
        let mut i: usize = 0;
        while i < 6
            invariant
                i <= 6,
                a@ == self.axes_spec(),
                b@ == other.axes_spec(),
                sum <= 255 * i,
                sum == partial_gap(a@, b@, i as int),
            decreases 6 - i,
        {
            let gap: u32 = if a[i] >= b[i] {
                (a[i] - b[i]) as u32
            } else {
                (b[i] - a[i]) as u32
            };
            sum = sum + gap;
            i += 1;
        }
        assert(partial_gap(a@, b@, 6) == self.manhattan_spec(other)) by {
            reveal_with_fuel(partial_gap, 7);
        }
        sum
    }

    /// Unpacks three radical bytes.
    pub fn from_radicals(radicals: [u8; 3]) -> (r: Self)
        ensures
            r == concept_of_radicals(radicals@[0], radicals@[1], radicals@[2]),
            r.wf(),
    {
        let r0: u8 = radicals[0];
        let r1: u8 = radicals[1];
        let r2: u8 = radicals[2];
        proof {
            lemma_radical_nibbles(r0);
            lemma_radical_nibbles(r1);
            lemma_radical_nibbles(r2);
        }
        Self {
            domain: r0 >> 4,
            subdomain: r0 & 0x0f,
            operation: r1 >> 4,
            modality: r1 & 0x0f,
            depth: r2 >> 4,
            polarity: r2 & 0x0f,
        }
    }

    /// Deterministic projection of the concept onto a vocabulary id.
    pub fn vocab_projector_id(self, vocab_size: usize) -> (r: usize)
        requires
            vocab_size > 0,
        ensures
            r == splitmix64_spec(self.code_spec()) as usize % vocab_size,
            r < vocab_size,
    {
        let radicals = self.radicals();
        let code: u64 = ((radicals[0] as u64) << 16) | ((radicals[1] as u64) << 8) | radicals[2] as u64;
        splitmix64(code) as usize % vocab_size
    }
}

/// Sum of axis gaps over the first `n` axes.
pub open spec fn partial_gap(a: Seq<u8>, b: Seq<u8>, n: int) -> int
    decreases n,
{
    if n <= 0 {
        0
    } else {
        partial_gap(a, b, n - 1) + axis_gap(a[n - 1], b[n - 1])
    }
}

pub(crate) proof fn lemma_radical_nibbles(r: u8)
    ensures
        r >> 4u8 < 16,
        r & 0x0f < 16,
{
    assert(r >> 4u8 < 16 && r & 0x0f < 16) by (bit_vector);
}

/// Packing a well-formed concept into radicals and unpacking gives it back.
pub proof fn lemma_radicals_round_trip(c: Concept6D)
    requires
        c.wf(),
    ensures
        concept_of_radicals(c.radicals_spec()[0], c.radicals_spec()[1], c.radicals_spec()[2]) == c,
{
    let a = c.domain;
    let b = c.subdomain;
    let d = c.operation;
    let e = c.modality;
    let f = c.depth;
    let g = c.polarity;
    assert(((a << 4u8) | b) >> 4u8 == a && ((a << 4u8) | b) & 0x0f == b) by (bit_vector)
        requires
            a < 16,
            b < 16,
    ;
    assert(((d << 4u8) | e) >> 4u8 == d && ((d << 4u8) | e) & 0x0f == e) by (bit_vector)
        requires
            d < 16,
            e < 16,
    ;
    assert(((f << 4u8) | g) >> 4u8 == f && ((f << 4u8) | g) & 0x0f == g) by (bit_vector)
        requires
            f < 16,
            g < 16,
    ;
}

/// SplitMix64 finalizer.
pub fn splitmix64(value: u64) -> (r: u64)
    ensures
        r == splitmix64_spec(value),
{
    let a: u64 = value.wrapping_add(0x9E3779B97F4A7C15);
    let b: u64 = (a ^ (a >> 30)).wrapping_mul(0xBF58476D1CE4E5B9);
    let c: u64 = (b ^ (b >> 27)).wrapping_mul(0x94D049BB133111EB);
    c ^ (c >> 31)
}

/// Projects every concept onto a vocabulary id.
pub fn concepts_to_vocab_ids(concepts: &[Concept6D], vocab_size: usize) -> (r: Vec<usize>)
    requires
        vocab_size > 0,
    ensures
        r@.len() == concepts@.len(),
        forall|i: int|
            0 <= i < concepts@.len() ==> #[trigger] r@[i] == splitmix64_spec(
                concepts@[i].code_spec(),
            ) as usize % vocab_size,
        forall|i: int| 0 <= i < r@.len() ==> #[trigger] r@[i] < vocab_size,
{
    let mut out: Vec<usize> = Vec::new();
    let mut i: usize = 0;
    while i < concepts.len()
        invariant
            i <= concepts@.len(),
            vocab_size > 0,
            out@.len() == i,
            forall|k: int|
                0 <= k < i ==> #[trigger] out@[k] == splitmix64_spec(concepts@[k].code_spec()) as usize
                    % vocab_size,
            forall|k: int| 0 <= k < i ==> #[trigger] out@[k] < vocab_size,
        decreases concepts@.len() - i,
    {
        out.push(concepts[i].vocab_projector_id(vocab_size));
        i += 1;
    }
    out
}

/// The concept that a token id hashes to.
pub open spec fn token_concept_spec(token_id: usize) -> Concept6D {
    let h = splitmix64_spec(token_id as u64);
    concept_of_radicals((h >> 16u64) as u8, (h >> 8u64) as u8, h as u8)
}

/// Maps a token id to a concept by hashing it.
pub fn token_id_to_concept(token_id: usize) -> (r: Concept6D)
    ensures
        r == token_concept_spec(token_id),
        r.wf(),
{
    let h: u64 = splitmix64(token_id as u64);
    let r0: u8 = (h >> 16) as u8;
    let r1: u8 = (h >> 8) as u8;
    let r2: u8 = h as u8;
    proof {
        lemma_radical_nibbles(r0);
        lemma_radical_nibbles(r1);
        lemma_radical_nibbles(r2);
    }
    Concept6D {
        domain: r0 >> 4,
        subdomain: r0 & 0x0f,
        operation: r1 >> 4,
        modality: r1 & 0x0f,
        depth: r2 >> 4,
        polarity: r2 & 0x0f,
    }
}

// ---------------------------------------------------------------------------
// Geodesic delta radicals
// ---------------------------------------------------------------------------

/// Two-bit wrapped step of one axis from `prev` to `curr`.
pub open spec fn step2(prev: u8, curr: u8) -> u8 {
    vstd::wrapping::u8_specs::wrapping_sub(curr, prev) & 0x03
}

/// The delta byte for a step between consecutive concepts.
pub open spec fn delta_byte(prev: Concept6D, curr: Concept6D) -> u8 {
    (step2(prev.operation, curr.operation) << 6u8) | (step2(prev.modality, curr.modality) << 4u8) | (
    step2(prev.depth, curr.depth) << 2u8) | step2(prev.polarity, curr.polarity)
}

/// Delta bytes for the steps of `c` up to index `n`.
pub open spec fn deltas_upto(c: Seq<Concept6D>, n: int) -> Seq<u8>
    decreases n,
{
    if n <= 1 {
        seq![]
    } else {
        deltas_upto(c, n - 1).push(delta_byte(c[n - 2], c[n - 1]))
    }
}

/// Geodesic encoding: the radicals of the first concept, then one delta byte per step.
pub open spec fn geodesic_encoding(c: Seq<Concept6D>) -> Seq<u8> {
    if c.len() == 0 {
        seq![]
    } else {
        c[0].radicals_spec() + deltas_upto(c, c.len() as int)
    }
}

/// Applies a signed two-bit step (-2..=1) to an axis, modulo 16.
pub open spec fn apply_step(axis: u8, d: u8) -> u8 {
    let s = if d < 2 { d } else { vstd::wrapping::u8_specs::wrapping_sub(d, 4) };
    vstd::wrapping::u8_specs::wrapping_add(axis, s) & 0x0F
}

/// The concept reached from `cur` by one delta byte, keeping the anchor's context axes.
pub open spec fn apply_delta(root: Concept6D, cur: Concept6D, b: u8) -> Concept6D {
    Concept6D {
        domain: root.domain,
        subdomain: root.subdomain,
        operation: apply_step(cur.operation, (b >> 6u8) & 0x03),
        modality: apply_step(cur.modality, (b >> 4u8) & 0x03),
        depth: apply_step(cur.depth, (b >> 2u8) & 0x03),
        polarity: apply_step(cur.polarity, b & 0x03),
    }
}

/// Concepts decoded from the anchor and the given delta bytes.
pub open spec fn decode_steps(root: Concept6D, deltas: Seq<u8>) -> Seq<Concept6D>
    decreases deltas.len(),
{
    if deltas.len() == 0 {
        seq![root]
    } else {
        let prev = decode_steps(root, deltas.drop_last());
        prev.push(apply_delta(root, prev.last(), deltas.last()))
    }
}

/// Geodesic decoding of at most `count` concepts.
pub open spec fn geodesic_decoding(bytes: Seq<u8>, count: int) -> Seq<Concept6D> {
    if count <= 0 || bytes.len() < 3 {
        seq![]
    } else {
        let n = if bytes.len() - 3 < count - 1 { bytes.len() - 3 } else { count - 1 };
        decode_steps(concept_of_radicals(bytes[0], bytes[1], bytes[2]), bytes.subrange(3, 3 + n))
    }
}

proof fn lemma_decode_steps_prefix(root: Concept6D, d: Seq<u8>, m: int)
    requires
        0 <= m <= d.len(),
    ensures
        decode_steps(root, d).len() == d.len() + 1,
        decode_steps(root, d.subrange(0, m)) == decode_steps(root, d).take(m + 1),
    decreases d.len(),
{
    if d.len() > 0 {
        lemma_decode_steps_prefix(root, d.drop_last(), if m < d.len() { m } else { d.len() - 1 });
        if m == d.len() {
            assert(d.subrange(0, m) =~= d);
            assert(decode_steps(root, d).take(m + 1) =~= decode_steps(root, d));
        } else {
            assert(d.drop_last().subrange(0, m) =~= d.subrange(0, m));
            assert(decode_steps(root, d).take(m + 1) =~= decode_steps(root, d.drop_last()).take(m + 1));
        }
    } else {
        assert(d.subrange(0, 0) =~= d);
        assert(decode_steps(root, d).take(1) =~= decode_steps(root, d));
    }
}

/// Decoding a geodesic stream yields at most `count` concepts (one per
/// available step after the anchor), and asking for fewer gives the first ones
/// of a longer decoding: decoding with `k <= count` is the first `k` concepts
/// of decoding with `count`.
pub proof fn lemma_geodesic_decoding_prefix(bytes: Seq<u8>, count: int, k: int)
    requires
        0 <= k <= count,
    ensures
        geodesic_decoding(bytes, count).len() <= count,
        bytes.len() >= 3 && count > 0 ==> geodesic_decoding(bytes, count).len() == if bytes.len() - 2 < count {
            bytes.len() - 2
        } else {
            count
        },
        geodesic_decoding(bytes, k) == geodesic_decoding(bytes, count).take(
            if k < geodesic_decoding(bytes, count).len() { k } else { geodesic_decoding(bytes, count).len() as int },
        ),
{
    if bytes.len() >= 3 && count > 0 {
        let root = concept_of_radicals(bytes[0], bytes[1], bytes[2]);
        let n = if bytes.len() - 3 < count - 1 { bytes.len() - 3 } else { count - 1 };
        let d = bytes.subrange(3, 3 + n);
        lemma_decode_steps_prefix(root, d, 0);
        if k > 0 {
            let nk = if bytes.len() - 3 < k - 1 { bytes.len() - 3 } else { k - 1 };
            lemma_decode_steps_prefix(root, d, nk);
            assert(d.subrange(0, nk) =~= bytes.subrange(3, 3 + nk));
        } else {
            assert(geodesic_decoding(bytes, count).take(0) =~= Seq::<Concept6D>::empty());
        }
    } else {
        assert(geodesic_decoding(bytes, count).take(0) =~= Seq::<Concept6D>::empty());
        if k > 0 {
            assert(geodesic_decoding(bytes, k).len() == 0);
        }
    }
}

/// Encodes a concept stream as a 3-byte anchor followed by 1-byte micro-deltas.
pub fn encode_geodesic_deltas(concepts: &[Concept6D]) -> (r: Vec<u8>)
    ensures
        r@ == geodesic_encoding(concepts@),
{
    let mut bytes: Vec<u8> = Vec::new();
    if concepts.len() == 0 {
        return bytes;
    }
    let root = concepts[0].radicals();
    bytes.push(root[0]);
    bytes.push(root[1]);
    bytes.push(root[2]);
    assert(bytes@ =~= concepts@[0].radicals_spec() + deltas_upto(concepts@, 1));
    let mut prev: Concept6D = concepts[0];
    let mut i: usize = 1;
    while i < concepts.len()
        invariant
            1 <= i <= concepts@.len(),
            prev == concepts@[i - 1],
            bytes@ == concepts@[0].radicals_spec() + deltas_upto(concepts@, i as int),
        decreases concepts@.len() - i,
    {
        let curr: Concept6D = concepts[i];
        let d_op: u8 = curr.operation.wrapping_sub(prev.operation) & 0x03;
        let d_mod: u8 = curr.modality.wrapping_sub(prev.modality) & 0x03;
        let d_dep: u8 = curr.depth.wrapping_sub(prev.depth) & 0x03;
        let d_pol: u8 = curr.polarity.wrapping_sub(prev.polarity) & 0x03;
        let delta: u8 = (d_op << 6) | (d_mod << 4) | (d_dep << 2) | d_pol;
        bytes.push(delta);
        assert(bytes@ =~= concepts@[0].radicals_spec() + deltas_upto(concepts@, i + 1));
        prev = curr;
        i += 1;
    }
    bytes
}

/// Decodes at most `count` concepts from geodesic delta radicals.
pub fn decode_geodesic_deltas(bytes: &[u8], count: usize) -> (r: Vec<Concept6D>)
    ensures
        r@ == geodesic_decoding(bytes@, count as int),
{
    let mut decoded: Vec<Concept6D> = Vec::new();
    if count == 0 || bytes.len() < 3 {
        return decoded;
    }
    let root = Concept6D::from_radicals([bytes[0], bytes[1], bytes[2]]);
    decoded.push(root);
    let n: usize = if bytes.len() - 3 < count - 1 {
        bytes.len() - 3
    } else {
        count - 1
    };
    let ghost all = bytes@.subrange(3, 3 + n);
    assert(decoded@ =~= decode_steps(root, all.subrange(0, 0)));
    let mut cur: Concept6D = root;
    let mut i: usize = 0;
    while i < n
        invariant
            i <= n,
            3 + n <= bytes@.len(),
            n <= bytes.len() - 3,
            bytes.len() >= 3,
            all == bytes@.subrange(3, 3 + n),
            root.wf(),
            cur.wf(),
            decoded@ == decode_steps(root, all.subrange(0, i as int)),
            cur == decoded@.last(),
        decreases n - i,
    {
        let b: u8 = bytes[3 + i];
        let d_op: u8 = (b >> 6) & 0x03;
        let d_mod: u8 = (b >> 4) & 0x03;
        let d_dep: u8 = (b >> 2) & 0x03;
        let d_pol: u8 = b & 0x03;
        let s_op: u8 = if d_op < 2 { d_op } else { d_op.wrapping_sub(4) };
        let s_mod: u8 = if d_mod < 2 { d_mod } else { d_mod.wrapping_sub(4) };
        let s_dep: u8 = if d_dep < 2 { d_dep } else { d_dep.wrapping_sub(4) };
        let s_pol: u8 = if d_pol < 2 { d_pol } else { d_pol.wrapping_sub(4) };
        let o: u8 = cur.operation.wrapping_add(s_op) & 0x0F;
        let m: u8 = cur.modality.wrapping_add(s_mod) & 0x0F;
        let dp: u8 = cur.depth.wrapping_add(s_dep) & 0x0F;
        let p: u8 = cur.polarity.wrapping_add(s_pol) & 0x0F;
        proof {
            lemma_low_nibble(cur.operation.wrapping_add(s_op));
            lemma_low_nibble(cur.modality.wrapping_add(s_mod));
            lemma_low_nibble(cur.depth.wrapping_add(s_dep));
            lemma_low_nibble(cur.polarity.wrapping_add(s_pol));
        }
        cur = Concept6D::new(root.domain, root.subdomain, o, m, dp, p);
        decoded.push(cur);
        assert(all.subrange(0, i + 1).drop_last() =~= all.subrange(0, i as int));
        assert(decoded@ =~= decode_steps(root, all.subrange(0, i + 1)));
        i += 1;
    }
    assert(all.subrange(0, n as int) =~= all);
    decoded
}

/// The low nibble of a byte is below 16.
pub proof fn lemma_low_nibble(x: u8)
    ensures
        x & 0x0F < 16,
{
    assert(x & 0x0F < 16) by (bit_vector);
}


/// One axis moves by -2, -1, 0 or +1 modulo 16.
pub open spec fn smooth_step(a: u8, b: u8) -> bool {
    let d = vstd::wrapping::u8_specs::wrapping_sub(b, a) & 0x0F;
    d == 0 || d == 1 || d == 14 || d == 15
}

/// A trajectory that geodesic delta coding represents exactly: well-formed
/// concepts sharing the anchor's domain and subdomain, each other axis moving
/// by -2..=1 (mod 16) per step.
pub open spec fn geodesic_trajectory(c: Seq<Concept6D>) -> bool {
    &&& c.len() >= 1
    &&& forall|i: int| 0 <= i < c.len() ==> #[trigger] c[i].wf()
    &&& forall|i: int|
        1 <= i < c.len() ==> {
            &&& #[trigger] c[i].domain == c[0].domain
            &&& c[i].subdomain == c[0].subdomain
            &&& smooth_step(c[i - 1].operation, c[i].operation)
            &&& smooth_step(c[i - 1].modality, c[i].modality)
            &&& smooth_step(c[i - 1].depth, c[i].depth)
            &&& smooth_step(c[i - 1].polarity, c[i].polarity)
        }
}

proof fn lemma_axis_step(a: u8, b: u8)
    requires
        a < 16,
        b < 16,
        smooth_step(a, b),
    ensures
        apply_step(a, step2(a, b)) == b,
        step2(a, b) < 4,
{
    assert(apply_step(a, step2(a, b)) == b && step2(a, b) < 4) by (bit_vector)
        requires
            a < 16,
            b < 16,
            smooth_step(a, b),
    ;
}

proof fn lemma_delta_fields(x0: u8, x1: u8, x2: u8, x3: u8)
    requires
        x0 < 4,
        x1 < 4,
        x2 < 4,
        x3 < 4,
    ensures
        ({
            let b = (x0 << 6u8) | (x1 << 4u8) | (x2 << 2u8) | x3;
            &&& (b >> 6u8) & 0x03 == x0
            &&& (b >> 4u8) & 0x03 == x1
            &&& (b >> 2u8) & 0x03 == x2
            &&& b & 0x03 == x3
        }),
{
    assert({
        let b = (x0 << 6u8) | (x1 << 4u8) | (x2 << 2u8) | x3;
        &&& (b >> 6u8) & 0x03 == x0
        &&& (b >> 4u8) & 0x03 == x1
        &&& (b >> 2u8) & 0x03 == x2
        &&& b & 0x03 == x3
    }) by (bit_vector)
        requires
            x0 < 4,
            x1 < 4,
            x2 < 4,
            x3 < 4,
    ;
}

proof fn lemma_decode_prefix(c: Seq<Concept6D>, k: int)
    requires
        geodesic_trajectory(c),
        1 <= k <= c.len(),
    ensures
        decode_steps(c[0], deltas_upto(c, k)) == c.subrange(0, k),
        deltas_upto(c, k).len() == k - 1,
    decreases k,
{
    if k == 1 {
        assert(c.subrange(0, 1) =~= seq![c[0]]);
    } else {
        lemma_decode_prefix(c, k - 1);
        let prev = c[k - 2];
        let curr = c[k - 1];
        assert(prev.wf() && curr.wf());
        assert(curr.domain == c[0].domain);
        lemma_axis_step(prev.operation, curr.operation);
        lemma_axis_step(prev.modality, curr.modality);
        lemma_axis_step(prev.depth, curr.depth);
        lemma_axis_step(prev.polarity, curr.polarity);
        lemma_delta_fields(
            step2(prev.operation, curr.operation),
            step2(prev.modality, curr.modality),
            step2(prev.depth, curr.depth),
            step2(prev.polarity, curr.polarity),
        );
        let ds = deltas_upto(c, k);
        assert(ds.drop_last() =~= deltas_upto(c, k - 1));
        assert(decode_steps(c[0], deltas_upto(c, k - 1)).last() == prev);
        assert(apply_delta(c[0], prev, delta_byte(prev, curr)) == curr);
        assert(c.subrange(0, k - 1).push(curr) =~= c.subrange(0, k));
    }
}

/// Geodesic delta coding is lossless on trajectories whose steps it can express.
pub proof fn lemma_geodesic_round_trip(c: Seq<Concept6D>)
    requires
        geodesic_trajectory(c),
    ensures
        geodesic_encoding(c).len() == 3 + c.len() - 1,
        geodesic_decoding(geodesic_encoding(c), c.len() as int) == c,
{
    lemma_decode_prefix(c, c.len() as int);
    lemma_radicals_round_trip(c[0]);
    let e = geodesic_encoding(c);
    let r = c[0].radicals_spec();
    assert(e.subrange(3, 3 + c.len() - 1) =~= deltas_upto(c, c.len() as int));
    assert(c.subrange(0, c.len() as int) =~= c);
}

// ---------------------------------------------------------------------------
// Adaptive range coder over radicals
// ---------------------------------------------------------------------------

/// Count of symbol `sym` seen after context `key`.
#[derive(Debug, Clone, Copy)]
pub struct SparseTransition {
    pub key: u32,
    pub sym: u8,
    pub count: u32,
}

/// First entry at or after `i` for context `key` and symbol `sym`
/// (`t.len()` when there is none).
pub open spec fn first_match(t: Seq<SparseTransition>, key: u32, sym: u8, i: int) -> int
    decreases t.len() - i,
{
    if i < 0 || i >= t.len() {
        t.len() as int
    } else if t[i].key == key && t[i].sym == sym {
        i
    } else {
        first_match(t, key, sym, i + 1)
    }
}

/// A table after one observation of `sym` in context `key`: the matching entry
/// gains `w`; otherwise a new entry is added while the table holds fewer than
/// 256.
pub open spec fn observe_table(t: Seq<SparseTransition>, key: u32, sym: u8, w: u32) -> Seq<SparseTransition> {
    let i = first_match(t, key, sym, 0);
    if i < t.len() {
        t.update(i, SparseTransition { key, sym, count: (t[i].count + w) as u32 })
    } else if t.len() < 256 {
        t.push(SparseTransition { key, sym, count: w })
    } else {
        t
    }
}

/// Sum of the counts of the entries of `t`.
pub open spec fn table_mass(t: Seq<SparseTransition>) -> int
    decreases t.len(),
{
    if t.len() == 0 {
        0
    } else {
        table_mass(t.drop_last()) + t.last().count
    }
}

/// Counts in context `key` of the symbols below `i`.
pub open spec fn mass_below(t: Seq<SparseTransition>, key: u32, i: int) -> int
    decreases t.len(),
{
    if t.len() == 0 {
        0
    } else {
        mass_below(t.drop_last(), key, i) + if t.last().key == key && (t.last().sym as int) < i {
            t.last().count as int
        } else {
            0
        }
    }
}

/// Cumulative frequency of the symbols below `i` in context `key`, each symbol
/// starting from `alpha`.
pub open spec fn cum_spec(t: Seq<SparseTransition>, key: u32, alpha: u32, i: int) -> int {
    i * alpha + mass_below(t, key, i)
}

proof fn lemma_mass_below_bounds(t: Seq<SparseTransition>, key: u32, i: int, j: int)
    requires
        i <= j,
    ensures
        0 <= mass_below(t, key, i) <= mass_below(t, key, j) <= table_mass(t),
    decreases t.len(),
{
    if t.len() > 0 {
        lemma_mass_below_bounds(t.drop_last(), key, i, j);
    }
}

proof fn lemma_observe_mass(t: Seq<SparseTransition>, key: u32, sym: u8, w: u32)
    requires
        table_mass(t) + w <= u32::MAX,
    ensures
        table_mass(observe_table(t, key, sym, w)) <= table_mass(t) + w,
{
    let i = first_match(t, key, sym, 0);
    lemma_first_match_bounds(t, key, sym, 0);
    if i < t.len() {
        lemma_mass_split(t, i);
        lemma_entry_le_mass(t, i);
        let t2 = t.update(i, SparseTransition { key, sym, count: (t[i].count + w) as u32 });
        lemma_mass_split(t2, i);
        assert(t2.subrange(0, i) =~= t.subrange(0, i));
        assert(t2.subrange(i + 1, t2.len() as int) =~= t.subrange(i + 1, t.len() as int));
    } else if t.len() < 256 {
        assert(t.push(SparseTransition { key, sym, count: w }).drop_last() =~= t);
    }
}

proof fn lemma_first_match_bounds(t: Seq<SparseTransition>, key: u32, sym: u8, i: int)
    requires
        0 <= i,
    ensures
        first_match(t, key, sym, i) <= t.len(),
        first_match(t, key, sym, i) < t.len() ==> i <= first_match(t, key, sym, i) && t[first_match(t, key, sym, i)].key
            == key && t[first_match(t, key, sym, i)].sym == sym,
        first_match(t, key, sym, i) == t.len() ==> forall|k: int| i <= k < t.len() ==> !(#[trigger] t[k].key == key
            && t[k].sym == sym),
        forall|k: int| i <= k < first_match(t, key, sym, i) ==> !(#[trigger] t[k].key == key && t[k].sym == sym),
    decreases t.len() - i,
{
    if i < t.len() && !(t[i].key == key && t[i].sym == sym) {
        lemma_first_match_bounds(t, key, sym, i + 1);
    }
}

proof fn lemma_mass_split(t: Seq<SparseTransition>, i: int)
    requires
        0 <= i < t.len(),
    ensures
        table_mass(t) == table_mass(t.subrange(0, i)) + t[i].count + table_mass(t.subrange(i + 1, t.len() as int)),
    decreases t.len(),
{
    if i < t.len() - 1 {
        lemma_mass_split(t.drop_last(), i);
        assert(t.drop_last().subrange(0, i) =~= t.subrange(0, i));
        let tail = t.subrange(i + 1, t.len() as int);
        assert(tail.drop_last() =~= t.drop_last().subrange(i + 1, t.len() - 1));
        assert(tail.last() == t.last());
    } else {
        assert(t.drop_last() =~= t.subrange(0, i));
        assert(t.subrange(i + 1, t.len() as int).len() == 0);
    }
}

proof fn lemma_entry_le_mass(t: Seq<SparseTransition>, i: int)
    requires
        0 <= i < t.len(),
    ensures
        t[i].count <= table_mass(t),
        table_mass(t) >= 0,
    decreases t.len(),
{
    lemma_mass_nonneg(t);
    if i < t.len() - 1 {
        lemma_entry_le_mass(t.drop_last(), i);
    } else {
        lemma_mass_nonneg(t.drop_last());
    }
}

proof fn lemma_mass_nonneg(t: Seq<SparseTransition>)
    ensures
        table_mass(t) >= 0,
    decreases t.len(),
{
    if t.len() > 0 {
        lemma_mass_nonneg(t.drop_last());
    }
}

/// Adds one observation of `sym` in context `key` to `table`.
fn observe_one(table: &mut Vec<SparseTransition>, key: u32, sym: u8, weight: u32)
    requires
        table_mass(old(table)@) + weight <= u32::MAX,
    ensures
        final(table)@ == observe_table(old(table)@, key, sym, weight),
{
    let ghost t = table@;
    proof {
        lemma_first_match_bounds(t, key, sym, 0);
    }
    let mut i: usize = 0;
    while i < table.len()
        invariant
            i <= t.len(),
            table@ == t,
            t == old(table)@,
            table_mass(t) + weight <= u32::MAX,
            forall|k: int| 0 <= k < i ==> !(#[trigger] t[k].key == key && t[k].sym == sym),
            first_match(t, key, sym, 0) == first_match(t, key, sym, i as int),
        decreases t.len() - i,
    {
        let e: SparseTransition = table[i];
        if e.key == key && e.sym == sym {
            proof {
                lemma_mass_split(t, i as int);
                lemma_mass_nonneg(t.subrange(0, i as int));
                lemma_mass_nonneg(t.subrange(i + 1, t.len() as int));
                assert(first_match(t, key, sym, i as int) == i);
            }
            table.set(i, SparseTransition { key, sym, count: e.count + weight });
            return;
        }
        i += 1;
    }
    if table.len() < 256 {
        table.push(SparseTransition { key, sym, count: weight });
    }
}

/// Counts in context `key` of symbol `sym`.
pub open spec fn sym_mass(t: Seq<SparseTransition>, key: u32, sym: int) -> int
    decreases t.len(),
{
    if t.len() == 0 {
        0
    } else {
        sym_mass(t.drop_last(), key, sym) + if t.last().key == key && t.last().sym as int == sym {
            t.last().count as int
        } else {
            0
        }
    }
}

proof fn lemma_mass_below_step(t: Seq<SparseTransition>, key: u32, i: int)
    ensures
        mass_below(t, key, i + 1) == mass_below(t, key, i) + sym_mass(t, key, i),
        0 <= sym_mass(t, key, i),
    decreases t.len(),
{
    if t.len() > 0 {
        lemma_mass_below_step(t.drop_last(), key, i);
    }
}

proof fn lemma_mass_below_zero(t: Seq<SparseTransition>, key: u32)
    ensures
        mass_below(t, key, 0) == 0,
    decreases t.len(),
{
    if t.len() > 0 {
        lemma_mass_below_zero(t.drop_last(), key);
    }
}

/// Cumulative frequencies of the 256 symbols in context `key` (`cum[i]` is the
/// total of the symbols below `i`).
fn cumulative(table: &Vec<SparseTransition>, key: u32, alpha: u32) -> (cum: [u32; 257])
    requires
        256 * alpha + table_mass(table@) <= u32::MAX,
    ensures
        forall|i: int| 0 <= i <= 256 ==> #[trigger] cum@[i] as int == cum_spec(table@, key, alpha, i),
{
    let ghost t = table@;
    let mut freqs: [u32; 256] = [alpha; 256];
    let mut k: usize = 0;
    assert(t.subrange(0, 0) =~= Seq::<SparseTransition>::empty());
    proof {
        lemma_mass_nonneg(t);
    }
    while k < table.len()
        invariant
            k <= t.len(),
            t == table@,
            256 * alpha + table_mass(t) <= u32::MAX,
            freqs@.len() == 256,
            forall|s: int| 0 <= s < 256 ==> #[trigger] freqs@[s] as int == alpha + sym_mass(t.subrange(0, k as int), key, s),
            table_mass(t.subrange(0, k as int)) <= table_mass(t),
        decreases t.len() - k,
    {
        let e: SparseTransition = table[k];
        let ghost pre = t.subrange(0, k as int);
        let ghost next = t.subrange(0, k + 1);
        assert(next.drop_last() =~= pre);
        assert(next.last() == e);
        proof {
            lemma_sym_mass_le(pre, key, e.sym as int);
            lemma_prefix_mass(t, k + 1);
        }
        if e.key == key {
            let f: u32 = freqs[e.sym as usize];
            freqs.set(e.sym as usize, f + e.count);
        }
        k += 1;
    }
    assert(t.subrange(0, t.len() as int) =~= t);
    let mut cum: [u32; 257] = [0u32; 257];
    let mut i: usize = 0;
    proof {
        lemma_mass_below_zero(t, key);
        assert(cum_spec(t, key, alpha, 0) == 0);
    }
    cum.set(0, 0);
    while i < 256
        invariant
            i <= 256,
            t == table@,
            256 * alpha + table_mass(t) <= u32::MAX,
            freqs@.len() == 256,
            cum@.len() == 257,
            forall|s: int| 0 <= s < 256 ==> #[trigger] freqs@[s] as int == alpha + sym_mass(t, key, s),
            forall|j: int| 0 <= j <= i ==> #[trigger] cum@[j] as int == cum_spec(t, key, alpha, j),
        decreases 256 - i,
    {
        proof {
            lemma_mass_below_step(t, key, i as int);
            lemma_mass_below_bounds(t, key, i + 1, i + 1);
            assert(cum_spec(t, key, alpha, i + 1) == cum_spec(t, key, alpha, i as int) + freqs@[i as int]) by (nonlinear_arith)
                requires
                    cum_spec(t, key, alpha, i + 1) == (i + 1) * alpha + mass_below(t, key, i + 1),
                    cum_spec(t, key, alpha, i as int) == i * alpha + mass_below(t, key, i as int),
                    mass_below(t, key, i + 1) == mass_below(t, key, i as int) + sym_mass(t, key, i as int),
                    freqs@[i as int] as int == alpha + sym_mass(t, key, i as int);
            assert(cum_spec(t, key, alpha, i + 1) <= 256 * alpha + table_mass(t)) by (nonlinear_arith)
                requires
                    cum_spec(t, key, alpha, i + 1) == (i + 1) * alpha + mass_below(t, key, i + 1),
                    mass_below(t, key, i + 1) <= table_mass(t),
                    i + 1 <= 256,
                    alpha >= 0;
        }
        let c: u32 = cum[i] + freqs[i];
        cum.set(i + 1, c);
        i += 1;
    }
    cum
}

proof fn lemma_sym_mass_le(t: Seq<SparseTransition>, key: u32, s: int)
    ensures
        0 <= sym_mass(t, key, s) <= table_mass(t),
    decreases t.len(),
{
    if t.len() > 0 {
        lemma_sym_mass_le(t.drop_last(), key, s);
    }
}

proof fn lemma_prefix_mass(t: Seq<SparseTransition>, k: int)
    requires
        0 <= k <= t.len(),
    ensures
        table_mass(t.subrange(0, k)) <= table_mass(t),
    decreases t.len() - k,
{
    if k < t.len() {
        lemma_prefix_mass(t, k + 1);
        assert(t.subrange(0, k + 1).drop_last() =~= t.subrange(0, k));
    } else {
        assert(t.subrange(0, k) =~= t);
    }
}

/// Buffer after writing `bit` as bit number `n` (most significant bit of each
/// byte first).
pub open spec fn put_bit(buf: Seq<u8>, n: nat, bit: u8) -> Seq<u8> {
    let b1 = if n / 8 == buf.len() {
        buf.push(0u8)
    } else {
        buf
    };
    if bit != 0 {
        b1.update((n / 8) as int, b1[(n / 8) as int] | (1u8 << ((7 - n % 8) as u8)))
    } else {
        b1
    }
}

/// Buffer after writing `count` copies of `bit` from bit number `n` on.
pub open spec fn put_run(buf: Seq<u8>, n: nat, bit: u8, count: nat) -> Seq<u8>
    decreases count,
{
    if count == 0 {
        buf
    } else {
        put_run(put_bit(buf, n, bit), n + 1, bit, (count - 1) as nat)
    }
}

/// The buffer holds exactly the bytes that `n` bits occupy.
pub open spec fn packed(buf: Seq<u8>, n: nat) -> bool {
    buf.len() == (n + 7) / 8
}

pub(crate) proof fn lemma_put_bit_packed(buf: Seq<u8>, n: nat, bit: u8)
    requires
        packed(buf, n),
    ensures
        packed(put_bit(buf, n, bit), n + 1),
{
}

pub(crate) proof fn lemma_put_run_packed(buf: Seq<u8>, n: nat, bit: u8, count: nat)
    requires
        packed(buf, n),
    ensures
        packed(put_run(buf, n, bit, count), n + count),
    decreases count,
{
    if count > 0 {
        lemma_put_bit_packed(buf, n, bit);
        lemma_put_run_packed(put_bit(buf, n, bit), n + 1, bit, (count - 1) as nat);
    }
}

/// Bits written most significant first into a growing byte buffer.
struct BitWriter {
    buffer: Vec<u8>,
    bit_index: usize,
}

impl BitWriter {
    fn write_bit(&mut self, bit: u8)
        requires
            packed(old(self).buffer@, old(self).bit_index as nat),
            old(self).bit_index < usize::MAX,
        ensures
            final(self).buffer@ == put_bit(old(self).buffer@, old(self).bit_index as nat, bit),
            final(self).bit_index == old(self).bit_index + 1,
            packed(final(self).buffer@, final(self).bit_index as nat),
    {
        proof {
            lemma_put_bit_packed(self.buffer@, self.bit_index as nat, bit);
        }
        let byte_pos: usize = self.bit_index / 8;
        let bit_pos: u8 = (7 - (self.bit_index % 8)) as u8;
        if byte_pos == self.buffer.len() {
            self.buffer.push(0);
        }
        if bit != 0 {
            let b: u8 = self.buffer[byte_pos];
            self.buffer.set(byte_pos, b | (1u8 << bit_pos));
        }
        self.bit_index += 1;
    }

    /// Writes `bit`, then the pending opposite bits, and clears the pending count.
    fn write_bit_with_underflow(&mut self, underflow_bits: &mut u32, bit: u8)
        requires
            packed(old(self).buffer@, old(self).bit_index as nat),
            old(self).bit_index + 1 + *old(underflow_bits) <= usize::MAX,
            bit <= 1,
        ensures
            final(self).buffer@ == put_run(
                put_bit(old(self).buffer@, old(self).bit_index as nat, bit),
                old(self).bit_index as nat + 1,
                (1 - bit) as u8,
                *old(underflow_bits) as nat,
            ),
            final(self).bit_index == old(self).bit_index + 1 + *old(underflow_bits),
            *final(underflow_bits) == 0,
            packed(final(self).buffer@, final(self).bit_index as nat),
    {
        self.write_bit(bit);
        let ghost start = self.buffer@;
        let ghost n0 = self.bit_index as nat;
        let ghost total = *underflow_bits;
        while *underflow_bits > 0
            invariant
                packed(self.buffer@, self.bit_index as nat),
                self.bit_index as nat + *underflow_bits == n0 + total,
                n0 + total <= usize::MAX,
                bit <= 1,
                put_run(start, n0, (1 - bit) as u8, total as nat) == put_run(
                    self.buffer@,
                    self.bit_index as nat,
                    (1 - bit) as u8,
                    *underflow_bits as nat,
                ),
            decreases *underflow_bits,
        {
            self.write_bit(1 - bit);
            *underflow_bits = *underflow_bits - 1;
        }
    }
}

/// Adaptive context model of the radical coder.
pub struct RadicalModel {
    pub alpha: u32,
    pub weight: u32,
    pub rc: Seq<SparseTransition>,
    pub rf: Seq<SparseTransition>,
    pub ra: Seq<SparseTransition>,
    pub prev_rc: u8,
    pub prev_rf: u8,
    pub prev_ra: u8,
}

/// A fresh model.
pub open spec fn model_new(alpha: u32, weight: u32) -> RadicalModel {
    RadicalModel {
        alpha,
        weight,
        rc: Seq::empty(),
        rf: Seq::empty(),
        ra: Seq::empty(),
        prev_rc: 0,
        prev_rf: 0,
        prev_ra: 0,
    }
}

/// Context of the first radical: the previous first radical.
pub open spec fn key_rc(prev_rc: u8) -> u32 {
    prev_rc as u32
}

/// Context of the second radical: this first radical and the previous second.
pub open spec fn key_rf(rc: u8, prev_rf: u8) -> u32 {
    (rc as int * 256 + prev_rf as int) as u32
}

/// Context of the third radical: this first and second radicals and the
/// previous third.
pub open spec fn key_ra(rc: u8, rf: u8, prev_ra: u8) -> u32 {
    (rc as int * 65536 + rf as int * 256 + prev_ra as int) as u32
}

/// The model after observing the radicals of one concept.
pub open spec fn model_observe(m: RadicalModel, rc: u8, rf: u8, ra: u8) -> RadicalModel {
    RadicalModel {
        rc: observe_table(m.rc, key_rc(m.prev_rc), rc, m.weight),
        rf: observe_table(m.rf, key_rf(rc, m.prev_rf), rf, m.weight),
        ra: observe_table(m.ra, key_ra(rc, rf, m.prev_ra), ra, m.weight),
        prev_rc: rc,
        prev_rf: rf,
        prev_ra: ra,
        ..m
    }
}

/// Table and context used for radical number `step` (0, 1 or 2) given the
/// radicals already coded for this concept.
pub open spec fn step_table(m: RadicalModel, step: int) -> Seq<SparseTransition> {
    if step == 0 {
        m.rc
    } else if step == 1 {
        m.rf
    } else {
        m.ra
    }
}

/// Context key for radical number `step`.
pub open spec fn step_key(m: RadicalModel, step: int, rc: u8, rf: u8) -> u32 {
    if step == 0 {
        key_rc(m.prev_rc)
    } else if step == 1 {
        key_rf(rc, m.prev_rf)
    } else {
        key_ra(rc, rf, m.prev_ra)
    }
}

/// Cumulative frequency below `i` for radical number `step`.
pub open spec fn step_cum(m: RadicalModel, step: int, rc: u8, rf: u8, i: int) -> int {
    cum_spec(step_table(m, step), step_key(m, step, rc, rf), m.alpha, i)
}

/// Every table's mass, plus `extra`, leaves room for 256 symbols of `alpha`
/// within 2^30.
pub open spec fn model_fits(m: RadicalModel, extra: int) -> bool {
    &&& 256 * m.alpha + table_mass(m.rc) + extra <= 0x4000_0000
    &&& 256 * m.alpha + table_mass(m.rf) + extra <= 0x4000_0000
    &&& 256 * m.alpha + table_mass(m.ra) + extra <= 0x4000_0000
}

pub(crate) proof fn lemma_observe_fits(m: RadicalModel, rc: u8, rf: u8, ra: u8, extra: int)
    requires
        model_fits(m, extra + m.weight),
        extra >= 0,
    ensures
        model_fits(model_observe(m, rc, rf, ra), extra),
{
    lemma_observe_mass(m.rc, key_rc(m.prev_rc), rc, m.weight);
    lemma_observe_mass(m.rf, key_rf(rc, m.prev_rf), rf, m.weight);
    lemma_observe_mass(m.ra, key_ra(rc, rf, m.prev_ra), ra, m.weight);
}

/// Context model for the three radicals of each concept.
struct RadicalPredictor {
    alpha: u32,
    weight: u32,
    trans_rc: Vec<SparseTransition>,
    trans_rf: Vec<SparseTransition>,
    trans_ra: Vec<SparseTransition>,
    prev_rc: u8,
    prev_rf: u8,
    prev_ra: u8,
}

impl View for RadicalPredictor {
    type V = RadicalModel;

    closed spec fn view(&self) -> RadicalModel {
        RadicalModel {
            alpha: self.alpha,
            weight: self.weight,
            rc: self.trans_rc@,
            rf: self.trans_rf@,
            ra: self.trans_ra@,
            prev_rc: self.prev_rc,
            prev_rf: self.prev_rf,
            prev_ra: self.prev_ra,
        }
    }
}

proof fn lemma_keys(rc: u8, rf: u8, prev_rf: u8, prev_ra: u8)
    ensures
        ((rc as u32) << 8u32) | (prev_rf as u32) == key_rf(rc, prev_rf),
        ((rc as u32) << 16u32) | ((rf as u32) << 8u32) | (prev_ra as u32) == key_ra(rc, rf, prev_ra),
{
    assert(((rc as u32) << 8u32) | (prev_rf as u32) == (rc as u32) * 256 + (prev_rf as u32)) by (bit_vector);
    assert(((rc as u32) << 16u32) | ((rf as u32) << 8u32) | (prev_ra as u32) == (rc as u32) * 65536 + (rf as u32)
        * 256 + (prev_ra as u32)) by (bit_vector);
}

impl RadicalPredictor {
    fn new(alpha: u32, weight: u32) -> (r: Self)
        ensures
            r@ == model_new(alpha, weight),
    {
        let r = RadicalPredictor {
            alpha,
            weight,
            trans_rc: Vec::new(),
            trans_rf: Vec::new(),
            trans_ra: Vec::new(),
            prev_rc: 0,
            prev_rf: 0,
            prev_ra: 0,
        };
        assert(r@.rc =~= Seq::<SparseTransition>::empty());
        r
    }

    fn observe(&mut self, rc: u8, rf: u8, ra: u8)
        requires
            model_fits(old(self)@, old(self)@.weight as int),
        ensures
            final(self)@ == model_observe(old(self)@, rc, rf, ra),
    {
        proof {
            lemma_keys(rc, rf, self.prev_rf, self.prev_ra);
        }
        let w: u32 = self.weight;
        observe_one(&mut self.trans_rc, self.prev_rc as u32, rc, w);
        observe_one(&mut self.trans_rf, ((rc as u32) << 8) | self.prev_rf as u32, rf, w);
        observe_one(&mut self.trans_ra, ((rc as u32) << 16) | ((rf as u32) << 8) | self.prev_ra as u32, ra, w);
        self.prev_rc = rc;
        self.prev_rf = rf;
        self.prev_ra = ra;
    }

    /// Cumulative frequencies for radical number `step` given the radicals
    /// already coded for this concept.
    fn cum_freqs(&self, step: usize, rc: u8, rf: u8) -> (cum: [u32; 257])
        requires
            step < 3,
            model_fits(self@, 0),
        ensures
            forall|i: int| 0 <= i <= 256 ==> #[trigger] cum@[i] as int == step_cum(self@, step as int, rc, rf, i),
    {
        proof {
            lemma_keys(rc, rf, self.prev_rf, self.prev_ra);
        }
        if step == 0 {
            cumulative(&self.trans_rc, self.prev_rc as u32, self.alpha)
        } else if step == 1 {
            cumulative(&self.trans_rf, ((rc as u32) << 8) | self.prev_rf as u32, self.alpha)
        } else {
            cumulative(&self.trans_ra, ((rc as u32) << 16) | ((rf as u32) << 8) | self.prev_ra as u32, self.alpha)
        }
    }
}

/// State of the range encoder: the interval, the pending opposite bits and the
/// output written so far.
pub struct EncState {
    pub low: u32,
    pub high: u32,
    pub underflow: u32,
    pub buf: Seq<u8>,
    pub nbits: nat,
}

/// Writes `bit` and then the pending opposite bits.
pub open spec fn emit(st: EncState, bit: u8) -> EncState {
    EncState {
        underflow: 0,
        buf: put_run(put_bit(st.buf, st.nbits, bit), st.nbits + 1, (1 - bit) as u8, st.underflow as nat),
        nbits: (st.nbits + 1 + st.underflow) as nat,
        ..st
    }
}

/// Renormalization: shift out settled top bits, and count straddling halves as
/// pending bits, until the interval is wider than a quarter.
pub open spec fn enc_renorm(st: EncState) -> EncState
    decreases 0x1_0000_0000 - (st.high - st.low + 1),
{
    if st.low > st.high {
        st
    } else if st.high < 0x8000_0000 {
        let e = emit(st, 0);
        enc_renorm(EncState { low: (2 * st.low) as u32, high: (2 * st.high + 1) as u32, ..e })
    } else if st.low >= 0x8000_0000 {
        let e = emit(st, 1);
        enc_renorm(
            EncState { low: (2 * (st.low - 0x8000_0000)) as u32, high: (2 * (st.high - 0x8000_0000) + 1) as u32, ..e },
        )
    } else if st.low >= 0x4000_0000 && st.high < 0xC000_0000 {
        enc_renorm(
            EncState {
                low: (2 * (st.low - 0x4000_0000)) as u32,
                high: (2 * (st.high - 0x4000_0000) + 1) as u32,
                underflow: (st.underflow + 1) as u32,
                ..st
            },
        )
    } else {
        st
    }
}

/// Codes radical number `step` (value `sym`) of a concept whose first radicals
/// are `rc` and `rf`.
pub open spec fn enc_symbol(st: EncState, m: RadicalModel, step: int, rc: u8, rf: u8, sym: u8) -> EncState {
    let cl = step_cum(m, step, rc, rf, sym as int);
    let ch = step_cum(m, step, rc, rf, sym + 1);
    let total = step_cum(m, step, rc, rf, 256);
    let rw = st.high - st.low + 1;
    enc_renorm(EncState { low: (st.low + rw * cl / total) as u32, high: (st.low + rw * ch / total - 1) as u32, ..st })
}

/// Codes the three radicals of `c`.
pub open spec fn enc_concept(st: EncState, m: RadicalModel, c: Concept6D) -> EncState {
    let r = c.radicals_spec();
    enc_symbol(enc_symbol(enc_symbol(st, m, 0, r[0], r[1], r[0]), m, 1, r[0], r[1], r[1]), m, 2, r[0], r[1], r[2])
}

/// Encoder state and model after coding `cs`.
pub open spec fn enc_run(cs: Seq<Concept6D>, alpha: u32, weight: u32) -> (EncState, RadicalModel)
    decreases cs.len(),
{
    if cs.len() == 0 {
        (EncState { low: 0, high: u32::MAX, underflow: 0, buf: Seq::empty(), nbits: 0 }, model_new(alpha, weight))
    } else {
        let (st, m) = enc_run(cs.drop_last(), alpha, weight);
        let r = cs.last().radicals_spec();
        (enc_concept(st, m, cs.last()), model_observe(m, r[0], r[1], r[2]))
    }
}

/// Final flush: one more pending bit, then the bit that settles the interval.
pub open spec fn enc_finish(st: EncState) -> EncState {
    emit(
        EncState { underflow: (st.underflow + 1) as u32, ..st },
        if st.low < 0x4000_0000 {
            0
        } else {
            1
        },
    )
}

/// The range-coded bit stream of `cs`.
pub open spec fn encode_spec(cs: Seq<Concept6D>, alpha: u32, weight: u32) -> EncState {
    enc_finish(enc_run(cs, alpha, weight).0)
}

/// Inputs the decoder handles: a positive `alpha` (when there is a concept)
/// and all frequency totals within 2^30.
pub open spec fn decoder_fits(n: int, alpha: u32, weight: u32) -> bool {
    &&& n > 0 ==> alpha >= 1
    &&& 256 * alpha + weight * n <= 0x4000_0000
}

/// Inputs the encoder handles: those of the decoder, and few enough concepts
/// that the count of written and pending bits stays within 32 bits.
pub open spec fn coder_fits(n: int, alpha: u32, weight: u32) -> bool {
    &&& decoder_fits(n, alpha, weight)
    &&& 96 * n + 1 <= u32::MAX
}

pub(crate) proof fn lemma_narrow(low: int, high: int, cl: int, ch: int, total: int)
    requires
        0 <= low <= high,
        high - low + 1 >= total >= 1,
        0 <= cl < ch <= total,
    ensures
        low <= low + (high - low + 1) * cl / total,
        low + (high - low + 1) * cl / total <= low + (high - low + 1) * ch / total - 1,
        low + (high - low + 1) * ch / total - 1 <= high,
{
    let rw = high - low + 1;
    assert(rw * cl >= 0) by (nonlinear_arith)
        requires rw >= 1, cl >= 0;
    assert(rw * cl / total >= 0) by (nonlinear_arith)
        requires rw * cl >= 0, total >= 1;
    assert(rw * ch <= rw * total) by (nonlinear_arith)
        requires rw >= 1, ch <= total;
    assert(rw * ch / total <= rw) by (nonlinear_arith)
        requires rw * ch <= rw * total, total >= 1;
    assert(rw * ch - rw * cl >= total) by (nonlinear_arith)
        requires rw >= total, ch - cl >= 1, total >= 1;
    assert(rw * ch / total >= rw * cl / total + 1) by (nonlinear_arith)
        requires rw * ch - rw * cl >= total, total >= 1, rw * cl >= 0;
}

/// Two to the power `k`.
pub open spec fn pow2(k: nat) -> int
    decreases k,
{
    if k == 0 {
        1
    } else {
        2 * pow2((k - 1) as nat)
    }
}

pub(crate) proof fn lemma_pow2_grows(k: nat)
    ensures
        pow2(k) >= k + 1,
        k >= 33 ==> pow2(k) > 0x1_0000_0000,
    decreases k,
{
    if k > 0 {
        lemma_pow2_grows((k - 1) as nat);
    }
    if k >= 33 {
        reveal_with_fuel(pow2, 34);
        assert(pow2(33) == 0x2_0000_0000);
        lemma_pow2_mono(33, k);
    }
}

pub(crate) proof fn lemma_pow2_mono(a: nat, b: nat)
    requires
        a <= b,
    ensures
        pow2(a) <= pow2(b),
    decreases b,
{
    if b > a {
        lemma_pow2_mono(a, (b - 1) as nat);
        lemma_pow2_pos((b - 1) as nat);
    }
}

pub(crate) proof fn lemma_pow2_pos(k: nat)
    ensures
        pow2(k) >= 1,
    decreases k,
{
    if k > 0 {
        lemma_pow2_pos((k - 1) as nat);
    }
}

/// The encoder state held in executable variables.
pub open spec fn enc_view(low: u32, high: u32, underflow: u32, buf: Seq<u8>, nbits: usize) -> EncState {
    EncState { low, high, underflow, buf, nbits: nbits as nat }
}

/// Narrows the interval to the symbol's share `[cl, ch)` of `total`, then
/// renormalizes.
pub open spec fn enc_narrow(st: EncState, cl: int, ch: int, total: int) -> EncState {
    let rw = st.high - st.low + 1;
    enc_renorm(EncState { low: (st.low + rw * cl / total) as u32, high: (st.low + rw * ch / total - 1) as u32, ..st })
}

fn code_symbol(
    low: &mut u32,
    high: &mut u32,
    underflow: &mut u32,
    writer: &mut BitWriter,
    cl: u32,
    ch: u32,
    total: u32,
)
    requires
        *old(low) <= *old(high),
        *old(high) - *old(low) + 1 >= total >= 1,
        total <= 0x4000_0000,
        cl < ch <= total,
        packed(old(writer).buffer@, old(writer).bit_index as nat),
        old(writer).bit_index + *old(underflow) + 33 <= u32::MAX,
    ensures
        enc_view(*final(low), *final(high), *final(underflow), final(writer).buffer@, final(writer).bit_index)
            == enc_narrow(
            enc_view(*old(low), *old(high), *old(underflow), old(writer).buffer@, old(writer).bit_index),
            cl as int,
            ch as int,
            total as int,
        ),
        *final(low) <= *final(high),
        *final(high) - *final(low) + 1 > 0x4000_0000,
        packed(final(writer).buffer@, final(writer).bit_index as nat),
        final(writer).bit_index + *final(underflow) <= old(writer).bit_index + *old(underflow) + 32,
{
    let ghost start = enc_view(*low, *high, *underflow, writer.buffer@, writer.bit_index);
    let range_width: u64 = *high as u64 - *low as u64 + 1;
    proof {
        lemma_narrow(*low as int, *high as int, cl as int, ch as int, total as int);
        assert(range_width * (ch as u64) <= 0x1_0000_0000u64 * 0x4000_0000u64) by (nonlinear_arith)
            requires range_width <= 0x1_0000_0000u64, ch <= 0x4000_0000u32;
        assert(range_width * (cl as u64) <= 0x1_0000_0000u64 * 0x4000_0000u64) by (nonlinear_arith)
            requires range_width <= 0x1_0000_0000u64, cl <= 0x4000_0000u32;
    }
    let new_high: u64 = *low as u64 + (range_width * ch as u64) / total as u64 - 1;
    let new_low: u64 = *low as u64 + (range_width * cl as u64) / total as u64;
    *high = new_high as u32;
    *low = new_low as u32;
    let ghost target = enc_narrow(start, cl as int, ch as int, total as int);
    let ghost b0 = writer.bit_index + *underflow;
    let ghost rw0 = *high - *low + 1;
    assert(enc_renorm(enc_view(*low, *high, *underflow, writer.buffer@, writer.bit_index)) == target);
    proof {
        assert(pow2(0) == 1);
    }
    loop
        invariant
            *low <= *high,
            enc_renorm(enc_view(*low, *high, *underflow, writer.buffer@, writer.bit_index)) == target,
            packed(writer.buffer@, writer.bit_index as nat),
            writer.bit_index + *underflow >= b0,
            (*high - *low + 1) >= pow2((writer.bit_index + *underflow - b0) as nat) * rw0,
            rw0 >= 1,
            b0 + 33 <= u32::MAX,
        ensures
            *low <= *high,
            *high - *low + 1 > 0x4000_0000,
            enc_view(*low, *high, *underflow, writer.buffer@, writer.bit_index) == target,
            packed(writer.buffer@, writer.bit_index as nat),
            writer.bit_index + *underflow >= b0,
            (*high - *low + 1) >= pow2((writer.bit_index + *underflow - b0) as nat) * rw0,
        decreases 0x1_0000_0000 - (*high - *low + 1),
    {
        proof {
            lemma_pow2_grows((writer.bit_index + *underflow - b0) as nat);
            lemma_pow2_pos((writer.bit_index + *underflow - b0) as nat);
            assert(pow2((writer.bit_index + *underflow - b0) as nat) * rw0 >= pow2((writer.bit_index + *underflow - b0) as nat)) by (nonlinear_arith)
                requires rw0 >= 1, pow2((writer.bit_index + *underflow - b0) as nat) >= 1;
        }
        let ghost it = (writer.bit_index + *underflow - b0) as nat;
        if *high < 0x8000_0000 {
            writer.write_bit_with_underflow(underflow, 0);
            *low = *low * 2;
            *high = *high * 2 + 1;
        } else if *low >= 0x8000_0000 {
            writer.write_bit_with_underflow(underflow, 1);
            *low = (*low - 0x8000_0000) * 2;
            *high = (*high - 0x8000_0000) * 2 + 1;
        } else if *low >= 0x4000_0000 && *high < 0xC000_0000 {
            *underflow = *underflow + 1;
            *low = (*low - 0x4000_0000) * 2;
            *high = (*high - 0x4000_0000) * 2 + 1;
        } else {
            assert(enc_renorm(enc_view(*low, *high, *underflow, writer.buffer@, writer.bit_index)) == enc_view(
                *low,
                *high,
                *underflow,
                writer.buffer@,
                writer.bit_index,
            ));
            break;
        }
        proof {
            assert(pow2(it + 1) == 2 * pow2(it));
            assert(writer.bit_index + *underflow - b0 == it + 1);
            assert((*high - *low + 1) >= pow2(it + 1) * rw0) by (nonlinear_arith)
                requires
                    (*high - *low + 1) >= 2 * (pow2(it) * rw0) ,
                    pow2(it + 1) == 2 * pow2(it);
        }
    }
    proof {
        let it = (writer.bit_index + *underflow - b0) as nat;
        if it >= 33 {
            lemma_pow2_grows(it);
            assert(pow2(it) * rw0 >= pow2(it)) by (nonlinear_arith)
                requires rw0 >= 1, pow2(it) >= 1;
        }
    }
}

/// A range-coded concept stream: the bytes and the number of meaningful bits.
#[derive(Debug, Clone, PartialEq, Eq)]
pub struct EncodedConcepts {
    pub bytes: Vec<u8>,
    pub bit_len: usize,
}

pub(crate) proof fn lemma_step_cum_facts(m: RadicalModel, step: int, rc: u8, rf: u8, sym: int)
    requires
        0 <= sym < 256,
        m.alpha >= 1,
        model_fits(m, 0),
        0 <= step < 3,
    ensures
        0 <= step_cum(m, step, rc, rf, sym) < step_cum(m, step, rc, rf, sym + 1) <= step_cum(m, step, rc, rf, 256),
        step_cum(m, step, rc, rf, 256) <= 0x4000_0000,
        step_cum(m, step, rc, rf, 256) >= 1,
{
    let t = step_table(m, step);
    let key = step_key(m, step, rc, rf);
    lemma_mass_below_step(t, key, sym);
    lemma_mass_below_bounds(t, key, sym, sym + 1);
    lemma_mass_below_bounds(t, key, sym + 1, 256);
    assert(sym * m.alpha + m.alpha == (sym + 1) * m.alpha) by (nonlinear_arith);
    assert((sym + 1) * m.alpha <= 256 * m.alpha) by (nonlinear_arith)
        requires sym + 1 <= 256, m.alpha >= 0;
    assert(sym * m.alpha >= 0) by (nonlinear_arith)
        requires sym >= 0, m.alpha >= 0;
}

/// Range-codes the radicals of `concepts` with an adaptive context model
/// (symbol counts start at `alpha` and grow by `weight` per observation).
pub fn encode_concepts(concepts: &[Concept6D], alpha: u32, weight: u32) -> (r: EncodedConcepts)
    requires
        coder_fits(concepts@.len() as int, alpha, weight),
    ensures
        r.bytes@ == encode_spec(concepts@, alpha, weight).buf,
        r.bit_len as nat == encode_spec(concepts@, alpha, weight).nbits,
{
    let ghost cs = concepts@;
    let ghost n = cs.len() as int;
    let mut pred = RadicalPredictor::new(alpha, weight);
    let mut writer = BitWriter { buffer: Vec::new(), bit_index: 0 };
    let mut low: u32 = 0;
    let mut high: u32 = u32::MAX;
    let mut underflow: u32 = 0;
    let mut j: usize = 0;
    assert(cs.subrange(0, 0) =~= Seq::<Concept6D>::empty());
    assert(writer.buffer@ =~= Seq::<u8>::empty());
    proof {
        assert(weight * n >= 0) by (nonlinear_arith)
            requires n >= 0;
    }
    while j < concepts.len()
        invariant
            j <= n,
            cs == concepts@,
            n == cs.len(),
            coder_fits(n, alpha, weight),
            (enc_view(low, high, underflow, writer.buffer@, writer.bit_index), pred@) == enc_run(
                cs.subrange(0, j as int),
                alpha,
                weight,
            ),
            pred@.alpha == alpha,
            pred@.weight == weight,
            low <= high,
            high - low + 1 > 0x4000_0000,
            model_fits(pred@, weight * (n - j)),
            writer.bit_index + underflow <= 96 * j,
            packed(writer.buffer@, writer.bit_index as nat),
        decreases n - j,
    {
        let c: Concept6D = concepts[j];
        let rad = c.radicals();
        let rc: u8 = rad[0];
        let rf: u8 = rad[1];
        let ra: u8 = rad[2];
        let ghost m = pred@;
        let ghost st0 = enc_view(low, high, underflow, writer.buffer@, writer.bit_index);
        proof {
            assert(weight * (n - j) >= 0) by (nonlinear_arith)
                requires n - j >= 0;
            assert(weight * (n - j) == weight * (n - j - 1) + weight) by (nonlinear_arith);
            assert(weight * (n - j - 1) >= 0) by (nonlinear_arith)
                requires n - j - 1 >= 0;
            assert(model_fits(m, 0));
        }
        let mut step: usize = 0;
        while step < 3
            invariant
                step <= 3,
                pred@ == m,
                m.alpha == alpha,
                alpha >= 1,
                model_fits(m, 0),
                low <= high,
                high - low + 1 > 0x4000_0000,
                packed(writer.buffer@, writer.bit_index as nat),
                writer.bit_index + underflow <= 96 * j + 32 * step,
                96 * n + 1 <= u32::MAX,
                j < n,
                rad@ == c.radicals_spec(),
                rc == rad@[0] && rf == rad@[1] && ra == rad@[2],
                enc_view(low, high, underflow, writer.buffer@, writer.bit_index) == (if step == 0 {
                    st0
                } else if step == 1 {
                    enc_symbol(st0, m, 0, rc, rf, rc)
                } else if step == 2 {
                    enc_symbol(enc_symbol(st0, m, 0, rc, rf, rc), m, 1, rc, rf, rf)
                } else {
                    enc_concept(st0, m, c)
                }),
            decreases 3 - step,
        {
            let cum = pred.cum_freqs(step, rc, rf);
            let sym: u8 = if step == 0 { rc } else if step == 1 { rf } else { ra };
            proof {
                lemma_step_cum_facts(m, step as int, rc, rf, sym as int);
            }
            let ghost before = enc_view(low, high, underflow, writer.buffer@, writer.bit_index);
            code_symbol(&mut low, &mut high, &mut underflow, &mut writer, cum[sym as usize], cum[sym as usize + 1], cum[256]);
            assert(enc_view(low, high, underflow, writer.buffer@, writer.bit_index) == enc_symbol(before, m, step as int, rc, rf, sym));
            step += 1;
        }
        proof {
            assert(model_fits(m, weight as int + weight * (n - j - 1)));
            lemma_observe_fits(m, rc, rf, ra, weight * (n - j - 1));
        }
        pred.observe(rc, rf, ra);
        proof {
            let pre = cs.subrange(0, j + 1);
            assert(pre.drop_last() =~= cs.subrange(0, j as int));
            assert(pre.last() == c);
        }
        j += 1;
    }
    assert(cs.subrange(0, n) =~= cs);
    let ghost st = enc_view(low, high, underflow, writer.buffer@, writer.bit_index);
    underflow = underflow + 1;
    let bit: u8 = if low < 0x4000_0000 { 0 } else { 1 };
    writer.write_bit_with_underflow(&mut underflow, bit);
    EncodedConcepts { bytes: writer.buffer, bit_len: writer.bit_index }
}

/// State of the range decoder: the interval, the code value and the reader's
/// bit position.
pub struct DecState {
    pub low: u32,
    pub high: u32,
    pub value: u32,
    pub pos: nat,
}

/// Bit number `pos` of `buf` (0 past the end) and the position after reading it
/// (reading past the end does not advance).
pub open spec fn read_bit_at(buf: Seq<u8>, pos: nat) -> (u8, nat) {
    if pos >= buf.len() * 8 {
        (0u8, pos)
    } else {
        ((buf[(pos / 8) as int] >> ((7 - pos % 8) as u8)) & 1u8, pos + 1)
    }
}

/// Reads `k` bits into `v` from position `pos`.
pub open spec fn read_bits(buf: Seq<u8>, pos: nat, v: u32, k: nat) -> (u32, nat)
    decreases k,
{
    if k == 0 {
        (v, pos)
    } else {
        let (b, p) = read_bit_at(buf, pos);
        read_bits(buf, p, (((v as int) * 2) % 0x1_0000_0000 + b) as u32, (k - 1) as nat)
    }
}

/// Renormalization of the decoder, mirroring the encoder's and shifting a bit
/// of input into the code value at each step.
pub open spec fn dec_renorm(st: DecState, buf: Seq<u8>) -> DecState
    decreases 0x1_0000_0000 - (st.high - st.low + 1),
{
    let (b, p) = read_bit_at(buf, st.pos);
    if st.low > st.high {
        st
    } else if st.high < 0x8000_0000 {
        dec_renorm(
            DecState { low: (2 * st.low) as u32, high: (2 * st.high + 1) as u32, value: (2 * st.value + b) as u32, pos: p },
            buf,
        )
    } else if st.low >= 0x8000_0000 {
        dec_renorm(
            DecState {
                low: (2 * (st.low - 0x8000_0000)) as u32,
                high: (2 * (st.high - 0x8000_0000) + 1) as u32,
                value: (2 * (st.value - 0x8000_0000) + b) as u32,
                pos: p,
            },
            buf,
        )
    } else if st.low >= 0x4000_0000 && st.high < 0xC000_0000 {
        dec_renorm(
            DecState {
                low: (2 * (st.low - 0x4000_0000)) as u32,
                high: (2 * (st.high - 0x4000_0000) + 1) as u32,
                value: (2 * (st.value - 0x4000_0000) + b) as u32,
                pos: p,
            },
            buf,
        )
    } else {
        st
    }
}

/// The smallest symbol `s` from `from` on with `x < cum[s + 1]` (0 when none).
pub open spec fn symbol_above(cum: Seq<u32>, x: int, from: int) -> int
    decreases 256 - from,
{
    if from < 0 || from >= 256 {
        0
    } else if x < cum[from + 1] {
        from
    } else {
        symbol_above(cum, x, from + 1)
    }
}

/// Cumulative frequencies of radical number `step` as 32-bit values.
pub open spec fn cum_table(m: RadicalModel, step: int, rc: u8, rf: u8) -> Seq<u32> {
    Seq::new(257, |i: int| step_cum(m, step, rc, rf, i) as u32)
}

/// Narrows the decoder interval to the symbol whose share of `cum` holds the
/// scaled code value, then renormalizes; the state and the symbol.
pub open spec fn dec_narrow(st: DecState, buf: Seq<u8>, cum: Seq<u32>) -> (DecState, u8) {
    let total = cum[256] as int;
    let rw = st.high - st.low + 1;
    let scaled = ((st.value - st.low + 1) * total - 1) / rw;
    let s = symbol_above(cum, scaled, 0);
    (
        dec_renorm(
            DecState {
                low: (st.low + rw * cum[s] / total) as u32,
                high: (st.low + rw * cum[s + 1] / total - 1) as u32,
                ..st
            },
            buf,
        ),
        s as u8,
    )
}

/// Decodes radical number `step`: the state afterwards and the radical.
pub open spec fn dec_symbol(st: DecState, buf: Seq<u8>, m: RadicalModel, step: int, rc: u8, rf: u8) -> (DecState, u8) {
    dec_narrow(st, buf, cum_table(m, step, rc, rf))
}

/// Decodes the three radicals of one concept in turn.
pub open spec fn dec_concept(st: DecState, buf: Seq<u8>, m: RadicalModel) -> (DecState, (u8, u8, u8)) {
    let (s0, rc) = dec_symbol(st, buf, m, 0, 0, 0);
    let (s1, rf) = dec_symbol(s0, buf, m, 1, rc, 0);
    let (s2, ra) = dec_symbol(s1, buf, m, 2, rc, rf);
    (s2, (rc, rf, ra))
}

/// Decoder state, model and concepts after decoding `count` concepts.
pub open spec fn dec_run(buf: Seq<u8>, count: nat, alpha: u32, weight: u32) -> (DecState, RadicalModel, Seq<Concept6D>)
    decreases count,
{
    if count == 0 {
        let (v, p) = read_bits(buf, 0, 0, 32);
        (DecState { low: 0, high: u32::MAX, value: v, pos: p }, model_new(alpha, weight), Seq::empty())
    } else {
        let (st, m, cs) = dec_run(buf, (count - 1) as nat, alpha, weight);
        let (st2, r) = dec_concept(st, buf, m);
        (st2, model_observe(m, r.0, r.1, r.2), cs.push(concept_of_radicals(r.0, r.1, r.2)))
    }
}

/// The concepts decoded from `buf`.
pub open spec fn decode_spec(buf: Seq<u8>, count: nat, alpha: u32, weight: u32) -> Seq<Concept6D> {
    dec_run(buf, count, alpha, weight).2
}

proof fn lemma_decode_narrow(v: int, rw: int, total: int, cl: int, ch: int, scaled: int)
    requires
        0 <= v < rw,
        rw >= total >= 1,
        scaled == ((v + 1) * total - 1) / rw,
        0 <= cl <= scaled < ch,
    ensures
        rw * cl / total <= v,
        v <= rw * ch / total - 1,
{
    assert((v + 1) * total - 1 >= 0) by (nonlinear_arith)
        requires v >= 0, total >= 1;
    assert(scaled * rw <= (v + 1) * total - 1) by (nonlinear_arith)
        requires scaled == ((v + 1) * total - 1) / rw, rw >= 1, (v + 1) * total - 1 >= 0;
    assert(cl * rw <= scaled * rw) by (nonlinear_arith)
        requires cl <= scaled, rw >= 1;
    assert(rw * cl < (v + 1) * total) by (nonlinear_arith)
        requires cl * rw <= scaled * rw, scaled * rw <= (v + 1) * total - 1;
    assert(rw * cl / total <= v) by (nonlinear_arith)
        requires rw * cl < (v + 1) * total, total >= 1, rw * cl >= 0;
    assert((v + 1) * total - 1 < (scaled + 1) * rw) by (nonlinear_arith)
        requires scaled == ((v + 1) * total - 1) / rw, rw >= 1, (v + 1) * total - 1 >= 0;
    assert((scaled + 1) * rw <= ch * rw) by (nonlinear_arith)
        requires scaled + 1 <= ch, rw >= 1;
    assert((v + 1) * total <= rw * ch) by (nonlinear_arith)
        requires (v + 1) * total - 1 < (scaled + 1) * rw, (scaled + 1) * rw <= ch * rw;
    assert(v + 1 <= rw * ch / total) by (nonlinear_arith)
        requires (v + 1) * total <= rw * ch, total >= 1, v + 1 >= 0;
}

/// Reads bits most significant first; past the end it yields zeros.
struct BitReader<'a> {
    buffer: &'a [u8],
    bit_index: usize,
}

impl<'a> BitReader<'a> {
    fn new(buffer: &'a [u8]) -> (r: Self)
        ensures
            r.buffer@ == buffer@,
            r.bit_index == 0,
    {
        BitReader { buffer, bit_index: 0 }
    }

    fn read_bit(&mut self) -> (bit: u8)
        requires
            old(self).bit_index as int <= old(self).buffer@.len() * 8,
            old(self).buffer@.len() <= usize::MAX / 8,
        ensures
            (bit, final(self).bit_index as nat) == read_bit_at(old(self).buffer@, old(self).bit_index as nat),
            final(self).buffer@ == old(self).buffer@,
            final(self).bit_index as int <= final(self).buffer@.len() * 8,
            bit <= 1,
    {
        if self.bit_index / 8 >= self.buffer.len() {
            return 0;
        }
        let byte_pos: usize = self.bit_index / 8;
        let bit_pos: u8 = (7 - (self.bit_index % 8)) as u8;
        let byte: u8 = self.buffer[byte_pos];
        let bit: u8 = (byte >> bit_pos) & 1;
        assert(((byte >> bit_pos) & 1u8) <= 1u8) by (bit_vector);
        self.bit_index += 1;
        bit
    }
}

pub(crate) proof fn lemma_symbol_above(cum: Seq<u32>, x: int, from: int, s: int)
    requires
        0 <= from <= s < 256,
        cum.len() == 257,
        x < cum[s + 1],
        forall|t: int| from <= t < s ==> #[trigger] cum[t + 1] <= x,
    ensures
        symbol_above(cum, x, from) == s,
    decreases s - from,
{
    if from < s {
        lemma_symbol_above(cum, x, from + 1, s);
    }
}

proof fn lemma_symbol_none(cum: Seq<u32>, x: int, from: int)
    requires
        0 <= from <= 256,
        cum.len() == 257,
        forall|t: int| from <= t < 256 ==> #[trigger] cum[t + 1] <= x,
    ensures
        symbol_above(cum, x, from) == 0,
    decreases 256 - from,
{
    if from < 256 {
        lemma_symbol_none(cum, x, from + 1);
    }
}

/// Binary search for the symbol whose cumulative range holds `scaled`.
fn find_symbol(cum: &[u32; 257], scaled: u64) -> (r: u8)
    requires
        forall|i: int, j: int| 0 <= i <= j <= 256 ==> cum@[i] <= cum@[j],
    ensures
        r as int == symbol_above(cum@, scaled as int, 0),
{
    let mut left: i32 = 0;
    let mut right: i32 = 255;
    while left <= right
        invariant
            0 <= left <= 256,
            -1 <= right <= 255,
            left <= right + 1,
            forall|i: int, j: int| 0 <= i <= j <= 256 ==> cum@[i] <= cum@[j],
            forall|t: int| 0 <= t < left ==> #[trigger] cum@[t + 1] <= scaled,
            forall|t: int| right < t <= 255 ==> scaled < #[trigger] cum@[t],
        decreases right - left + 1,
    {
        let mid: i32 = (left + right) / 2;
        let lo: u64 = cum[mid as usize] as u64;
        let hi: u64 = cum[mid as usize + 1] as u64;
        if lo <= scaled && scaled < hi {
            proof {
                assert forall|t: int| 0 <= t < mid implies #[trigger] cum@[t + 1] <= scaled by {
                    assert(cum@[t + 1] <= cum@[mid as int]);
                }
                lemma_symbol_above(cum@, scaled as int, 0, mid as int);
            }
            return mid as u8;
        }
        if scaled >= hi {
            assert forall|t: int| 0 <= t < mid + 1 implies #[trigger] cum@[t + 1] <= scaled by {
                assert(cum@[t + 1] <= cum@[mid + 1]);
            }
            left = mid + 1;
        } else {
            assert forall|t: int| mid - 1 < t <= 255 implies scaled < #[trigger] cum@[t] by {
                assert(cum@[mid as int] <= cum@[t]);
            }
            right = mid - 1;
        }
    }
    proof {
        if left == 0 {
            lemma_symbol_above(cum@, scaled as int, 0, 0);
        } else if left <= 255 {
            let t = left - 1;
            assert(cum@[t + 1] <= scaled);
            assert(scaled < cum@[left as int]);
        } else {
            lemma_symbol_none(cum@, scaled as int, 0);
        }
    }
    0
}

/// The decoder state held in executable variables.
pub open spec fn dec_view(low: u32, high: u32, value: u32, pos: usize) -> DecState {
    DecState { low, high, value, pos: pos as nat }
}

fn decode_symbol(low: &mut u32, high: &mut u32, value: &mut u32, reader: &mut BitReader, cum: &[u32; 257]) -> (sym: u8)
    requires
        *old(low) <= *old(value) <= *old(high),
        *old(high) - *old(low) + 1 >= cum@[256] >= 1,
        cum@[256] <= 0x4000_0000,
        cum@[0] == 0,
        forall|i: int, j: int| 0 <= i <= j <= 256 ==> cum@[i] <= cum@[j],
        old(reader).bit_index as int <= old(reader).buffer@.len() * 8,
        old(reader).buffer@.len() <= usize::MAX / 8,
    ensures
        (dec_view(*final(low), *final(high), *final(value), final(reader).bit_index), sym) == dec_narrow(
            dec_view(*old(low), *old(high), *old(value), old(reader).bit_index),
            old(reader).buffer@,
            cum@,
        ),
        *final(low) <= *final(value) <= *final(high),
        *final(high) - *final(low) + 1 > 0x4000_0000,
        final(reader).buffer@ == old(reader).buffer@,
        final(reader).bit_index as int <= final(reader).buffer@.len() * 8,
{
    let ghost buf = reader.buffer@;
    let ghost start = dec_view(*low, *high, *value, reader.bit_index);
    let total: u64 = cum[256] as u64;
    let range_width: u64 = *high as u64 - *low as u64 + 1;
    let v: u64 = *value as u64 - *low as u64;
    proof {
        assert((v + 1) * total <= 0x1_0000_0000u64 * 0x4000_0000u64) by (nonlinear_arith)
            requires v + 1 <= 0x1_0000_0000u64, total <= 0x4000_0000u64;
        assert((v + 1) * total >= 1) by (nonlinear_arith)
            requires v + 1 >= 1, total >= 1;
    }
    let scaled: u64 = ((v + 1) * total - 1) / range_width;
    proof {
        assert(scaled < total) by (nonlinear_arith)
            requires
                scaled as int == ((v as int + 1) * total as int - 1) / range_width as int,
                v + 1 <= range_width,
                total >= 1,
                range_width >= 1;
    }
    let sym: u8 = find_symbol(cum, scaled);
    let s: usize = sym as usize;
    proof {
        let sa = symbol_above(cum@, scaled as int, 0);
        assert(scaled < cum@[256int]);
        lemma_symbol_above_exists(cum@, scaled as int, 0);
        lemma_decode_narrow(v as int, range_width as int, total as int, cum@[s as int] as int, cum@[s + 1] as int, scaled as int);
        lemma_narrow(*low as int, *high as int, cum@[s as int] as int, cum@[s + 1] as int, total as int);
        assert(range_width * (cum@[s + 1] as u64) <= 0x1_0000_0000u64 * 0x4000_0000u64) by (nonlinear_arith)
            requires range_width <= 0x1_0000_0000u64, cum@[s + 1] <= 0x4000_0000u32;
        assert(range_width * (cum@[s as int] as u64) <= 0x1_0000_0000u64 * 0x4000_0000u64) by (nonlinear_arith)
            requires range_width <= 0x1_0000_0000u64, cum@[s as int] <= 0x4000_0000u32;
    }
    let new_high: u64 = *low as u64 + (range_width * cum[s + 1] as u64) / total - 1;
    let new_low: u64 = *low as u64 + (range_width * cum[s] as u64) / total;
    *high = new_high as u32;
    *low = new_low as u32;
    let ghost target = dec_narrow(start, buf, cum@).0;
    assert(dec_renorm(dec_view(*low, *high, *value, reader.bit_index), buf) == target);
    loop
        invariant
            *low <= *value <= *high,
            dec_renorm(dec_view(*low, *high, *value, reader.bit_index), buf) == target,
            reader.buffer@ == buf,
            reader.bit_index as int <= buf.len() * 8,
            buf.len() <= usize::MAX / 8,
        ensures
            *low <= *value <= *high,
            *high - *low + 1 > 0x4000_0000,
            dec_view(*low, *high, *value, reader.bit_index) == target,
            reader.buffer@ == buf,
            reader.bit_index as int <= buf.len() * 8,
        decreases 0x1_0000_0000 - (*high - *low + 1),
    {
        if *high < 0x8000_0000 {
            let bit: u8 = reader.read_bit();
            *low = *low * 2;
            *high = *high * 2 + 1;
            *value = *value * 2 + bit as u32;
        } else if *low >= 0x8000_0000 {
            let bit: u8 = reader.read_bit();
            *low = (*low - 0x8000_0000) * 2;
            *high = (*high - 0x8000_0000) * 2 + 1;
            *value = (*value - 0x8000_0000) * 2 + bit as u32;
        } else if *low >= 0x4000_0000 && *high < 0xC000_0000 {
            let bit: u8 = reader.read_bit();
            *low = (*low - 0x4000_0000) * 2;
            *high = (*high - 0x4000_0000) * 2 + 1;
            *value = (*value - 0x4000_0000) * 2 + bit as u32;
        } else {
            assert(dec_renorm(dec_view(*low, *high, *value, reader.bit_index), buf) == dec_view(
                *low,
                *high,
                *value,
                reader.bit_index,
            ));
            break;
        }
    }
    sym
}

proof fn lemma_symbol_above_exists(cum: Seq<u32>, x: int, from: int)
    requires
        0 <= from < 256,
        cum.len() == 257,
        x < cum[256],
        from == 0 ==> cum[0] <= x,
        from > 0 ==> cum[from] <= x,
    ensures
        from <= symbol_above(cum, x, from) < 256,
        cum[symbol_above(cum, x, from)] <= x < cum[symbol_above(cum, x, from) + 1],
    decreases 256 - from,
{
    if !(x < cum[from + 1]) {
        lemma_symbol_above_exists(cum, x, from + 1);
    }
}

pub(crate) proof fn lemma_cum_table(m: RadicalModel, step: int, rc: u8, rf: u8, cum: Seq<u32>)
    requires
        0 <= step < 3,
        m.alpha >= 1,
        model_fits(m, 0),
        cum.len() == 257,
        forall|i: int| 0 <= i <= 256 ==> #[trigger] cum[i] as int == step_cum(m, step, rc, rf, i),
    ensures
        cum == cum_table(m, step, rc, rf),
        cum[0] == 0,
        1 <= cum[256] <= 0x4000_0000,
        forall|i: int, j: int| 0 <= i <= j <= 256 ==> cum[i] <= cum[j],
{
    assert forall|i: int, j: int| 0 <= i <= j <= 256 implies cum[i] <= cum[j] by {
        let t = step_table(m, step);
        let key = step_key(m, step, rc, rf);
        lemma_mass_below_bounds(t, key, i, j);
        assert(i * m.alpha <= j * m.alpha) by (nonlinear_arith)
            requires i <= j, m.alpha >= 0;
    }
    lemma_step_cum_facts(m, step, rc, rf, 0);
    lemma_mass_below_zero(step_table(m, step), step_key(m, step, rc, rf));
    assert(cum =~= cum_table(m, step, rc, rf));
}

/// Decodes `concept_count` concepts from a range-coded stream made with the
/// same `alpha` and `weight`.
pub fn decode_concepts(encoded: &[u8], concept_count: usize, alpha: u32, weight: u32) -> (r: Vec<Concept6D>)
    requires
        decoder_fits(concept_count as int, alpha, weight),
        encoded@.len() <= usize::MAX / 8,
    ensures
        r@ == decode_spec(encoded@, concept_count as nat, alpha, weight),
{
    let ghost buf = encoded@;
    let ghost n = concept_count as int;
    let mut pred = RadicalPredictor::new(alpha, weight);
    let mut reader = BitReader::new(encoded);
    let mut value: u32 = 0;
    let mut k: usize = 0;
    while k < 32
        invariant
            k <= 32,
            reader.buffer@ == buf,
            reader.bit_index as int <= buf.len() * 8,
            buf.len() <= usize::MAX / 8,
            read_bits(buf, 0, 0, 32) == read_bits(buf, reader.bit_index as nat, value, (32 - k) as nat),
        decreases 32 - k,
    {
        let bit: u8 = reader.read_bit();
        proof {
            assert((value as int * 2) % 0x1_0000_0000 == (value % 0x8000_0000) as int * 2) by (nonlinear_arith)
                requires 0 <= value < 0x1_0000_0000;
        }
        value = (value % 0x8000_0000) * 2 + bit as u32;
        k += 1;
    }
    let mut low: u32 = 0;
    let mut high: u32 = u32::MAX;
    let mut decoded: Vec<Concept6D> = Vec::new();
    let mut j: usize = 0;
    assert(decoded@ =~= Seq::<Concept6D>::empty());
    proof {
        assert(weight * n >= 0) by (nonlinear_arith)
            requires n >= 0;
    }
    while j < concept_count
        invariant
            j <= n,
            n == concept_count,
            decoder_fits(n, alpha, weight),
            reader.buffer@ == buf,
            reader.bit_index as int <= buf.len() * 8,
            buf.len() <= usize::MAX / 8,
            (dec_view(low, high, value, reader.bit_index), pred@, decoded@) == dec_run(buf, j as nat, alpha, weight),
            pred@.alpha == alpha,
            pred@.weight == weight,
            low <= value <= high,
            high - low + 1 > 0x4000_0000,
            model_fits(pred@, weight * (n - j)),
        decreases n - j,
    {
        let ghost m = pred@;
        let ghost st0 = dec_view(low, high, value, reader.bit_index);
        proof {
            assert(weight * (n - j) >= 0) by (nonlinear_arith)
                requires n - j >= 0;
            assert(weight * (n - j) == weight * (n - j - 1) + weight) by (nonlinear_arith);
            assert(weight * (n - j - 1) >= 0) by (nonlinear_arith)
                requires n - j - 1 >= 0;
            assert(model_fits(m, 0));
        }
        let cum0 = pred.cum_freqs(0, 0, 0);
        proof {
            lemma_cum_table(m, 0, 0, 0, cum0@);
        }
        let rc: u8 = decode_symbol(&mut low, &mut high, &mut value, &mut reader, &cum0);
        let cum1 = pred.cum_freqs(1, rc, 0);
        proof {
            lemma_cum_table(m, 1, rc, 0, cum1@);
        }
        let rf: u8 = decode_symbol(&mut low, &mut high, &mut value, &mut reader, &cum1);
        let cum2 = pred.cum_freqs(2, rc, rf);
        proof {
            lemma_cum_table(m, 2, rc, rf, cum2@);
        }
        let ra: u8 = decode_symbol(&mut low, &mut high, &mut value, &mut reader, &cum2);
        let c = Concept6D::from_radicals([rc, rf, ra]);
        decoded.push(c);
        proof {
            assert([rc, rf, ra]@ =~= seq![rc, rf, ra]);
            lemma_observe_fits(m, rc, rf, ra, weight * (n - j - 1));
        }
        pred.observe(rc, rf, ra);
        j += 1;
    }
    decoded
}

/// Decodes a range-coded stream and projects each concept onto a vocabulary id.
pub fn range_coded_concepts_to_vocab_ids(
    bytes: &[u8],
    concept_count: usize,
    alpha: u32,
    weight: u32,
    vocab_size: usize,
) -> (r: Vec<usize>)
    requires
        decoder_fits(concept_count as int, alpha, weight),
        bytes@.len() <= usize::MAX / 8,
        vocab_size > 0,
    ensures
        r@.len() == concept_count,
        forall|i: int| 0 <= i < r@.len() ==> #[trigger] r@[i] == splitmix64_spec(
            decode_spec(bytes@, concept_count as nat, alpha, weight)[i].code_spec(),
        ) as usize % vocab_size,
{
    let concepts = decode_concepts(bytes, concept_count, alpha, weight);
    proof {
        lemma_decode_len(bytes@, concept_count as nat, alpha, weight);
    }
    concepts_to_vocab_ids(concepts.as_slice(), vocab_size)
}

pub(crate) proof fn lemma_decode_len(buf: Seq<u8>, count: nat, alpha: u32, weight: u32)
    ensures
        decode_spec(buf, count, alpha, weight).len() == count,
    decreases count,
{
    if count > 0 {
        lemma_decode_len(buf, (count - 1) as nat, alpha, weight);
    }
}

} // verus!
