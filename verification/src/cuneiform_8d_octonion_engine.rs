//! 8D octonion hypercube concepts: eight 4-bit axes packed into one 32-bit
//! word, and a variable-length geodesic trajectory codec.

use vstd::prelude::*;

verus! {

/// An 8D concept: context, function, affect and truth axes, 4 bits each.
#[derive(Debug, Clone, Copy, PartialEq, Eq)]
pub struct Concept8D {
    pub domain: u8,
    pub subdomain: u8,
    pub operation: u8,
    pub modality: u8,
    pub strength: u8,
    pub polarity: u8,
    pub temporal_horizon: u8,
    pub epistemic_certainty: u8,
}

/// Absolute difference of two axis values.
pub open spec fn gap(a: u8, b: u8) -> int {
    if a >= b { a - b } else { b - a }
}

/// The concept holding the nibbles of four radical bytes.
pub open spec fn concept8_of_bytes(b0: u8, b1: u8, b2: u8, b3: u8) -> Concept8D {
    Concept8D {
        domain: (b0 >> 4u8) & 0x0F,
        subdomain: b0 & 0x0F,
        operation: (b1 >> 4u8) & 0x0F,
        modality: b1 & 0x0F,
        strength: (b2 >> 4u8) & 0x0F,
        polarity: b2 & 0x0F,
        temporal_horizon: (b3 >> 4u8) & 0x0F,
        epistemic_certainty: b3 & 0x0F,
    }
}

impl Concept8D {
    /// Every axis is a 4-bit value.
    pub open spec fn wf(self) -> bool {
        self.domain < 16 && self.subdomain < 16 && self.operation < 16 && self.modality < 16
            && self.strength < 16 && self.polarity < 16 && self.temporal_horizon < 16
            && self.epistemic_certainty < 16
    }

    /// The four radical bytes [context, function, affect, truth].
    pub open spec fn radicals_spec(self) -> Seq<u8> {
        seq![
            (self.domain << 4u8) | (self.subdomain & 0x0F),
            (self.operation << 4u8) | (self.modality & 0x0F),
            (self.strength << 4u8) | (self.polarity & 0x0F),
            (self.temporal_horizon << 4u8) | (self.epistemic_certainty & 0x0F),
        ]
    }

    /// L1 distance over the eight axes.
    pub open spec fn distance_spec(self, o: Self) -> int {
        gap(self.domain, o.domain) + gap(self.subdomain, o.subdomain) + gap(self.operation, o.operation)
            + gap(self.modality, o.modality) + gap(self.strength, o.strength) + gap(
            self.polarity,
            o.polarity,
        ) + gap(self.temporal_horizon, o.temporal_horizon) + gap(
            self.epistemic_certainty,
            o.epistemic_certainty,
        )
    }

    /// Builds a concept from the low nibbles of the arguments.
    pub fn new(
        domain: u8,
        subdomain: u8,
        operation: u8,
        modality: u8,
        strength: u8,
        polarity: u8,
        temporal: u8,
        certainty: u8,
    ) -> (r: Self)
        ensures
            r == (Concept8D {
                domain: domain & 0x0F,
                subdomain: subdomain & 0x0F,
                operation: operation & 0x0F,
                modality: modality & 0x0F,
                strength: strength & 0x0F,
                polarity: polarity & 0x0F,
                temporal_horizon: temporal & 0x0F,
                epistemic_certainty: certainty & 0x0F,
            }),
            r.wf(),
    {
        proof {
            lemma_nib(domain);
            lemma_nib(subdomain);
            lemma_nib(operation);
            lemma_nib(modality);
            lemma_nib(strength);
            lemma_nib(polarity);
            lemma_nib(temporal);
            lemma_nib(certainty);
        }
        Self {
            domain: domain & 0x0F,
            subdomain: subdomain & 0x0F,
            operation: operation & 0x0F,
            modality: modality & 0x0F,
            strength: strength & 0x0F,
            polarity: polarity & 0x0F,
            temporal_horizon: temporal & 0x0F,
            epistemic_certainty: certainty & 0x0F,
        }
    }

    /// Packs into four radical bytes.
    pub fn to_radicals(&self) -> (r: [u8; 4])
        ensures
            r@ == self.radicals_spec(),
    {
        let rc: u8 = (self.domain << 4) | (self.subdomain & 0x0F);
        let rf: u8 = (self.operation << 4) | (self.modality & 0x0F);
        let ra: u8 = (self.strength << 4) | (self.polarity & 0x0F);
        let rt: u8 = (self.temporal_horizon << 4) | (self.epistemic_certainty & 0x0F);
        let r = [rc, rf, ra, rt];
        assert(r@ =~= self.radicals_spec());
        r
    }

    /// Packs into one 32-bit word, radicals in big-endian order.
    pub fn to_dword(&self) -> (r: u32)
        ensures
            r == dword_of(self.radicals_spec()),
    {
        let rad = self.to_radicals();
        ((rad[0] as u32) << 24) | ((rad[1] as u32) << 16) | ((rad[2] as u32) << 8) | (rad[3] as u32)
    }

    /// Unpacks a 32-bit word, radicals in big-endian order.
    pub fn from_dword(dword: u32) -> (r: Self)
        ensures
            r == concept8_of_bytes(
                (dword >> 24u32) as u8,
                (dword >> 16u32) as u8,
                (dword >> 8u32) as u8,
                dword as u8,
            ),
            r.wf(),
    {
        let b0: u8 = (dword >> 24) as u8;
        let b1: u8 = (dword >> 16) as u8;
        let b2: u8 = (dword >> 8) as u8;
        let b3: u8 = dword as u8;
        proof {
            lemma_byte_nibbles(b0);
            lemma_byte_nibbles(b1);
            lemma_byte_nibbles(b2);
            lemma_byte_nibbles(b3);
        }
        Self {
            domain: (b0 >> 4) & 0x0F,
            subdomain: b0 & 0x0F,
            operation: (b1 >> 4) & 0x0F,
            modality: b1 & 0x0F,
            strength: (b2 >> 4) & 0x0F,
            polarity: b2 & 0x0F,
            temporal_horizon: (b3 >> 4) & 0x0F,
            epistemic_certainty: b3 & 0x0F,
        }
    }

    /// 8D Manhattan distance.
    pub fn distance(&self, other: &Self) -> (r: u32)
        ensures
            r == self.distance_spec(*other),
    {
        let d1: u32 = abs_gap(self.domain, other.domain);
        let d2: u32 = abs_gap(self.subdomain, other.subdomain);
        let d3: u32 = abs_gap(self.operation, other.operation);
        let d4: u32 = abs_gap(self.modality, other.modality);
        let d5: u32 = abs_gap(self.strength, other.strength);
        let d6: u32 = abs_gap(self.polarity, other.polarity);
        let d7: u32 = abs_gap(self.temporal_horizon, other.temporal_horizon);
        let d8: u32 = abs_gap(self.epistemic_certainty, other.epistemic_certainty);
        d1 + d2 + d3 + d4 + d5 + d6 + d7 + d8
    }
}

fn abs_gap(a: u8, b: u8) -> (r: u32)
    ensures
        r == gap(a, b),
        r <= 255,
{
    if a >= b {
        (a - b) as u32
    } else {
        (b - a) as u32
    }
}

/// Big-endian word of four bytes.
pub open spec fn dword_of(r: Seq<u8>) -> u32 {
    ((r[0] as u32) << 24u32) | ((r[1] as u32) << 16u32) | ((r[2] as u32) << 8u32) | (r[3] as u32)
}

proof fn lemma_nib(x: u8)
    ensures
        x & 0x0F < 16,
{
    assert(x & 0x0F < 16) by (bit_vector);
}

proof fn lemma_byte_nibbles(x: u8)
    ensures
        (x >> 4u8) & 0x0F < 16,
        x & 0x0F < 16,
{
    assert((x >> 4u8) & 0x0F < 16 && x & 0x0F < 16) by (bit_vector);
}

/// The word of a well-formed concept unpacks to the same concept.
pub proof fn lemma_dword_round_trip(c: Concept8D)
    requires
        c.wf(),
    ensures
        ({
            let w = dword_of(c.radicals_spec());
            concept8_of_bytes((w >> 24u32) as u8, (w >> 16u32) as u8, (w >> 8u32) as u8, w as u8) == c
        }),
{
    let r = c.radicals_spec();
    lemma_radical_pair(c.domain, c.subdomain);
    lemma_radical_pair(c.operation, c.modality);
    lemma_radical_pair(c.strength, c.polarity);
    lemma_radical_pair(c.temporal_horizon, c.epistemic_certainty);
    let (r0, r1, r2, r3) = (r[0], r[1], r[2], r[3]);
    assert({
        let w = ((r0 as u32) << 24u32) | ((r1 as u32) << 16u32) | ((r2 as u32) << 8u32) | (r3 as u32);
        &&& (w >> 24u32) as u8 == r0
        &&& (w >> 16u32) as u8 == r1
        &&& (w >> 8u32) as u8 == r2
        &&& w as u8 == r3
    }) by (bit_vector);
}

proof fn lemma_radical_pair(hi: u8, lo: u8)
    requires
        hi < 16,
        lo < 16,
    ensures
        (((hi << 4u8) | (lo & 0x0F)) >> 4u8) & 0x0F == hi,
        ((hi << 4u8) | (lo & 0x0F)) & 0x0F == lo,
{
    assert((((hi << 4u8) | (lo & 0x0F)) >> 4u8) & 0x0F == hi && ((hi << 4u8) | (lo & 0x0F)) & 0x0F
        == lo) by (bit_vector)
        requires
            hi < 16,
            lo < 16,
    ;
}

// ---------------------------------------------------------------------------
// Trajectory codec
// ---------------------------------------------------------------------------

/// Bytes that encode the step from `prev` to `curr`.
pub open spec fn step_bytes(prev: Concept8D, curr: Concept8D) -> Seq<u8> {
    let dist = prev.distance_spec(curr);
    if dist == 0 {
        seq![0x00u8]
    } else if prev.domain == curr.domain && prev.subdomain == curr.subdomain && dist <= 8 {
        seq![
            0x40u8 | ((curr.operation & 0x07) << 3u8) | (curr.modality & 0x07),
            (curr.strength << 4u8) | (curr.polarity & 0x0F),
            (curr.temporal_horizon << 4u8) | (curr.epistemic_certainty & 0x0F),
        ]
    } else {
        seq![0xC0u8] + curr.radicals_spec()
    }
}

/// Step bytes for the steps of `t` up to index `n`.
pub open spec fn steps_upto(t: Seq<Concept8D>, n: int) -> Seq<u8>
    decreases n,
{
    if n <= 1 {
        seq![]
    } else {
        steps_upto(t, n - 1) + step_bytes(t[n - 2], t[n - 1])
    }
}

/// Encoding of a trajectory.
pub open spec fn trajectory_encoding(t: Seq<Concept8D>) -> Seq<u8> {
    if t.len() == 0 {
        seq![]
    } else {
        t[0].radicals_spec() + steps_upto(t, t.len() as int)
    }
}

/// The concept after a local (mode 01) step from `curr`.
pub open spec fn local_step(curr: Concept8D, b1: u8, b2: u8, b3: u8) -> Concept8D {
    Concept8D {
        operation: (b1 >> 3u8) & 0x07,
        modality: b1 & 0x07,
        strength: (b2 >> 4u8) & 0x0F,
        polarity: b2 & 0x0F,
        temporal_horizon: (b3 >> 4u8) & 0x0F,
        epistemic_certainty: b3 & 0x0F,
        ..curr
    }
}

/// Decoding from byte `idx` on, with current concept `curr` and output so far `acc`.
/// Errors: 1 truncated local step, 2 truncated full escape, 3 invalid mode.
pub open spec fn decode_from(b: Seq<u8>, idx: int, curr: Concept8D, acc: Seq<Concept8D>) -> Result<
    Seq<Concept8D>,
    u8,
>
    decreases b.len() - idx,
{
    if idx < 0 || idx >= b.len() {
        Ok(acc)
    } else {
        let mode = b[idx] >> 6u8;
        if mode == 0 {
            decode_from(b, idx + 1, curr, acc.push(curr))
        } else if mode == 1 {
            if idx + 2 >= b.len() {
                Err(1)
            } else {
                let c = local_step(curr, b[idx], b[idx + 1], b[idx + 2]);
                decode_from(b, idx + 3, c, acc.push(c))
            }
        } else if mode == 3 {
            if idx + 4 >= b.len() {
                Err(2)
            } else {
                let c = concept8_of_bytes(b[idx + 1], b[idx + 2], b[idx + 3], b[idx + 4]);
                decode_from(b, idx + 5, c, acc.push(c))
            }
        } else {
            Err(3)
        }
    }
}

/// Decoding of a trajectory; error 0 marks a payload shorter than the 4-byte base.
pub open spec fn trajectory_decoding(b: Seq<u8>) -> Result<Seq<Concept8D>, u8> {
    if b.len() < 4 {
        Err(0)
    } else {
        let first = concept8_of_bytes(b[0], b[1], b[2], b[3]);
        decode_from(b, 4, first, seq![first])
    }
}

/// The message of each decoding error.
pub open spec fn decode_error_message(code: u8) -> &'static str {
    if code == 0 {
        "Payload too short for 8D base header"
    } else if code == 1 {
        "Unexpected EOF in 8D Mode 01"
    } else if code == 2 {
        "Unexpected EOF in 8D Mode 11"
    } else {
        "Invalid 8D mode header"
    }
}

/// Geodesic 8D stream codec with variable-length modes.
pub struct Geodesic8DCodec;

impl Geodesic8DCodec {
    /// Encodes a trajectory: the first concept as 4 radicals, then per step a
    /// zero byte (no change), a 3-byte local delta, or a 5-byte full escape.
    pub fn encode_trajectory(trajectory: &[Concept8D]) -> (r: Vec<u8>)
        ensures
            r@ == trajectory_encoding(trajectory@),
    {
        let mut out: Vec<u8> = Vec::new();
        if trajectory.len() == 0 {
            return out;
        }
        let first = trajectory[0].to_radicals();
        out.push(first[0]);
        out.push(first[1]);
        out.push(first[2]);
        out.push(first[3]);
        assert(out@ =~= trajectory@[0].radicals_spec() + steps_upto(trajectory@, 1));
        let mut prev: Concept8D = trajectory[0];
        let mut i: usize = 1;
        while i < trajectory.len()
            invariant
                1 <= i <= trajectory@.len(),
                prev == trajectory@[i - 1],
                out@ == trajectory@[0].radicals_spec() + steps_upto(trajectory@, i as int),
            decreases trajectory@.len() - i,
        {
            let curr: Concept8D = trajectory[i];
            let ghost before = out@;
            let dist: u32 = prev.distance(&curr);
            if dist == 0 {
                out.push(0x00);
            } else if prev.domain == curr.domain && prev.subdomain == curr.subdomain && dist <= 8 {
                out.push(0x40 | ((curr.operation & 0x07) << 3) | (curr.modality & 0x07));
                out.push((curr.strength << 4) | (curr.polarity & 0x0F));
                out.push((curr.temporal_horizon << 4) | (curr.epistemic_certainty & 0x0F));
            } else {
                out.push(0xC0);
                let r = curr.to_radicals();
                out.push(r[0]);
                out.push(r[1]);
                out.push(r[2]);
                out.push(r[3]);
            }
            assert(out@ =~= before + step_bytes(prev, curr));
            assert(out@ =~= trajectory@[0].radicals_spec() + steps_upto(trajectory@, i + 1));
            prev = curr;
            i += 1;
        }
        out
    }

    /// Decodes a trajectory.
    pub fn decode_trajectory(bytes: &[u8]) -> (r: Result<Vec<Concept8D>, &'static str>)
        ensures
            match trajectory_decoding(bytes@) {
                Ok(t) => r matches Ok(v) && v@ == t,
                Err(code) => r == Err::<Vec<Concept8D>, &'static str>(decode_error_message(code)),
            },
    {
        if bytes.len() < 4 {
            return Err("Payload too short for 8D base header");
        }
        let first_dword: u32 = ((bytes[0] as u32) << 24) | ((bytes[1] as u32) << 16) | ((bytes[2] as u32) << 8)
            | (bytes[3] as u32);
        proof {
            let (a, b, c, d) = (bytes@[0], bytes@[1], bytes@[2], bytes@[3]);
            assert((first_dword >> 24u32) as u8 == a && (first_dword >> 16u32) as u8 == b && (first_dword
                >> 8u32) as u8 == c && first_dword as u8 == d) by (bit_vector)
                requires
                    first_dword == ((a as u32) << 24u32) | ((b as u32) << 16u32) | ((c as u32) << 8u32) | (
                    d as u32),
            ;
        }
        let mut curr: Concept8D = Concept8D::from_dword(first_dword);
        let mut out: Vec<Concept8D> = Vec::new();
        out.push(curr);
        let ghost first = curr;
        assert(out@ =~= seq![first]);
        let mut idx: usize = 4;
        while idx < bytes.len()
            invariant
                4 <= idx,
                bytes@.len() >= 4,
                first == concept8_of_bytes(bytes@[0], bytes@[1], bytes@[2], bytes@[3]),
                trajectory_decoding(bytes@) == decode_from(bytes@, idx as int, curr, out@),
            decreases bytes@.len() - idx,
        {
            let mode: u8 = bytes[idx] >> 6;
            if mode == 0 {
                out.push(curr);
                idx += 1;
            } else if mode == 1 {
                if bytes.len() - idx <= 2 {
                    return Err("Unexpected EOF in 8D Mode 01");
                }
                let b1: u8 = bytes[idx];
                let b2: u8 = bytes[idx + 1];
                let b3: u8 = bytes[idx + 2];
                curr.operation = (b1 >> 3) & 0x07;
                curr.modality = b1 & 0x07;
                curr.strength = (b2 >> 4) & 0x0F;
                curr.polarity = b2 & 0x0F;
                curr.temporal_horizon = (b3 >> 4) & 0x0F;
                curr.epistemic_certainty = b3 & 0x0F;
                out.push(curr);
                idx += 3;
            } else if mode == 3 {
                if bytes.len() - idx <= 4 {
                    return Err("Unexpected EOF in 8D Mode 11");
                }
                let dword: u32 = ((bytes[idx + 1] as u32) << 24) | ((bytes[idx + 2] as u32) << 16) | ((
                bytes[idx + 3] as u32) << 8) | (bytes[idx + 4] as u32);
                proof {
                    let (a, b, c, d) = (bytes@[idx + 1], bytes@[idx + 2], bytes@[idx + 3], bytes@[idx + 4]);
                    assert((dword >> 24u32) as u8 == a && (dword >> 16u32) as u8 == b && (dword >> 8u32) as u8
                        == c && dword as u8 == d) by (bit_vector)
                        requires
                            dword == ((a as u32) << 24u32) | ((b as u32) << 16u32) | ((c as u32) << 8u32) | (
                            d as u32),
                    ;
                }
                curr = Concept8D::from_dword(dword);
                out.push(curr);
                idx += 5;
            } else {
                return Err("Invalid 8D mode header");
            }
        }
        Ok(out)
    }
}


/// Trajectories the codec reproduces exactly: well-formed concepts whose
/// local (3-byte) steps carry operation and modality values below 8.
pub open spec fn codec_ready(t: Seq<Concept8D>) -> bool {
    &&& t.len() >= 1
    &&& forall|i: int| 0 <= i < t.len() ==> #[trigger] t[i].wf()
    &&& forall|i: int|
        1 <= i < t.len() ==> {
            let d = t[i - 1].distance_spec(t[i]);
            (d != 0 && t[i - 1].domain == #[trigger] t[i].domain && t[i - 1].subdomain
                == t[i].subdomain && d <= 8) ==> t[i].operation < 8 && t[i].modality < 8
        }
}

proof fn lemma_steps_prefix(t: Seq<Concept8D>, a: int, b: int)
    requires
        1 <= a <= b,
    ensures
        steps_upto(t, a).len() <= steps_upto(t, b).len(),
        steps_upto(t, b).subrange(0, steps_upto(t, a).len() as int) == steps_upto(t, a),
    decreases b - a,
{
    if a < b {
        lemma_steps_prefix(t, a, b - 1);
        let sb = steps_upto(t, b);
        let sb1 = steps_upto(t, b - 1);
        assert(sb.subrange(0, sb1.len() as int) =~= sb1);
        assert(sb.subrange(0, steps_upto(t, a).len() as int) =~= sb1.subrange(
            0,
            steps_upto(t, a).len() as int,
        ));
    } else {
        assert(steps_upto(t, b).subrange(0, steps_upto(t, a).len() as int) =~= steps_upto(t, a));
    }
}

proof fn lemma_step_decodes(prev: Concept8D, curr: Concept8D, e: Seq<u8>, pos: int)
    requires
        prev.wf(),
        curr.wf(),
        ({
            let d = prev.distance_spec(curr);
            (d != 0 && prev.domain == curr.domain && prev.subdomain == curr.subdomain && d <= 8)
                ==> curr.operation < 8 && curr.modality < 8
        }),
        0 <= pos,
        pos + step_bytes(prev, curr).len() <= e.len(),
        forall|m: int|
            0 <= m < step_bytes(prev, curr).len() ==> e[pos + m] == #[trigger] step_bytes(prev, curr)[m],
    ensures
        forall|acc: Seq<Concept8D>|
            #![trigger decode_from(e, pos, prev, acc)]
            decode_from(e, pos, prev, acc) == decode_from(
                e,
                pos + step_bytes(prev, curr).len(),
                curr,
                acc.push(curr),
            ),
{
    let sb = step_bytes(prev, curr);
    let dist = prev.distance_spec(curr);
    if dist == 0 {
        assert(sb[0] == 0u8);
        assert(e[pos] == 0u8);
        assert((0u8 >> 6u8) == 0u8) by (bit_vector);
        assert(prev == curr);
    } else if prev.domain == curr.domain && prev.subdomain == curr.subdomain && dist <= 8 {
        let (op, md, st, pl, tm, ce) = (
            curr.operation,
            curr.modality,
            curr.strength,
            curr.polarity,
            curr.temporal_horizon,
            curr.epistemic_certainty,
        );
        let b1 = 0x40u8 | ((op & 0x07) << 3u8) | (md & 0x07);
        let b2 = (st << 4u8) | (pl & 0x0F);
        let b3 = (tm << 4u8) | (ce & 0x0F);
        assert(sb[0] == b1 && sb[1] == b2 && sb[2] == b3);
        assert(e[pos] == b1 && e[pos + 1] == b2 && e[pos + 2] == b3);
        assert(b1 >> 6u8 == 1u8 && (b1 >> 3u8) & 0x07 == op && b1 & 0x07 == md && (b2 >> 4u8) & 0x0F
            == st && b2 & 0x0F == pl && (b3 >> 4u8) & 0x0F == tm && b3 & 0x0F == ce) by (bit_vector)
            requires
                op < 8,
                md < 8,
                st < 16,
                pl < 16,
                tm < 16,
                ce < 16,
                b1 == 0x40u8 | ((op & 0x07) << 3u8) | (md & 0x07),
                b2 == (st << 4u8) | (pl & 0x0F),
                b3 == (tm << 4u8) | (ce & 0x0F),
        ;
        assert(local_step(prev, b1, b2, b3) == curr);
    } else {
        let r = curr.radicals_spec();
        assert(sb[0] == 0xC0u8 && sb[1] == r[0] && sb[2] == r[1] && sb[3] == r[2] && sb[4] == r[3]);
        assert(e[pos] == 0xC0u8);
        assert((0xC0u8 >> 6u8) == 3u8) by (bit_vector);
        assert(e[pos + 1] == r[0] && e[pos + 2] == r[1] && e[pos + 3] == r[2] && e[pos + 4] == r[3]);
        lemma_radical_pair(curr.domain, curr.subdomain);
        lemma_radical_pair(curr.operation, curr.modality);
        lemma_radical_pair(curr.strength, curr.polarity);
        lemma_radical_pair(curr.temporal_horizon, curr.epistemic_certainty);
        assert(concept8_of_bytes(r[0], r[1], r[2], r[3]) == curr);
    }
}

proof fn lemma_step_in_encoding(t: Seq<Concept8D>, k: int)
    requires
        t.len() >= 1,
        1 <= k < t.len(),
    ensures
        ({
            let e = trajectory_encoding(t);
            let pos = 4 + steps_upto(t, k).len();
            let sb = step_bytes(t[k - 1], t[k]);
            &&& pos + sb.len() <= e.len()
            &&& steps_upto(t, k + 1).len() == steps_upto(t, k).len() + sb.len()
            &&& forall|m: int| 0 <= m < sb.len() ==> e[pos + m] == #[trigger] sb[m]
        }),
{
    let n = t.len() as int;
    lemma_steps_prefix(t, k + 1, n);
    let e = trajectory_encoding(t);
    let full = steps_upto(t, n);
    let pre = steps_upto(t, k + 1);
    let lk = steps_upto(t, k).len() as int;
    let sb = step_bytes(t[k - 1], t[k]);
    assert(pre == steps_upto(t, k) + sb);
    assert forall|m: int| 0 <= m < sb.len() implies e[4 + lk + m] == #[trigger] sb[m] by {
        assert(e[4 + lk + m] == full[lk + m]);
        assert(full.subrange(0, pre.len() as int)[lk + m] == full[lk + m]);
        assert(pre[lk + m] == sb[m]);
    }
}

proof fn lemma_decode_suffix(t: Seq<Concept8D>, k: int)
    requires
        codec_ready(t),
        1 <= k <= t.len(),
    ensures
        decode_from(
            trajectory_encoding(t),
            4 + steps_upto(t, k).len() as int,
            t[k - 1],
            t.subrange(0, k),
        ) == Ok::<Seq<Concept8D>, u8>(t),
    decreases t.len() - k,
{
    let e = trajectory_encoding(t);
    let n = t.len() as int;
    if k == n {
        assert(t.subrange(0, k) =~= t);
        assert(e.len() == 4 + steps_upto(t, n).len());
    } else {
        lemma_step_in_encoding(t, k);
        let pos: int = 4 + steps_upto(t, k).len() as int;
        assert(t[k - 1].wf() && t[k].wf());
        assert(t[k].domain == t[k].domain);
        lemma_step_decodes(t[k - 1], t[k], e, pos);
        lemma_decode_suffix(t, k + 1);
        assert(t.subrange(0, k).push(t[k]) =~= t.subrange(0, k + 1));
    }
}

proof fn lemma_first_in_encoding(t: Seq<Concept8D>)
    requires
        codec_ready(t),
    ensures
        trajectory_encoding(t).len() >= 4,
        concept8_of_bytes(
            trajectory_encoding(t)[0],
            trajectory_encoding(t)[1],
            trajectory_encoding(t)[2],
            trajectory_encoding(t)[3],
        ) == t[0],
{
    let e = trajectory_encoding(t);
    let c = t[0];
    assert(c.wf());
    lemma_radical_pair(c.domain, c.subdomain);
    lemma_radical_pair(c.operation, c.modality);
    lemma_radical_pair(c.strength, c.polarity);
    lemma_radical_pair(c.temporal_horizon, c.epistemic_certainty);
    assert(e[0] == c.radicals_spec()[0] && e[1] == c.radicals_spec()[1] && e[2] == c.radicals_spec()[2]
        && e[3] == c.radicals_spec()[3]);
}

/// The trajectory codec is lossless on codec-ready trajectories.
pub proof fn lemma_trajectory_round_trip(t: Seq<Concept8D>)
    requires
        codec_ready(t),
    ensures
        trajectory_decoding(trajectory_encoding(t)) == Ok::<Seq<Concept8D>, u8>(t),
{
    lemma_first_in_encoding(t);
    lemma_decode_suffix(t, 1);
    assert(steps_upto(t, 1).len() == 0);
    assert(t.subrange(0, 1) =~= seq![t[0]]);
}

/// Where the frame after one starting at `k` starts: a zero mode byte is one
/// byte, a local step three, a full escape five.
pub open spec fn next_frame(b: Seq<u8>, k: int) -> int {
    let mode = b[k] >> 6u8;
    if mode == 0 {
        k + 1
    } else if mode == 1 {
        k + 3
    } else {
        k + 5
    }
}

/// Start of frame number `n`, the first right after the 4-byte base.
pub open spec fn frame_at(b: Seq<u8>, n: nat) -> int
    decreases n,
{
    if n == 0 {
        4
    } else {
        next_frame(b, frame_at(b, (n - 1) as nat))
    }
}

/// Frame `k` lies within the stream and has a valid, complete mode.
pub open spec fn frame_complete(b: Seq<u8>, k: int) -> bool {
    let mode = b[k] >> 6u8;
    &&& 0 <= k < b.len()
    &&& (mode == 0 || (mode == 1 && k + 2 < b.len()) || (mode == 3 && k + 4 < b.len()))
}

proof fn lemma_frames_reached(b: Seq<u8>, n: nat)
    requires
        b.len() >= 4,
        forall|m: nat| m < n ==> frame_complete(b, #[trigger] frame_at(b, m)),
    ensures
        exists|c: Concept8D, acc: Seq<Concept8D>| trajectory_decoding(b) == decode_from(b, frame_at(b, n), c, acc),
    decreases n,
{
    if n == 0 {
        let first = concept8_of_bytes(b[0], b[1], b[2], b[3]);
        assert(trajectory_decoding(b) == decode_from(b, frame_at(b, 0), first, seq![first]));
    } else {
        let m = (n - 1) as nat;
        lemma_frames_reached(b, m);
        let k = frame_at(b, m);
        assert(frame_complete(b, k));
        let (c, acc) = choose|c: Concept8D, acc: Seq<Concept8D>| trajectory_decoding(b) == decode_from(b, k, c, acc);
        let mode = b[k] >> 6u8;
        assert(frame_at(b, n) == next_frame(b, k));
        if mode == 0 {
            assert(decode_from(b, k, c, acc) == decode_from(b, k + 1, c, acc.push(c)));
            assert(trajectory_decoding(b) == decode_from(b, frame_at(b, n), c, acc.push(c)));
        } else if mode == 1 {
            let c2 = local_step(c, b[k], b[k + 1], b[k + 2]);
            assert(decode_from(b, k, c, acc) == decode_from(b, k + 3, c2, acc.push(c2)));
            assert(trajectory_decoding(b) == decode_from(b, frame_at(b, n), c2, acc.push(c2)));
        } else {
            let c2 = concept8_of_bytes(b[k + 1], b[k + 2], b[k + 3], b[k + 4]);
            assert(decode_from(b, k, c, acc) == decode_from(b, k + 5, c2, acc.push(c2)));
            assert(trajectory_decoding(b) == decode_from(b, frame_at(b, n), c2, acc.push(c2)));
        }
    }
}

/// The decoder's errors at frame boundaries: once the frames before frame `n`
/// are complete, a frame `n` inside the stream whose mode byte starts with the
/// bits 10 is an invalid mode, and a local step or full escape that runs past
/// the end is a truncated frame.
pub proof fn lemma_frame_boundary_errors(b: Seq<u8>, n: nat)
    requires
        b.len() >= 4,
        forall|m: nat| m < n ==> frame_complete(b, #[trigger] frame_at(b, m)),
        0 <= frame_at(b, n) < b.len(),
    ensures
        b[frame_at(b, n)] >> 6u8 == 2 ==> trajectory_decoding(b) == Err::<Seq<Concept8D>, u8>(3),
        b[frame_at(b, n)] >> 6u8 == 1 && frame_at(b, n) + 2 >= b.len() ==> trajectory_decoding(b) == Err::<
            Seq<Concept8D>,
            u8,
        >(1),
        b[frame_at(b, n)] >> 6u8 == 3 && frame_at(b, n) + 4 >= b.len() ==> trajectory_decoding(b) == Err::<
            Seq<Concept8D>,
            u8,
        >(2),
{
    lemma_frames_reached(b, n);
}

} // verus!
