//! 6D hyper-geodesic KV-cache compression bridge: a block keeps an anchor
//! concept and one delta byte per following step.

use crate::cuneiform::Concept6D;
use vstd::prelude::*;

verus! {

/// A compressed run of concepts: anchor plus delta stream.
#[derive(Clone, Debug)]
pub struct CompressedKvBlock {
    pub anchor_concept: Concept6D,
    pub delta_stream: Vec<u8>,
    pub num_tokens: usize,
}

impl CompressedKvBlock {
    /// A block holding only its anchor.
    pub fn new(anchor: Concept6D) -> (r: Self)
        ensures
            r.anchor_concept == anchor,
            r.delta_stream@ == Seq::<u8>::empty(),
            r.num_tokens == 1,
    {
        Self { anchor_concept: anchor, delta_stream: Vec::new(), num_tokens: 1 }
    }

    /// Appends the delta byte of the step from `prev` to `next`.
    pub fn push_step(&mut self, next: Concept6D, prev: Concept6D)
        requires
            old(self).num_tokens < usize::MAX,
        ensures
            final(self).anchor_concept == old(self).anchor_concept,
            final(self).delta_stream@ == old(self).delta_stream@.push(crate::cuneiform::delta_byte(prev, next)),
            final(self).num_tokens == old(self).num_tokens + 1,
    {
        let d_op: u8 = next.operation.wrapping_sub(prev.operation) & 0x03;
        let d_mod: u8 = next.modality.wrapping_sub(prev.modality) & 0x03;
        let d_dep: u8 = next.depth.wrapping_sub(prev.depth) & 0x03;
        let d_pol: u8 = next.polarity.wrapping_sub(prev.polarity) & 0x03;
        let delta: u8 = (d_op << 6) | (d_mod << 4) | (d_dep << 2) | d_pol;
        self.delta_stream.push(delta);
        self.num_tokens += 1;
    }

    /// Reconstructs the anchor and every step of the delta stream.
    pub fn decompress_all(&self) -> (r: Vec<Concept6D>)
        requires
            self.delta_stream@.len() > 0 ==> self.anchor_concept.domain < 16 && self.anchor_concept.subdomain < 16,
        ensures
            r@ == crate::cuneiform::decode_steps(self.anchor_concept, self.delta_stream@),
    {
        let root: Concept6D = self.anchor_concept;
        let mut out: Vec<Concept6D> = Vec::new();
        out.push(root);
        let ghost all = self.delta_stream@;
        assert(out@ =~= crate::cuneiform::decode_steps(root, all.subrange(0, 0)));
        let mut cur: Concept6D = root;
        let mut i: usize = 0;
        while i < self.delta_stream.len()
            invariant
                i <= all.len(),
                all == self.delta_stream@,
                root == self.anchor_concept,
                i < all.len() ==> root.domain < 16 && root.subdomain < 16,
                out@ == crate::cuneiform::decode_steps(root, all.subrange(0, i as int)),
                cur == out@.last(),
            decreases all.len() - i,
        {
            let b: u8 = self.delta_stream[i];
            let d_op: u8 = (b >> 6) & 0x03;
            let d_mod: u8 = (b >> 4) & 0x03;
            let d_dep: u8 = (b >> 2) & 0x03;
            let d_pol: u8 = b & 0x03;
            let s_op: u8 = if d_op < 2 { d_op } else { d_op.wrapping_sub(4) };
            let s_mod: u8 = if d_mod < 2 { d_mod } else { d_mod.wrapping_sub(4) };
            let s_dep: u8 = if d_dep < 2 { d_dep } else { d_dep.wrapping_sub(4) };
            let s_pol: u8 = if d_pol < 2 { d_pol } else { d_pol.wrapping_sub(4) };
            let o: u8 = cur.operation.wrapping_add(s_op) & 0x0F;
            let m: u8 = cur.modality.wrapping_add(s_mod) & 0x0F;
            let dp: u8 = cur.depth.wrapping_add(s_dep) & 0x0F;
            let p: u8 = cur.polarity.wrapping_add(s_pol) & 0x0F;
            proof {
                crate::cuneiform::lemma_low_nibble(cur.operation.wrapping_add(s_op));
                crate::cuneiform::lemma_low_nibble(cur.modality.wrapping_add(s_mod));
                crate::cuneiform::lemma_low_nibble(cur.depth.wrapping_add(s_dep));
                crate::cuneiform::lemma_low_nibble(cur.polarity.wrapping_add(s_pol));
            }
            cur = Concept6D::new(root.domain, root.subdomain, o, m, dp, p);
            out.push(cur);
            assert(all.subrange(0, i + 1).drop_last() =~= all.subrange(0, i as int));
            assert(out@ =~= crate::cuneiform::decode_steps(root, all.subrange(0, i + 1)));
            i += 1;
        }
        assert(all.subrange(0, all.len() as int) =~= all);
        out
    }
}

/// Pushing every step of an expressible trajectory into a block anchored at its
/// first concept and decompressing gives the trajectory back.
pub proof fn lemma_block_round_trip(c: Seq<Concept6D>)
    requires
        crate::cuneiform::geodesic_trajectory(c),
    ensures
        crate::cuneiform::decode_steps(c[0], crate::cuneiform::deltas_upto(c, c.len() as int)) == c,
{
    crate::cuneiform::lemma_geodesic_round_trip(c);
    let e = crate::cuneiform::geodesic_encoding(c);
    assert(e.subrange(3, 3 + c.len() - 1) =~= crate::cuneiform::deltas_upto(c, c.len() as int));
    crate::cuneiform::lemma_radicals_round_trip(c[0]);
}

} // verus!
