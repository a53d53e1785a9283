//! Neural swarm hypergraph: 16-byte intent chirps and an authenticated,
//! replay-guarded weighted consensus over 6D concept trajectories.

use std::collections::HashMap;
use vstd::prelude::*;

verus! {

/// Spawns lightweight subagent weights from a procedural seed (the weights are
/// floating point and computed outside the library).
pub struct EphemeralSubagentSpawner;

broadcast use vstd::std_specs::hash::group_hash_axioms;

/// One FNV-1a step: XOR the value in, multiply by the FNV prime modulo 2^32.
pub open spec fn fnv_mix(h: u32, v: u32) -> u32 {
    (((h ^ v) as nat * 16777619nat) % 4294967296nat) as u32
}

/// FNV-1a mix of a sequence of values.
pub open spec fn fnv_mix_all(h: u32, vs: Seq<u32>) -> u32
    decreases vs.len(),
{
    if vs.len() == 0 {
        h
    } else {
        fnv_mix(fnv_mix_all(h, vs.drop_last()), vs.last())
    }
}

fn mix(h: u32, v: u32) -> (r: u32)
    ensures
        r == fnv_mix(h, v),
{
    (h ^ v).wrapping_mul(0x01000193)
}

/// 16-byte differential swarm intent chirp.
#[derive(Debug, Clone, Copy, PartialEq, Eq)]
pub struct SwarmIntentChirp {
    pub sender_node_id: u8,
    pub swarm_epoch: u8,
    pub target_domain: u8,
    pub target_subdomain: u8,
    pub action_opcode: u8,
    pub consensus_weight: u8,
    pub concept_trajectory: [u8; 6],
    pub state_crc: u32,
}

/// The values the chirp checksum covers, in order.
pub open spec fn crc_inputs(c: SwarmIntentChirp) -> Seq<u32> {
    seq![
        c.sender_node_id as u32,
        c.swarm_epoch as u32,
        ((c.target_domain << 4u8) | c.target_subdomain) as u32,
        c.action_opcode as u32,
    ] + c.concept_trajectory@.map_values(|b: u8| b as u32)
}

/// Checksum of a chirp: FNV-1a over sender, epoch, packed target, opcode and trajectory.
pub open spec fn chirp_crc(c: SwarmIntentChirp) -> u32 {
    fnv_mix_all(0x811c9dc5u32, crc_inputs(c))
}

/// The 16 bytes of a chirp on the wire.
pub open spec fn chirp_bytes(c: SwarmIntentChirp) -> Seq<u8> {
    seq![
        c.sender_node_id,
        c.swarm_epoch,
        (c.target_domain << 4u8) | (c.target_subdomain & 0x0F),
        c.action_opcode,
        c.consensus_weight,
    ] + c.concept_trajectory@ + seq![
        (c.state_crc >> 24u32) as u8,
        (c.state_crc >> 16u32) as u8,
        (c.state_crc >> 8u32) as u8,
        c.state_crc as u8,
        0x5Au8,
    ]
}

/// The values the checksum covers, read straight off 16 wire bytes: bytes 0 to
/// 3 and 5 to 10 (the weight in byte 4 is not covered).
pub open spec fn byte_crc_inputs(b: Seq<u8>) -> Seq<u32> {
    seq![b[0] as u32, b[1] as u32, b[2] as u32, b[3] as u32] + b.subrange(5, 11).map_values(|x: u8| x as u32)
}

/// The checksum that bytes 11 to 14 carry, big-endian.
pub open spec fn carried_crc(b: Seq<u8>) -> u32 {
    ((b[11] as u32) << 24u32) | ((b[12] as u32) << 16u32) | ((b[13] as u32) << 8u32) | (b[14] as u32)
}

proof fn lemma_nibbles_rejoin(x: u8)
    ensures
        ((((x >> 4u8) & 0x0F) << 4u8) | (x & 0x0F)) == x,
{
    assert(((((x >> 4u8) & 0x0F) << 4u8) | (x & 0x0F)) == x) by (bit_vector);
}

/// `c` holds the fields that 16 wire bytes describe.
pub open spec fn chirp_matches_bytes(c: SwarmIntentChirp, b: Seq<u8>) -> bool {
    &&& c.sender_node_id == b[0]
    &&& c.swarm_epoch == b[1]
    &&& c.target_domain == (b[2] >> 4u8) & 0x0F
    &&& c.target_subdomain == b[2] & 0x0F
    &&& c.action_opcode == b[3]
    &&& c.consensus_weight == b[4]
    &&& c.concept_trajectory@ == b.subrange(5, 11)
    &&& c.state_crc == ((b[11] as u32) << 24u32) | ((b[12] as u32) << 16u32) | ((b[13] as u32) << 8u32)
        | (b[14] as u32)
}

impl SwarmIntentChirp {
    /// A chirp with weight 100 whose checksum covers its fields.
    pub fn new(sender: u8, epoch: u8, domain: u8, subdomain: u8, opcode: u8, coords: [u8; 6]) -> (r:
        Self)
        ensures
            r.sender_node_id == sender,
            r.swarm_epoch == epoch,
            r.target_domain == domain & 0x0F,
            r.target_subdomain == subdomain & 0x0F,
            r.action_opcode == opcode,
            r.consensus_weight == 100,
            r.concept_trajectory == coords,
            r.state_crc == chirp_crc(r),
    {
        let mut chirp = Self {
            sender_node_id: sender,
            swarm_epoch: epoch,
            target_domain: domain & 0x0F,
            target_subdomain: subdomain & 0x0F,
            action_opcode: opcode,
            consensus_weight: 100,
            concept_trajectory: coords,
            state_crc: 0,
        };
        chirp.state_crc = chirp.compute_crc();
        chirp
    }

    /// Serializes to 16 bytes: fields, big-endian checksum, then the sentinel 0x5A.
    pub fn to_bytes(&self) -> (r: [u8; 16])
        ensures
            r@ == chirp_bytes(*self),
    {
        let mut bytes: [u8; 16] = [0u8; 16];
        bytes[0] = self.sender_node_id;
        bytes[1] = self.swarm_epoch;
        bytes[2] = (self.target_domain << 4) | (self.target_subdomain & 0x0F);
        bytes[3] = self.action_opcode;
        bytes[4] = self.consensus_weight;
        bytes[5] = self.concept_trajectory[0];
        bytes[6] = self.concept_trajectory[1];
        bytes[7] = self.concept_trajectory[2];
        bytes[8] = self.concept_trajectory[3];
        bytes[9] = self.concept_trajectory[4];
        bytes[10] = self.concept_trajectory[5];
        bytes[11] = (self.state_crc >> 24) as u8;
        bytes[12] = (self.state_crc >> 16) as u8;
        bytes[13] = (self.state_crc >> 8) as u8;
        bytes[14] = self.state_crc as u8;
        bytes[15] = 0x5A;
        assert(bytes@ =~= chirp_bytes(*self));
        bytes
    }

    /// Parses 16 bytes, rejecting a wrong sentinel or a checksum mismatch.
    pub fn from_bytes(bytes: &[u8; 16]) -> (r: Result<Self, &'static str>)
        ensures
            bytes@[15] != 0x5A ==> r == Err::<Self, &'static str>("Invalid Swarm Sentinel Byte"),
            bytes@[15] == 0x5A ==> (forall|c: SwarmIntentChirp|
                chirp_matches_bytes(c, bytes@) ==> (#[trigger] chirp_crc(c) != c.state_crc <==> r == Err::<
                    Self,
                    &'static str,
                >("CRC Integrity Mismatch"))),
            r matches Ok(c) ==> chirp_matches_bytes(c, bytes@) && chirp_crc(c) == c.state_crc
                && bytes@[15] == 0x5A,
            bytes@[15] == 0x5A && (forall|c: SwarmIntentChirp|
                chirp_matches_bytes(c, bytes@) ==> #[trigger] chirp_crc(c) == c.state_crc) ==> r is Ok,
            r is Ok <==> bytes@[15] == 0x5A && fnv_mix_all(0x811c9dc5u32, byte_crc_inputs(bytes@)) == carried_crc(bytes@),
    {
        if bytes[15] != 0x5A {
            return Err("Invalid Swarm Sentinel Byte");
        }
        let crc: u32 = ((bytes[11] as u32) << 24) | ((bytes[12] as u32) << 16) | ((bytes[13] as u32) << 8)
            | (bytes[14] as u32);
        let coords: [u8; 6] = [bytes[5], bytes[6], bytes[7], bytes[8], bytes[9], bytes[10]];
        let chirp = Self {
            sender_node_id: bytes[0],
            swarm_epoch: bytes[1],
            target_domain: (bytes[2] >> 4) & 0x0F,
            target_subdomain: bytes[2] & 0x0F,
            action_opcode: bytes[3],
            consensus_weight: bytes[4],
            concept_trajectory: coords,
            state_crc: crc,
        };
        assert(chirp.concept_trajectory@ =~= bytes@.subrange(5, 11));
        proof {
            lemma_nibbles_rejoin(bytes@[2]);
            assert(crc_inputs(chirp) =~= byte_crc_inputs(bytes@));
        }
        proof {
            assert forall|c: SwarmIntentChirp| chirp_matches_bytes(c, bytes@) implies #[trigger] chirp_crc(c)
                == chirp_crc(chirp) by {
                assert(crc_inputs(c) =~= crc_inputs(chirp));
            }
        }
        if chirp.compute_crc() != crc {
            return Err("CRC Integrity Mismatch");
        }
        Ok(chirp)
    }

    /// FNV-1a checksum over the chirp's covered fields.
    pub fn compute_crc(&self) -> (r: u32)
        ensures
            r == chirp_crc(*self),
    {
        let ghost ins = crc_inputs(*self);
        let mut hash: u32 = 0x811c9dc5u32;
        assert(ins.subrange(0, 0) =~= Seq::<u32>::empty());
        assert(fnv_mix_all(0x811c9dc5u32, ins.subrange(0, 0)) == 0x811c9dc5u32);
        assert(ins.subrange(0, 1).drop_last() =~= ins.subrange(0, 0));
        assert(ins.subrange(0, 2).drop_last() =~= ins.subrange(0, 1));
        assert(ins.subrange(0, 3).drop_last() =~= ins.subrange(0, 2));
        assert(ins.subrange(0, 4).drop_last() =~= ins.subrange(0, 3));
        assert(ins[0] == self.sender_node_id as u32 && ins[1] == self.swarm_epoch as u32);
        assert(ins[2] == ((self.target_domain << 4u8) | self.target_subdomain) as u32);
        assert(ins[3] == self.action_opcode as u32);
        hash = mix(hash, self.sender_node_id as u32);
        assert(hash == fnv_mix_all(0x811c9dc5u32, ins.subrange(0, 1)));
        hash = mix(hash, self.swarm_epoch as u32);
        assert(hash == fnv_mix_all(0x811c9dc5u32, ins.subrange(0, 2)));
        hash = mix(hash, ((self.target_domain << 4) | self.target_subdomain) as u32);
        assert(hash == fnv_mix_all(0x811c9dc5u32, ins.subrange(0, 3)));
        hash = mix(hash, self.action_opcode as u32);
        assert(hash == fnv_mix_all(0x811c9dc5u32, ins.subrange(0, 4)));
        let mut i: usize = 0;
        while i < 6
            invariant
                i <= 6,
                ins == crc_inputs(*self),
                hash == fnv_mix_all(0x811c9dc5u32, ins.subrange(0, 4 + i)),
            decreases 6 - i,
        {
            assert(ins.subrange(0, 4 + i + 1).drop_last() =~= ins.subrange(0, 4 + i));
            hash = mix(hash, self.concept_trajectory[i] as u32);
            i += 1;
        }
        assert(ins.subrange(0, 10) =~= ins);
        hash
    }
}

/// A chirp whose fields survive the wire format: 4-bit target axes and a
/// checksum that covers the fields.
pub open spec fn chirp_sealed(c: SwarmIntentChirp) -> bool {
    c.target_domain < 16 && c.target_subdomain < 16 && c.state_crc == chirp_crc(c)
}

/// A sealed chirp's bytes carry its fields and pass the sentinel and checksum
/// checks, so parsing them gives the chirp back.
pub proof fn lemma_chirp_round_trip(c: SwarmIntentChirp)
    requires
        chirp_sealed(c),
    ensures
        chirp_bytes(c)[15] == 0x5A,
        chirp_matches_bytes(c, chirp_bytes(c)),
        chirp_crc(c) == c.state_crc,
{
    let b = chirp_bytes(c);
    let (d, s, k) = (c.target_domain, c.target_subdomain, c.state_crc);
    assert((((d << 4u8) | (s & 0x0F)) >> 4u8) & 0x0F == d && ((d << 4u8) | (s & 0x0F)) & 0x0F == s)
        by (bit_vector)
        requires
            d < 16,
            s < 16,
    ;
    assert((((k >> 24u32) as u8 as u32) << 24u32) | (((k >> 16u32) as u8 as u32) << 16u32) | (((k
        >> 8u32) as u8 as u32) << 8u32) | (k as u8 as u32) == k) by (bit_vector);
    assert(b.subrange(5, 11) =~= c.concept_trajectory@);
}

/// Two chirps carrying the same wire fields have equal fields.
pub proof fn lemma_chirp_fields_determined(c1: SwarmIntentChirp, c2: SwarmIntentChirp, b: Seq<u8>)
    requires
        chirp_matches_bytes(c1, b),
        chirp_matches_bytes(c2, b),
    ensures
        c1.concept_trajectory@ == c2.concept_trajectory@,
        c1.sender_node_id == c2.sender_node_id && c1.swarm_epoch == c2.swarm_epoch && c1.target_domain
            == c2.target_domain && c1.target_subdomain == c2.target_subdomain && c1.action_opcode
            == c2.action_opcode && c1.consensus_weight == c2.consensus_weight && c1.state_crc
            == c2.state_crc,
{
}

/// Swarm quorum certificate.
#[derive(Debug, Clone, PartialEq, Eq)]
pub struct SwarmQuorumCertificate {
    pub epoch: u8,
    pub participant_nodes: Vec<u8>,
    pub total_weight: u32,
    pub consensus_trajectory: [u8; 6],
    pub certificate_hash: u32,
}

/// Total weight of the first `n` proposals.
pub open spec fn weight_sum(ps: Seq<SwarmIntentChirp>, n: int) -> int
    decreases n,
{
    if n <= 0 {
        0
    } else {
        weight_sum(ps, n - 1) + ps[n - 1].consensus_weight
    }
}

/// Weighted sum of axis `i` over the first `n` proposals.
pub open spec fn coord_sum(ps: Seq<SwarmIntentChirp>, i: int, n: int) -> int
    decreases n,
{
    if n <= 0 {
        0
    } else {
        coord_sum(ps, i, n - 1) + ps[n - 1].concept_trajectory@[i] * ps[n - 1].consensus_weight
    }
}

/// The weighted sums of a proposal list fit the 32-bit accumulators, with
/// room for the rounding term.
pub open spec fn sums_fit(ps: Seq<SwarmIntentChirp>) -> bool {
    &&& weight_sum(ps, ps.len() as int) <= u32::MAX
    &&& forall|i: int|
        0 <= i < 6 ==> #[trigger] coord_sum(ps, i, ps.len() as int) + weight_sum(ps, ps.len() as int) / 2
            <= u32::MAX
}

/// Rounded weighted centroid of axis `i`.
pub open spec fn centroid_axis(ps: Seq<SwarmIntentChirp>, i: int) -> u8 {
    let w = weight_sum(ps, ps.len() as int);
    ((coord_sum(ps, i, ps.len() as int) + w / 2) / w) as u8
}

/// Certificate that the engine issues for an epoch's proposals.
pub open spec fn certificate_of(epoch: u8, ps: Seq<SwarmIntentChirp>) -> (u32, Seq<u8>, Seq<u8>, u32) {
    let w = weight_sum(ps, ps.len() as int) as u32;
    let coords = Seq::new(6, |i: int| centroid_axis(ps, i));
    let hash = fnv_mix_all(
        0x811c9dc5u32,
        seq![epoch as u32, w] + coords.map_values(|c: u8| c as u32),
    );
    (w, ps.map_values(|p: SwarmIntentChirp| p.sender_node_id), coords, hash)
}

proof fn lemma_sums_as_folds(ps: Seq<SwarmIntentChirp>, i: int, n: int)
    requires
        0 <= n <= ps.len(),
        0 <= i < 6,
    ensures
        ps.subrange(0, n).map_values(|p: SwarmIntentChirp| p.consensus_weight as int).fold_left(0int, |a: int, b: int| a + b)
            == weight_sum(ps, n),
        ps.subrange(0, n).map_values(|p: SwarmIntentChirp| p.concept_trajectory@[i] as int * p.consensus_weight as int).fold_left(
            0int,
            |a: int, b: int| a + b,
        ) == coord_sum(ps, i, n),
        0 <= coord_sum(ps, i, n) <= 255 * weight_sum(ps, n),
        0 <= weight_sum(ps, n),
    decreases n,
{
    if n > 0 {
        lemma_sums_as_folds(ps, i, n - 1);
        let fw = |p: SwarmIntentChirp| p.consensus_weight as int;
        let fc = |p: SwarmIntentChirp| p.concept_trajectory@[i] as int * p.consensus_weight as int;
        assert(ps.subrange(0, n).map_values(fw).drop_last() =~= ps.subrange(0, n - 1).map_values(fw));
        assert(ps.subrange(0, n).map_values(fc).drop_last() =~= ps.subrange(0, n - 1).map_values(fc));
        let c = ps[n - 1].concept_trajectory@[i] as int;
        let w = ps[n - 1].consensus_weight as int;
        assert(0 <= c * w <= 255 * w) by (nonlinear_arith)
            requires 0 <= c <= 255, 0 <= w;
    }
}

/// The certificate's trajectory is the rounded weighted mean of the proposals:
/// with `W` the sum of the proposals' weights, each axis is the sum over the
/// proposals of that axis times the proposal's weight, plus `W / 2`, divided by
/// `W`; and the certificate carries `W` as its total weight.
pub proof fn lemma_consensus_is_weighted_mean(epoch: u8, ps: Seq<SwarmIntentChirp>)
    requires
        ps.map_values(|p: SwarmIntentChirp| p.consensus_weight as int).fold_left(0int, |a: int, b: int| a + b) > 0,
    ensures
        forall|i: int|
            0 <= i < 6 ==> #[trigger] certificate_of(epoch, ps).2[i] as int == (ps.map_values(
                |p: SwarmIntentChirp| p.concept_trajectory@[i] as int * p.consensus_weight as int,
            ).fold_left(0int, |a: int, b: int| a + b) + ps.map_values(|p: SwarmIntentChirp| p.consensus_weight as int).fold_left(
                0int,
                |a: int, b: int| a + b,
            ) / 2) / ps.map_values(|p: SwarmIntentChirp| p.consensus_weight as int).fold_left(0int, |a: int, b: int| a + b),
        certificate_of(epoch, ps).2.len() == 6,
        ps.map_values(|p: SwarmIntentChirp| p.consensus_weight as int).fold_left(0int, |a: int, b: int| a + b)
            <= u32::MAX ==> certificate_of(epoch, ps).0 as int == ps.map_values(
            |p: SwarmIntentChirp| p.consensus_weight as int,
        ).fold_left(0int, |a: int, b: int| a + b),
{
    assert(ps.subrange(0, ps.len() as int) =~= ps);
    lemma_sums_as_folds(ps, 0, ps.len() as int);
    assert forall|i: int| 0 <= i < 6 implies #[trigger] certificate_of(epoch, ps).2[i] as int == (ps.map_values(
        |p: SwarmIntentChirp| p.concept_trajectory@[i] as int * p.consensus_weight as int,
    ).fold_left(0int, |a: int, b: int| a + b) + ps.map_values(|p: SwarmIntentChirp| p.consensus_weight as int).fold_left(
        0int,
        |a: int, b: int| a + b,
    ) / 2) / ps.map_values(|p: SwarmIntentChirp| p.consensus_weight as int).fold_left(0int, |a: int, b: int| a + b) by {
        lemma_sums_as_folds(ps, i, ps.len() as int);
        let w = weight_sum(ps, ps.len() as int);
        let c = coord_sum(ps, i, ps.len() as int);
        assert((c + w / 2) / w <= 255) by (nonlinear_arith)
            requires 0 <= c <= 255 * w, w > 0;
        assert((c + w / 2) / w >= 0) by (nonlinear_arith)
            requires 0 <= c, w > 0;
    }
}

/// Consensus engine with membership authentication and one vote per node per epoch.
pub struct SwarmConsensusEngine {
    pub registered_nodes: Vec<u8>,
    pub pending_proposals: HashMap<u8, Vec<SwarmIntentChirp>>,
}

/// Proposals held for an epoch (empty when none).
pub open spec fn epoch_proposals(m: Map<u8, Vec<SwarmIntentChirp>>, epoch: u8) -> Seq<SwarmIntentChirp> {
    if m.contains_key(epoch) {
        m[epoch]@
    } else {
        seq![]
    }
}

impl SwarmConsensusEngine {
    /// Every epoch holds proposals from distinct registered senders.
    pub open spec fn wf(&self) -> bool {
        forall|e: u8|
            #![trigger self.pending_proposals@[e]]
            self.pending_proposals@.contains_key(e) ==> {
                let ps = self.pending_proposals@[e]@;
                &&& forall|a: int, b: int|
                    0 <= a < b < ps.len() ==> #[trigger] ps[a].sender_node_id != #[trigger] ps[b].sender_node_id
                &&& forall|a: int| 0 <= a < ps.len() ==> #[trigger] ps[a].swarm_epoch == e
            }
    }

    /// An engine for the given membership with no proposals.
    pub fn new(nodes: Vec<u8>) -> (r: Self)
        ensures
            r.registered_nodes == nodes,
            r.pending_proposals@ == Map::<u8, Vec<SwarmIntentChirp>>::empty(),
            r.wf(),
    {
        Self { registered_nodes: nodes, pending_proposals: HashMap::new() }
    }

    /// Records a proposal from a registered node that has not yet voted in the
    /// chirp's epoch; otherwise rejects it and changes nothing.
    pub fn submit_intent(&mut self, chirp: SwarmIntentChirp) -> (r: Result<(), &'static str>)
        ensures
            final(self).registered_nodes == old(self).registered_nodes,
            !old(self).registered_nodes@.contains(chirp.sender_node_id) ==> r == Err::<(), &'static str>(
                "Unauthorized node ID: sender is not in the registered swarm membership set",
            ) && final(self).pending_proposals@ == old(self).pending_proposals@,
            old(self).registered_nodes@.contains(chirp.sender_node_id) && (exists|k: int|
                0 <= k < epoch_proposals(old(self).pending_proposals@, chirp.swarm_epoch).len()
                    && #[trigger] epoch_proposals(old(self).pending_proposals@, chirp.swarm_epoch)[k].sender_node_id
                    == chirp.sender_node_id) ==> r == Err::<(), &'static str>(
                "Duplicate vote detected: node has already submitted a proposal for this epoch",
            ) && final(self).pending_proposals@ == old(self).pending_proposals@,
            r is Ok <==> old(self).registered_nodes@.contains(chirp.sender_node_id) && (forall|k: int|
                0 <= k < epoch_proposals(old(self).pending_proposals@, chirp.swarm_epoch).len()
                    ==> #[trigger] epoch_proposals(old(self).pending_proposals@, chirp.swarm_epoch)[k].sender_node_id
                    != chirp.sender_node_id),
            r is Ok ==> final(self).pending_proposals@.dom() == old(self).pending_proposals@.dom().insert(
                chirp.swarm_epoch,
            ) && epoch_proposals(final(self).pending_proposals@, chirp.swarm_epoch) == epoch_proposals(
                old(self).pending_proposals@,
                chirp.swarm_epoch,
            ).push(chirp) && forall|e: u8|
                e != chirp.swarm_epoch && #[trigger] old(self).pending_proposals@.contains_key(e)
                    ==> final(self).pending_proposals@[e] == old(self).pending_proposals@[e],
            old(self).wf() ==> final(self).wf(),
    {
        if !contains_node(&self.registered_nodes, chirp.sender_node_id) {
            return Err("Unauthorized node ID: sender is not in the registered swarm membership set");
        }
        let epoch: u8 = chirp.swarm_epoch;
        let ghost old_ps = epoch_proposals(self.pending_proposals@, epoch);
        let mut proposals: Vec<SwarmIntentChirp> = match self.pending_proposals.get(&epoch) {
            Some(v) => v.clone(),
            None => Vec::new(),
        };
        assert(proposals@ =~= old_ps);
        let mut i: usize = 0;
        while i < proposals.len()
            invariant
                i <= proposals@.len(),
                proposals@ == old_ps,
                old_ps == epoch_proposals(old(self).pending_proposals@, epoch),
                epoch == chirp.swarm_epoch,
                self.registered_nodes == old(self).registered_nodes,
                self.pending_proposals@ == old(self).pending_proposals@,
                self.registered_nodes@.contains(chirp.sender_node_id),
                forall|k: int| 0 <= k < i ==> #[trigger] old_ps[k].sender_node_id != chirp.sender_node_id,
            decreases proposals@.len() - i,
        {
            if proposals[i].sender_node_id == chirp.sender_node_id {
                return Err("Duplicate vote detected: node has already submitted a proposal for this epoch");
            }
            i += 1;
        }
        proposals.push(chirp);
        let ghost old_map = self.pending_proposals@;
        self.pending_proposals.insert(epoch, proposals);
        proof {
            if old(self).wf() {
                assert forall|e: u8|
                    #![trigger self.pending_proposals@[e]]
                    self.pending_proposals@.contains_key(e) implies {
                        let ps = self.pending_proposals@[e]@;
                        &&& forall|a: int, b: int|
                            0 <= a < b < ps.len() ==> #[trigger] ps[a].sender_node_id
                                != #[trigger] ps[b].sender_node_id
                        &&& forall|a: int| 0 <= a < ps.len() ==> #[trigger] ps[a].swarm_epoch == e
                    } by {
                    if e != epoch {
                        assert(old_map.contains_key(e));
                        assert(self.pending_proposals@[e] == old_map[e]);
                    } else {
                        if old_map.contains_key(e) {
                            assert(old_map[e]@ == old_ps);
                        }
                    }
                }
            }
        }
        Ok(())
    }

    /// Resolves an epoch: with at least `quorum_threshold` proposals and a
    /// positive total weight, issues a certificate holding the rounded weighted
    /// centroid of the trajectories.
    pub fn resolve_consensus(&self, epoch: u8, quorum_threshold: usize) -> (r: Option<
        SwarmQuorumCertificate,
    >)
        requires
            self.pending_proposals@.contains_key(epoch) && epoch_proposals(self.pending_proposals@, epoch).len()
                >= quorum_threshold ==> sums_fit(epoch_proposals(self.pending_proposals@, epoch)),
        ensures
            ({
                let ps = epoch_proposals(self.pending_proposals@, epoch);
                if !self.pending_proposals@.contains_key(epoch) || ps.len() < quorum_threshold
                    || weight_sum(ps, ps.len() as int) == 0 {
                    r is None
                } else {
                    let (w, nodes, coords, hash) = certificate_of(epoch, ps);
                    r matches Some(cert) && cert.epoch == epoch && cert.total_weight == w
                        && cert.participant_nodes@ == nodes && cert.consensus_trajectory@ == coords
                        && cert.certificate_hash == hash
                }
            }),
    {
        let proposals = match self.pending_proposals.get(&epoch) {
            Some(v) => v,
            None => {
                return None;
            },
        };
        let ghost ps = proposals@;
        if proposals.len() < quorum_threshold {
            return None;
        }
        let mut sum_coords: [u32; 6] = [0u32; 6];
        let mut total_weight: u32 = 0;
        let mut participants: Vec<u8> = Vec::new();
        let mut n: usize = 0;
        while n < proposals.len()
            invariant
                n <= ps.len(),
                ps == proposals@,
                sums_fit(ps),
                total_weight == weight_sum(ps, n as int),
                sum_coords@.len() == 6,
                forall|i: int| 0 <= i < 6 ==> #[trigger] sum_coords@[i] == coord_sum(ps, i, n as int),
                participants@ == ps.subrange(0, n as int).map_values(
                    |p: SwarmIntentChirp| p.sender_node_id,
                ),
            decreases ps.len() - n,
        {
            let p = &proposals[n];
            let w: u32 = p.consensus_weight as u32;
            proof {
                lemma_sums_monotone(ps, n as int + 1, ps.len() as int);
            }
            total_weight = total_weight + w;
            participants.push(p.sender_node_id);
            let mut i: usize = 0;
            while i < 6
                invariant
                    i <= 6,
                    n < ps.len(),
                    ps == proposals@,
                    sums_fit(ps),
                    w == ps[n as int].consensus_weight,
                    sum_coords@.len() == 6,
                    forall|k: int| 0 <= k < i ==> #[trigger] sum_coords@[k] == coord_sum(ps, k, n + 1),
                    forall|k: int| i <= k < 6 ==> #[trigger] sum_coords@[k] == coord_sum(ps, k, n as int),
                decreases 6 - i,
            {
                proof {
                    lemma_sums_monotone(ps, n as int + 1, ps.len() as int);
                    assert(coord_sum(ps, i as int, n + 1) <= coord_sum(ps, i as int, ps.len() as int));
                }
                let c: u32 = proposals[n].concept_trajectory[i] as u32;
                assert(c * w <= 255 * 255) by (nonlinear_arith)
                    requires
                        c <= 255,
                        w <= 255,
                ;
                sum_coords[i] = sum_coords[i] + c * w;
                i += 1;
            }
            assert(ps.subrange(0, n + 1).map_values(|p: SwarmIntentChirp| p.sender_node_id)
                =~= ps.subrange(0, n as int).map_values(|p: SwarmIntentChirp| p.sender_node_id).push(
                ps[n as int].sender_node_id,
            ));
            n += 1;
        }
        assert(ps.subrange(0, ps.len() as int) =~= ps);
        if total_weight == 0 {
            return None;
        }
        let mut consensus_coords: [u8; 6] = [0u8; 6];
        let mut i: usize = 0;
        while i < 6
            invariant
                i <= 6,
                sums_fit(ps),
                total_weight == weight_sum(ps, ps.len() as int),
                total_weight > 0,
                consensus_coords@.len() == 6,
                forall|k: int| 0 <= k < 6 ==> #[trigger] sum_coords@[k] == coord_sum(ps, k, ps.len() as int),
                forall|k: int| 0 <= k < i ==> #[trigger] consensus_coords@[k] == centroid_axis(ps, k),
            decreases 6 - i,
        {
            consensus_coords[i] = ((sum_coords[i] + total_weight / 2) / total_weight) as u8;
            i += 1;
        }
        let ghost coords = Seq::new(6, |k: int| centroid_axis(ps, k));
        assert(consensus_coords@ =~= coords);
        let ghost ins = seq![epoch as u32, total_weight] + coords.map_values(|c: u8| c as u32);
        let mut cert_hash: u32 = 0x811c9dc5u32;
        assert(ins.subrange(0, 0) =~= Seq::<u32>::empty());
        assert(fnv_mix_all(0x811c9dc5u32, ins.subrange(0, 0)) == 0x811c9dc5u32);
        assert(ins.subrange(0, 1).drop_last() =~= ins.subrange(0, 0));
        assert(ins.subrange(0, 2).drop_last() =~= ins.subrange(0, 1));
        assert(ins[0] == epoch as u32 && ins[1] == total_weight);
        cert_hash = mix(cert_hash, epoch as u32);
        assert(cert_hash == fnv_mix_all(0x811c9dc5u32, ins.subrange(0, 1)));
        cert_hash = mix(cert_hash, total_weight);
        assert(cert_hash == fnv_mix_all(0x811c9dc5u32, ins.subrange(0, 2)));
        let mut k: usize = 0;
        while k < 6
            invariant
                k <= 6,
                ins == seq![epoch as u32, total_weight] + coords.map_values(|c: u8| c as u32),
                consensus_coords@ == coords,
                cert_hash == fnv_mix_all(0x811c9dc5u32, ins.subrange(0, 2 + k)),
            decreases 6 - k,
        {
            assert(ins.subrange(0, 2 + k + 1).drop_last() =~= ins.subrange(0, 2 + k));
            cert_hash = mix(cert_hash, consensus_coords[k] as u32);
            k += 1;
        }
        assert(ins.subrange(0, 8) =~= ins);
        Some(
            SwarmQuorumCertificate {
                epoch,
                participant_nodes: participants,
                total_weight,
                consensus_trajectory: consensus_coords,
                certificate_hash: cert_hash,
            },
        )
    }
}

proof fn lemma_sums_monotone(ps: Seq<SwarmIntentChirp>, a: int, b: int)
    requires
        0 <= a <= b <= ps.len(),
    ensures
        weight_sum(ps, a) <= weight_sum(ps, b),
        forall|i: int| 0 <= i < 6 ==> #[trigger] coord_sum(ps, i, a) <= coord_sum(ps, i, b),
        weight_sum(ps, a) >= 0,
    decreases b - a,
{
    if a < b {
        lemma_sums_monotone(ps, a, b - 1);
        assert forall|i: int| 0 <= i < 6 implies #[trigger] coord_sum(ps, i, a) <= coord_sum(ps, i, b) by {
            lemma_coord_nonneg(ps, i, b - 1);
            assert(ps[b - 1].concept_trajectory@[i] * ps[b - 1].consensus_weight >= 0) by (nonlinear_arith)
                requires
                    ps[b - 1].concept_trajectory@[i] >= 0,
                    ps[b - 1].consensus_weight >= 0,
            ;
        }
    } else {
        lemma_weight_nonneg(ps, a);
    }
}

proof fn lemma_weight_nonneg(ps: Seq<SwarmIntentChirp>, n: int)
    ensures
        weight_sum(ps, n) >= 0,
    decreases n,
{
    if n > 0 {
        lemma_weight_nonneg(ps, n - 1);
    }
}

proof fn lemma_coord_nonneg(ps: Seq<SwarmIntentChirp>, i: int, n: int)
    ensures
        coord_sum(ps, i, n) >= 0,
    decreases n,
{
    if n > 0 {
        lemma_coord_nonneg(ps, i, n - 1);
        assert(ps[n - 1].concept_trajectory@[i] * ps[n - 1].consensus_weight >= 0) by (nonlinear_arith)
            requires
                ps[n - 1].concept_trajectory@[i] >= 0,
                ps[n - 1].consensus_weight >= 0,
        ;
    }
}

fn contains_node(nodes: &Vec<u8>, id: u8) -> (r: bool)
    ensures
        r == nodes@.contains(id),
{
    let mut i: usize = 0;
    while i < nodes.len()
        invariant
            i <= nodes@.len(),
            forall|k: int| 0 <= k < i ==> nodes@[k] != id,
        decreases nodes@.len() - i,
    {
        if nodes[i] == id {
            assert(nodes@[i as int] == id);
            return true;
        }
        i += 1;
    }
    false
}

} // verus!
