use zymatica_engine::cuneiform::{
    concepts_to_vocab_ids, decode_geodesic_deltas, encode_geodesic_deltas, splitmix64, token_id_to_concept, Concept6D,
};
use zymatica_engine::cuneiform_8d_octonion_engine::{Concept8D, Geodesic8DCodec};
use zymatica_engine::hyper_cuneiform_bridge::CompressedKvBlock;

#[test]
fn geodesic_delta_radicals_round_trip_is_lossless() {
    let input = [
        Concept6D::new(1, 4, 12, 1, 0, 15),
        Concept6D::new(1, 4, 12, 1, 1, 14),
        Concept6D::new(1, 4, 13, 1, 2, 13),
        Concept6D::new(1, 4, 13, 0, 2, 12),
        Concept6D::new(1, 4, 14, 0, 3, 11),
        Concept6D::new(1, 4, 14, 1, 3, 10),
    ];
    let encoded = encode_geodesic_deltas(&input);
    assert_eq!(encoded.len(), 3 + 5);
    let decoded = decode_geodesic_deltas(&encoded, input.len());
    assert_eq!(decoded, input);
}

#[test]
fn cuneiform_vocab_projection_is_stable_and_bounded() {
    let input = [Concept6D::new(1, 2, 3, 4, 5, 6), Concept6D::new(15, 14, 13, 12, 11, 10)];
    let ids = concepts_to_vocab_ids(&input, 262_144);
    assert_eq!(ids, concepts_to_vocab_ids(&input, 262_144));
    assert_eq!(ids.len(), input.len());
    assert!(ids.iter().all(|id| *id < 262_144));
}

#[test]
fn test_concept_8d_dword_roundtrip() {
    let c1 = Concept8D::new(2, 8, 5, 1, 14, 3, 12, 15);
    let dword = c1.to_dword();
    assert_eq!(dword, 0x2851E3CF);
    let c2 = Concept8D::from_dword(dword);
    assert_eq!(c1, c2);
}

#[test]
fn test_geodesic_8d_trajectory_lossless() {
    let mut traj = Vec::new();
    traj.push(Concept8D::new(1, 2, 3, 4, 5, 6, 7, 8));
    traj.push(Concept8D::new(1, 2, 3, 4, 5, 6, 7, 8));
    traj.push(Concept8D::new(1, 2, 4, 5, 6, 7, 8, 9));
    traj.push(Concept8D::new(9, 10, 11, 12, 13, 14, 15, 0));
    let enc = Geodesic8DCodec::encode_trajectory(&traj);
    let dec = Geodesic8DCodec::decode_trajectory(&enc).expect("Valid 8D decode");
    assert_eq!(traj, dec);
}

#[test]
fn compressed_kv_block_round_trips_losslessly() {
    let c0 = Concept6D::new(1, 2, 8, 8, 8, 8);
    let mut block = CompressedKvBlock::new(c0);
    let c1 = Concept6D::new(1, 2, 9, 8, 7, 8);
    let c2 = Concept6D::new(1, 2, 10, 9, 7, 9);
    block.push_step(c1, c0);
    block.push_step(c2, c1);
    let recovered = block.decompress_all();
    assert_eq!(recovered.len(), 3);
    assert_eq!(recovered[0], c0);
    assert_eq!(recovered[1], c1);
    assert_eq!(recovered[2], c2);
}

#[test]
fn concept_radicals_round_trip() {
    let c = Concept6D::new(1, 2, 3, 4, 5, 6);
    assert_eq!(c.radicals(), [0x12, 0x34, 0x56]);
    assert_eq!(Concept6D::from_radicals(c.radicals()), c);
    assert_eq!(c.axes(), [1, 2, 3, 4, 5, 6]);
}

#[test]
fn manhattan_distance_sums_axis_gaps() {
    let a = Concept6D::new(0, 0, 0, 0, 0, 0);
    let b = Concept6D::new(15, 1, 2, 3, 4, 5);
    assert_eq!(a.manhattan_distance(b), 30);
    assert_eq!(b.manhattan_distance(a), 30);
}

#[test]
fn splitmix_has_known_value() {
    assert_eq!(splitmix64(0), 0xE220A8397B1DCDAF);
}

#[test]
fn token_ids_map_through_splitmix() {
    let c = token_id_to_concept(0x123456);
    let h = splitmix64(0x123456);
    assert_eq!(c.radicals(), [(h >> 16) as u8, (h >> 8) as u8, h as u8]);
}

#[test]
fn empty_geodesic_stream() {
    assert!(encode_geodesic_deltas(&[]).is_empty());
    assert!(decode_geodesic_deltas(&[], 0).is_empty());
}

#[test]
fn octonion_decode_rejects_short_and_bad_headers() {
    assert!(Geodesic8DCodec::decode_trajectory(&[1, 2]).is_err());
    assert!(Geodesic8DCodec::decode_trajectory(&[]).is_err());
    assert!(Geodesic8DCodec::decode_trajectory(&[0x12, 0x34, 0x56, 0x78, 0x40]).is_err());
}

#[test]
fn kv_block_keeps_any_anchor_and_masks_steps() {
    let anchor = Concept6D { domain: 3, subdomain: 4, operation: 200, modality: 17, depth: 0, polarity: 15 };
    let lone = CompressedKvBlock::new(Concept6D { domain: 40, ..anchor });
    assert_eq!(lone.decompress_all(), vec![Concept6D { domain: 40, ..anchor }]);
    let mut block = CompressedKvBlock::new(anchor);
    block.delta_stream.push(0b01_00_11_01);
    block.num_tokens += 1;
    let out = block.decompress_all();
    assert_eq!(out[0], anchor);
    assert_eq!(out[1], Concept6D { domain: 3, subdomain: 4, operation: (200u8 + 1) & 0x0F, modality: 17 & 0x0F, depth: 15, polarity: 0 });
}
