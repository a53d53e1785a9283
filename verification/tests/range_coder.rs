use zymatica_engine::cuneiform::{
    concepts_to_vocab_ids, decode_concepts, encode_concepts, range_coded_concepts_to_vocab_ids, Concept6D,
};

#[test]
fn cuneiform_round_trip_matches_zymatica_proof_vector() {
    let input = [
        Concept6D::new(1, 2, 3, 4, 5, 6),
        Concept6D::new(8, 0, 15, 1, 0, 15),
        Concept6D::new(0, 0, 0, 0, 0, 0),
        Concept6D::new(15, 15, 15, 15, 15, 15),
        Concept6D::new(4, 5, 6, 7, 8, 9),
    ];
    let encoded = encode_concepts(&input, 1, 128);
    assert_eq!(encoded.bit_len, 122);
    assert_eq!(
        encoded.bytes,
        vec![0x12, 0x34, 0x56, 0x80, 0xF1, 0x0F, 0x00, 0x00, 0x00, 0xFF, 0xFF, 0xFF, 0x83, 0x9A, 0x5B, 0x40]
    );
    let decoded = decode_concepts(&encoded.bytes, input.len(), 1, 128);
    assert_eq!(decoded, input);
}

#[test]
fn repeated_concepts_compress_below_raw_size() {
    let c = Concept6D::new(3, 1, 4, 1, 5, 9);
    let input = vec![c; 64];
    let encoded = encode_concepts(&input, 1, 64);
    assert!(encoded.bit_len < 64 * 24);
    assert_eq!(decode_concepts(&encoded.bytes, input.len(), 1, 64), input);
}

#[test]
fn empty_stream_flushes_two_bits() {
    let encoded = encode_concepts(&[], 1, 1);
    assert_eq!(encoded.bit_len, 2);
    assert_eq!(encoded.bytes, vec![0x40]);
    assert!(decode_concepts(&encoded.bytes, 0, 1, 1).is_empty());
}

#[test]
fn range_coded_ids_match_direct_projection() {
    let input = [Concept6D::new(1, 2, 3, 4, 5, 6), Concept6D::new(6, 5, 4, 3, 2, 1)];
    let encoded = encode_concepts(&input, 2, 16);
    let ids = range_coded_concepts_to_vocab_ids(&encoded.bytes, 2, 2, 16, 1000);
    assert_eq!(ids, concepts_to_vocab_ids(&input, 1000));
}

#[test]
fn range_coder_round_trips_a_long_varied_sequence() {
    let mut state: u32 = 0x2545_F491;
    let mut input = Vec::new();
    for _ in 0..500 {
        state ^= state << 13;
        state ^= state >> 17;
        state ^= state << 5;
        let b = state.to_le_bytes();
        input.push(Concept6D::new(b[0] & 15, b[0] >> 4, b[1] & 15, b[1] >> 4, b[2] & 15, b[3] & 15));
    }
    for (alpha, weight) in [(1u32, 128u32), (3, 1), (1000, 2000)] {
        let encoded = encode_concepts(&input, alpha, weight);
        assert_eq!(decode_concepts(&encoded.bytes, input.len(), alpha, weight), input);
    }
}
