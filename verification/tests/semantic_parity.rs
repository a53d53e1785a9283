use zymatica_engine::semantic_parity::{
    Concept8DState, SemanticCodeword8D, SemanticInvariantGuard, SemanticSyndromeResult, ZSparEngine, GF16,
};

#[test]
fn test_gf16_arithmetic_properties() {
    assert_eq!(GF16::add(5, 5), 0);
    assert_eq!(GF16::mul(0, 7), 0);
    assert_eq!(GF16::mul(1, 9), 9);

    for a in 1..16 {
        let inv = GF16::div(1, a).expect("Valid GF(16) inverse");
        assert_eq!(GF16::mul(a, inv), 1);
    }
}

#[test]
fn test_z_spar_lossless_roundtrip_no_drift() {
    let original = Concept8DState::new(1, 2, 8, 4, 12, 1, 6, 15);
    let codeword = SemanticCodeword8D::encode(original);

    let bytes = codeword.to_bytes();
    assert_eq!(bytes.len(), 6);

    let decoded = SemanticCodeword8D::from_bytes(&bytes);
    assert_eq!(decoded.state, original);

    let verify_result = ZSparEngine::verify_and_repair(decoded.state, decoded.parity);
    assert_eq!(verify_result, SemanticSyndromeResult::ExactMatch);
}

#[test]
fn test_z_spar_single_axis_model_semantic_drift_correction() {
    let true_intent = Concept8DState::new(1, 4, 8, 15, 10, 1, 2, 14);
    let codeword = SemanticCodeword8D::encode(true_intent);
    let drifted_intent = Concept8DState::new(1, 4, 3, 15, 10, 1, 2, 14);
    let result = ZSparEngine::verify_and_repair(drifted_intent, codeword.parity);
    match result {
        SemanticSyndromeResult::Corrected { drifted_axes, corrected_state } => {
            assert_eq!(drifted_axes, vec![2]);
            assert_eq!(corrected_state.operation, 8);
            assert_eq!(corrected_state, true_intent);
        }
        _ => panic!("Expected single-axis correction"),
    }
}

#[test]
fn test_z_spar_two_axis_cross_model_semantic_drift_correction() {
    let true_intent = Concept8DState::new(3, 7, 8, 15, 9, 2, 4, 12);
    let codeword = SemanticCodeword8D::encode(true_intent);
    let drifted_intent = Concept8DState::new(3, 7, 2, 5, 9, 2, 4, 12);
    let result = ZSparEngine::verify_and_repair(drifted_intent, codeword.parity);
    match result {
        SemanticSyndromeResult::Corrected { drifted_axes, corrected_state } => {
            assert_eq!(drifted_axes, vec![2, 3]);
            assert_eq!(corrected_state.operation, 8);
            assert_eq!(corrected_state.modality, 15);
            assert_eq!(corrected_state, true_intent);
        }
        _ => panic!("Expected dual-axis correction"),
    }
}

#[test]
fn test_z_spar_semantic_invariant_guard() {
    let mut guard_tx = SemanticInvariantGuard::new();
    guard_tx.protect_entity("valve_id", "VALVE_7");
    guard_tx.protect_number("pressure_psi", 50);
    guard_tx.set_negation(false);

    let mut guard_rx_valid = SemanticInvariantGuard::new();
    guard_rx_valid.protect_entity("valve_id", "VALVE_7");
    guard_rx_valid.protect_number("pressure_psi", 50);
    guard_rx_valid.set_negation(false);

    let mut guard_rx_tampered = SemanticInvariantGuard::new();
    guard_rx_tampered.protect_entity("valve_id", "VALVE_9");
    guard_rx_tampered.protect_number("pressure_psi", 50);
    guard_rx_tampered.set_negation(false);

    assert!(guard_tx.verify_invariants(&guard_rx_valid));
    assert!(!guard_tx.verify_invariants(&guard_rx_tampered));
}

#[test]
fn gf16_division_by_zero_is_refused() {
    assert!(GF16::div(3, 0).is_err());
    assert_eq!(GF16::div(0, 5), Ok(0));
}

#[test]
fn gf16_power_and_tables_agree() {
    assert_eq!(GF16::power(2, 0), 1);
    assert_eq!(GF16::power(2, 4), 3);
    assert_eq!(GF16::power(0, 3), 0);
    assert_eq!(GF16::mul(2, 8), 3);
}

#[test]
fn concept_state_dword_round_trips() {
    let s = Concept8DState::new(1, 2, 3, 4, 5, 6, 7, 8);
    assert_eq!(s.to_dword(), 0x12345678);
    assert_eq!(Concept8DState::from_dword(0x12345678), s);
    assert_eq!(Concept8DState::from_symbols(&s.to_symbols()), s);
}

#[test]
fn every_single_axis_drift_is_repaired() {
    let original = Concept8DState::new(3, 7, 8, 15, 9, 2, 4, 12);
    let codeword = SemanticCodeword8D::encode(original);
    for axis in 0..8 {
        let mut syms = original.to_symbols();
        syms[axis] = (syms[axis] + 5) % 16;
        let drifted = Concept8DState::from_symbols(&syms);
        match ZSparEngine::verify_and_repair(drifted, codeword.parity) {
            SemanticSyndromeResult::Corrected { drifted_axes, corrected_state } => {
                assert_eq!(drifted_axes, vec![axis]);
                assert_eq!(corrected_state, original);
            }
            other => panic!("axis {} not repaired: {:?}", axis, other),
        }
    }
}

#[test]
fn repair_chirp_packs_fields() {
    let chirp = ZSparEngine::build_repair_chirp(7, 0b0000_0100, 0x3C);
    assert_eq!(chirp[0], 7);
    assert_eq!(chirp[1], 0b0000_0100);
    assert_eq!(chirp[2], 0x3C);
}

#[test]
fn invariant_guard_detects_negation_and_number_changes() {
    let mut a = SemanticInvariantGuard::new();
    a.protect_number("pressure_psi", 50);
    let mut b = SemanticInvariantGuard::new();
    b.protect_number("pressure_psi", 51);
    assert!(!a.verify_invariants(&b));
    let mut c = SemanticInvariantGuard::new();
    c.protect_number("pressure_psi", 50);
    c.set_negation(true);
    assert!(!a.verify_invariants(&c));
}

#[test]
fn every_two_axis_drift_is_repaired() {
    let original = Concept8DState::new(3, 7, 8, 15, 9, 2, 4, 12);
    let codeword = SemanticCodeword8D::encode(original);
    for i1 in 0..8 {
        for i2 in (i1 + 1)..8 {
            for delta in [1u8, 6, 15] {
                let mut syms = original.to_symbols();
                syms[i1] = (syms[i1] + delta) % 16;
                syms[i2] = (syms[i2] + 16 - delta) % 16;
                let drifted = Concept8DState::from_symbols(&syms);
                match ZSparEngine::verify_and_repair(drifted, codeword.parity) {
                    SemanticSyndromeResult::Corrected { drifted_axes, corrected_state } => {
                        assert_eq!(drifted_axes, vec![i1, i2]);
                        assert_eq!(corrected_state, original);
                    }
                    other => panic!("axes {} {} not repaired: {:?}", i1, i2, other),
                }
            }
        }
    }
}

#[test]
fn gf16_product_is_a_field_product() {
    for a in 0..16u8 {
        assert_eq!(GF16::mul(1, a), a);
        for b in 0..16u8 {
            assert_eq!(GF16::mul(a, b), GF16::mul(b, a));
            assert_eq!(GF16::mul(a, b) == 0, a == 0 || b == 0);
            if b != 0 {
                let q = GF16::div(a, b).unwrap();
                assert_eq!(GF16::mul(q, b), a);
            }
            for c in 0..16u8 {
                assert_eq!(GF16::mul(GF16::mul(a, b), c), GF16::mul(a, GF16::mul(b, c)));
                assert_eq!(GF16::mul(a, GF16::add(b, c)), GF16::add(GF16::mul(a, b), GF16::mul(a, c)));
            }
        }
    }
}

#[test]
fn corrected_state_has_the_expected_parity() {
    let sent = Concept8DState::new(1, 2, 3, 4, 5, 6, 7, 8);
    let parity = SemanticCodeword8D::encode(sent).parity;
    let received = Concept8DState::new(9, 2, 3, 4, 5, 0, 7, 8);
    match ZSparEngine::verify_and_repair(received, parity) {
        SemanticSyndromeResult::Corrected { drifted_axes, corrected_state } => {
            assert_eq!(drifted_axes, vec![0, 5]);
            assert_eq!(SemanticCodeword8D::encode(corrected_state).parity, parity);
            assert_eq!(corrected_state, sent);
        }
        other => panic!("expected a repair, got {:?}", other),
    }
    // Three drifted axes exceed the local capacity: whatever is reported, a
    // repair always carries the expected parity.
    let far = Concept8DState::new(9, 9, 9, 4, 5, 6, 7, 8);
    if let SemanticSyndromeResult::Corrected { corrected_state, drifted_axes } =
        ZSparEngine::verify_and_repair(far, parity)
    {
        assert!(drifted_axes.len() <= 2);
        assert_eq!(SemanticCodeword8D::encode(corrected_state).parity, parity);
    }
}

#[test]
fn invariant_guard_verifies_against_itself() {
    let mut guard = SemanticInvariantGuard::new();
    guard.protect_entity("valve_id", "VALVE_7");
    guard.protect_entity("valve_id", "VALVE_9");
    guard.protect_number("pressure_psi", 50);
    guard.protect_number("pressure_psi", 70);
    guard.set_negation(true);
    assert!(guard.verify_invariants(&guard));
    let mut other = SemanticInvariantGuard::new();
    other.protect_entity("valve_id", "VALVE_9");
    other.protect_number("pressure_psi", 70);
    other.protect_number("extra", 1);
    other.set_negation(true);
    assert!(guard.verify_invariants(&other));
    assert!(!other.verify_invariants(&guard));
}
