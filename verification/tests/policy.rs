use zymatica_engine::concept_constraints::{ConceptBounds6D, ConceptConstraintMask, ConstraintError};
use zymatica_engine::cuneiform::{token_id_to_concept, Concept6D};
use zymatica_engine::ecosystem::{
    algebraic_hash_chain, count_valid_signatures, hex_encode, select_accelerator, sha256_hex, AcceleratorType,
    ConsensusError, RadixSync, ValidatorNode,
};
use zymatica_engine::edge_policy::{
    display_mb, downgrade_one, estimated_peak_mb, highest_mode_with_memory, select_quant_mode, thermal_action,
    thermal_step, upgrade_one, AutoPriority, SelectionReason, ThermalBand, ThermalQuantizationAction,
};
use zymatica_engine::epigenetic_manifold_crystallizer::EpigeneticManifoldEngine;
use zymatica_engine::gguf::{parse_gguf_header, payload_bytes, total_elements, GgufError};
use zymatica_engine::gpu::{buffer_bytes, pack_bytes_to_words, validate_storage_buffer, BufferLimitError, PersistentGpuKvBuffer};
use zymatica_engine::mcts::token_to_concept;
use zymatica_engine::model::{compile_instructions, QuantMode, StaticInstruction};

#[test]
fn persistent_gpu_kv_buffer_initializes() {
    let buf = PersistentGpuKvBuffer::new(1024 * 1024);
    assert!(buf.resident_vram_active);
    assert_eq!(buf.capacity_bytes, 1024 * 1024);
}

#[test]
fn concept_bounds_mask_tokens_by_coordinates() {
    let target_token = 42;
    let target = token_id_to_concept(target_token);
    let bounds = ConceptBounds6D::new(target, target).unwrap();
    let mask = ConceptConstraintMask::single(bounds);
    let (allowed, count) = mask.token_mask(96);
    assert!(count >= 1);
    assert!(allowed[target_token]);
    for (token_id, ok) in allowed.iter().enumerate() {
        if token_id_to_concept(token_id) != target {
            assert!(!ok);
        }
    }
    assert_eq!(count, allowed.iter().filter(|b| **b).count());
}

#[test]
fn inverted_bounds_and_empty_masks_are_refused() {
    let lo = Concept6D::new(1, 5, 1, 1, 1, 1);
    let hi = Concept6D::new(2, 4, 0, 1, 1, 1);
    assert_eq!(ConceptBounds6D::new(lo, hi), Err(ConstraintError::InvertedAxis { axis: 1, lo: 5, hi: 4 }));
    assert_eq!(ConceptConstraintMask::new(vec![]), Err(ConstraintError::NoBounds));
    let b = ConceptBounds6D::new(Concept6D::new(0, 0, 0, 0, 0, 0), Concept6D::new(3, 3, 3, 3, 3, 3)).unwrap();
    assert!(b.contains(Concept6D::new(3, 0, 2, 1, 3, 0)));
    assert!(!b.contains(Concept6D::new(4, 0, 2, 1, 3, 0)));
    let m = ConceptConstraintMask::new(vec![b]).unwrap();
    assert!(m.allows_concept(Concept6D::new(1, 1, 1, 1, 1, 1)));
    assert_eq!(m.allows_token(7), b.contains(token_id_to_concept(7)));
}

#[test]
fn auto_selection_follows_memory_heat_and_priority() {
    assert_eq!(select_quant_mode(Some(1400), Some(4096), false, true, AutoPriority::Balanced).0, QuantMode::Q4);
    assert_eq!(
        select_quant_mode(Some(5200), Some(8192), false, true, AutoPriority::Balanced),
        (QuantMode::Q5, SelectionReason::BalancedArmEdge)
    );
    assert_eq!(select_quant_mode(Some(6200), Some(8192), false, true, AutoPriority::Parity).0, QuantMode::Q8);
    assert_eq!(
        select_quant_mode(Some(6200), Some(8192), true, true, AutoPriority::Parity),
        (QuantMode::Q4, SelectionReason::ThermalPressure)
    );
    assert_eq!(select_quant_mode(None, None, false, false, AutoPriority::Throughput).0, QuantMode::Q4);
}

#[test]
fn thermal_controller_steps_down_and_back_up() {
    let q8_min = estimated_peak_mb(QuantMode::Q8) + 512;
    let q5_min = estimated_peak_mb(QuantMode::Q5) + 384;
    let m1 = thermal_step(ThermalBand::Hot, QuantMode::Q8, Some(6200), q8_min, q5_min);
    assert_eq!(m1, QuantMode::Q5);
    assert_eq!(thermal_action(QuantMode::Q8, m1), ThermalQuantizationAction::Downgrade);
    let m2 = thermal_step(ThermalBand::Critical, m1, Some(6200), q8_min, q5_min);
    assert_eq!(m2, QuantMode::Q4);
    let m3 = thermal_step(ThermalBand::Cool, m2, Some(6200), q8_min, q5_min);
    assert_eq!(m3, QuantMode::Q5);
    let m4 = thermal_step(ThermalBand::Cool, m3, Some(6200), q8_min, q5_min);
    assert_eq!(m4, QuantMode::Q8);
    assert_eq!(thermal_action(m3, m4), ThermalQuantizationAction::Upgrade);
    let held = thermal_step(ThermalBand::Cool, QuantMode::Q4, Some(1200), q8_min, q5_min);
    assert_eq!(held, QuantMode::Q4);
    assert_eq!(thermal_action(QuantMode::Q4, held), ThermalQuantizationAction::Hold);
}

#[test]
fn mode_steps_and_names() {
    assert_eq!(downgrade_one(QuantMode::Q1_58), QuantMode::Q1_58);
    assert_eq!(upgrade_one(QuantMode::Q8), QuantMode::Q8);
    assert_eq!(highest_mode_with_memory(QuantMode::Q8, Some(800), 2812, 1984), QuantMode::Q3);
    assert_eq!(highest_mode_with_memory(QuantMode::Q8, None, 2812, 1984), QuantMode::Q8);
    assert_eq!(QuantMode::Q1_58.as_str(), "q1_58");
    assert_eq!(display_mb(Some(1024)), "1024");
    assert_eq!(display_mb(None), "unknown");
    assert_eq!(AutoPriority::from_setting(b"SPEED"), AutoPriority::Throughput);
    assert_eq!(AutoPriority::from_setting(b"Quality"), AutoPriority::Parity);
    assert_eq!(AutoPriority::from_setting(b"other"), AutoPriority::Balanced);
}

#[test]
fn instruction_schedule_has_twelve_steps_per_layer() {
    let ins = compile_instructions(2);
    assert_eq!(ins.len(), 24);
    assert_eq!(ins[0], StaticInstruction::LayerStart { layer_idx: 0 });
    assert_eq!(ins[13], StaticInstruction::InputNorm { layer_idx: 1 });
    assert_eq!(ins[23], StaticInstruction::CheckEarlyExit { layer_idx: 1 });
}

#[test]
fn hex_and_hash_chain() {
    assert_eq!(hex_encode(&[0x00, 0xab, 0x7f]), "00ab7f");
    assert_eq!(sha256_hex(b""), "e3b0c44298fc1c149afbf4c8996fb92427ae41e4649b934ca495991b7852b855");
    assert_eq!(algebraic_hash_chain(&[], &[1]), vec![0u8; 32]);
    let h = algebraic_hash_chain(&[1, 2, 3], &[0xCC]);
    assert_eq!(h.len(), 32);
    assert_ne!(h, algebraic_hash_chain(&[1, 2, 4], &[0xCC]));
}

#[test]
fn signature_count_and_accelerators() {
    let validators = vec![
        ValidatorNode { node_id: "node_1".to_string(), public_key: vec![0xAA] },
        ValidatorNode { node_id: "node_2".to_string(), public_key: vec![0xBB] },
    ];
    assert_eq!(count_valid_signatures(&validators, &[vec![0xAA], vec![0xBB]]), Ok(2));
    assert_eq!(count_valid_signatures(&validators, &[vec![0xAA], vec![0x00]]), Ok(1));
    assert_eq!(count_valid_signatures(&validators, &[]), Err(ConsensusError::NoSignatures));
    assert_eq!(select_accelerator(&[AcceleratorType::WgpuGpu, AcceleratorType::SimdCpu], false), AcceleratorType::WgpuGpu);
    assert_eq!(select_accelerator(&[AcceleratorType::WgpuGpu], true), AcceleratorType::SimdCpu);
    assert_eq!(select_accelerator(&[AcceleratorType::MockNpu], false), AcceleratorType::MockNpu);
}

#[test]
fn radix_sync_records_only_changes() {
    let mut sync = RadixSync::new(std::path::PathBuf::from("radix.db"));
    assert!(sync.record_file("a.txt".to_string(), "h1".to_string()));
    assert!(!sync.record_file("a.txt".to_string(), "h1".to_string()));
    assert!(sync.record_file("a.txt".to_string(), "h2".to_string()));
    assert!(sync.record_file("b.txt".to_string(), "h2".to_string()));
}

#[test]
fn small_state_types() {
    let mut engine = EpigeneticManifoldEngine::new(16);
    engine.record_update();
    assert_eq!(engine.update_counter, 1);
    assert_eq!(token_to_concept(9), token_id_to_concept(9));
    assert_eq!(total_elements(&[2, 3, 4]), Some(24));
    assert_eq!(total_elements(&[usize::MAX, 2]), None);
    assert_eq!(payload_bytes(0, 10), Some(40));
    assert_eq!(payload_bytes(8, 64), Some(68));
    assert_eq!(payload_bytes(3, 64), None);
}

fn gguf_string(out: &mut Vec<u8>, s: &str) {
    out.extend_from_slice(&(s.len() as u64).to_le_bytes());
    out.extend_from_slice(s.as_bytes());
}

fn gguf_header(alignment: Option<u32>) -> Vec<u8> {
    let mut b = b"GGUF".to_vec();
    b.extend_from_slice(&3u32.to_le_bytes());
    b.extend_from_slice(&1u64.to_le_bytes());
    b.extend_from_slice(&(if alignment.is_some() { 2u64 } else { 1u64 }).to_le_bytes());
    gguf_string(&mut b, "general.name");
    b.extend_from_slice(&8u32.to_le_bytes());
    gguf_string(&mut b, "tiny");
    if let Some(a) = alignment {
        gguf_string(&mut b, "general.alignment");
        b.extend_from_slice(&4u32.to_le_bytes());
        b.extend_from_slice(&a.to_le_bytes());
    }
    gguf_string(&mut b, "tok.weight");
    b.extend_from_slice(&2u32.to_le_bytes());
    b.extend_from_slice(&4u64.to_le_bytes());
    b.extend_from_slice(&3u64.to_le_bytes());
    b.extend_from_slice(&0u32.to_le_bytes());
    b.extend_from_slice(&128u64.to_le_bytes());
    b
}

#[test]
fn gguf_header_parses_tensor_table_and_alignment() {
    let b = gguf_header(None);
    let h = parse_gguf_header(&b).unwrap().unwrap();
    assert_eq!(h.tensors.len(), 1);
    assert_eq!(h.tensors[0].name, "tok.weight");
    assert_eq!(h.tensors[0].dimensions, vec![4, 3]);
    assert_eq!(h.tensors[0].ggml_type, 0);
    assert_eq!(h.tensors[0].offset, 128);
    let end = b.len() as u64;
    assert_eq!(h.data_payload_start, (end + 31) / 32 * 32);
    let b64 = gguf_header(Some(64));
    let h64 = parse_gguf_header(&b64).unwrap().unwrap();
    assert_eq!(h64.data_payload_start, (b64.len() as u64 + 63) / 64 * 64);
    assert!(parse_gguf_header(&gguf_header(Some(0))).is_none());
}

#[test]
fn gguf_header_errors() {
    assert_eq!(parse_gguf_header(b"GG").unwrap().err(), Some(GgufError::Truncated));
    assert_eq!(parse_gguf_header(b"GGML\x03\x00\x00\x00").unwrap().err(), Some(GgufError::NotGguf));
    let mut v1 = b"GGUF".to_vec();
    v1.extend_from_slice(&1u32.to_le_bytes());
    assert_eq!(parse_gguf_header(&v1).unwrap().err(), Some(GgufError::UnsupportedVersion));
    let b = gguf_header(None);
    assert_eq!(parse_gguf_header(&b[..b.len() - 3]).unwrap().err(), Some(GgufError::Truncated));
}

#[test]
fn bytes_pack_little_endian_into_padded_words() {
    assert_eq!(pack_bytes_to_words(&[]), Vec::<u32>::new());
    assert_eq!(pack_bytes_to_words(&[1, 2, 3, 4]), vec![0x0403_0201]);
    assert_eq!(pack_bytes_to_words(&[1, 2, 3, 4, 5, 6]), vec![0x0403_0201, 0x0000_0605]);
    assert_eq!(pack_bytes_to_words(&[0xFF]), vec![0xFF]);
}

#[test]
fn storage_buffers_are_sized_and_checked_against_limits() {
    assert_eq!(buffer_bytes(10), Some(40));
    assert_eq!(buffer_bytes(usize::MAX / 4 + 1), None);
    assert_eq!(validate_storage_buffer(64, 128, 128), Ok(()));
    assert_eq!(validate_storage_buffer(256, 128, 512), Err(BufferLimitError::MaxBufferSize { bytes: 256, limit: 128 }));
    assert_eq!(
        validate_storage_buffer(256, 512, 128),
        Err(BufferLimitError::MaxStorageBinding { bytes: 256, limit: 128 })
    );
}
