use zymatica_engine::cascade::{
    is_latin1_alphanumeric, CascadeError, CascadeStage, Level1Tokenizer, Level2PrefixSuffix, Level3Delta, Level4Rle,
    Level5FreqReorder, Level6Zlib, ModelEndpoint, ModelFallbackChain, ModelTier, UFOPipeline,
};

fn get_full_pipeline() -> UFOPipeline<CascadeStage> {
    UFOPipeline::new(vec![
        CascadeStage::Tokenizer,
        CascadeStage::PrefixSuffix,
        CascadeStage::Delta,
        CascadeStage::Rle,
        CascadeStage::FreqReorder,
        CascadeStage::Zlib,
    ])
}

#[test]
fn test_cascade_empty_input() {
    let pipeline = get_full_pipeline();
    let input = b"";
    let (compressed, _) = pipeline.compress(input).expect("compress");
    let decompressed = pipeline.decompress(&compressed).expect("decompress");
    assert_eq!(input.to_vec(), decompressed);
}

#[test]
fn test_cascade_lossless_text() {
    let pipeline = get_full_pipeline();
    let input = "Hello,   World!\nThis is a\tlossless test.\n\n   Spaces galore!   ";
    let (compressed, _) = pipeline.compress(input.as_bytes()).expect("compress");
    let decompressed = pipeline.decompress(&compressed).expect("decompress");
    assert_eq!(input.as_bytes(), decompressed.as_slice());
}

#[test]
fn test_cascade_all_256_byte_values() {
    let pipeline = get_full_pipeline();
    let mut input = Vec::with_capacity(256);
    for i in 0..=255 {
        input.push(i as u8);
    }
    let (compressed, _) = pipeline.compress(&input).expect("compress");
    let decompressed = pipeline.decompress(&compressed).expect("decompress");
    assert_eq!(input, decompressed);
}

#[test]
fn test_cascade_large_dictionary() {
    let pipeline = get_full_pipeline();
    let mut text = String::new();
    for i in 0..300 {
        text.push_str(&format!("word{} ", i));
    }
    let input = text.trim_end();
    let (compressed, _) = pipeline.compress(input.as_bytes()).expect("compress");
    let decompressed = pipeline.decompress(&compressed).expect("decompress");
    assert_eq!(input.as_bytes(), decompressed.as_slice());
}

#[test]
fn test_cascade_malformed_streams() {
    let pipeline = get_full_pipeline();
    assert!(pipeline.decompress(&[0]).is_err());
    assert!(pipeline.decompress(&[0, 1]).is_err());
    assert!(pipeline.decompress(&[0, 5, 255]).is_err());
}

#[test]
fn test_model_fallback_cascade_switches_tiers() {
    let mut chain = ModelFallbackChain::default_cascade();
    let (output, tier) = chain
        .execute_with_fallback(|ep: &ModelEndpoint| {
            if ep.tier == ModelTier::LocalGpu {
                Err("GPU Out of Memory".to_string())
            } else {
                Ok(format!("Generated by {}", ep.name))
            }
        })
        .expect("fallback");
    assert_eq!(tier, ModelTier::LocalCpu);
    assert!(output.contains("local-cpu-quantized"));
}

#[test]
fn fallback_gives_up_when_every_endpoint_fails() {
    let mut chain = ModelFallbackChain::new(vec![ModelEndpoint {
        name: "only".to_string(),
        tier: ModelTier::RemoteMcp,
        enabled: true,
        max_consecutive_failures: 2,
    }]);
    let r = chain.execute_with_fallback(|_ep: &ModelEndpoint| Err("down".to_string()));
    assert_eq!(r, Err(CascadeError::AllEndpointsFailed));
    let again = chain.execute_with_fallback(|_ep: &ModelEndpoint| Ok("up".to_string()));
    assert_eq!(again, Err(CascadeError::AllEndpointsFailed));
}

#[test]
fn fallback_skips_disabled_endpoints() {
    let mut chain = ModelFallbackChain::new(vec![
        ModelEndpoint { name: "gpu".to_string(), tier: ModelTier::LocalGpu, enabled: false, max_consecutive_failures: 3 },
        ModelEndpoint { name: "swarm".to_string(), tier: ModelTier::P2pSwarm, enabled: true, max_consecutive_failures: 3 },
    ]);
    let r = chain.execute_with_fallback(|ep: &ModelEndpoint| Ok(ep.name.clone())).unwrap();
    assert_eq!(r, ("swarm".to_string(), ModelTier::P2pSwarm));
}

#[test]
fn intermediates_record_every_level() {
    let pipeline = get_full_pipeline();
    let (_, inter) = pipeline.compress(b"abcabcabc").unwrap();
    assert_eq!(inter.len(), 7);
    assert_eq!(inter[0], ("Input".to_string(), 9));
    assert_eq!(inter[1].0, "Level 1");
    assert_eq!(inter[6].0, "Level 6");
}

#[test]
fn delta_stage_known_bytes() {
    let out = Level3Delta.compress(&[10, 12, 11]).unwrap();
    assert_eq!(out, vec![0, 3, 10, 2, 255]);
    assert_eq!(Level3Delta.decompress(&out).unwrap(), vec![10, 12, 11]);
    assert_eq!(Level3Delta.compress(&[]).unwrap(), vec![0, 0]);
    assert_eq!(Level3Delta.decompress(&[0]), Err(CascadeError::InputTooShort));
    assert_eq!(Level3Delta.decompress(&[0, 5, 1]), Err(CascadeError::UnexpectedEof));
}

#[test]
fn rle_stage_known_bytes() {
    let out = Level4Rle.compress(&[7, 7, 7, 7, 255, 1]).unwrap();
    assert_eq!(out, vec![0, 6, 0xFF, 4, 7, 0xFF, 1, 0xFF, 1]);
    assert_eq!(Level4Rle.decompress(&out).unwrap(), vec![7, 7, 7, 7, 255, 1]);
    assert_eq!(Level4Rle.decompress(&[1]), Err(CascadeError::InputTooShort));
}

#[test]
fn dedup_stage_refers_to_repeated_chunks() {
    let out = Level2PrefixSuffix.compress(b"abcdabcdxy").unwrap();
    assert_eq!(out, vec![0, 10, 4, b'a', b'b', b'c', b'd', 0xFF, 0, 0, 2, b'x', b'y']);
    assert_eq!(Level2PrefixSuffix.decompress(&out).unwrap(), b"abcdabcdxy".to_vec());
    assert_eq!(Level2PrefixSuffix.decompress(&[0, 4, 0xFF, 0, 0]), Err(CascadeError::MissingReference));
}

#[test]
fn reorder_stage_ranks_by_frequency() {
    let out = Level5FreqReorder.compress(&[3, 1, 1, 2, 2]).unwrap();
    assert_eq!(out, vec![2, 1, 2, 3, 0, 5, 2, 0, 0, 1, 1]);
    assert_eq!(Level5FreqReorder.decompress(&out).unwrap(), vec![3, 1, 1, 2, 2]);
    assert_eq!(Level5FreqReorder.decompress(&[0, 9, 0, 1, 1]), Err(CascadeError::IndexOutOfRange));
}

#[test]
fn tokenizer_stage_builds_vocabulary() {
    let out = Level1Tokenizer.compress(b"ab ab").unwrap();
    assert_eq!(out, vec![0, 2, 2, b'a', b'b', 1, b' ', 0, 1, 0]);
    assert_eq!(Level1Tokenizer.decompress(&out).unwrap(), b"ab ab".to_vec());
    let latin = Level1Tokenizer.compress(&[0xE9]).unwrap();
    assert_eq!(latin, vec![0, 1, 2, 0xC3, 0xA9, 0]);
    assert_eq!(Level1Tokenizer.decompress(&[0, 1, 1, 0xFF, 0]), Err(CascadeError::InvalidUtf8));
}

#[test]
fn zlib_stage_round_trips_and_changes_bytes() {
    let input = b"aaaaaaaaaaaaaaaaaaaaaaaaaaaaaaaaaaaaaaaa".to_vec();
    let out = Level6Zlib.compress(&input).unwrap();
    assert_eq!(&out[..2], &[0, 40]);
    assert_ne!(out[2..].to_vec(), input);
    assert_eq!(Level6Zlib.decompress(&out).unwrap(), input);
    assert_eq!(Level6Zlib.decompress(&[0, 1, 9, 9]), Err(CascadeError::Zlib));
}

#[test]
fn latin1_alphanumeric_matches_char_classes() {
    for b in 0..=255u8 {
        assert_eq!(is_latin1_alphanumeric(b), (b as char).is_alphanumeric(), "byte {}", b);
    }
}

#[test]
fn pipeline_of_one_stage_type_round_trips() {
    let pipeline = UFOPipeline::new(vec![Level3Delta, Level3Delta]);
    let input = b"monotone 0123456789 ramp".to_vec();
    let (compressed, sizes) = pipeline.compress(&input).unwrap();
    assert_eq!(sizes.len(), 3);
    assert_eq!(pipeline.decompress(&compressed).unwrap(), input);
}

#[test]
fn zlib_stage_always_compresses_within_sixteen_bits() {
    let data = vec![7u8; 65535];
    let out = Level6Zlib.compress(&data).unwrap();
    assert_eq!(&out[..2], &[0xFF, 0xFF]);
    assert_eq!(Level6Zlib.decompress(&out).unwrap(), data);
    assert_eq!(Level6Zlib.compress(&vec![0u8; 65536]), Err(CascadeError::InputTooLarge));
}

#[test]
fn open_breaker_is_never_called_again() {
    let mut chain = ModelFallbackChain::default_cascade();
    let calls = std::cell::Cell::new(0usize);
    let first = chain.execute_with_fallback(|ep: &ModelEndpoint| {
        if ep.tier == ModelTier::LocalGpu {
            calls.set(calls.get() + 1);
            Err("GPU Out of Memory".to_string())
        } else {
            Ok(ep.name.clone())
        }
    });
    assert_eq!(first, Ok(("local-cpu-quantized".to_string(), ModelTier::LocalCpu)));
    assert_eq!(calls.get(), 3);
    // The GPU breaker is open now: even a closure that would succeed there is
    // answered from the next tier.
    let second = chain.execute_with_fallback(|ep: &ModelEndpoint| Ok(ep.name.clone()));
    assert_eq!(second, Ok(("local-cpu-quantized".to_string(), ModelTier::LocalCpu)));
}
