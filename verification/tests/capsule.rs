use sha2::Digest;
use std::io::Write;
use zymatica_engine::capsule::{
    decode_ufo_stage, decode_varint, first_unmanifested_member, validate_manifest_integrity_policy, has_windows_path_syntax, is_sha256_hex, level1_tokenization_decode, level2_prefix_suffix_decode,
    level3_delta_varint_decode, level5_dictionary_decode, level6_zlib_decode, level7_geometric_decode,
    level8_dna_decode, level9_cosmic_hash_decode, ufo_level, unframe, unzigzag, verify_digest_and_size,
    CapsuleCacheStatus, CapsuleError, ManifestEntryFacts, ManifestViolation,
};

fn encode_varint(mut value: u64) -> Vec<u8> {
    let mut out = Vec::new();
    loop {
        let byte = (value & 0x7f) as u8;
        value >>= 7;
        if value == 0 {
            out.push(byte);
            return out;
        }
        out.push(byte | 0x80);
    }
}

fn frame(stage: u8, payload: &[u8]) -> Vec<u8> {
    let mut out = b"UFO9".to_vec();
    out.push(stage);
    out.extend(encode_varint(payload.len() as u64));
    out.extend_from_slice(payload);
    out
}

#[test]
fn varints_and_zigzag() {
    assert_eq!(decode_varint(&[0x96, 0x01], 0), Ok((150, 2)));
    assert_eq!(decode_varint(&[0x80], 0), Err(CapsuleError::TruncatedVarint));
    assert_eq!(decode_varint(&[0xff; 11], 0), Err(CapsuleError::VarintTooLarge));
    assert_eq!(unzigzag(0), 0);
    assert_eq!(unzigzag(1), -1);
    assert_eq!(unzigzag(4), 2);
    assert_eq!(unzigzag(u64::MAX), i64::MIN);
}

#[test]
fn unframe_checks_magic_stage_and_length() {
    let f = frame(3, &[1, 2, 3]);
    assert_eq!(unframe(3, &f), Ok(&[1u8, 2, 3][..]));
    assert_eq!(unframe(4, &f), Err(CapsuleError::WrongStage));
    assert_eq!(unframe(3, b"XXXX\x03\x00"), Err(CapsuleError::MissingMagic));
    let mut long = f.clone();
    long.push(0);
    assert_eq!(unframe(3, &long), Err(CapsuleError::FrameLengthMismatch));
}

#[test]
fn delta_stage_decodes_zigzag_residuals() {
    let mut payload = encode_varint(3);
    payload.push(10);
    payload.extend(encode_varint(4));
    payload.extend(encode_varint(3));
    let out = level3_delta_varint_decode(&frame(3, &payload)).unwrap();
    assert_eq!(out, Ok(vec![10, 12, 10]));
}

#[test]
fn geometric_stage_uses_repeating_centroids() {
    let mut payload = encode_varint(4);
    payload.extend_from_slice(&[100, 50, 0]);
    for r in [0u64, 2, 1, 2] {
        payload.extend(encode_varint(r));
    }
    assert_eq!(level7_geometric_decode(&frame(7, &payload)).unwrap(), Ok(vec![100, 51, 255, 101]));
}

#[test]
fn cosmic_hash_stage_rejects_tampering() {
    let body = b"capsule body".to_vec();
    let digest = sha2::Sha256::digest(&body);
    let mut payload = encode_varint(body.len() as u64);
    payload.extend_from_slice(&digest);
    payload.extend_from_slice(&body);
    assert_eq!(level9_cosmic_hash_decode(&frame(9, &payload)), Ok(body.clone()));
    let n = payload.len();
    payload[n - 1] ^= 1;
    assert_eq!(level9_cosmic_hash_decode(&frame(9, &payload)), Err(CapsuleError::HashMismatch));
}

#[test]
fn dictionary_stage_mixes_references_and_literals() {
    let mut payload = encode_varint(7);
    payload.extend(encode_varint(2));
    payload.extend(encode_varint(1));
    payload.extend_from_slice(b"ab");
    payload.extend_from_slice(&[1, 0, 0]);
    payload.extend(encode_varint(3));
    payload.extend_from_slice(b"xyz");
    payload.extend_from_slice(&[1, 0]);
    assert_eq!(level5_dictionary_decode(&frame(5, &payload)).unwrap(), Ok(b"abxyzab".to_vec()));
    let mut bad = encode_varint(0);
    bad.extend(encode_varint(1));
    bad.extend(encode_varint(0));
    bad.extend_from_slice(&[7]);
    assert_eq!(level5_dictionary_decode(&frame(5, &bad)).unwrap(), Err(CapsuleError::UnknownToken));
}

#[test]
fn dna_stage_truncates_to_length() {
    let mut payload = encode_varint(3);
    payload.extend(encode_varint(1));
    payload.extend(encode_varint(2));
    payload.extend_from_slice(b"GA");
    payload.extend_from_slice(&[1, 0, 1, 0]);
    assert_eq!(level8_dna_decode(&frame(8, &payload)).unwrap(), Ok(b"GAG".to_vec()));
}

#[test]
fn prefix_suffix_stage_reuses_prefixes() {
    let mut payload = encode_varint(8);
    payload.extend(encode_varint(4));
    payload.extend(encode_varint(0));
    payload.extend(encode_varint(4));
    payload.extend_from_slice(b"abcd");
    payload.extend(encode_varint(2));
    payload.extend(encode_varint(2));
    payload.extend_from_slice(b"xy");
    assert_eq!(level2_prefix_suffix_decode(&frame(2, &payload)).unwrap(), Ok(b"abcdabxy".to_vec()));
    let mut bad = encode_varint(0);
    bad.extend(encode_varint(4));
    bad.extend(encode_varint(1));
    bad.extend(encode_varint(0));
    assert_eq!(level2_prefix_suffix_decode(&frame(2, &bad)).unwrap(), Err(CapsuleError::PrefixTooLong));
}

#[test]
fn tokenizer_stage_modes() {
    let mut raw = vec![0u8];
    raw.extend(encode_varint(3));
    raw.extend_from_slice(b"abc");
    assert_eq!(level1_tokenization_decode(&frame(1, &raw)).unwrap(), Ok(b"abc".to_vec()));
    let mut tok = vec![1u8];
    tok.extend(encode_varint(5));
    tok.extend(encode_varint(2));
    tok.extend(encode_varint(2));
    tok.extend_from_slice(b"he");
    tok.extend(encode_varint(1));
    tok.extend_from_slice(b"y");
    tok.extend(encode_varint(3));
    for id in [0u64, 1, 0] {
        tok.extend(encode_varint(id));
    }
    assert_eq!(level1_tokenization_decode(&frame(1, &tok)), Some(Ok(b"heyhe".to_vec())));
    assert_eq!(level1_tokenization_decode(&frame(1, &[2, 0])).unwrap(), Err(CapsuleError::UnknownMode));
}

#[test]
fn zlib_stage_checks_length() {
    let mut enc = flate2::write::ZlibEncoder::new(Vec::new(), flate2::Compression::default());
    enc.write_all(b"hello hello").unwrap();
    let z = enc.finish().unwrap();
    let mut payload = encode_varint(11);
    payload.extend_from_slice(&z);
    assert_eq!(level6_zlib_decode(&frame(6, &payload)), Ok(b"hello hello".to_vec()));
    let mut wrong = encode_varint(3);
    wrong.extend_from_slice(&z);
    assert_eq!(level6_zlib_decode(&frame(6, &wrong)), Err(CapsuleError::LengthMismatch));
}

#[test]
fn manifest_checks() {
    assert!(is_sha256_hex(&"a".repeat(64)));
    assert!(!is_sha256_hex(&"g".repeat(64)));
    assert!(!is_sha256_hex("abc"));
    assert!(has_windows_path_syntax("C:\\models"));
    assert!(has_windows_path_syntax("c:models"));
    assert!(!has_windows_path_syntax("models/config.json"));
    assert_eq!(ufo_level(None, "ufo9"), Ok(9));
    assert_eq!(ufo_level(None, "ufo3"), Ok(3));
    assert_eq!(ufo_level(None, "ufo+4"), Ok(4));
    assert_eq!(ufo_level(None, "ufo12"), Err(CapsuleError::LevelOutOfRange));
    assert_eq!(ufo_level(None, "ufox"), Err(CapsuleError::NotUfo));
    assert_eq!(ufo_level(None, "raw"), Err(CapsuleError::NotUfo));
    assert_eq!(ufo_level(Some(0), "ufo9"), Err(CapsuleError::LevelOutOfRange));
    assert_eq!(verify_digest_and_size(3, "aa", 3, ""), Ok(()));
    assert_eq!(verify_digest_and_size(3, "aa", 4, ""), Err(CapsuleError::SizeMismatch));
    assert_eq!(verify_digest_and_size(3, "aa", 3, "bb"), Err(CapsuleError::HashMismatch));
    assert_eq!(CapsuleCacheStatus::ReusedVerified.as_str(), "reused-verified");
}

#[test]
fn stage_dispatch_follows_the_level() {
    assert_eq!(decode_ufo_stage(0, &[]), Some(Err(CapsuleError::LevelOutOfRange)));
    assert_eq!(decode_ufo_stage(10, &[1, 2, 3]), Some(Err(CapsuleError::LevelOutOfRange)));
    let framed = frame(3, &[3, 10, 4, 1]);
    assert_eq!(decode_ufo_stage(3, &framed), level3_delta_varint_decode(&framed));
    assert_eq!(decode_ufo_stage(7, &framed), Some(Err(CapsuleError::WrongStage)));
}

fn entry(path: &str, archive: &str, sha: &str) -> ManifestEntryFacts {
    ManifestEntryFacts {
        path: path.to_string(),
        archive_name: archive.to_string(),
        path_safe: true,
        archive_name_safe: true,
        original_sha256: sha.to_string(),
        stored_payload_sha256: None,
    }
}

#[test]
fn manifest_policy_reports_first_broken_rule() {
    let hex = "ab".repeat(32);
    let ok = vec![entry("config.json", "config.json", &hex), entry("model.bin", "m.bin", "")];
    assert_eq!(validate_manifest_integrity_policy("ufo-model-capsule-v1", &ok), Ok(()));
    assert_eq!(
        validate_manifest_integrity_policy("ufo-v2", &ok),
        Err((1, ManifestViolation::MissingDirectHash))
    );
    let dup = vec![entry("a", "x", ""), entry("a", "y", "")];
    assert_eq!(validate_manifest_integrity_policy("v1", &dup), Err((1, ManifestViolation::DuplicatePath)));
    let dup_archive = vec![entry("a", "x", ""), entry("b", "x", "")];
    assert_eq!(
        validate_manifest_integrity_policy("v1", &dup_archive),
        Err((1, ManifestViolation::DuplicateArchiveName))
    );
    let mut unsafe_entry = entry("../a", "a", "");
    unsafe_entry.path_safe = false;
    assert_eq!(validate_manifest_integrity_policy("v1", &[unsafe_entry]), Err((0, ManifestViolation::UnsafePath)));
    assert_eq!(
        validate_manifest_integrity_policy("v1", &[entry("a", "a", "xyz")]),
        Err((0, ManifestViolation::InvalidHash))
    );
    let mut stored = entry("a", "a", "");
    stored.stored_payload_sha256 = Some("nothex".to_string());
    assert_eq!(validate_manifest_integrity_policy("v1", &[stored]), Err((0, ManifestViolation::InvalidStoredHash)));
}

#[test]
fn archive_members_must_be_manifested() {
    let entries = vec![entry("config.json", "config.json", "")];
    let members = vec![
        ("capsule-index.json".to_string(), false),
        ("dir/".to_string(), true),
        ("config.json".to_string(), false),
    ];
    assert_eq!(first_unmanifested_member(&members, "capsule-index.json", &entries), None);
    let extra = vec![("config.json".to_string(), false), ("unexpected.bin".to_string(), false)];
    assert_eq!(first_unmanifested_member(&extra, "capsule-index.json", &entries), Some(1));
}
