use nepali_ime::decode_state;
use nepali_ime::DecodeError;
use nepali_ime::ImeEngine;

#[test]
fn snapshot_round_trip_preserves_suggestions() {
    let mut engine = ImeEngine::new();
    engine.user_confirms("nepal", "नेपाल");
    engine.user_confirms("ma", "म");
    let bytes = engine.snapshot_bytes();
    let restored = ImeEngine::from_snapshot_or_new(Some(&bytes), "user_dictionary.bin");
    assert_eq!(engine.get_suggestions("ne", 5), restored.get_suggestions("ne", 5));
    assert_eq!(engine.get_suggestions("ma", 5), restored.get_suggestions("ma", 5));
    assert_eq!(engine.get_suggestions("nmaste", 5), restored.get_suggestions("nmaste", 5));
}

#[test]
fn snapshot_round_trip_preserves_context() {
    let mut engine = ImeEngine::new();
    engine.user_confirms("ram", "राम");
    engine.user_confirms("sita", "सीता");
    engine.user_confirms("ram", "राम");
    engine.user_confirms("sita", "सीता");
    engine.user_confirms("ram", "राम");
    let bytes = engine.snapshot_bytes();
    let restored = ImeEngine::from_snapshot_or_new(Some(&bytes), "d.bin");
    // The bigram boost survives the round trip.
    assert_eq!(engine.get_suggestions("si", 5), restored.get_suggestions("si", 5));
}

#[test]
fn saving_twice_writes_identical_bytes() {
    let mut engine = ImeEngine::new();
    engine.user_confirms("nepal", "नेपाल");
    engine.user_confirms("namaste", "नमस्ते");
    let first = engine.snapshot_bytes();
    let second = engine.snapshot_bytes();
    assert_eq!(first, second);
}

#[test]
fn decoding_an_encoded_snapshot_succeeds() {
    let mut engine = ImeEngine::new();
    engine.user_confirms("ka", "क");
    let bytes = engine.snapshot_bytes();
    assert!(decode_state(&bytes).is_ok());
}

#[test]
fn ragged_length_is_rejected() {
    let bytes: Vec<u8> = vec![1, 2, 3];
    assert!(matches!(decode_state(&bytes), Err(DecodeError::BadLength)));
}

#[test]
fn wrong_magic_is_rejected() {
    let bytes: Vec<u8> = vec![0; 16];
    assert!(matches!(decode_state(&bytes), Err(DecodeError::BadMagic)));
}

#[test]
fn wrong_version_is_rejected() {
    // A valid magic word followed by an unsupported version.
    let good = ImeEngine::new().snapshot_bytes();
    let mut bytes: Vec<u8> = Vec::new();
    bytes.extend_from_slice(&good[0..8]);
    bytes.extend_from_slice(&u64::MAX.to_le_bytes());
    assert!(matches!(decode_state(&bytes), Err(DecodeError::UnsupportedVersion)));
}

#[test]
fn truncated_snapshot_is_rejected() {
    let mut engine = ImeEngine::new();
    engine.user_confirms("nepal", "नेपाल");
    let bytes = engine.snapshot_bytes();
    let truncated: Vec<u8> = bytes[0..bytes.len() - 8].to_vec();
    assert!(matches!(decode_state(&truncated), Err(DecodeError::Malformed)));
}

#[test]
fn rejected_snapshot_falls_back_to_a_fresh_engine() {
    let garbage: Vec<u8> = vec![7; 24];
    let engine = ImeEngine::from_snapshot_or_new(Some(&garbage), "d.bin");
    assert!(engine.get_suggestions("ne", 5).iter().all(|(_, score)| *score <= 2));
    let fresh = ImeEngine::from_snapshot_or_new(None, "d.bin");
    assert_eq!(engine.get_suggestions("ne", 5), fresh.get_suggestions("ne", 5));
}
