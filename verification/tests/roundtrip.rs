fn round_trip(data: &[u8]) {
    let packed = lzhuf::compress(data);
    let restored = lzhuf::decompress(&packed, data.len());
    assert_eq!(restored, data);
}

#[test]
fn round_trip_empty() {
    round_trip(b"");
}

#[test]
fn round_trip_small_literal_run() {
    round_trip(b"a");
    round_trip(b"abcdefghij");
}

#[test]
fn round_trip_repeats_exercise_matches() {
    round_trip(&b"FCKAFD".repeat(64));
    round_trip(&[0u8; 5000]);
}

#[test]
fn round_trip_all_byte_values() {
    let data: Vec<u8> = (0..=255u8).cycle().take(8192).collect();
    round_trip(&data);
}

#[test]
fn compress_then_decompress_is_shorter_for_redundant_data() {
    let data = b"Science class should not end in tragedy. ".repeat(256);
    let packed = lzhuf::compress(&data);
    assert!(packed.len() < data.len());
    assert_eq!(lzhuf::decompress(&packed, data.len()), data);
}
