use lzhuf::bits::{BitReader, BitWriter};
use lzhuf::huffman::AdaptiveHuffman;
use lzhuf::{compress, decompress};

/// A deterministic byte generator for test data.
fn pseudo_random(len: usize, seed: u32) -> Vec<u8> {
    let mut state = seed;
    let mut out = Vec::with_capacity(len);
    for _ in 0..len {
        state = state.wrapping_mul(1_103_515_245).wrapping_add(12_345);
        out.push((state >> 16) as u8);
    }
    out
}

#[test]
fn compress_empty_is_empty() {
    assert!(compress(b"").is_empty());
}

#[test]
fn single_literal_has_its_initial_code() {
    // The leaf of 'a' (97) sits nine levels down the starting tree; its code is 111101101.
    assert_eq!(compress(b"a"), vec![0xF6, 0x80]);
    assert_eq!(decompress(&[0xF6, 0x80], 1), b"a".to_vec());
}

#[test]
fn decompress_with_zero_limit_is_empty() {
    let packed = compress(b"hello, hello, hello");
    assert!(decompress(&packed, 0).is_empty());
}

#[test]
fn output_stops_at_the_limit() {
    let data = b"abcabcabcabcabcabcabcabcabcabcabcabc".repeat(40);
    let packed = compress(&data);
    for limit in [1usize, 2, 3, 7, 100, 1000] {
        let out = decompress(&packed, limit);
        assert_eq!(out.len(), limit);
        assert_eq!(&out[..], &data[..limit]);
    }
}

#[test]
fn limit_above_the_data_keeps_the_data_as_prefix() {
    let data = b"the quick brown fox jumps over the lazy dog".to_vec();
    let packed = compress(&data);
    let out = decompress(&packed, data.len() + 16);
    assert!(out.len() >= data.len());
    assert!(out.len() <= data.len() + 16);
    assert_eq!(&out[..data.len()], &data[..]);
}

#[test]
fn garbage_input_is_bounded() {
    for seed in 0..20u32 {
        let junk = pseudo_random(200, seed);
        let out = decompress(&junk, 5000);
        assert!(out.len() <= 5000);
    }
}

#[test]
fn truncated_streams_decode_a_prefix() {
    let data = pseudo_random(300, 7).repeat(3);
    let packed = compress(&data);
    for cut in 0..packed.len() {
        let out = decompress(&packed[..cut], data.len());
        assert!(out.len() <= data.len());
        // A prefix of the stream decodes to a prefix of the data.
        assert_eq!(&out[..], &data[..out.len()]);
    }
}

#[test]
fn round_trip_pseudo_random_data() {
    for (len, seed) in [(1usize, 1u32), (2, 2), (3, 3), (61, 4), (4097, 5), (20000, 6)] {
        let data = pseudo_random(len, seed);
        assert_eq!(decompress(&compress(&data), data.len()), data);
    }
}

#[test]
fn round_trip_long_runs_rebuild_the_tree() {
    // Enough symbols that the root frequency reaches its limit and the tree is rebuilt.
    let mut data = Vec::new();
    for i in 0..70000u32 {
        data.push((i % 7) as u8 + if i % 1000 < 500 { b'a' } else { b'0' });
    }
    assert_eq!(decompress(&compress(&data), data.len()), data);
}

#[test]
fn round_trip_matches_across_the_whole_window() {
    let block = pseudo_random(4000, 11);
    let mut data = block.clone();
    data.extend_from_slice(&pseudo_random(90, 12));
    data.extend_from_slice(&block);
    assert_eq!(decompress(&compress(&data), data.len()), data);
}

#[test]
fn bit_writer_packs_most_significant_first() {
    let mut w = BitWriter::new();
    w.put(0b101, 3);
    w.put(0xFFFF_FFFF, 0);
    w.put(0b1, 1);
    assert_eq!(w.finish(), vec![0b1011_0000]);
    let mut w = BitWriter::new();
    w.put(0xABCD, 16);
    w.put(0b11, 2);
    assert_eq!(w.finish(), vec![0xAB, 0xCD, 0b1100_0000]);
}

#[test]
fn bit_reader_reads_back() {
    let bytes = [0b1010_0001u8, 0xFF];
    let mut r = BitReader::new(&bytes);
    assert_eq!(r.bit(), Some(1));
    assert_eq!(r.bit(), Some(0));
    assert_eq!(r.byte(), Some(0b1000_0111));
    assert_eq!(r.byte(), None);
    assert_eq!(r.bit(), None);
}

#[test]
fn position_code_round_trips() {
    let table = lzhuf::position::PositionTable::build();
    for distance in [0usize, 1, 63, 64, 255, 256, 1000, 3071, 3072, 4094, 4095] {
        let mut w = BitWriter::new();
        table.encode(&mut w, distance);
        let bytes = w.finish();
        let mut r = BitReader::new(&bytes);
        assert_eq!(table.decode(&mut r), Some(distance));
    }
}

#[test]
fn position_code_lengths() {
    let table = lzhuf::position::PositionTable::build();
    // Distance 0: a 3-bit code then 6 low bits, 9 bits in all.
    let mut w = BitWriter::new();
    table.encode(&mut w, 0);
    assert_eq!(w.finish(), vec![0x00, 0x00]);
    // Distance 4095: upper bits 63, code 0xFF over 8 bits, then 0b111111.
    let mut w = BitWriter::new();
    table.encode(&mut w, 4095);
    assert_eq!(w.finish(), vec![0xFF, 0xFC]);
}

#[test]
fn decode_position_on_short_input_is_none() {
    let table = lzhuf::position::PositionTable::build();
    let bytes = [0xFFu8];
    let mut r = BitReader::new(&bytes);
    assert_eq!(table.decode(&mut r), None);
}

#[test]
fn matcher_finds_the_repeat() {
    let input = b"abcabcabc".to_vec();
    let mut m = lzhuf::matcher::Matcher::new();
    for pos in 0..3 {
        m.insert(&input, pos);
    }
    // The whole rest repeats from three bytes back: length 6, distance 3 - 1.
    assert_eq!(m.longest_match(&input, 3), Some((6, 2)));
}

#[test]
fn matcher_without_repeat_finds_nothing() {
    let input = b"abcdefgh".to_vec();
    let mut m = lzhuf::matcher::Matcher::new();
    for pos in 0..4 {
        m.insert(&input, pos);
    }
    assert_eq!(m.longest_match(&input, 4), None);
    // Fewer than three bytes left: no match is looked for.
    assert_eq!(m.longest_match(&input, 6), None);
}

#[test]
fn symbols_round_trip_through_the_adaptive_code() {
    // Enough symbols, skewed, to rebuild the tree several times.
    let mut symbols = Vec::new();
    let mut state = 1u32;
    for _ in 0..120_000 {
        state = state.wrapping_mul(1_103_515_245).wrapping_add(12_345);
        let r = (state >> 16) as usize;
        symbols.push(if r % 4 == 0 { r % 314 } else { r % 5 });
    }
    let mut encoder = AdaptiveHuffman::new();
    let mut w = BitWriter::new();
    for &s in &symbols {
        encoder.encode_symbol(&mut w, s);
    }
    let bytes = w.finish();
    let mut decoder = AdaptiveHuffman::new();
    let mut r = BitReader::new(&bytes);
    for &s in &symbols {
        assert_eq!(decoder.decode_symbol(&mut r), Some(s));
    }
}

#[test]
fn padding_after_the_data_is_at_most_seven_bytes() {
    let inputs: Vec<Vec<u8>> = vec![
        b"a".to_vec(),
        b"ab".to_vec(),
        b"the quick brown fox jumps over the lazy dog".to_vec(),
        pseudo_random(777, 5),
        b"zzzzzzzzzzzzzzzzzzzzzzzzzzzzzzzzzzzzzz".to_vec(),
    ];
    for data in &inputs {
        let packed = compress(data);
        for extra in [1usize, 7, 8, 16, 1000] {
            let out = decompress(&packed, data.len() + extra);
            assert!(out.len() >= data.len());
            assert!(out.len() <= data.len() + 7);
            assert_eq!(&out[..data.len()], &data[..]);
        }
    }
}

#[test]
fn matcher_finds_a_match_right_after_an_insert() {
    let input = b"xyzab_xyzabc".to_vec();
    let mut m = lzhuf::matcher::Matcher::new();
    m.insert(&input, 0);
    // "xyzab" is shared by positions 0 and 6: length 5, distance 6 - 0 - 1.
    assert_eq!(m.longest_match(&input, 6), Some((5, 5)));
}

#[test]
fn matcher_with_too_few_bytes_left_finds_nothing() {
    let first = b"abcabcabc".to_vec();
    let mut m = lzhuf::matcher::Matcher::new();
    for pos in 0..7 {
        m.insert(&first, pos);
    }
    // Tables filled from another input still give no match where three bytes do not remain.
    assert_eq!(m.longest_match(b"ab", 0), None);
    assert_eq!(m.longest_match(b"abcab", 3), None);
}

#[test]
fn repeated_symbol_gets_a_shorter_code() {
    let mut encoder = AdaptiveHuffman::new();
    let mut w = BitWriter::new();
    for _ in 0..1000 {
        encoder.encode_symbol(&mut w, 97);
    }
    // Its first code is nine bits long; as its count grows, it moves up the tree.
    assert!(w.finish().len() < 1000 * 9 / 8);
}

#[test]
fn dominant_symbol_takes_one_bit() {
    // With 1000 counts of one symbol against 313 counts of one each, the optimal code gives
    // that symbol a single bit: 800 more of it take 100 more bytes.
    let bytes_after = |n: usize| {
        let mut encoder = AdaptiveHuffman::new();
        let mut w = BitWriter::new();
        for _ in 0..n {
            encoder.encode_symbol(&mut w, 0);
        }
        w.finish().len()
    };
    let a = bytes_after(1000);
    let b = bytes_after(1800);
    assert!(b - a >= 99 && b - a <= 101);
}
