use vstd::prelude::*;
use crate::bits::{BitReader, BitWriter};
use crate::huffman::AdaptiveHuffman;
use crate::matcher::{Matcher, bounded, lemma_longest_match, lemma_insert_bounded};
use crate::position::{PositionTable, lemma_decode_position_bound};
use crate::format::{
    Token, tokens_of, parse, parse_step, insert_run, tree_after, encode_tokens, compress_spec,
    decompress_spec, decode_loop, copy_ring, DecodeState, initial_state, lemma_tree_after_push,
    lemma_encode_tokens_push, MATCH_BASE, LITERAL_LIMIT, RING_FILL,
};
use crate::tree::tree_wf;

pub mod bits;
pub mod position;
pub mod sums;
pub mod tree;
pub mod rebuild;
pub mod huffman;
pub mod matcher;
pub mod format;
pub mod roundtrip;
pub mod limits;
pub mod optimal;
pub mod chains;

verus! {

/// Size of the sliding window, in bytes.
pub const WINDOW_SIZE: usize = 4096;

/// Reduces a position to a slot of the window.
pub const WINDOW_MASK: usize = WINDOW_SIZE - 1;

/// Longest match that one symbol can stand for.
pub const LOOKAHEAD: usize = 60;

/// Matches no longer than this are not worth a match symbol.
pub const THRESHOLD: usize = 2;

/// Shortest match worth coding.
pub const MIN_MATCH: usize = THRESHOLD + 1;

/// Number of symbols: 256 literals and the match lengths `MIN_MATCH..=LOOKAHEAD`.
pub const SYMBOL_COUNT: usize = 256 - THRESHOLD + LOOKAHEAD;

/// Number of nodes of the code tree.
pub const TABLE_SIZE: usize = SYMBOL_COUNT * 2 - 1;

/// Position of the tree's root.
pub const ROOT: usize = TABLE_SIZE - 1;

/// Root frequency at which the tree is rebuilt with halved frequencies.
pub const MAX_FREQ: u16 = 0x8000;

/// Compresses `input` into an LZSS stream coded with an adaptive Huffman code.
pub fn compress(input: &[u8]) -> (r: Vec<u8>)
    requires
        input@.len() <= isize::MAX,
    ensures
        r@ == compress_spec(input@),
{
    let position = PositionTable::build();
    let mut tree = AdaptiveHuffman::new();
    let mut writer = BitWriter::new();
    let mut matcher = Matcher::new();
    let ghost whole = tokens_of(input@);
    let ghost mut done: Seq<Token> = Seq::empty();
    proof {
        assert(whole == done + parse(input@, matcher@, 0));
    }
    let mut pos = 0usize;
    while pos < input.len()
        invariant
            position.wf(),
            pos <= input@.len() <= isize::MAX,
            bounded(matcher@, pos as int),
            whole == tokens_of(input@),
            whole == done + parse(input@, matcher@, pos as int),
            tree_wf(tree@),
            tree@ == tree_after(done, done.len() as int),
            writer.wf(),
            writer.written() == encode_tokens(done, done.len() as int),
        decreases input.len() - pos,
    {
        let ghost m0 = matcher@;
        let ghost p0 = pos as int;
        let ghost step = parse_step(input@, m0, p0);
        proof {
            lemma_longest_match(m0, input@, p0);
            lemma_tree_after_push(done, step.0, done.len() as int);
            lemma_encode_tokens_push(done, step.0, done.len() as int);
        }
        match matcher.longest_match(input, pos) {
            Some((length, distance)) => {
                tree.encode_symbol(&mut writer, length + MATCH_BASE);
                position.encode(&mut writer, distance);
                let mut offset = 0usize;
                while offset < length
                    invariant
                        offset <= length,
                        p0 == pos,
                        pos + length <= input@.len() <= isize::MAX,
                        bounded(m0, p0),
                        matcher@ == insert_run(m0, input@, p0, offset as int),
                        bounded(matcher@, pos + offset),
                    decreases length - offset,
                {
                    proof {
                        lemma_insert_bounded(matcher@, input@, pos + offset);
                    }
                    matcher.insert(input, pos + offset);
                    offset += 1;
                }
                pos += length;
            },
            None => {
                tree.encode_symbol(&mut writer, input[pos] as usize);
                proof {
                    lemma_insert_bounded(matcher@, input@, pos as int);
                }
                matcher.insert(input, pos);
                pos += 1;
            },
        }
        proof {
            assert(step.1 == matcher@ && step.2 == pos);
            assert(parse(input@, m0, p0) == seq![step.0] + parse(input@, matcher@, pos as int));
            assert(whole =~= done.push(step.0) + parse(input@, matcher@, pos as int));
            done = done.push(step.0);
            assert(writer.written() =~= encode_tokens(done, done.len() as int));
        }
    }
    proof {
        assert(done =~= whole);
    }
    writer.finish()
}

/// Decompresses `input`, stopping once `max_output` bytes are out or the input ends.
pub fn decompress(input: &[u8], max_output: usize) -> (r: Vec<u8>)
    ensures
        r@ == decompress_spec(input@, max_output as int),
{
    let position = PositionTable::build();
    let mut tree = AdaptiveHuffman::new();
    let mut reader = BitReader::new(input);
    let mut ring: Vec<u8> = vec![RING_FILL; WINDOW_SIZE];
    let mut cursor = WINDOW_SIZE - LOOKAHEAD;
    let mut output: Vec<u8> = Vec::new();
    let ghost stream = reader.stream();
    let ghost max = max_output as int;
    let ghost target = decompress_spec(input@, max);
    proof {
        assert(ring@ =~= initial_state().ring);
    }
    while output.len() < max_output
        invariant_except_break
            position.wf(),
            tree_wf(tree@),
            reader.wf(),
            reader.stream() == stream,
            stream == crate::bits::unpack(input@),
            ring@.len() == WINDOW_SIZE,
            cursor < WINDOW_SIZE,
            max == max_output,
            output@.len() <= max_output,
            target == decompress_spec(input@, max),
            decode_loop(
                DecodeState {
                    tree: tree@,
                    pos: reader.pos(),
                    ring: ring@,
                    cursor: cursor as int,
                    out: output@,
                },
                stream,
                max,
            ) == target,
        ensures
            output@ == target,
        decreases max_output - output.len(),
    {
        let ghost st = DecodeState {
            tree: tree@,
            pos: reader.pos(),
            ring: ring@,
            cursor: cursor as int,
            out: output@,
        };
        let symbol = match tree.decode_symbol(&mut reader) {
            Some(s) => s,
            None => {
                break;
            },
        };
        if symbol < LITERAL_LIMIT {
            let byte = symbol as u8;
            output.push(byte);
            ring.set(cursor, byte);
            let next = cursor + 1;
            assert(next & WINDOW_MASK == next % 4096) by (bit_vector);
            cursor = next & WINDOW_MASK;
        } else {
            proof {
                lemma_decode_position_bound(stream, reader.pos());
            }
            let distance = match position.decode(&mut reader) {
                Some(d) => d,
                None => {
                    break;
                },
            };
            let s0 = cursor + WINDOW_SIZE - distance - 1;
            assert(s0 & WINDOW_MASK == s0 % 4096) by (bit_vector);
            let mut source = s0 & WINDOW_MASK;
            let length = symbol - MATCH_BASE;
            let ghost copied = copy_ring(
                ring@,
                cursor as int,
                source as int,
                output@,
                length as int,
                max,
            );
            let ghost out0 = output@.len();
            let mut i = 0usize;
            while i < length
                invariant_except_break
                    i <= length,
                    3 <= length,
                    ring@.len() == WINDOW_SIZE,
                    cursor < WINDOW_SIZE,
                    source < WINDOW_SIZE,
                    output@.len() < max_output,
                    output@.len() == out0 + i,
                    max == max_output,
                    copy_ring(
                        ring@,
                        cursor as int,
                        source as int,
                        output@,
                        (length - i) as int,
                        max,
                    ) == copied,
                ensures
                    (ring@, cursor as int, output@) == copied,
                    ring@.len() == WINDOW_SIZE,
                    cursor < WINDOW_SIZE,
                    output@.len() > out0,
                    output@.len() <= max_output,
                decreases length - i,
            {
                let byte = ring[source];
                output.push(byte);
                ring.set(cursor, byte);
                let next = cursor + 1;
                assert(next & WINDOW_MASK == next % 4096) by (bit_vector);
                let next_source = source + 1;
                assert(next_source & WINDOW_MASK == next_source % 4096) by (bit_vector);
                cursor = next & WINDOW_MASK;
                source = next_source & WINDOW_MASK;
                i += 1;
                if output.len() >= max_output {
                    break;
                }
            }
        }
    }
    output
}

} // verus!
