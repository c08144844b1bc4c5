use vstd::prelude::*;
use crate::{THRESHOLD, WINDOW_SIZE};
use crate::bits::{pack, unpack};
use crate::tree::{TreeView, initial_tree, symbol_code, decode_symbol_spec};
use crate::huffman::update_spec;
use crate::position::{position_code, decode_position};
use crate::matcher::{MatcherView, longest_match_spec, insert_spec};

verus! {

/// Symbols from here on stand for matches, of length `symbol - MATCH_BASE`.
pub const LITERAL_LIMIT: usize = 256;

pub const MATCH_BASE: usize = 255 - THRESHOLD;

/// Byte the window starts out filled with.
pub const RING_FILL: u8 = 32;

/// Where the decoder starts writing into its window.
pub const RING_START: usize = WINDOW_SIZE - crate::LOOKAHEAD;

/// A token of the compressed stream: a symbol (a literal byte, or a match length) and, for a
/// match, its distance minus one.
pub type Token = (int, int);

/// The code tree after coding the first `n` tokens.
pub open spec fn tree_after(tokens: Seq<Token>, n: int) -> TreeView
    decreases n,
{
    if n <= 0 {
        initial_tree()
    } else {
        update_spec(tree_after(tokens, n - 1), tokens[n - 1].0)
    }
}

/// The bits of one token coded with tree `t`.
pub open spec fn token_bits(t: TreeView, token: Token) -> Seq<bool> {
    if token.0 < LITERAL_LIMIT {
        symbol_code(t, token.0)
    } else {
        symbol_code(t, token.0) + position_code(token.1)
    }
}

/// The bits of the first `n` tokens.
pub open spec fn encode_tokens(tokens: Seq<Token>, n: int) -> Seq<bool>
    decreases n,
{
    if n <= 0 {
        Seq::empty()
    } else {
        encode_tokens(tokens, n - 1) + token_bits(tree_after(tokens, n - 1), tokens[n - 1])
    }
}

/// The matcher's tables after inserting the `n` positions from `pos` on.
pub open spec fn insert_run(m: MatcherView, input: Seq<u8>, pos: int, n: int) -> MatcherView
    decreases n,
{
    if n <= 0 {
        m
    } else {
        insert_spec(insert_run(m, input, pos, n - 1), input, pos + n - 1)
    }
}

/// The token chosen at `pos`, the tables after it, and the position after it.
pub open spec fn parse_step(input: Seq<u8>, m: MatcherView, pos: int) -> (Token, MatcherView, int) {
    match longest_match_spec(m, input, pos) {
        Some((length, distance)) => (
            (length + MATCH_BASE, distance as int),
            insert_run(m, input, pos, length as int),
            pos + length,
        ),
        None => ((input[pos] as int, 0), insert_spec(m, input, pos), pos + 1),
    }
}

/// The tokens that code `input` from `pos` on.
pub open spec fn parse(input: Seq<u8>, m: MatcherView, pos: int) -> Seq<Token>
    decreases input.len() - pos,
{
    if pos < 0 || pos >= input.len() {
        Seq::empty()
    } else {
        let (token, m2, p2) = parse_step(input, m, pos);
        if p2 <= pos || p2 > input.len() {
            Seq::empty()
        } else {
            seq![token] + parse(input, m2, p2)
        }
    }
}

pub open spec fn empty_matcher() -> MatcherView {
    MatcherView {
        head: Seq::new(crate::matcher::HASH_SIZE as nat, |i: int| None),
        prev: Seq::new(WINDOW_SIZE as nat, |i: int| None),
    }
}

/// The tokens that code `input`.
pub open spec fn tokens_of(input: Seq<u8>) -> Seq<Token> {
    parse(input, empty_matcher(), 0)
}

/// What `compress` returns for `input`.
pub open spec fn compress_spec(input: Seq<u8>) -> Seq<u8> {
    let tokens = tokens_of(input);
    pack(encode_tokens(tokens, tokens.len() as int))
}

/// The decoder's state: tree, bit position, window, write position in the window, output.
pub struct DecodeState {
    pub tree: TreeView,
    pub pos: int,
    pub ring: Seq<u8>,
    pub cursor: int,
    pub out: Seq<u8>,
}

/// Copies `n` bytes from `source` in the window to the output, one by one, stopping once the
/// output holds `max` bytes: the window, the write position and the output after it.
pub open spec fn copy_ring(ring: Seq<u8>, cursor: int, source: int, out: Seq<u8>, n: int, max: int) -> (
    Seq<u8>,
    int,
    Seq<u8>,
)
    decreases n,
{
    if n <= 0 {
        (ring, cursor, out)
    } else {
        let b = ring[source];
        let out1 = out.push(b);
        let ring1 = ring.update(cursor, b);
        let cursor1 = (cursor + 1) % (WINDOW_SIZE as int);
        if out1.len() >= max {
            (ring1, cursor1, out1)
        } else {
            copy_ring(ring1, cursor1, (source + 1) % (WINDOW_SIZE as int), out1, n - 1, max)
        }
    }
}

/// Decodes tokens from the bits of `stream` until the output holds `max` bytes or the stream
/// no longer holds a whole token.
pub open spec fn decode_loop(st: DecodeState, stream: Seq<bool>, max: int) -> Seq<u8>
    decreases max - st.out.len(),
{
    if st.out.len() >= max {
        st.out
    } else {
        match decode_symbol_spec(st.tree, stream, st.pos) {
            None => st.out,
            Some((symbol, p1)) => {
                let t1 = update_spec(st.tree, symbol);
                if symbol < LITERAL_LIMIT {
                    let b = symbol as u8;
                    decode_loop(
                        DecodeState {
                            tree: t1,
                            pos: p1,
                            ring: st.ring.update(st.cursor, b),
                            cursor: (st.cursor + 1) % (WINDOW_SIZE as int),
                            out: st.out.push(b),
                        },
                        stream,
                        max,
                    )
                } else {
                    match decode_position(stream, p1) {
                        None => st.out,
                        Some((distance, p2)) => {
                            let source = (st.cursor + WINDOW_SIZE - distance - 1) % (
                            WINDOW_SIZE as int);
                            let (ring2, cursor2, out2) = copy_ring(
                                st.ring,
                                st.cursor,
                                source,
                                st.out,
                                symbol - MATCH_BASE,
                                max,
                            );
                            if out2.len() <= st.out.len() || out2.len() > max {
                                out2
                            } else {
                                decode_loop(
                                    DecodeState {
                                        tree: t1,
                                        pos: p2,
                                        ring: ring2,
                                        cursor: cursor2,
                                        out: out2,
                                    },
                                    stream,
                                    max,
                                )
                            }
                        },
                    }
                }
            },
        }
    }
}

/// The decoder's starting state.
pub open spec fn initial_state() -> DecodeState {
    DecodeState {
        tree: initial_tree(),
        pos: 0,
        ring: Seq::new(WINDOW_SIZE as nat, |i: int| RING_FILL),
        cursor: RING_START as int,
        out: Seq::empty(),
    }
}

/// What `decompress` returns for `input` and `max_output`.
pub open spec fn decompress_spec(input: Seq<u8>, max_output: int) -> Seq<u8> {
    decode_loop(initial_state(), unpack(input), max_output)
}

/// The trees along a token sequence do not depend on the tokens after them.
pub proof fn lemma_tree_after_push(tokens: Seq<Token>, token: Token, n: int)
    requires
        0 <= n <= tokens.len(),
    ensures
        forall|i: int| 0 <= i <= n ==> #[trigger] tree_after(tokens.push(token), i) == tree_after(tokens, i),
    decreases n,
{
    if n > 0 {
        lemma_tree_after_push(tokens, token, n - 1);
        assert(tokens.push(token)[n - 1] == tokens[n - 1]);
        assert(tree_after(tokens.push(token), n - 1) == tree_after(tokens, n - 1));
        assert(tree_after(tokens.push(token), n) == tree_after(tokens, n));
    }
}

/// Neither do the bits of the first `n` tokens.
pub proof fn lemma_encode_tokens_push(tokens: Seq<Token>, token: Token, n: int)
    requires
        0 <= n <= tokens.len(),
    ensures
        encode_tokens(tokens.push(token), n) == encode_tokens(tokens, n),
    decreases n,
{
    if n > 0 {
        lemma_encode_tokens_push(tokens, token, n - 1);
        lemma_tree_after_push(tokens, token, n - 1);
        assert(tokens.push(token)[n - 1] == tokens[n - 1]);
        assert(tree_after(tokens.push(token), n - 1) == tree_after(tokens, n - 1));
        assert(tree_after(tokens.push(token), n) == tree_after(tokens, n));
    }
}

} // verus!
