use vstd::prelude::*;
use crate::{LOOKAHEAD, MIN_MATCH, SYMBOL_COUNT, WINDOW_SIZE};
use crate::bits::{pack, unpack, lemma_unpack_pack};
use crate::limits::{is_prefix, lemma_decode_tail, lemma_roundtrip_prefix, lemma_decompress_limits};
use crate::tree::{
    TreeView, tree_wf, symbol_code, lemma_decode_code, lemma_initial_wf, initial_tree,
};
use crate::huffman::{update_spec, lemma_update_wf};
use crate::position::{position_code, lemma_position_roundtrip};
use crate::matcher::{
    MatcherView, bounded, longest_match_spec, lemma_longest_match, lemma_insert_bounded,
    same_bytes,
};
use crate::format::{
    Token, tree_after, token_bits, encode_tokens, insert_run, parse_step, parse, empty_matcher,
    tokens_of, compress_spec, decompress_spec, DecodeState, copy_ring, decode_loop,
    initial_state, LITERAL_LIMIT, MATCH_BASE, RING_FILL, RING_START,
};

verus! {

/// Appends `length` bytes, each copied from `distance + 1` bytes back.
pub open spec fn lz_copy(out: Seq<u8>, distance: int, length: int) -> Seq<u8>
    decreases length,
{
    if length <= 0 {
        out
    } else {
        lz_copy(out.push(out[out.len() - distance - 1]), distance, length - 1)
    }
}

/// The output after one token.
pub open spec fn expand_token(out: Seq<u8>, token: Token) -> Seq<u8> {
    if token.0 < LITERAL_LIMIT {
        out.push(token.0 as u8)
    } else {
        lz_copy(out, token.1, token.0 - MATCH_BASE)
    }
}

/// The output of the first `n` tokens, after `base`.
pub open spec fn expand_from(base: Seq<u8>, tokens: Seq<Token>, n: int) -> Seq<u8>
    decreases n,
{
    if n <= 0 {
        base
    } else {
        expand_token(expand_from(base, tokens, n - 1), tokens[n - 1])
    }
}

/// A token that can follow output `out`: a symbol of the code, and for a match a length the
/// code has and a distance back into the output and the window.
pub open spec fn token_ok(out: Seq<u8>, token: Token) -> bool {
    &&& 0 <= token.0 < SYMBOL_COUNT
    &&& token.0 >= LITERAL_LIMIT ==> {
        &&& MIN_MATCH <= token.0 - MATCH_BASE <= LOOKAHEAD
        &&& 0 <= token.1 < WINDOW_SIZE - 1
        &&& token.1 < out.len()
    }
}

pub open spec fn tokens_ok(base: Seq<u8>, tokens: Seq<Token>) -> bool {
    forall|i: int| 0 <= i < tokens.len() ==> token_ok(expand_from(base, tokens, i), #[trigger] tokens[i])
}

proof fn lemma_lz_copy_len(out: Seq<u8>, distance: int, length: int)
    requires
        0 <= length,
    ensures
        lz_copy(out, distance, length).len() == out.len() + length,
    decreases length,
{
    if length > 0 {
        lemma_lz_copy_len(out.push(out[out.len() - distance - 1]), distance, length - 1);
    }
}

proof fn lemma_expand_token_len(out: Seq<u8>, token: Token)
    requires
        token_ok(out, token),
    ensures
        expand_token(out, token).len() > out.len(),
{
    if token.0 >= LITERAL_LIMIT {
        lemma_lz_copy_len(out, token.1, token.0 - MATCH_BASE);
    }
}

/// A match copies bytes equal to those it stands for.
proof fn lemma_lz_copy_match(input: Seq<u8>, pos: int, distance: int, length: int, j: int)
    requires
        0 <= distance < pos,
        pos + length <= input.len(),
        0 <= j <= length,
        same_bytes(input, pos - distance - 1, pos, length),
    ensures
        lz_copy(input.take(pos + j), distance, length - j) == input.take(pos + length),
    decreases length - j,
{
    if j < length {
        let out = input.take(pos + j);
        assert(input[(pos - distance - 1) + j] == input[pos + j]);
        assert(out.push(out[out.len() - distance - 1]) =~= input.take(pos + j + 1));
        lemma_lz_copy_match(input, pos, distance, length, j + 1);
    } else {
        assert(input.take(pos + j) == input.take(pos + length));
    }
}

proof fn lemma_insert_run_bounded(m: MatcherView, input: Seq<u8>, pos: int, n: int)
    requires
        bounded(m, pos),
        0 <= pos,
        0 <= n,
    ensures
        bounded(insert_run(m, input, pos, n), pos + n),
    decreases n,
{
    if n > 0 {
        lemma_insert_run_bounded(m, input, pos, n - 1);
        lemma_insert_bounded(insert_run(m, input, pos, n - 1), input, pos + n - 1);
    }
}

/// Expanding a sequence that starts with `token`.
proof fn lemma_expand_cons(base: Seq<u8>, token: Token, rest: Seq<Token>, i: int)
    requires
        0 <= i <= rest.len(),
    ensures
        expand_from(base, seq![token] + rest, i + 1) == expand_from(
            expand_token(base, token),
            rest,
            i,
        ),
    decreases i,
{
    let all = seq![token] + rest;
    if i > 0 {
        lemma_expand_cons(base, token, rest, i - 1);
        assert(all[i] == rest[i - 1]);
        assert(expand_from(base, all, i + 1) == expand_token(expand_from(base, all, i), all[i]));
        assert(expand_from(expand_token(base, token), rest, i) == expand_token(
            expand_from(expand_token(base, token), rest, i - 1),
            rest[i - 1],
        ));
    } else {
        assert(all[0] == token);
        assert(expand_from(base, all, 0) == base);
        assert(expand_from(base, all, 1) == expand_token(base, token));
    }
}

/// The tokens parsed from `pos` on are valid and expand to the rest of the input.
proof fn lemma_parse_valid(input: Seq<u8>, m: MatcherView, pos: int)
    requires
        bounded(m, pos),
        0 <= pos <= input.len(),
    ensures
        tokens_ok(input.take(pos), parse(input, m, pos)),
        expand_from(input.take(pos), parse(input, m, pos), parse(input, m, pos).len() as int)
            == input,
    decreases input.len() - pos,
{
    let tokens = parse(input, m, pos);
    if pos == input.len() {
        assert(input.take(pos) =~= input);
    } else {
        let (token, m2, p2) = parse_step(input, m, pos);
        let base = input.take(pos);
        lemma_longest_match(m, input, pos);
        match longest_match_spec(m, input, pos) {
            Some((length, distance)) => {
                lemma_lz_copy_match(input, pos, distance as int, length as int, 0);
                assert(pos + 0 == pos);
                lemma_insert_run_bounded(m, input, pos, length as int);
            },
            None => {
                assert(base.push(input[pos]) =~= input.take(pos + 1));
                lemma_insert_bounded(m, input, pos);
            },
        }
        assert(expand_token(base, token) == input.take(p2));
        assert(token_ok(base, token));
        lemma_parse_valid(input, m2, p2);
        let rest = parse(input, m2, p2);
        assert(tokens == seq![token] + rest);
        assert forall|i: int| 0 <= i < tokens.len() implies token_ok(
            expand_from(base, tokens, i),
            #[trigger] tokens[i],
        ) by {
            if i > 0 {
                lemma_expand_cons(base, token, rest, i - 1);
                assert(tokens[i] == rest[i - 1]);
            } else {
                assert(tokens[0] == token);
            }
        }
        lemma_expand_cons(base, token, rest, rest.len() as int);
    }
}

/// The trees along valid tokens are well formed.
proof fn lemma_trees_wf(tokens: Seq<Token>, n: int)
    requires
        0 <= n <= tokens.len(),
        forall|i: int| 0 <= i < n ==> 0 <= (#[trigger] tokens[i]).0 < SYMBOL_COUNT,
    ensures
        tree_wf(tree_after(tokens, n)),
    decreases n,
{
    if n == 0 {
        lemma_initial_wf();
    } else {
        lemma_trees_wf(tokens, n - 1);
        lemma_update_wf(tree_after(tokens, n - 1), tokens[n - 1].0);
    }
}

/// The bits of the first `i` tokens begin the bits of the first `n`.
proof fn lemma_encode_prefix(tokens: Seq<Token>, i: int, n: int)
    requires
        0 <= i <= n,
    ensures
        encode_tokens(tokens, i).len() <= encode_tokens(tokens, n).len(),
        forall|j: int|
            0 <= j < encode_tokens(tokens, i).len() ==> #[trigger] encode_tokens(tokens, i)[j]
                == encode_tokens(tokens, n)[j],
    decreases n,
{
    if i < n {
        lemma_encode_prefix(tokens, i, n - 1);
    }
}

proof fn lemma_expand_grows(base: Seq<u8>, tokens: Seq<Token>, i: int, n: int)
    requires
        0 <= i <= n <= tokens.len(),
        tokens_ok(base, tokens),
    ensures
        expand_from(base, tokens, i).len() + (n - i) <= expand_from(base, tokens, n).len(),
    decreases n,
{
    if i < n {
        lemma_expand_grows(base, tokens, i, n - 1);
        assert(token_ok(expand_from(base, tokens, n - 1), tokens[n - 1]));
        lemma_expand_token_len(expand_from(base, tokens, n - 1), tokens[n - 1]);
    }
}

/// The window byte `k` places behind the write position.
pub open spec fn ring_back(ring: Seq<u8>, cursor: int, k: int) -> u8 {
    ring[(cursor - k) % (WINDOW_SIZE as int)]
}

/// The window holds the last bytes of the output behind the write position, and the fill
/// byte where the output does not reach back.
pub open spec fn ring_ok(ring: Seq<u8>, cursor: int, out: Seq<u8>) -> bool {
    &&& ring.len() == WINDOW_SIZE
    &&& cursor == (RING_START + out.len()) % (WINDOW_SIZE as int)
    &&& forall|k: int|
        1 <= k <= WINDOW_SIZE ==> #[trigger] ring_back(ring, cursor, k) == if k <= out.len() {
            out[out.len() - k]
        } else {
            RING_FILL
        }
}

proof fn lemma_ring_push(ring: Seq<u8>, cursor: int, out: Seq<u8>, b: u8)
    requires
        ring_ok(ring, cursor, out),
    ensures
        ring_ok(
            ring.update(cursor, b),
            (cursor + 1) % (WINDOW_SIZE as int),
            out.push(b),
        ),
{
    let w = WINDOW_SIZE as int;
    let r2 = ring.update(cursor, b);
    let c2 = (cursor + 1) % w;
    let o2 = out.push(b);
    assert(0 <= cursor < w);
    assert forall|k: int| 1 <= k <= WINDOW_SIZE implies #[trigger] ring_back(r2, c2, k) == if k
        <= o2.len() {
        o2[o2.len() - k]
    } else {
        RING_FILL
    } by {
        if k == 1 {
            assert((c2 - 1) % w == cursor);
        } else {
            assert((c2 - k) % w == (cursor - (k - 1)) % w);
            assert((cursor - (k - 1)) % w != cursor);
            assert(ring_back(ring, cursor, k - 1) == if k - 1 <= out.len() {
                out[out.len() - (k - 1)]
            } else {
                RING_FILL
            });
        }
    }
}

/// The bytes the window starts out with, standing before the output: a window of spaces.
pub open spec fn window_fill() -> Seq<u8> {
    Seq::new(WINDOW_SIZE as nat, |i: int| 0x20u8)
}

/// A token that the stream can code: a symbol of the code, and for a match a distance that
/// reaches back at most the whole window.
pub open spec fn token_valid(token: Token) -> bool {
    &&& 0 <= token.0 < SYMBOL_COUNT
    &&& token.0 >= LITERAL_LIMIT ==> 0 <= token.1 < WINDOW_SIZE
}

proof fn lemma_copy_ring(
    ring: Seq<u8>,
    cursor: int,
    source: int,
    out: Seq<u8>,
    distance: int,
    n: int,
    max: int,
)
    requires
        ring_ok(ring, cursor, out),
        0 <= distance < WINDOW_SIZE,
        source == (cursor - (distance + 1)) % (WINDOW_SIZE as int),
        0 <= n,
        out.len() + n <= max,
    ensures
        ({
            let (r2, c2, o2) = copy_ring(ring, cursor, source, out, n, max);
            &&& window_fill() + o2 == lz_copy(window_fill() + out, distance, n)
            &&& ring_ok(r2, c2, o2)
        }),
    decreases n,
{
    let fill = window_fill();
    if n > 0 {
        let w = WINDOW_SIZE as int;
        let ext = fill + out;
        assert(ring_back(ring, cursor, distance + 1) == ext[ext.len() - (distance + 1)]);
        let b = ring[source];
        lemma_ring_push(ring, cursor, out, b);
        let out1 = out.push(b);
        let c1 = (cursor + 1) % w;
        assert(ext.push(b) =~= fill + out1);
        assert(lz_copy(ext, distance, n) == lz_copy(fill + out1, distance, n - 1));
        if out1.len() >= max {
            assert(n == 1);
            assert(lz_copy(fill + out1, distance, 0) == fill + out1);
        } else {
            assert((source + 1) % w == (c1 - (distance + 1)) % w);
            lemma_copy_ring(
                ring.update(cursor, b),
                c1,
                (source + 1) % w,
                out1,
                distance,
                n - 1,
                max,
            );
        }
    } else {
        assert(lz_copy(fill + out, distance, n) == fill + out);
    }
}

/// The window and write position after decoding one token.
pub open spec fn step_ring(ring: Seq<u8>, cursor: int, out: Seq<u8>, token: Token, max: int) -> (
    Seq<u8>,
    int,
) {
    if token.0 < LITERAL_LIMIT {
        (ring.update(cursor, token.0 as u8), (cursor + 1) % (WINDOW_SIZE as int))
    } else {
        let source = (cursor + WINDOW_SIZE - token.1 - 1) % (WINDOW_SIZE as int);
        let (r2, c2, o2) = copy_ring(ring, cursor, source, out, token.0 - MATCH_BASE, max);
        (r2, c2)
    }
}

/// Decoding the bits of one valid token gives its bytes and moves past its bits.
proof fn lemma_decode_token(
    t: TreeView,
    stream: Seq<bool>,
    pos: int,
    ring: Seq<u8>,
    cursor: int,
    out: Seq<u8>,
    token: Token,
    max: int,
)
    requires
        tree_wf(t),
        ring_ok(ring, cursor, out),
        token_valid(token),
        0 <= pos,
        pos + token_bits(t, token).len() <= stream.len(),
        forall|j: int|
            0 <= j < token_bits(t, token).len() ==> stream[pos + j] == #[trigger] token_bits(
                t,
                token,
            )[j],
        out.len() < max,
        expand_token(window_fill() + out, token).len() <= WINDOW_SIZE + max,
    ensures
        ({
            let (r2, c2) = step_ring(ring, cursor, out, token, max);
            let o2 = expand_token(window_fill() + out, token).skip(WINDOW_SIZE as int);
            &&& window_fill() + o2 == expand_token(window_fill() + out, token)
            &&& ring_ok(r2, c2, o2)
            &&& decode_loop(
                DecodeState { tree: t, pos, ring, cursor, out },
                stream,
                max,
            ) == decode_loop(
                DecodeState {
                    tree: update_spec(t, token.0),
                    pos: pos + token_bits(t, token).len(),
                    ring: r2,
                    cursor: c2,
                    out: o2,
                },
                stream,
                max,
            )
        }),
{
    let fill = window_fill();
    let ext = fill + out;
    let sym = token.0;
    let code = symbol_code(t, sym);
    let tb = token_bits(t, token);
    assert forall|j: int| 0 <= j < code.len() implies stream[pos + j] == #[trigger] code[j] by {
        assert(tb[j] == code[j]);
    }
    lemma_decode_code(t, stream, pos, sym);
    let p1 = pos + code.len();
    if sym < LITERAL_LIMIT {
        lemma_ring_push(ring, cursor, out, sym as u8);
        assert(ext.push(sym as u8) =~= fill + out.push(sym as u8));
        assert((fill + out.push(sym as u8)).skip(WINDOW_SIZE as int) =~= out.push(sym as u8));
    } else {
        let d = token.1;
        let pc = position_code(d);
        assert(tb == code + pc);
        assert forall|j: int| 0 <= j < pc.len() implies stream[p1 + j] == #[trigger] pc[j] by {
            assert(tb[code.len() + j] == pc[j]);
        }
        lemma_position_roundtrip(stream, p1, d);
        let w = WINDOW_SIZE as int;
        let source = (cursor + WINDOW_SIZE - d - 1) % w;
        assert(source == (cursor - (d + 1)) % w);
        lemma_lz_copy_len(ext, d, sym - MATCH_BASE);
        lemma_copy_ring(ring, cursor, source, out, d, sym - MATCH_BASE, max);
        let (r2, c2, o2) = copy_ring(ring, cursor, source, out, sym - MATCH_BASE, max);
        assert((fill + o2).skip(w) =~= o2);
    }
}

/// Expanding tokens only appends to what is there.
proof fn lemma_expand_extends(base: Seq<u8>, tokens: Seq<Token>, i: int, n: int)
    requires
        0 <= i <= n <= tokens.len(),
        forall|k: int| 0 <= k < tokens.len() ==> token_valid(#[trigger] tokens[k]),
    ensures
        expand_from(base, tokens, i).len() + (n - i) <= expand_from(base, tokens, n).len(),
        base.len() + n <= expand_from(base, tokens, n).len(),
        expand_from(base, tokens, n).take(base.len() as int) == base,
    decreases n,
{
    if n == 0 {
        assert(base.take(base.len() as int) =~= base);
    } else {
        let k = if i < n {
            i
        } else {
            n - 1
        };
        lemma_expand_extends(base, tokens, k, n - 1);
        let prev = expand_from(base, tokens, n - 1);
        let token = tokens[n - 1];
        assert(token_valid(token));
        lemma_expand_token_extends(prev, token);
        assert(expand_from(base, tokens, n) == expand_token(prev, token));
        assert(expand_from(base, tokens, n).take(base.len() as int) =~= prev.take(
            base.len() as int,
        ));
    }
}

proof fn lemma_expand_token_extends(out: Seq<u8>, token: Token)
    requires
        token_valid(token),
    ensures
        expand_token(out, token).len() > out.len(),
        forall|j: int| 0 <= j < out.len() ==> #[trigger] expand_token(out, token)[j] == out[j],
{
    if token.0 >= LITERAL_LIMIT {
        lemma_lz_copy_extends(out, token.1, token.0 - MATCH_BASE);
    }
}

proof fn lemma_lz_copy_extends(out: Seq<u8>, distance: int, length: int)
    requires
        0 <= length,
    ensures
        lz_copy(out, distance, length).len() == out.len() + length,
        forall|j: int| 0 <= j < out.len() ==> #[trigger] lz_copy(out, distance, length)[j] == out[j],
    decreases length,
{
    if length > 0 {
        let out1 = out.push(out[out.len() - distance - 1]);
        lemma_lz_copy_extends(out1, distance, length - 1);
        assert forall|j: int| 0 <= j < out.len() implies #[trigger] lz_copy(out, distance, length)[j]
            == out[j] by {
            assert(out1[j] == out[j]);
        }
    }
}

/// Decoding the bits of valid tokens, from the state after `i` of them, gives the output of
/// all of them.
proof fn lemma_decode_run(
    tokens: Seq<Token>,
    stream: Seq<bool>,
    max: int,
    i: int,
    ring: Seq<u8>,
    cursor: int,
)
    requires
        0 <= i <= tokens.len(),
        forall|k: int| 0 <= k < tokens.len() ==> token_valid(#[trigger] tokens[k]),
        expand_from(window_fill(), tokens, tokens.len() as int).len() <= WINDOW_SIZE + max,
        encode_tokens(tokens, tokens.len() as int).len() <= stream.len(),
        forall|j: int|
            0 <= j < encode_tokens(tokens, tokens.len() as int).len() ==> stream[j]
                == #[trigger] encode_tokens(tokens, tokens.len() as int)[j],
        ring_ok(ring, cursor, expand_from(window_fill(), tokens, i).skip(WINDOW_SIZE as int)),
    ensures
        ({
            let whole = expand_from(window_fill(), tokens, tokens.len() as int).skip(
                WINDOW_SIZE as int,
            );
            let left = stream.len() - encode_tokens(tokens, tokens.len() as int).len();
            let decoded = decode_loop(
                DecodeState {
                    tree: tree_after(tokens, i),
                    pos: encode_tokens(tokens, i).len() as int,
                    ring,
                    cursor,
                    out: expand_from(window_fill(), tokens, i).skip(WINDOW_SIZE as int),
                },
                stream,
                max,
            );
            &&& max == whole.len() ==> decoded == whole
            &&& left < 8 ==> decoded.len() <= whole.len() + left
        }),
    decreases tokens.len() - i,
{
    let n = tokens.len() as int;
    let fill = window_fill();
    let w = WINDOW_SIZE as int;
    lemma_expand_extends(fill, tokens, i, n);
    lemma_expand_extends(fill, tokens, n, n);
    if i == n {
        assert forall|k: int| 0 <= k < n implies 0 <= (#[trigger] tokens[k]).0 < SYMBOL_COUNT by {
            assert(token_valid(tokens[k]));
        }
        lemma_trees_wf(tokens, n);
        if stream.len() - encode_tokens(tokens, n).len() < 8 {
            lemma_decode_tail(
                DecodeState {
                    tree: tree_after(tokens, n),
                    pos: encode_tokens(tokens, n).len() as int,
                    ring,
                    cursor,
                    out: expand_from(fill, tokens, n).skip(w),
                },
                stream,
                max,
            );
        }
    } else {
        let ext = expand_from(fill, tokens, i);
        lemma_expand_extends(fill, tokens, i, i);
        let out = ext.skip(w);
        assert(ext.take(w) == fill);
        assert(ext =~= fill + out);
        let token = tokens[i];
        let t = tree_after(tokens, i);
        assert forall|k: int| 0 <= k < i implies 0 <= (#[trigger] tokens[k]).0 < SYMBOL_COUNT by {
            assert(token_valid(tokens[k]));
        }
        lemma_trees_wf(tokens, i);
        assert(token_valid(token));
        lemma_expand_extends(fill, tokens, i + 1, n);
        lemma_expand_token_extends(ext, token);
        lemma_encode_prefix(tokens, i + 1, n);
        let enc_i = encode_tokens(tokens, i);
        let enc_i1 = encode_tokens(tokens, i + 1);
        let tb = token_bits(t, token);
        assert(enc_i1 == enc_i + tb);
        let pos = enc_i.len() as int;
        assert forall|j: int| 0 <= j < tb.len() implies stream[pos + j] == #[trigger] tb[j] by {
            assert(enc_i1[pos + j] == tb[j]);
            assert(enc_i1[pos + j] == encode_tokens(tokens, n)[pos + j]);
        }
        assert(expand_from(fill, tokens, i + 1) == expand_token(ext, token));
        lemma_decode_token(t, stream, pos, ring, cursor, out, token, max);
        let (r2, c2) = step_ring(ring, cursor, out, token, max);
        lemma_decode_run(tokens, stream, max, i + 1, r2, c2);
    }
}

/// Where each match reaches back only into the output, expanding after the window's fill is
/// expanding alone, with the fill before it.
proof fn lemma_expand_after_fill(tokens: Seq<Token>, i: int)
    requires
        0 <= i <= tokens.len(),
        tokens_ok(Seq::empty(), tokens),
    ensures
        expand_from(window_fill(), tokens, i) == window_fill() + expand_from(Seq::empty(), tokens, i),
    decreases i,
{
    let fill = window_fill();
    if i == 0 {
        assert(fill + Seq::<u8>::empty() =~= fill);
    } else {
        lemma_expand_after_fill(tokens, i - 1);
        let out = expand_from(Seq::empty(), tokens, i - 1);
        let token = tokens[i - 1];
        assert(token_ok(out, token));
        if token.0 < LITERAL_LIMIT {
            assert((fill + out).push(token.0 as u8) =~= fill + out.push(token.0 as u8));
        } else {
            lemma_lz_copy_after_fill(out, token.1, token.0 - MATCH_BASE);
        }
    }
}

proof fn lemma_lz_copy_after_fill(out: Seq<u8>, distance: int, length: int)
    requires
        0 <= distance < out.len(),
    ensures
        lz_copy(window_fill() + out, distance, length) == window_fill() + lz_copy(out, distance, length),
    decreases length,
{
    let fill = window_fill();
    if length > 0 {
        let b = out[out.len() - distance - 1];
        assert((fill + out)[(fill + out).len() - distance - 1] == b);
        assert((fill + out).push(b) =~= fill + out.push(b));
        lemma_lz_copy_after_fill(out.push(b), distance, length - 1);
    }
}

/// Decoding the bits of any valid tokens gives their expansion after the window's fill bytes:
/// a literal gives its byte, and a match copies its length of bytes from its distance back,
/// reaching into the fill where the output is shorter than that.
pub proof fn lemma_decode_tokens(tokens: Seq<Token>, max_output: int)
    requires
        forall|k: int| 0 <= k < tokens.len() ==> token_valid(#[trigger] tokens[k]),
        0 <= max_output <= expand_from(window_fill(), tokens, tokens.len() as int).len()
            - WINDOW_SIZE,
    ensures
        decompress_spec(pack(encode_tokens(tokens, tokens.len() as int)), max_output)
            == expand_from(window_fill(), tokens, tokens.len() as int).subrange(
            WINDOW_SIZE as int,
            WINDOW_SIZE + max_output,
        ),
{
    let n = tokens.len() as int;
    let fill = window_fill();
    let whole = expand_from(fill, tokens, n);
    let total = whole.len() - WINDOW_SIZE;
    let bits = encode_tokens(tokens, n);
    let stream = unpack(pack(bits));
    lemma_unpack_pack(bits);
    let st = initial_state();
    lemma_expand_extends(fill, tokens, 0, n);
    assert(fill.skip(WINDOW_SIZE as int) =~= Seq::<u8>::empty());
    assert(ring_ok(st.ring, st.cursor, Seq::empty()));
    assert(tree_after(tokens, 0) == initial_tree());
    assert(encode_tokens(tokens, 0).len() == 0);
    lemma_decode_run(tokens, stream, total, 0, st.ring, st.cursor);
    lemma_decompress_limits(pack(bits), max_output, total);
    assert(whole.skip(WINDOW_SIZE as int).take(max_output) =~= whole.subrange(
        WINDOW_SIZE as int,
        WINDOW_SIZE + max_output,
    ));
}

/// Decoding what `compress` makes of `data` with a limit of at least its length.
proof fn lemma_decode_compressed(data: Seq<u8>, max_output: int)
    requires
        data.len() <= max_output,
    ensures
        max_output == data.len() ==> decompress_spec(compress_spec(data), max_output) == data,
        decompress_spec(compress_spec(data), max_output).len() <= data.len() + 7,
{
    let tokens = tokens_of(data);
    let n = tokens.len() as int;
    let e = Seq::<u8>::empty();
    let fill = window_fill();
    let m0 = empty_matcher();
    assert(bounded(m0, 0));
    lemma_parse_valid(data, m0, 0);
    assert(data.take(0) =~= e);
    assert forall|k: int| 0 <= k < n implies token_valid(#[trigger] tokens[k]) by {
        assert(token_ok(expand_from(e, tokens, k), tokens[k]));
    }
    lemma_expand_after_fill(tokens, n);
    lemma_expand_after_fill(tokens, 0);
    assert((fill + data).skip(WINDOW_SIZE as int) =~= data);
    assert(fill.skip(WINDOW_SIZE as int) =~= e);
    let bits = encode_tokens(tokens, n);
    let stream = unpack(pack(bits));
    lemma_unpack_pack(bits);
    let st = initial_state();
    assert(ring_ok(st.ring, st.cursor, e));
    assert(tree_after(tokens, 0) == initial_tree());
    assert(encode_tokens(tokens, 0).len() == 0);
    lemma_decode_run(tokens, stream, max_output, 0, st.ring, st.cursor);
}

/// Decompressing what `compress` makes of `data`, asking for `data.len()` bytes, gives `data`
/// back.
pub proof fn lemma_roundtrip(data: Seq<u8>)
    ensures
        decompress_spec(compress_spec(data), data.len() as int) == data,
{
    lemma_decode_compressed(data, data.len() as int);
}

/// With a limit beyond the data's length, decompressing what `compress` makes of the data gives
/// the data and then at most seven more bytes: those decoded from the zero bits that pad the
/// last byte.
pub proof fn lemma_roundtrip_padding(data: Seq<u8>, max_output: int)
    requires
        data.len() <= max_output,
    ensures
        is_prefix(data, decompress_spec(compress_spec(data), max_output)),
        decompress_spec(compress_spec(data), max_output).len() <= data.len() + 7,
{
    lemma_decode_compressed(data, max_output);
    lemma_roundtrip_prefix(data, max_output);
}

} // verus!
