use vstd::prelude::*;
use crate::{TABLE_SIZE, WINDOW_SIZE, SYMBOL_COUNT};
use crate::bits::{unpack, bits_value, bit_at, lemma_bits_value_local};
use crate::tree::{TreeView, decode_symbol_spec, walk, lemma_initial_wf, lemma_root_inner,
    initial_tree, tree_wf, structure_ok, links_ok};
use crate::huffman::{update_spec, lemma_update_wf};
use crate::position::decode_position;
use crate::format::{
    compress_spec, DecodeState, copy_ring, decode_loop, decompress_spec, initial_state, LITERAL_LIMIT, MATCH_BASE,
};

verus! {

/// `a` begins `b`.
pub open spec fn is_prefix(a: Seq<u8>, b: Seq<u8>) -> bool {
    &&& a.len() <= b.len()
    &&& forall|i: int| 0 <= i < a.len() ==> a[i] == b[i]
}

/// What `decompress` returns with limit `max`, from what it returns with a limit `max2` at
/// least as large: the same bytes, cut at `max`.
pub open spec fn cut(out: Seq<u8>, max: int) -> Seq<u8> {
    if out.len() <= max {
        out
    } else {
        out.take(max)
    }
}

proof fn lemma_copy_ring_out(ring: Seq<u8>, cursor: int, source: int, out: Seq<u8>, n: int, max: int)
    requires
        0 <= n,
        out.len() < max,
    ensures
        ({
            let (r2, c2, o2) = copy_ring(ring, cursor, source, out, n, max);
            &&& is_prefix(out, o2)
            &&& o2.len() <= max
            &&& o2.len() == if out.len() + n <= max {
                out.len() + n
            } else {
                max
            }
        }),
    decreases n,
{
    if n > 0 {
        let b = ring[source];
        let out1 = out.push(b);
        if out1.len() < max {
            lemma_copy_ring_out(
                ring.update(cursor, b),
                (cursor + 1) % (WINDOW_SIZE as int),
                (source + 1) % (WINDOW_SIZE as int),
                out1,
                n - 1,
                max,
            );
        }
    }
}

/// With a larger limit, the copy holds the same bytes and more; with room for all of it, it
/// is the same copy.
proof fn lemma_copy_ring_limits(
    ring: Seq<u8>,
    cursor: int,
    source: int,
    out: Seq<u8>,
    n: int,
    max: int,
    max2: int,
)
    requires
        0 <= n,
        out.len() < max <= max2,
    ensures
        out.len() + n <= max ==> copy_ring(ring, cursor, source, out, n, max) == copy_ring(
            ring,
            cursor,
            source,
            out,
            n,
            max2,
        ),
        copy_ring(ring, cursor, source, out, n, max).2 == cut(
            copy_ring(ring, cursor, source, out, n, max2).2,
            max,
        ),
    decreases n,
{
    lemma_copy_ring_out(ring, cursor, source, out, n, max);
    lemma_copy_ring_out(ring, cursor, source, out, n, max2);
    if n > 0 {
        let b = ring[source];
        let out1 = out.push(b);
        let r1 = ring.update(cursor, b);
        let c1 = (cursor + 1) % (WINDOW_SIZE as int);
        let s1 = (source + 1) % (WINDOW_SIZE as int);
        if out1.len() < max {
            lemma_copy_ring_limits(r1, c1, s1, out1, n - 1, max, max2);
        } else if out1.len() < max2 {
            lemma_copy_ring_out(r1, c1, s1, out1, n - 1, max2);
            let o2 = copy_ring(r1, c1, s1, out1, n - 1, max2).2;
            assert(o2.take(max) =~= out1);
        }
    }
}

/// What is decoded extends the output already there, and stays within the limit.
pub proof fn lemma_decode_loop_out(st: DecodeState, stream: Seq<bool>, max: int)
    ensures
        is_prefix(st.out, decode_loop(st, stream, max)),
        st.out.len() <= max ==> decode_loop(st, stream, max).len() <= max,
    decreases max - st.out.len(),
{
    if st.out.len() < max {
        match decode_symbol_spec(st.tree, stream, st.pos) {
            None => {},
            Some((symbol, p1)) => {
                let t1 = update_spec(st.tree, symbol);
                if symbol < LITERAL_LIMIT {
                    let b = symbol as u8;
                    let next = DecodeState {
                        tree: t1,
                        pos: p1,
                        ring: st.ring.update(st.cursor, b),
                        cursor: (st.cursor + 1) % (WINDOW_SIZE as int),
                        out: st.out.push(b),
                    };
                    lemma_decode_loop_out(next, stream, max);
                } else {
                    match decode_position(stream, p1) {
                        None => {},
                        Some((distance, p2)) => {
                            let source = (st.cursor + WINDOW_SIZE - distance - 1) % (
                            WINDOW_SIZE as int);
                            let n = symbol - MATCH_BASE;
                            let (ring2, cursor2, out2) = copy_ring(
                                st.ring,
                                st.cursor,
                                source,
                                st.out,
                                n,
                                max,
                            );
                            if n >= 0 {
                                lemma_copy_ring_out(st.ring, st.cursor, source, st.out, n, max);
                            }
                            if !(out2.len() <= st.out.len() || out2.len() > max) {
                                let next = DecodeState {
                                    tree: t1,
                                    pos: p2,
                                    ring: ring2,
                                    cursor: cursor2,
                                    out: out2,
                                };
                                lemma_decode_loop_out(next, stream, max);
                            } else if n < 0 {
                                assert(out2 == st.out);
                            }
                        },
                    }
                }
            },
        }
    }
}

proof fn lemma_prefix_cut(a: Seq<u8>, b: Seq<u8>, max: int)
    requires
        is_prefix(a, b),
        a.len() == max,
    ensures
        cut(b, max) == a,
{
    assert(cut(b, max) =~= a);
}

/// Decoding with a smaller limit gives the output with a larger limit, cut at the smaller.
proof fn lemma_decode_loop_limits(st: DecodeState, stream: Seq<bool>, max: int, max2: int)
    requires
        st.out.len() <= max <= max2,
    ensures
        decode_loop(st, stream, max) == cut(decode_loop(st, stream, max2), max),
    decreases max - st.out.len(),
{
    lemma_decode_loop_out(st, stream, max2);
    if st.out.len() == max {
        lemma_prefix_cut(st.out, decode_loop(st, stream, max2), max);
    } else {
        match decode_symbol_spec(st.tree, stream, st.pos) {
            None => {},
            Some((symbol, p1)) => {
                let t1 = update_spec(st.tree, symbol);
                if symbol < LITERAL_LIMIT {
                    let b = symbol as u8;
                    let next = DecodeState {
                        tree: t1,
                        pos: p1,
                        ring: st.ring.update(st.cursor, b),
                        cursor: (st.cursor + 1) % (WINDOW_SIZE as int),
                        out: st.out.push(b),
                    };
                    lemma_decode_loop_limits(next, stream, max, max2);
                } else {
                    match decode_position(stream, p1) {
                        None => {},
                        Some((distance, p2)) => {
                            let source = (st.cursor + WINDOW_SIZE - distance - 1) % (
                            WINDOW_SIZE as int);
                            let n = symbol - MATCH_BASE;
                            if n < 0 {
                                assert(copy_ring(st.ring, st.cursor, source, st.out, n, max).2
                                    == st.out);
                                assert(copy_ring(st.ring, st.cursor, source, st.out, n, max2).2
                                    == st.out);
                            } else {
                                lemma_copy_ring_limits(st.ring, st.cursor, source, st.out, n, max, max2);
                                lemma_copy_ring_out(st.ring, st.cursor, source, st.out, n, max);
                                lemma_copy_ring_out(st.ring, st.cursor, source, st.out, n, max2);
                                let (ring2, cursor2, out2) = copy_ring(
                                    st.ring,
                                    st.cursor,
                                    source,
                                    st.out,
                                    n,
                                    max,
                                );
                                let (ring3, cursor3, out3) = copy_ring(
                                    st.ring,
                                    st.cursor,
                                    source,
                                    st.out,
                                    n,
                                    max2,
                                );
                                let next2 = DecodeState {
                                    tree: t1,
                                    pos: p2,
                                    ring: ring2,
                                    cursor: cursor2,
                                    out: out2,
                                };
                                let next3 = DecodeState {
                                    tree: t1,
                                    pos: p2,
                                    ring: ring3,
                                    cursor: cursor3,
                                    out: out3,
                                };
                                if st.out.len() + n <= max {
                                    lemma_decode_loop_limits(next2, stream, max, max2);
                                } else {
                                    assert(out2.len() == max);
                                    lemma_decode_loop_out(next3, stream, max2);
                                    if !(out3.len() <= st.out.len() || out3.len() > max2) {
                                        assert(is_prefix(out3, decode_loop(next3, stream, max2)));
                                    }
                                    assert(decode_loop(st, stream, max) == out2) by {
                                        if !(out2.len() <= st.out.len() || out2.len() > max) {
                                            assert(decode_loop(next2, stream, max) == out2);
                                        }
                                    }
                                    let whole = decode_loop(st, stream, max2);
                                    assert(is_prefix(out3, whole));
                                    assert(out2 == out3.take(max));
                                    assert(cut(whole, max) =~= out2);
                                }
                            }
                        },
                    }
                }
            },
        }
    }
}

/// `decompress` never returns more than `max_output` bytes.
pub proof fn lemma_decompress_bounded(input: Seq<u8>, max_output: int)
    requires
        0 <= max_output,
    ensures
        decompress_spec(input, max_output).len() <= max_output,
{
    lemma_decode_loop_out(initial_state(), unpack(input), max_output);
}

/// A smaller limit gives the output of a larger limit, cut at the smaller one.
pub proof fn lemma_decompress_limits(input: Seq<u8>, max: int, max2: int)
    requires
        0 <= max <= max2,
    ensures
        decompress_spec(input, max) == cut(decompress_spec(input, max2), max),
{
    lemma_decode_loop_limits(initial_state(), unpack(input), max, max2);
}

/// Empty input decompresses to nothing, whatever the limit.
pub proof fn lemma_decompress_empty(max_output: int)
    ensures
        decompress_spec(Seq::empty(), max_output) == Seq::<u8>::empty(),
{
    lemma_initial_wf();
    lemma_root_inner(initial_tree());
    assert(unpack(Seq::<u8>::empty()).len() == 0);
}

/// Walking down a well-formed tree reads at least one bit and ends at a symbol.
proof fn lemma_walk_range(t: TreeView, stream: Seq<bool>, pos: int, node: int)
    requires
        structure_ok(t),
    ensures
        walk(t, stream, pos, node) matches Some((symbol, p)) ==> 0 <= symbol < SYMBOL_COUNT && pos
            < p <= stream.len(),
    decreases node,
{
    if !(node < 0 || node + 1 >= TABLE_SIZE || pos < 0 || pos >= stream.len()) {
        let i = node + bit_at(stream, pos);
        assert(links_ok(t, i));
        let c = t.son[i] as int;
        if c < TABLE_SIZE && c < node {
            lemma_walk_range(t, stream, pos + 1, c);
        }
    }
}

/// With fewer than eight bits left, nothing but literals can be decoded, each from at least
/// one bit: the output grows by at most the number of bits left.
pub proof fn lemma_decode_tail(st: DecodeState, stream: Seq<bool>, max: int)
    requires
        tree_wf(st.tree),
        0 <= st.pos <= stream.len() < st.pos + 8,
    ensures
        decode_loop(st, stream, max).len() <= st.out.len() + (stream.len() - st.pos),
    decreases max - st.out.len(),
{
    if st.out.len() < max {
        lemma_root_inner(st.tree);
        lemma_walk_range(st.tree, stream, st.pos, st.tree.son[crate::ROOT as int] as int);
        match decode_symbol_spec(st.tree, stream, st.pos) {
            None => {},
            Some((symbol, p1)) => {
                lemma_update_wf(st.tree, symbol);
                let t1 = update_spec(st.tree, symbol);
                if symbol < LITERAL_LIMIT {
                    let b = symbol as u8;
                    let next = DecodeState {
                        tree: t1,
                        pos: p1,
                        ring: st.ring.update(st.cursor, b),
                        cursor: (st.cursor + 1) % (WINDOW_SIZE as int),
                        out: st.out.push(b),
                    };
                    lemma_decode_tail(next, stream, max);
                } else {
                    assert(decode_position(stream, p1) is None);
                }
            },
        }
    }
}

/// `a` begins `b` (bits).
pub open spec fn is_bit_prefix(a: Seq<bool>, b: Seq<bool>) -> bool {
    &&& a.len() <= b.len()
    &&& forall|i: int| 0 <= i < a.len() ==> a[i] == b[i]
}

proof fn lemma_walk_prefix(t: TreeView, s1: Seq<bool>, s2: Seq<bool>, pos: int, node: int)
    requires
        is_bit_prefix(s1, s2),
    ensures
        walk(t, s1, pos, node) is Some ==> walk(t, s2, pos, node) == walk(t, s1, pos, node),
    decreases node,
{
    if !(node < 0 || node + 1 >= TABLE_SIZE || pos < 0 || pos >= s1.len()) {
        assert(bit_at(s1, pos) == bit_at(s2, pos));
        let c = t.son[node + bit_at(s1, pos)] as int;
        if c < TABLE_SIZE && c < node {
            lemma_walk_prefix(t, s1, s2, pos + 1, c);
        }
    }
}

proof fn lemma_position_prefix(s1: Seq<bool>, s2: Seq<bool>, pos: int)
    requires
        is_bit_prefix(s1, s2),
    ensures
        decode_position(s1, pos) is Some ==> decode_position(s2, pos) == decode_position(s1, pos),
{
    if decode_position(s1, pos) is Some {
        assert forall|i: int| pos <= i < pos + 8 implies bit_at(s1, i) == bit_at(s2, i) by {}
        lemma_bits_value_local(s1, s2, pos, 8);
        let leading = bits_value(s1, pos, 8);
        let extra = crate::position::code_bits(crate::position::leading_symbol(leading)) - 2;
        assert forall|i: int| pos <= i < pos + (8 + extra) implies bit_at(s1, i) == bit_at(s2, i) by {}
        lemma_bits_value_local(s1, s2, pos, (8 + extra) as nat);
    }
}

/// Decoding a prefix of a stream gives a prefix of what the whole stream gives.
proof fn lemma_decode_loop_prefix(st: DecodeState, s1: Seq<bool>, s2: Seq<bool>, max: int)
    requires
        is_bit_prefix(s1, s2),
    ensures
        is_prefix(decode_loop(st, s1, max), decode_loop(st, s2, max)),
    decreases max - st.out.len(),
{
    lemma_decode_loop_out(st, s2, max);
    if st.out.len() < max {
        let r = st.tree.son[crate::ROOT as int] as int;
        if r < TABLE_SIZE {
            lemma_walk_prefix(st.tree, s1, s2, st.pos, r);
        }
        match decode_symbol_spec(st.tree, s1, st.pos) {
            None => {},
            Some((symbol, p1)) => {
                let t1 = update_spec(st.tree, symbol);
                if symbol < LITERAL_LIMIT {
                    let b = symbol as u8;
                    let next = DecodeState {
                        tree: t1,
                        pos: p1,
                        ring: st.ring.update(st.cursor, b),
                        cursor: (st.cursor + 1) % (WINDOW_SIZE as int),
                        out: st.out.push(b),
                    };
                    lemma_decode_loop_prefix(next, s1, s2, max);
                } else {
                    lemma_position_prefix(s1, s2, p1);
                    match decode_position(s1, p1) {
                        None => {},
                        Some((distance, p2)) => {
                            let source = (st.cursor + WINDOW_SIZE - distance - 1) % (
                            WINDOW_SIZE as int);
                            let (ring2, cursor2, out2) = copy_ring(
                                st.ring,
                                st.cursor,
                                source,
                                st.out,
                                symbol - MATCH_BASE,
                                max,
                            );
                            if !(out2.len() <= st.out.len() || out2.len() > max) {
                                let next = DecodeState {
                                    tree: t1,
                                    pos: p2,
                                    ring: ring2,
                                    cursor: cursor2,
                                    out: out2,
                                };
                                lemma_decode_loop_prefix(next, s1, s2, max);
                            }
                        },
                    }
                }
            },
        }
    }
}

/// Decompressing the first `k` bytes of an input gives a prefix of what the whole input gives.
pub proof fn lemma_decompress_truncated(input: Seq<u8>, k: int, max_output: int)
    requires
        0 <= k <= input.len(),
    ensures
        is_prefix(decompress_spec(input.take(k), max_output), decompress_spec(input, max_output)),
{
    let s1 = unpack(input.take(k));
    let s2 = unpack(input);
    assert forall|i: int| 0 <= i < s1.len() implies s1[i] == s2[i] by {
        assert(input.take(k)[i / 8] == input[i / 8]);
    }
    lemma_decode_loop_prefix(initial_state(), s1, s2, max_output);
}

/// With a limit below the data's length, decompressing what `compress` makes of the data gives
/// the data's first bytes, as many as the limit.
pub proof fn lemma_roundtrip_cut(data: Seq<u8>, max_output: int)
    requires
        0 <= max_output <= data.len(),
    ensures
        decompress_spec(compress_spec(data), max_output) == data.take(max_output),
{
    crate::roundtrip::lemma_roundtrip(data);
    lemma_decompress_limits(compress_spec(data), max_output, data.len() as int);
    if max_output == data.len() {
        assert(data.take(max_output) =~= data);
    }
}

/// With any limit at least as long as the data, decompressing what `compress` makes of the
/// data gives the data first.
pub proof fn lemma_roundtrip_prefix(data: Seq<u8>, max_output: int)
    requires
        data.len() <= max_output,
    ensures
        is_prefix(data, decompress_spec(compress_spec(data), max_output)),
{
    crate::roundtrip::lemma_roundtrip(data);
    lemma_decompress_limits(compress_spec(data), data.len() as int, max_output);
    let whole = decompress_spec(compress_spec(data), max_output);
    if whole.len() > data.len() {
        assert(whole.take(data.len() as int) == data);
        assert forall|i: int| 0 <= i < data.len() implies data[i] == whole[i] by {
            assert(whole.take(data.len() as int)[i] == whole[i]);
        }
    }
}

} // verus!
