use vstd::prelude::*;
use crate::{TABLE_SIZE, ROOT, SYMBOL_COUNT, MAX_FREQ};
use crate::tree::{
    TreeView, tree_wf, climb, climb_step, climb_inv, scan_up, lemma_climb_step, lemma_climb,
    lemma_climb_start, lemma_scan_up, initial_tree, init_freq, lemma_initial_wf,
    lemma_init_mono, path_bits, symbol_code, decode_symbol_spec, walk, lemma_code_length,
    lemma_root_inner, up_ok, links_ok, sym_ok,
};
use crate::bits::{
    BitReader, BitWriter, bits_value, bit_at, lemma_value_bits_of, lemma_bits_value_split,
    lemma_bits_value_shifted,
};
use crate::tree::leaf_freq;
use crate::rebuild::{
    reconstruct, halve, pack_leaves, build, relink, find_insert, shift_up, insert_node, pack_inv,
    build_inv, relink_inv, lemma_pack_start, lemma_build_step, lemma_reconstruct,
};

verus! {

/// The tree after coding `symbol`: rebuilt first if the root frequency reached the limit,
/// then the frequencies on the symbol's path raised.
pub open spec fn update_spec(t: TreeView, symbol: int) -> TreeView {
    let t0 = if t.freq[ROOT as int] == MAX_FREQ {
        reconstruct(t)
    } else {
        t
    };
    climb(t0, t0.parent[TABLE_SIZE + symbol] as int)
}

/// Updating a well-formed tree keeps it well formed.
pub proof fn lemma_update_wf(t: TreeView, symbol: int)
    requires
        tree_wf(t),
        0 <= symbol < SYMBOL_COUNT,
    ensures
        tree_wf(update_spec(t, symbol)),
{
    let t0 = if t.freq[ROOT as int] == MAX_FREQ {
        lemma_reconstruct(t);
        reconstruct(t)
    } else {
        t
    };
    lemma_climb_start(t0, symbol);
    lemma_climb(t0, t0.parent[TABLE_SIZE + symbol] as int);
}

/// An update counts one more occurrence of `symbol` and changes no other count: the leaf of
/// `symbol` gains one, every other leaf keeps its frequency, the root gains one. When the root
/// frequency had reached `MAX_FREQ`, this is on top of the rebuild's halving.
pub proof fn lemma_update_counts(t: TreeView, symbol: int)
    requires
        tree_wf(t),
        0 <= symbol < SYMBOL_COUNT,
    ensures
        t.freq[ROOT as int] < MAX_FREQ ==> {
            &&& update_spec(t, symbol).freq[ROOT as int] == t.freq[ROOT as int] + 1
            &&& forall|x: int|
                0 <= x < SYMBOL_COUNT ==> #[trigger] leaf_freq(update_spec(t, symbol), x)
                    == leaf_freq(t, x) + if x == symbol {
                    1int
                } else {
                    0int
                }
        },
        t.freq[ROOT as int] == MAX_FREQ ==> forall|x: int|
            0 <= x < SYMBOL_COUNT ==> #[trigger] leaf_freq(update_spec(t, symbol), x) == (leaf_freq(
                t,
                x,
            ) + 1) / 2 + if x == symbol {
                1int
            } else {
                0int
            },
        t.freq[ROOT as int] == MAX_FREQ ==> {
            &&& update_spec(t, symbol).freq[ROOT as int] <= (t.freq[ROOT as int] + SYMBOL_COUNT)
                / 2 + 1
            &&& forall|x: int|
                0 <= x < SYMBOL_COUNT ==> #[trigger] leaf_freq(update_spec(t, symbol), x) == halve(
                    t.freq[t.parent[TABLE_SIZE + x] as int],
                ) + if x == symbol {
                    1int
                } else {
                    0int
                }
        },
{
    if t.freq[ROOT as int] == MAX_FREQ {
        lemma_reconstruct(t);
        let t0 = reconstruct(t);
        lemma_climb_start(t0, symbol);
        let n0 = t0.parent[TABLE_SIZE + symbol] as int;
        lemma_climb(t0, n0);
        assert(update_spec(t, symbol) == climb(t0, n0));
        assert forall|x: int| 0 <= x < SYMBOL_COUNT implies #[trigger] leaf_freq(
            update_spec(t, symbol),
            x,
        ) == halve(t.freq[t.parent[TABLE_SIZE + x] as int]) + if x == symbol {
            1int
        } else {
            0int
        } by {
            assert(sym_ok(t0, x));
            assert(sym_ok(t0, symbol));
            assert((t0.parent[TABLE_SIZE + x] == n0) == (x == symbol));
            assert(leaf_freq(t0, x) == halve(t.freq[t.parent[TABLE_SIZE + x] as int]));
            assert(leaf_freq(t0, x) == (leaf_freq(t, x) + 1) / 2);
            assert(leaf_freq(climb(t0, n0), x) == leaf_freq(t0, x) + if t0.parent[TABLE_SIZE + x]
                == n0 {
                1int
            } else {
                0int
            });
        }
    } else {
        let n0 = t.parent[TABLE_SIZE + symbol] as int;
        lemma_climb_start(t, symbol);
        lemma_climb(t, n0);
        assert(update_spec(t, symbol) == climb(t, n0));
        assert forall|x: int| 0 <= x < SYMBOL_COUNT implies #[trigger] leaf_freq(
            update_spec(t, symbol),
            x,
        ) == leaf_freq(t, x) + if x == symbol {
            1int
        } else {
            0int
        } by {
            assert(sym_ok(t, x));
            assert(sym_ok(t, symbol));
            assert((t.parent[TABLE_SIZE + x] == n0) == (x == symbol));
            assert(leaf_freq(climb(t, n0), x) == leaf_freq(t, x) + if t.parent[TABLE_SIZE + x]
                == n0 {
                1int
            } else {
                0int
            });
        }
    }
}

/// Updates keep the sibling property.
pub proof fn lemma_update_sibling(t: TreeView, symbol: int)
    requires
        tree_wf(t),
        0 <= symbol < SYMBOL_COUNT,
    ensures
        crate::tree::sibling_property(update_spec(t, symbol)),
{
    lemma_update_wf(t, symbol);
    crate::tree::lemma_sibling_property(update_spec(t, symbol));
}

pub struct AdaptiveHuffman {
    freq: Vec<u16>,
    parent: Vec<u16>,
    son: Vec<u16>,
}

impl View for AdaptiveHuffman {
    type V = TreeView;

    closed spec fn view(&self) -> TreeView {
        TreeView { freq: self.freq@, parent: self.parent@, son: self.son@ }
    }
}

proof fn lemma_code_shift(v: u32, len: u32, b: u32)
    by (bit_vector)
    requires
        1 <= len <= 30,
        v < (1u32 << len),
        b <= 1,
    ensures
        ((v << (32 - len) as u32) >> 1u32) | (b << 31u32) == ((b << len) | v) << (31 - len) as u32,
        ((v << (32 - len) as u32) >> 1u32) == v << (31 - len) as u32,
        (b << len) | v == (b << len) + v,
        ((b << len) | v) < (1u32 << (len + 1) as u32),
        b == 1 ==> b << 31u32 == 0x8000_0000u32,
        b == 0 ==> (b << len) | v == v,
{
}

proof fn lemma_code_first(b: u32)
    by (bit_vector)
    requires
        b <= 1,
    ensures
        (0u32 >> 1u32) | (b << 31u32) == b << 31u32,
        0u32 >> 1u32 == 0u32,
        b < (1u32 << 1u32),
        b == 1 ==> b << 31u32 == 0x8000_0000u32,
        b == 0 ==> b << 31u32 == 0u32,
{
}

proof fn lemma_code_final(v: u32, len: u32)
    by (bit_vector)
    requires
        1 <= len <= 31,
        v < (1u32 << len),
    ensures
        (v << (32 - len) as u32) >> (32 - len) as u32 == v,
{
}

impl AdaptiveHuffman {
    /// The starting tree.
    pub fn new() -> (r: Self)
        ensures
            r@ == initial_tree(),
            tree_wf(r@),
    {
        proof {
            lemma_initial_wf();
        }
        let mut freq: Vec<u16> = vec![0u16; TABLE_SIZE + 1];
        let mut parent: Vec<u16> = vec![0u16; TABLE_SIZE + SYMBOL_COUNT];
        let mut son: Vec<u16> = vec![0u16; TABLE_SIZE];
        let ghost it = initial_tree();
        let mut symbol = 0usize;
        while symbol < SYMBOL_COUNT
            invariant
                it == initial_tree(),
                symbol <= SYMBOL_COUNT,
                freq@.len() == TABLE_SIZE + 1,
                parent@.len() == TABLE_SIZE + SYMBOL_COUNT,
                son@.len() == TABLE_SIZE,
                forall|q: int| 0 <= q < symbol ==> #[trigger] freq@[q] == it.freq[q],
                forall|q: int| 0 <= q < symbol ==> #[trigger] son@[q] == it.son[q],
                forall|q: int|
                    TABLE_SIZE <= q < TABLE_SIZE + symbol ==> #[trigger] parent@[q] == it.parent[q],
            decreases SYMBOL_COUNT - symbol,
        {
            freq.set(symbol, 1);
            son.set(symbol, (symbol + TABLE_SIZE) as u16);
            parent.set(symbol + TABLE_SIZE, symbol as u16);
            symbol += 1;
        }
        let mut leaf = 0usize;
        let mut node = SYMBOL_COUNT;
        while node <= ROOT
            invariant
                it == initial_tree(),
                SYMBOL_COUNT <= node <= TABLE_SIZE,
                leaf == 2 * (node - SYMBOL_COUNT),
                freq@.len() == TABLE_SIZE + 1,
                parent@.len() == TABLE_SIZE + SYMBOL_COUNT,
                son@.len() == TABLE_SIZE,
                forall|q: int| 0 <= q < node ==> #[trigger] freq@[q] == it.freq[q],
                forall|q: int| 0 <= q < node ==> #[trigger] son@[q] == it.son[q],
                forall|q: int|
                    TABLE_SIZE <= q < TABLE_SIZE + SYMBOL_COUNT ==> #[trigger] parent@[q]
                        == it.parent[q],
                forall|q: int| 0 <= q < leaf ==> #[trigger] parent@[q] == it.parent[q],
            decreases TABLE_SIZE - node,
        {
            proof {
                lemma_init_mono(leaf as int, ROOT as int);
                lemma_init_mono(leaf + 1, ROOT as int);
                lemma_init_mono(node as int, ROOT as int);
                lemma_initial_wf();
                assert(init_freq(node as int) == init_freq(leaf as int) + init_freq(leaf + 1));
            }
            let f = freq[leaf] + freq[leaf + 1];
            freq.set(node, f);
            son.set(node, leaf as u16);
            parent.set(leaf, node as u16);
            parent.set(leaf + 1, node as u16);
            leaf += 2;
            node += 1;
        }
        freq.set(TABLE_SIZE, 0xFFFF);
        parent.set(ROOT, 0);
        let r = AdaptiveHuffman { freq, parent, son };
        proof {
            assert(r@.freq =~= it.freq);
            assert(r@.son =~= it.son);
            assert(r@.parent =~= it.parent);
        }
        r
    }

    /// Reads one symbol's code from `reader` and counts the symbol; `None` if the input ends
    /// first, in which case the tree is unchanged and the reader at the end of its input.
    pub fn decode_symbol(&mut self, reader: &mut BitReader<'_>) -> (r: Option<usize>)
        requires
            tree_wf(old(self)@),
            old(reader).wf(),
        ensures
            tree_wf(final(self)@),
            final(reader).wf(),
            final(reader).stream() == old(reader).stream(),
            match decode_symbol_spec(old(self)@, old(reader).stream(), old(reader).pos()) {
                Some((s, p)) => {
                    &&& r == Some(s as usize)
                    &&& 0 <= s < SYMBOL_COUNT
                    &&& final(reader).pos() == p
                    &&& final(self)@ == update_spec(old(self)@, s)
                },
                None => {
                    &&& r is None
                    &&& final(reader).pos() == old(reader).stream().len()
                    &&& final(self)@ == old(self)@
                },
            },
    {
        let ghost t = self@;
        let ghost stream = reader.stream();
        let ghost target = decode_symbol_spec(t, stream, reader.pos());
        proof {
            lemma_root_inner(t);
        }
        let mut node = self.son[ROOT] as usize;
        while node < TABLE_SIZE
            invariant
                self@ == t,
                tree_wf(t),
                reader.wf(),
                reader.stream() == stream,
                stream == old(reader).stream(),
                target == decode_symbol_spec(t, stream, old(reader).pos()),
                node < TABLE_SIZE ==> node + 1 < ROOT && walk(t, stream, reader.pos(), node as int)
                    == target,
                node >= TABLE_SIZE ==> node < TABLE_SIZE + SYMBOL_COUNT && target == Some(
                    (node - TABLE_SIZE, reader.pos()),
                ),
            decreases
                if node < TABLE_SIZE {
                    node + 1
                } else {
                    0
                },
        {
            proof {
                reader.lemma_pos_bound();
            }
            match reader.bit() {
                None => {
                    return None;
                },
                Some(b) => {
                    proof {
                        assert(links_ok(t, node + b));
                    }
                    node = self.son[node + b as usize] as usize;
                },
            }
        }
        let symbol = node - TABLE_SIZE;
        self.update(symbol);
        Some(symbol)
    }

    /// Writes the code of `symbol` and counts the symbol.
    pub fn encode_symbol(&mut self, writer: &mut BitWriter, symbol: usize)
        requires
            tree_wf(old(self)@),
            old(writer).wf(),
            symbol < SYMBOL_COUNT,
        ensures
            tree_wf(final(self)@),
            final(self)@ == update_spec(old(self)@, symbol as int),
            final(writer).wf(),
            final(writer).written() == old(writer).written() + symbol_code(
                old(self)@,
                symbol as int,
            ),
    {
        let ghost t = self@;
        let ghost leaf = t.parent[TABLE_SIZE + symbol] as int;
        let ghost full = symbol_code(t, symbol as int);
        proof {
            lemma_code_length(t, symbol as int);
            lemma_root_inner(t);
            assert(sym_ok(t, symbol as int));
            assert(full == path_bits(t, leaf) + Seq::<bool>::empty());
        }
        let mut code = 0u32;
        let mut length = 0u32;
        let mut node = self.parent[symbol + TABLE_SIZE] as usize;
        let ghost mut rest: Seq<bool> = Seq::empty();
        loop
            invariant_except_break
                self@ == t,
                tree_wf(t),
                0 <= node < ROOT,
                full == path_bits(t, node as int) + rest,
                full.len() <= 21,
                rest.len() == length,
                length == 0 ==> code == 0,
                length > 0 ==> code == (bits_value(rest, 0, length as nat) as u32) << (32
                    - length) as u32 && bits_value(rest, 0, length as nat) < (1u32 << length),
            ensures
                self@ == t,
                full == rest,
                rest.len() == length,
                1 <= length <= 21,
                code >> (32 - length) as u32 == bits_value(rest, 0, length as nat),
            decreases ROOT - node,
        {
            proof {
                crate::bits::lemma_bits_value_bound(rest, 0, length as nat);
            }
            let ghost v = bits_value(rest, 0, length as nat) as u32;
            let bit = (node & 1) as u32;
            assert(bit == node % 2) by (bit_vector)
                requires
                    bit == (node & 1) as u32,
            ;
            proof {
                assert(up_ok(t, node as int));
                let up = t.parent[node as int] as int;
                assert(path_bits(t, node as int) == path_bits(t, up).push(node % 2 == 1));
                assert(path_bits(t, up).len() + 1 + length <= 21);
                if length == 0 {
                    lemma_code_first(bit);
                } else {
                    lemma_code_shift(v, length, bit);
                }
                let nr = seq![node % 2 == 1] + rest;
                lemma_bits_value_split(nr, 0, 1, length as nat);
                assert(bit_at(nr, 0) == bit);
                assert(bits_value(nr, 0, 1) == bit) by {
                    reveal_with_fuel(bits_value, 2);
                }
                lemma_bits_value_shifted(nr, 1, rest, 0, length as nat);
                vstd::arithmetic::power2::lemma2_to64();
                vstd::arithmetic::power2::lemma_pow2_strictly_increases(length as nat, 32);
                assert(vstd::arithmetic::power2::pow2(32) == 4294967296);
                assert(vstd::arithmetic::power2::pow2(length as nat) <= u32::MAX);
                if bit == 1 {
                    assert(bit * vstd::arithmetic::power2::pow2(length as nat)
                        == vstd::arithmetic::power2::pow2(length as nat));
                    vstd::bits::lemma_u32_shl_is_mul(bit, length);
                } else {
                    assert(0u32 << length == 0) by (bit_vector);
                }
                assert(bit << length == bit * vstd::arithmetic::power2::pow2(length as nat));
                assert(bits_value(nr, 0, (1 + length) as nat) == (bit << length) + v);
                assert(full == path_bits(t, up) + nr);
            }
            let ghost old_len = length;
            code >>= 1;
            if node & 1 != 0 {
                code |= 0x8000_0000u32;
            }
            length += 1;
            proof {
                rest = seq![node % 2 == 1] + rest;
                if old_len == 0 {
                    assert(code == bit << 31u32);
                    assert(bits_value(rest, 0, length as nat) == bit);
                } else {
                    assert(code == ((bit << old_len) | v) << (31 - old_len) as u32);
                    assert(bits_value(rest, 0, length as nat) == (bit << old_len) | v);
                }
            }
            node = self.parent[node] as usize;
            if node == ROOT {
                proof {
                    assert(path_bits(t, ROOT as int).len() == 0);
                    assert(full =~= rest);
                    lemma_code_final(bits_value(rest, 0, length as nat) as u32, length);
                }
                break;
            }
        }
        proof {
            lemma_value_bits_of(full);
            crate::bits::lemma_bits_value_bound(full, 0, full.len());
        }
        let value = code >> (32 - length);
        assert(value == bits_value(full, 0, full.len()) as u32);
        assert(length == full.len());
        writer.put(value, length);
        self.update(symbol);
    }

    /// Rebuilds the tree from its leaves with halved frequencies.
    fn reconstruct(&mut self)
        requires
            tree_wf(old(self)@),
        ensures
            final(self)@ == reconstruct(old(self)@),
            tree_wf(final(self)@),
            final(self)@.freq[ROOT as int] <= (old(self)@.freq[ROOT as int] + SYMBOL_COUNT) / 2,
            forall|s: int|
                0 <= s < SYMBOL_COUNT ==> #[trigger] leaf_freq(final(self)@, s) == halve(
                    old(self)@.freq[old(self)@.parent[TABLE_SIZE + s] as int],
                ),
            forall|s: int|
                0 <= s < SYMBOL_COUNT ==> #[trigger] leaf_freq(final(self)@, s) == (leaf_freq(
                    old(self)@,
                    s,
                ) + 1) / 2,
    {
        let ghost t = self@;
        proof {
            lemma_pack_start(t);
            lemma_reconstruct(t);
        }
        let mut packed = 0usize;
        let mut node = 0usize;
        while node < TABLE_SIZE
            invariant
                tree_wf(t),
                pack_inv(t, self@, node as int, packed as int),
                pack_leaves(self@, node as int, packed as int) == pack_leaves(t, 0, 0),
            decreases TABLE_SIZE - node,
        {
            proof {
                crate::rebuild::lemma_pack_step(t, self@, node as int, packed as int);
            }
            if self.son[node] as usize >= TABLE_SIZE {
                let f = self.freq[node];
                self.freq.set(packed, f / 2 + f % 2);
                let sn = self.son[node];
                self.son.set(packed, sn);
                packed += 1;
            }
            node += 1;
        }
        let ghost a = self@;
        assert(a == pack_leaves(t, 0, 0).0);
        let ghost total = crate::rebuild::build_total(t);
        proof {
            crate::rebuild::lemma_build_ready(t);
        }
        let mut child = 0usize;
        let mut node = SYMBOL_COUNT;
        while node < TABLE_SIZE
            invariant
                SYMBOL_COUNT <= node <= TABLE_SIZE,
                child == 2 * (node - SYMBOL_COUNT),
                build_inv(self@, t.parent, node - SYMBOL_COUNT, total),
                build(self@, child as int, node as int) == build(a, 0, SYMBOL_COUNT as int),
            decreases TABLE_SIZE - node,
        {
            let ghost k = node - SYMBOL_COUNT;
            proof {
                lemma_build_step(self@, t.parent, k, total);
            }
            let combined = self.freq[child] + self.freq[child + 1];
            let ghost b = self@;
            let mut insert = 0usize;
            let mut scan = node - 1;
            loop
                invariant_except_break
                    child + 1 <= scan < node,
                    node < TABLE_SIZE,
                    b.freq[child + 1] <= combined,
                    self@ == b,
                    find_insert(b.freq, combined as int, scan as int) == find_insert(
                        b.freq,
                        combined as int,
                        node - 1,
                    ),
                    b.freq.len() == TABLE_SIZE + 1,
                ensures
                    insert == find_insert(b.freq, combined as int, node - 1),
                    self@ == b,
                decreases scan,
            {
                if self.freq[scan] <= combined {
                    insert = scan + 1;
                    break;
                }
                if scan == 0 {
                    break;
                }
                scan -= 1;
            }
            let mut slot = node;
            while slot > insert
                invariant
                    child + 2 <= insert <= slot <= node,
                    node < TABLE_SIZE,
                    b.freq.len() == TABLE_SIZE + 1,
                    b.son.len() == TABLE_SIZE,
                    self@.parent == b.parent,
                    self@.freq.len() == b.freq.len(),
                    self@.son.len() == b.son.len(),
                    forall|q: int|
                        0 <= q < self@.freq.len() ==> #[trigger] self@.freq[q] == if slot < q
                            <= node {
                            b.freq[q - 1]
                        } else {
                            b.freq[q]
                        },
                    forall|q: int|
                        0 <= q < self@.son.len() ==> #[trigger] self@.son[q] == if slot < q
                            <= node {
                            b.son[q - 1]
                        } else {
                            b.son[q]
                        },
                decreases slot,
            {
                slot -= 1;
                let f = self.freq[slot];
                self.freq.set(slot + 1, f);
                let sn = self.son[slot];
                self.son.set(slot + 1, sn);
            }
            self.freq.set(insert, combined);
            self.son.set(insert, child as u16);
            proof {
                assert(self@.freq =~= shift_up(b.freq, insert as int, node as int).update(
                    insert as int,
                    combined,
                ));
                assert(self@.son =~= shift_up(b.son, insert as int, node as int).update(
                    insert as int,
                    child as u16,
                ));
                assert(self@ == insert_node(b, child as int, node as int, insert as int, combined));
            }
            child += 2;
            node += 1;
        }
        let ghost bt = self@;
        proof {
            assert(bt == build(a, 0, SYMBOL_COUNT as int));
        }
        let mut node = 0usize;
        while node < TABLE_SIZE
            invariant
                build_inv(bt, t.parent, SYMBOL_COUNT - 1, total),
                bt.parent == t.parent,
                relink_inv(self@, bt, node as int),
                relink(self@, node as int) == relink(bt, 0),
            decreases TABLE_SIZE - node,
        {
            let son = self.son[node] as usize;
            self.parent.set(son, node as u16);
            if son < TABLE_SIZE {
                self.parent.set(son + 1, node as u16);
            }
            proof {
                crate::rebuild::lemma_relink_step(self@, bt, node as int, total);
            }
            node += 1;
        }
    }

    /// Counts one more occurrence of `symbol`.
    fn update(&mut self, symbol: usize)
        requires
            tree_wf(old(self)@),
            symbol < SYMBOL_COUNT,
        ensures
            final(self)@ == update_spec(old(self)@, symbol as int),
            tree_wf(final(self)@),
    {
        proof {
            lemma_update_wf(self@, symbol as int);
        }
        if self.freq[ROOT] == MAX_FREQ {
            proof {
                lemma_reconstruct(self@);
            }
            self.reconstruct();
        }
        proof {
            lemma_climb_start(self@, symbol as int);
        }
        let mut node = self.parent[symbol + TABLE_SIZE] as usize;
        let ghost t0 = self@;
        let ghost n0 = node as int;
        loop
            invariant_except_break
                climb_inv(self@, node as int),
                climb(self@, node as int) == climb(t0, n0),
            ensures
                self@ == climb(t0, n0),
            decreases TABLE_SIZE - node,
        {
            let ghost cur_t = self@;
            let ghost n_before = node as int;
            proof {
                lemma_climb_step(cur_t, node as int);
                crate::tree::lemma_freq_le_root(cur_t, node as int);
            }
            let raised = self.freq[node] + 1;
            self.freq.set(node, raised);
            let ghost t1 = self@;
            proof {
                lemma_scan_up(t1.freq, raised as int, node + 1);
            }
            let mut next = node + 1;
            if raised > self.freq[next] {
                next += 1;
                while raised > self.freq[next]
                    invariant
                        self@ == t1,
                        node + 2 <= next <= scan_up(t1.freq, raised as int, node + 1),
                        scan_up(t1.freq, raised as int, next as int) == scan_up(
                            t1.freq,
                            raised as int,
                            node + 1,
                        ),
                        t1.freq.len() == TABLE_SIZE + 1,
                        t1.freq[TABLE_SIZE as int] >= raised,
                        scan_up(t1.freq, raised as int, node + 1) <= TABLE_SIZE,
                    decreases TABLE_SIZE + 1 - next,
                {
                    proof {
                        lemma_scan_up(t1.freq, raised as int, next + 1);
                    }
                    next += 1;
                }
                next -= 1;
                let fnext = self.freq[next];
                self.freq.set(node, fnext);
                self.freq.set(next, raised);
                proof {
                    assert(crate::tree::links_ok(cur_t, node as int));
                    assert(crate::tree::links_ok(cur_t, next as int));
                }
                let left = self.son[node] as usize;
                self.parent.set(left, next as u16);
                if left < TABLE_SIZE {
                    self.parent.set(left + 1, next as u16);
                }
                let swapped = self.son[next] as usize;
                self.son.set(next, left as u16);
                self.parent.set(swapped, node as u16);
                if swapped < TABLE_SIZE {
                    self.parent.set(swapped + 1, node as u16);
                }
                self.son.set(node, swapped as u16);
                node = next;
            }
            assert(self@ == climb_step(cur_t, n_before).0 && node == climb_step(cur_t, n_before).1);
            node = self.parent[node] as usize;
            if node == 0 {
                break;
            }
        }
    }
}

} // verus!
