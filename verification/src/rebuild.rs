use vstd::prelude::*;
use crate::{TABLE_SIZE, ROOT, SYMBOL_COUNT};
use crate::sums::{seq_sum, lemma_sum_concat, lemma_sum_nonneg, lemma_sum_take_succ};
use crate::tree::{
    TreeView, tree_wf, leaf_freq, initial_tree, init_freq, lemma_init_mono, lemma_initial_wf, structure_ok, shape_ok, links_ok, sum_ok, up_ok, sym_ok, leaf_marks,
    leaf_weights,
};

verus! {

/// Half a frequency, rounded up.
pub open spec fn halve(f: u16) -> u16 {
    (f / 2 + f % 2) as u16
}

/// Halving rounds up: half of `f` plus its remainder.
pub proof fn lemma_halve_rounds_up(f: u16)
    ensures
        halve(f) as int == (f as int + 1) / 2,
{
}

/// Moves the leaves, in order, to the front, halving their frequencies.
pub open spec fn pack_leaves(t: TreeView, node: int, packed: int) -> (TreeView, int)
    decreases TABLE_SIZE - node,
{
    if node < 0 || node >= TABLE_SIZE {
        (t, packed)
    } else if t.son[node] >= TABLE_SIZE {
        pack_leaves(
            TreeView {
                freq: t.freq.update(packed, halve(t.freq[node])),
                parent: t.parent,
                son: t.son.update(packed, t.son[node]),
            },
            node + 1,
            packed + 1,
        )
    } else {
        pack_leaves(t, node + 1, packed)
    }
}

/// Where a node of frequency `combined` goes among the sorted nodes below `scan + 1`: after
/// the last one not above it.
pub open spec fn find_insert(freq: Seq<u16>, combined: int, scan: int) -> int
    decreases scan,
{
    if scan < 0 {
        0
    } else if freq[scan] <= combined {
        scan + 1
    } else if scan == 0 {
        0
    } else {
        find_insert(freq, combined, scan - 1)
    }
}

/// Moves the entries at `ins..node` up by one position.
pub open spec fn shift_up(s: Seq<u16>, ins: int, node: int) -> Seq<u16> {
    Seq::new(s.len(), |q: int| if ins < q <= node { s[q - 1] } else { s[q] })
}

/// Builds the inner nodes from position `node` on, joining the pairs from `child` on.
pub open spec fn build(t: TreeView, child: int, node: int) -> TreeView
    decreases TABLE_SIZE - node,
{
    if node < 0 || node >= TABLE_SIZE {
        t
    } else {
        let combined = (t.freq[child] + t.freq[child + 1]) as u16;
        let ins = find_insert(t.freq, combined as int, node - 1);
        build(
            TreeView {
                freq: shift_up(t.freq, ins, node).update(ins, combined),
                parent: t.parent,
                son: shift_up(t.son, ins, node).update(ins, child as u16),
            },
            child + 2,
            node + 1,
        )
    }
}

/// Points the parent table at the children of the node at `node`.
pub open spec fn relink_once(t: TreeView, node: int) -> TreeView {
    let c = t.son[node] as int;
    let p1 = t.parent.update(c, node as u16);
    let p2 = if c < TABLE_SIZE {
        p1.update(c + 1, node as u16)
    } else {
        p1
    };
    TreeView { freq: t.freq, parent: p2, son: t.son }
}

/// Points the parent table at each node from `node` on.
pub open spec fn relink(t: TreeView, node: int) -> TreeView
    decreases TABLE_SIZE - node,
{
    if node < 0 || node >= TABLE_SIZE {
        t
    } else {
        relink(relink_once(t, node), node + 1)
    }
}

/// The sum of the halved leaf frequencies.
pub open spec fn build_total(t: TreeView) -> int {
    seq_sum(freq_range(pack_leaves(t, 0, 0).0.freq, 0, SYMBOL_COUNT as int))
}

/// Rebuilds the tree from its leaves, with their frequencies halved.
pub open spec fn reconstruct(t: TreeView) -> TreeView {
    relink(build(pack_leaves(t, 0, 0).0, 0, SYMBOL_COUNT as int), 0)
}

/// The frequencies at `lo..hi`, as integers.
pub open spec fn freq_range(freq: Seq<u16>, lo: int, hi: int) -> Seq<int> {
    Seq::new((hi - lo) as nat, |i: int| freq[lo + i] as int)
}

/// Some position below `n` holds `v`.
pub open spec fn holds(son: Seq<u16>, n: int, v: int) -> bool {
    exists|j: int| 0 <= j < n && #[trigger] son[j] == v
}

/// What holds after packing the leaves of `t` found below `node`.
pub open spec fn pack_inv(t: TreeView, a: TreeView, node: int, packed: int) -> bool {
    &&& shape_ok(a)
    &&& a.parent == t.parent
    &&& 0 <= packed <= node <= TABLE_SIZE
    &&& packed == seq_sum(leaf_marks(t.son, node))
    &&& forall|q: int| node <= q < TABLE_SIZE ==> #[trigger] a.son[q] == t.son[q]
    &&& forall|q: int| node <= q < TABLE_SIZE ==> #[trigger] a.freq[q] == t.freq[q]
    &&& a.freq[TABLE_SIZE as int] == t.freq[TABLE_SIZE as int]
    &&& forall|j: int|
        0 <= j < packed ==> TABLE_SIZE <= #[trigger] a.son[j] < TABLE_SIZE + SYMBOL_COUNT
    &&& forall|j: int| 0 <= j < packed ==> t.parent[#[trigger] a.son[j] as int] < node
    &&& forall|j: int| 0 <= j < packed ==> t.son[t.parent[#[trigger] a.son[j] as int] as int] == a.son[j]
    &&& forall|j: int| 0 <= j < packed ==> 1 <= #[trigger] a.freq[j]
    &&& forall|j: int|
        0 <= j < packed ==> #[trigger] a.freq[j] == halve(t.freq[t.parent[a.son[j] as int] as int])
    &&& forall|i: int, j: int|
        0 <= i < packed && 0 <= j < packed && #[trigger] a.son[i] == #[trigger] a.son[j] ==> i == j
    &&& forall|i: int, j: int| 0 <= i <= j < packed ==> #[trigger] a.freq[i] <= #[trigger] a.freq[j]
    &&& forall|j: int, q: int|
        0 <= j < packed && node <= q < TABLE_SIZE ==> #[trigger] a.freq[j] <= halve(
            #[trigger] t.freq[q],
        )
    &&& forall|v: int|
        TABLE_SIZE <= v < TABLE_SIZE + SYMBOL_COUNT && #[trigger] t.parent[v] < node ==> holds(
            a.son,
            packed,
            v,
        )
    &&& 2 * seq_sum(freq_range(a.freq, 0, packed)) <= seq_sum(
        leaf_weights(t.freq, t.son, node),
    ) + packed
}

proof fn lemma_halve(f: u16, g: u16)
    requires
        1 <= f <= g <= 0x8000,
    ensures
        1 <= halve(f) <= halve(g),
        2 * halve(f) <= f + 1,
{
}

pub proof fn lemma_pack_step(t: TreeView, a: TreeView, node: int, packed: int)
    requires
        tree_wf(t),
        pack_inv(t, a, node, packed),
        node < TABLE_SIZE,
    ensures
        ({
            let a2 = if a.son[node] >= TABLE_SIZE {
                TreeView {
                    freq: a.freq.update(packed, halve(a.freq[node])),
                    parent: a.parent,
                    son: a.son.update(packed, a.son[node]),
                }
            } else {
                a
            };
            let p2 = if a.son[node] >= TABLE_SIZE {
                packed + 1
            } else {
                packed
            };
            pack_inv(t, a2, node + 1, p2)
        }),
{
    let lm = leaf_marks(t.son, node + 1);
    assert(lm.take(node) =~= leaf_marks(t.son, node));
    lemma_sum_take_succ(lm, node);
    assert(lm.take(node + 1) =~= lm);
    let lw = leaf_weights(t.freq, t.son, node + 1);
    assert(lw.take(node) =~= leaf_weights(t.freq, t.son, node));
    lemma_sum_take_succ(lw, node);
    assert(lw.take(node + 1) =~= lw);
    assert(links_ok(t, node));
    assert(t.freq[node] <= t.freq[ROOT as int]);
    if a.son[node] >= TABLE_SIZE {
        let a2 = TreeView {
            freq: a.freq.update(packed, halve(a.freq[node])),
            parent: a.parent,
            son: a.son.update(packed, a.son[node]),
        };
        let v = t.son[node];
        assert forall|j: int, q: int|
            0 <= j < packed + 1 && node + 1 <= q < TABLE_SIZE implies #[trigger] a2.freq[j]
            <= halve(#[trigger] t.freq[q]) by {
            assert(t.freq[node] <= t.freq[q]);
            assert(t.freq[q] <= t.freq[ROOT as int]);
            lemma_halve(t.freq[node], t.freq[q]);
            if j < packed {
                assert(a.freq[j] <= halve(t.freq[node]));
            }
        }
        assert forall|i: int, j: int| 0 <= i <= j < packed + 1 implies #[trigger] a2.freq[i]
            <= #[trigger] a2.freq[j] by {
            if j == packed && i < packed {
                assert(a.freq[i] <= halve(t.freq[node]));
            }
        }
        assert forall|j: int| 0 <= j < packed + 1 implies 1 <= #[trigger] a2.freq[j] by {
            lemma_halve(t.freq[node], t.freq[node]);
        }
        assert forall|w: int|
            TABLE_SIZE <= w < TABLE_SIZE + SYMBOL_COUNT && #[trigger] t.parent[w] < node + 1 implies holds(
            a2.son,
            packed + 1,
            w,
        ) by {
            if t.parent[w] == node {
                assert(sym_ok(t, w - TABLE_SIZE));
                assert(a2.son[packed] == w);
            } else {
                assert(holds(a.son, packed, w));
                let j = choose|j: int| 0 <= j < packed && #[trigger] a.son[j] == w;
                assert(a2.son[j] == w);
            }
        }
        assert forall|j: int| 0 <= j < packed + 1 implies t.parent[#[trigger] a2.son[j] as int]
            < node + 1 by {}
        assert forall|i: int, j: int|
            0 <= i < packed + 1 && 0 <= j < packed + 1 && #[trigger] a2.son[i] == #[trigger] a2.son[j] implies i == j by {
            if i == packed && j < packed {
                assert(t.parent[a.son[j] as int] < node);
            }
            if j == packed && i < packed {
                assert(t.parent[a.son[i] as int] < node);
            }
        }
        let fr = freq_range(a2.freq, 0, packed + 1);
        assert(fr.take(packed) =~= freq_range(a.freq, 0, packed));
        lemma_sum_take_succ(fr, packed);
        assert(fr.take(packed + 1) =~= fr);
        lemma_halve(t.freq[node], t.freq[node]);
        assert(pack_inv(t, a2, node + 1, packed + 1));
    } else {
        assert forall|w: int|
            TABLE_SIZE <= w < TABLE_SIZE + SYMBOL_COUNT && #[trigger] t.parent[w] < node + 1 implies holds(
            a.son,
            packed,
            w,
        ) by {
            if t.parent[w] == node {
                assert(sym_ok(t, w - TABLE_SIZE));
            }
        }
        assert(pack_inv(t, a, node + 1, packed));
    }
}

/// Packing the leaves of a well-formed tree puts all of them, halved, in the first positions.
pub proof fn lemma_pack(t: TreeView, a: TreeView, node: int, packed: int)
    requires
        tree_wf(t),
        pack_inv(t, a, node, packed),
    ensures
        ({
            let (a2, p2) = pack_leaves(a, node, packed);
            pack_inv(t, a2, TABLE_SIZE as int, p2)
        }),
    decreases TABLE_SIZE - node,
{
    if node < TABLE_SIZE {
        lemma_pack_step(t, a, node, packed);
        if a.son[node] >= TABLE_SIZE {
            let a2 = TreeView {
                freq: a.freq.update(packed, halve(a.freq[node])),
                parent: a.parent,
                son: a.son.update(packed, a.son[node]),
            };
            lemma_pack(t, a2, node + 1, packed + 1);
        } else {
            lemma_pack(t, a, node + 1, packed);
        }
    }
}

pub proof fn lemma_pack_start(t: TreeView)
    requires
        tree_wf(t),
    ensures
        pack_inv(t, t, 0, 0),
{
    assert(leaf_marks(t.son, 0) =~= Seq::<int>::empty());
    assert(leaf_weights(t.freq, t.son, 0) =~= Seq::<int>::empty());
    assert(freq_range(t.freq, 0, 0) =~= Seq::<int>::empty());
}

proof fn lemma_find_insert(freq: Seq<u16>, combined: int, scan: int, low: int, node: int)
    requires
        0 <= low <= scan < node < freq.len(),
        freq[low] <= combined,
        forall|q: int| scan < q < node ==> combined < #[trigger] freq[q],
    ensures
        low + 1 <= find_insert(freq, combined, scan) <= node,
        freq[find_insert(freq, combined, scan) - 1] <= combined,
        forall|q: int| find_insert(freq, combined, scan) <= q < node ==> combined < #[trigger] freq[q],
    decreases scan,
{
    if freq[scan] > combined {
        lemma_find_insert(freq, combined, scan - 1, low, node);
    }
}

/// A sequence of `n` ones sums to `n`.
proof fn lemma_sum_ones(s: Seq<int>)
    requires
        forall|i: int| 0 <= i < s.len() ==> s[i] == 1,
    ensures
        seq_sum(s) == s.len(),
    decreases s.len(),
{
    if s.len() > 0 {
        lemma_sum_ones(s.drop_last());
    }
}

/// What holds after `k` inner nodes are built.
pub open spec fn build_inv(b: TreeView, parent0: Seq<u16>, k: int, total: int) -> bool {
    let node = SYMBOL_COUNT + k;
    &&& shape_ok(b)
    &&& b.parent == parent0
    &&& b.freq[TABLE_SIZE as int] == 0xFFFF
    &&& 0 <= k <= SYMBOL_COUNT - 1
    &&& forall|p: int| 0 <= p < node ==> 1 <= #[trigger] b.freq[p]
    &&& forall|p: int, q: int| 0 <= p <= q < node ==> #[trigger] b.freq[p] <= #[trigger] b.freq[q]
    &&& forall|p: int|
        0 <= p < node && #[trigger] b.son[p] >= TABLE_SIZE ==> b.son[p] < TABLE_SIZE + SYMBOL_COUNT
    &&& forall|p: int|
        0 <= p < node && #[trigger] b.son[p] < TABLE_SIZE ==> {
            let c = b.son[p] as int;
            &&& c % 2 == 0
            &&& c < 2 * k
            &&& c + 1 < p
            &&& b.freq[p] == b.freq[c] + b.freq[c + 1]
        }
    &&& forall|p: int, q: int|
        0 <= p < node && 0 <= q < node && #[trigger] b.son[p] == #[trigger] b.son[q] ==> p == q
    &&& forall|v: int| 0 <= v < 2 * k && v % 2 == 0 ==> #[trigger] holds(b.son, node, v)
    &&& forall|v: int|
        TABLE_SIZE <= v < TABLE_SIZE + SYMBOL_COUNT ==> #[trigger] holds(b.son, node, v)
    &&& seq_sum(leaf_marks(b.son, node)) == SYMBOL_COUNT
    &&& seq_sum(leaf_weights(b.freq, b.son, node)) == total
    &&& seq_sum(freq_range(b.freq, 2 * k, node)) == total
    &&& total <= 16541
}

/// Sum over a range split at `mid`.
proof fn lemma_range_split(f: Seq<u16>, lo: int, mid: int, hi: int)
    requires
        0 <= lo <= mid <= hi <= f.len(),
    ensures
        seq_sum(freq_range(f, lo, hi)) == seq_sum(freq_range(f, lo, mid)) + seq_sum(
            freq_range(f, mid, hi),
        ),
{
    assert(freq_range(f, lo, hi) =~= freq_range(f, lo, mid) + freq_range(f, mid, hi));
    lemma_sum_concat(freq_range(f, lo, mid), freq_range(f, mid, hi));
}

proof fn lemma_range_nonneg(f: Seq<u16>, lo: int, hi: int)
    requires
        0 <= lo <= hi <= f.len(),
    ensures
        seq_sum(freq_range(f, lo, hi)) >= 0,
{
    lemma_sum_nonneg(freq_range(f, lo, hi));
}

proof fn lemma_range_two(f: Seq<u16>, lo: int)
    requires
        0 <= lo,
        lo + 2 <= f.len(),
    ensures
        seq_sum(freq_range(f, lo, lo + 2)) == f[lo] + f[lo + 1],
{
    let r = freq_range(f, lo, lo + 2);
    assert(r.drop_last().drop_last() =~= Seq::<int>::empty());
    assert(seq_sum(r.drop_last().drop_last()) == 0);
    assert(seq_sum(r.drop_last()) == seq_sum(r.drop_last().drop_last()) + r[0]);
    assert(seq_sum(r) == seq_sum(r.drop_last()) + r[1]);
}

/// The tree with a node of frequency `combined` and first child `child` inserted at `ins`.
pub open spec fn insert_node(b: TreeView, child: int, node: int, ins: int, combined: u16) -> TreeView {
    TreeView {
        freq: shift_up(b.freq, ins, node).update(ins, combined),
        parent: b.parent,
        son: shift_up(b.son, ins, node).update(ins, child as u16),
    }
}

/// The facts about where an inner node is inserted.
pub open spec fn insert_ok(b: TreeView, k: int, ins: int, combined: u16) -> bool {
    let child = 2 * k;
    let node = SYMBOL_COUNT + k;
    &&& combined == b.freq[child] + b.freq[child + 1]
    &&& child + 2 <= ins <= node
    &&& b.freq[ins - 1] <= combined
    &&& forall|q: int| ins <= q < node ==> combined < #[trigger] b.freq[q]
}

proof fn lemma_insert_freq(b: TreeView, parent0: Seq<u16>, k: int, total: int, ins: int, combined: u16)
    requires
        build_inv(b, parent0, k, total),
        k < SYMBOL_COUNT - 1,
        insert_ok(b, k, ins, combined),
    ensures
        ({
            let b2 = insert_node(b, 2 * k, SYMBOL_COUNT + k, ins, combined);
            let node2 = SYMBOL_COUNT + k + 1;
            &&& shape_ok(b2)
            &&& b2.freq[TABLE_SIZE as int] == 0xFFFF
            &&& forall|p: int| 0 <= p < node2 ==> 1 <= #[trigger] b2.freq[p]
            &&& forall|p: int, q: int|
                0 <= p <= q < node2 ==> #[trigger] b2.freq[p] <= #[trigger] b2.freq[q]
        }),
{
    let node = SYMBOL_COUNT + k;
    let f = b.freq;
    let b2 = insert_node(b, 2 * k, node, ins, combined);
    let f2 = b2.freq;
    let node2 = node + 1;
    assert forall|p: int| 0 <= p < node2 implies 1 <= #[trigger] f2[p] by {
        if p > ins {
            assert(f2[p] == f[p - 1]);
        }
    }
    assert forall|p: int, q: int| 0 <= p <= q < node2 implies #[trigger] f2[p] <= #[trigger] f2[q] by {
        if p < ins && q < ins {
        } else if p < ins && q == ins {
            assert(f[p] <= f[ins - 1]);
        } else if p < ins && q > ins {
            assert(f[p] <= f[q - 1]);
        } else if p == ins && q > ins {
            assert(f2[q] == f[q - 1]);
        } else if p > ins {
            assert(f2[p] == f[p - 1] && f2[q] == f[q - 1]);
        }
    }
}

proof fn lemma_insert_links(b: TreeView, parent0: Seq<u16>, k: int, total: int, ins: int, combined: u16)
    requires
        build_inv(b, parent0, k, total),
        k < SYMBOL_COUNT - 1,
        insert_ok(b, k, ins, combined),
    ensures
        ({
            let b2 = insert_node(b, 2 * k, SYMBOL_COUNT + k, ins, combined);
            let node2 = SYMBOL_COUNT + k + 1;
            &&& forall|p: int|
                0 <= p < node2 && #[trigger] b2.son[p] >= TABLE_SIZE ==> b2.son[p] < TABLE_SIZE
                    + SYMBOL_COUNT
            &&& forall|p: int|
                0 <= p < node2 && #[trigger] b2.son[p] < TABLE_SIZE ==> {
                    let c = b2.son[p] as int;
                    &&& c % 2 == 0
                    &&& c < 2 * (k + 1)
                    &&& c + 1 < p
                    &&& b2.freq[p] == b2.freq[c] + b2.freq[c + 1]
                }
            &&& forall|p: int, q: int|
                0 <= p < node2 && 0 <= q < node2 && #[trigger] b2.son[p] == #[trigger] b2.son[q]
                    ==> p == q
        }),
{
    let child = 2 * k;
    let node = SYMBOL_COUNT + k;
    let f = b.freq;
    let sn = b.son;
    let b2 = insert_node(b, child, node, ins, combined);
    let f2 = b2.freq;
    let s2 = b2.son;
    let node2 = node + 1;
    assert forall|p: int|
        0 <= p < node2 && #[trigger] s2[p] >= TABLE_SIZE implies s2[p] < TABLE_SIZE
        + SYMBOL_COUNT by {
        if p > ins {
            assert(s2[p] == sn[p - 1]);
        }
    }
    assert forall|p: int| 0 <= p < node2 && #[trigger] s2[p] < TABLE_SIZE implies {
        let c = s2[p] as int;
        &&& c % 2 == 0
        &&& c < 2 * (k + 1)
        &&& c + 1 < p
        &&& f2[p] == f2[c] + f2[c + 1]
    } by {
        if p < ins {
            let c = sn[p] as int;
            assert(f2[c] == f[c] && f2[c + 1] == f[c + 1]);
        } else if p > ins {
            assert(s2[p] == sn[p - 1]);
            let c = sn[p - 1] as int;
            assert(f2[c] == f[c] && f2[c + 1] == f[c + 1]);
        } else {
            assert(f2[child] == f[child] && f2[child + 1] == f[child + 1]);
        }
    }
    assert forall|p: int, q: int|
        0 <= p < node2 && 0 <= q < node2 && #[trigger] s2[p] == #[trigger] s2[q] implies p == q by {
        let op = if p < ins {
            p
        } else if p > ins {
            p - 1
        } else {
            -1
        };
        let oq = if q < ins {
            q
        } else if q > ins {
            q - 1
        } else {
            -1
        };
        if op >= 0 && oq >= 0 {
            assert(sn[op] == sn[oq]);
        } else if op >= 0 {
            assert(s2[p] == sn[op]);
            if sn[op] < TABLE_SIZE {
                assert(sn[op] < 2 * k);
            }
        } else if oq >= 0 {
            assert(s2[q] == sn[oq]);
            if sn[oq] < TABLE_SIZE {
                assert(sn[oq] < 2 * k);
            }
        }
    }
}

proof fn lemma_insert_holds(b: TreeView, parent0: Seq<u16>, k: int, total: int, ins: int, combined: u16)
    requires
        build_inv(b, parent0, k, total),
        k < SYMBOL_COUNT - 1,
        insert_ok(b, k, ins, combined),
    ensures
        ({
            let b2 = insert_node(b, 2 * k, SYMBOL_COUNT + k, ins, combined);
            let node2 = SYMBOL_COUNT + k + 1;
            &&& forall|v: int|
                0 <= v < 2 * (k + 1) && v % 2 == 0 ==> #[trigger] holds(b2.son, node2, v)
            &&& forall|v: int|
                TABLE_SIZE <= v < TABLE_SIZE + SYMBOL_COUNT ==> #[trigger] holds(b2.son, node2, v)
        }),
{
    let child = 2 * k;
    let node = SYMBOL_COUNT + k;
    let sn = b.son;
    let b2 = insert_node(b, child, node, ins, combined);
    let s2 = b2.son;
    let node2 = node + 1;
    assert forall|v: int| 0 <= v < 2 * (k + 1) && v % 2 == 0 implies #[trigger] holds(
        s2,
        node2,
        v,
    ) by {
        if v == child {
            assert(s2[ins] == v);
        } else {
            assert(holds(sn, node, v));
            let j = choose|j: int| 0 <= j < node && #[trigger] sn[j] == v;
            if j < ins {
                assert(s2[j] == v);
            } else {
                assert(s2[j + 1] == v);
            }
        }
    }
    assert forall|v: int|
        TABLE_SIZE <= v < TABLE_SIZE + SYMBOL_COUNT implies #[trigger] holds(s2, node2, v) by {
        assert(holds(sn, node, v));
        let j = choose|j: int| 0 <= j < node && #[trigger] sn[j] == v;
        if j < ins {
            assert(s2[j] == v);
        } else {
            assert(s2[j + 1] == v);
        }
    }
}

/// Inserting a zero at `ins` keeps the sum.
proof fn lemma_sum_insert_zero(s: Seq<int>, t: Seq<int>, ins: int)
    requires
        0 <= ins <= s.len(),
        t == s.take(ins) + seq![0int] + s.subrange(ins, s.len() as int),
    ensures
        seq_sum(t) == seq_sum(s),
{
    assert(s =~= s.take(ins) + s.subrange(ins, s.len() as int));
    lemma_sum_concat(s.take(ins), s.subrange(ins, s.len() as int));
    lemma_sum_concat(s.take(ins) + seq![0int], s.subrange(ins, s.len() as int));
    lemma_sum_concat(s.take(ins), seq![0int]);
    assert(seq![0int].drop_last() =~= Seq::<int>::empty());
    assert(seq_sum(seq![0int]) == seq_sum(seq![0int].drop_last()) + 0);
}

proof fn lemma_insert_sums(b: TreeView, parent0: Seq<u16>, k: int, total: int, ins: int, combined: u16)
    requires
        build_inv(b, parent0, k, total),
        k < SYMBOL_COUNT - 1,
        insert_ok(b, k, ins, combined),
    ensures
        ({
            let b2 = insert_node(b, 2 * k, SYMBOL_COUNT + k, ins, combined);
            let node2 = SYMBOL_COUNT + k + 1;
            &&& seq_sum(leaf_marks(b2.son, node2)) == SYMBOL_COUNT
            &&& seq_sum(leaf_weights(b2.freq, b2.son, node2)) == total
            &&& seq_sum(freq_range(b2.freq, 2 * (k + 1), node2)) == total
        }),
{
    let child = 2 * k;
    let node = SYMBOL_COUNT + k;
    let f = b.freq;
    let sn = b.son;
    let b2 = insert_node(b, child, node, ins, combined);
    let f2 = b2.freq;
    let s2 = b2.son;
    let node2 = node + 1;
    let lm = leaf_marks(sn, node);
    assert(leaf_marks(s2, node2) =~= lm.take(ins) + seq![0int] + lm.subrange(ins, node));
    lemma_sum_insert_zero(lm, leaf_marks(s2, node2), ins);
    let lw = leaf_weights(f, sn, node);
    assert(leaf_weights(f2, s2, node2) =~= lw.take(ins) + seq![0int] + lw.subrange(ins, node));
    lemma_sum_insert_zero(lw, leaf_weights(f2, s2, node2), ins);
    let ci = combined as int;
    let a1 = freq_range(f, child + 2, ins);
    let a2 = freq_range(f, ins, node);
    assert(freq_range(f2, child + 2, node2) =~= a1 + seq![ci] + a2);
    lemma_sum_concat(a1 + seq![ci], a2);
    lemma_sum_concat(a1, seq![ci]);
    assert(seq![ci].drop_last() =~= Seq::<int>::empty());
    assert(seq_sum(seq![ci]) == seq_sum(seq![ci].drop_last()) + ci);
    lemma_range_split(f, child + 2, ins, node);
    lemma_range_split(f, child, child + 2, node);
    lemma_range_two(f, child);
}

/// One inner node joins the next pair and is inserted in order.
pub proof fn lemma_build_step(b: TreeView, parent0: Seq<u16>, k: int, total: int)
    requires
        build_inv(b, parent0, k, total),
        k < SYMBOL_COUNT - 1,
    ensures
        ({
            let child = 2 * k;
            let node = SYMBOL_COUNT + k;
            let combined = (b.freq[child] + b.freq[child + 1]) as u16;
            let ins = find_insert(b.freq, combined as int, node - 1);
            &&& b.freq[child] + b.freq[child + 1] <= total
            &&& insert_ok(b, k, ins, combined)
            &&& build_inv(insert_node(b, child, node, ins, combined), parent0, k + 1, total)
        }),
{
    let child = 2 * k;
    let node = SYMBOL_COUNT + k;
    let f = b.freq;
    lemma_range_split(f, child, child + 2, node);
    lemma_range_two(f, child);
    lemma_range_nonneg(f, child + 2, node);
    let ci = f[child] + f[child + 1];
    let combined = ci as u16;
    assert(f[child + 1] <= ci);
    lemma_find_insert(f, ci, node - 1, child + 1, node);
    let ins = find_insert(f, ci, node - 1);
    lemma_insert_freq(b, parent0, k, total, ins, combined);
    lemma_insert_links(b, parent0, k, total, ins, combined);
    lemma_insert_holds(b, parent0, k, total, ins, combined);
    lemma_insert_sums(b, parent0, k, total, ins, combined);
}

pub proof fn lemma_build(b: TreeView, parent0: Seq<u16>, k: int, total: int)
    requires
        build_inv(b, parent0, k, total),
    ensures
        build_inv(
            build(b, 2 * k, SYMBOL_COUNT + k),
            parent0,
            SYMBOL_COUNT - 1,
            total,
        ),
    decreases SYMBOL_COUNT - k,
{
    if k < SYMBOL_COUNT - 1 {
        lemma_build_step(b, parent0, k, total);
        let child = 2 * k;
        let node = SYMBOL_COUNT + k;
        let combined = (b.freq[child] + b.freq[child + 1]) as u16;
        let ins = find_insert(b.freq, combined as int, node - 1);
        let b2 = insert_node(b, child, node, ins, combined);
        lemma_build(b2, parent0, k + 1, total);
        assert(2 * (k + 1) == child + 2);
    }
}

/// After packing, the leaves stand ready for building.
proof fn lemma_build_start(t: TreeView, a: TreeView)
    requires
        tree_wf(t),
        pack_inv(t, a, TABLE_SIZE as int, SYMBOL_COUNT as int),
    ensures
        build_inv(a, t.parent, 0, seq_sum(freq_range(a.freq, 0, SYMBOL_COUNT as int))),
        2 * seq_sum(freq_range(a.freq, 0, SYMBOL_COUNT as int)) <= t.freq[ROOT as int]
            + SYMBOL_COUNT,
        leaves_halved(a, t, SYMBOL_COUNT as int),
{
    let node = SYMBOL_COUNT as int;
    let total = seq_sum(freq_range(a.freq, 0, node));
    lemma_sum_ones(leaf_marks(a.son, node));
    assert(leaf_weights(a.freq, a.son, node) =~= freq_range(a.freq, 0, node));
    assert(leaf_marks(t.son, TABLE_SIZE as int) =~= leaf_marks(t.son, TABLE_SIZE as int));
    assert forall|v: int|
        TABLE_SIZE <= v < TABLE_SIZE + SYMBOL_COUNT implies #[trigger] holds(a.son, node, v) by {
        assert(sym_ok(t, v - TABLE_SIZE));
        assert(t.parent[v] < TABLE_SIZE);
    }
    assert(freq_range(a.freq, 0, node) =~= freq_range(a.freq, 2 * 0int, node));
}

/// Every leaf below `n` holds half, rounded up, of its frequency in `t`.
pub open spec fn leaves_halved(b: TreeView, t: TreeView, n: int) -> bool {
    forall|p: int|
        0 <= p < n && #[trigger] b.son[p] >= TABLE_SIZE ==> b.freq[p] == halve(
            t.freq[t.parent[b.son[p] as int] as int],
        )
}

proof fn lemma_build_halved(b: TreeView, parent0: Seq<u16>, k: int, total: int, t: TreeView)
    requires
        build_inv(b, parent0, k, total),
        leaves_halved(b, t, SYMBOL_COUNT + k),
    ensures
        leaves_halved(build(b, 2 * k, SYMBOL_COUNT + k), t, TABLE_SIZE as int),
    decreases SYMBOL_COUNT - k,
{
    if k < SYMBOL_COUNT - 1 {
        lemma_build_step(b, parent0, k, total);
        let child = 2 * k;
        let node = SYMBOL_COUNT + k;
        let combined = (b.freq[child] + b.freq[child + 1]) as u16;
        let ins = find_insert(b.freq, combined as int, node - 1);
        let b2 = insert_node(b, child, node, ins, combined);
        assert forall|p: int|
            0 <= p < node + 1 && #[trigger] b2.son[p] >= TABLE_SIZE implies b2.freq[p] == halve(
            t.freq[t.parent[b2.son[p] as int] as int],
        ) by {
            if p > ins {
                assert(b2.son[p] == b.son[p - 1] && b2.freq[p] == b.freq[p - 1]);
            } else if p < ins {
                assert(b2.son[p] == b.son[p] && b2.freq[p] == b.freq[p]);
            }
        }
        lemma_build_halved(b2, parent0, k + 1, total, t);
        assert(2 * (k + 1) == child + 2);
    }
}

/// What holds after relinking the nodes below `node`.
pub open spec fn relink_inv(r: TreeView, b: TreeView, node: int) -> bool {
    &&& r.freq == b.freq
    &&& r.son == b.son
    &&& r.parent.len() == b.parent.len()
    &&& r.parent[ROOT as int] == b.parent[ROOT as int]
    &&& 0 <= node <= TABLE_SIZE
    &&& forall|q: int|
        0 <= q < node ==> r.parent[#[trigger] r.son[q] as int] == q && (r.son[q] < TABLE_SIZE
            ==> r.parent[r.son[q] + 1] == q)
}

pub proof fn lemma_relink_step(r: TreeView, b: TreeView, node: int, total: int)
    requires
        build_inv(b, b.parent, SYMBOL_COUNT - 1, total),
        relink_inv(r, b, node),
        node < TABLE_SIZE,
    ensures
        relink_inv(relink_once(r, node), b, node + 1),
{
    let r2 = relink_once(r, node);
    assert forall|q: int|
        0 <= q < node + 1 implies r2.parent[#[trigger] r2.son[q] as int] == q && (r2.son[q]
        < TABLE_SIZE ==> r2.parent[r2.son[q] + 1] == q) by {
        if q < node {
            assert(r.son[q] != r.son[node]);
        }
    }
}

proof fn lemma_relink(r: TreeView, b: TreeView, node: int, total: int)
    requires
        build_inv(b, b.parent, SYMBOL_COUNT - 1, total),
        relink_inv(r, b, node),
    ensures
        relink_inv(relink(r, node), b, TABLE_SIZE as int),
    decreases TABLE_SIZE - node,
{
    if node < TABLE_SIZE {
        lemma_relink_step(r, b, node, total);
        lemma_relink(relink_once(r, node), b, node + 1, total);
    }
}

/// The packed leaves of a tree due for rebuilding are ready for building.
pub proof fn lemma_build_ready(t: TreeView)
    requires
        tree_wf(t),
    ensures
        build_inv(pack_leaves(t, 0, 0).0, t.parent, 0, build_total(t)),
{
    lemma_pack_start(t);
    lemma_pack(t, t, 0, 0);
    let (a, packed) = pack_leaves(t, 0, 0);
    lemma_build_start(t, a);
}

/// Rebuilding a well-formed tree gives a well-formed tree whose leaves hold half their old
/// frequencies, rounded up, and whose root frequency is at most half the old one plus 157.
pub proof fn lemma_reconstruct(t: TreeView)
    requires
        tree_wf(t),
    ensures
        tree_wf(reconstruct(t)),
        reconstruct(t).freq[ROOT as int] <= (t.freq[ROOT as int] + SYMBOL_COUNT) / 2,
        reconstruct(t).freq[ROOT as int] <= 16541,
        forall|s: int|
            0 <= s < SYMBOL_COUNT ==> #[trigger] leaf_freq(reconstruct(t), s) == halve(
                t.freq[t.parent[TABLE_SIZE + s] as int],
            ),
        forall|s: int|
            0 <= s < SYMBOL_COUNT ==> #[trigger] leaf_freq(reconstruct(t), s) == (leaf_freq(t, s)
                + 1) / 2,
{
    lemma_pack_start(t);
    lemma_pack(t, t, 0, 0);
    let (a, packed) = pack_leaves(t, 0, 0);
    assert(leaf_marks(t.son, TABLE_SIZE as int) == leaf_marks(t.son, TABLE_SIZE as int));
    lemma_build_start(t, a);
    let total = seq_sum(freq_range(a.freq, 0, SYMBOL_COUNT as int));
    lemma_build(a, t.parent, 0, total);
    lemma_build_halved(a, t.parent, 0, total, t);
    let b = build(a, 0, SYMBOL_COUNT as int);
    assert(b == build(a, 2 * 0int, SYMBOL_COUNT + 0int));
    lemma_relink(b, b, 0, total);
    let r = relink(b, 0);
    assert(r == reconstruct(t));
    let node = TABLE_SIZE as int;
    let k = SYMBOL_COUNT - 1;
    // The frontier is the root alone.
    assert(freq_range(b.freq, 2 * k, node).drop_last() =~= Seq::<int>::empty());
    assert(seq_sum(freq_range(b.freq, 2 * k, node)) == seq_sum(
        freq_range(b.freq, 2 * k, node).drop_last(),
    ) + b.freq[ROOT as int]);
    assert(b.freq[ROOT as int] == total);
    assert(structure_ok(r)) by {
        assert forall|p: int| 0 <= p < TABLE_SIZE implies #[trigger] links_ok(r, p) by {}
        assert forall|x: int| 0 <= x < ROOT implies #[trigger] up_ok(r, x) by {
            let v = x - x % 2;
            assert(holds(b.son, node, v));
            let p = choose|p: int| 0 <= p < node && #[trigger] b.son[p] == v;
            assert(r.parent[r.son[p] as int] == p);
        }
        assert forall|s: int| 0 <= s < SYMBOL_COUNT implies #[trigger] sym_ok(r, s) by {
            let v = TABLE_SIZE + s;
            assert(holds(b.son, node, v));
            let p = choose|p: int| 0 <= p < node && #[trigger] b.son[p] == v;
            assert(r.parent[r.son[p] as int] == p);
        }
    }
    assert forall|p: int| 0 <= p < TABLE_SIZE implies #[trigger] sum_ok(r, p) by {}
    assert forall|s: int| 0 <= s < SYMBOL_COUNT implies #[trigger] leaf_freq(r, s) == halve(
        t.freq[t.parent[TABLE_SIZE + s] as int],
    ) by {
        let v = TABLE_SIZE + s;
        assert(holds(b.son, node, v));
        let p = choose|p: int| 0 <= p < node && #[trigger] b.son[p] == v;
        assert(r.parent[r.son[p] as int] == p);
    }
    assert forall|s: int| 0 <= s < SYMBOL_COUNT implies #[trigger] leaf_freq(r, s) == (leaf_freq(
        t,
        s,
    ) + 1) / 2 by {
        assert(leaf_freq(r, s) == halve(t.freq[t.parent[TABLE_SIZE + s] as int]));
        lemma_halve_rounds_up(t.freq[t.parent[TABLE_SIZE + s] as int]);
    }
}

proof fn lemma_pack_initial(node: int)
    requires
        0 <= node <= TABLE_SIZE,
    ensures
        pack_leaves(
            initial_tree(),
            node,
            if node < SYMBOL_COUNT {
                node
            } else {
                SYMBOL_COUNT as int
            },
        ) == (initial_tree(), SYMBOL_COUNT as int),
    decreases TABLE_SIZE - node,
{
    let it = initial_tree();
    if node < TABLE_SIZE {
        if node < SYMBOL_COUNT {
            assert(init_freq(node) == 1);
            let a2 = TreeView {
                freq: it.freq.update(node, halve(it.freq[node])),
                parent: it.parent,
                son: it.son.update(node, it.son[node]),
            };
            assert(a2.freq =~= it.freq);
            assert(a2.son =~= it.son);
            assert(a2 == it);
        }
        lemma_pack_initial(node + 1);
    }
}

proof fn lemma_build_initial(k: int)
    requires
        0 <= k <= SYMBOL_COUNT - 1,
    ensures
        build(initial_tree(), 2 * k, SYMBOL_COUNT + k) == initial_tree(),
    decreases SYMBOL_COUNT - k,
{
    let it = initial_tree();
    if k < SYMBOL_COUNT - 1 {
        let child = 2 * k;
        let node = SYMBOL_COUNT + k;
        lemma_init_mono(child, ROOT as int);
        lemma_init_mono(child + 1, ROOT as int);
        lemma_init_mono(node - 1, node);
        lemma_init_mono(node, ROOT as int);
        lemma_initial_wf();
        assert(init_freq(node) == init_freq(child) + init_freq(child + 1));
        let combined = (it.freq[child] + it.freq[child + 1]) as u16;
        assert(combined == it.freq[node]);
        assert(find_insert(it.freq, combined as int, node - 1) == node);
        let b2 = insert_node(it, child, node, node, combined);
        assert(b2.freq =~= it.freq);
        assert(b2.son =~= it.son);
        assert(b2 == it);
        lemma_build_initial(k + 1);
        assert(2 * (k + 1) == child + 2);
    }
}

proof fn lemma_relink_initial(node: int)
    requires
        0 <= node <= TABLE_SIZE,
    ensures
        relink(initial_tree(), node) == initial_tree(),
    decreases TABLE_SIZE - node,
{
    let it = initial_tree();
    if node < TABLE_SIZE {
        let r2 = relink_once(it, node);
        assert(r2.parent =~= it.parent);
        assert(r2 == it);
        lemma_relink_initial(node + 1);
    }
}

/// Rebuilding the starting tree gives the starting tree back.
pub proof fn lemma_reconstruct_initial()
    ensures
        reconstruct(initial_tree()) == initial_tree(),
{
    lemma_pack_initial(0);
    lemma_build_initial(0);
    assert(build(initial_tree(), 0, SYMBOL_COUNT as int) == build(
        initial_tree(),
        2 * 0int,
        SYMBOL_COUNT + 0int,
    ));
    lemma_relink_initial(0);
}

} // verus!
