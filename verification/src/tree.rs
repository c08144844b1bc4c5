use vstd::prelude::*;
use crate::{TABLE_SIZE, ROOT, SYMBOL_COUNT, MAX_FREQ};
use crate::sums::{seq_sum, lemma_sum_concat, lemma_sum_update, lemma_sum_swap};
use crate::bits::bit_at;

verus! {

/// The state of the adaptive code tree, as three tables.
///
/// Positions `0..TABLE_SIZE` hold the nodes, ordered by frequency, the root at `ROOT`.
/// `son[p]` is `TABLE_SIZE + symbol` for a leaf; for an inner node it is the position of its
/// first child, the second being the next position. `parent` maps a position, or
/// `TABLE_SIZE + symbol`, to the position of its parent (of the leaf, for a symbol).
/// `freq[TABLE_SIZE]` is a sentinel above any frequency.
pub struct TreeView {
    pub freq: Seq<u16>,
    pub parent: Seq<u16>,
    pub son: Seq<u16>,
}

pub open spec fn shape_ok(t: TreeView) -> bool {
    &&& t.freq.len() == TABLE_SIZE + 1
    &&& t.parent.len() == TABLE_SIZE + SYMBOL_COUNT
    &&& t.son.len() == TABLE_SIZE
}

/// 1 for each of the first `n` positions that holds a leaf, else 0.
pub open spec fn leaf_marks(son: Seq<u16>, n: int) -> Seq<int> {
    Seq::new(n as nat, |p: int| if son[p] >= TABLE_SIZE { 1int } else { 0int })
}

/// The frequency of each of the first `n` positions that holds a leaf, else 0.
pub open spec fn leaf_weights(freq: Seq<u16>, son: Seq<u16>, n: int) -> Seq<int> {
    Seq::new(n as nat, |p: int| if son[p] >= TABLE_SIZE { freq[p] as int } else { 0int })
}

/// The links at position `p` agree with each other.
pub open spec fn links_ok(t: TreeView, p: int) -> bool {
    let c = t.son[p] as int;
    if c >= TABLE_SIZE {
        &&& c < TABLE_SIZE + SYMBOL_COUNT
        &&& t.parent[c] == p
    } else {
        &&& c % 2 == 0
        &&& c + 1 < p
        &&& t.parent[c] == p
        &&& t.parent[c + 1] == p
    }
}

/// An inner node's frequency is the sum of its children's.
pub open spec fn sum_ok(t: TreeView, p: int) -> bool {
    let c = t.son[p] as int;
    c >= TABLE_SIZE || t.freq[p] == t.freq[c] + t.freq[c + 1]
}

/// Every non-root position is a child of a later inner node.
pub open spec fn up_ok(t: TreeView, x: int) -> bool {
    &&& x < t.parent[x] <= ROOT
    &&& t.son[t.parent[x] as int] == x - x % 2
}

/// Every symbol has a leaf.
pub open spec fn sym_ok(t: TreeView, s: int) -> bool {
    &&& t.parent[TABLE_SIZE + s] < TABLE_SIZE
    &&& t.son[t.parent[TABLE_SIZE + s] as int] == TABLE_SIZE + s
}

pub open spec fn structure_ok(t: TreeView) -> bool {
    &&& shape_ok(t)
    &&& t.parent[ROOT as int] == 0
    &&& forall|p: int| 0 <= p < TABLE_SIZE ==> #[trigger] links_ok(t, p)
    &&& forall|x: int| 0 <= x < ROOT ==> #[trigger] up_ok(t, x)
    &&& forall|s: int| 0 <= s < SYMBOL_COUNT ==> #[trigger] sym_ok(t, s)
    &&& seq_sum(leaf_marks(t.son, TABLE_SIZE as int)) == SYMBOL_COUNT
}

/// Frequencies are positive and sorted, with the sentinel above them.
pub open spec fn freq_ok(t: TreeView) -> bool {
    &&& t.freq[TABLE_SIZE as int] == 0xFFFF
    &&& forall|p: int| 0 <= p < TABLE_SIZE ==> 1 <= #[trigger] t.freq[p]
    &&& forall|p: int, q: int| 0 <= p <= q < TABLE_SIZE ==> #[trigger] t.freq[p] <= #[trigger] t.freq[q]
}

/// A well-formed code tree.
pub open spec fn tree_wf(t: TreeView) -> bool {
    &&& structure_ok(t)
    &&& freq_ok(t)
    &&& forall|p: int| 0 <= p < TABLE_SIZE ==> #[trigger] sum_ok(t, p)
    &&& t.freq[ROOT as int] <= MAX_FREQ
    &&& seq_sum(leaf_weights(t.freq, t.son, TABLE_SIZE as int)) == t.freq[ROOT as int]
}

/// The frequency at the leaf of `symbol`.
pub open spec fn leaf_freq(t: TreeView, symbol: int) -> int {
    t.freq[t.parent[TABLE_SIZE + symbol] as int] as int
}

/// The sibling property: positions ordered by frequency, each inner node's frequency the sum of
/// its children's, and the two children of each inner node next to each other, so that every
/// position but the root has its sibling beside it.
pub open spec fn sibling_property(t: TreeView) -> bool {
    &&& forall|p: int, q: int| 0 <= p <= q < TABLE_SIZE ==> #[trigger] t.freq[p] <= #[trigger] t.freq[q]
    &&& forall|p: int| 0 <= p < TABLE_SIZE ==> #[trigger] sum_ok(t, p)
    &&& forall|x: int|
        0 <= x < ROOT && x % 2 == 0 ==> #[trigger] t.parent[x] == t.parent[x + 1] && x < t.parent[x]
            <= ROOT && t.son[t.parent[x] as int] == x
}

/// A well-formed tree has the sibling property.
pub proof fn lemma_sibling_property(t: TreeView)
    requires
        tree_wf(t),
    ensures
        sibling_property(t),
{
    assert forall|x: int| 0 <= x < ROOT && x % 2 == 0 implies #[trigger] t.parent[x] == t.parent[x
        + 1] && x < t.parent[x] <= ROOT && t.son[t.parent[x] as int] == x by {
        assert(up_ok(t, x));
        assert(links_ok(t, t.parent[x] as int));
    }
}

/// The code of the node at position `x`: the branch bits from the root down to it.
pub open spec fn path_bits(t: TreeView, x: int) -> Seq<bool>
    decreases ROOT - x,
{
    if x < 0 || x >= ROOT {
        Seq::empty()
    } else {
        let up = t.parent[x] as int;
        if up <= x || up > ROOT {
            Seq::empty()
        } else {
            path_bits(t, up).push(x % 2 == 1)
        }
    }
}

/// The code of `symbol`.
pub open spec fn symbol_code(t: TreeView, symbol: int) -> Seq<bool> {
    path_bits(t, t.parent[TABLE_SIZE + symbol] as int)
}

/// Follows `stream` from position `pos` down from the children at `node` to a leaf: the symbol
/// and the position after its code.
pub open spec fn walk(t: TreeView, stream: Seq<bool>, pos: int, node: int) -> Option<(int, int)>
    decreases node,
{
    if node < 0 || node + 1 >= TABLE_SIZE || pos < 0 || pos >= stream.len() {
        None
    } else {
        let c = t.son[node + bit_at(stream, pos)] as int;
        if c >= TABLE_SIZE {
            Some((c - TABLE_SIZE, pos + 1))
        } else if c < node {
            walk(t, stream, pos + 1, c)
        } else {
            None
        }
    }
}

/// Decodes one symbol from `stream` at `pos`: the symbol and the position after its code.
pub open spec fn decode_symbol_spec(t: TreeView, stream: Seq<bool>, pos: int) -> Option<(int, int)> {
    let r = t.son[ROOT as int] as int;
    if r >= TABLE_SIZE {
        Some((r - TABLE_SIZE, pos))
    } else {
        walk(t, stream, pos, r)
    }
}

pub proof fn lemma_root_inner(t: TreeView)
    requires
        structure_ok(t),
    ensures
        t.son[ROOT as int] == ROOT - 2,
        t.parent[ROOT - 1] == ROOT,
{
    assert(up_ok(t, ROOT - 1));
}

/// The code of a position is as long as its depth, and each step climbs the tree.
pub proof fn lemma_path_bits_step(t: TreeView, x: int)
    requires
        structure_ok(t),
        0 <= x < ROOT,
    ensures
        path_bits(t, x) == path_bits(t, t.parent[x] as int).push(x % 2 == 1),
{
    assert(up_ok(t, x));
}

/// Decoding the code of a symbol gives the symbol back and stops right after the code.
pub proof fn lemma_decode_code(t: TreeView, stream: Seq<bool>, pos: int, symbol: int)
    requires
        structure_ok(t),
        0 <= symbol < SYMBOL_COUNT,
        0 <= pos,
        pos + symbol_code(t, symbol).len() <= stream.len(),
        forall|i: int|
            0 <= i < symbol_code(t, symbol).len() ==> stream[pos + i] == #[trigger] symbol_code(
                t,
                symbol,
            )[i],
    ensures
        decode_symbol_spec(t, stream, pos) == Some((symbol, pos + symbol_code(t, symbol).len())),
{
    let leaf = t.parent[TABLE_SIZE + symbol] as int;
    assert(sym_ok(t, symbol));
    lemma_root_inner(t);
    let code = symbol_code(t, symbol);
    if leaf == ROOT {
        assert(t.son[ROOT as int] == TABLE_SIZE + symbol);
        assert(false);
    }
    assert(code.subrange(0, code.len() as int) =~= code);
    lemma_decode_up(t, stream, pos, symbol, leaf);
}

/// For each position `y` on the path of `symbol`'s leaf: walking down from `y`'s children,
/// at the bit after `y`'s code, reaches the symbol at the end of its code.
proof fn lemma_decode_up(t: TreeView, stream: Seq<bool>, pos: int, symbol: int, y: int)
    requires
        structure_ok(t),
        0 <= symbol < SYMBOL_COUNT,
        0 <= pos,
        pos + symbol_code(t, symbol).len() <= stream.len(),
        forall|i: int|
            0 <= i < symbol_code(t, symbol).len() ==> stream[pos + i] == #[trigger] symbol_code(
                t,
                symbol,
            )[i],
        0 <= y < ROOT,
        t.son[y] < TABLE_SIZE ==> walk(t, stream, pos + path_bits(t, y).len(), t.son[y] as int)
            == Some((symbol, pos + symbol_code(t, symbol).len())),
        t.son[y] >= TABLE_SIZE ==> t.son[y] == TABLE_SIZE + symbol && path_bits(t, y)
            == symbol_code(t, symbol),
        path_bits(t, y).len() <= symbol_code(t, symbol).len(),
        symbol_code(t, symbol).subrange(0, path_bits(t, y).len() as int) == path_bits(t, y),
    ensures
        decode_symbol_spec(t, stream, pos) == Some((symbol, pos + symbol_code(t, symbol).len())),
    decreases ROOT - y,
{
    let x = t.parent[y] as int;
    assert(up_ok(t, y));
    lemma_path_bits_step(t, y);
    let code = symbol_code(t, symbol);
    let pb = path_bits(t, x);
    let k = pb.len() as int;
    assert(path_bits(t, y) == pb.push(y % 2 == 1));
    assert(path_bits(t, y).len() == k + 1);
    assert(code.subrange(0, k + 1) == path_bits(t, y));
    assert(code.subrange(0, k + 1)[k] == code[k]);
    assert(code[k] == path_bits(t, y)[k]);
    assert(stream[pos + k] == code[k]);
    assert(stream[pos + k] == (y % 2 == 1));
    assert(links_ok(t, x));
    let c = t.son[x] as int;
    assert(c + bit_at(stream, pos + k) == y);
    assert(walk(t, stream, pos + k, c) == Some((symbol, pos + code.len()))) by {
        if t.son[y] < TABLE_SIZE {
            assert(links_ok(t, y));
        }
    }
    if x == ROOT {
        assert(pb.len() == 0);
    } else {
        assert(code.subrange(0, k) =~= pb) by {
            assert(code.subrange(0, k + 1) == path_bits(t, y));
            assert forall|i: int| 0 <= i < k implies code.subrange(0, k)[i] == pb[i] by {
                assert(code.subrange(0, k + 1)[i] == path_bits(t, y)[i]);
            }
        }
        lemma_decode_up(t, stream, pos, symbol, x);
    }
}

/// The least root frequency that allows a leaf at depth `n`: a Fibonacci number.
pub open spec fn min_weight(n: nat) -> int
    decreases n,
{
    if n == 0 {
        1
    } else if n == 1 {
        2
    } else {
        min_weight((n - 1) as nat) + min_weight((n - 2) as nat)
    }
}

proof fn lemma_min_weight_mono(a: nat, b: nat)
    requires
        a <= b,
    ensures
        min_weight(a) <= min_weight(b),
    decreases b,
{
    if a < b {
        lemma_min_weight_mono(a, (b - 1) as nat);
        if b >= 2 {
            assert(min_weight((b - 2) as nat) >= 1) by {
                lemma_min_weight_mono(0, (b - 2) as nat);
            }
        }
    }
}

/// Climbing from a position whose weight and whose child's weight are bounded below.
proof fn lemma_weight_up(t: TreeView, y: int, x: int, j: nat)
    requires
        structure_ok(t),
        freq_ok(t),
        forall|p: int| 0 <= p < TABLE_SIZE ==> #[trigger] sum_ok(t, p),
        0 <= y < x <= ROOT,
        t.parent[y] == x,
        t.freq[y] >= min_weight(j),
        t.freq[x] >= min_weight(j + 1),
    ensures
        t.freq[ROOT as int] >= min_weight(j + 1 + path_bits(t, x).len()),
    decreases ROOT - x,
{
    if x < ROOT {
        let z = t.parent[x] as int;
        assert(up_ok(t, x));
        assert(up_ok(t, y));
        assert(sum_ok(t, z));
        assert(links_ok(t, z));
        let c = t.son[z] as int;
        let sib = if x % 2 == 0 { x + 1 } else { x - 1 };
        assert(t.freq[z] == t.freq[x] + t.freq[sib]);
        assert(t.freq[y] <= t.freq[sib]) by {
            if sib < x {
                assert(t.parent[sib] == z);
                assert(y != sib);
            }
        }
        lemma_path_bits_step(t, x);
        assert(min_weight(j + 2) == min_weight(j + 1) + min_weight(j));
        lemma_weight_up(t, x, z, j + 1);
        assert(j + 1 + 1 + path_bits(t, z).len() == j + 1 + path_bits(t, x).len());
    }
}

/// In a well-formed tree no code is longer than 21 bits.
pub proof fn lemma_code_length(t: TreeView, symbol: int)
    requires
        tree_wf(t),
        0 <= symbol < SYMBOL_COUNT,
    ensures
        1 <= symbol_code(t, symbol).len() <= 21,
{
    let leaf = t.parent[TABLE_SIZE + symbol] as int;
    assert(sym_ok(t, symbol));
    lemma_root_inner(t);
    assert(leaf != ROOT);
    let x = t.parent[leaf] as int;
    assert(up_ok(t, leaf));
    assert(sum_ok(t, x));
    assert(links_ok(t, x));
    let sib = if leaf % 2 == 0 { leaf + 1 } else { leaf - 1 };
    assert(t.freq[x] == t.freq[leaf] + t.freq[sib]);
    lemma_weight_up(t, leaf, x, 0);
    lemma_path_bits_step(t, leaf);
    if symbol_code(t, symbol).len() > 21 {
        lemma_min_weight_mono(22, symbol_code(t, symbol).len());
        assert(min_weight(22) == 46368) by {
            reveal_with_fuel(min_weight, 23);
        }
    }
}

/// The first position from `i` on whose frequency reaches `raised`; the sentinel ends the scan.
pub open spec fn scan_up(freq: Seq<u16>, raised: int, i: int) -> int
    decreases TABLE_SIZE + 1 - i,
{
    if i < 0 || i >= TABLE_SIZE {
        i
    } else if raised > freq[i] {
        scan_up(freq, raised, i + 1)
    } else {
        i
    }
}

/// Exchanges the subtrees at positions `node` and `next`, `next` taking frequency `raised`.
pub open spec fn swap_nodes(t: TreeView, node: int, next: int, raised: u16) -> TreeView {
    let f = t.freq.update(node, t.freq[next]).update(next, raised);
    let left = t.son[node] as int;
    let p1 = t.parent.update(left, next as u16);
    let p2 = if left < TABLE_SIZE {
        p1.update(left + 1, next as u16)
    } else {
        p1
    };
    let swapped = t.son[next] as int;
    let s1 = t.son.update(next, left as u16);
    let p3 = p2.update(swapped, node as u16);
    let p4 = if swapped < TABLE_SIZE {
        p3.update(swapped + 1, node as u16)
    } else {
        p3
    };
    let s2 = s1.update(node, swapped as u16);
    TreeView { freq: f, parent: p4, son: s2 }
}

/// One step of an update: raise the frequency at `node` and, if that breaks the order, move
/// the subtree past the nodes of its old frequency. Returns the tree and where the subtree is.
pub open spec fn climb_step(t: TreeView, node: int) -> (TreeView, int) {
    let raised = (t.freq[node] + 1) as u16;
    let t1 = TreeView { freq: t.freq.update(node, raised), parent: t.parent, son: t.son };
    let next = scan_up(t1.freq, raised as int, node + 1) - 1;
    if next > node {
        (swap_nodes(t1, node, next, raised), next)
    } else {
        (t1, node)
    }
}

/// Raises the frequencies from `node` up to the root, keeping the nodes ordered.
pub open spec fn climb(t: TreeView, node: int) -> TreeView
    decreases TABLE_SIZE - node,
{
    if node < 0 || node >= TABLE_SIZE {
        t
    } else {
        let (t2, cur) = climb_step(t, node);
        let up = t2.parent[cur] as int;
        if up == 0 || up <= node || up >= TABLE_SIZE {
            t2
        } else {
            climb(t2, up)
        }
    }
}

/// A well-formed tree but for one pending increment at `node`.
pub open spec fn climb_inv(t: TreeView, node: int) -> bool {
    &&& structure_ok(t)
    &&& freq_ok(t)
    &&& 0 <= node < TABLE_SIZE
    &&& forall|p: int| 0 <= p < TABLE_SIZE && p != node ==> #[trigger] sum_ok(t, p)
    &&& t.son[node] < TABLE_SIZE ==> t.freq[node] + 1 == t.freq[t.son[node] as int]
        + t.freq[t.son[node] + 1]
    &&& t.freq[ROOT as int] < MAX_FREQ
    &&& seq_sum(leaf_weights(t.freq, t.son, TABLE_SIZE as int)) == t.freq[ROOT as int] + (if t.son[node]
        < TABLE_SIZE {
        1int
    } else {
        0int
    })
}

pub proof fn lemma_scan_up(freq: Seq<u16>, raised: int, i: int)
    requires
        0 <= i <= TABLE_SIZE,
        freq.len() == TABLE_SIZE + 1,
        freq[TABLE_SIZE as int] >= raised,
    ensures
        i <= scan_up(freq, raised, i) <= TABLE_SIZE,
        freq[scan_up(freq, raised, i)] >= raised,
        forall|k: int| i <= k < scan_up(freq, raised, i) ==> freq[k] < raised,
    decreases TABLE_SIZE - i,
{
    if i < TABLE_SIZE && raised > freq[i] {
        lemma_scan_up(freq, raised, i + 1);
    }
}

/// Two positions whose sons agree are the same position.
pub proof fn lemma_son_unique(t: TreeView, p: int, q: int)
    requires
        structure_ok(t),
        0 <= p < TABLE_SIZE,
        0 <= q < TABLE_SIZE,
        t.son[p] == t.son[q],
    ensures
        p == q,
{
    assert(links_ok(t, p));
    assert(links_ok(t, q));
}

/// Every frequency is at most the root's.
pub proof fn lemma_freq_le_root(t: TreeView, p: int)
    requires
        freq_ok(t),
        shape_ok(t),
        0 <= p < TABLE_SIZE,
    ensures
        t.freq[p] <= t.freq[ROOT as int],
{
}

/// The inner node above a non-root position, and the positions of its children.
proof fn lemma_parent_children(t: TreeView, x: int)
    requires
        structure_ok(t),
        0 <= x < ROOT,
    ensures
        ({
            let u = t.parent[x] as int;
            let c = t.son[u] as int;
            &&& x < u <= ROOT
            &&& c < TABLE_SIZE
            &&& c == x - x % 2
            &&& c % 2 == 0
            &&& c + 1 < u
            &&& t.parent[c] == u
            &&& t.parent[c + 1] == u
        }),
{
    assert(up_ok(t, x));
    assert(links_ok(t, t.parent[x] as int));
}

/// The step of an update that moves no subtree.
proof fn lemma_climb_no_swap(t: TreeView, node: int)
    requires
        climb_inv(t, node),
        t.freq[node + 1] >= t.freq[node] + 1,
    ensures
        ({
            let raised = (t.freq[node] + 1) as u16;
            let t1 = TreeView { freq: t.freq.update(node, raised), parent: t.parent, son: t.son };
            &&& node == ROOT ==> tree_wf(t1)
            &&& node < ROOT ==> climb_inv(t1, t.parent[node] as int)
            &&& t1.freq[ROOT as int] == t.freq[ROOT as int] + if node == ROOT {
                1int
            } else {
                0int
            }
            &&& forall|x: int|
                0 <= x < SYMBOL_COUNT ==> #[trigger] leaf_freq(t1, x) == leaf_freq(t, x) + if t.parent[TABLE_SIZE
                    + x] == node {
                    1int
                } else {
                    0int
                }
        }),
{
    let raised = (t.freq[node] + 1) as u16;
    lemma_freq_le_root(t, node);
    let t1 = TreeView { freq: t.freq.update(node, raised), parent: t.parent, son: t.son };
    assert forall|x: int| 0 <= x < SYMBOL_COUNT implies #[trigger] leaf_freq(t1, x) == leaf_freq(
        t,
        x,
    ) + if t.parent[TABLE_SIZE + x] == node {
        1int
    } else {
        0int
    } by {
        assert(sym_ok(t, x));
    }
    assert(structure_ok(t1)) by {
        assert forall|p: int| 0 <= p < TABLE_SIZE implies #[trigger] links_ok(t1, p) by {
            assert(links_ok(t, p));
        }
        assert forall|x: int| 0 <= x < ROOT implies #[trigger] up_ok(t1, x) by {
            assert(up_ok(t, x));
        }
        assert forall|s: int| 0 <= s < SYMBOL_COUNT implies #[trigger] sym_ok(t1, s) by {
            assert(sym_ok(t, s));
        }
    }
    assert(freq_ok(t1)) by {
        assert forall|p: int, q: int| 0 <= p <= q < TABLE_SIZE implies #[trigger] t1.freq[p]
            <= #[trigger] t1.freq[q] by {
            if q == node && p < node {
                assert(t.freq[p] <= t.freq[node]);
            } else if p == node && q > node {
                assert(t.freq[node + 1] <= t.freq[q]);
            }
        }
    }
    let w0 = leaf_weights(t.freq, t.son, TABLE_SIZE as int);
    let w1 = leaf_weights(t1.freq, t1.son, TABLE_SIZE as int);
    assert(w1 =~= w0.update(node, if t.son[node] >= TABLE_SIZE { raised as int } else { 0int }));
    lemma_sum_update(w0, node, if t.son[node] >= TABLE_SIZE { raised as int } else { 0int });
    assert(links_ok(t, node));
    if node == ROOT {
        lemma_root_inner(t);
        assert forall|p: int| 0 <= p < TABLE_SIZE implies #[trigger] sum_ok(t1, p) by {
            assert(sum_ok(t, p) || p == node);
            assert(links_ok(t, p));
            if p != node && t.son[p] < TABLE_SIZE {
                assert(t.son[p] + 1 < p);
            }
        }
    } else {
        let u = t.parent[node] as int;
        lemma_parent_children(t, node);
        assert forall|p: int| 0 <= p < TABLE_SIZE && p != u implies #[trigger] sum_ok(t1, p) by {
            assert(links_ok(t, p));
            if p != node && t.son[p] < TABLE_SIZE {
                assert(sum_ok(t, p));
                let c = t.son[p] as int;
                if c == node || c + 1 == node {
                    assert(t.parent[node] == p);
                }
            }
        }
        assert(sum_ok(t, u));
    }
}

/// The step of an update that moves the raised subtree from `node` to `next`.
#[verifier::rlimit(40)]
proof fn lemma_climb_swap(t: TreeView, node: int)
    requires
        climb_inv(t, node),
        t.freq[node + 1] < t.freq[node] + 1,
    ensures
        ({
            let raised = (t.freq[node] + 1) as u16;
            let t1 = TreeView { freq: t.freq.update(node, raised), parent: t.parent, son: t.son };
            let next = scan_up(t1.freq, raised as int, node + 1) - 1;
            let t2 = swap_nodes(t1, node, next, raised);
            &&& node < next < t.parent[node] <= ROOT
            &&& t2.parent[next] == t.parent[next]
            &&& next < t.parent[next]
            &&& climb_inv(t2, t.parent[next] as int)
            &&& t2.freq[ROOT as int] == t.freq[ROOT as int]
            &&& forall|x: int|
                0 <= x < SYMBOL_COUNT ==> #[trigger] leaf_freq(t2, x) == leaf_freq(t, x) + if t.parent[TABLE_SIZE
                    + x] == node {
                    1int
                } else {
                    0int
                }
        }),
{
    let n = node;
    let raised = (t.freq[n] + 1) as u16;
    lemma_freq_le_root(t, n);
    let t1 = TreeView { freq: t.freq.update(n, raised), parent: t.parent, son: t.son };
    lemma_scan_up(t1.freq, raised as int, n + 1);
    let m = scan_up(t1.freq, raised as int, n + 1) - 1;
    let t2 = swap_nodes(t1, n, m, raised);
    let f = t.freq;
    let sp = t.son;
    let pp = t.parent;
    // The nodes passed over share the old frequency.
    assert(n < ROOT) by {
        if n == ROOT {
            assert(t1.freq[n + 1] == 0xFFFF);
        }
    }
    assert(m > n);
    assert forall|k: int| n < k <= m implies #[trigger] f[k] == f[n] by {
        assert(f[n] <= f[k]);
        assert(t1.freq[k] < raised);
    }
    assert(f[m + 1] >= raised) by {
        assert(t1.freq[m + 1] >= raised);
    }
    let u0 = pp[n] as int;
    lemma_parent_children(t, n);
    assert(m < u0) by {
        assert(sum_ok(t, u0));
        let c = sp[u0] as int;
        let sib = if n % 2 == 0 { n + 1 } else { n - 1 };
        assert(f[u0] == f[n] + f[sib]);
        if m >= u0 {
            assert(f[u0] == f[n]);
        }
    }
    lemma_parent_children(t, m);
    let u = pp[m] as int;
    let left = sp[n] as int;
    let swapped = sp[m] as int;
    assert(links_ok(t, n));
    assert(links_ok(t, m));
    assert(sum_ok(t, m));
    // The children of the node at `next` lie below `node`.
    assert(swapped < TABLE_SIZE ==> swapped + 1 < n) by {
        if swapped < TABLE_SIZE {
            assert(f[swapped] >= 1 && f[swapped + 1] >= 1);
            assert(f[swapped + 1] < f[n]);
            assert(f[swapped] < f[n]);
            if swapped + 1 >= n {
                assert(f[n] <= f[swapped + 1]);
            }
        }
    }
    assert(left != swapped) by {
        if left == swapped {
            lemma_son_unique(t, n, m);
        }
    }
    let f2 = t2.freq;
    let s2 = t2.son;
    let p2 = t2.parent;
    assert(f2 =~= f.update(m, raised));
    assert(s2 =~= sp.update(m, left as u16).update(n, swapped as u16));
    // Where the parent table changed.
    assert forall|c: int|
        0 <= c < TABLE_SIZE + SYMBOL_COUNT && c != left && !(left < TABLE_SIZE && c == left + 1)
            && c != swapped && !(swapped < TABLE_SIZE && c == swapped + 1) implies #[trigger] p2[c]
        == pp[c] by {}
    assert(p2[left] == m);
    assert(left < TABLE_SIZE ==> p2[left + 1] == m);
    assert(p2[swapped] == n);
    assert(swapped < TABLE_SIZE ==> p2[swapped + 1] == n);
    assert(p2[m] == pp[m]);
    assert(p2[ROOT as int] == 0);
    // Links.
    assert forall|p: int| 0 <= p < TABLE_SIZE implies #[trigger] links_ok(t2, p) by {
        if p != n && p != m {
            assert(links_ok(t, p));
            let c = sp[p] as int;
            assert(c != left) by {
                if c == left {
                    lemma_son_unique(t, p, n);
                }
            }
            assert(c != swapped) by {
                if c == swapped {
                    lemma_son_unique(t, p, m);
                }
            }
        }
    }
    assert forall|x: int| 0 <= x < ROOT implies #[trigger] up_ok(t2, x) by {
        if x == left || x == left + 1 && left < TABLE_SIZE {
        } else if x == swapped || x == swapped + 1 && swapped < TABLE_SIZE {
        } else {
            assert(up_ok(t, x));
            let y = pp[x] as int;
            if y == n || y == m {
                assert(links_ok(t, y));
            }
        }
    }
    assert forall|s: int| 0 <= s < SYMBOL_COUNT implies #[trigger] sym_ok(t2, s) by {
        assert(sym_ok(t, s));
        let v = TABLE_SIZE + s;
        if v != left && v != swapped {
            let y = pp[v] as int;
            assert(y != n && y != m);
        }
    }
    let mk0 = leaf_marks(sp, TABLE_SIZE as int);
    assert(leaf_marks(s2, TABLE_SIZE as int) =~= mk0.update(n, mk0[m]).update(m, mk0[n]));
    lemma_sum_swap(mk0, n, m);
    assert(structure_ok(t2));
    // Frequencies.
    assert(freq_ok(t2)) by {
        assert forall|p: int, q: int| 0 <= p <= q < TABLE_SIZE implies #[trigger] f2[p]
            <= #[trigger] f2[q] by {
            if q == m && p < m {
                assert(f[p] <= f[m]);
            } else if p == m && q > m {
                assert(f[m + 1] <= f[q]);
            }
        }
    }
    assert forall|p: int| 0 <= p < TABLE_SIZE && p != u implies #[trigger] sum_ok(t2, p) by {
        if p == m {
        } else if p == n {
        } else {
            assert(sum_ok(t, p));
            assert(links_ok(t, p));
            let c = sp[p] as int;
            if c < TABLE_SIZE && (c == m || c + 1 == m) {
                assert(pp[m] == p);
            }
        }
    }
    assert(sum_ok(t, u));
    assert(s2[u] == sp[u]);
    let w0 = leaf_weights(f, sp, TABLE_SIZE as int);
    let w1 = leaf_weights(t1.freq, sp, TABLE_SIZE as int);
    assert(w1 =~= w0.update(n, if left >= TABLE_SIZE { raised as int } else { 0int }));
    lemma_sum_update(w0, n, if left >= TABLE_SIZE { raised as int } else { 0int });
    assert(leaf_weights(f2, s2, TABLE_SIZE as int) =~= w1.update(n, w1[m]).update(m, w1[n]));
    lemma_sum_swap(w1, n, m);
    assert forall|x: int| 0 <= x < SYMBOL_COUNT implies #[trigger] leaf_freq(t2, x) == leaf_freq(
        t,
        x,
    ) + if pp[TABLE_SIZE + x] == n {
        1int
    } else {
        0int
    } by {
        assert(sym_ok(t, x));
        let v = TABLE_SIZE + x;
        if v == left {
            assert(pp[v] == n);
        } else if v == swapped {
            assert(pp[v] == m);
        } else {
            let y = pp[v] as int;
            assert(y != n && y != m);
        }
    }
}

/// One step of an update keeps the tree well formed but for the increment still due above.
pub proof fn lemma_climb_step(t: TreeView, node: int)
    requires
        climb_inv(t, node),
    ensures
        ({
            let (t2, cur) = climb_step(t, node);
            &&& node <= cur < TABLE_SIZE
            &&& node == ROOT ==> cur == ROOT && t2.parent[cur] == 0 && tree_wf(t2)
            &&& node < ROOT ==> cur < t2.parent[cur] <= ROOT && climb_inv(
                t2,
                t2.parent[cur] as int,
            )
            &&& t2.freq[ROOT as int] == t.freq[ROOT as int] + if node == ROOT {
                1int
            } else {
                0int
            }
            &&& forall|x: int|
                0 <= x < SYMBOL_COUNT ==> #[trigger] leaf_freq(t2, x) == leaf_freq(t, x) + if t.parent[TABLE_SIZE
                    + x] == node {
                    1int
                } else {
                    0int
                }
        }),
{
    lemma_freq_le_root(t, node);
    let raised = (t.freq[node] + 1) as u16;
    let t1 = TreeView { freq: t.freq.update(node, raised), parent: t.parent, son: t.son };
    lemma_scan_up(t1.freq, raised as int, node + 1);
    if t.freq[node + 1] >= t.freq[node] + 1 {
        assert(scan_up(t1.freq, raised as int, node + 1) == node + 1);
        lemma_climb_no_swap(t, node);
        if node < ROOT {
            assert(up_ok(t, node));
        }
    } else {
        if node == ROOT {
            assert(t.freq[node + 1] == 0xFFFF);
        }
        lemma_climb_swap(t, node);
    }
}

/// Raising the frequencies from a pending position up to the root gives a well-formed tree.
pub proof fn lemma_climb(t: TreeView, node: int)
    requires
        climb_inv(t, node),
    ensures
        tree_wf(climb(t, node)),
        climb(t, node).freq[ROOT as int] == t.freq[ROOT as int] + 1,
        forall|x: int|
            0 <= x < SYMBOL_COUNT ==> #[trigger] leaf_freq(climb(t, node), x) == leaf_freq(t, x)
                + if t.parent[TABLE_SIZE + x] == node {
                1int
            } else {
                0int
            },
    decreases TABLE_SIZE - node,
{
    lemma_climb_step(t, node);
    let (t2, cur) = climb_step(t, node);
    if node < ROOT {
        let up = t2.parent[cur] as int;
        lemma_climb(t2, up);
        assert(up_ok(t2, cur));
        assert(climb(t, node) == climb(t2, up));
        assert forall|x: int| 0 <= x < SYMBOL_COUNT implies #[trigger] leaf_freq(climb(t, node), x)
            == leaf_freq(t, x) + if t.parent[TABLE_SIZE + x] == node {
            1int
        } else {
            0int
        } by {
            assert(sym_ok(t2, x));
            assert(t2.parent[TABLE_SIZE + x] != up);
            assert(leaf_freq(t2, x) == leaf_freq(t, x) + if t.parent[TABLE_SIZE + x] == node {
                1int
            } else {
                0int
            });
        }
    }
}

/// A well-formed tree whose root frequency can still grow is ready for an update of `symbol`.
pub proof fn lemma_climb_start(t: TreeView, symbol: int)
    requires
        tree_wf(t),
        t.freq[ROOT as int] < MAX_FREQ,
        0 <= symbol < SYMBOL_COUNT,
    ensures
        climb_inv(t, t.parent[TABLE_SIZE + symbol] as int),
        t.son[t.parent[TABLE_SIZE + symbol] as int] >= TABLE_SIZE,
{
    assert(sym_ok(t, symbol));
}

/// Frequencies of the starting tree: one per leaf, inner nodes joining consecutive pairs.
pub open spec fn init_freq(p: int) -> int
    decreases p,
{
    if p < SYMBOL_COUNT || p >= TABLE_SIZE {
        1
    } else {
        init_freq(2 * (p - SYMBOL_COUNT)) + init_freq(2 * (p - SYMBOL_COUNT) + 1)
    }
}

/// The starting tree: every symbol with frequency 1, leaves in symbol order.
pub open spec fn initial_tree() -> TreeView {
    TreeView {
        freq: Seq::new(
            (TABLE_SIZE + 1) as nat,
            |p: int|
                if p == TABLE_SIZE {
                    0xFFFFu16
                } else {
                    init_freq(p) as u16
                },
        ),
        parent: Seq::new(
            (TABLE_SIZE + SYMBOL_COUNT) as nat,
            |x: int|
                if x >= TABLE_SIZE {
                    (x - TABLE_SIZE) as u16
                } else if x == ROOT {
                    0u16
                } else {
                    (SYMBOL_COUNT + x / 2) as u16
                },
        ),
        son: Seq::new(
            TABLE_SIZE as nat,
            |p: int|
                if p < SYMBOL_COUNT {
                    (TABLE_SIZE + p) as u16
                } else {
                    (2 * (p - SYMBOL_COUNT)) as u16
                },
        ),
    }
}

pub proof fn lemma_init_mono(p: int, q: int)
    requires
        0 <= p <= q <= ROOT,
    ensures
        1 <= init_freq(p) <= init_freq(q),
    decreases q,
{
    if p < q {
        lemma_init_mono(p, q - 1);
        if q > SYMBOL_COUNT {
            let k = q - SYMBOL_COUNT;
            lemma_init_mono(2 * k - 2, 2 * k);
            lemma_init_mono(2 * k - 1, 2 * k + 1);
        } else if q == SYMBOL_COUNT {
            assert(init_freq(q) == init_freq(0) + init_freq(1));
        }
    } else if p >= SYMBOL_COUNT {
        lemma_init_mono(0, 2 * (p - SYMBOL_COUNT));
        lemma_init_mono(0, 2 * (p - SYMBOL_COUNT) + 1);
    }
}

/// The frequencies at `lo..hi` of the starting tree.
pub open spec fn init_range(lo: int, hi: int) -> Seq<int> {
    Seq::new((hi - lo) as nat, |i: int| init_freq(lo + i))
}

proof fn lemma_init_frontier(k: int)
    requires
        0 <= k <= SYMBOL_COUNT - 1,
    ensures
        seq_sum(init_range(2 * k, SYMBOL_COUNT + k)) == SYMBOL_COUNT,
    decreases k,
{
    if k == 0 {
        lemma_sum_all_ones(init_range(0, SYMBOL_COUNT as int));
    } else {
        lemma_init_frontier(k - 1);
        let old_r = init_range(2 * k - 2, SYMBOL_COUNT + k - 1);
        let mid = init_range(2 * k, SYMBOL_COUNT + k - 1);
        let two = init_range(2 * k - 2, 2 * k);
        assert(old_r =~= two + mid);
        lemma_sum_concat(two, mid);
        assert(two.drop_last().drop_last() =~= Seq::<int>::empty());
        assert(seq_sum(two) == seq_sum(two.drop_last()) + two[1]);
        assert(seq_sum(two.drop_last()) == seq_sum(two.drop_last().drop_last()) + two[0]);
        let new_r = init_range(2 * k, SYMBOL_COUNT + k);
        assert(new_r.drop_last() =~= mid);
        assert(new_r.last() == init_freq(SYMBOL_COUNT + k - 1));
    }
}

proof fn lemma_sum_all_ones(s: Seq<int>)
    requires
        forall|i: int| 0 <= i < s.len() ==> s[i] == 1,
    ensures
        seq_sum(s) == s.len(),
    decreases s.len(),
{
    if s.len() > 0 {
        lemma_sum_all_ones(s.drop_last());
    }
}

proof fn lemma_sum_all_zeros(s: Seq<int>)
    requires
        forall|i: int| 0 <= i < s.len() ==> s[i] == 0,
    ensures
        seq_sum(s) == 0,
    decreases s.len(),
{
    if s.len() > 0 {
        lemma_sum_all_zeros(s.drop_last());
    }
}

/// The starting tree holds the leaves in symbol order, each with count one: symbol `s` at
/// position `s`. Above them, the inner node at `SYMBOL_COUNT + k` joins positions `2 * k` and
/// `2 * k + 1`, in order.
pub proof fn lemma_initial_leaves()
    ensures
        forall|s: int|
            0 <= s < SYMBOL_COUNT ==> {
                &&& #[trigger] initial_tree().parent[TABLE_SIZE + s] == s
                &&& initial_tree().son[s] == TABLE_SIZE + s
                &&& leaf_freq(initial_tree(), s) == 1
            },
        forall|k: int|
            0 <= k < SYMBOL_COUNT - 1 ==> {
                &&& #[trigger] initial_tree().son[SYMBOL_COUNT + k] == 2 * k
                &&& initial_tree().parent[2 * k] == SYMBOL_COUNT + k
                &&& initial_tree().parent[2 * k + 1] == SYMBOL_COUNT + k
            },
{
    assert forall|s: int| 0 <= s < SYMBOL_COUNT implies {
        &&& #[trigger] initial_tree().parent[TABLE_SIZE + s] == s
        &&& initial_tree().son[s] == TABLE_SIZE + s
        &&& leaf_freq(initial_tree(), s) == 1
    } by {
        assert(init_freq(s) == 1);
    }
}

/// The starting tree is well formed, its root frequency the number of symbols.
pub proof fn lemma_initial_wf()
    ensures
        tree_wf(initial_tree()),
        initial_tree().freq[ROOT as int] == SYMBOL_COUNT,
        init_freq(ROOT as int) == SYMBOL_COUNT,
{
    let t = initial_tree();
    lemma_init_frontier(SYMBOL_COUNT - 1);
    let last = init_range(2 * (SYMBOL_COUNT - 1), TABLE_SIZE as int);
    assert(last.drop_last() =~= Seq::<int>::empty());
    assert(seq_sum(last) == seq_sum(last.drop_last()) + last.last());
    assert(init_freq(ROOT as int) == SYMBOL_COUNT);
    assert forall|p: int| 0 <= p < TABLE_SIZE implies 1 <= #[trigger] init_freq(p) <= SYMBOL_COUNT by {
        lemma_init_mono(p, ROOT as int);
    }
    assert(freq_ok(t)) by {
        assert forall|p: int, q: int| 0 <= p <= q < TABLE_SIZE implies #[trigger] t.freq[p]
            <= #[trigger] t.freq[q] by {
            lemma_init_mono(p, q);
            lemma_init_mono(q, ROOT as int);
        }
    }
    assert forall|p: int| 0 <= p < TABLE_SIZE implies #[trigger] links_ok(t, p) by {}
    assert forall|p: int| 0 <= p < TABLE_SIZE implies #[trigger] sum_ok(t, p) by {
        if p >= SYMBOL_COUNT {
            let c = 2 * (p - SYMBOL_COUNT);
            lemma_init_mono(c, ROOT as int);
            lemma_init_mono(c + 1, ROOT as int);
            lemma_init_mono(p, ROOT as int);
        }
    }
    assert forall|x: int| 0 <= x < ROOT implies #[trigger] up_ok(t, x) by {}
    assert forall|s: int| 0 <= s < SYMBOL_COUNT implies #[trigger] sym_ok(t, s) by {}
    let lm = leaf_marks(t.son, TABLE_SIZE as int);
    assert(lm =~= lm.take(SYMBOL_COUNT as int) + lm.skip(SYMBOL_COUNT as int));
    lemma_sum_concat(lm.take(SYMBOL_COUNT as int), lm.skip(SYMBOL_COUNT as int));
    lemma_sum_all_ones(lm.take(SYMBOL_COUNT as int));
    lemma_sum_all_zeros(lm.skip(SYMBOL_COUNT as int));
    let lw = leaf_weights(t.freq, t.son, TABLE_SIZE as int);
    assert(lw =~= lw.take(SYMBOL_COUNT as int) + lw.skip(SYMBOL_COUNT as int));
    lemma_sum_concat(lw.take(SYMBOL_COUNT as int), lw.skip(SYMBOL_COUNT as int));
    lemma_sum_all_ones(lw.take(SYMBOL_COUNT as int));
    lemma_sum_all_zeros(lw.skip(SYMBOL_COUNT as int));
}

} // verus!
