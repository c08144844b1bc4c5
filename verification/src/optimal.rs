use vstd::prelude::*;
use vstd::multiset::Multiset;
use crate::{TABLE_SIZE, ROOT, SYMBOL_COUNT};
use crate::tree::{
    TreeView, tree_wf, path_bits, links_ok, up_ok, sum_ok, sym_ok, leaf_freq, symbol_code,
    lemma_son_unique, lemma_root_inner, lemma_path_bits_step,
};
use crate::huffman::{update_spec, lemma_update_wf};

verus! {

/// A binary code tree over counts: each leaf holds the count of the symbol it codes.
pub enum CodeTree {
    Leaf(int),
    Node(Box<CodeTree>, Box<CodeTree>),
}

/// The counts at the leaves.
pub open spec fn leaves(t: CodeTree) -> Multiset<int>
    decreases t,
{
    match t {
        CodeTree::Leaf(w) => Multiset::singleton(w),
        CodeTree::Node(l, r) => leaves(*l).add(leaves(*r)),
    }
}

/// The cost of coding with the tree, its leaves standing `depth` levels below the top: each
/// leaf's count times the length of its code.
pub open spec fn code_cost(t: CodeTree, depth: int) -> int
    decreases t,
{
    match t {
        CodeTree::Leaf(w) => w * depth,
        CodeTree::Node(l, r) => code_cost(*l, depth + 1) + code_cost(*r, depth + 1),
    }
}

/// The length of the longest code.
pub open spec fn height(t: CodeTree) -> int
    decreases t,
{
    match t {
        CodeTree::Leaf(_) => 0,
        CodeTree::Node(l, r) => {
            let hl = height(*l);
            let hr = height(*r);
            1 + if hl >= hr {
                hl
            } else {
                hr
            }
        },
    }
}

/// The count at the end of `path` (`true` for the right branch), if a leaf is there.
pub open spec fn leaf_at(t: CodeTree, path: Seq<bool>) -> Option<int>
    decreases path.len(),
{
    match t {
        CodeTree::Leaf(w) => if path.len() == 0 {
            Some(w)
        } else {
            None
        },
        CodeTree::Node(l, r) => if path.len() == 0 {
            None
        } else if path[0] {
            leaf_at(*r, path.drop_first())
        } else {
            leaf_at(*l, path.drop_first())
        },
    }
}

/// The tree with the leaf at the end of `path` holding `w`.
pub open spec fn set_leaf(t: CodeTree, path: Seq<bool>, w: int) -> CodeTree
    decreases path.len(),
{
    match t {
        CodeTree::Leaf(_) => if path.len() == 0 {
            CodeTree::Leaf(w)
        } else {
            t
        },
        CodeTree::Node(l, r) => if path.len() == 0 {
            t
        } else if path[0] {
            CodeTree::Node(l, Box::new(set_leaf(*r, path.drop_first(), w)))
        } else {
            CodeTree::Node(Box::new(set_leaf(*l, path.drop_first(), w)), r)
        },
    }
}

/// The tree with the two leaves below the end of `path` joined into one leaf.
pub open spec fn join_at(t: CodeTree, path: Seq<bool>) -> CodeTree
    decreases path.len(),
{
    match t {
        CodeTree::Leaf(_) => t,
        CodeTree::Node(l, r) => if path.len() == 0 {
            match (*l, *r) {
                (CodeTree::Leaf(x), CodeTree::Leaf(y)) => CodeTree::Leaf(x + y),
                _ => t,
            }
        } else if path[0] {
            CodeTree::Node(l, Box::new(join_at(*r, path.drop_first())))
        } else {
            CodeTree::Node(Box::new(join_at(*l, path.drop_first())), r)
        },
    }
}

proof fn lemma_leaves_len(t: CodeTree)
    ensures
        leaves(t).len() >= 1,
        t is Node ==> leaves(t).len() >= 2,
    decreases t,
{
    if let CodeTree::Node(l, r) = t {
        lemma_leaves_len(*l);
        lemma_leaves_len(*r);
    }
}

proof fn lemma_leaf_at_depth(t: CodeTree, path: Seq<bool>)
    requires
        leaf_at(t, path) is Some,
    ensures
        path.len() <= height(t),
        leaves(t).count(leaf_at(t, path)->0) > 0,
    decreases path.len(),
{
    if let CodeTree::Node(l, r) = t {
        if path[0] {
            lemma_leaf_at_depth(*r, path.drop_first());
        } else {
            lemma_leaf_at_depth(*l, path.drop_first());
        }
    }
}

/// Changing one leaf changes the counts and the cost by that leaf alone.
proof fn lemma_set_leaf(t: CodeTree, path: Seq<bool>, w: int, depth: int)
    requires
        leaf_at(t, path) is Some,
    ensures
        leaves(set_leaf(t, path, w)) =~= leaves(t).remove(leaf_at(t, path)->0).insert(w),
        code_cost(set_leaf(t, path, w), depth) == code_cost(t, depth) + (w - leaf_at(t, path)->0)
            * (depth + path.len()),
        leaf_at(set_leaf(t, path, w), path) == Some(w),
        height(set_leaf(t, path, w)) == height(t),
    decreases path.len(),
{
    lemma_leaf_at_depth(t, path);
    let v = leaf_at(t, path)->0;
    match t {
        CodeTree::Leaf(_) => {
            assert(path.len() == 0);
            assert((w - v) * depth == w * depth - v * depth) by (nonlinear_arith);
        },
        CodeTree::Node(l, r) => {
            let rest = path.drop_first();
            if path[0] {
                lemma_set_leaf(*r, rest, w, depth + 1);
                lemma_leaf_at_depth(*r, rest);
            } else {
                lemma_set_leaf(*l, rest, w, depth + 1);
                lemma_leaf_at_depth(*l, rest);
            }
        },
    }
}

/// Changing one leaf leaves every other path as it was.
proof fn lemma_set_leaf_other(t: CodeTree, path: Seq<bool>, other: Seq<bool>, w: int)
    requires
        leaf_at(t, path) is Some,
        other != path,
    ensures
        leaf_at(set_leaf(t, path, w), other) == leaf_at(t, other),
    decreases path.len(),
{
    match t {
        CodeTree::Leaf(_) => {
            if other.len() == 0 {
                assert(other =~= path);
            }
        },
        CodeTree::Node(l, r) => {
            if other.len() > 0 && other[0] == path[0] {
                if other.drop_first() =~= path.drop_first() {
                    assert(other =~= path) by {
                        assert forall|i: int| 0 <= i < other.len() implies other[i] == path[i] by {
                            if i > 0 {
                                assert(other[i] == other.drop_first()[i - 1]);
                                assert(path[i] == path.drop_first()[i - 1]);
                            }
                        }
                    }
                }
                if path[0] {
                    lemma_set_leaf_other(*r, path.drop_first(), other.drop_first(), w);
                } else {
                    lemma_set_leaf_other(*l, path.drop_first(), other.drop_first(), w);
                }
            }
        },
    }
}

/// Every count at the leaves is at the end of some path.
proof fn lemma_leaf_exists(t: CodeTree, v: int)
    requires
        leaves(t).count(v) > 0,
    ensures
        exists|path: Seq<bool>| leaf_at(t, path) == Some(v),
    decreases t,
{
    match t {
        CodeTree::Leaf(w) => {
            assert(leaf_at(t, Seq::empty()) == Some(v));
        },
        CodeTree::Node(l, r) => {
            if leaves(*l).count(v) > 0 {
                lemma_leaf_exists(*l, v);
                let p = choose|p: Seq<bool>| leaf_at(*l, p) == Some(v);
                let q = seq![false] + p;
                assert(q.drop_first() =~= p);
                assert(leaf_at(t, q) == Some(v));
            } else {
                lemma_leaf_exists(*r, v);
                let p = choose|p: Seq<bool>| leaf_at(*r, p) == Some(v);
                let q = seq![true] + p;
                assert(q.drop_first() =~= p);
                assert(leaf_at(t, q) == Some(v));
            }
        },
    }
}

proof fn lemma_height_nonneg(t: CodeTree)
    ensures
        height(t) >= 0,
        t is Node ==> height(t) >= 1,
    decreases t,
{
    if let CodeTree::Node(l, r) = t {
        lemma_height_nonneg(*l);
        lemma_height_nonneg(*r);
    }
}

/// Two leaves that are siblings at the end of `path`.
pub open spec fn leaf_pair_at(t: CodeTree, path: Seq<bool>) -> bool {
    &&& leaf_at(t, path.push(false)) is Some
    &&& leaf_at(t, path.push(true)) is Some
}

/// A tree that is not a single leaf has two sibling leaves at its greatest depth.
proof fn lemma_deepest_pair(t: CodeTree)
    requires
        t is Node,
    ensures
        exists|path: Seq<bool>| path.len() + 1 == height(t) && #[trigger] leaf_pair_at(t, path),
    decreases t,
{
    if let CodeTree::Node(l, r) = t {
        let hl = height(*l);
        let hr = height(*r);
        lemma_height_nonneg(*l);
        lemma_height_nonneg(*r);
        if *l is Leaf && *r is Leaf {
            let p = Seq::<bool>::empty();
            assert(p.push(false).drop_first() =~= Seq::<bool>::empty());
            assert(p.push(true).drop_first() =~= Seq::<bool>::empty());
            assert(leaf_at(*l, Seq::empty()) is Some);
            assert(leaf_at(*r, Seq::empty()) is Some);
            assert(leaf_pair_at(t, p));
        } else if hl >= hr {
            assert(*l is Node) by {
                if *l is Leaf {
                    assert(*r is Node);
                }
            }
            lemma_deepest_pair(*l);
            let p = choose|p: Seq<bool>| p.len() + 1 == height(*l) && #[trigger] leaf_pair_at(*l, p);
            let q = seq![false] + p;
            assert(q.push(false).drop_first() =~= p.push(false));
            assert(q.push(true).drop_first() =~= p.push(true));
            assert(leaf_pair_at(t, q));
        } else {
            assert(*r is Node);
            lemma_deepest_pair(*r);
            let p = choose|p: Seq<bool>| p.len() + 1 == height(*r) && #[trigger] leaf_pair_at(*r, p);
            let q = seq![true] + p;
            assert(q.push(false).drop_first() =~= p.push(false));
            assert(q.push(true).drop_first() =~= p.push(true));
            assert(leaf_pair_at(t, q));
        }
    }
}

/// Joining two sibling leaves into one leaf with their total count saves that total.
proof fn lemma_join_at(t: CodeTree, path: Seq<bool>, depth: int)
    requires
        leaf_pair_at(t, path),
    ensures
        ({
            let x = leaf_at(t, path.push(false))->0;
            let y = leaf_at(t, path.push(true))->0;
            &&& leaves(t).count(x) > 0
            &&& leaves(t).remove(x).count(y) > 0
            &&& leaves(join_at(t, path)) =~= leaves(t).remove(x).remove(y).insert(x + y)
            &&& code_cost(join_at(t, path), depth) == code_cost(t, depth) - x - y
        }),
    decreases path.len(),
{
    let x = leaf_at(t, path.push(false))->0;
    let y = leaf_at(t, path.push(true))->0;
    if let CodeTree::Node(l, r) = t {
        if path.len() == 0 {
            assert(path.push(false).drop_first() =~= Seq::<bool>::empty());
            assert(path.push(true).drop_first() =~= Seq::<bool>::empty());
            assert(leaf_at(*l, Seq::empty()) == Some(x));
            assert(leaf_at(*r, Seq::empty()) == Some(y));
            assert(*l == CodeTree::Leaf(x));
            assert(*r == CodeTree::Leaf(y));
            assert(join_at(t, path) == CodeTree::Leaf(x + y));
            assert(leaves(*l) == Multiset::singleton(x));
            assert(leaves(*r) == Multiset::singleton(y));
            assert(code_cost(*l, depth + 1) == x * (depth + 1));
            assert(code_cost(*r, depth + 1) == y * (depth + 1));
            assert(leaves(t) == Multiset::singleton(x).add(Multiset::singleton(y)));
            assert(leaves(t).count(x) > 0);
            assert(leaves(t).remove(x).count(y) > 0);
            assert(leaves(join_at(t, path)) =~= leaves(t).remove(x).remove(y).insert(x + y));
            assert(code_cost(t, depth) == x * (depth + 1) + y * (depth + 1));
            assert(x * (depth + 1) + y * (depth + 1) == (x + y) * depth + x + y) by (nonlinear_arith);
        } else {
            let rest = path.drop_first();
            assert(path.push(false).drop_first() =~= rest.push(false));
            assert(path.push(true).drop_first() =~= rest.push(true));
            if path[0] {
                assert(leaf_at(*r, rest.push(false)) == Some(x));
                assert(leaf_at(*r, rest.push(true)) == Some(y));
                lemma_join_at(*r, rest, depth + 1);
                assert(join_at(t, path) == CodeTree::Node(l, Box::new(join_at(*r, rest))));
                assert(leaves(join_at(t, path)) == leaves(*l).add(leaves(join_at(*r, rest))));
                assert(leaves(t).count(x) > 0);
                assert(leaves(t).remove(x).count(y) > 0);
                assert(leaves(join_at(t, path)) =~= leaves(t).remove(x).remove(y).insert(x + y));
            } else {
                assert(leaf_at(*l, rest.push(false)) == Some(x));
                assert(leaf_at(*l, rest.push(true)) == Some(y));
                lemma_join_at(*l, rest, depth + 1);
                assert(join_at(t, path) == CodeTree::Node(Box::new(join_at(*l, rest)), r));
                assert(leaves(join_at(t, path)) == leaves(join_at(*l, rest)).add(leaves(*r)));
                assert(leaves(t).count(x) > 0);
                assert(leaves(t).remove(x).count(y) > 0);
                assert(leaves(join_at(t, path)) =~= leaves(t).remove(x).remove(y).insert(x + y));
            }
        }
    }
}

/// Two leaves at different paths are two elements of the counts.
proof fn lemma_two_leaves(t: CodeTree, p: Seq<bool>, q: Seq<bool>)
    requires
        leaf_at(t, p) is Some,
        leaf_at(t, q) is Some,
        p != q,
    ensures
        leaves(t).remove(leaf_at(t, p)->0).count(leaf_at(t, q)->0) > 0,
{
    let u = leaf_at(t, q)->0;
    let t2 = set_leaf(t, p, u - 1);
    lemma_set_leaf(t, p, u - 1, 0);
    lemma_set_leaf_other(t, p, q, u - 1);
    lemma_leaf_at_depth(t2, q);
}

/// `x` is a least element of `m`.
pub open spec fn is_least(m: Multiset<int>, x: int) -> bool {
    &&& m.count(x) > 0
    &&& forall|y: int| m.count(y) > 0 ==> x <= y
}

/// The least element of `m`.
pub open spec fn least(m: Multiset<int>) -> int {
    choose|x: int| is_least(m, x)
}

proof fn lemma_least(m: Multiset<int>)
    requires
        m.len() > 0,
    ensures
        is_least(m, least(m)),
    decreases m.len(),
{
    let v = m.choose();
    assert(m.count(v) > 0);
    let rest = m.remove(v);
    if rest.len() == 0 {
        assert forall|y: int| m.count(y) > 0 implies v <= y by {
            if y != v {
                assert(rest.count(y) == m.count(y));
            }
        }
        assert(is_least(m, v));
    } else {
        lemma_least(rest);
        let u = least(rest);
        let x = if u < v {
            u
        } else {
            v
        };
        assert forall|y: int| m.count(y) > 0 implies x <= y by {
            if y != v {
                assert(rest.count(y) == m.count(y));
            }
        }
        assert(is_least(m, x));
    }
}

/// The cost that Huffman's construction reaches from the counts `m`, which hold `n` counts:
/// join the two least counts into one, and go on until one is left.
pub open spec fn huffman_cost(m: Multiset<int>, n: nat) -> int
    decreases n,
{
    if n < 2 {
        0
    } else {
        let a = least(m);
        let b = least(m.remove(a));
        a + b + huffman_cost(m.remove(a).remove(b).insert(a + b), (n - 1) as nat)
    }
}

/// Trading the count at `from` for the count at the deepest path `to`, when that one is not
/// smaller, keeps the counts and does not raise the cost.
proof fn lemma_trade(t: CodeTree, from: Seq<bool>, to: Seq<bool>)
    requires
        leaf_at(t, from) is Some,
        leaf_at(t, to) is Some,
        leaf_at(t, to)->0 >= leaf_at(t, from)->0,
        to.len() == height(t),
    ensures
        ({
            let v = leaf_at(t, from)->0;
            let x = leaf_at(t, to)->0;
            let t2 = set_leaf(set_leaf(t, from, x), to, v);
            &&& leaves(t2) =~= leaves(t)
            &&& code_cost(t2, 0) <= code_cost(t, 0)
            &&& height(t2) == height(t)
            &&& leaf_at(t2, to) == Some(v)
            &&& forall|o: Seq<bool>|
                o != to ==> (#[trigger] leaf_at(t2, o) is Some) == (leaf_at(t, o) is Some)
            &&& forall|o: Seq<bool>|
                o != to && o != from ==> #[trigger] leaf_at(t2, o) == leaf_at(t, o)
        }),
{
    let v = leaf_at(t, from)->0;
    let x = leaf_at(t, to)->0;
    let t1 = set_leaf(t, from, x);
    let t2 = set_leaf(t1, to, v);
    lemma_leaf_at_depth(t, from);
    lemma_leaf_at_depth(t, to);
    lemma_set_leaf(t, from, x, 0);
    if from != to {
        lemma_set_leaf_other(t, from, to, x);
    }
    lemma_set_leaf(t1, to, v, 0);
    assert forall|o: Seq<bool>| o != to implies (#[trigger] leaf_at(t2, o) is Some) == (leaf_at(
        t,
        o,
    ) is Some) && (o != from ==> leaf_at(t2, o) == leaf_at(t, o)) by {
        lemma_set_leaf_other(t1, to, o, v);
        if o != from {
            lemma_set_leaf_other(t, from, o, x);
        }
    }
    let d = height(t);
    assert((x - v) * from.len() + (v - x) * d <= 0) by (nonlinear_arith)
        requires
            x >= v,
            d >= from.len(),
    ;
}

#[verifier::rlimit(50)]
/// No code tree over the counts `leaves(t)` costs less than Huffman's construction.
pub proof fn lemma_huffman_lower_bound(t: CodeTree)
    ensures
        huffman_cost(leaves(t), leaves(t).len()) <= code_cost(t, 0),
    decreases leaves(t).len(),
{
    lemma_leaves_len(t);
    let w = leaves(t);
    let n = w.len();
    if n < 2 {
        if let CodeTree::Leaf(v) = t {
            assert(v * 0 == 0);
        }
    } else {
        lemma_least(w);
        let a = least(w);
        let w1 = w.remove(a);
        lemma_least(w1);
        let b = least(w1);
        lemma_deepest_pair(t);
        let p = choose|p: Seq<bool>| p.len() + 1 == height(t) && #[trigger] leaf_pair_at(t, p);
        let p0 = p.push(false);
        let p1 = p.push(true);
        assert(p0 != p1) by {
            assert(p0[p.len() as int] != p1[p.len() as int]);
        }
        // Bring `a` to the first of the deepest siblings.
        lemma_leaf_exists(t, a);
        let pa = choose|q: Seq<bool>| leaf_at(t, q) == Some(a);
        lemma_leaf_at_depth(t, p0);
        let t1 = set_leaf(set_leaf(t, pa, leaf_at(t, p0)->0), p0, a);
        lemma_trade(t, pa, p0);
        assert(leaf_at(t1, p1) is Some);
        // Bring `b` to the second.
        let probe = set_leaf(t1, p0, b - 1);
        lemma_set_leaf(t1, p0, b - 1, 0);
        assert(leaves(probe).count(b) > 0);
        lemma_leaf_exists(probe, b);
        let q = choose|q: Seq<bool>| leaf_at(probe, q) == Some(b);
        assert(q != p0);
        lemma_set_leaf_other(t1, p0, q, b - 1);
        lemma_two_leaves(t1, p0, p1);
        let t3 = set_leaf(set_leaf(t1, q, leaf_at(t1, p1)->0), p1, b);
        lemma_trade(t1, q, p1);
        assert(leaf_at(t3, p0) == Some(a));
        // Join them.
        assert(leaf_pair_at(t3, p));
        let t4 = join_at(t3, p);
        lemma_join_at(t3, p, 0);
        let w2 = w1.remove(b).insert(a + b);
        assert(leaves(t4) =~= w2);
        assert(w2.len() == n - 1);
        lemma_huffman_lower_bound(t4);
    }
}

/// Whether position `q` stands as a leaf once the pairs of positions below `2 * k` are joined:
/// a leaf of the tree, or an inner node whose children are below `2 * k`.
pub open spec fn stands(t: TreeView, k: int, q: int) -> bool {
    t.son[q] >= TABLE_SIZE || t.son[q] < 2 * k
}

/// The frequencies of the positions from `q` on that stand once the pairs below `2 * k` are
/// joined.
pub open spec fn standing_counts(t: TreeView, k: int, q: int) -> Multiset<int>
    decreases TABLE_SIZE - q,
{
    if q < 0 || q >= TABLE_SIZE {
        Multiset::empty()
    } else if stands(t, k, q) {
        standing_counts(t, k, q + 1).insert(t.freq[q] as int)
    } else {
        standing_counts(t, k, q + 1)
    }
}

/// The depth of position `q` in the tree: the length of its code.
pub open spec fn depth_of(t: TreeView, q: int) -> int {
    path_bits(t, q).len() as int
}

/// Each standing position's frequency times its depth, summed from `q` on.
pub open spec fn standing_cost(t: TreeView, k: int, q: int) -> int
    decreases TABLE_SIZE - q,
{
    if q < 0 || q >= TABLE_SIZE {
        0
    } else if stands(t, k, q) {
        standing_cost(t, k, q + 1) + t.freq[q] * depth_of(t, q)
    } else {
        standing_cost(t, k, q + 1)
    }
}

proof fn lemma_standing_above(t: TreeView, k: int, q: int)
    requires
        tree_wf(t),
        0 <= q,
    ensures
        forall|y: int| #[trigger] standing_counts(t, k, q).count(y) > 0 ==> t.freq[q] <= y,
    decreases TABLE_SIZE - q,
{
    if q < TABLE_SIZE {
        lemma_standing_above(t, k, q + 1);
        let rest = standing_counts(t, k, q + 1);
        assert forall|y: int| #[trigger] standing_counts(t, k, q).count(y) > 0 implies t.freq[q]
            <= y by {
            if y != t.freq[q] as int {
                assert(rest.count(y) > 0);
                if q + 1 < TABLE_SIZE {
                    assert(t.freq[q] <= t.freq[q + 1]);
                } else {
                    assert(rest =~= Multiset::empty());
                }
            }
        }
    } else {
        assert(standing_counts(t, k, q) =~= Multiset::empty());
    }
}

/// Joining the pair at `2 * k` and `2 * k + 1` changes what stands from `q` on only at their
/// parent.
proof fn lemma_standing_step(t: TreeView, k: int, q: int, parent: int)
    requires
        tree_wf(t),
        0 <= k < SYMBOL_COUNT - 1,
        2 * k + 2 <= q <= TABLE_SIZE,
        2 * k + 2 <= parent < TABLE_SIZE,
        t.son[parent] == 2 * k,
    ensures
        standing_counts(t, k + 1, q) =~= if q <= parent {
            standing_counts(t, k, q).insert(t.freq[parent] as int)
        } else {
            standing_counts(t, k, q)
        },
        standing_cost(t, k + 1, q) == standing_cost(t, k, q) + if q <= parent {
            t.freq[parent] * depth_of(t, parent)
        } else {
            0
        },
    decreases TABLE_SIZE - q,
{
    if q < TABLE_SIZE {
        lemma_standing_step(t, k, q + 1, parent);
        if q != parent {
            assert(links_ok(t, q));
            if t.son[q] == 2 * k {
                lemma_son_unique(t, q, parent);
            }
            assert(stands(t, k, q) == stands(t, k + 1, q));
        }
    }
}

#[verifier::rlimit(50)]
/// The standing positions once the pairs below `2 * k` are joined cost what Huffman's
/// construction reaches from their counts.
proof fn lemma_standing_huffman(t: TreeView, k: int)
    requires
        tree_wf(t),
        0 <= k < SYMBOL_COUNT,
    ensures
        standing_counts(t, k, 2 * k).len() == SYMBOL_COUNT - k,
        standing_cost(t, k, 2 * k) == huffman_cost(
            standing_counts(t, k, 2 * k),
            standing_counts(t, k, 2 * k).len(),
        ),
    decreases SYMBOL_COUNT - k,
{
    if k == SYMBOL_COUNT - 1 {
        lemma_root_inner(t);
        assert(stands(t, k, ROOT as int));
        assert(path_bits(t, ROOT as int).len() == 0);
        assert(standing_counts(t, k, TABLE_SIZE as int).len() == 0);
        assert(standing_cost(t, k, TABLE_SIZE as int) == 0);
        assert(depth_of(t, 2 * k) == 0);
        let f = t.freq[2 * k] as int;
        let d = depth_of(t, 2 * k);
        assert(f * d == 0) by (nonlinear_arith)
            requires
                d == 0,
        ;
        assert(standing_cost(t, k, 2 * k) == 0);
        assert(huffman_cost(standing_counts(t, k, 2 * k), 1) == 0);
    } else {
        lemma_standing_huffman(t, k + 1);
        let e = 2 * k;
        let parent = t.parent[e] as int;
        assert(up_ok(t, e));
        assert(up_ok(t, e + 1));
        lemma_son_unique(t, parent, t.parent[e + 1] as int);
        assert(links_ok(t, parent));
        assert(links_ok(t, e));
        assert(links_ok(t, e + 1));
        assert(sum_ok(t, parent));
        lemma_path_bits_step(t, e);
        lemma_path_bits_step(t, e + 1);
        lemma_standing_step(t, k, e + 2, parent);
        let f0 = t.freq[e] as int;
        let f1 = t.freq[e + 1] as int;
        let fp = t.freq[parent] as int;
        let rest = standing_counts(t, k, e + 2);
        let here = standing_counts(t, k, e);
        let next = standing_counts(t, k + 1, e + 2);
        assert(stands(t, k, e));
        assert(stands(t, k, e + 1));
        assert(standing_counts(t, k, e + 1) == rest.insert(f1));
        assert(here == rest.insert(f1).insert(f0));
        assert(standing_cost(t, k, e + 1) == standing_cost(t, k, e + 2) + f1 * depth_of(t, e + 1));
        assert(standing_cost(t, k, e) == standing_cost(t, k, e + 1) + f0 * depth_of(t, e));
        assert(depth_of(t, e) == depth_of(t, parent) + 1);
        assert(depth_of(t, e + 1) == depth_of(t, parent) + 1);
        assert(next =~= rest.insert(fp));
        // The two least counts are those of the pair.
        lemma_standing_above(t, k, e + 2);
        assert(f0 <= f1 && f1 <= t.freq[e + 2]);
        lemma_least(here);
        assert(is_least(here, f0));
        assert(least(here) == f0);
        let here1 = here.remove(f0);
        assert(here1 =~= rest.insert(f1));
        lemma_least(here1);
        assert(is_least(here1, f1));
        assert(least(here1) == f1);
        assert(here1.remove(f1).insert(f0 + f1) =~= next);
        assert(f0 * (depth_of(t, parent) + 1) + f1 * (depth_of(t, parent) + 1) == fp * depth_of(
            t,
            parent,
        ) + f0 + f1) by (nonlinear_arith)
            requires
                fp == f0 + f1,
        ;
        let n = here.len();
        assert(next.len() == n - 1);
        assert(huffman_cost(here, n) == f0 + f1 + huffman_cost(next, (n - 1) as nat));
        assert(standing_cost(t, k, e) == standing_cost(t, k + 1, e + 2) + f0 + f1);
    }
}

/// The counts of the symbols from `i` on whose leaves stand at position `q` or above.
pub open spec fn symbols_from(t: TreeView, q: int, i: int) -> Multiset<int>
    decreases SYMBOL_COUNT - i,
{
    if i < 0 || i >= SYMBOL_COUNT {
        Multiset::empty()
    } else if t.parent[TABLE_SIZE + i] >= q {
        symbols_from(t, q, i + 1).insert(leaf_freq(t, i))
    } else {
        symbols_from(t, q, i + 1)
    }
}

/// Each count times its code's length, for the symbols from `i` on whose leaves stand at
/// position `q` or above.
pub open spec fn symbols_cost_from(t: TreeView, q: int, i: int) -> int
    decreases SYMBOL_COUNT - i,
{
    if i < 0 || i >= SYMBOL_COUNT {
        0
    } else if t.parent[TABLE_SIZE + i] >= q {
        symbols_cost_from(t, q, i + 1) + leaf_freq(t, i) * symbol_code(t, i).len()
    } else {
        symbols_cost_from(t, q, i + 1)
    }
}

/// The count of each symbol, as the frequency at its leaf.
pub open spec fn symbol_counts(t: TreeView) -> Multiset<int> {
    symbols_from(t, 0, 0)
}

/// The cost of coding with the tree: each symbol's count times the length of its code.
pub open spec fn symbol_cost(t: TreeView) -> int {
    symbols_cost_from(t, 0, 0)
}

/// Going one position up drops the symbol whose leaf is at that position, if any.
proof fn lemma_symbols_step(t: TreeView, q: int, i: int)
    requires
        tree_wf(t),
        0 <= q < TABLE_SIZE,
        0 <= i <= SYMBOL_COUNT,
    ensures
        ({
            let mine = t.son[q] >= TABLE_SIZE && i <= t.son[q] - TABLE_SIZE;
            &&& symbols_from(t, q, i) =~= if mine {
                symbols_from(t, q + 1, i).insert(t.freq[q] as int)
            } else {
                symbols_from(t, q + 1, i)
            }
            &&& symbols_cost_from(t, q, i) == symbols_cost_from(t, q + 1, i) + if mine {
                t.freq[q] * depth_of(t, q)
            } else {
                0
            }
        }),
    decreases SYMBOL_COUNT - i,
{
    assert(links_ok(t, q));
    if i < SYMBOL_COUNT {
        lemma_symbols_step(t, q, i + 1);
        assert(sym_ok(t, i));
        let at = t.parent[TABLE_SIZE + i] as int;
        if at == q {
            assert(t.son[q] == TABLE_SIZE + i);
            assert(leaf_freq(t, i) == t.freq[q] as int);
            assert(symbol_code(t, i).len() == depth_of(t, q));
            assert(symbols_from(t, q, i) == symbols_from(t, q, i + 1).insert(leaf_freq(t, i)));
            assert(symbols_from(t, q + 1, i) == symbols_from(t, q + 1, i + 1));
        } else {
            assert(t.son[q] != TABLE_SIZE + i);
            assert((at >= q) == (at >= q + 1));
        }
    }
}

proof fn lemma_symbols_none(t: TreeView, i: int)
    requires
        tree_wf(t),
        0 <= i <= SYMBOL_COUNT,
    ensures
        symbols_from(t, TABLE_SIZE as int, i) =~= Multiset::empty(),
        symbols_cost_from(t, TABLE_SIZE as int, i) == 0,
    decreases SYMBOL_COUNT - i,
{
    if i < SYMBOL_COUNT {
        lemma_symbols_none(t, i + 1);
        assert(sym_ok(t, i));
    }
}

/// The leaves standing from `q` on are those of the symbols whose leaves are there.
proof fn lemma_symbols_standing(t: TreeView, q: int)
    requires
        tree_wf(t),
        0 <= q <= TABLE_SIZE,
    ensures
        standing_counts(t, 0, q) =~= symbols_from(t, q, 0),
        standing_cost(t, 0, q) == symbols_cost_from(t, q, 0),
    decreases TABLE_SIZE - q,
{
    if q == TABLE_SIZE {
        lemma_symbols_none(t, 0);
    } else {
        lemma_symbols_standing(t, q + 1);
        lemma_symbols_step(t, q, 0);
    }
}

/// The adaptive code tree is optimal: no code tree over the same counts codes them in fewer
/// bits than the tree's own codes do.
pub proof fn lemma_optimal(t: TreeView, other: CodeTree)
    requires
        tree_wf(t),
        leaves(other) == symbol_counts(t),
    ensures
        symbol_cost(t) <= code_cost(other, 0),
{
    lemma_standing_huffman(t, 0);
    lemma_symbols_standing(t, 0);
    lemma_huffman_lower_bound(other);
}

/// After every update the code tree is still optimal for its new counts.
pub proof fn lemma_update_optimal(t: TreeView, symbol: int, other: CodeTree)
    requires
        tree_wf(t),
        0 <= symbol < SYMBOL_COUNT,
        leaves(other) == symbol_counts(update_spec(t, symbol)),
    ensures
        symbol_cost(update_spec(t, symbol)) <= code_cost(other, 0),
{
    lemma_update_wf(t, symbol);
    lemma_optimal(update_spec(t, symbol), other);
}

} // verus!
