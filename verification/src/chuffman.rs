//! Canonical Huffman coding of symbol indices.

use vstd::prelude::*;
use vstd::arithmetic::power2::{pow2, lemma_pow2_unfold, lemma_pow2_pos, lemma2_to64};
use crate::chuffman::canonical::{lemma_code_range, lemma_max_length};
use crate::bits::{bit_width, bits_of, bits_value, ilog2, spells, lemma_bit_width, lemma_spells_split};
use crate::bitstream::BitReader;
use crate::chuffman::canonical::{canonical_code, codes_fit, decode_one, decode_tables_ok, matches_at,
    kraft_sum, length_count, max_code_length, max_length, next_symbol, no_symbol_end,
    valid_lengths};
use crate::chuffman::repeat_compaction::create_canonical_tables;

pub mod canonical;
pub mod repeat_compaction;

verus! {

/// A Huffman tree: leaves are symbol indices.
pub enum InnerNode {
    Leaf { index: usize },
    Internal { left: Box<InnerNode>, right: Box<InnerNode> },
}

/// A tree with the total frequency of its leaves.
pub struct OuterNode {
    pub freq: usize,
    pub inner: InnerNode,
}

/// How many leaves of `t` hold `x`.
pub open spec fn leaf_count(t: InnerNode, x: int) -> nat
    decreases t,
{
    match t {
        InnerNode::Leaf { index } => if index == x {
            1
        } else {
            0
        },
        InnerNode::Internal { left, right } => leaf_count(*left, x) + leaf_count(*right, x),
    }
}

/// The number of leaves of `t`.
pub open spec fn leaf_total(t: InnerNode) -> nat
    decreases t,
{
    match t {
        InnerNode::Leaf { .. } => 1,
        InnerNode::Internal { left, right } => leaf_total(*left) + leaf_total(*right),
    }
}

/// The depth of the deepest leaf.
pub open spec fn tree_height(t: InnerNode) -> nat
    decreases t,
{
    match t {
        InnerNode::Leaf { .. } => 0,
        InnerNode::Internal { left, right } => 1 + if tree_height(*left) < tree_height(*right) {
            tree_height(*right)
        } else {
            tree_height(*left)
        },
    }
}

/// The depth table that walking `t` from depth `d` writes over `out`: each leaf's
/// slot gets the leaf's depth (leaves further right written later).
pub open spec fn walk(t: InnerNode, d: nat, out: Seq<usize>) -> Seq<usize>
    decreases t,
{
    match t {
        InnerNode::Leaf { index } => out.update(index as int, d as usize),
        InnerNode::Internal { left, right } => walk(*right, d + 1, walk(*left, d + 1, out)),
    }
}

/// Kraft contribution of the leaves of `t` hanging at depth `d`, scaled by `2^m`.
pub open spec fn tree_kraft(t: InnerNode, d: nat, m: nat) -> nat
    decreases t,
{
    match t {
        InnerNode::Leaf { .. } => if 0 < d <= m {
            pow2((m - d) as nat)
        } else {
            0
        },
        InnerNode::Internal { left, right } => tree_kraft(*left, d + 1, m) + tree_kraft(
            *right,
            d + 1,
            m,
        ),
    }
}

/// The sum of the frequencies in a forest.
pub open spec fn forest_freq(f: Seq<OuterNode>) -> nat
    decreases f.len(),
{
    if f.len() == 0 {
        0
    } else {
        forest_freq(f.drop_last()) + f.last().freq as nat
    }
}

/// The number of leaves in a forest.
pub open spec fn forest_total(f: Seq<OuterNode>) -> nat
    decreases f.len(),
{
    if f.len() == 0 {
        0
    } else {
        forest_total(f.drop_last()) + leaf_total(f.last().inner)
    }
}

/// How many leaves of a forest hold `x`.
pub open spec fn forest_count(f: Seq<OuterNode>, x: int) -> nat
    decreases f.len(),
{
    if f.len() == 0 {
        0
    } else {
        forest_count(f.drop_last(), x) + leaf_count(f.last().inner, x)
    }
}

/// The first position of a least frequent tree.
pub open spec fn min_pos(f: Seq<OuterNode>) -> int
    decreases f.len(),
{
    if f.len() <= 1 {
        0
    } else {
        let p = min_pos(f.drop_last());
        if f.last().freq < f[p].freq {
            f.len() - 1
        } else {
            p
        }
    }
}

/// One Huffman step: take out a least frequent tree, then another, and put back
/// the tree joining them (the first on the left), with their total frequency.
pub open spec fn merge_step(f: Seq<OuterNode>) -> Seq<OuterNode> {
    let p0 = min_pos(f);
    let a = f[p0];
    let f1 = f.remove(p0);
    let p1 = min_pos(f1);
    let b = f1[p1];
    f1.remove(p1).push(
        OuterNode {
            freq: (a.freq + b.freq) as usize,
            inner: InnerNode::Internal { left: Box::new(a.inner), right: Box::new(b.inner) },
        },
    )
}

/// Repeats Huffman steps until at most one tree is left.
pub open spec fn build_forest(f: Seq<OuterNode>) -> Seq<OuterNode>
    decreases f.len(),
{
    if f.len() <= 1 {
        f
    } else {
        proof {
            lemma_merge_len(f);
        }
        build_forest(merge_step(f))
    }
}

/// One leaf per symbol, with its frequency.
pub open spec fn leaf_forest(freq: Seq<usize>) -> Seq<OuterNode> {
    Seq::new(
        freq.len(),
        |i: int| OuterNode { freq: freq[i], inner: InnerNode::Leaf { index: i as usize } },
    )
}

/// The Huffman tree of a frequency table (ties between equal frequencies go to
/// the tree that entered the forest first).
pub open spec fn huffman_tree(freq: Seq<usize>) -> InnerNode {
    build_forest(leaf_forest(freq))[0].inner
}

/// A table of `count` zero lengths.
pub open spec fn zero_table(count: nat) -> Seq<usize> {
    Seq::new(count, |i: int| 0usize)
}

/// The code length of every symbol `0..count`: its depth in the Huffman tree of
/// `freq`, or 0 for a symbol that is not a leaf.
pub closed spec fn huffman_lengths(freq: Seq<usize>, count: nat) -> Seq<usize> {
    walk(huffman_tree(freq), 0, zero_table(count))
}

/// The sum of a frequency table.
pub open spec fn freq_total(freq: Seq<usize>) -> nat
    decreases freq.len(),
{
    if freq.len() == 0 {
        0
    } else {
        freq_total(freq.drop_last()) + freq.last() as nat
    }
}

/// `min_pos` picks a least frequent tree.
pub proof fn lemma_min_pos(f: Seq<OuterNode>)
    requires
        f.len() >= 1,
    ensures
        0 <= min_pos(f) < f.len(),
        forall|i: int| 0 <= i < f.len() ==> f[min_pos(f)].freq <= #[trigger] f[i].freq,
    decreases f.len(),
{
    if f.len() > 1 {
        let g = f.drop_last();
        lemma_min_pos(g);
        assert forall|i: int| 0 <= i < f.len() implies f[min_pos(f)].freq <= #[trigger] f[i].freq by {
            if i < f.len() - 1 {
                assert(f[i] == g[i]);
            }
        }
    }
}

/// A Huffman step leaves one tree fewer.
pub proof fn lemma_merge_len(f: Seq<OuterNode>)
    requires
        f.len() >= 2,
    ensures
        merge_step(f).len() == f.len() - 1,
{
    lemma_min_pos(f);
    lemma_min_pos(f.remove(min_pos(f)));
}

proof fn lemma_forest_remove(f: Seq<OuterNode>, p: int)
    requires
        0 <= p < f.len(),
    ensures
        forest_freq(f) == forest_freq(f.remove(p)) + f[p].freq,
        forest_total(f) == forest_total(f.remove(p)) + leaf_total(f[p].inner),
        forall|x: int| #[trigger] forest_count(f, x) == forest_count(f.remove(p), x) + leaf_count(
            f[p].inner,
            x,
        ),
    decreases f.len(),
{
    if p == f.len() - 1 {
        assert(f.remove(p) =~= f.drop_last());
    } else {
        let g = f.drop_last();
        lemma_forest_remove(g, p);
        assert(f.remove(p).drop_last() =~= g.remove(p));
        assert(f.remove(p).last() == f.last());
        assert(g[p] == f[p]);
        assert forall|x: int| #[trigger] forest_count(f, x) == forest_count(f.remove(p), x)
            + leaf_count(f[p].inner, x) by {
            assert(forest_count(f, x) == forest_count(g, x) + leaf_count(f.last().inner, x));
            assert(forest_count(g, x) == forest_count(g.remove(p), x) + leaf_count(g[p].inner, x));
            assert(forest_count(f.remove(p), x) == forest_count(g.remove(p), x) + leaf_count(
                f.last().inner,
                x,
            ));
        }
    }
}

pub(crate) proof fn lemma_forest_push(f: Seq<OuterNode>, n: OuterNode)
    ensures
        forest_freq(f.push(n)) == forest_freq(f) + n.freq,
        forest_total(f.push(n)) == forest_total(f) + leaf_total(n.inner),
        forall|x: int| #[trigger] forest_count(f.push(n), x) == forest_count(f, x) + leaf_count(
            n.inner,
            x,
        ),
{
    assert(f.push(n).drop_last() =~= f);
}

/// A Huffman step keeps the total frequency and the leaves, and leaves one tree fewer.
proof fn lemma_merge_step(f: Seq<OuterNode>)
    requires
        f.len() >= 2,
        forest_freq(f) <= usize::MAX,
    ensures
        merge_step(f).len() == f.len() - 1,
        forest_freq(merge_step(f)) == forest_freq(f),
        forest_total(merge_step(f)) == forest_total(f),
        forall|x: int| #[trigger] forest_count(merge_step(f), x) == forest_count(f, x),
{
    let p0 = min_pos(f);
    lemma_min_pos(f);
    let a = f[p0];
    let f1 = f.remove(p0);
    lemma_forest_remove(f, p0);
    let p1 = min_pos(f1);
    lemma_min_pos(f1);
    let b = f1[p1];
    let f2 = f1.remove(p1);
    lemma_forest_remove(f1, p1);
    let n = OuterNode {
        freq: (a.freq + b.freq) as usize,
        inner: InnerNode::Internal { left: Box::new(a.inner), right: Box::new(b.inner) },
    };
    lemma_forest_push(f2, n);
    assert forall|x: int| #[trigger] forest_count(merge_step(f), x) == forest_count(f, x) by {
        assert(forest_count(f, x) == forest_count(f1, x) + leaf_count(a.inner, x));
        assert(forest_count(f1, x) == forest_count(f2, x) + leaf_count(b.inner, x));
    }
}

pub(crate) proof fn lemma_build_forest(f: Seq<OuterNode>)
    requires
        f.len() >= 1,
        forest_freq(f) <= usize::MAX,
    ensures
        build_forest(f).len() == 1,
        forest_freq(build_forest(f)) == forest_freq(f),
        forest_total(build_forest(f)) == forest_total(f),
        forall|x: int| #[trigger] forest_count(build_forest(f), x) == forest_count(f, x),
    decreases f.len(),
{
    if f.len() > 1 {
        lemma_merge_step(f);
        lemma_build_forest(merge_step(f));
    }
}

/// A lone tree's leaves are the forest's leaves.
pub(crate) proof fn lemma_single_forest(f: Seq<OuterNode>)
    requires
        f.len() == 1,
    ensures
        forest_total(f) == leaf_total(f[0].inner),
        forall|x: int| #[trigger] forest_count(f, x) == leaf_count(f[0].inner, x),
{
    assert(f.drop_last() =~= Seq::<OuterNode>::empty());
    assert(forest_total(f.drop_last()) == 0);
    assert forall|x: int| #[trigger] forest_count(f, x) == leaf_count(f[0].inner, x) by {
        assert(forest_count(f.drop_last(), x) == 0);
    }
}

/// The leaf forest has each symbol once, and the frequency table's total.
proof fn lemma_leaf_forest(freq: Seq<usize>)
    requires
        freq.len() <= usize::MAX,
    ensures
        forest_freq(leaf_forest(freq)) == freq_total(freq),
        forest_total(leaf_forest(freq)) == freq.len(),
        forall|x: int| #[trigger] forest_count(leaf_forest(freq), x) == (if 0 <= x < freq.len() {
            1nat
        } else {
            0nat
        }),
        leaf_forest(freq).len() == freq.len(),
    decreases freq.len(),
{
    if freq.len() > 0 {
        lemma_leaf_forest(freq.drop_last());
        assert(leaf_forest(freq).drop_last() =~= leaf_forest(freq.drop_last()));
        assert forall|x: int| #[trigger] forest_count(leaf_forest(freq), x) == (if 0 <= x
            < freq.len() {
            1nat
        } else {
            0nat
        }) by {
            assert(forest_count(leaf_forest(freq), x) == forest_count(
                leaf_forest(freq.drop_last()),
                x,
            ) + leaf_count(leaf_forest(freq).last().inner, x));
        }
    }
}

/// The Huffman tree holds every symbol of the table exactly once.
proof fn lemma_huffman_leaves(freq: Seq<usize>)
    requires
        1 <= freq.len() <= usize::MAX,
        freq_total(freq) <= usize::MAX,
    ensures
        leaf_total(huffman_tree(freq)) == freq.len(),
        forall|x: int| #[trigger] leaf_count(huffman_tree(freq), x) == (if 0 <= x < freq.len() {
            1nat
        } else {
            0nat
        }),
{
    lemma_leaf_forest(freq);
    lemma_build_forest(leaf_forest(freq));
    lemma_single_forest(build_forest(leaf_forest(freq)));
    assert forall|x: int| #[trigger] leaf_count(huffman_tree(freq), x) == (if 0 <= x
        < freq.len() {
        1nat
    } else {
        0nat
    }) by {
        assert(forest_count(build_forest(leaf_forest(freq)), x) == forest_count(
            leaf_forest(freq),
            x,
        ));
    }
}

/// All leaves of `t` name slots below `n`.
pub open spec fn leaves_below(t: InnerNode, n: nat) -> bool {
    forall|x: int| #[trigger] leaf_count(t, x) > 0 ==> 0 <= x < n
}

pub(crate) proof fn lemma_walk_len(t: InnerNode, d: nat, out: Seq<usize>)
    requires
        leaves_below(t, out.len()),
    ensures
        walk(t, d, out).len() == out.len(),
        forall|x: int|
            0 <= x < out.len() && leaf_count(t, x) == 0 ==> #[trigger] walk(t, d, out)[x] == out[x],
    decreases t,
{
    match t {
        InnerNode::Leaf { index } => {
            assert(leaf_count(t, index as int) > 0);
        },
        InnerNode::Internal { left, right } => {
            assert(leaves_below(*left, out.len())) by {
                assert forall|x: int| #[trigger] leaf_count(*left, x) > 0 implies 0 <= x
                    < out.len() by {
                    assert(leaf_count(t, x) > 0);
                }
            }
            lemma_walk_len(*left, d + 1, out);
            let mid = walk(*left, d + 1, out);
            assert(leaves_below(*right, mid.len())) by {
                assert forall|x: int| #[trigger] leaf_count(*right, x) > 0 implies 0 <= x
                    < mid.len() by {
                    assert(leaf_count(t, x) > 0);
                }
            }
            lemma_walk_len(*right, d + 1, mid);
        },
    }
}

/// A leaf's slot gets a depth between `d` and `d` plus the height.
proof fn lemma_walk_depth(t: InnerNode, d: nat, out: Seq<usize>, x: int)
    requires
        leaves_below(t, out.len()),
        leaf_count(t, x) > 0,
        d + tree_height(t) <= usize::MAX,
    ensures
        d <= walk(t, d, out)[x] <= d + tree_height(t),
    decreases t,
{
    lemma_walk_len(t, d, out);
    match t {
        InnerNode::Leaf { index } => {},
        InnerNode::Internal { left, right } => {
            assert(leaves_below(*left, out.len())) by {
                assert forall|y: int| #[trigger] leaf_count(*left, y) > 0 implies 0 <= y
                    < out.len() by {
                    assert(leaf_count(t, y) > 0);
                }
            }
            lemma_walk_len(*left, d + 1, out);
            let mid = walk(*left, d + 1, out);
            assert(leaves_below(*right, mid.len())) by {
                assert forall|y: int| #[trigger] leaf_count(*right, y) > 0 implies 0 <= y
                    < mid.len() by {
                    assert(leaf_count(t, y) > 0);
                }
            }
            lemma_walk_len(*right, d + 1, mid);
            if leaf_count(*right, x) > 0 {
                lemma_walk_depth(*right, d + 1, mid, x);
            } else {
                lemma_walk_depth(*left, d + 1, out, x);
            }
        },
    }
}

/// Kraft sum after changing one slot.
proof fn lemma_kraft_update(s: Seq<usize>, i: int, v: usize, m: nat)
    requires
        0 <= i < s.len(),
    ensures
        kraft_sum(s.update(i, v), m) + (if 0 < s[i] <= m {
            pow2((m - s[i]) as nat)
        } else {
            0nat
        }) == kraft_sum(s, m) + (if 0 < v <= m {
            pow2((m - v) as nat)
        } else {
            0nat
        }),
    decreases s.len(),
{
    if i < s.len() - 1 {
        lemma_kraft_update(s.drop_last(), i, v, m);
        assert(s.update(i, v).drop_last() =~= s.drop_last().update(i, v));
    } else {
        assert(s.update(i, v).drop_last() =~= s.drop_last());
    }
}

/// Walking a tree whose leaves are distinct and still 0 adds the tree's Kraft sum.
proof fn lemma_walk_kraft(t: InnerNode, d: nat, out: Seq<usize>, m: nat)
    requires
        leaves_below(t, out.len()),
        forall|x: int| #[trigger] leaf_count(t, x) <= 1,
        forall|x: int| leaf_count(t, x) > 0 ==> #[trigger] out[x] == 0,
        d >= 1,
        d + tree_height(t) <= usize::MAX,
    ensures
        kraft_sum(walk(t, d, out), m) == kraft_sum(out, m) + tree_kraft(t, d, m),
    decreases t,
{
    match t {
        InnerNode::Leaf { index } => {
            assert(leaf_count(t, index as int) > 0);
            lemma_kraft_update(out, index as int, d as usize, m);
        },
        InnerNode::Internal { left, right } => {
            assert(leaves_below(*left, out.len())) by {
                assert forall|y: int| #[trigger] leaf_count(*left, y) > 0 implies 0 <= y
                    < out.len() by {
                    assert(leaf_count(t, y) > 0);
                }
            }
            assert forall|y: int| #[trigger] leaf_count(*left, y) <= 1 by {
                assert(leaf_count(t, y) <= 1);
            }
            assert forall|y: int| leaf_count(*left, y) > 0 implies #[trigger] out[y] == 0 by {
                assert(leaf_count(t, y) > 0);
            }
            lemma_walk_kraft(*left, d + 1, out, m);
            lemma_walk_len(*left, d + 1, out);
            let mid = walk(*left, d + 1, out);
            assert(leaves_below(*right, mid.len())) by {
                assert forall|y: int| #[trigger] leaf_count(*right, y) > 0 implies 0 <= y
                    < mid.len() by {
                    assert(leaf_count(t, y) > 0);
                }
            }
            assert forall|y: int| #[trigger] leaf_count(*right, y) <= 1 by {
                assert(leaf_count(t, y) <= 1);
            }
            assert forall|y: int| leaf_count(*right, y) > 0 implies #[trigger] mid[y] == 0 by {
                assert(leaf_count(t, y) > 0);
                assert(leaf_count(t, y) <= 1);
                assert(leaf_count(*left, y) == 0);
            }
            lemma_walk_kraft(*right, d + 1, mid, m);
        },
    }
}

/// A tree hanging at depth `d` contributes at most `2^(m - d)`.
proof fn lemma_tree_kraft_bound(t: InnerNode, d: nat, m: nat)
    ensures
        d <= m ==> tree_kraft(t, d, m) <= pow2((m - d) as nat),
        d > m ==> tree_kraft(t, d, m) == 0,
    decreases t,
{
    match t {
        InnerNode::Leaf { .. } => {
            if d == 0 && d <= m {
                lemma_pow2_pos(m);
            }
        },
        InnerNode::Internal { left, right } => {
            lemma_tree_kraft_bound(*left, d + 1, m);
            lemma_tree_kraft_bound(*right, d + 1, m);
            if d < m {
                lemma_pow2_unfold((m - d) as nat);
            } else if d == m {
                lemma_pow2_pos(0);
            }
        },
    }
}

/// A tree of `k` leaves is at most `k - 1` deep.
pub(crate) proof fn lemma_height_total(t: InnerNode)
    ensures
        tree_height(t) + 1 <= leaf_total(t),
    decreases t,
{
    match t {
        InnerNode::Leaf { .. } => {},
        InnerNode::Internal { left, right } => {
            lemma_height_total(*left);
            lemma_height_total(*right);
        },
    }
}

/// The depth table of a tree with distinct leaves below `count` and at least two
/// of them: each leaf's slot holds a depth from 1 to the height, every other slot
/// 0, and the Kraft inequality holds.
pub(crate) proof fn lemma_tree_lengths(t: InnerNode, count: nat)
    requires
        leaves_below(t, count),
        forall|x: int| #[trigger] leaf_count(t, x) <= 1,
        2 <= leaf_total(t) <= usize::MAX,
    ensures
        walk(t, 0, zero_table(count)).len() == count,
        forall|i: int|
            0 <= i < count && leaf_count(t, i) > 0 ==> 1 <= #[trigger] walk(
                t,
                0,
                zero_table(count),
            )[i] < leaf_total(t),
        forall|i: int|
            0 <= i < count && leaf_count(t, i) == 0 ==> #[trigger] walk(
                t,
                0,
                zero_table(count),
            )[i] == 0,
        forall|m: nat| #[trigger] kraft_sum(walk(t, 0, zero_table(count)), m) <= pow2(
            m,
        ),
{
    let z = zero_table(count);
    lemma_height_total(t);
    lemma_walk_len(t, 0, z);
    match t {
        InnerNode::Leaf { index } => {},
        InnerNode::Internal { left, right } => {
            lemma_leaves_below_children(*left, *right, z.len());
            lemma_walk_len(*left, 1, z);
            let mid = walk(*left, 1, z);
            lemma_walk_len(*right, 1, mid);
            assert forall|i: int|
                0 <= i < count && leaf_count(t, i) > 0 implies 1 <= #[trigger] walk(t, 0, z)[i]
                < leaf_total(t) by {
                lemma_walk_depth(t, 0, z, i);
                if leaf_count(*right, i) > 0 {
                    lemma_walk_depth(*right, 1, mid, i);
                } else {
                    lemma_walk_depth(*left, 1, z, i);
                }
            }
            assert forall|y: int| #[trigger] leaf_count(*left, y) <= 1 by {
                assert(leaf_count(t, y) <= 1);
            }
            assert forall|y: int| leaf_count(*left, y) > 0 implies #[trigger] z[y] == 0 by {
                assert(leaf_count(t, y) > 0);
            }
            assert forall|y: int| #[trigger] leaf_count(*right, y) <= 1 by {
                assert(leaf_count(t, y) <= 1);
            }
            assert forall|y: int| leaf_count(*right, y) > 0 implies #[trigger] mid[y] == 0 by {
                assert(leaf_count(t, y) > 0);
                assert(leaf_count(*left, y) == 0);
            }
            assert forall|m: nat| #[trigger] kraft_sum(walk(t, 0, z), m) <= pow2(m) by {
                lemma_kraft_zeros(count, m);
                lemma_walk_kraft(*left, 1, z, m);
                lemma_walk_kraft(*right, 1, mid, m);
                lemma_tree_kraft_bound(*left, 1, m);
                lemma_tree_kraft_bound(*right, 1, m);
                if m >= 1 {
                    lemma_pow2_unfold(m);
                } else {
                    lemma_pow2_pos(0);
                }
            }
        },
    }
}

/// The code lengths of a Huffman tree: one per symbol of the frequency table, none
/// for the other slots, none longer than the table, and the Kraft inequality holds.
pub proof fn lemma_huffman_lengths(freq: Seq<usize>, count: nat)
    requires
        2 <= freq.len() <= count <= usize::MAX,
        freq_total(freq) <= usize::MAX,
    ensures
        huffman_lengths(freq, count).len() == count,
        forall|i: int|
            0 <= i < freq.len() ==> 1 <= #[trigger] huffman_lengths(freq, count)[i] < freq.len(),
        forall|i: int|
            freq.len() <= i < count ==> #[trigger] huffman_lengths(freq, count)[i] == 0,
        forall|m: nat| #[trigger] kraft_sum(huffman_lengths(freq, count), m) <= pow2(m),
{
    let t = huffman_tree(freq);
    lemma_huffman_leaves(freq);
    assert(leaves_below(t, count));
    lemma_tree_lengths(t, count);
    assert forall|i: int| 0 <= i < freq.len() implies 1 <= #[trigger] huffman_lengths(
        freq,
        count,
    )[i] < freq.len() by {
        assert(leaf_count(t, i) > 0);
    }
    assert forall|i: int| freq.len() <= i < count implies #[trigger] huffman_lengths(freq, count)[i]
        == 0 by {
        assert(leaf_count(t, i) == 0);
    }
}

pub(crate) proof fn lemma_leaves_below_children(left: InnerNode, right: InnerNode, n: nat)
    requires
        leaves_below(
            InnerNode::Internal { left: Box::new(left), right: Box::new(right) },
            n,
        ),
    ensures
        leaves_below(left, n),
        leaves_below(right, n),
{
    let t = InnerNode::Internal { left: Box::new(left), right: Box::new(right) };
    assert forall|y: int| #[trigger] leaf_count(left, y) > 0 implies 0 <= y < n by {
        assert(leaf_count(t, y) > 0);
    }
    assert forall|y: int| #[trigger] leaf_count(right, y) > 0 implies 0 <= y < n by {
        assert(leaf_count(t, y) > 0);
    }
}

pub(crate) proof fn lemma_kraft_zeros(count: nat, m: nat)
    ensures
        kraft_sum(zero_table(count), m) == 0,
    decreases count,
{
    if count > 0 {
        lemma_kraft_zeros((count - 1) as nat, m);
        assert(zero_table(count).drop_last() =~= zero_table((count - 1) as nat));
    }
}

/// The first position of a least frequent tree.
fn min_position(forest: &Vec<OuterNode>) -> (p: usize)
    requires
        forest@.len() >= 1,
    ensures
        p == min_pos(forest@),
{
    let mut best: usize = 0;
    let mut i: usize = 1;
    proof {
        assert(forest@.take(1).len() == 1);
    }
    while i < forest.len()
        invariant
            1 <= i <= forest@.len(),
            best == min_pos(forest@.take(i as int)),
            best < i,
        decreases forest@.len() - i,
    {
        proof {
            let t = forest@.take(i + 1);
            assert(t.drop_last() =~= forest@.take(i as int));
            lemma_min_pos(forest@.take(i as int));
        }
        if forest[i].freq < forest[best].freq {
            best = i;
        }
        i = i + 1;
    }
    proof {
        assert(forest@.take(forest@.len() as int) =~= forest@);
    }
    best
}

/// Builds the Huffman tree of a frequency table: starting from one leaf per
/// symbol, repeatedly joins two least frequent trees. Gives the final forest,
/// which holds the one tree (none for an empty table).
fn create_huffman_tree(freq_list: &[usize]) -> (forest: Vec<OuterNode>)
    requires
        freq_total(freq_list@) <= usize::MAX,
    ensures
        forest@ == build_forest(leaf_forest(freq_list@)),
{
    let mut forest: Vec<OuterNode> = Vec::new();
    let n = freq_list.len();
    let mut index: usize = 0;
    while index < n
        invariant
            n == freq_list@.len(),
            index <= n,
            forest@ == leaf_forest(freq_list@).take(index as int),
        decreases n - index,
    {
        forest.push(OuterNode { freq: freq_list[index], inner: InnerNode::Leaf { index } });
        proof {
            assert(forest@ =~= leaf_forest(freq_list@).take(index + 1));
        }
        index = index + 1;
    }
    proof {
        assert(leaf_forest(freq_list@).take(n as int) =~= leaf_forest(freq_list@));
        lemma_leaf_forest_freq(freq_list@);
    }
    merge_forest(forest)
}

/// Repeatedly joins two least frequent trees of the forest until at most one
/// tree is left.
pub(crate) fn merge_forest(forest: Vec<OuterNode>) -> (merged: Vec<OuterNode>)
    requires
        forest_freq(forest@) <= usize::MAX,
    ensures
        merged@ == build_forest(forest@),
{
    let mut forest = forest;
    let ghost start = forest@;
    while forest.len() > 1
        invariant
            build_forest(forest@) == build_forest(start),
            forest_freq(forest@) <= usize::MAX,
        decreases forest@.len(),
    {
        let ghost f = forest@;
        proof {
            lemma_merge_step(f);
            lemma_min_pos(f);
            lemma_forest_remove(f, min_pos(f));
            let f1 = f.remove(min_pos(f));
            lemma_min_pos(f1);
            lemma_forest_remove(f1, min_pos(f1));
        }
        let p0 = min_position(&forest);
        let a = forest.remove(p0);
        let p1 = min_position(&forest);
        let b = forest.remove(p1);
        forest.push(
            OuterNode {
                freq: a.freq + b.freq,
                inner: InnerNode::Internal { left: Box::new(a.inner), right: Box::new(b.inner) },
            },
        );
        proof {
            assert(forest@ =~= merge_step(f));
        }
    }
    forest
}

proof fn lemma_leaf_forest_freq(freq: Seq<usize>)
    ensures
        forest_freq(leaf_forest(freq)) == freq_total(freq),
    decreases freq.len(),
{
    if freq.len() > 0 {
        lemma_leaf_forest_freq(freq.drop_last());
        assert(leaf_forest(freq).drop_last() =~= leaf_forest(freq.drop_last()));
    }
}

/// Writes the depth of every leaf of `node`, hanging at `depth`, into its slot.
fn create_length_list_walk(node: &InnerNode, depth: usize, out: &mut Vec<usize>)
    requires
        leaves_below(*node, old(out)@.len()),
        depth + tree_height(*node) <= usize::MAX,
    ensures
        final(out)@ == walk(*node, depth as nat, old(out)@),
    decreases node,
{
    match node {
        InnerNode::Leaf { index } => {
            proof {
                assert(leaf_count(*node, *index as int) > 0);
            }
            out.set(*index, depth);
        },
        InnerNode::Internal { left, right } => {
            proof {
                lemma_leaves_below_children(**left, **right, out@.len());
                lemma_walk_len(**left, (depth + 1) as nat, out@);
            }
            create_length_list_walk(&**left, depth + 1, out);
            create_length_list_walk(&**right, depth + 1, out);
        },
    }
}

/// The code length of every symbol `0..operator_count`: its depth in the tree.
pub(crate) fn create_length_table(huffman_tree: Vec<OuterNode>, operator_count: usize) -> (length_table:
    Vec<usize>)
    requires
        huffman_tree@.len() >= 1,
        leaves_below(huffman_tree@.last().inner, operator_count as nat),
        tree_height(huffman_tree@.last().inner) <= usize::MAX,
    ensures
        length_table@ == walk(huffman_tree@.last().inner, 0, zero_table(operator_count as nat)),
{
    let mut length_table: Vec<usize> = vec![0usize; operator_count];
    proof {
        assert(length_table@ =~= zero_table(operator_count as nat));
    }
    let mut huffman_tree = huffman_tree;
    let root = huffman_tree.pop().unwrap().inner;
    create_length_list_walk(&root, 0, &mut length_table);
    length_table
}

/// The canonical code of every symbol (0 for a symbol without a code).
fn create_code_table(length_table: &[usize]) -> (codes: Vec<u32>)
    requires
        valid_lengths(length_table@),
        exists|i: int| 0 <= i < length_table@.len() && length_table@[i] != 0,
    ensures
        codes@.len() == length_table@.len(),
        forall|s: int|
            0 <= s < length_table@.len() ==> #[trigger] codes@[s] == (if length_table@[s] > 0 {
                canonical_code(length_table@, s)
            } else {
                0
            }),
{
    proof {
        canonical::lemma_valid_codes_fit(length_table@);
    }
    let tables = create_canonical_tables(length_table);
    tables.operator_index_code_table
}

/// The lengths of the listed symbols.
pub open spec fn listed_lengths(lens: Seq<usize>, list: Seq<usize>) -> Seq<usize> {
    Seq::new(list.len(), |k: int| lens[list[k] as int])
}

/// The code written for a symbol: its canonical code, or 0 for one without a code.
pub open spec fn code_or_zero(lens: Seq<usize>, s: int) -> nat {
    if lens[s] > 0 {
        canonical_code(lens, s)
    } else {
        0
    }
}

/// The Huffman tree of the table is the lone tree of the final forest.
proof fn lemma_final_forest(freq: Seq<usize>)
    requires
        1 <= freq.len() <= usize::MAX,
        freq_total(freq) <= usize::MAX,
    ensures
        build_forest(leaf_forest(freq)).len() == 1,
        build_forest(leaf_forest(freq)).last().inner == huffman_tree(freq),
{
    lemma_leaf_forest(freq);
    lemma_build_forest(leaf_forest(freq));
}

/// Encodes a list of symbols with the canonical Huffman code of their frequency
/// table. Gives each symbol's (code, length), the length table, the number of bits
/// of the largest symbol, the number of bits of the longest length used, and the
/// number of symbols with a code.
pub fn encode(
    index_list: &[usize],
    freq_table: &[usize],
    operator_count: usize,
) -> (res: (Vec<(u32, usize)>, Vec<usize>, u32, u32, usize))
    requires
        2 <= freq_table@.len() <= operator_count,
        freq_total(freq_table@) <= usize::MAX,
        forall|k: int| 0 <= k < index_list@.len() ==> #[trigger] index_list@[k] < operator_count,
        forall|i: int|
            0 <= i < operator_count ==> #[trigger] huffman_lengths(
                freq_table@,
                operator_count as nat,
            )[i] <= max_code_length(),
        exists|k: int| 0 <= k < index_list@.len() && #[trigger] index_list@[k] > 0,
        exists|k: int| 0 <= k < index_list@.len() && #[trigger] index_list@[k] < freq_table@.len(),
    ensures
        ({
            let lens = huffman_lengths(freq_table@, operator_count as nat);
            let list = index_list@;
            &&& res.1@ == lens
            &&& valid_lengths(lens)
            &&& res.0@ == symbol_pieces(lens, list)
            &&& res.2 == bit_width(max_length(list))
            &&& res.3 == bit_width(max_length(listed_lengths(lens, list)))
            &&& res.4 == freq_table@.len()
        }),
{
    let ghost lens = huffman_lengths(freq_table@, operator_count as nat);
    let ghost list = index_list@;
    let ghost nfreq = freq_table@.len();
    proof {
        lemma_final_forest(freq_table@);
        lemma_huffman_leaves(freq_table@);
        lemma_height_total(huffman_tree(freq_table@));
        lemma_huffman_lengths(freq_table@, operator_count as nat);
        assert(leaves_below(huffman_tree(freq_table@), operator_count as nat));
        reveal(huffman_lengths);
    }
    let huffman_tree = create_huffman_tree(freq_table);
    let length_table = create_length_table(huffman_tree, operator_count);
    proof {
        assert(length_table@ == lens);
        assert(valid_lengths(lens));
        assert(lens[0] != 0);
    }
    let code_table = create_code_table(length_table.as_slice());

    let mut encoded: Vec<(u32, usize)> = Vec::new();
    let mut max_index: usize = 0;
    let mut max_len: usize = 0;
    let mut index_count: usize = 0;

    let mut i: usize = 0;
    while i < operator_count
        invariant
            length_table@ == lens,
            lens.len() == operator_count,
            nfreq <= operator_count,
            forall|j: int| 0 <= j < nfreq ==> #[trigger] lens[j] >= 1,
            forall|j: int| nfreq <= j < operator_count ==> #[trigger] lens[j] == 0,
            i <= operator_count,
            index_count == if i < nfreq {
                i as nat
            } else {
                nfreq
            },
        decreases operator_count - i,
    {
        if length_table[i] != 0 {
            index_count = index_count + 1;
        }
        i = i + 1;
    }

    let n = index_list.len();
    let mut k: usize = 0;
    proof {
        assert(list.take(0) =~= Seq::<usize>::empty());
        assert(listed_lengths(lens, list.take(0)) =~= Seq::<usize>::empty());
    }
    while k < n
        invariant
            n == list.len(),
            list == index_list@,
            length_table@ == lens,
            lens.len() == operator_count,
            code_table@.len() == operator_count,
            forall|s: int| 0 <= s < operator_count ==> #[trigger] code_table@[s] == code_or_zero(
                lens,
                s,
            ),
            forall|j: int| 0 <= j < list.len() ==> #[trigger] list[j] < operator_count,
            k <= n,
            encoded@.len() == k,
            forall|j: int|
                0 <= j < k ==> #[trigger] encoded@[j] == (
                    code_or_zero(lens, list[j] as int) as u32,
                    lens[list[j] as int],
                ),
            max_index == max_length(list.take(k as int)),
            max_len == max_length(listed_lengths(lens, list.take(k as int))),
        decreases n - k,
    {
        let index = index_list[k];
        let length = length_table[index];
        let code = code_table[index];
        encoded.push((code, length));
        proof {
            crate::chuffman::canonical::lemma_take_drop_last(list, k + 1);
            assert(listed_lengths(lens, list.take(k + 1)).drop_last() =~= listed_lengths(
                lens,
                list.take(k as int),
            ));
        }
        if max_index < index {
            max_index = index;
        }
        if max_len < length {
            max_len = length;
        }
        k = k + 1;
    }
    proof {
        assert(list.take(n as int) =~= list);
        lemma_max_length(list);
        lemma_max_length(listed_lengths(lens, list));
        let w = choose|j: int| 0 <= j < list.len() && #[trigger] list[j] > 0;
        assert(list[w] <= max_index);
        let v = choose|j: int| 0 <= j < list.len() && #[trigger] list[j] < nfreq;
        assert(listed_lengths(lens, list)[v] == lens[list[v] as int]);
        assert(lens[list[v] as int] >= 1);
    }
    proof {
        assert(encoded@ =~= symbol_pieces(lens, list));
    }
    let index_log = ilog2(max_index);
    let length_log = ilog2(max_len);
    proof {
        lemma_bit_width(max_index as nat, (index_log + 1) as nat);
        lemma_bit_width(max_len as nat, (length_log + 1) as nat);
    }
    let index_width = index_log + 1;
    let length_width = length_log + 1;
    (encoded, length_table, index_width, length_width, index_count)
}

/// The tables that decoding reads, indexed by code length.
struct DecodeHelperTables {
    pub length_first_code_table: Vec<u32>,
    pub length_count_table: Vec<usize>,
    pub length_first_position_in_sorted_index_list_table: Vec<usize>,
    pub sorted_index_list: Vec<usize>,
}

/// Builds the decoding tables of the canonical code for a length table; the count
/// for length 0 is the number of symbols without a code.
fn create_decode_helper_tables(index_length_table: &[usize]) -> (t: DecodeHelperTables)
    requires
        codes_fit(index_length_table@),
        exists|i: int| 0 <= i < index_length_table@.len() && index_length_table@[i] != 0,
    ensures
        decode_tables_ok(
            index_length_table@,
            t.length_first_code_table@,
            t.length_count_table@,
            t.length_first_position_in_sorted_index_list_table@,
            t.sorted_index_list@,
        ),
        t.length_count_table@[0] == length_count(index_length_table@, 0),
        forall|l: int|
            1 <= l < t.length_count_table@.len() && #[trigger] t.length_count_table@[l] == 0 ==> {
                &&& t.length_first_code_table@[l] == 0
                &&& t.length_first_position_in_sorted_index_list_table@[l] == 0
            },
{
    let ghost lens = index_length_table@;
    let tables = create_canonical_tables(index_length_table);
    let mut length_count_table = tables.length_count_table;
    let n = index_length_table.len();
    let mut zeros: usize = 0;
    let mut i: usize = 0;
    proof {
        assert(lens.take(0) =~= Seq::<usize>::empty());
    }
    while i < n
        invariant
            n == lens.len(),
            lens == index_length_table@,
            i <= n,
            zeros == length_count(lens.take(i as int), 0),
            zeros <= i,
        decreases n - i,
    {
        proof {
            crate::chuffman::canonical::lemma_count_take_step(lens, i as int, 0);
        }
        if index_length_table[i] == 0 {
            zeros = zeros + 1;
        }
        i = i + 1;
    }
    proof {
        assert(lens.take(n as int) =~= lens);
    }
    length_count_table.set(0, zeros);
    DecodeHelperTables {
        length_first_code_table: tables.length_first_operator_index_code_table,
        length_count_table,
        length_first_position_in_sorted_index_list_table:
            tables.length_first_position_in_sorted_index_list_table,
        sorted_index_list: tables.sorted_index_list,
    }
}

/// What `decode` reads from position `pos`: symbols, while fewer than `limit` are
/// decoded and the bits there begin with a code; then one more bit when the limit is
/// reached, or up to `max_length + 1` bits when no code matches. Gives the symbols
/// and the position where reading stops.
pub open spec fn chuffman_decode(lens: Seq<usize>, bits: Seq<bool>, pos: int, limit: nat) -> (
    Seq<usize>,
    int,
)
    decreases limit,
{
    if limit == 0 {
        (Seq::empty(), if pos < bits.len() {
            pos + 1
        } else {
            pos
        })
    } else {
        match next_symbol(lens, bits, pos) {
            Some(s) => {
                let rest = chuffman_decode(lens, bits, pos + lens[s], (limit - 1) as nat);
                (seq![s as usize] + rest.0, rest.1)
            },
            None => (Seq::empty(), no_symbol_end(lens, bits, pos)),
        }
    }
}

/// Decodes up to `pixel_count` symbols of the canonical code for the length table.
pub fn decode(reader: &mut BitReader, index_length_table: &[usize], pixel_count: usize) -> (decoded:
    Vec<usize>)
    requires
        old(reader).wf(),
        codes_fit(index_length_table@),
        exists|i: int| 0 <= i < index_length_table@.len() && index_length_table@[i] != 0,
    ensures
        final(reader).wf(),
        final(reader).data() == old(reader).data(),
        decoded@ == chuffman_decode(
            index_length_table@,
            old(reader).bits(),
            old(reader).pos() as int,
            pixel_count as nat,
        ).0,
        final(reader).pos() == chuffman_decode(
            index_length_table@,
            old(reader).bits(),
            old(reader).pos() as int,
            pixel_count as nat,
        ).1,
{
    let ghost lens = index_length_table@;
    let ghost bits = reader.bits();
    let ghost start = reader.pos() as int;
    let mut decoded: Vec<usize> = Vec::new();
    let helper_tables = create_decode_helper_tables(index_length_table);
    let table_len = index_length_table.len();
    proof {
        assert(lens.len() == table_len);
    }
    loop
        invariant_except_break
            chuffman_decode(lens, bits, start, pixel_count as nat) == (
                decoded@ + chuffman_decode(
                    lens,
                    bits,
                    reader.pos() as int,
                    (pixel_count - decoded@.len()) as nat,
                ).0,
                chuffman_decode(
                    lens,
                    bits,
                    reader.pos() as int,
                    (pixel_count - decoded@.len()) as nat,
                ).1,
            ),
        invariant
            reader.wf(),
            reader.data() == old(reader).data(),
            reader.bits() == bits,
            bits == old(reader).bits(),
            start == old(reader).pos(),
            lens == index_length_table@,
            lens.len() <= usize::MAX,
            codes_fit(lens),
            decode_tables_ok(
                lens,
                helper_tables.length_first_code_table@,
                helper_tables.length_count_table@,
                helper_tables.length_first_position_in_sorted_index_list_table@,
                helper_tables.sorted_index_list@,
            ),
            decoded@.len() <= pixel_count,
        ensures
            reader.wf(),
            reader.data() == old(reader).data(),
            chuffman_decode(lens, bits, start, pixel_count as nat) == (
                decoded@,
                reader.pos() as int,
            ),
        decreases pixel_count - decoded@.len(),
    {
        let ghost p = reader.pos() as int;
        if decoded.len() >= pixel_count {
            proof {
                reader.lemma_pos_bound();
                assert(decoded@ + Seq::<usize>::empty() =~= decoded@);
            }
            let _ = reader.read_msb(1);
            break;
        }
        match decode_one(
            reader,
            helper_tables.length_first_code_table.as_slice(),
            helper_tables.length_count_table.as_slice(),
            helper_tables.length_first_position_in_sorted_index_list_table.as_slice(),
            helper_tables.sorted_index_list.as_slice(),
            Ghost(lens),
        ) {
            Some(index) => {
                let ghost old_decoded = decoded@;
                decoded.push(index);
                proof {
                    assert(decoded@ + chuffman_decode(
                        lens,
                        bits,
                        reader.pos() as int,
                        (pixel_count - decoded@.len()) as nat,
                    ).0 =~= old_decoded + (seq![index] + chuffman_decode(
                        lens,
                        bits,
                        reader.pos() as int,
                        (pixel_count - decoded@.len()) as nat,
                    ).0));
                }
            },
            None => {
                proof {
                    assert(decoded@ + Seq::<usize>::empty() =~= decoded@);
                }
                break;
            },
        }
    }
    decoded
}


/// The bits of a sequence of (code, length) pieces, each code written MSB first
/// in its length.
pub open spec fn pieces_bits(items: Seq<(u32, usize)>) -> Seq<bool>
    decreases items.len(),
{
    if items.len() == 0 {
        Seq::empty()
    } else {
        bits_of(items[0].0 as nat, items[0].1 as nat) + pieces_bits(items.drop_first())
    }
}

/// The bits of two sequences of pieces are the bits of each, one after the other.
pub proof fn lemma_pieces_bits_append(a: Seq<(u32, usize)>, b: Seq<(u32, usize)>)
    ensures
        pieces_bits(a + b) == pieces_bits(a) + pieces_bits(b),
    decreases a.len(),
{
    if a.len() == 0 {
        assert(a + b =~= b);
        assert(pieces_bits(a) + pieces_bits(b) =~= pieces_bits(b));
    } else {
        lemma_pieces_bits_append(a.drop_first(), b);
        assert((a + b).drop_first() =~= a.drop_first() + b);
        assert(pieces_bits(a + b) =~= pieces_bits(a) + pieces_bits(b));
    }
}
/// The code and length written for symbol `s`.
pub open spec fn piece(lens: Seq<usize>, s: int) -> (u32, usize) {
    (code_or_zero(lens, s) as u32, lens[s])
}

/// Bits that begin with the piece of a symbol that has a code read as that symbol.
pub proof fn lemma_piece_read(lens: Seq<usize>, bits: Seq<bool>, pos: int, s: int)
    requires
        valid_lengths(lens),
        0 <= s < lens.len(),
        lens[s] >= 1,
        spells(bits, pos, bits_of(piece(lens, s).0 as nat, piece(lens, s).1 as nat)),
    ensures
        next_symbol(lens, bits, pos) == Some(s),
{
    lemma_code_range(lens, s);
    lemma2_to64();
    assert(canonical_code(lens, s) < 0x1_0000_0000) by {
        if lens[s] < 32 {
            vstd::arithmetic::power2::lemma_pow2_strictly_increases(lens[s] as nat, 32);
        }
    }
    crate::bits::lemma_bits_of_len(piece(lens, s).0 as nat, piece(lens, s).1 as nat);
    crate::bits::lemma_bits_value_of(canonical_code(lens, s), lens[s] as nat);
    vstd::arithmetic::div_mod::lemma_small_mod(canonical_code(lens, s), pow2(lens[s] as nat));
    assert(matches_at(lens, bits, pos, s));
    let c = choose|t: int| matches_at(lens, bits, pos, t);
    canonical::lemma_match_unique(lens, bits, pos, c, s);
}


/// The piece of each listed symbol, in order.
pub open spec fn symbol_pieces(lens: Seq<usize>, list: Seq<usize>) -> Seq<(u32, usize)> {
    Seq::new(list.len(), |j: int| piece(lens, list[j] as int))
}

/// Bits that hold the pieces of `list`, each symbol having a code, read back as
/// `list` and then whatever the bits after them read as.
pub proof fn lemma_decode_pieces(lens: Seq<usize>, list: Seq<usize>, bits: Seq<bool>, pos: int, k: nat)
    requires
        valid_lengths(lens),
        forall|j: int| 0 <= j < list.len() ==> #[trigger] list[j] < lens.len(),
        forall|j: int| 0 <= j < list.len() ==> #[trigger] lens[list[j] as int] >= 1,
        spells(bits, pos, pieces_bits(symbol_pieces(lens, list))),
    ensures
        ({
            let rest = chuffman_decode(
                lens,
                bits,
                pos + pieces_bits(symbol_pieces(lens, list)).len(),
                k,
            );
            chuffman_decode(lens, bits, pos, list.len() + k) == (list + rest.0, rest.1)
        }),
    decreases list.len(),
{
    let all = symbol_pieces(lens, list);
    if list.len() == 0 {
        assert(list + chuffman_decode(lens, bits, pos, k).0 =~= chuffman_decode(
            lens,
            bits,
            pos,
            k,
        ).0);
    } else {
        let s = list[0] as int;
        let tail = list.drop_first();
        assert(all.drop_first() =~= symbol_pieces(lens, tail));
        let head = bits_of(piece(lens, s).0 as nat, piece(lens, s).1 as nat);
        lemma_spells_split(bits, pos, head, pieces_bits(symbol_pieces(lens, tail)));
        crate::bits::lemma_bits_of_len(piece(lens, s).0 as nat, piece(lens, s).1 as nat);
        lemma_piece_read(lens, bits, pos, s);
        lemma_decode_pieces(lens, tail, bits, pos + lens[s], k);
        let rest = chuffman_decode(lens, bits, pos + pieces_bits(all).len(), k);
        assert(seq![s as usize] + (tail + rest.0) =~= list + rest.0);
    }
}

/// Decoding what `encode` writes for a list of symbols of the frequency table,
/// followed by any bits, with room for `k` more symbols, gives back the list and
/// then what the bits after it read as.
pub proof fn lemma_chuffman_round_trip(
    list: Seq<usize>,
    freq: Seq<usize>,
    count: nat,
    tail: Seq<bool>,
    k: nat,
)
    requires
        2 <= freq.len() <= count <= usize::MAX,
        freq_total(freq) <= usize::MAX,
        forall|j: int| 0 <= j < list.len() ==> #[trigger] list[j] < freq.len(),
        forall|i: int| 0 <= i < count ==> #[trigger] huffman_lengths(freq, count)[i] <= max_code_length(),
    ensures
        ({
            let lens = huffman_lengths(freq, count);
            let written = pieces_bits(symbol_pieces(lens, list));
            let rest = chuffman_decode(lens, written + tail, written.len() as int, k);
            chuffman_decode(lens, written + tail, 0, list.len() + k) == (list + rest.0, rest.1)
        }),
{
    let lens = huffman_lengths(freq, count);
    let written = pieces_bits(symbol_pieces(lens, list));
    lemma_huffman_lengths(freq, count);
    assert(lens.len() == count);
    assert forall|j: int| 0 <= j < list.len() implies #[trigger] lens[list[j] as int] >= 1 by {
        assert(0 <= list[j] < freq.len());
    }
    assert(valid_lengths(lens));
    assert((written + tail).subrange(0, written.len() as int) =~= written);
    lemma_decode_pieces(lens, list, written + tail, 0, k);
}

/// What decoding yields: at most `limit` symbols, each a symbol of the table.
pub proof fn lemma_chuffman_decode_symbols(lens: Seq<usize>, bits: Seq<bool>, pos: int, limit: nat)
    ensures
        chuffman_decode(lens, bits, pos, limit).0.len() <= limit,
        forall|k: int|
            0 <= k < chuffman_decode(lens, bits, pos, limit).0.len() ==> #[trigger] chuffman_decode(
                lens,
                bits,
                pos,
                limit,
            ).0[k] < lens.len(),
    decreases limit,
{
    if limit > 0 {
        crate::chuffman::repeat_compaction::lemma_next_symbol(lens, bits, pos);
        match next_symbol(lens, bits, pos) {
            Some(s) => {
                lemma_chuffman_decode_symbols(lens, bits, pos + lens[s], (limit - 1) as nat);
                let rest = chuffman_decode(lens, bits, pos + lens[s], (limit - 1) as nat);
                let all = chuffman_decode(lens, bits, pos, limit).0;
                assert(all == seq![s as usize] + rest.0);
                assert forall|k: int| 0 <= k < all.len() implies #[trigger] all[k] < lens.len() by {
                    if k > 0 {
                        assert(all[k] == rest.0[k - 1]);
                    }
                }
            },
            None => {},
        }
    }
}

/// The code length of every symbol `0..count` for a frequency table, so that a
/// caller can test them before encoding.
pub fn huffman_length_table(freq: &[usize], count: usize) -> (lens: Vec<usize>)
    requires
        2 <= freq@.len() <= count,
        freq_total(freq@) <= usize::MAX,
    ensures
        lens@ == huffman_lengths(freq@, count as nat),
{
    proof {
        lemma_final_forest(freq@);
        lemma_huffman_leaves(freq@);
        lemma_height_total(huffman_tree(freq@));
        assert(leaves_below(huffman_tree(freq@), count as nat));
        reveal(huffman_lengths);
    }
    let forest = create_huffman_tree(freq);
    create_length_table(forest, count)
}

/// What `huffman_lengths` is: the depth table that walking the Huffman tree of
/// `freq` writes over `count` zeros.
pub proof fn lemma_huffman_lengths_def(freq: Seq<usize>, count: nat)
    ensures
        huffman_lengths(freq, count) == walk(huffman_tree(freq), 0, zero_table(count)),
{
}

/// Reading back with the sizes that were written gives what was written: where the
/// bits begin with the pieces of `items`, each of at most 32 bits, the `k`-th piece
/// starts where the earlier ones end, and its bits read as its value modulo
/// `2^size`, as `read_msb` gives them.
pub proof fn lemma_read_back_pieces(items: Seq<(u32, usize)>, bits: Seq<bool>, k: int)
    requires
        0 <= k < items.len(),
        forall|j: int| 0 <= j < items.len() ==> #[trigger] items[j].1 <= 32,
        pieces_bits(items).len() <= bits.len(),
        bits.take(pieces_bits(items).len() as int) == pieces_bits(items),
    ensures
        ({
            let p = pieces_bits(items.take(k)).len() as int;
            let n = items[k].1 as nat;
            &&& p + n <= bits.len()
            &&& (bits_value(bits.subrange(p, p + n)) % 0x1_0000_0000) as u32 as nat == items[k].0
                as nat % pow2(n)
        }),
{
    let pre = items.take(k);
    let rest = items.skip(k + 1);
    let item = items[k];
    assert(items =~= pre + (seq![item] + rest));
    lemma_pieces_bits_append(pre, seq![item] + rest);
    lemma_pieces_bits_append(seq![item], rest);
    assert(seq![item].drop_first() =~= Seq::<(u32, usize)>::empty());
    assert(pieces_bits(seq![item].drop_first()) =~= Seq::<bool>::empty());
    let head = bits_of(item.0 as nat, item.1 as nat);
    assert(pieces_bits(seq![item]) =~= head);
    crate::bits::lemma_bits_of_len(item.0 as nat, item.1 as nat);
    let written = pieces_bits(items);
    let p = pieces_bits(pre).len() as int;
    let n = item.1 as nat;
    assert(written =~= pieces_bits(pre) + (head + pieces_bits(rest)));
    assert(written.subrange(p, p + n) =~= head);
    crate::bitstream::lemma_read_back(written, bits, p, item.0, n);
}

/// Where, in the forest, the second tree that a Huffman step takes out stood.
pub open spec fn second_pos(f: Seq<OuterNode>) -> int {
    let p = min_pos(f);
    let p1 = min_pos(f.remove(p));
    if p1 < p {
        p1
    } else {
        p1 + 1
    }
}

/// Each Huffman step joins two trees of least frequency: it takes out the tree at
/// `p = min_pos(f)`, whose frequency is no larger than any other's, and the tree
/// at `q = second_pos(f)`, whose frequency is no larger than any other but `p`'s,
/// and puts back, last, the tree with `p` and `q` as children and their
/// frequencies added; the other trees stay, in order.
pub proof fn lemma_merge_joins_least(f: Seq<OuterNode>)
    requires
        f.len() >= 2,
    ensures
        ({
            let p = min_pos(f);
            let q = second_pos(f);
            &&& 0 <= p < f.len()
            &&& 0 <= q < f.len()
            &&& p != q
            &&& forall|k: int| 0 <= k < f.len() ==> f[p].freq <= #[trigger] f[k].freq
            &&& forall|k: int| 0 <= k < f.len() && k != p ==> f[q].freq <= #[trigger] f[k].freq
            &&& merge_step(f).len() == f.len() - 1
            &&& merge_step(f).last() == (OuterNode {
                freq: (f[p].freq + f[q].freq) as usize,
                inner: InnerNode::Internal {
                    left: Box::new(f[p].inner),
                    right: Box::new(f[q].inner),
                },
            })
            &&& merge_step(f).drop_last() == (if p < q {
                f.remove(q).remove(p)
            } else {
                f.remove(p).remove(q)
            })
        }),
{
    lemma_merge_len(f);
    let p = min_pos(f);
    lemma_min_pos(f);
    let f1 = f.remove(p);
    let p1 = min_pos(f1);
    lemma_min_pos(f1);
    let q = second_pos(f);
    assert(f1[p1] == f[q]);
    assert forall|k: int| 0 <= k < f.len() && k != p implies f[q].freq <= #[trigger] f[k].freq by {
        if k < p {
            assert(f1[k] == f[k]);
        } else {
            assert(f1[k - 1] == f[k]);
        }
    }
    if p < q {
        assert(f1.remove(p1) =~= f.remove(q).remove(p));
    } else {
        assert(f1.remove(p1) =~= f.remove(p).remove(q));
    }
    assert(merge_step(f).drop_last() =~= f1.remove(p1));
}

/// Building the forest repeats Huffman steps until one tree is left.
pub proof fn lemma_build_forest_step(f: Seq<OuterNode>)
    requires
        f.len() >= 2,
    ensures
        build_forest(f) == build_forest(merge_step(f)),
{
}

} // verus!
