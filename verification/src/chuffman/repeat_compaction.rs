//! Canonical Huffman coding with run compaction: a run of one symbol may be
//! written as a REPEAT symbol, the symbol, and a 4-bit count.

use vstd::prelude::*;
use vstd::arithmetic::power2::{pow2, lemma2_to64};
use crate::chuffman::{InnerNode, OuterNode, build_forest, code_or_zero, create_length_table,
    forest_count, forest_freq, forest_total, freq_total, leaf_count, leaf_total, leaves_below,
    merge_forest, piece, pieces_bits, tree_height, walk, zero_table, symbol_pieces, lemma_build_forest,
    lemma_forest_push, lemma_piece_read, lemma_pieces_bits_append, lemma_single_forest,
    lemma_tree_lengths};
use crate::bitstream::BitReader;
use crate::bits::{bits_of, bits_value, spells, lemma_spells_split};
use crate::chuffman::canonical::{canonical_code, canonical_order, canonical_order_upto,
    codes_fit, count_below, decode_one, decode_tables_ok, kraft_sum, length_count, level_symbols,
    matches_at, max_code_length, max_length, next_symbol, no_symbol_end, valid_lengths,
    lemma_codes_fit_bound, lemma_count_below_step, lemma_count_below_zero, lemma_count_take_step,
    lemma_kraft_step, lemma_max_length, lemma_take_drop_last, lemma_valid_codes_fit};

verus! {

/// The tables of a canonical code, indexed by symbol or by code length.
pub struct CanonicalTables {
    /// The code of each symbol.
    pub operator_index_code_table: Vec<u32>,
    /// The symbols with a code, ordered by (length, index).
    pub sorted_index_list: Vec<usize>,
    /// For each length `l`, the smallest code of length `l`.
    pub length_first_operator_index_code_table: Vec<u32>,
    /// For each length `l`, the number of codes of length `l`.
    pub length_count_table: Vec<usize>,
    /// For each length `l`, where the symbols of length `l` start in `sorted_index_list`.
    pub length_first_position_in_sorted_index_list_table: Vec<usize>,
}

impl CanonicalTables {
    /// The tables are those of the canonical code for `lens`.
    pub open spec fn describe(&self, lens: Seq<usize>) -> bool {
        let m = max_length(lens);
        &&& self.operator_index_code_table@.len() == lens.len()
        &&& forall|s: int|
            0 <= s < lens.len() ==> #[trigger] self.operator_index_code_table@[s] == (if lens[s]
                > 0 {
                canonical_code(lens, s)
            } else {
                0
            })
        &&& self.sorted_index_list@ == canonical_order(lens)
        &&& self.length_first_operator_index_code_table@.len() == m + 1
        &&& self.length_count_table@.len() == m + 1
        &&& self.length_first_position_in_sorted_index_list_table@.len() == m + 1
        &&& self.length_count_table@[0] == 0
        &&& forall|l: int|
            1 <= l <= m ==> #[trigger] self.length_count_table@[l] == length_count(lens, l as nat)
        &&& forall|l: int|
            1 <= l <= m && #[trigger] self.length_count_table@[l] > 0 ==> {
                &&& self.length_first_operator_index_code_table@[l] == 2 * kraft_sum(
                    lens,
                    (l - 1) as nat,
                )
                &&& self.length_first_position_in_sorted_index_list_table@[l] == count_below(
                    lens,
                    l as nat,
                )
            }
        &&& forall|l: int|
            0 <= l <= m && #[trigger] self.length_count_table@[l] == 0 ==> {
                &&& self.length_first_operator_index_code_table@[l] == 0
                &&& self.length_first_position_in_sorted_index_list_table@[l] == 0
            }
    }
}

/// The largest length in a table.
pub(crate) fn find_max_length(lens: &[usize]) -> (m: usize)
    ensures
        m == max_length(lens@),
{
    let n = lens.len();
    let mut m: usize = 0;
    let mut i: usize = 0;
    proof {
        assert(lens@.take(0) =~= Seq::<usize>::empty());
    }
    while i < n
        invariant
            n == lens@.len(),
            i <= n,
            m == max_length(lens@.take(i as int)),
        decreases n - i,
    {
        proof {
            lemma_take_drop_last(lens@, i + 1);
        }
        if m < lens[i] {
            m = lens[i];
        }
        i = i + 1;
    }
    proof {
        assert(lens@.take(n as int) =~= lens@);
    }
    m
}

/// Builds the canonical code tables for a table of code lengths.
pub(crate) fn create_canonical_tables(operator_index_length_table: &[usize]) -> (t:
    CanonicalTables)
    requires
        codes_fit(operator_index_length_table@),
    ensures
        t.describe(operator_index_length_table@),
{
    let ghost lens = operator_index_length_table@;
    let n = operator_index_length_table.len();
    let max_len = find_max_length(operator_index_length_table);
    proof {
        lemma_max_length(lens);
        if n > 0 {
            let j = choose|j: int| 0 <= j < lens.len() && lens[j] == max_length(lens);
            assert(lens[j] <= 32);
        }
    }
    let mut codes: Vec<u32> = vec![0u32; n];
    let mut sorted: Vec<usize> = Vec::new();
    let mut first_code: Vec<u32> = vec![0u32; max_len + 1];
    let mut counts: Vec<usize> = vec![0usize; max_len + 1];
    let mut first_pos: Vec<usize> = vec![0usize; max_len + 1];
    proof {
        lemma_count_below_zero(lens);
        crate::chuffman::canonical::lemma_kraft_zero(lens);
        assert(sorted@ =~= canonical_order_upto(lens, 0));
    }
    let mut next: u64 = 0;
    let mut l: usize = 1;
    while l <= max_len
        invariant
            n == lens.len(),
            lens == operator_index_length_table@,
            codes_fit(lens),
            max_len == max_length(lens),
            max_len <= 32,
            1 <= l <= max_len + 1,
            next == 2 * kraft_sum(lens, (l - 1) as nat),
            sorted@ == canonical_order_upto(lens, (l - 1) as nat),
            sorted@.len() == count_below(lens, l as nat),
            codes@.len() == n,
            forall|s: int|
                0 <= s < n ==> #[trigger] codes@[s] == (if 0 < lens[s] < l {
                    canonical_code(lens, s)
                } else {
                    0
                }),
            first_code@.len() == max_len + 1,
            counts@.len() == max_len + 1,
            first_pos@.len() == max_len + 1,
            counts@[0] == 0,
            forall|k: int|
                1 <= k < l ==> #[trigger] counts@[k] == length_count(lens, k as nat),
            forall|k: int| l <= k <= max_len ==> #[trigger] counts@[k] == 0,
            forall|k: int| l <= k <= max_len ==> #[trigger] first_code@[k] == 0,
            forall|k: int| l <= k <= max_len ==> #[trigger] first_pos@[k] == 0,
            forall|k: int|
                1 <= k < l && #[trigger] counts@[k] > 0 ==> {
                    &&& first_code@[k] == 2 * kraft_sum(lens, (k - 1) as nat)
                    &&& first_pos@[k] == count_below(lens, k as nat)
                },
            forall|k: int|
                0 <= k < l && #[trigger] counts@[k] == 0 ==> {
                    &&& first_code@[k] == 0
                    &&& first_pos@[k] == 0
                },
        decreases max_len + 1 - l,
    {
        let level_start = sorted.len();
        let level_code = next;
        proof {
            lemma_codes_fit_bound(lens, l as nat);
            lemma_kraft_step(lens, l as nat);
            assert(lens.take(0) =~= Seq::<usize>::empty());
        }
        let mut i: usize = 0;
        while i < n
            invariant
                n == lens.len(),
                lens == operator_index_length_table@,
                codes_fit(lens),
                1 <= l <= max_len,
                max_len <= 32,
                i <= n,
                level_code == 2 * kraft_sum(lens, (l - 1) as nat),
                kraft_sum(lens, l as nat) <= pow2(32),
                kraft_sum(lens, l as nat) == 2 * kraft_sum(lens, (l - 1) as nat) + length_count(
                    lens,
                    l as nat,
                ),
                next == level_code + length_count(lens.take(i as int), l as nat),
                level_start == count_below(lens, l as nat),
                sorted@ == canonical_order_upto(lens, (l - 1) as nat) + level_symbols(
                    lens,
                    l as nat,
                    i as nat,
                ),
                codes@.len() == n,
                forall|s: int|
                    0 <= s < n ==> #[trigger] codes@[s] == (if 0 < lens[s] < l || (lens[s] == l
                        && s < i) {
                        canonical_code(lens, s)
                    } else {
                        0
                    }),
            decreases n - i,
        {
            proof {
                lemma_count_take_step(lens, i as int, l as nat);
                crate::chuffman::canonical::lemma_count_take_le(lens, i + 1, l as nat);
                lemma2_to64();
            }
            if operator_index_length_table[i] == l {
                proof {
                    assert(next < pow2(32));
                }
                codes.set(i, next as u32);
                sorted.push(i);
                next = next + 1;
            }
            proof {
                assert(sorted@ =~= canonical_order_upto(lens, (l - 1) as nat) + level_symbols(
                    lens,
                    l as nat,
                    (i + 1) as nat,
                ));
            }
            i = i + 1;
        }
        proof {
            assert(lens.take(n as int) =~= lens);
            lemma_count_below_step(lens, l as nat);
            crate::chuffman::canonical::lemma_level_symbols(lens, l as nat, n as nat);
            assert(sorted@.len() - level_start == length_count(lens, l as nat));
            lemma2_to64();
            assert(next <= 0x1_0000_0000);
        }
        if sorted.len() > level_start {
            first_code.set(l, level_code as u32);
            first_pos.set(l, level_start);
            counts.set(l, sorted.len() - level_start);
        }
        next = next * 2;
        l = l + 1;
    }
    proof {
        assert forall|s: int| 0 <= s < n implies #[trigger] codes@[s] == (if lens[s] > 0 {
            canonical_code(lens, s)
        } else {
            0
        }) by {
            assert(lens[s] <= max_len);
        }
    }
    CanonicalTables {
        operator_index_code_table: codes,
        sorted_index_list: sorted,
        length_first_operator_index_code_table: first_code,
        length_count_table: counts,
        length_first_position_in_sorted_index_list_table: first_pos,
    }
}


/// How often `s` occurs in `list`.
pub open spec fn occurrences(list: Seq<usize>, s: int) -> nat
    decreases list.len(),
{
    if list.len() == 0 {
        0
    } else {
        occurrences(list.drop_last(), s) + if list.last() == s {
            1nat
        } else {
            0nat
        }
    }
}

/// The number of nonzero entries of a table.
pub open spec fn nonzero_count(freq: Seq<usize>) -> nat
    decreases freq.len(),
{
    if freq.len() == 0 {
        0
    } else {
        nonzero_count(freq.drop_last()) + if freq.last() > 0 {
            1nat
        } else {
            0nat
        }
    }
}

/// How often each symbol `0..=n` occurs in `list`.
pub open spec fn occurrence_table(list: Seq<usize>, n: nat) -> Seq<usize> {
    Seq::new(n + 1, |s: int| occurrences(list, s) as usize)
}

/// The frequency table that `encode` builds: the occurrences of each symbol, with
/// the REPEAT slot `n` set to the average of the nonzero occurrences, rounded down.
pub open spec fn repeat_freq_table(list: Seq<usize>, n: nat) -> Seq<usize> {
    let t = occurrence_table(list, n);
    t.update(n as int, (freq_total(t) / nonzero_count(t)) as usize)
}

/// One leaf for each symbol of nonzero frequency, in index order.
pub open spec fn positive_leaves(freq: Seq<usize>) -> Seq<OuterNode>
    decreases freq.len(),
{
    if freq.len() == 0 {
        Seq::empty()
    } else {
        let f = positive_leaves(freq.drop_last());
        if freq.last() > 0 {
            f.push(
                OuterNode {
                    freq: freq.last(),
                    inner: InnerNode::Leaf { index: (freq.len() - 1) as usize },
                },
            )
        } else {
            f
        }
    }
}

/// The Huffman tree that `encode` builds for `list` with `n` symbols.
pub open spec fn repeat_tree(list: Seq<usize>, n: nat) -> InnerNode {
    build_forest(positive_leaves(repeat_freq_table(list, n)))[0].inner
}

/// The code lengths that `encode` uses for `list` with `n` symbols: each symbol's
/// depth in the Huffman tree of `repeat_freq_table`, the REPEAT slot `n` included,
/// or 0 for a symbol that is not a leaf.
pub closed spec fn repeat_lengths(list: Seq<usize>, n: nat) -> Seq<usize> {
    walk(repeat_tree(list, n), 0, zero_table(n + 1))
}

proof fn lemma_occurrences_bound(list: Seq<usize>, s: int)
    ensures
        occurrences(list, s) <= list.len(),
    decreases list.len(),
{
    if list.len() > 0 {
        lemma_occurrences_bound(list.drop_last(), s);
    }
}

proof fn lemma_freq_total_update(t: Seq<usize>, i: int, v: usize)
    requires
        0 <= i < t.len(),
    ensures
        freq_total(t.update(i, v)) + t[i] == freq_total(t) + v,
    decreases t.len(),
{
    if i < t.len() - 1 {
        lemma_freq_total_update(t.drop_last(), i, v);
        assert(t.update(i, v).drop_last() =~= t.drop_last().update(i, v));
    } else {
        assert(t.update(i, v).drop_last() =~= t.drop_last());
    }
}

proof fn lemma_freq_total_prefix(t: Seq<usize>, i: int)
    requires
        0 <= i <= t.len(),
    ensures
        freq_total(t.take(i)) <= freq_total(t),
    decreases t.len(),
{
    if i < t.len() {
        lemma_freq_total_prefix(t.drop_last(), i);
        assert(t.drop_last().take(i) =~= t.take(i));
    } else {
        assert(t.take(i) =~= t);
    }
}

proof fn lemma_nonzero_total(t: Seq<usize>)
    ensures
        nonzero_count(t) <= freq_total(t),
        nonzero_count(t) <= t.len(),
        freq_total(t) > 0 ==> nonzero_count(t) > 0,
    decreases t.len(),
{
    if t.len() > 0 {
        lemma_nonzero_total(t.drop_last());
    }
}

/// Adding one symbol to the list adds one to its count.
proof fn lemma_occurrence_step(list: Seq<usize>, k: int, n: nat)
    requires
        0 <= k < list.len() <= usize::MAX,
        list[k] <= n,
    ensures
        occurrence_table(list.take(k + 1), n) == occurrence_table(list.take(k), n).update(
            list[k] as int,
            (occurrences(list.take(k), list[k] as int) + 1) as usize,
        ),
{
    let a = list.take(k + 1);
    assert(a.drop_last() =~= list.take(k));
    lemma_occurrences_bound(list.take(k), list[k] as int);
    assert forall|s: int| 0 <= s <= n implies #[trigger] occurrences(a, s) == occurrences(list.take(k), s) + (if s == list[k] { 1nat } else { 0nat }) by {}
    assert forall|s: int| 0 <= s <= n implies occurrences(a, s) <= usize::MAX by {
        lemma_occurrences_bound(a, s);
    }
    assert(occurrence_table(list.take(k + 1), n) =~= occurrence_table(list.take(k), n).update(
        list[k] as int,
        (occurrences(list.take(k), list[k] as int) + 1) as usize,
    ));
}

/// The positive-leaf forest has one leaf for each symbol of nonzero frequency, and
/// the table's total frequency.
proof fn lemma_positive_leaves(freq: Seq<usize>)
    requires
        freq.len() <= usize::MAX,
    ensures
        forest_freq(positive_leaves(freq)) == freq_total(freq),
        forest_total(positive_leaves(freq)) == nonzero_count(freq),
        positive_leaves(freq).len() == nonzero_count(freq),
        forall|x: int| #[trigger]
            forest_count(positive_leaves(freq), x) == (if 0 <= x < freq.len() && freq[x] > 0 {
                1nat
            } else {
                0nat
            }),
    decreases freq.len(),
{
    if freq.len() > 0 {
        let g = freq.drop_last();
        lemma_positive_leaves(g);
        let f = positive_leaves(g);
        if freq.last() > 0 {
            let leaf = OuterNode {
                freq: freq.last(),
                inner: InnerNode::Leaf { index: (freq.len() - 1) as usize },
            };
            lemma_forest_push(f, leaf);
        }
        assert forall|x: int| #[trigger]
            forest_count(positive_leaves(freq), x) == (if 0 <= x < freq.len() && freq[x] > 0 {
                1nat
            } else {
                0nat
            }) by {
            if 0 <= x < freq.len() - 1 {
                assert(g[x] == freq[x]);
            }
        }
    }
}

/// What the frequency table of `encode` holds: the occurrences add up to the
/// length of the list, and the REPEAT slot gets at least 1.
pub proof fn lemma_repeat_freq_table(list: Seq<usize>, n: nat)
    requires
        1 <= list.len() <= usize::MAX,
        n + 1 <= usize::MAX,
        forall|k: int| 0 <= k < list.len() ==> #[trigger] list[k] <= n,
    ensures
        freq_total(occurrence_table(list, n)) == list.len(),
        repeat_freq_table(list, n).len() == n + 1,
        repeat_freq_table(list, n)[n as int] >= 1,
        forall|s: int|
            0 <= s < n ==> #[trigger] repeat_freq_table(list, n)[s] == occurrences(list, s),
        freq_total(repeat_freq_table(list, n)) <= 2 * list.len(),
{
    let t = occurrence_table(list, n);
    assert forall|s: int| 0 <= s <= n implies #[trigger] t[s] == occurrences(list, s) by {
        lemma_occurrences_bound(list, s);
    }
    lemma_occurrence_table_total(list, n, list.len() as int);
    assert(list.take(list.len() as int) =~= list);
    lemma_nonzero_total(t);
    let avg = freq_total(t) / nonzero_count(t);
    assert(avg >= 1) by {
        vstd::arithmetic::div_mod::lemma_div_is_ordered(
            nonzero_count(t) as int,
            freq_total(t) as int,
            nonzero_count(t) as int,
        );
        vstd::arithmetic::div_mod::lemma_div_basics(nonzero_count(t) as int);
    }
    assert(avg <= freq_total(t)) by {
        vstd::arithmetic::div_mod::lemma_div_is_ordered_by_denominator(
            freq_total(t) as int,
            1,
            nonzero_count(t) as int,
        );
    }
    lemma_freq_total_update(t, n as int, avg as usize);
}

proof fn lemma_occurrence_table_total(list: Seq<usize>, n: nat, k: int)
    requires
        0 <= k <= list.len() <= usize::MAX,
        n + 1 <= usize::MAX,
        forall|j: int| 0 <= j < list.len() ==> #[trigger] list[j] <= n,
    ensures
        freq_total(occurrence_table(list.take(k), n)) == k,
    decreases k,
{
    if k == 0 {
        let t = occurrence_table(list.take(0), n);
        assert forall|s: int| 0 <= s < t.len() implies #[trigger] t[s] == 0 by {}
        lemma_zero_total(t);
    } else {
        lemma_occurrence_table_total(list, n, k - 1);
        lemma_occurrence_step(list, k - 1, n);
        let x = list[k - 1] as int;
        lemma_occurrences_bound(list.take(k - 1), x);
        lemma_freq_total_update(occurrence_table(list.take(k - 1), n), x, (occurrences(list.take(k - 1), x) + 1) as usize);
    }
}

proof fn lemma_zero_total(t: Seq<usize>)
    requires
        forall|s: int| 0 <= s < t.len() ==> #[trigger] t[s] == 0,
    ensures
        freq_total(t) == 0,
    decreases t.len(),
{
    if t.len() > 0 {
        lemma_zero_total(t.drop_last());
    }
}


proof fn lemma_occurs(list: Seq<usize>, k: int)
    requires
        0 <= k < list.len(),
    ensures
        occurrences(list, list[k] as int) >= 1,
    decreases list.len(),
{
    if k < list.len() - 1 {
        lemma_occurs(list.drop_last(), k);
    }
}

proof fn lemma_leaf_total_pos(t: InnerNode)
    ensures
        leaf_total(t) >= 1,
    decreases t,
{
    match t {
        InnerNode::Leaf { .. } => {},
        InnerNode::Internal { left, right } => {
            lemma_leaf_total_pos(*left);
            lemma_leaf_total_pos(*right);
        },
    }
}

/// The Huffman tree of `encode` has one leaf for each symbol of nonzero frequency.
pub(crate) proof fn lemma_repeat_tree(list: Seq<usize>, n: nat)
    requires
        1 <= list.len() <= usize::MAX,
        n + 1 <= usize::MAX,
        forall|k: int| 0 <= k < list.len() ==> #[trigger] list[k] <= n,
        freq_total(repeat_freq_table(list, n)) <= usize::MAX,
    ensures
        forest_freq(positive_leaves(repeat_freq_table(list, n))) <= usize::MAX,
        build_forest(positive_leaves(repeat_freq_table(list, n))).len() == 1,
        leaves_below(repeat_tree(list, n), n + 1),
        forall|x: int| #[trigger]
            leaf_count(repeat_tree(list, n), x) == (if 0 <= x <= n && repeat_freq_table(
                list,
                n,
            )[x] > 0 {
                1nat
            } else {
                0nat
            }),
        1 <= leaf_total(repeat_tree(list, n)) <= n + 1,
        tree_height(repeat_tree(list, n)) <= n,
{
    let freq = repeat_freq_table(list, n);
    lemma_repeat_freq_table(list, n);
    lemma_positive_leaves(freq);
    let f = positive_leaves(freq);
    assert(forest_count(f, n as int) == 1);
    if f.len() == 0 {
        assert(forest_count(f, n as int) == 0);
    }
    lemma_build_forest(f);
    let g = build_forest(f);
    lemma_single_forest(g);
    assert(g[0] == g.last());
    let t = repeat_tree(list, n);
    assert forall|x: int| #[trigger] leaf_count(t, x) > 0 implies 0 <= x < n + 1 by {
        assert(forest_count(g, x) == forest_count(f, x));
    }
    assert forall|x: int| #[trigger]
        leaf_count(t, x) == (if 0 <= x <= n && freq[x] > 0 {
            1nat
        } else {
            0nat
        }) by {
        assert(forest_count(g, x) == forest_count(f, x));
    }
    lemma_nonzero_total(freq);
    lemma_leaf_total_pos(t);
    crate::chuffman::lemma_height_total(t);
}

/// Two different leaves make at least two leaves.
proof fn lemma_two_leaves(t: InnerNode, a: int, b: int)
    requires
        a != b,
        leaf_count(t, a) > 0,
        leaf_count(t, b) > 0,
    ensures
        leaf_total(t) >= 2,
{
    match t {
        InnerNode::Leaf { .. } => {},
        InnerNode::Internal { left, right } => {
            lemma_leaf_total_pos(*left);
            lemma_leaf_total_pos(*right);
        },
    }
}

/// The code lengths of `encode`: one per symbol `0..=n`, the REPEAT slot included;
/// they meet the Kraft inequality; and when the list holds a symbol below `n`, each
/// symbol of the list and the REPEAT slot get a code.
pub proof fn lemma_repeat_lengths(list: Seq<usize>, n: nat)
    requires
        1 <= list.len() <= usize::MAX,
        n + 1 <= usize::MAX,
        forall|k: int| 0 <= k < list.len() ==> #[trigger] list[k] <= n,
        freq_total(repeat_freq_table(list, n)) <= usize::MAX,
    ensures
        repeat_lengths(list, n).len() == n + 1,
        forall|m: nat| #[trigger] kraft_sum(repeat_lengths(list, n), m) <= pow2(m),
        (exists|k: int| 0 <= k < list.len() && list[k] < n) ==> {
            &&& repeat_lengths(list, n)[n as int] >= 1
            &&& forall|k: int|
                0 <= k < list.len() ==> #[trigger] repeat_lengths(list, n)[list[k] as int] >= 1
        },
{
    let freq = repeat_freq_table(list, n);
    let t = repeat_tree(list, n);
    lemma_repeat_tree(list, n);
    lemma_repeat_freq_table(list, n);
    assert forall|x: int| #[trigger] leaf_count(t, x) <= 1 by {}
    if leaf_total(t) >= 2 {
        lemma_tree_lengths(t, n + 1);
        if exists|k: int| 0 <= k < list.len() && list[k] < n {
            assert forall|k: int| 0 <= k < list.len() implies #[trigger] repeat_lengths(
                list,
                n,
            )[list[k] as int] >= 1 by {
                lemma_occurs(list, k);
                if list[k] < n {
                    assert(freq[list[k] as int] == occurrences(list, list[k] as int));
                }
                assert(leaf_count(t, list[k] as int) > 0);
            }
            assert(leaf_count(t, n as int) > 0);
        }
    } else {
        match t {
            InnerNode::Leaf { index } => {
                crate::chuffman::lemma_walk_len(t, 0, zero_table(n + 1));
                assert(leaf_count(t, index as int) > 0);
                assert(walk(t, 0, zero_table(n + 1)) =~= zero_table(n + 1));
                assert forall|m: nat| #[trigger] kraft_sum(repeat_lengths(list, n), m) <= pow2(m) by {
                    crate::chuffman::lemma_kraft_zeros(n + 1, m);
                }
            },
            InnerNode::Internal { left, right } => {
                lemma_leaf_total_pos(*left);
                lemma_leaf_total_pos(*right);
            },
        }
        if exists|k: int| 0 <= k < list.len() && list[k] < n {
            let k = choose|k: int| 0 <= k < list.len() && list[k] < n;
            lemma_occurs(list, k);
            assert(freq[list[k] as int] == occurrences(list, list[k] as int));
            lemma_two_leaves(t, list[k] as int, n as int);
        }
    }
}

/// The longest run that one REPEAT can stand for.
pub open spec fn max_run() -> nat {
    15
}

/// Where the run that starts at `i` ends, scanning from `j`: it takes the symbols
/// equal to `list[i]` that follow, up to `max_run` symbols in all.
pub open spec fn run_end(list: Seq<usize>, i: int, j: int) -> int
    decreases list.len() - j,
{
    if 0 <= i < j < list.len() && j - i < max_run() && list[j] == list[i] {
        run_end(list, i, j + 1)
    } else {
        j
    }
}

/// A run is at least one symbol long, ends in the list, and holds equal symbols.
pub proof fn lemma_run_end(list: Seq<usize>, i: int, j: int)
    requires
        0 <= i < j <= list.len(),
        j - i <= max_run(),
        forall|k: int| i <= k < j ==> #[trigger] list[k] == list[i],
    ensures
        j <= run_end(list, i, j) <= list.len(),
        run_end(list, i, j) - i <= max_run(),
        forall|k: int| i <= k < run_end(list, i, j) ==> #[trigger] list[k] == list[i],
    decreases list.len() - j,
{
    if j < list.len() && j - i < max_run() && list[j] == list[i] {
        lemma_run_end(list, i, j + 1);
    }
}

/// What is written for a run of `c` copies of `s`: REPEAT, `s` and `c` in 4 bits
/// when that is shorter than `c` codes of `s`, else the `c` codes. REPEAT is the
/// last symbol of the length table.
pub open spec fn run_pieces(lens: Seq<usize>, s: int, c: nat) -> Seq<(u32, usize)> {
    let rep = lens.len() - 1;
    if lens[rep] + lens[s] + 4 < lens[s] * c {
        seq![piece(lens, rep), piece(lens, s), (c as u32, 4usize)]
    } else {
        Seq::new(c, |k: int| piece(lens, s))
    }
}

/// What is written for the runs of `list` from position `i` on.
pub open spec fn compact_from(lens: Seq<usize>, list: Seq<usize>, i: int) -> Seq<(u32, usize)>
    decreases list.len() - i,
{
    if 0 <= i < list.len() {
        let e = run_end(list, i, i + 1);
        proof {
            lemma_run_end(list, i, i + 1);
        }
        run_pieces(lens, list[i] as int, (e - i) as nat) + compact_from(lens, list, e)
    } else {
        Seq::empty()
    }
}

/// Appends what is written for a run of `count` copies of `s`.
fn flush(
    encoded: &mut Vec<(u32, usize)>,
    lengths: &[usize],
    codes: &[u32],
    s: usize,
    count: usize,
)
    requires
        lengths@.len() >= 1,
        s < lengths@.len(),
        codes@.len() == lengths@.len(),
        forall|x: int|
            0 <= x < lengths@.len() ==> #[trigger] codes@[x] as nat == code_or_zero(lengths@, x),
        forall|x: int| 0 <= x < lengths@.len() ==> #[trigger] lengths@[x] <= max_code_length(),
        1 <= count <= max_run(),
    ensures
        final(encoded)@ == old(encoded)@ + run_pieces(lengths@, s as int, count as nat),
{
    let ghost lens = lengths@;
    let repeat_index = lengths.len() - 1;
    let prev_length = lengths[s];
    let repeat_length = lengths[repeat_index];
    let repeat_cost = repeat_length + prev_length + 4;
    let prev_code = codes[s];
    proof {
        assert(prev_length * count <= 32 * 15) by (nonlinear_arith)
            requires
                prev_length <= 32,
                count <= 15,
        ;
    }
    if repeat_cost < prev_length * count {
        let repeat_code = codes[repeat_index];
        encoded.push((repeat_code, repeat_length));
        encoded.push((prev_code, prev_length));
        encoded.push((count as u32, 4));
        proof {
            assert(encoded@ =~= old(encoded)@ + run_pieces(lens, s as int, count as nat));
        }
    } else {
        let mut k: usize = 0;
        while k < count
            invariant
                k <= count,
                prev_code as nat == code_or_zero(lens, s as int),
                prev_length == lens[s as int],
                encoded@ == old(encoded)@ + Seq::new(k as nat, |j: int| piece(lens, s as int)),
            decreases count - k,
        {
            encoded.push((prev_code, prev_length));
            k = k + 1;
            proof {
                assert(encoded@ =~= old(encoded)@ + Seq::new(k as nat, |j: int| piece(lens, s as int)));
            }
        }
    }
}

/// Counts how often each symbol `0..=n` occurs in the list.
pub(crate) fn count_occurrences(list: &[usize], n: usize) -> (freq: Vec<usize>)
    requires
        n < usize::MAX,
        forall|k: int| 0 <= k < list@.len() ==> #[trigger] list@[k] <= n,
    ensures
        freq@ == occurrence_table(list@, n as nat),
{
    let mut freq: Vec<usize> = vec![0usize; n + 1];
    let len = list.len();
    proof {
        assert(freq@ =~= occurrence_table(list@.take(0), n as nat));
    }
    let mut k: usize = 0;
    while k < len
        invariant
            len == list@.len(),
            n < usize::MAX,
            forall|j: int| 0 <= j < list@.len() ==> #[trigger] list@[j] <= n,
            k <= len,
            freq@ == occurrence_table(list@.take(k as int), n as nat),
        decreases len - k,
    {
        let x = list[k];
        proof {
            lemma_occurrence_step(list@, k as int, n as nat);
            lemma_occurrences_bound(list@.take(k as int), x as int);
        }
        freq.set(x, freq[x] + 1);
        k = k + 1;
    }
    proof {
        assert(list@.take(len as int) =~= list@);
    }
    freq
}

/// Builds the Huffman forest of a frequency table from one leaf per symbol of
/// nonzero frequency: one tree, or none when every frequency is 0.
fn create_huffman_tree(freq: &[usize]) -> (forest: Vec<OuterNode>)
    requires
        freq_total(freq@) <= usize::MAX,
    ensures
        forest@ == build_forest(positive_leaves(freq@)),
{
    let mut forest: Vec<OuterNode> = Vec::new();
    let n = freq.len();
    let mut index: usize = 0;
    proof {
        assert(freq@.take(0) =~= Seq::<usize>::empty());
    }
    while index < n
        invariant
            n == freq@.len(),
            index <= n,
            forest@ == positive_leaves(freq@.take(index as int)),
        decreases n - index,
    {
        proof {
            assert(freq@.take(index + 1).drop_last() =~= freq@.take(index as int));
        }
        if freq[index] > 0 {
            forest.push(OuterNode { freq: freq[index], inner: InnerNode::Leaf { index } });
        }
        index = index + 1;
    }
    proof {
        assert(freq@.take(n as int) =~= freq@);
        lemma_positive_leaves(freq@);
    }
    merge_forest(forest)
}

/// The result of `encode`: the (code, length) pieces to write, and the code
/// length of every symbol, the REPEAT slot last.
pub struct EncodeResult {
    pub encoded: Vec<(u32, usize)>,
    pub operator_index_length_table: Vec<usize>,
}

/// Encodes a list of symbols `0..operator_count` with a canonical Huffman code
/// that has one more symbol, REPEAT (`operator_count`), whose frequency is the
/// average of the others. Each run of up to 15 equal symbols is written as
/// REPEAT, the symbol and the run length in 4 bits when that is shorter than the
/// run's codes.
pub fn encode(operator_index_list: &[usize], operator_count: usize) -> (res: EncodeResult)
    requires
        operator_index_list@.len() >= 1,
        operator_count < usize::MAX,
        forall|k: int|
            0 <= k < operator_index_list@.len() ==> #[trigger] operator_index_list@[k]
                <= operator_count,
        freq_total(repeat_freq_table(operator_index_list@, operator_count as nat)) <= usize::MAX,
        forall|i: int|
            0 <= i <= operator_count ==> #[trigger] repeat_lengths(
                operator_index_list@,
                operator_count as nat,
            )[i] <= max_code_length(),
    ensures
        res.operator_index_length_table@ == repeat_lengths(
            operator_index_list@,
            operator_count as nat,
        ),
        valid_lengths(res.operator_index_length_table@),
        res.encoded@ == compact_from(
            res.operator_index_length_table@,
            operator_index_list@,
            0,
        ),
{
    let ghost list = operator_index_list@;
    let ghost lens = repeat_lengths(list, operator_count as nat);
    proof {
        assert(list.len() == operator_index_list.len());
        lemma_repeat_lengths(list, operator_count as nat);
    }
    let length_table = repeat_length_table(operator_index_list, operator_count);
    proof {
        assert(valid_lengths(lens));
    }
    proof {
        lemma_valid_codes_fit(lens);
    }
    let canonical = create_canonical_tables(length_table.as_slice());
    let codes = canonical.operator_index_code_table;

    let mut encoded: Vec<(u32, usize)> = Vec::new();
    let len = operator_index_list.len();
    let mut i: usize = 0;
    proof {
        assert(compact_from(lens, list, 0) =~= encoded@ + compact_from(lens, list, 0));
    }
    while i < len
        invariant
            len == list.len(),
            list == operator_index_list@,
            length_table@ == lens,
            lens.len() == operator_count + 1,
            forall|k: int| 0 <= k < list.len() ==> #[trigger] list[k] <= operator_count,
            forall|x: int| 0 <= x < lens.len() ==> #[trigger] lens[x] <= max_code_length(),
            codes@.len() == lens.len(),
            forall|x: int| 0 <= x < lens.len() ==> #[trigger] codes@[x] as nat == code_or_zero(lens, x),
            i <= len,
            compact_from(lens, list, 0) == encoded@ + compact_from(lens, list, i as int),
        decreases len - i,
    {
        let s = operator_index_list[i];
        let mut j: usize = i + 1;
        proof {
            lemma_run_end(list, i as int, i + 1);
        }
        while j < len && j - i < 15 && operator_index_list[j] == s
            invariant
                len == list.len(),
                list == operator_index_list@,
                s == list[i as int],
                i < j <= len,
                j - i <= max_run(),
                forall|k: int| i <= k < j ==> #[trigger] list[k] == list[i as int],
                run_end(list, i as int, j as int) == run_end(list, i as int, i + 1),
            decreases len - j,
        {
            j = j + 1;
        }
        let ghost e = j as int;
        proof {
            assert(run_end(list, i as int, e) == e);
            assert(compact_from(lens, list, i as int) == run_pieces(lens, s as int, (e - i) as nat)
                + compact_from(lens, list, e));
        }
        let ghost before = encoded@;
        flush(&mut encoded, length_table.as_slice(), codes.as_slice(), s, j - i);
        proof {
            assert(before + (run_pieces(lens, s as int, (e - i) as nat) + compact_from(lens, list, e))
                =~= encoded@ + compact_from(lens, list, e));
        }
        i = j;
    }
    EncodeResult { encoded, operator_index_length_table: length_table }
}

/// A symbol read at `pos` has a code that fits in the bits from there.
pub proof fn lemma_next_symbol(lens: Seq<usize>, bits: Seq<bool>, pos: int)
    ensures
        next_symbol(lens, bits, pos) matches Some(s) ==> matches_at(lens, bits, pos, s),
{
}

/// What `decode` reads from `pos` while fewer than `want` symbols are decoded:
/// a symbol, or REPEAT (the last symbol of the table) followed by a symbol and a
/// 4-bit count of its copies. Gives the symbols and the position where reading
/// stops: at a position where no code starts, after `max_length + 1` bits or at
/// the end of the bits. `None` when the count after REPEAT and a symbol runs past
/// the end of the bits.
pub open spec fn repeat_decode(lens: Seq<usize>, bits: Seq<bool>, pos: int, want: int) -> Option<
    (Seq<usize>, int),
>
    decreases bits.len() - pos,
{
    if want <= 0 || pos < 0 || pos > bits.len() {
        Some((Seq::empty(), pos))
    } else {
        proof {
            lemma_next_symbol(lens, bits, pos);
        }
        match next_symbol(lens, bits, pos) {
            None => Some((Seq::empty(), no_symbol_end(lens, bits, pos))),
            Some(s) => {
                let p1 = pos + lens[s];
                if s == lens.len() - 1 {
                    proof {
                        lemma_next_symbol(lens, bits, p1);
                    }
                    match next_symbol(lens, bits, p1) {
                        None => Some((Seq::empty(), no_symbol_end(lens, bits, p1))),
                        Some(t) => {
                            let p2 = p1 + lens[t];
                            if p2 + 4 > bits.len() {
                                None
                            } else {
                                let c = bits_value(bits.subrange(p2, p2 + 4));
                                match repeat_decode(lens, bits, p2 + 4, want - c) {
                                    Some(rest) => Some(
                                        (Seq::new(c, |k: int| t as usize) + rest.0, rest.1),
                                    ),
                                    None => None,
                                }
                            }
                        },
                    }
                } else {
                    match repeat_decode(lens, bits, p1, want - 1) {
                        Some(rest) => Some((seq![s as usize] + rest.0, rest.1)),
                        None => None,
                    }
                }
            },
        }
    }
}

/// Decodes symbols, expanding each REPEAT, until at least `operator_index_count`
/// are decoded or no code is found.
#[verifier::rlimit(40)]
#[verifier::spinoff_prover]
pub fn decode(
    reader: &mut BitReader,
    operator_index_length_table: &[usize],
    operator_index_count: usize,
) -> (decoded: Vec<usize>)
    requires
        old(reader).wf(),
        codes_fit(operator_index_length_table@),
        operator_index_length_table@.len() >= 1,
        repeat_decode(
            operator_index_length_table@,
            old(reader).bits(),
            old(reader).pos() as int,
            operator_index_count as int,
        ) is Some,
    ensures
        final(reader).wf(),
        final(reader).data() == old(reader).data(),
        (decoded@, final(reader).pos() as int) == repeat_decode(
            operator_index_length_table@,
            old(reader).bits(),
            old(reader).pos() as int,
            operator_index_count as int,
        ).unwrap(),
{
    let ghost lens = operator_index_length_table@;
    let ghost bits = reader.bits();
    let ghost start = reader.pos() as int;
    let ghost total = repeat_decode(lens, bits, start, operator_index_count as int).unwrap();
    let canonical = create_canonical_tables(operator_index_length_table);
    let repeat_index = operator_index_length_table.len() - 1;
    proof {
        lemma_describe_decodes(&canonical, lens);
        assert(total.0 =~= Seq::<usize>::empty() + total.0);
    }
    let mut decoded: Vec<usize> = Vec::new();
    while decoded.len() < operator_index_count
        invariant_except_break
            repeat_decode(
                lens,
                bits,
                reader.pos() as int,
                operator_index_count - decoded@.len(),
            ) is Some,
            total.0 == decoded@ + repeat_decode(
                lens,
                bits,
                reader.pos() as int,
                operator_index_count - decoded@.len(),
            ).unwrap().0,
            total.1 == repeat_decode(
                lens,
                bits,
                reader.pos() as int,
                operator_index_count - decoded@.len(),
            ).unwrap().1,
        invariant
            reader.wf(),
            reader.data() == old(reader).data(),
            reader.bits() == bits,
            bits == old(reader).bits(),
            lens == operator_index_length_table@,
            lens.len() <= usize::MAX,
            repeat_index == lens.len() - 1,
            codes_fit(lens),
            decode_tables_ok(
                lens,
                canonical.length_first_operator_index_code_table@,
                canonical.length_count_table@,
                canonical.length_first_position_in_sorted_index_list_table@,
                canonical.sorted_index_list@,
            ),
        ensures
            reader.wf(),
            reader.data() == old(reader).data(),
            total == (decoded@, reader.pos() as int),
        decreases bits.len() - reader.pos(),
    {
        let ghost p = reader.pos() as int;
        let ghost want = operator_index_count - decoded@.len();
        let ghost before = decoded@;
        proof {
            reader.lemma_pos_bound();
            lemma_next_symbol(lens, bits, p);
        }
        let operator_index = match decode_one(
            reader,
            canonical.length_first_operator_index_code_table.as_slice(),
            canonical.length_count_table.as_slice(),
            canonical.length_first_position_in_sorted_index_list_table.as_slice(),
            canonical.sorted_index_list.as_slice(),
            Ghost(lens),
        ) {
            Some(x) => x,
            None => {
                proof {
                    assert(decoded@ + Seq::<usize>::empty() =~= decoded@);
                }
                break;
            },
        };
        if operator_index == repeat_index {
            let ghost p1 = reader.pos() as int;
            proof {
                lemma_next_symbol(lens, bits, p1);
            }
            let repeated = match decode_one(
                reader,
                canonical.length_first_operator_index_code_table.as_slice(),
                canonical.length_count_table.as_slice(),
                canonical.length_first_position_in_sorted_index_list_table.as_slice(),
                canonical.sorted_index_list.as_slice(),
                Ghost(lens),
            ) {
                Some(x) => x,
                None => {
                    proof {
                        assert(decoded@ + Seq::<usize>::empty() =~= decoded@);
                    }
                    break;
                },
            };
            let ghost p2 = reader.pos() as int;
            let code_count = reader.read_msb(4).unwrap();
            proof {
                crate::bits::lemma_bits_value_bound(bits.subrange(p2, p2 + 4));
                vstd::arithmetic::power2::lemma2_to64();
                assert(code_count == bits_value(bits.subrange(p2, p2 + 4)));
            }
            let ghost rest = repeat_decode(lens, bits, p2 + 4, want - code_count);
            let mut k: u32 = 0;
            while k < code_count
                invariant
                    k <= code_count,
                    decoded@ == before + Seq::new(k as nat, |j: int| repeated),
                decreases code_count - k,
            {
                decoded.push(repeated);
                k = k + 1;
                proof {
                    assert(decoded@ =~= before + Seq::new(k as nat, |j: int| repeated));
                }
            }
            proof {
                assert(before + (Seq::new(code_count as nat, |j: int| repeated) + rest.unwrap().0)
                    =~= decoded@ + rest.unwrap().0);
            }
        } else {
            decoded.push(operator_index);
            proof {
                let rest = repeat_decode(lens, bits, reader.pos() as int, want - 1);
                assert(before + (seq![operator_index] + rest.unwrap().0) =~= decoded@ + rest.unwrap().0);
            }
        }
    }
    decoded
}

/// The tables of a canonical code are decoding tables for it.
proof fn lemma_describe_decodes(t: &CanonicalTables, lens: Seq<usize>)
    requires
        t.describe(lens),
    ensures
        decode_tables_ok(
            lens,
            t.length_first_operator_index_code_table@,
            t.length_count_table@,
            t.length_first_position_in_sorted_index_list_table@,
            t.sorted_index_list@,
        ),
{
}

/// The lengths a decoder needs to read back the runs of `list`: a valid table
/// whose last slot, REPEAT, and every listed symbol have a code, and no listed
/// symbol is REPEAT.
pub open spec fn runs_readable(lens: Seq<usize>, list: Seq<usize>) -> bool {
    &&& valid_lengths(lens)
    &&& lens.len() >= 1
    &&& lens[lens.len() - 1] >= 1
    &&& forall|k: int| 0 <= k < list.len() ==> #[trigger] list[k] < lens.len() - 1
    &&& forall|k: int| 0 <= k < list.len() ==> #[trigger] lens[list[k] as int] >= 1
}

/// `k` codes of `s` followed by the runs from `e` read back as `k` copies of `s`
/// and the rest of the list.
proof fn lemma_decode_literals(
    lens: Seq<usize>,
    list: Seq<usize>,
    bits: Seq<bool>,
    s: int,
    k: nat,
    e: int,
    pos: int,
    end: int,
)
    requires
        valid_lengths(lens),
        0 <= s < lens.len() - 1,
        lens[s] >= 1,
        0 <= e <= list.len(),
        spells(bits, pos, pieces_bits(Seq::new(k, |j: int| piece(lens, s)))),
        repeat_decode(
            lens,
            bits,
            pos + pieces_bits(Seq::new(k, |j: int| piece(lens, s))).len(),
            list.len() - e,
        ) == Some((list.subrange(e, list.len() as int), end)),
    ensures
        repeat_decode(lens, bits, pos, list.len() - e + k) == Some(
            (Seq::new(k, |j: int| s as usize) + list.subrange(e, list.len() as int), end),
        ),
    decreases k,
{
    let lits = Seq::new(k, |j: int| piece(lens, s));
    if k == 0 {
        assert(Seq::new(k, |j: int| s as usize) + list.subrange(e, list.len() as int)
            =~= list.subrange(e, list.len() as int));
    } else {
        let head = bits_of(piece(lens, s).0 as nat, piece(lens, s).1 as nat);
        let rest = Seq::new((k - 1) as nat, |j: int| piece(lens, s));
        assert(lits.drop_first() =~= rest);
        lemma_spells_split(bits, pos, head, pieces_bits(rest));
        crate::bits::lemma_bits_of_len(piece(lens, s).0 as nat, piece(lens, s).1 as nat);
        lemma_piece_read(lens, bits, pos, s);
        lemma_decode_literals(lens, list, bits, s, (k - 1) as nat, e, pos + lens[s], end);
        assert(seq![s as usize] + (Seq::new((k - 1) as nat, |j: int| s as usize) + list.subrange(
            e,
            list.len() as int,
        )) =~= Seq::new(k, |j: int| s as usize) + list.subrange(e, list.len() as int));
    }
}

/// Bits that hold the pieces of the runs of `list` from `i` on read back as the
/// rest of the list, and reading stops right after those pieces.
proof fn lemma_decode_runs(lens: Seq<usize>, list: Seq<usize>, bits: Seq<bool>, i: int, pos: int)
    requires
        runs_readable(lens, list),
        0 <= i <= list.len(),
        spells(bits, pos, pieces_bits(compact_from(lens, list, i))),
    ensures
        repeat_decode(lens, bits, pos, list.len() - i) == Some(
            (
                list.subrange(i, list.len() as int),
                pos + pieces_bits(compact_from(lens, list, i)).len(),
            ),
        ),
    decreases list.len() - i,
{
    if i == list.len() {
        assert(list.subrange(i, list.len() as int) =~= Seq::<usize>::empty());
    } else {
        let e = run_end(list, i, i + 1);
        lemma_run_end(list, i, i + 1);
        let s = list[i] as int;
        let c = (e - i) as nat;
        let rp = run_pieces(lens, s, c);
        let rest = compact_from(lens, list, e);
        lemma_pieces_bits_append(rp, rest);
        lemma_spells_split(bits, pos, pieces_bits(rp), pieces_bits(rest));
        lemma_decode_runs(lens, list, bits, e, pos + pieces_bits(rp).len());
        let rep = lens.len() - 1;
        assert(Seq::new(c, |j: int| s as usize) + list.subrange(e, list.len() as int) =~= list.subrange(
            i,
            list.len() as int,
        ));
        if lens[rep] + lens[s] + 4 < lens[s] * c {
            lemma_decode_repeat(
                lens,
                list,
                bits,
                i,
                e,
                pos,
                pos + pieces_bits(rp).len() + pieces_bits(rest).len(),
            );
        } else {
            lemma_decode_literals(
                lens,
                list,
                bits,
                s,
                c,
                e,
                pos,
                pos + pieces_bits(rp).len() + pieces_bits(rest).len(),
            );
        }
    }
}

/// Decoding what `encode` writes for a list of symbols below `n`, followed by any
/// bits, gives back the list, and stops right after what was written.
pub proof fn lemma_repeat_round_trip(list: Seq<usize>, n: nat, tail: Seq<bool>)
    requires
        1 <= list.len() <= usize::MAX,
        n + 1 <= usize::MAX,
        forall|k: int| 0 <= k < list.len() ==> #[trigger] list[k] < n,
        freq_total(repeat_freq_table(list, n)) <= usize::MAX,
        forall|i: int| 0 <= i <= n ==> #[trigger] repeat_lengths(list, n)[i] <= max_code_length(),
    ensures
        ({
            let lens = repeat_lengths(list, n);
            let written = pieces_bits(compact_from(lens, list, 0));
            repeat_decode(lens, written + tail, 0, list.len() as int) == Some(
                (list, written.len() as int),
            )
        }),
{
    let lens = repeat_lengths(list, n);
    let written = pieces_bits(compact_from(lens, list, 0));
    lemma_repeat_lengths(list, n);
    assert(list[0] < n);
    let bits = written + tail;
    assert(bits.subrange(0, written.len() as int) =~= written);
    lemma_decode_runs(lens, list, bits, 0, 0);
    assert(list.subrange(0, list.len() as int) =~= list);
}

/// REPEAT, a symbol and a count, followed by the runs from `e`, read back as the
/// run and the rest of the list.
proof fn lemma_decode_repeat(
    lens: Seq<usize>,
    list: Seq<usize>,
    bits: Seq<bool>,
    i: int,
    e: int,
    pos: int,
    end: int,
)
    requires
        runs_readable(lens, list),
        0 <= i < e <= list.len(),
        e - i <= max_run(),
        forall|k: int| i <= k < e ==> #[trigger] list[k] == list[i],
        lens[lens.len() - 1] + lens[list[i] as int] + 4 < lens[list[i] as int] * (e - i),
        spells(bits, pos, pieces_bits(run_pieces(lens, list[i] as int, (e - i) as nat))),
        repeat_decode(
            lens,
            bits,
            pos + pieces_bits(run_pieces(lens, list[i] as int, (e - i) as nat)).len(),
            list.len() - e,
        ) == Some((list.subrange(e, list.len() as int), end)),
    ensures
        repeat_decode(lens, bits, pos, list.len() - i) == Some(
            (list.subrange(i, list.len() as int), end),
        ),
{
    let s = list[i] as int;
    let c = (e - i) as nat;
    let rep = lens.len() - 1;
    let rp = run_pieces(lens, s, c);
    let b0 = bits_of(piece(lens, rep).0 as nat, piece(lens, rep).1 as nat);
    let b1 = bits_of(piece(lens, s).0 as nat, piece(lens, s).1 as nat);
    let b2 = bits_of(c as u32 as nat, 4);
    let r1 = rp.drop_first();
    let r2 = r1.drop_first();
    assert(r2.drop_first() =~= Seq::<(u32, usize)>::empty());
    assert(pieces_bits(r2.drop_first()) =~= Seq::<bool>::empty());
    assert(r2[0] == (c as u32, 4usize));
    assert(pieces_bits(r2) =~= b2);
    assert(pieces_bits(r1) == b1 + pieces_bits(r2));
    assert(pieces_bits(rp) == b0 + pieces_bits(r1));
    lemma_spells_split(bits, pos, b0, b1 + b2);
    crate::bits::lemma_bits_of_len(piece(lens, rep).0 as nat, piece(lens, rep).1 as nat);
    lemma_spells_split(bits, pos + lens[rep], b1, b2);
    crate::bits::lemma_bits_of_len(piece(lens, s).0 as nat, piece(lens, s).1 as nat);
    crate::bits::lemma_bits_of_len(c as u32 as nat, 4);
    assert(list[0] < rep);
    lemma_piece_read(lens, bits, pos, rep);
    lemma_piece_read(lens, bits, pos + lens[rep], s);
    let p2 = pos + lens[rep] + lens[s];
    crate::bits::lemma_bits_value_of(c as u32 as nat, 4);
    lemma2_to64();
    assert(bits_value(bits.subrange(p2, p2 + 4)) == c);
    assert(Seq::new(c, |j: int| s as usize) + list.subrange(e, list.len() as int) =~= list.subrange(
        i,
        list.len() as int,
    ));
}

/// The frequency table of `encode`: the occurrences of each symbol `0..=n`, with
/// the REPEAT slot `n` set to the average of the nonzero occurrences.
fn build_repeat_freq_table(operator_index_list: &[usize], operator_count: usize) -> (freq: Vec<
    usize,
>)
    requires
        operator_index_list@.len() >= 1,
        operator_count < usize::MAX,
        forall|k: int|
            0 <= k < operator_index_list@.len() ==> #[trigger] operator_index_list@[k]
                <= operator_count,
    ensures
        freq@ == repeat_freq_table(operator_index_list@, operator_count as nat),
{
    let ghost list = operator_index_list@;
    let repeat_index = operator_count;
    let mut freq = count_occurrences(operator_index_list, operator_count);
    proof {
        assert(list.len() == operator_index_list.len());
        lemma_repeat_freq_table(list, operator_count as nat);
        lemma_nonzero_total(freq@);
    }
    let mut sum: usize = 0;
    let mut nonzero: usize = 0;
    let mut i: usize = 0;
    proof {
        assert(freq@.take(0) =~= Seq::<usize>::empty());
    }
    while i < freq.len()
        invariant
            freq@ == occurrence_table(list, operator_count as nat),
            freq_total(freq@) == list.len(),
            list.len() <= usize::MAX,
            i <= freq@.len(),
            sum == freq_total(freq@.take(i as int)),
            nonzero == nonzero_count(freq@.take(i as int)),
            nonzero <= i,
        decreases freq@.len() - i,
    {
        proof {
            assert(freq@.take(i + 1).drop_last() =~= freq@.take(i as int));
            lemma_freq_total_prefix(freq@, i + 1);
        }
        if freq[i] > 0 {
            sum = sum + freq[i];
            nonzero = nonzero + 1;
        }
        i = i + 1;
    }
    proof {
        assert(freq@.take(freq@.len() as int) =~= freq@);
    }
    let average = sum / nonzero;
    freq.set(repeat_index, average);
    proof {
        assert(freq@ == repeat_freq_table(list, operator_count as nat));
    }
    freq
}

/// The code length of every symbol `0..=operator_count` that `encode` uses for the
/// list (the REPEAT slot last), so that a caller can test them before encoding.
pub fn repeat_length_table(operator_index_list: &[usize], operator_count: usize) -> (lens: Vec<
    usize,
>)
    requires
        operator_index_list@.len() >= 1,
        operator_count < usize::MAX,
        forall|k: int|
            0 <= k < operator_index_list@.len() ==> #[trigger] operator_index_list@[k]
                <= operator_count,
        freq_total(repeat_freq_table(operator_index_list@, operator_count as nat)) <= usize::MAX,
    ensures
        lens@ == repeat_lengths(operator_index_list@, operator_count as nat),
{
    let ghost list = operator_index_list@;
    proof {
        assert(list.len() == operator_index_list.len());
        lemma_repeat_tree(list, operator_count as nat);
    }
    let freq = build_repeat_freq_table(operator_index_list, operator_count);
    let forest = create_huffman_tree(freq.as_slice());
    let length_table = create_length_table(forest, operator_count + 1);
    proof {
        reveal(repeat_lengths);
    }
    length_table
}

/// What `repeat_lengths` is: the depth table that walking the Huffman tree of
/// `repeat_freq_table` writes over `n + 1` zeros.
pub proof fn lemma_repeat_lengths_def(list: Seq<usize>, n: nat)
    ensures
        repeat_lengths(list, n) == walk(repeat_tree(list, n), 0, zero_table(n + 1)),
{
}

/// Pieces that are all alike take their count times the length of one in bits.
proof fn lemma_pieces_bits_copies(items: Seq<(u32, usize)>, p: (u32, usize))
    requires
        forall|k: int| 0 <= k < items.len() ==> #[trigger] items[k] == p,
    ensures
        pieces_bits(items).len() == items.len() * p.1,
    decreases items.len(),
{
    crate::bits::lemma_bits_of_len(p.0 as nat, p.1 as nat);
    if items.len() > 0 {
        let rest = items.drop_first();
        assert forall|k: int| 0 <= k < rest.len() implies #[trigger] rest[k] == p by {
            assert(rest[k] == items[k + 1]);
        }
        lemma_pieces_bits_copies(rest, p);
        assert(items[0] == p);
        assert((items.len() - 1) * p.1 + p.1 == items.len() * p.1) by (nonlinear_arith);
    }
}

/// A run of `c` copies of `s` is written the shorter way: as REPEAT, the symbol
/// and a 4-bit count when those take strictly fewer bits than the run's `c` codes,
/// else as the codes. So a run never takes more bits than its codes.
pub proof fn lemma_run_pieces_shortest(lens: Seq<usize>, s: int, c: nat)
    requires
        lens.len() >= 1,
        0 <= s < lens.len(),
    ensures
        ({
            let codes = c * lens[s];
            let with_repeat = lens[lens.len() - 1] + lens[s] + 4;
            &&& pieces_bits(run_pieces(lens, s, c)).len() == if with_repeat < codes {
                with_repeat
            } else {
                codes
            }
            &&& pieces_bits(run_pieces(lens, s, c)).len() <= codes
        }),
{
    let rep = lens.len() - 1;
    if lens[rep] + lens[s] + 4 < lens[s] * c {
        let rp = run_pieces(lens, s, c);
        let r1 = rp.drop_first();
        let r2 = r1.drop_first();
        assert(r2.drop_first() =~= Seq::<(u32, usize)>::empty());
        assert(pieces_bits(r2.drop_first()) =~= Seq::<bool>::empty());
        crate::bits::lemma_bits_of_len(piece(lens, rep).0 as nat, piece(lens, rep).1 as nat);
        crate::bits::lemma_bits_of_len(piece(lens, s).0 as nat, piece(lens, s).1 as nat);
        crate::bits::lemma_bits_of_len(c as u32 as nat, 4);
        let b0 = bits_of(piece(lens, rep).0 as nat, piece(lens, rep).1 as nat);
        let b1 = bits_of(piece(lens, s).0 as nat, piece(lens, s).1 as nat);
        let b2 = bits_of(c as u32 as nat, 4);
        assert(r2[0] == (c as u32, 4usize));
        assert(pieces_bits(r2) =~= b2);
        assert(pieces_bits(r1) == b1 + pieces_bits(r2));
        assert(pieces_bits(rp) == b0 + pieces_bits(r1));
        assert(pieces_bits(rp).len() == lens[rep] + lens[s] + 4);
        assert(c * lens[s] == lens[s] * c) by (nonlinear_arith);
    } else {
        lemma_pieces_bits_copies(run_pieces(lens, s, c), piece(lens, s));
        assert(c * lens[s] == lens[s] * c) by (nonlinear_arith);
    }
}

/// Run compaction never costs bits: what `encode` writes for the runs of `list`
/// from position `i` on takes no more bits than writing each of those symbols'
/// codes one by one.
pub proof fn lemma_compact_no_longer(lens: Seq<usize>, list: Seq<usize>, i: int)
    requires
        lens.len() >= 1,
        forall|k: int| 0 <= k < list.len() ==> #[trigger] list[k] < lens.len(),
        0 <= i <= list.len(),
    ensures
        pieces_bits(compact_from(lens, list, i)).len() <= pieces_bits(
            symbol_pieces(lens, list.subrange(i, list.len() as int)),
        ).len(),
    decreases list.len() - i,
{
    if i == list.len() {
        assert(symbol_pieces(lens, list.subrange(i, list.len() as int)) =~= Seq::<
            (u32, usize),
        >::empty());
    } else {
        let e = run_end(list, i, i + 1);
        lemma_run_end(list, i, i + 1);
        let s = list[i] as int;
        let c = (e - i) as nat;
        lemma_compact_no_longer(lens, list, e);
        lemma_run_pieces_shortest(lens, s, c);
        lemma_pieces_bits_append(run_pieces(lens, s, c), compact_from(lens, list, e));
        let run = symbol_pieces(lens, list.subrange(i, e));
        let after = symbol_pieces(lens, list.subrange(e, list.len() as int));
        assert(symbol_pieces(lens, list.subrange(i, list.len() as int)) =~= run + after);
        lemma_pieces_bits_append(run, after);
        assert forall|k: int| 0 <= k < run.len() implies #[trigger] run[k] == piece(lens, s) by {
            assert(list[i + k] == list[i]);
        }
        lemma_pieces_bits_copies(run, piece(lens, s));
    }
}
} // verus!
