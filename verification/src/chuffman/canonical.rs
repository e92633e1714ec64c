//! The mathematics of canonical prefix codes: from a table of code lengths,
//! the code of each symbol and the order in which the codes are laid out.
//!
//! Symbols are ordered by (length, index); the first symbol gets code 0, and
//! each next code is the previous one plus one, shifted left by the growth in
//! length. Equivalently, the code of a symbol `s` of length `L` is
//! `2 * K(L - 1) + (the number of earlier symbols of length L)`, where
//! `K(l) = sum over symbols t with 0 < len(t) <= l of 2^(l - len(t))`.

use vstd::prelude::*;
use vstd::arithmetic::power2::{pow2, lemma_pow2_unfold, lemma_pow2_pos, lemma_pow2_adds,
    lemma2_to64};
use vstd::arithmetic::mul::{lemma_mul_inequality, lemma_mul_is_associative};
use vstd::arithmetic::div_mod::lemma_fundamental_div_mod;
use crate::bitstream::BitReader;
use crate::bits::{bits_of, bits_value, lemma_bits_of_len, lemma_bits_of_split,
    lemma_bits_value_append, lemma_bits_value_bound, lemma_bits_value_of};

verus! {

/// The longest code this library handles, in bits.
pub open spec fn max_code_length() -> nat {
    32
}

/// The number of symbols whose length is `l`.
pub open spec fn length_count(lens: Seq<usize>, l: nat) -> nat
    decreases lens.len(),
{
    if lens.len() == 0 {
        0
    } else {
        length_count(lens.drop_last(), l) + (if lens.last() == l {
            1nat
        } else {
            0nat
        })
    }
}

/// The number of symbols with a code shorter than `l` bits.
pub open spec fn count_below(lens: Seq<usize>, l: nat) -> nat
    decreases lens.len(),
{
    if lens.len() == 0 {
        0
    } else {
        count_below(lens.drop_last(), l) + (if 0 < lens.last() < l {
            1nat
        } else {
            0nat
        })
    }
}

/// `K(l)`: the sum, over symbols with a code of at most `l` bits, of `2^(l - length)`.
pub open spec fn kraft_sum(lens: Seq<usize>, l: nat) -> nat
    decreases lens.len(),
{
    if lens.len() == 0 {
        0
    } else {
        kraft_sum(lens.drop_last(), l) + (if 0 < lens.last() <= l {
            pow2((l - lens.last()) as nat)
        } else {
            0nat
        })
    }
}

/// The largest length in the table (0 for an empty table).
pub open spec fn max_length(lens: Seq<usize>) -> nat
    decreases lens.len(),
{
    if lens.len() == 0 {
        0
    } else if max_length(lens.drop_last()) < lens.last() {
        lens.last() as nat
    } else {
        max_length(lens.drop_last())
    }
}

/// A table of code lengths that a canonical code can be built from: no code
/// longer than 32 bits, and the Kraft inequality holds.
pub open spec fn valid_lengths(lens: Seq<usize>) -> bool {
    &&& forall|i: int| 0 <= i < lens.len() ==> #[trigger] lens[i] <= max_code_length()
    &&& kraft_sum(lens, max_code_length()) <= pow2(max_code_length())
}

/// A table of code lengths whose canonical codes fit in 32 bits: no code longer
/// than 32 bits, and `K(m) <= 2^32` for the longest length `m`.
pub open spec fn codes_fit(lens: Seq<usize>) -> bool {
    &&& forall|i: int| 0 <= i < lens.len() ==> #[trigger] lens[i] <= max_code_length()
    &&& kraft_sum(lens, max_length(lens)) <= pow2(max_code_length())
}

/// The canonical code of symbol `s` (meaningful when its length is not 0).
pub open spec fn canonical_code(lens: Seq<usize>, s: int) -> nat {
    2 * kraft_sum(lens, (lens[s] - 1) as nat) + length_count(lens.take(s), lens[s] as nat)
}

/// The symbols of length `l` among the first `i`, in increasing order.
pub open spec fn level_symbols(lens: Seq<usize>, l: nat, i: nat) -> Seq<usize>
    decreases i,
{
    if i == 0 {
        Seq::empty()
    } else if lens[i - 1] == l {
        level_symbols(lens, l, (i - 1) as nat).push((i - 1) as usize)
    } else {
        level_symbols(lens, l, (i - 1) as nat)
    }
}

/// The symbols with lengths `1..=m`, ordered by (length, index).
pub open spec fn canonical_order_upto(lens: Seq<usize>, m: nat) -> Seq<usize>
    decreases m,
{
    if m == 0 {
        Seq::empty()
    } else {
        canonical_order_upto(lens, (m - 1) as nat) + level_symbols(lens, m, lens.len())
    }
}

/// Every symbol with a code, ordered by (length, index).
pub open spec fn canonical_order(lens: Seq<usize>) -> Seq<usize> {
    canonical_order_upto(lens, max_length(lens))
}

pub proof fn lemma_take_drop_last(lens: Seq<usize>, i: int)
    requires
        0 < i <= lens.len(),
    ensures
        lens.take(i).drop_last() == lens.take(i - 1),
        lens.take(i).last() == lens[i - 1],
{
    assert(lens.take(i).drop_last() =~= lens.take(i - 1));
}

pub proof fn lemma_kraft_zero(lens: Seq<usize>)
    ensures
        kraft_sum(lens, 0) == 0,
    decreases lens.len(),
{
    if lens.len() > 0 {
        lemma_kraft_zero(lens.drop_last());
    }
}

/// `K(l) = 2 K(l - 1) + (the number of symbols of length l)`.
pub proof fn lemma_kraft_step(lens: Seq<usize>, l: nat)
    requires
        l >= 1,
    ensures
        kraft_sum(lens, l) == 2 * kraft_sum(lens, (l - 1) as nat) + length_count(lens, l),
    decreases lens.len(),
{
    if lens.len() > 0 {
        lemma_kraft_step(lens.drop_last(), l);
        let x = lens.last();
        if 0 < x <= l - 1 {
            lemma_pow2_unfold((l - x) as nat);
        }
        if x == l {
            lemma2_to64();
        }
    }
}

/// `K` grows at least twofold with each extra bit.
pub proof fn lemma_kraft_grows(lens: Seq<usize>, l: nat, m: nat)
    requires
        l <= m,
    ensures
        kraft_sum(lens, m) >= pow2((m - l) as nat) * kraft_sum(lens, l),
    decreases m - l,
{
    if l == m {
        lemma2_to64();
        assert(pow2(0) * kraft_sum(lens, l) == kraft_sum(lens, l));
    } else {
        lemma_kraft_grows(lens, l, (m - 1) as nat);
        lemma_kraft_step(lens, m);
        lemma_pow2_unfold((m - l) as nat);
        let a = pow2((m - 1 - l) as nat);
        let k = kraft_sum(lens, l);
        assert(2 * (a * k) == (2 * a) * k) by (nonlinear_arith);
        assert(pow2((m - l) as nat) == 2 * a);
        assert(kraft_sum(lens, (m - 1) as nat) >= a * k);
        assert(kraft_sum(lens, m) >= 2 * kraft_sum(lens, (m - 1) as nat));
    }
}

/// Under the Kraft inequality, `K(l) <= 2^l` for every `l <= 32`.
pub proof fn lemma_kraft_bound(lens: Seq<usize>, l: nat)
    requires
        valid_lengths(lens),
        l <= max_code_length(),
    ensures
        kraft_sum(lens, l) <= pow2(l),
{
    lemma_kraft_grows(lens, l, 32);
    lemma_pow2_adds((32 - l) as nat, l);
    lemma_pow2_pos((32 - l) as nat);
    let a = pow2((32 - l) as nat);
    let k = kraft_sum(lens, l);
    if k > pow2(l) {
        lemma_mul_inequality(pow2(l) as int + 1, k as int, a as int);
        assert(a * (pow2(l) + 1) > a * pow2(l)) by (nonlinear_arith)
            requires
                a > 0,
        ;
        lemma_mul_is_associative(1, 1, 1);
        assert((pow2(l) + 1) * a == a * (pow2(l) + 1)) by (nonlinear_arith);
        assert(k * a == a * k) by (nonlinear_arith);
    }
}

/// Counting over a prefix: one more symbol adds itself.
pub proof fn lemma_count_take_step(lens: Seq<usize>, i: int, l: nat)
    requires
        0 <= i < lens.len(),
    ensures
        length_count(lens.take(i + 1), l) == length_count(lens.take(i), l) + (if lens[i] == l {
            1nat
        } else {
            0nat
        }),
        count_below(lens.take(i + 1), l) == count_below(lens.take(i), l) + (if 0 < lens[i] < l {
            1nat
        } else {
            0nat
        }),
        kraft_sum(lens.take(i + 1), l) == kraft_sum(lens.take(i), l) + (if 0 < lens[i] <= l {
            pow2((l - lens[i]) as nat)
        } else {
            0nat
        }),
{
    lemma_take_drop_last(lens, i + 1);
}

/// A prefix has no more symbols of any length than the whole table.
pub proof fn lemma_count_take_le(lens: Seq<usize>, i: int, l: nat)
    requires
        0 <= i <= lens.len(),
    ensures
        length_count(lens.take(i), l) <= length_count(lens, l),
        kraft_sum(lens.take(i), l) <= kraft_sum(lens, l),
    decreases lens.len() - i,
{
    if i == lens.len() {
        assert(lens.take(i) =~= lens);
    } else {
        lemma_count_take_step(lens, i, l);
        lemma_count_take_le(lens, i + 1, l);
    }
}

/// The symbols of length `l` after `s` are counted too.
pub proof fn lemma_count_after(lens: Seq<usize>, s: int)
    requires
        0 <= s < lens.len(),
    ensures
        length_count(lens.take(s), lens[s] as nat) < length_count(lens, lens[s] as nat),
{
    lemma_count_take_step(lens, s, lens[s] as nat);
    lemma_count_take_le(lens, s + 1, lens[s] as nat);
}

/// `count_below(l + 1) = count_below(l) + (the number of symbols of length l)`.
pub proof fn lemma_count_below_step(lens: Seq<usize>, l: nat)
    requires
        l >= 1,
    ensures
        count_below(lens, l + 1) == count_below(lens, l) + length_count(lens, l),
    decreases lens.len(),
{
    if lens.len() > 0 {
        lemma_count_below_step(lens.drop_last(), l);
    }
}

/// A symbol's code lies among the codes of its length:
/// `2 K(L - 1) <= code < K(L)`, and so below `2^L` under the Kraft inequality.
pub proof fn lemma_code_range(lens: Seq<usize>, s: int)
    requires
        0 <= s < lens.len(),
        lens[s] >= 1,
    ensures
        2 * kraft_sum(lens, (lens[s] - 1) as nat) <= canonical_code(lens, s),
        canonical_code(lens, s) < kraft_sum(lens, lens[s] as nat),
        valid_lengths(lens) ==> canonical_code(lens, s) < pow2(lens[s] as nat),
{
    lemma_count_after(lens, s);
    lemma_kraft_step(lens, lens[s] as nat);
    if valid_lengths(lens) {
        lemma_kraft_bound(lens, lens[s] as nat);
    }
}

pub proof fn lemma_max_length(lens: Seq<usize>)
    ensures
        forall|i: int| 0 <= i < lens.len() ==> #[trigger] lens[i] <= max_length(lens),
        lens.len() > 0 ==> exists|i: int| 0 <= i < lens.len() && lens[i] == max_length(lens),
        max_length(lens) <= usize::MAX,
    decreases lens.len(),
{
    if lens.len() > 0 {
        let pre = lens.drop_last();
        lemma_max_length(pre);
        assert forall|i: int| 0 <= i < lens.len() implies #[trigger] lens[i] <= max_length(lens) by {
            if i < lens.len() - 1 {
                assert(lens[i] == pre[i]);
            }
        }
        if max_length(pre) < lens.last() {
            assert(lens[lens.len() - 1] == max_length(lens));
        } else if pre.len() > 0 {
            let j = choose|j: int| 0 <= j < pre.len() && pre[j] == max_length(pre);
            assert(lens[j] == max_length(lens));
        } else {
            assert(lens[0] == 0);
        }
    }
}

/// The symbols of length `l` among the first `i`: how many, which, and in what order.
pub proof fn lemma_level_symbols(lens: Seq<usize>, l: nat, i: nat)
    requires
        i <= lens.len() <= usize::MAX,
    ensures
        level_symbols(lens, l, i).len() == length_count(lens.take(i as int), l),
        forall|k: int|
            0 <= k < level_symbols(lens, l, i).len() ==> {
                let s = #[trigger] level_symbols(lens, l, i)[k];
                &&& s < i
                &&& lens[s as int] == l
                &&& length_count(lens.take(s as int), l) == k
            },
    decreases i,
{
    if i == 0 {
        assert(lens.take(0) =~= Seq::<usize>::empty());
    } else {
        lemma_level_symbols(lens, l, (i - 1) as nat);
        lemma_count_take_step(lens, i - 1, l);
        let prev = level_symbols(lens, l, (i - 1) as nat);
        let cur = level_symbols(lens, l, i);
        assert forall|k: int| 0 <= k < cur.len() implies {
            let s = #[trigger] cur[k];
            &&& s < i
            &&& lens[s as int] == l
            &&& length_count(lens.take(s as int), l) == k
        } by {
            if k < prev.len() {
                assert(cur[k] == prev[k]);
            }
        }
    }
}

/// Symbol `s` of length `l` sits in its level at its rank among symbols of that length.
pub proof fn lemma_level_rank(lens: Seq<usize>, l: nat, i: nat, s: int)
    requires
        i <= lens.len() <= usize::MAX,
        0 <= s < i,
        lens[s] == l,
    ensures
        length_count(lens.take(s), l) < level_symbols(lens, l, i).len(),
        level_symbols(lens, l, i)[length_count(lens.take(s), l) as int] == s,
    decreases i,
{
    lemma_level_symbols(lens, l, i);
    lemma_count_take_step(lens, i - 1, l);
    lemma_level_symbols(lens, l, (i - 1) as nat);
    let prev = level_symbols(lens, l, (i - 1) as nat);
    let cur = level_symbols(lens, l, i);
    let r = length_count(lens.take(s), l) as int;
    if s < i - 1 {
        lemma_level_rank(lens, l, (i - 1) as nat, s);
        assert(cur[r] == prev[r]);
    } else {
        assert(cur == prev.push((i - 1) as usize));
    }
}

/// The layout of the canonical order: the symbols of length `l` start at
/// `count_below(l)` and take `length_count(l)` places.
pub proof fn lemma_order_upto(lens: Seq<usize>, m: nat)
    requires
        lens.len() <= usize::MAX,
    ensures
        canonical_order_upto(lens, m).len() == count_below(lens, m + 1),
        forall|l: nat, j: int|
            1 <= l <= m && 0 <= j < length_count(lens, l) ==> #[trigger] canonical_order_upto(
                lens,
                m,
            )[count_below(lens, l) + j] == #[trigger] level_symbols(lens, l, lens.len())[j],
    decreases m,
{
    assert(lens.take(lens.len() as int) =~= lens);
    lemma_level_symbols(lens, m, lens.len());
    if m == 0 {
        assert(count_below(lens, 1) == 0) by {
            lemma_count_below_zero(lens);
        }
    } else {
        lemma_order_upto(lens, (m - 1) as nat);
        lemma_count_below_step(lens, m);
        let prev = canonical_order_upto(lens, (m - 1) as nat);
        assert forall|l: nat, j: int|
            1 <= l <= m && 0 <= j < length_count(lens, l) implies #[trigger] canonical_order_upto(
            lens,
            m,
        )[count_below(lens, l) + j] == #[trigger] level_symbols(lens, l, lens.len())[j] by {
            if l < m {
                lemma_count_below_mono(lens, l + 1, m);
                lemma_count_below_step(lens, l);
            }
        }
    }
}

pub proof fn lemma_count_below_zero(lens: Seq<usize>)
    ensures
        count_below(lens, 1) == 0,
        count_below(lens, 0) == 0,
    decreases lens.len(),
{
    if lens.len() > 0 {
        lemma_count_below_zero(lens.drop_last());
    }
}

pub proof fn lemma_count_below_mono(lens: Seq<usize>, a: nat, b: nat)
    requires
        a <= b,
    ensures
        count_below(lens, a) <= count_below(lens, b),
    decreases lens.len(),
{
    if lens.len() > 0 {
        lemma_count_below_mono(lens.drop_last(), a, b);
    }
}

/// The bits at `pos` begin with the code of symbol `s`: the value of the symbol's
/// length in bits there is its code.
pub open spec fn matches_at(lens: Seq<usize>, bits: Seq<bool>, pos: int, s: int) -> bool {
    &&& 0 <= s < lens.len()
    &&& lens[s] > 0
    &&& 0 <= pos
    &&& pos + lens[s] <= bits.len()
    &&& bits_value(bits.subrange(pos, pos + lens[s])) == canonical_code(lens, s)
}

/// The symbol whose code the bits at `pos` begin with, if any.
pub open spec fn next_symbol(lens: Seq<usize>, bits: Seq<bool>, pos: int) -> Option<int> {
    if exists|s: int| matches_at(lens, bits, pos, s) {
        Some(choose|s: int| matches_at(lens, bits, pos, s))
    } else {
        None
    }
}

/// The first `l` bits of a code of length `L` spell the code divided by `2^(L - l)`.
pub proof fn lemma_code_prefix_value(v: nat, l: nat, big: nat)
    requires
        l <= big,
        v < pow2(big),
    ensures
        bits_value(bits_of(v, big).take(l as int)) == v / pow2((big - l) as nat),
{
    let d = (big - l) as nat;
    lemma_bits_of_split(v, l, d);
    lemma_bits_of_len(v / pow2(d), l);
    lemma_bits_of_len(v % pow2(d), d);
    assert(bits_of(v, big).take(l as int) =~= bits_of(v / pow2(d), l));
    lemma_bits_value_of(v / pow2(d), l);
    lemma_pow2_adds(l, d);
    lemma_pow2_pos(d);
    lemma_pow2_pos(l);
    lemma_fundamental_div_mod(v as int, pow2(d) as int);
    let q = v / pow2(d);
    assert(q < pow2(l)) by (nonlinear_arith)
        requires
            v == pow2(d) * q + v % pow2(d),
            v % pow2(d) >= 0,
            v < pow2(big),
            pow2(big) == pow2(l) * pow2(d),
            pow2(d) > 0,
    ;
    vstd::arithmetic::div_mod::lemma_small_mod(q, pow2(l));
}

/// The value of the first `l` of some bits, against the value of the first `m >= l`.
pub proof fn lemma_prefix_value_bound(b: Seq<bool>, l: nat, m: nat)
    requires
        l <= m <= b.len(),
    ensures
        bits_value(b.take(m as int)) < (bits_value(b.take(l as int)) + 1) * pow2((m - l) as nat),
        bits_value(b.take(m as int)) >= bits_value(b.take(l as int)) * pow2((m - l) as nat),
{
    let x = b.take(l as int);
    let y = b.subrange(l as int, m as int);
    assert(b.take(m as int) =~= x + y);
    lemma_bits_value_append(x, y);
    lemma_bits_value_bound(y);
    let p = pow2((m - l) as nat);
    let vx = bits_value(x);
    assert(vx * p + bits_value(y) < (vx + 1) * p) by (nonlinear_arith)
        requires
            bits_value(y) < p,
    ;
}

/// Codes of different symbols are never prefixes of each other: at most one
/// symbol's code starts at any position. (Codes of length `l` lie in
/// `[2 K(l - 1), K(l))`, so no code is the start of a longer one.)
pub proof fn lemma_match_unique(lens: Seq<usize>, bits: Seq<bool>, pos: int, s: int, t: int)
    requires
        matches_at(lens, bits, pos, s),
        matches_at(lens, bits, pos, t),
    ensures
        s == t,
{
    if lens[s] <= lens[t] {
        lemma_match_unique_ordered(lens, bits, pos, s, t);
    } else {
        lemma_match_unique_ordered(lens, bits, pos, t, s);
    }
}

proof fn lemma_match_unique_ordered(lens: Seq<usize>, bits: Seq<bool>, pos: int, s: int, t: int)
    requires
        matches_at(lens, bits, pos, s),
        matches_at(lens, bits, pos, t),
        lens[s] <= lens[t],
    ensures
        s == t,
{
    let ls = lens[s] as nat;
    let lt = lens[t] as nat;
    let cs = canonical_code(lens, s);
    let ct = canonical_code(lens, t);
    lemma_code_range(lens, s);
    lemma_code_range(lens, t);
    if ls < lt {
        let b = bits.subrange(pos, pos + lt);
        assert(b.take(ls as int) =~= bits.subrange(pos, pos + ls));
        assert(b.take(lt as int) =~= b);
        // the first `ls` bits spell `cs`, so the `lt` bits spell less than `(cs + 1) 2^(lt - ls)`
        lemma_prefix_value_bound(b, ls, lt);
        lemma_kraft_grows(lens, ls, (lt - 1) as nat);
        lemma_pow2_unfold((lt - ls) as nat);
        let a = pow2((lt - 1 - ls) as nat);
        let p = pow2((lt - ls) as nat);
        lemma_pow2_pos((lt - 1 - ls) as nat);
        // but `ct >= 2 K(lt - 1) >= 2^(lt - ls) K(ls) >= (cs + 1) 2^(lt - ls)`
        assert(ct >= p * kraft_sum(lens, ls)) by (nonlinear_arith)
            requires
                ct >= 2 * kraft_sum(lens, (lt - 1) as nat),
                kraft_sum(lens, (lt - 1) as nat) >= a * kraft_sum(lens, ls),
                p == 2 * a,
        ;
        assert((cs + 1) * p <= p * kraft_sum(lens, ls)) by (nonlinear_arith)
            requires
                cs + 1 <= kraft_sum(lens, ls),
                p > 0,
        ;
        assert(false);
    } else {
        // same length, same code: same rank, so the same symbol
        if s < t {
            lemma_rank_increases(lens, s, t);
        } else if t < s {
            lemma_rank_increases(lens, t, s);
        }
    }
}

/// A later symbol of the same length has a higher rank.
pub proof fn lemma_rank_increases(lens: Seq<usize>, s: int, t: int)
    requires
        0 <= s < t < lens.len(),
        lens[s] == lens[t],
    ensures
        length_count(lens.take(s), lens[s] as nat) < length_count(lens.take(t), lens[s] as nat),
    decreases t - s,
{
    let l = lens[s] as nat;
    lemma_count_take_step(lens, s, l);
    lemma_count_take_mono(lens, s + 1, t, l);
}

pub proof fn lemma_count_take_mono(lens: Seq<usize>, a: int, b: int, l: nat)
    requires
        0 <= a <= b <= lens.len(),
    ensures
        length_count(lens.take(a), l) <= length_count(lens.take(b), l),
    decreases b - a,
{
    if a < b {
        lemma_count_take_mono(lens, a, b - 1, l);
        lemma_count_take_step(lens, b - 1, l);
    }
}

/// No code of at most `m` bits starts at `p` once the first `m` bits there spell
/// at least `K(m)`.
pub proof fn lemma_no_match(lens: Seq<usize>, bits: Seq<bool>, p: int, m: nat)
    requires
        0 <= p,
        p + m <= bits.len(),
        bits_value(bits.subrange(p, p + m)) >= kraft_sum(lens, m),
    ensures
        forall|s: int| matches_at(lens, bits, p, s) ==> lens[s] > m,
{
    assert forall|s: int| matches_at(lens, bits, p, s) implies lens[s] > m by {
        if lens[s] <= m {
            let l = lens[s] as nat;
            let b = bits.subrange(p, p + m);
            assert(b.take(l as int) =~= bits.subrange(p, p + l));
            assert(b.take(m as int) =~= b);
            lemma_prefix_value_bound(b, l, m);
            lemma_code_range(lens, s);
            lemma_kraft_grows(lens, l, m);
            let vl = canonical_code(lens, s);
            let a = pow2((m - l) as nat);
            assert((vl + 1) * a <= kraft_sum(lens, l) * a) by (nonlinear_arith)
                requires
                    vl + 1 <= kraft_sum(lens, l),
                    a >= 0,
            ;
            assert(kraft_sum(lens, l) * a == a * kraft_sum(lens, l)) by (nonlinear_arith);
        }
    }
}

/// When the `l` bits at `p` spell a value in `[2 K(l - 1), K(l))`, they are the code
/// of the symbol at that offset among the symbols of length `l`.
pub proof fn lemma_found(lens: Seq<usize>, bits: Seq<bool>, p: int, l: nat)
    requires
        lens.len() <= usize::MAX,
        1 <= l,
        0 <= p,
        p + l <= bits.len(),
        2 * kraft_sum(lens, (l - 1) as nat) <= bits_value(bits.subrange(p, p + l)),
        bits_value(bits.subrange(p, p + l)) < kraft_sum(lens, l),
    ensures
        ({
            let j = bits_value(bits.subrange(p, p + l)) - 2 * kraft_sum(lens, (l - 1) as nat);
            let s = canonical_order(lens)[count_below(lens, l) + j];
            &&& count_below(lens, l) + j < canonical_order(lens).len()
            &&& lens[s as int] == l
            &&& matches_at(lens, bits, p, s as int)
            &&& next_symbol(lens, bits, p) == Some(s as int)
        }),
{
    let v = bits_value(bits.subrange(p, p + l));
    let j = v - 2 * kraft_sum(lens, (l - 1) as nat);
    lemma_kraft_step(lens, l);
    assert(j < length_count(lens, l));
    lemma_max_length(lens);
    lemma_order_upto(lens, max_length(lens));
    let lv = level_symbols(lens, l, lens.len());
    lemma_level_symbols(lens, l, lens.len());
    assert(lens.take(lens.len() as int) =~= lens);
    let s = lv[j];
    assert(lens[s as int] == l);
    assert(l <= max_length(lens));
    assert(canonical_order(lens)[count_below(lens, l) + j] == s);
    lemma_count_below_mono(lens, l + 1, max_length(lens) + 1);
    lemma_count_below_step(lens, l);
    assert(canonical_code(lens, s as int) == v);
    assert(matches_at(lens, bits, p, s as int));
    let c = choose|t: int| matches_at(lens, bits, p, t);
    lemma_match_unique(lens, bits, p, c, s as int);
}

/// Decoding tables that describe the canonical code for `lens`; the count for
/// length 0 is not used.
pub open spec fn decode_tables_ok(
    lens: Seq<usize>,
    first_code: Seq<u32>,
    counts: Seq<usize>,
    first_pos: Seq<usize>,
    sorted: Seq<usize>,
) -> bool {
    let m = max_length(lens);
    &&& counts.len() == m + 1
    &&& first_code.len() == m + 1
    &&& first_pos.len() == m + 1
    &&& sorted == canonical_order(lens)
    &&& forall|l: int| 1 <= l <= m ==> #[trigger] counts[l] == length_count(lens, l as nat)
    &&& forall|l: int|
        1 <= l <= m && #[trigger] counts[l] > 0 ==> {
            &&& first_code[l] == 2 * kraft_sum(lens, (l - 1) as nat)
            &&& first_pos[l] == count_below(lens, l as nat)
        }
}

/// Where reading one symbol at `pos` leaves off when no code starts there:
/// after `max_length + 1` bits, or at the end of the bits.
pub open spec fn no_symbol_end(lens: Seq<usize>, bits: Seq<bool>, pos: int) -> int {
    if pos + max_length(lens) + 1 <= bits.len() {
        pos + max_length(lens) + 1
    } else {
        bits.len() as int
    }
}

/// Reads one symbol: bit by bit, until the bits read are a code, or are longer
/// than any code, or run out.
pub(crate) fn decode_one(
    reader: &mut BitReader,
    first_code: &[u32],
    counts: &[usize],
    first_pos: &[usize],
    sorted: &[usize],
    Ghost(lens): Ghost<Seq<usize>>,
) -> (res: Option<usize>)
    requires
        old(reader).wf(),
        codes_fit(lens),
        lens.len() <= usize::MAX,
        decode_tables_ok(lens, first_code@, counts@, first_pos@, sorted@),
    ensures
        final(reader).wf(),
        final(reader).data() == old(reader).data(),
        match next_symbol(lens, old(reader).bits(), old(reader).pos() as int) {
            Some(s) => {
                &&& res == Some(s as usize)
                &&& final(reader).pos() == old(reader).pos() + lens[s]
            },
            None => {
                &&& res is None
                &&& final(reader).pos() == no_symbol_end(
                    lens,
                    old(reader).bits(),
                    old(reader).pos() as int,
                )
            },
        },
{
    let ghost bits = reader.bits();
    let ghost p0 = reader.pos() as int;
    proof {
        reader.lemma_pos_bound();
        lemma_kraft_zero(lens);
        assert(bits.subrange(p0, p0) =~= Seq::<bool>::empty());
        lemma_max_length(lens);
        if lens.len() > 0 {
            let j = choose|j: int| 0 <= j < lens.len() && lens[j] == max_length(lens);
            assert(lens[j] <= 32);
        }
    }
    let longest = counts.len() - 1;
    let mut value: u32 = 0;
    let mut length: usize = 0;
    loop
        invariant
            reader.wf(),
            reader.data() == old(reader).data(),
            reader.bits() == bits,
            bits == old(reader).bits(),
            p0 == old(reader).pos(),
            codes_fit(lens),
            lens.len() <= usize::MAX,
            decode_tables_ok(lens, first_code@, counts@, first_pos@, sorted@),
            longest == max_length(lens),
            length <= longest,
            longest <= 32,
            reader.pos() == p0 + length,
            p0 + length <= bits.len(),
            value == bits_value(bits.subrange(p0, p0 + length)),
            value >= kraft_sum(lens, length as nat),
        decreases longest + 1 - length,
    {
        let ghost before = bits.subrange(p0, p0 + length);
        let bit = match reader.read_msb(1) {
            Some(b) => b,
            None => {
                proof {
                    lemma_no_match(lens, bits, p0, length as nat);
                    assert(next_symbol(lens, bits, p0) is None);
                }
                return None;
            },
        };
        proof {
            let piece = bits.subrange(p0 + length, p0 + length + 1);
            assert(bits.subrange(p0, p0 + length + 1) =~= before + piece);
            lemma_bits_value_append(before, piece);
            lemma_bits_value_bound(before);
            lemma_bits_value_bound(piece);
            lemma2_to64();
            assert(bit == bits_value(piece));
            assert(bit < 2);
        }
        if length == 32 {
            proof {
                lemma_no_match(lens, bits, p0, length as nat);
                assert(next_symbol(lens, bits, p0) is None);
            }
            return None;
        }
        proof {
            vstd::arithmetic::power2::lemma_pow2_strictly_increases(length as nat, 32);
            assert(value < 0x8000_0000);
            assert(value << 1 == 2 * value) by (bit_vector)
                requires
                    value < 0x8000_0000,
            ;
        }
        value = (value << 1) + bit;
        length = length + 1;
        assert(value == bits_value(bits.subrange(p0, p0 + length)));

        if length > longest {
            proof {
                lemma_kraft_step(lens, length as nat);
                assert(length_count(lens, length as nat) == 0) by {
                    lemma_count_zero_above(lens, length as nat);
                }
                lemma_no_match(lens, bits, p0, length as nat);
                lemma_max_length(lens);
                assert(next_symbol(lens, bits, p0) is None);
            }
            return None;
        }
        proof {
            lemma_kraft_step(lens, length as nat);
        }
        if counts[length] > 0 && value >= first_code[length] {
            let offset = (value - first_code[length]) as usize;
            if offset < counts[length] {
                proof {
                    lemma_found(lens, bits, p0, length as nat);
                    lemma_order_len(lens);
                }
                return Some(sorted[first_pos[length] + offset]);
            }
        }
    }
}

/// No symbol is longer than the longest.
pub proof fn lemma_count_zero_above(lens: Seq<usize>, l: nat)
    requires
        l > max_length(lens),
    ensures
        length_count(lens, l) == 0,
    decreases lens.len(),
{
    if lens.len() > 0 {
        lemma_count_zero_above(lens.drop_last(), l);
    }
}

/// The canonical order holds every symbol with a code.
pub proof fn lemma_order_len(lens: Seq<usize>)
    requires
        lens.len() <= usize::MAX,
    ensures
        canonical_order(lens).len() == count_below(lens, max_length(lens) + 1),
        count_below(lens, max_length(lens) + 1) <= lens.len(),
        forall|k: int|
            0 <= k < canonical_order(lens).len() ==> #[trigger] canonical_order(lens)[k]
                < lens.len(),
{
    lemma_order_upto(lens, max_length(lens));
    lemma_count_below_le_len(lens, max_length(lens) + 1);
    lemma_order_upto_members(lens, max_length(lens));
}

pub proof fn lemma_count_below_le_len(lens: Seq<usize>, l: nat)
    ensures
        count_below(lens, l) <= lens.len(),
    decreases lens.len(),
{
    if lens.len() > 0 {
        lemma_count_below_le_len(lens.drop_last(), l);
    }
}

pub proof fn lemma_order_upto_members(lens: Seq<usize>, m: nat)
    requires
        lens.len() <= usize::MAX,
    ensures
        forall|k: int|
            0 <= k < canonical_order_upto(lens, m).len() ==> {
                let s = #[trigger] canonical_order_upto(lens, m)[k];
                &&& s < lens.len()
                &&& 1 <= lens[s as int] <= m
            },
    decreases m,
{
    if m > 0 {
        lemma_order_upto_members(lens, (m - 1) as nat);
        lemma_level_symbols(lens, m, lens.len());
        let prev = canonical_order_upto(lens, (m - 1) as nat);
        let lv = level_symbols(lens, m, lens.len());
        assert forall|k: int| 0 <= k < canonical_order_upto(lens, m).len() implies {
            let s = #[trigger] canonical_order_upto(lens, m)[k];
            &&& s < lens.len()
            &&& 1 <= lens[s as int] <= m
        } by {
            if k < prev.len() {
                assert(canonical_order_upto(lens, m)[k] == prev[k]);
            } else {
                assert(canonical_order_upto(lens, m)[k] == lv[k - prev.len()]);
            }
        }
    }
}


/// Lengths that meet the Kraft inequality have codes that fit in 32 bits.
pub proof fn lemma_valid_codes_fit(lens: Seq<usize>)
    requires
        valid_lengths(lens),
    ensures
        codes_fit(lens),
{
    lemma_max_length(lens);
    assert(max_length(lens) <= 32) by {
        if lens.len() > 0 {
            let j = choose|j: int| 0 <= j < lens.len() && lens[j] == max_length(lens);
            assert(lens[j] <= 32);
        }
    }
    lemma_kraft_bound(lens, max_length(lens));
    if max_length(lens) < 32 {
        vstd::arithmetic::power2::lemma_pow2_strictly_increases(max_length(lens), 32);
    }
}

/// Under `codes_fit`, `K(l) <= 2^32` for every length `l` up to the longest.
pub proof fn lemma_codes_fit_bound(lens: Seq<usize>, l: nat)
    requires
        codes_fit(lens),
        l <= max_length(lens),
    ensures
        kraft_sum(lens, l) <= pow2(max_code_length()),
{
    lemma_kraft_grows(lens, l, max_length(lens));
    lemma_pow2_pos((max_length(lens) - l) as nat);
    assert(pow2((max_length(lens) - l) as nat) * kraft_sum(lens, l) >= kraft_sum(lens, l))
        by (nonlinear_arith)
        requires
            pow2((max_length(lens) - l) as nat) >= 1,
    ;
}

/// The decoding tables invert the canonical code: for a symbol `s` of length
/// `L`, its code lies in `[F, F + C)` where `F = 2 K(L - 1)` is the first code of
/// length `L` and `C` the number of symbols of that length, and the canonical
/// order holds `s` at `count_below(L) + (code - F)`.
pub proof fn lemma_code_table_inverse(lens: Seq<usize>, s: int)
    requires
        valid_lengths(lens),
        lens.len() <= usize::MAX,
        0 <= s < lens.len(),
        lens[s] > 0,
    ensures
        ({
            let l = lens[s] as nat;
            let first = 2 * kraft_sum(lens, (l - 1) as nat);
            let code = canonical_code(lens, s);
            &&& first <= code < first + length_count(lens, l)
            &&& count_below(lens, l) + (code - first) < canonical_order(lens).len()
            &&& canonical_order(lens)[count_below(lens, l) + (code - first)] == s
        }),
{
    let l = lens[s] as nat;
    let code = canonical_code(lens, s);
    lemma_code_range(lens, s);
    lemma_kraft_step(lens, l);
    let bits = bits_of(code, l);
    lemma_bits_of_len(code, l);
    assert(bits.subrange(0, l as int) =~= bits);
    lemma_bits_value_of(code, l);
    vstd::arithmetic::div_mod::lemma_small_mod(code, pow2(l));
    lemma_found(lens, bits, 0, l);
    assert(matches_at(lens, bits, 0, s));
    let t = canonical_order(lens)[count_below(lens, l) + (code - 2 * kraft_sum(lens, (l - 1) as nat))];
    lemma_match_unique(lens, bits, 0, t as int, s);
}

/// Canonical codes follow the order by (length, index): when symbol `s` comes
/// before symbol `t` in that order, `s`'s code, left-aligned to `t`'s length, is
/// smaller than `t`'s code. So codes of one length increase with the index, and a
/// shorter code, extended with zeros, lies below every longer one.
pub proof fn lemma_canonical_codes_ordered(lens: Seq<usize>, s: int, t: int)
    requires
        0 <= s < lens.len(),
        0 <= t < lens.len(),
        1 <= lens[s],
        1 <= lens[t],
        lens[s] < lens[t] || (lens[s] == lens[t] && s < t),
    ensures
        canonical_code(lens, s) * pow2((lens[t] - lens[s]) as nat) < canonical_code(lens, t),
{
    let ls = lens[s] as nat;
    let lt = lens[t] as nat;
    let cs = canonical_code(lens, s);
    let ct = canonical_code(lens, t);
    lemma_code_range(lens, s);
    lemma_code_range(lens, t);
    if ls < lt {
        lemma_kraft_grows(lens, ls, (lt - 1) as nat);
        lemma_pow2_unfold((lt - ls) as nat);
        lemma_pow2_pos((lt - 1 - ls) as nat);
        let a = pow2((lt - 1 - ls) as nat);
        let p = pow2((lt - ls) as nat);
        assert(ct >= p * kraft_sum(lens, ls)) by (nonlinear_arith)
            requires
                ct >= 2 * kraft_sum(lens, (lt - 1) as nat),
                kraft_sum(lens, (lt - 1) as nat) >= a * kraft_sum(lens, ls),
                p == 2 * a,
        ;
        assert(cs * p < p * kraft_sum(lens, ls)) by (nonlinear_arith)
            requires
                cs + 1 <= kraft_sum(lens, ls),
                p > 0,
        ;
        assert(cs * pow2((lens[t] - lens[s]) as nat) < ct);
    } else {
        lemma2_to64();
        lemma_rank_increases(lens, s, t);
        assert(pow2((lens[t] - lens[s]) as nat) == 1);
        assert(cs * 1 == cs);
    }
}
} // verus!
