//! Mathematical model of bit strings: the bits of a number, the number
//! that a bit string spells, and the bits of a byte buffer.

use vstd::prelude::*;
use vstd::arithmetic::power2::*;
use vstd::arithmetic::div_mod::*;
use vstd::arithmetic::mul::*;

verus! {

/// The `n` lowest bits of `v`, most significant first.
pub open spec fn bits_of(v: nat, n: nat) -> Seq<bool>
    decreases n,
{
    if n == 0 {
        Seq::empty()
    } else {
        bits_of(v / 2, (n - 1) as nat).push(v % 2 == 1)
    }
}

/// The number whose binary digits, most significant first, are `s`.
pub open spec fn bits_value(s: Seq<bool>) -> nat
    decreases s.len(),
{
    if s.len() == 0 {
        0
    } else {
        2 * bits_value(s.drop_last()) + (if s.last() { 1nat } else { 0nat })
    }
}

/// `n` clear bits.
pub open spec fn zeros(n: nat) -> Seq<bool> {
    Seq::new(n, |i: int| false)
}

/// The bits of a byte buffer: each byte in turn, most significant bit first.
pub open spec fn bytes_bits(bytes: Seq<u8>) -> Seq<bool> {
    Seq::new(8 * bytes.len(), |j: int| bits_of(bytes[j / 8] as nat, 8)[j % 8])
}

pub proof fn lemma_bits_of_len(v: nat, n: nat)
    ensures
        #[trigger] bits_of(v, n).len() == n,
    decreases n,
{
    if n > 0 {
        lemma_bits_of_len(v / 2, (n - 1) as nat);
    }
}

/// A bit string spells a number below `2^len`.
pub proof fn lemma_bits_value_bound(s: Seq<bool>)
    ensures
        bits_value(s) < pow2(s.len()),
    decreases s.len(),
{
    if s.len() > 0 {
        lemma_bits_value_bound(s.drop_last());
        lemma_pow2_unfold(s.len());
    } else {
        lemma2_to64();
    }
}

/// The `n` bits of `v` spell `v` modulo `2^n`.
pub proof fn lemma_bits_value_of(v: nat, n: nat)
    ensures
        bits_value(bits_of(v, n)) == v % pow2(n),
    decreases n,
{
    lemma_bits_of_len(v, n);
    if n == 0 {
        lemma2_to64();
    } else {
        let s = bits_of(v, n);
        assert(s.drop_last() =~= bits_of(v / 2, (n - 1) as nat));
        lemma_bits_value_of(v / 2, (n - 1) as nat);
        lemma_pow2_unfold(n);
        lemma_pow2_pos((n - 1) as nat);
        lemma_mod_breakdown(v as int, 2, pow2((n - 1) as nat) as int);
    }
}

/// Splitting the `a + b` bits of `v` into its high `a` bits and low `b` bits.
pub proof fn lemma_bits_of_split(v: nat, a: nat, b: nat)
    ensures
        bits_of(v, a + b) =~= bits_of(v / pow2(b), a) + bits_of(v % pow2(b), b),
    decreases b,
{
    lemma_bits_of_len(v, a + b);
    lemma_bits_of_len(v / pow2(b), a);
    lemma_bits_of_len(v % pow2(b), b);
    if b == 0 {
        lemma2_to64();
        assert(bits_of(v % pow2(b), b) =~= Seq::empty());
    } else {
        let b1 = (b - 1) as nat;
        lemma_bits_of_split(v / 2, a, b1);
        lemma_pow2_unfold(b);
        lemma_pow2_pos(b1);
        lemma_div_denominator(v as int, 2, pow2(b1) as int);
        lemma_mod_breakdown(v as int, 2, pow2(b1) as int);
        let m = v % pow2(b);
        let q = (v / 2) % pow2(b1);
        assert(m == 2 * q + v % 2);
        lemma_fundamental_div_mod_converse(m as int, 2, q as int, (v % 2) as int);
        assert(bits_of(m, b) == bits_of(m / 2, b1).push(m % 2 == 1));
        assert(bits_of(v, a + b) == bits_of(v / 2, (a + b1) as nat).push(v % 2 == 1));
    }
}

/// Only the low `n` bits of `v` matter for `bits_of(v, n)`.
pub proof fn lemma_bits_of_mod(v: nat, n: nat)
    ensures
        bits_of(v, n) =~= bits_of(v % pow2(n), n),
{
    lemma_bits_of_split(v, 0, n);
    lemma_bits_of_len(v / pow2(n), 0);
    assert(bits_of(v / pow2(n), 0) =~= Seq::empty());
    assert(Seq::<bool>::empty() + bits_of(v % pow2(n), n) =~= bits_of(v % pow2(n), n));
}

/// The value of a concatenation.
pub proof fn lemma_bits_value_append(s: Seq<bool>, t: Seq<bool>)
    ensures
        bits_value(s + t) == bits_value(s) * pow2(t.len()) + bits_value(t),
    decreases t.len(),
{
    if t.len() == 0 {
        assert(s + t =~= s);
        lemma2_to64();
    } else {
        assert((s + t).drop_last() =~= s + t.drop_last());
        assert((s + t).last() == t.last());
        lemma_bits_value_append(s, t.drop_last());
        lemma_pow2_unfold(t.len());
        let vs = bits_value(s);
        let vt = bits_value(t.drop_last());
        let p = pow2((t.len() - 1) as nat);
        assert(2 * (vs * p + vt) == vs * (2 * p) + 2 * vt) by (nonlinear_arith);
    }
}

/// Writing the bits of a number and reading them back gives the number back.
pub proof fn lemma_bits_of_value(s: Seq<bool>)
    ensures
        bits_of(bits_value(s), s.len()) =~= s,
    decreases s.len(),
{
    lemma_bits_of_len(bits_value(s), s.len());
    if s.len() > 0 {
        let v = bits_value(s);
        let d = if s.last() { 1nat } else { 0nat };
        lemma_fundamental_div_mod_converse(v as int, 2, bits_value(s.drop_last()) as int, d as int);
        lemma_bits_of_value(s.drop_last());
        assert(s =~= s.drop_last().push(s.last()));
    }
}

/// Filling the top `t` of the `r` free low bits of a byte with the value `c`.
pub proof fn lemma_fill_byte(b: nat, c: nat, r: nat, t: nat)
    requires
        b < 256,
        r <= 8,
        1 <= t <= r,
        b % pow2(r) == 0,
        c < pow2(t),
    ensures
        b + c * pow2((r - t) as nat) < 256,
        (b + c * pow2((r - t) as nat)) % pow2((r - t) as nat) == 0,
        bits_of(b + c * pow2((r - t) as nat), 8).take(8 - r + t) =~= bits_of(b, 8).take(8 - r)
            + bits_of(c, t),
{
    let s = (r - t) as nat;
    let pr = pow2(r);
    let ps = pow2(s);
    let pt = pow2(t);
    let ph = pow2((8 - r) as nat);
    lemma_pow2_adds(t, s);
    lemma_pow2_adds((8 - r) as nat, r);
    lemma_pow2_pos(r);
    lemma_pow2_pos(s);
    lemma_pow2_pos(t);
    lemma2_to64();
    assert(pr == pt * ps);
    assert(ph * pr == 256);
    let q = b / pr;
    lemma_fundamental_div_mod(b as int, pr as int);
    assert(b == pr * q);
    let x = c * ps;
    assert(x < pr) by (nonlinear_arith)
        requires
            x == c * ps,
            c < pt,
            pr == pt * ps,
            ps > 0,
    ;
    let nb = b + x;
    assert(nb == q * pr + x) by (nonlinear_arith)
        requires
            nb == b + x,
            b == pr * q,
    ;
    lemma_fundamental_div_mod_converse(nb as int, pr as int, q as int, x as int);
    assert(q < ph) by (nonlinear_arith)
        requires
            b == pr * q,
            b < 256,
            ph * pr == 256,
            pr > 0,
    ;
    assert(nb < 256) by (nonlinear_arith)
        requires
            nb == q * pr + x,
            x < pr,
            q < ph,
            ph * pr == 256,
    ;
    assert(nb == (q * pt + c) * ps) by (nonlinear_arith)
        requires
            nb == q * pr + c * ps,
            pr == pt * ps,
    ;
    lemma_mod_multiples_basic((q * pt + c) as int, ps as int);
    assert(nb % ps == 0) by {
        lemma_mul_is_commutative((q * pt + c) as int, ps as int);
    }
    lemma_fundamental_div_mod_converse(x as int, ps as int, c as int, 0);
    lemma_fundamental_div_mod_converse(b as int, pr as int, q as int, 0);
    lemma_bits_of_split(nb, (8 - r) as nat, r);
    lemma_bits_of_split(b, (8 - r) as nat, r);
    lemma_bits_of_split(x, t, s);
    lemma_bits_of_len(q, (8 - r) as nat);
    lemma_bits_of_len(c, t);
    lemma_bits_of_len(0, s);
    lemma_bits_of_len(0, r);
}

/// Reading `t` bits of a byte that has `r` unread low bits.
pub proof fn lemma_byte_chunk(b: nat, r: nat, t: nat)
    requires
        b < 256,
        1 <= t <= r <= 8,
    ensures
        bits_value(bits_of(b, 8).subrange(8 - r, 8 - r + t)) == (b / pow2((r - t) as nat)) % pow2(
            t,
        ),
{
    let s = (r - t) as nat;
    lemma_pow2_adds(s, t);
    lemma_pow2_pos(s);
    lemma_pow2_pos(t);
    lemma_pow2_pos(r);
    lemma_bits_of_split(b, (8 - r) as nat, r);
    lemma_bits_of_split(b % pow2(r), t, s);
    lemma_bits_of_len(b / pow2(r), (8 - r) as nat);
    lemma_bits_of_len((b % pow2(r)) / pow2(s), t);
    lemma_bits_of_len((b % pow2(r)) % pow2(s), s);
    let chunk = bits_of((b % pow2(r)) / pow2(s), t);
    assert(bits_of(b, 8).subrange(8 - r, 8 - r + t) =~= chunk);
    lemma_bits_value_of((b % pow2(r)) / pow2(s), t);
    lemma_mod_breakdown(b as int, pow2(s) as int, pow2(t) as int);
    lemma_fundamental_div_mod_converse(
        (b % pow2(r)) as int,
        pow2(s) as int,
        ((b / pow2(s)) % pow2(t)) as int,
        (b % pow2(s)) as int,
    );
    lemma_mod_twice((b / pow2(s)) as int, pow2(t) as int);
}

pub proof fn lemma_bytes_bits_len(bytes: Seq<u8>)
    ensures
        #[trigger] bytes_bits(bytes).len() == 8 * bytes.len(),
{
}

/// The bits of a non-empty buffer: those of all but the last byte, then the last byte's.
pub proof fn lemma_bytes_bits_last(bytes: Seq<u8>)
    requires
        bytes.len() > 0,
    ensures
        bytes_bits(bytes) =~= bytes_bits(bytes.drop_last()) + bits_of(bytes.last() as nat, 8),
{
    let n = bytes.len();
    lemma_bits_of_len(bytes.last() as nat, 8);
    assert forall|j: int| 0 <= j < 8 * n implies #[trigger] bytes_bits(bytes)[j] == (
    bytes_bits(bytes.drop_last()) + bits_of(bytes.last() as nat, 8))[j] by {
        if j < 8 * (n - 1) {
            assert(j / 8 < n - 1) by {
                lemma_div_is_ordered(j, 8 * (n - 1) - 1, 8);
                lemma_div_multiples_vanish_fancy((n - 2) as int, 7, 8);
            }
        } else {
            lemma_fundamental_div_mod_converse(j, 8, (n - 1) as int, j - 8 * (n - 1));
        }
    }
}

/// A window of the bits of a buffer that lies within one byte.
pub proof fn lemma_bytes_bits_window(bytes: Seq<u8>, i: int, a: int, b: int)
    requires
        0 <= i < bytes.len(),
        0 <= a <= b <= 8,
    ensures
        bytes_bits(bytes).subrange(8 * i + a, 8 * i + b) =~= bits_of(bytes[i] as nat, 8).subrange(
            a,
            b,
        ),
{
    lemma_bits_of_len(bytes[i] as nat, 8);
    assert forall|k: int| 0 <= k < b - a implies #[trigger] bytes_bits(bytes).subrange(
        8 * i + a,
        8 * i + b,
    )[k] == bits_of(bytes[i] as nat, 8).subrange(a, b)[k] by {
        lemma_fundamental_div_mod_converse(8 * i + a + k, 8, i, a + k);
    }
}

pub proof fn lemma_bits_of_zero(n: nat)
    ensures
        bits_of(0, n) =~= Seq::new(n, |i: int| false),
    decreases n,
{
    lemma_bits_of_len(0, n);
    if n > 0 {
        lemma_bits_of_zero((n - 1) as nat);
    }
}

/// Filling the top `t` of the `r` free bits at the end of a buffer appends `t` bits.
pub proof fn lemma_fill_last_byte(buf: Seq<u8>, r: nat, c: nat, t: nat, nb: u8)
    requires
        buf.len() > 0,
        r <= 8,
        1 <= t <= r,
        buf.last() as nat % pow2(r) == 0,
        c < pow2(t),
        nb as nat == buf.last() as nat + c * pow2((r - t) as nat),
    ensures
        (nb as nat) % pow2((r - t) as nat) == 0,
        bytes_bits(buf.update(buf.len() - 1, nb)).take(8 * buf.len() - (r - t)) =~= bytes_bits(
            buf,
        ).take(8 * buf.len() - r) + bits_of(c, t),
{
    let n = buf.len();
    let buf1 = buf.update(n - 1, nb);
    let b = buf.last();
    lemma_fill_byte(b as nat, c, r, t);
    lemma_bytes_bits_last(buf1);
    lemma_bytes_bits_last(buf);
    assert(buf.drop_last() =~= buf1.drop_last());
    lemma_bits_of_len(nb as nat, 8);
    lemma_bits_of_len(b as nat, 8);
    lemma_bits_of_len(c, t);
    lemma_bytes_bits_len(buf.drop_last());
    let pre = bytes_bits(buf.drop_last());
    assert(bytes_bits(buf1).take(8 * n - (r - t)) =~= pre + bits_of(nb as nat, 8).take(
        8 - r + t,
    ));
    assert(bytes_bits(buf).take(8 * n - r) =~= pre + bits_of(b as nat, 8).take(8 - r));
}

/// Opening a fresh zero byte adds no written bits.
pub proof fn lemma_push_zero(buf: Seq<u8>)
    ensures
        bytes_bits(buf.push(0)).take(8 * buf.len() as int) =~= bytes_bits(buf),
{
    lemma_bytes_bits_last(buf.push(0));
    assert(buf.push(0).drop_last() =~= buf);
    lemma_bits_of_len(0, 8);
}

/// Taking `t` more bits from the top of `v` below the `r` already taken.
pub proof fn lemma_next_chunk(v: nat, r: nat, t: nat, a: nat)
    requires
        t <= r,
    ensures
        bits_of(v / pow2(r), a) + bits_of((v / pow2((r - t) as nat)) % pow2(t), t) =~= bits_of(
            v / pow2((r - t) as nat),
            a + t,
        ),
{
    let r1 = (r - t) as nat;
    lemma_pow2_adds(r1, t);
    lemma_pow2_pos(r1);
    lemma_pow2_pos(t);
    lemma_div_denominator(v as int, pow2(r1) as int, pow2(t) as int);
    lemma_bits_of_split(v / pow2(r1), a, t);
}

/// The base-2 logarithm of `x`, rounded down.
pub fn ilog2(x: usize) -> (r: u32)
    requires
        x > 0,
    ensures
        r < 64,
        pow2(r as nat) <= x < pow2(r as nat + 1),
{
    let mut r: u32 = 0;
    let mut y: usize = x;
    proof {
        lemma2_to64();
    }
    while y > 1
        invariant
            y >= 1,
            r < 64,
            pow2(r as nat) * y <= x < pow2(r as nat) * (y + 1),
        decreases y,
    {
        proof {
            lemma2_to64();
            lemma_pow2_unfold(r as nat + 1);
            lemma_pow2_pos(r as nat);
            lemma_fundamental_div_mod(y as int, 2);
            let p = pow2(r as nat);
            let q = pow2(r as nat + 1);
            assert(q * (y / 2) <= p * y && p * (y + 1) <= q * (y / 2 + 1)) by (nonlinear_arith)
                requires
                    y == 2 * (y / 2) + y % 2,
                    0 <= y % 2 < 2,
                    p > 0,
                    q == 2 * p,
            ;
            if r >= 63 {
                lemma_pow2_adds(63, (r - 63) as nat);
                lemma_pow2_pos((r - 63) as nat);
                assert(pow2(r as nat) * y >= pow2(63) * 2) by (nonlinear_arith)
                    requires
                        pow2(r as nat) == pow2(63) * pow2((r - 63) as nat),
                        pow2((r - 63) as nat) >= 1,
                        y >= 2,
                ;
                assert(false);
            }
        }
        y = y / 2;
        r = r + 1;
    }
    proof {
        lemma_pow2_unfold(r as nat + 1);
        assert(y == 1);
        assert(pow2(r as nat) * 1 == pow2(r as nat));
        assert(pow2(r as nat) * 2 == pow2(r as nat + 1));
    }
    r
}


/// The bits at `pos` begin with `x`.
pub open spec fn spells(bits: Seq<bool>, pos: int, x: Seq<bool>) -> bool {
    &&& 0 <= pos
    &&& pos + x.len() <= bits.len()
    &&& bits.subrange(pos, pos + x.len()) == x
}

/// Bits that begin with `a + b` begin with `a`, and go on with `b`.
pub proof fn lemma_spells_split(bits: Seq<bool>, pos: int, a: Seq<bool>, b: Seq<bool>)
    requires
        spells(bits, pos, a + b),
    ensures
        spells(bits, pos, a),
        spells(bits, pos + a.len(), b),
{
    assert(bits.subrange(pos, pos + a.len()) =~= (a + b).subrange(0, a.len() as int));
    assert(bits.subrange(pos + a.len(), pos + a.len() + b.len()) =~= (a + b).subrange(
        a.len() as int,
        (a.len() + b.len()) as int,
    ));
    assert((a + b).subrange(0, a.len() as int) =~= a);
    assert((a + b).subrange(a.len() as int, (a.len() + b.len()) as int) =~= b);
}

/// The number of bits that `x` takes: 0 for 0, else one more than the position of
/// its highest set bit.
pub open spec fn bit_width(x: nat) -> nat
    decreases x,
{
    if x == 0 {
        0
    } else {
        1 + bit_width(x / 2)
    }
}

/// For `x >= 1`, `w` is the bit width of `x` when `2^(w - 1) <= x < 2^w`.
pub proof fn lemma_bit_width(x: nat, w: nat)
    requires
        x >= 1,
        w >= 1,
        pow2((w - 1) as nat) <= x < pow2(w),
    ensures
        bit_width(x) == w,
    decreases w,
{
    lemma_pow2_unfold(w);
    if w == 1 {
        lemma2_to64();
        assert(x == 1);
        assert(bit_width(0) == 0);
    } else {
        lemma_pow2_unfold((w - 1) as nat);
        lemma_bit_width(x / 2, (w - 1) as nat);
    }
}

/// A number below `2^k` takes at most `k` bits.
pub proof fn lemma_bit_width_bound(x: nat, k: nat)
    requires
        x < pow2(k),
    ensures
        bit_width(x) <= k,
    decreases k,
{
    if k == 0 {
        lemma2_to64();
    } else {
        lemma_pow2_unfold(k);
        if x > 0 {
            lemma_bit_width_bound(x / 2, (k - 1) as nat);
        }
    }
}

/// Bytes are told apart by their bits.
pub proof fn lemma_bytes_bits_injective(x: Seq<u8>, y: Seq<u8>)
    requires
        x.len() == y.len(),
        bytes_bits(x) == bytes_bits(y),
    ensures
        x == y,
{
    assert forall|i: int| 0 <= i < x.len() implies x[i] == y[i] by {
        lemma_bytes_bits_window(x, i, 0, 8);
        lemma_bytes_bits_window(y, i, 0, 8);
        assert(bits_of(x[i] as nat, 8).subrange(0, 8) =~= bits_of(x[i] as nat, 8)) by {
            lemma_bits_of_len(x[i] as nat, 8);
        }
        assert(bits_of(y[i] as nat, 8).subrange(0, 8) =~= bits_of(y[i] as nat, 8)) by {
            lemma_bits_of_len(y[i] as nat, 8);
        }
        lemma_bits_value_of(x[i] as nat, 8);
        lemma_bits_value_of(y[i] as nat, 8);
        lemma2_to64();
    }
    assert(x =~= y);
}
} // verus!
