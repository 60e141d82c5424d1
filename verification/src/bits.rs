//! Bitboards as sets of squares.
//!
//! A `u64` bitboard holds square `s` (0 <= s < 64) when bit `s` is set.
//! `squares_from` lists, in ascending order, the squares that satisfy a
//! predicate; the lemmas here tie that list to the usual idiom that walks a
//! bitboard from its lowest set bit upwards.
use vstd::prelude::*;
use vstd::std_specs::bits::{u64_trailing_zeros, axiom_u64_trailing_zeros};

verus! {

/// Bit `i` of `b` is set.
pub open spec fn has_bit(b: u64, i: u64) -> bool {
    (b >> i) & 1u64 == 1u64
}

/// The squares held by bitboard `b`.
pub open spec fn bit_pred(b: u64) -> spec_fn(int) -> bool {
    |s: int| 0 <= s < 64 && has_bit(b, s as u64)
}

/// The squares `s` with `i <= s < 64` that satisfy `p`, in ascending order.
pub open spec fn squares_from(p: spec_fn(int) -> bool, i: int) -> Seq<u8>
    decreases 64 - i,
{
    if i >= 64 {
        seq![]
    } else if p(i) {
        seq![i as u8] + squares_from(p, i + 1)
    } else {
        squares_from(p, i + 1)
    }
}

/// All squares that satisfy `p`, in ascending order.
pub open spec fn squares(p: spec_fn(int) -> bool) -> Seq<u8> {
    squares_from(p, 0)
}

/// The squares of bitboard `b`, in ascending order.
pub open spec fn bit_squares(b: u64) -> Seq<u8> {
    squares(bit_pred(b))
}

/// Bitwise and, or and not act on each bit on its own.
pub proof fn lemma_bit_ops(a: u64, b: u64, i: u64)
    by (bit_vector)
    requires
        i < 64,
    ensures
        has_bit(a & b, i) == (has_bit(a, i) && has_bit(b, i)),
        has_bit(a | b, i) == (has_bit(a, i) || has_bit(b, i)),
        has_bit(!a, i) == !has_bit(a, i),
        has_bit(a ^ b, i) == (has_bit(a, i) != has_bit(b, i)),
        !has_bit(0u64, i),
{
}

proof fn lemma_xor_zero(a: u64, b: u64)
    by (bit_vector)
    ensures
        (a ^ b == 0) == (a == b),
{
}

/// Two bitboards that hold the same squares are equal.
pub proof fn lemma_bits_ext(a: u64, b: u64)
    requires
        forall|i: u64| i < 64 ==> #[trigger] has_bit(a, i) == has_bit(b, i),
    ensures
        a == b,
{
    lemma_xor_zero(a, b);
    if a ^ b != 0 {
        lemma_nonzero_has_bit(a ^ b);
        let t = u64_trailing_zeros(a ^ b) as u64;
        lemma_bit_ops(a, b, t);
        assert(has_bit(a, t) == has_bit(b, t));
    }
}

/// Shifting left by `k` moves bit `i - k` to bit `i`.
pub proof fn lemma_bit_shl(a: u64, k: u64, i: u64)
    by (bit_vector)
    requires
        i < 64,
        k < 64,
    ensures
        has_bit(a << k, i) == (i >= k && has_bit(a, (i - k) as u64)),
{
}

/// Shifting right by `k` moves bit `i + k` to bit `i`.
pub proof fn lemma_bit_shr(a: u64, k: u64, i: u64)
    by (bit_vector)
    requires
        i < 64,
        k < 64,
    ensures
        has_bit(a >> k, i) == (i + k < 64 && has_bit(a, (i + k) as u64)),
{
}

/// `1 << t` holds exactly square `t`.
pub proof fn lemma_bit_single(t: u64, i: u64)
    by (bit_vector)
    requires
        i < 64,
        t < 64,
    ensures
        has_bit(1u64 << t, i) == (i == t),
{
}

/// A single-square bitboard meets `b` exactly when `b` holds that square.
pub proof fn lemma_single_and(t: u64, b: u64)
    by (bit_vector)
    requires
        t < 64,
    ensures
        ((1u64 << t) & b != 0) == has_bit(b, t),
{
}

/// A bitboard that holds square `t` alone meets `x` exactly when `x` holds
/// `t`.
pub proof fn lemma_meets_single(bb: u64, t: u64, x: u64)
    requires
        t < 64,
        forall|i: u64| i < 64 ==> (#[trigger] has_bit(bb, i) <==> i == t),
    ensures
        (bb & x != 0) == has_bit(x, t),
        (x & bb != 0) == has_bit(x, t),
{
    lemma_bit_ops(bb, x, t);
    lemma_bit_ops(x, bb, t);
    lemma_bit_ops(0, 0, t);
    if bb & x != 0 {
        lemma_nonzero_has_bit(bb & x);
        let i = u64_trailing_zeros(bb & x) as u64;
        lemma_bit_ops(bb, x, i);
    }
    if x & bb != 0 {
        lemma_nonzero_has_bit(x & bb);
        let i = u64_trailing_zeros(x & bb) as u64;
        lemma_bit_ops(x, bb, i);
    }
}

/// `1 << t` (with a `u8` shift) meets `b` exactly when `b` holds `t`.
pub proof fn lemma_meets_single_shift(t: u8, b: u64)
    by (bit_vector)
    requires
        t < 64,
    ensures
        ((1u64 << t) & b != 0) == has_bit(b, t as u64),
{
}

proof fn lemma_clear_lowest_bits(x: u64, t: u64, i: u64)
    by (bit_vector)
    requires
        x != 0,
        t < 64,
        i < 64,
        (x >> t) & 1u64 == 1u64,
        x << (64 - t) as u64 == 0,
    ensures
        has_bit(x & ((x - 1) as u64), i) == (has_bit(x, i) && i != t),
        i < t ==> !has_bit(x, i),
        x & ((x - 1) as u64) < x,
{
}

/// A non-zero bitboard holds the square given by its trailing zeros.
pub proof fn lemma_nonzero_has_bit(x: u64)
    requires
        x != 0,
    ensures
        u64_trailing_zeros(x) < 64,
        has_bit(x, u64_trailing_zeros(x) as u64),
{
    axiom_u64_trailing_zeros(x);
}

/// Each element of `squares_from(p, i)` lies in `[i, 64)` and satisfies `p`,
/// each such square occurs in it, and the list is strictly increasing.
pub proof fn lemma_squares_from_props(p: spec_fn(int) -> bool, i: int)
    requires
        0 <= i,
    ensures
        forall|k: int|
            0 <= k < squares_from(p, i).len() ==> i <= #[trigger] squares_from(p, i)[k] < 64
                && p(squares_from(p, i)[k] as int),
        forall|s: int| i <= s < 64 && #[trigger] p(s) ==> squares_from(p, i).contains(s as u8),
        forall|k1: int, k2: int|
            0 <= k1 < k2 < squares_from(p, i).len() ==> squares_from(p, i)[k1]
                < squares_from(p, i)[k2],
        squares_from(p, i).len() <= 64 - i || i >= 64,
    decreases 64 - i,
{
    if i < 64 {
        lemma_squares_from_props(p, i + 1);
        let rest = squares_from(p, i + 1);
        if p(i) {
            let s = seq![i as u8] + rest;
            assert forall|k: int| 0 <= k < s.len() implies i <= #[trigger] s[k] < 64 && p(
                s[k] as int,
            ) by {
                if k > 0 {
                    assert(s[k] == rest[k - 1]);
                }
            }
            assert forall|t: int| i <= t < 64 && #[trigger] p(t) implies s.contains(t as u8) by {
                if t == i {
                    assert(s[0] == t as u8);
                } else {
                    let k = choose|k: int| 0 <= k < rest.len() && rest[k] == t as u8;
                    assert(s[k + 1] == t as u8);
                }
            }
            assert forall|k1: int, k2: int| 0 <= k1 < k2 < s.len() implies s[k1] < s[k2] by {
                assert(s[k2] == rest[k2 - 1]);
                if k1 > 0 {
                    assert(s[k1] == rest[k1 - 1]);
                }
            }
        }
    }
}

/// Lists of two predicates that agree on `[i, 64)` are equal.
pub proof fn lemma_squares_from_ext(p: spec_fn(int) -> bool, q: spec_fn(int) -> bool, i: int)
    requires
        forall|s: int| i <= s < 64 ==> #[trigger] p(s) == q(s),
    ensures
        squares_from(p, i) == squares_from(q, i),
    decreases 64 - i,
{
    if i < 64 {
        lemma_squares_from_ext(p, q, i + 1);
    }
}

/// Squares in `[i, k)` that fail `p` do not change the list.
pub proof fn lemma_squares_from_skip(p: spec_fn(int) -> bool, i: int, k: int)
    requires
        i <= k <= 64,
        forall|s: int| i <= s < k ==> !#[trigger] p(s),
    ensures
        squares_from(p, i) == squares_from(p, k),
    decreases k - i,
{
    if i < k {
        lemma_squares_from_skip(p, i + 1, k);
    }
}

/// The empty bitboard holds no square.
pub proof fn lemma_bit_squares_zero()
    ensures
        bit_squares(0) == Seq::<u8>::empty(),
{
    assert forall|s: int| 0 <= s < 64 implies !#[trigger] bit_pred(0)(s) by {
        lemma_bit_ops(0, 0, s as u64);
    }
    lemma_squares_from_skip(bit_pred(0), 0, 64);
}

/// Clearing the lowest set bit of `x` removes the first square of its list.
pub proof fn lemma_bit_squares_pop(x: u64)
    requires
        x != 0,
    ensures
        u64_trailing_zeros(x) < 64,
        bit_squares(x) == seq![u64_trailing_zeros(x) as u8] + bit_squares(x & ((x - 1) as u64)),
        x & ((x - 1) as u64) < x,
{
    axiom_u64_trailing_zeros(x);
    let t = u64_trailing_zeros(x) as u64;
    let y = x & ((x - 1) as u64);
    let px = bit_pred(x);
    let py = bit_pred(y);
    assert forall|s: int| 0 <= s < 64 implies (#[trigger] py(s) == (px(s) && s != t)) && (s < t
        ==> !px(s)) by {
        lemma_clear_lowest_bits(x, t, s as u64);
    }
    lemma_clear_lowest_bits(x, t, 0);
    lemma_squares_from_skip(px, 0, t as int);
    lemma_squares_from_skip(py, 0, t + 1);
    lemma_squares_from_ext(px, py, t + 1);
    assert(squares_from(px, t as int) == seq![t as u8] + squares_from(px, t + 1));
}

} // verus!
