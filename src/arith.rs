//! Integer facts about divisibility, rounding up and powers of two.
use vstd::arithmetic::div_mod::{
    lemma_fundamental_div_mod, lemma_mod_multiples_basic, lemma_mod_pos_bound,
};
use vstd::prelude::*;

verus! {

/// `n` is a power of two (1, 2, 4, ...).
pub open spec fn is_pow2(n: int) -> bool
    decreases n,
{
    if n <= 0 {
        false
    } else if n == 1 {
        true
    } else {
        n % 2 == 0 && is_pow2(n / 2)
    }
}

/// Whether `x` is a power of two.
pub fn is_power_of_two(x: usize) -> (r: bool)
    ensures
        r == is_pow2(x as int),
{
    if x == 0 {
        return false;
    }
    let mut v: usize = x;
    while v > 1
        invariant
            v > 0,
            is_pow2(x as int) == is_pow2(v as int),
        decreases v,
    {
        if v % 2 != 0 {
            return false;
        }
        v = v / 2;
    }
    true
}

/// The smallest multiple of `a` that is at least `x`.
pub open spec fn round_up(x: int, a: int) -> int {
    if x % a == 0 {
        x
    } else {
        x + (a - x % a)
    }
}

pub proof fn lemma_divides_trans(x: int, c: int, a: int)
    requires
        a > 0,
        c > 0,
        x % c == 0,
        c % a == 0,
    ensures
        x % a == 0,
{
    lemma_fundamental_div_mod(x, c);
    lemma_fundamental_div_mod(c, a);
    let k = (c / a) * (x / c);
    assert(x == k * a) by (nonlinear_arith)
        requires
            x == c * (x / c) + x % c,
            c == a * (c / a) + c % a,
            x % c == 0,
            c % a == 0,
            k == (c / a) * (x / c),
    ;
    lemma_mod_multiples_basic(k, a);
}

pub proof fn lemma_divides_add(x: int, y: int, a: int)
    requires
        a > 0,
        x % a == 0,
        y % a == 0,
    ensures
        (x + y) % a == 0,
{
    lemma_fundamental_div_mod(x, a);
    lemma_fundamental_div_mod(y, a);
    let k = x / a + y / a;
    assert(x + y == k * a) by (nonlinear_arith)
        requires
            x == a * (x / a) + x % a,
            y == a * (y / a) + y % a,
            x % a == 0,
            y % a == 0,
            k == x / a + y / a,
    ;
    lemma_mod_multiples_basic(k, a);
}

pub proof fn lemma_round_up(x: int, a: int)
    requires
        a > 0,
    ensures
        round_up(x, a) % a == 0,
        x <= round_up(x, a) < x + a,
{
    lemma_mod_pos_bound_int(x, a);
    if x % a != 0 {
        lemma_fundamental_div_mod(x, a);
        let k = x / a + 1;
        assert(round_up(x, a) == k * a) by (nonlinear_arith)
            requires
                x == a * (x / a) + x % a,
                k == x / a + 1,
                round_up(x, a) == x + (a - x % a),
        ;
        lemma_mod_multiples_basic(k, a);
    }
}

proof fn lemma_mod_pos_bound_int(x: int, a: int)
    requires
        a > 0,
    ensures
        0 <= x % a < a,
{
}

/// A power of two divides every power of two that is not smaller.
pub proof fn lemma_pow2_divides(a: int, c: int)
    requires
        is_pow2(a),
        is_pow2(c),
        a <= c,
    ensures
        c % a == 0,
    decreases c,
{
    if a == 1 {
    } else {
        assert(c != 1);
        assert(a % 2 == 0 && is_pow2(a / 2));
        assert(c % 2 == 0 && is_pow2(c / 2));
        lemma_pow2_divides(a / 2, c / 2);
        lemma_fundamental_div_mod(c / 2, a / 2);
        let k = (c / 2) / (a / 2);
        assert(c == k * a) by (nonlinear_arith)
            requires
                c / 2 == (a / 2) * k + (c / 2) % (a / 2),
                (c / 2) % (a / 2) == 0,
                c % 2 == 0,
                a % 2 == 0,
                k == (c / 2) / (a / 2),
        ;
        lemma_mod_multiples_basic(k, a);
    }
}

/// From an address that is a multiple of 8, rounding up to a power-of-two
/// alignment skips at most `align - 8` bytes (none when `align <= 8`).
pub proof fn lemma_pad_bound(x: int, align: int)
    requires
        x >= 0,
        x % 8 == 0,
        is_pow2(align),
    ensures
        round_up(x, align) - x <= if align > 8 { align - 8 } else { 0 },
{
    assert(is_pow2(1));
    assert(is_pow2(2));
    assert(is_pow2(4));
    assert(is_pow2(8));
    lemma_mod_pos_bound(x, align);
    if align <= 8 {
        lemma_pow2_divides(align, 8);
        lemma_divides_trans(x, 8, align);
    } else {
        lemma_pow2_divides(8, align);
        lemma_fundamental_div_mod(x, align);
        lemma_fundamental_div_mod(x, 8);
        lemma_fundamental_div_mod(align, 8);
        let r = x % align;
        let m = x / 8 - (align / 8) * (x / align);
        assert(r == m * 8) by (nonlinear_arith)
            requires
                x == align * (x / align) + r,
                x == 8 * (x / 8) + x % 8,
                align == 8 * (align / 8) + align % 8,
                x % 8 == 0,
                align % 8 == 0,
                m == x / 8 - (align / 8) * (x / align),
        ;
        lemma_mod_multiples_basic(m, 8);
    }
}

} // verus!
