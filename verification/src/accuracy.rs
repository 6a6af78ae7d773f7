//! How far a result of single-precision arithmetic can be from the exact one.
//!
//! Exact results are whole numbers of units, or of fractions of them, so what is
//! stated here speaks of whole numbers only: two of them are compared by the parts
//! of the larger one that they are apart.

use vstd::arithmetic::power2::{
    lemma2_to64, lemma_pow2_adds, lemma_pow2_pos, lemma_pow2_strictly_increases, pow2,
};
use vstd::prelude::*;

use crate::binary32::{
    difference, distance, is_finite, is_nan, is_nearest_root, is_negative, law_nearest_exists,
    law_rounding_exact, law_rounding_monotone, lemma_nearest_zero,
    lemma_units_increase, lemma_units_split, lemma_units_step, magnitude, nearest, nearest_int,
    nearest_root, negated, one_units, product, quotient, square_root, sum, units, value, whole,
    FRACTIONS, INFINITY,
};

verus! {

/// The parts that the larger of two numbers is thought to have.
pub const PARTS: u32 = 0x100_0000;

/// Whether two numbers are apart by at most `n` of the parts of either.
pub open spec fn within(x: nat, y: nat, n: nat) -> bool {
    &&& x * PARTS as nat <= y * (PARTS as nat + n)
    &&& y * PARTS as nat <= x * (PARTS as nat + n)
}

pub proof fn lemma_within_itself(x: nat, n: nat)
    ensures
        within(x, x, n),
{
    assert(x * PARTS as nat <= x * (PARTS as nat + n)) by (nonlinear_arith);
}

pub proof fn lemma_within_more(x: nat, y: nat, n: nat, m: nat)
    requires
        within(x, y, n),
        n <= m,
    ensures
        within(x, y, m),
{
    assert(y * (PARTS as nat + n) <= y * (PARTS as nat + m)) by (nonlinear_arith)
        requires
            n <= m,
    ;
    assert(x * (PARTS as nat + n) <= x * (PARTS as nat + m)) by (nonlinear_arith)
        requires
            n <= m,
    ;
}

/// Numbers that are apart by few parts differ by less than their double.
pub proof fn lemma_within_double(x: nat, y: nat, n: nat)
    requires
        within(x, y, n),
        n <= PARTS,
    ensures
        x <= 2 * y,
        y <= 2 * x,
{
    let p = PARTS as nat;
    assert(x <= 2 * y) by (nonlinear_arith)
        requires
            x * p <= y * (p + n),
            n <= p,
            p > 0,
    ;
    assert(y <= 2 * x) by (nonlinear_arith)
        requires
            y * p <= x * (p + n),
            n <= p,
            p > 0,
    ;
}

#[verifier::spinoff_prover]
proof fn lemma_half_chain(a: nat, b: nat, c: nat, m: nat, n: nat)
    requires
        a * PARTS as nat <= b * (PARTS as nat + m),
        b * PARTS as nat <= c * (PARTS as nat + n),
        m <= 1000,
        n <= 1000,
    ensures
        a * PARTS as nat <= c * (PARTS as nat + (m + n + 1)),
{
    let p = PARTS as nat;
    assert((a * p) * p <= (b * (p + m)) * p) by (nonlinear_arith)
        requires
            a * p <= b * (p + m),
    ;
    assert((b * (p + m)) * p == (b * p) * (p + m)) by (nonlinear_arith);
    assert((b * p) * (p + m) <= (c * (p + n)) * (p + m)) by (nonlinear_arith)
        requires
            b * p <= c * (p + n),
    ;
    assert((p + n) * (p + m) == p * p + p * (m + n) + m * n) by (nonlinear_arith);
    assert(m * n <= 1000000) by (nonlinear_arith)
        requires
            m <= 1000,
            n <= 1000,
    ;
    assert((p + n) * (p + m) <= (p + (m + n + 1)) * p) by (nonlinear_arith)
        requires
            (p + n) * (p + m) == p * p + p * (m + n) + m * n,
            m * n <= 1000000,
            p == 0x100_0000,
    ;
    assert((c * (p + n)) * (p + m) == c * ((p + n) * (p + m))) by (nonlinear_arith);
    assert(c * ((p + n) * (p + m)) <= c * ((p + (m + n + 1)) * p)) by (nonlinear_arith)
        requires
            (p + n) * (p + m) <= (p + (m + n + 1)) * p,
    ;
    assert(c * ((p + (m + n + 1)) * p) == (c * (p + (m + n + 1))) * p) by (nonlinear_arith);
    assert(a * p <= c * (p + (m + n + 1))) by (nonlinear_arith)
        requires
            (a * p) * p <= (c * (p + (m + n + 1))) * p,
            p > 0,
    ;
}

pub proof fn lemma_within_chain(a: nat, b: nat, c: nat, m: nat, n: nat)
    requires
        within(a, b, m),
        within(b, c, n),
        m <= 1000,
        n <= 1000,
    ensures
        within(a, c, m + n + 1),
{
    lemma_half_chain(a, b, c, m, n);
    lemma_half_chain(c, b, a, n, m);
}

pub proof fn lemma_within_scaled(a: nat, b: nat, k: nat, n: nat)
    requires
        within(a, b, n),
    ensures
        within(a * k, b * k, n),
        within(k * a, k * b, n),
{
    let p = PARTS as nat;
    assert((a * k) * p <= (b * k) * (p + n)) by (nonlinear_arith)
        requires
            a * p <= b * (p + n),
    ;
    assert((b * k) * p <= (a * k) * (p + n)) by (nonlinear_arith)
        requires
            b * p <= a * (p + n),
    ;
    assert(a * k == k * a && b * k == k * b) by (nonlinear_arith);
}

pub proof fn lemma_within_unscaled(a: nat, b: nat, k: nat, n: nat)
    requires
        within(a * k, b * k, n),
        k > 0,
    ensures
        within(a, b, n),
{
    let p = PARTS as nat;
    assert((a * k) * p == (a * p) * k && (b * k) * p == (b * p) * k) by (nonlinear_arith);
    assert((a * k) * (p + n) == (a * (p + n)) * k && (b * k) * (p + n) == (b * (p + n)) * k)
        by (nonlinear_arith);
    assert(a * p <= b * (p + n)) by (nonlinear_arith)
        requires
            (a * p) * k <= (b * (p + n)) * k,
            k > 0,
    ;
    assert(b * p <= a * (p + n)) by (nonlinear_arith)
        requires
            (b * p) * k <= (a * (p + n)) * k,
            k > 0,
    ;
}

pub proof fn lemma_within_product(a: nat, b: nat, c: nat, d: nat, m: nat, n: nat)
    requires
        within(a, b, m),
        within(c, d, n),
        m <= 1000,
        n <= 1000,
    ensures
        within(a * c, b * d, m + n + 1),
{
    lemma_within_scaled(a, b, c, m);
    lemma_within_scaled(c, d, b, n);
    lemma_within_chain(a * c, b * c, b * d, m, n);
}

pub proof fn lemma_within_sum(a: nat, b: nat, c: nat, d: nat, n: nat)
    requires
        within(a, b, n),
        within(c, d, n),
    ensures
        within(a + c, b + d, n),
{
    let p = PARTS as nat;
    assert((a + c) * p == a * p + c * p && (b + d) * p == b * p + d * p) by (nonlinear_arith);
    assert((a + c) * (p + n) == a * (p + n) + c * (p + n)) by (nonlinear_arith);
    assert((b + d) * (p + n) == b * (p + n) + d * (p + n)) by (nonlinear_arith);
}

/// The numbers next to a normal one are a small part of it away.
#[verifier::spinoff_prover]
proof fn lemma_gap(n: nat)
    requires
        n >= FRACTIONS,
    ensures
        (units(n + 1) - units(n)) * FRACTIONS <= units(n),
        (units(n) - units((n - 1) as nat)) * FRACTIONS <= units(n),
        units((n - 1) as nat) < units(n) < units(n + 1),
{
    let f = FRACTIONS as nat;
    let q = (n / f - 1) as nat;
    let m = f + n % f;
    assert(n == q * f + m) by (nonlinear_arith)
        requires
            q == n / f - 1,
            m == f + n % f,
            f > 0,
    ;
    let p = pow2(q);
    lemma_units_split(m, q);
    lemma_units_split(m + 1, q);
    assert(q * f + (m + 1) == n + 1);
    lemma_pow2_pos(q);
    lemma_units_step(n);
    lemma_units_step((n - 1) as nat);
    assert((m + 1) * p == m * p + p) by (nonlinear_arith);
    assert(p * f <= m * p) by (nonlinear_arith)
        requires
            f <= m,
    ;
    if m > f || q == 0 {
        lemma_units_split((m - 1) as nat, q);
        assert(q * f + (m - 1) == n - 1);
        assert((m - 1) * p == m * p - p) by (nonlinear_arith);
    } else {
        let h = (q - 1) as nat;
        assert(n - 1 == h * f + (2 * f - 1)) by (nonlinear_arith)
            requires
                n == q * f + m,
                m == f,
                h == q - 1,
        ;
        lemma_units_split((2 * f - 1) as nat, h);
        lemma_pow2_adds(1, h);
        lemma2_to64();
        let r = pow2(h);
        assert(p == 2 * r);
        assert((2 * f - 1) * r == 2 * f * r - r) by (nonlinear_arith);
        assert(m * p == 2 * f * r) by (nonlinear_arith)
            requires
                m == f,
                p == 2 * r,
        ;
        assert(r * f <= m * p) by (nonlinear_arith)
            requires
                m * p == 2 * f * r,
        ;
    }
}

/// Rounding what is not below the normal numbers keeps all but one part of it.
pub proof fn lemma_rounding_is_accurate(num: nat, den: nat)
    requires
        den > 0,
        FRACTIONS as nat * den <= num,
        nearest(num, den) < INFINITY,
    ensures
        within(units(nearest(num, den) as nat) * den, num, 2),
        nearest(num, den) >= FRACTIONS,
{
    law_nearest_exists(num, den);
    lemma_units_split(FRACTIONS as nat, 0);
    lemma2_to64();
    law_rounding_exact(FRACTIONS, den);
    law_rounding_monotone(FRACTIONS as nat * den, num, den);
    let n = nearest(num, den) as nat;
    assert(n >= FRACTIONS);
    lemma_gap(n);
    let u = units(n);
    let above = units(n + 1);
    let below = units((n - 1) as nat);
    lemma_two_sides(num, den, u, (above - u) as nat, (u - below) as nat);
}

#[verifier::spinoff_prover]
proof fn lemma_two_sides(num: nat, den: nat, u: nat, up: nat, down: nat)
    requires
        (2 * u - down) * den <= 2 * num,
        2 * num <= (2 * u + up) * den,
        up * 0x80_0000 <= u,
        down * 0x80_0000 <= u,
    ensures
        within(u * den, num, 2),
{
    let p = PARTS as nat;
    // 2 * num * f <= (2 * u * f + u) * den
    assert((2 * num) * 0x80_0000 <= ((2 * u + up) * den) * 0x80_0000);
    assert(((2 * u + up) * den) * 0x80_0000 == ((2 * u) * 0x80_0000 + up * 0x80_0000) * den)
        by (nonlinear_arith);
    assert(((2 * u) * 0x80_0000 + up * 0x80_0000) * den <= ((2 * u) * 0x80_0000 + u) * den)
        by (nonlinear_arith)
        requires
            up * 0x80_0000 <= u,
    ;
    assert(((2 * u) * 0x80_0000 + u) * den == (u * den) * 0x100_0001) by (nonlinear_arith);
    assert(num * p <= (u * den) * (p + 1));
    assert(((2 * u - down) * den) * 0x80_0000 == ((2 * u) * 0x80_0000 - down * 0x80_0000) * den)
        by (nonlinear_arith);
    assert(((2 * u) * 0x80_0000 - down * 0x80_0000) * den >= ((2 * u) * 0x80_0000 - u) * den)
        by (nonlinear_arith)
        requires
            down * 0x80_0000 <= u,
    ;
    assert(((2 * u) * 0x80_0000 - u) * den == (u * den) * 0xff_ffff) by (nonlinear_arith);
    assert((u * den) * 0xff_ffff <= num * p);
    assert(num * p <= (u * den) * (p + 2)) by (nonlinear_arith)
        requires
            num * p <= (u * den) * (p + 1),
    ;
    let x = u * den;
    assert((x * p) * p <= (num * (p + 2)) * p) by (nonlinear_arith)
        requires
            x * 0xff_ffff <= num * p,
            p == 0x100_0000,
    ;
    assert(x * p <= num * (p + 2)) by (nonlinear_arith)
        requires
            (x * p) * p <= (num * (p + 2)) * p,
            p > 0,
    ;
}

/// A power of two as bits and as a number of units.
pub proof fn lemma_power_bits(k: nat)
    requires
        23 <= k <= 276,
    ensures
        units(((k - 22) * FRACTIONS) as nat) == pow2(k),
        (k - 22) * FRACTIONS < INFINITY,
{
    lemma_units_split(FRACTIONS as nat, (k - 23) as nat);
    lemma2_to64();
    lemma_pow2_adds(23, (k - 23) as nat);
    assert((k - 23) as nat * FRACTIONS as nat + FRACTIONS as nat == ((k - 22) * FRACTIONS) as nat)
        by (nonlinear_arith)
        requires
            k >= 23,
    ;
    assert((k - 22) * FRACTIONS <= 254 * FRACTIONS) by (nonlinear_arith)
        requires
            k <= 276,
    ;
}

/// What is at most a power of two is rounded to at most that, and what is at least one
/// to at least that.
pub proof fn lemma_rounded_range(num: nat, den: nat, k: nat)
    requires
        den > 0,
        23 <= k <= 276,
    ensures
        num <= pow2(k) * den ==> nearest(num, den) < INFINITY && units(nearest(num, den) as nat)
            <= pow2(k),
        pow2(k) * den <= num ==> units(nearest(num, den) as nat) >= pow2(k),
{
    lemma_power_bits(k);
    let t = ((k - 22) * FRACTIONS) as u32;
    law_rounding_exact(t, den);
    if num <= pow2(k) * den {
        law_rounding_monotone(num, pow2(k) * den, den);
        lemma_units_increase(nearest(num, den) as nat, t as nat);
    }
    if pow2(k) * den <= num {
        law_rounding_monotone(pow2(k) * den, num, den);
        lemma_units_increase(t as nat, nearest(num, den) as nat);
    }
}

/// A sum has the sign of the exact sum, and is zero only if that is.
pub proof fn law_sum_keeps_the_sign(a: u32, b: u32)
    requires
        is_finite(a),
        is_finite(b),
    ensures
        !is_nan(sum(a, b)),
        value(a) + value(b) == 0 <==> magnitude(sum(a, b)) == 0,
        value(a) + value(b) > 0 ==> !is_negative(sum(a, b)),
        value(a) + value(b) < 0 ==> is_negative(sum(a, b)),
{
    let d = distance(value(a) + value(b));
    law_nearest_exists(d, 1);
    if d > 0 {
        lemma_units_split(1, 0);
        lemma2_to64();
        law_rounding_exact(1, 1);
        law_rounding_monotone(1, d, 1);
    }
}

/// A sum is the exact one but for rounding.
pub proof fn law_sum_is_accurate(a: u32, b: u32)
    requires
        is_finite(a),
        is_finite(b),
        distance(value(a) + value(b)) <= pow2(276),
    ensures
        is_finite(sum(a, b)),
        within(units(magnitude(sum(a, b)) as nat), distance(value(a) + value(b)), 2),
{
    let d = distance(value(a) + value(b));
    law_sum_keeps_the_sign(a, b);
    lemma_units_split(0, 0);
    lemma2_to64();
    if d == 0 {
        lemma_within_itself(0, 2);
    } else {
        lemma_rounded_range(d, 1, 276);
        let n = nearest(d, 1);
        assert(magnitude(sum(a, b)) == n);
        if d < FRACTIONS {
            lemma_units_split(d, 0);
            law_rounding_exact(d as u32, 1);
            lemma_within_itself(d, 2);
        } else {
            lemma_rounding_is_accurate(d, 1);
        }
    }
}

/// Turning the sign turns the number.
pub proof fn lemma_negated(b: u32)
    ensures
        value(negated(b)) == -value(b),
        is_finite(negated(b)) == is_finite(b),
        magnitude(negated(b)) == magnitude(b),
{
}

/// A difference has the sign of the exact difference, and is zero only if that is.
pub proof fn law_difference_keeps_the_sign(a: u32, b: u32)
    requires
        is_finite(a),
        is_finite(b),
    ensures
        !is_nan(difference(a, b)),
        value(a) == value(b) <==> magnitude(difference(a, b)) == 0,
        value(a) > value(b) ==> !is_negative(difference(a, b)),
        value(a) < value(b) ==> is_negative(difference(a, b)),
{
    lemma_negated(b);
    law_sum_keeps_the_sign(a, negated(b));
}

/// A difference is the exact one but for rounding.
pub proof fn law_difference_is_accurate(a: u32, b: u32)
    requires
        is_finite(a),
        is_finite(b),
        distance(value(a) - value(b)) <= pow2(276),
    ensures
        is_finite(difference(a, b)),
        within(units(magnitude(difference(a, b)) as nat), distance(value(a) - value(b)), 2),
{
    lemma_negated(b);
    law_sum_is_accurate(a, negated(b));
}

/// The sign of a product is that of the exact one.
pub proof fn law_product_keeps_the_sign(a: u32, b: u32)
    requires
        is_finite(a),
        is_finite(b),
    ensures
        !is_nan(product(a, b)),
        is_negative(product(a, b)) == (is_negative(a) != is_negative(b)),
        magnitude(a) == 0 || magnitude(b) == 0 ==> magnitude(product(a, b)) == 0,
{
    let num = units(magnitude(a) as nat) * units(magnitude(b) as nat);
    lemma_pow2_pos(149);
    law_nearest_exists(num, one_units());
    if magnitude(a) == 0 || magnitude(b) == 0 {
        lemma_units_split(0, 0);
        assert(num == 0) by (nonlinear_arith)
            requires
                num == units(magnitude(a) as nat) * units(magnitude(b) as nat),
                units(magnitude(a) as nat) == 0 || units(magnitude(b) as nat) == 0,
        ;
        lemma_nearest_zero(one_units());
    }
}

/// The magnitude of a product, in units.
pub open spec fn product_units(a: u32, b: u32) -> nat {
    units(magnitude(product(a, b)) as nat)
}

/// A product is the exact one but for rounding, unless it is too small or too large.
pub proof fn law_product_is_accurate(a: u32, b: u32, low: nat, high: nat)
    requires
        is_finite(a),
        is_finite(b),
        23 <= low,
        high <= 276,
        ({
            let num = units(magnitude(a) as nat) * units(magnitude(b) as nat);
            num == 0 || pow2(low) * one_units() <= num <= pow2(high) * one_units()
        }),
    ensures
        is_finite(product(a, b)),
        within(
            product_units(a, b) * one_units(),
            units(magnitude(a) as nat) * units(magnitude(b) as nat),
            2,
        ),
        units(magnitude(a) as nat) * units(magnitude(b) as nat) == 0 ==> product_units(a, b) == 0,
        units(magnitude(a) as nat) * units(magnitude(b) as nat) != 0 ==> pow2(low) <= product_units(
            a,
            b,
        ) <= pow2(high),
{
    let num = units(magnitude(a) as nat) * units(magnitude(b) as nat);
    let one = one_units();
    lemma_pow2_pos(149);
    law_nearest_exists(num, one);
    lemma_units_split(0, 0);
    lemma2_to64();
    if num == 0 {
        lemma_nearest_zero(one);
        assert(0 * one == 0);
        lemma_within_itself(0, 2);
    } else {
        lemma_ordered_powers(num, one, low, high);
        lemma_rounded_range(num, one, low);
        lemma_rounded_range(num, one, high);
        lemma_pow2_grows(23, low);
        assert(FRACTIONS as nat * one <= pow2(low) * one) by (nonlinear_arith)
            requires
                FRACTIONS as nat <= pow2(low),
        ;
        lemma_rounding_is_accurate(num, one);
    }
}

pub proof fn lemma_pow2_grows(a: nat, b: nat)
    requires
        a <= b,
    ensures
        pow2(a) <= pow2(b),
{
    if a < b {
        lemma_pow2_strictly_increases(a, b);
    }
}

proof fn lemma_ordered_powers(num: nat, den: nat, low: nat, high: nat)
    requires
        pow2(low) * den <= num <= pow2(high) * den,
        den > 0,
    ensures
        low <= high,
{
    if high < low {
        lemma_pow2_strictly_increases(high, low);
        assert(pow2(high) * den < pow2(low) * den) by (nonlinear_arith)
            requires
                pow2(high) < pow2(low),
                den > 0,
        ;
    }
}

/// The sign of a quotient is that of the exact one.
pub proof fn law_quotient_keeps_the_sign(a: u32, b: u32)
    requires
        is_finite(a),
        !is_nan(b),
        magnitude(b) != 0,
    ensures
        !is_nan(quotient(a, b)),
        is_negative(quotient(a, b)) == (is_negative(a) != is_negative(b)),
        magnitude(a) == 0 ==> magnitude(quotient(a, b)) == 0,
{
    lemma_units_split(0, 0);
    if is_finite(b) {
        let den = units(magnitude(b) as nat);
        lemma_units_increase(0, magnitude(b) as nat);
        let num = units(magnitude(a) as nat) * one_units();
        law_nearest_exists(num, den);
        if magnitude(a) == 0 {
            assert(0 * one_units() == 0);
            lemma_nearest_zero(den);
        }
    }
}

/// A quotient is the exact one but for rounding, unless it is too small or too large.
pub proof fn law_quotient_is_accurate(a: u32, b: u32, low: nat, high: nat)
    requires
        is_finite(a),
        is_finite(b),
        magnitude(b) != 0,
        23 <= low,
        high <= 276,
        ({
            let num = units(magnitude(a) as nat) * one_units();
            let den = units(magnitude(b) as nat);
            num == 0 || pow2(low) * den <= num <= pow2(high) * den
        }),
    ensures
        is_finite(quotient(a, b)),
        within(
            units(magnitude(quotient(a, b)) as nat) * units(magnitude(b) as nat),
            units(magnitude(a) as nat) * one_units(),
            2,
        ),
        units(magnitude(a) as nat) * one_units() != 0 ==> pow2(low) <= units(
            magnitude(quotient(a, b)) as nat,
        ) <= pow2(high),
{
    let num = units(magnitude(a) as nat) * one_units();
    let den = units(magnitude(b) as nat);
    lemma_units_split(0, 0);
    lemma_units_increase(0, magnitude(b) as nat);
    law_nearest_exists(num, den);
    lemma_pow2_pos(149);
    lemma2_to64();
    if num == 0 {
        lemma_nearest_zero(den);
        assert(0 * den == 0);
        lemma_within_itself(0, 2);
    } else {
        lemma_ordered_powers(num, den, low, high);
        lemma_rounded_range(num, den, low);
        lemma_rounded_range(num, den, high);
        lemma_pow2_grows(23, low);
        assert(FRACTIONS as nat * den <= pow2(low) * den) by (nonlinear_arith)
            requires
                FRACTIONS as nat <= pow2(low),
        ;
        lemma_rounding_is_accurate(num, den);
    }
}

proof fn lemma_root_from(square: nat, n: u32)
    requires
        n <= INFINITY,
        n > 0 ==> {
            let mid = units((n - 1) as nat) + units(n as nat);
            mid * mid < 4 * square || (mid * mid == 4 * square && n % 2 == 0)
        },
    ensures
        exists|k: u32| is_nearest_root(square, k),
    decreases INFINITY - n,
{
    if n < INFINITY {
        let mid = units(n as nat) + units((n + 1) as nat);
        if 4 * square < mid * mid || (mid * mid == 4 * square && n % 2 == 0) {
            assert(is_nearest_root(square, n));
        } else {
            lemma_root_from(square, (n + 1) as u32);
        }
    } else {
        assert(is_nearest_root(square, n));
    }
}

/// There is a nearest number to every root.
pub proof fn law_nearest_root_exists(square: nat)
    ensures
        is_nearest_root(square, nearest_root(square)),
{
    lemma_root_from(square, 0);
}

/// A square root is the exact one but for rounding.
#[verifier::spinoff_prover]
pub proof fn law_square_root_is_accurate(a: u32)
    requires
        0 < a < INFINITY,
    ensures
        ({
            let r = units(magnitude(square_root(a)) as nat);
            &&& 0 < square_root(a) < INFINITY
            &&& within(r * r, units(a as nat) * one_units(), 5)
        }),
{
    let one = one_units();
    let s = units(a as nat) * one;
    let n = nearest_root(s);
    law_nearest_root_exists(s);
    lemma_units_split(0, 0);
    lemma_units_increase(0, a as nat);
    lemma_units_increase(a as nat, INFINITY as nat);
    lemma_pow2_pos(149);
    lemma2_to64();
    lemma_pow2_adds(64, 64);
    lemma_pow2_adds(128, 21);
    lemma_pow2_adds(23, 254);
    lemma_pow2_adds(128, 149);
    lemma_units_split(FRACTIONS as nat, 254);
    assert(254 * FRACTIONS as nat + FRACTIONS as nat == INFINITY);
    let top = pow2(277);
    assert(units(INFINITY as nat) == top);
    assert(s >= one) by (nonlinear_arith)
        requires
            s == units(a as nat) * one,
            units(a as nat) >= 1,
    ;
    assert(s < top * one) by (nonlinear_arith)
        requires
            s == units(a as nat) * one,
            units(a as nat) < top,
            one > 0,
    ;
    if n < FRACTIONS {
        let mid = units(n as nat) + units((n + 1) as nat);
        lemma_units_split(FRACTIONS as nat, 0);
        lemma_units_increase(n as nat, FRACTIONS as nat);
        lemma_units_increase((n + 1) as nat, FRACTIONS as nat);
        assert(mid * mid <= 0x100_0000 * 0x100_0000) by (nonlinear_arith)
            requires
                mid <= 0x100_0000,
        ;
        assert(one >= 0x100_0000 * 0x100_0000);
    }
    if n == INFINITY {
        let mid = units((n - 1) as nat) + units(n as nat);
        assert(mid * mid >= top * top) by (nonlinear_arith)
            requires
                mid >= top,
        ;
        assert(top >= 4 * one) by (nonlinear_arith)
            requires
                top == pow2(128) * one,
                pow2(128) >= 4,
        ;
        assert(top * top >= 4 * (top * one)) by (nonlinear_arith)
            requires
                top >= 4 * one,
        ;
    }
    lemma_gap(n as nat);
    let u = units(n as nat);
    let up = (units((n + 1) as nat) - u) as nat;
    let down = (u - units((n - 1) as nat)) as nat;
    lemma_root_sides(s, u, up, down);
}

#[verifier::spinoff_prover]
proof fn lemma_root_sides(s: nat, u: nat, up: nat, down: nat)
    requires
        (2 * u - down) * (2 * u - down) <= 4 * s,
        4 * s <= (2 * u + up) * (2 * u + up),
        up * 0x80_0000 <= u,
        down * 0x80_0000 <= u,
    ensures
        within(u * u, s, 5),
{
    let f = 0x80_0000nat;
    let p = PARTS as nat;
    let x = u * u;
    let a = (2 * u + up) as nat;
    let b = (2 * u - down) as nat;
    // a * f <= u * (2 * f + 1), b * f >= u * (2 * f - 1)
    assert(a * f <= u * 0x100_0001) by (nonlinear_arith)
        requires
            a == 2 * u + up,
            up * f <= u,
            f == 0x80_0000,
    ;
    assert(b * f >= u * 0xff_ffff) by (nonlinear_arith)
        requires
            b == 2 * u - down,
            down * f <= u,
            f == 0x80_0000,
    ;
    assert((a * f) * (a * f) <= (u * 0x100_0001) * (u * 0x100_0001)) by (nonlinear_arith)
        requires
            a * f <= u * 0x100_0001,
    ;
    assert((b * f) * (b * f) >= (u * 0xff_ffff) * (u * 0xff_ffff)) by (nonlinear_arith)
        requires
            b * f >= u * 0xff_ffff,
    ;
    assert((a * f) * (a * f) == (a * a) * (f * f)) by (nonlinear_arith);
    assert((b * f) * (b * f) == (b * b) * (f * f)) by (nonlinear_arith);
    assert((u * 0x100_0001) * (u * 0x100_0001) == x * (0x100_0001 * 0x100_0001))
        by (nonlinear_arith)
        requires
            x == u * u,
    ;
    assert((u * 0xff_ffff) * (u * 0xff_ffff) == x * (0xff_ffff * 0xff_ffff)) by (nonlinear_arith)
        requires
            x == u * u,
    ;
    assert((4 * s) * (f * f) <= (a * a) * (f * f)) by (nonlinear_arith)
        requires
            4 * s <= a * a,
    ;
    assert((b * b) * (f * f) <= (4 * s) * (f * f)) by (nonlinear_arith)
        requires
            b * b <= 4 * s,
    ;
    assert((4 * s) * (f * f) == s * (p * p)) by (nonlinear_arith)
        requires
            f == 0x80_0000,
            p == 0x100_0000,
    ;
    assert(s * (p * p) <= x * (0x100_0001 * 0x100_0001));
    assert(x * (0xff_ffff * 0xff_ffff) <= s * (p * p));
    assert(s * p <= x * (p + 5)) by (nonlinear_arith)
        requires
            s * (p * p) <= x * (0x100_0001 * 0x100_0001),
            p == 0x100_0000,
    ;
    assert(x * p <= s * (p + 5)) by (nonlinear_arith)
        requires
            x * (0xff_ffff * 0xff_ffff) <= s * (p * p),
            p == 0x100_0000,
    ;
}

/// Adding what is not below zero does not lead back, and adding what is not above zero
/// does not lead on.
pub proof fn law_sum_moves_on(a: u32, b: u32)
    requires
        is_finite(a),
        is_finite(b),
        is_finite(sum(a, b)),
    ensures
        value(b) >= 0 ==> value(sum(a, b)) >= value(a),
        value(b) <= 0 ==> value(sum(a, b)) <= value(a),
{
    let e = value(a) + value(b);
    let d = distance(e);
    let m = magnitude(a);
    let u = units(m as nat);
    law_sum_keeps_the_sign(a, b);
    lemma_units_split(0, 0);
    law_nearest_exists(d, 1);
    law_rounding_exact(m, 1);
    assert(u * 1 == u);
    let n = nearest(d, 1);
    if d <= u {
        law_rounding_monotone(d, u, 1);
        lemma_units_increase(n as nat, m as nat);
    }
    if u <= d {
        law_rounding_monotone(u, d, 1);
        lemma_units_increase(m as nat, n as nat);
    }
    lemma_units_increase(0, n as nat);
    lemma_units_increase(0, m as nat);
}

/// A whole number of 64 bits is exact but for rounding.
pub proof fn law_whole_number_is_accurate(v: i64)
    ensures
        is_finite(nearest_int(v as int)),
        v == 0 ==> nearest_int(v as int) == 0,
        is_negative(nearest_int(v as int)) == (v < 0),
        within(
            units(magnitude(nearest_int(v as int)) as nat),
            distance(v as int) * one_units(),
            2,
        ),
        v != 0 ==> pow2(149) <= units(magnitude(nearest_int(v as int)) as nat) <= pow2(212),
{
    let d = distance(v as int);
    let one = one_units();
    let num = d * one;
    lemma2_to64();
    lemma_pow2_pos(149);
    lemma_pow2_adds(63, 149);
    lemma_pow2_adds(32, 31);
    lemma_units_split(0, 0);
    law_nearest_exists(num, 1);
    if v == 0 {
        assert(num == 0) by (nonlinear_arith)
            requires
                num == d * one,
                d == 0,
        ;
        lemma_nearest_zero(1);
        lemma_within_itself(0, 2);
    } else {
        assert(num >= one) by (nonlinear_arith)
            requires
                num == d * one,
                d >= 1,
        ;
        assert(num <= pow2(63) * one) by (nonlinear_arith)
            requires
                num == d * one,
                d <= 0x8000_0000_0000_0000,
                pow2(63) == 0x8000_0000_0000_0000,
        ;
        lemma_pow2_grows(23, 149);
        lemma_rounded_range(num, 1, 149);
        lemma_rounded_range(num, 1, 212);
        lemma_rounding_is_accurate(num, 1);
    }
}

/// A fraction with a sign, rounded.
pub open spec fn rounded(negative: bool, num: nat, den: nat) -> int {
    if negative {
        -(units(nearest(num, den) as nat) as int)
    } else {
        units(nearest(num, den) as nat) as int
    }
}

/// Rounding keeps the order, whatever the signs.
proof fn lemma_rounded_order(a: bool, x: nat, b: bool, y: nat, den: nat)
    requires
        den > 0,
        (if a {
            -(x as int)
        } else {
            x as int
        }) <= (if b {
            -(y as int)
        } else {
            y as int
        }),
    ensures
        rounded(a, x, den) <= rounded(b, y, den),
{
    lemma_nearest_zero(den);
    lemma_units_split(0, 0);
    if x <= y {
        law_rounding_monotone(x, y, den);
        lemma_units_increase(nearest(x, den) as nat, nearest(y, den) as nat);
    }
    if y <= x {
        law_rounding_monotone(y, x, den);
        lemma_units_increase(nearest(y, den) as nat, nearest(x, den) as nat);
    }
}

proof fn lemma_sum_rounded(a: u32, b: u32)
    requires
        is_finite(a),
        is_finite(b),
    ensures
        ({
            let e = value(a) + value(b);
            value(sum(a, b)) == rounded(e < 0, distance(e), 1)
        }),
{
    let e = value(a) + value(b);
    law_nearest_exists(distance(e), 1);
    lemma_units_split(0, 0);
    lemma_nearest_zero(1);
}

/// Adding more gives no less.
pub proof fn law_sum_is_monotone(a: u32, b: u32, c: u32)
    requires
        is_finite(a),
        is_finite(b),
        is_finite(c),
        value(b) <= value(c),
    ensures
        value(sum(a, b)) <= value(sum(a, c)),
{
    lemma_sum_rounded(a, b);
    lemma_sum_rounded(a, c);
    let e = value(a) + value(b);
    let f = value(a) + value(c);
    lemma_rounded_order(e < 0, distance(e), f < 0, distance(f), 1);
}

/// Taking away more leaves no more.
pub proof fn law_difference_is_antitone(a: u32, b: u32, c: u32)
    requires
        is_finite(a),
        is_finite(b),
        is_finite(c),
        value(b) <= value(c),
    ensures
        value(difference(a, c)) <= value(difference(a, b)),
{
    lemma_negated(b);
    lemma_negated(c);
    law_sum_is_monotone(a, negated(c), negated(b));
}

/// Multiplying more by what is not below zero gives no less.
pub proof fn law_product_is_monotone(a: u32, b: u32, k: u32)
    requires
        is_finite(a),
        is_finite(b),
        is_finite(k),
        !is_negative(k),
        value(a) <= value(b),
    ensures
        value(product(a, k)) <= value(product(b, k)),
{
    let w = units(magnitude(k) as nat);
    let x = units(magnitude(a) as nat);
    let y = units(magnitude(b) as nat);
    let one = one_units();
    lemma_pow2_pos(149);
    law_nearest_exists(x * w, one);
    law_nearest_exists(y * w, one);
    assert(x <= y ==> x * w <= y * w) by (nonlinear_arith);
    assert(y <= x ==> y * w <= x * w) by (nonlinear_arith);
    assert(x == 0 ==> x * w == 0) by (nonlinear_arith);
    assert(y == 0 ==> y * w == 0) by (nonlinear_arith);
    lemma_rounded_order(is_negative(a), x * w, is_negative(b), y * w, one);
}

/// Dividing more by what is above zero gives no less.
pub proof fn law_quotient_is_monotone(a: u32, b: u32, k: u32)
    requires
        is_finite(a),
        is_finite(b),
        0 < k < INFINITY,
        value(a) <= value(b),
    ensures
        value(quotient(a, k)) <= value(quotient(b, k)),
{
    let w = units(k as nat);
    let x = units(magnitude(a) as nat);
    let y = units(magnitude(b) as nat);
    let one = one_units();
    lemma_units_split(0, 0);
    lemma_units_increase(0, k as nat);
    law_nearest_exists(x * one, w);
    law_nearest_exists(y * one, w);
    assert(x <= y ==> x * one <= y * one) by (nonlinear_arith);
    assert(y <= x ==> y * one <= x * one) by (nonlinear_arith);
    assert(x == 0 ==> x * one == 0) by (nonlinear_arith);
    assert(y == 0 ==> y * one == 0) by (nonlinear_arith);
    lemma_rounded_order(is_negative(a), x * one, is_negative(b), y * one, w);
}

/// Whole numbers keep their order.
pub proof fn law_whole_number_is_monotone(a: int, b: int)
    requires
        a <= b,
    ensures
        value(nearest_int(a)) <= value(nearest_int(b)),
{
    let one = one_units();
    let x = distance(a) * one;
    let y = distance(b) * one;
    law_nearest_exists(x, 1);
    law_nearest_exists(y, 1);
    assert(distance(a) <= distance(b) ==> x <= y) by (nonlinear_arith)
        requires
            x == distance(a) * one,
            y == distance(b) * one,
    ;
    assert(distance(b) <= distance(a) ==> y <= x) by (nonlinear_arith)
        requires
            x == distance(a) * one,
            y == distance(b) * one,
    ;
    lemma_rounded_order(a < 0, x, b < 0, y, 1);
}

/// A count is a number without its fraction: it is no more than the number, and less
/// than one short of it.
pub proof fn law_count_drops_the_fraction(b: u32)
    requires
        is_finite(b),
    ensures
        is_negative(b) ==> whole(b) == 0,
        !is_negative(b) && value(b) < usize::MAX * one_units() ==> whole(b) * one_units() <= value(
            b,
        ) < (whole(b) + 1) * one_units(),
        !is_negative(b) && value(b) >= usize::MAX * one_units() ==> whole(b) == usize::MAX,
{
    let one = one_units() as int;
    lemma_pow2_pos(149);
    let u = units(b as nat) as int;
    if !is_negative(b) {
        let q = u / one;
        assert(u == q * one + u % one && 0 <= u % one && u % one < one) by (nonlinear_arith)
            requires
                q == u / one,
                one > 0,
        ;
        assert((q + 1) * one == q * one + one) by (nonlinear_arith);
        let top = usize::MAX as int;
        assert(u < top * one ==> q < top) by (nonlinear_arith)
            requires
                q * one <= u,
                one > 0,
        ;
        assert(u >= top * one ==> q >= top) by (nonlinear_arith)
            requires
                u < (q + 1) * one,
                one > 0,
        ;
    }
}

} // verus!
