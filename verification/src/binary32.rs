//! Single-precision arithmetic on bit patterns.
//!
//! A coordinate is held as the 32 bits of an IEEE 754 binary32 number. Every
//! finite number is a whole multiple of the smallest one, two to the power of
//! minus 149, so its magnitude is a natural number of such units and the exact
//! result of an operation is a fraction of them. A result is rounded to the
//! nearest number, to the even one of two that are equally near. A result that
//! is not a number is always [`NAN`].

use vstd::arithmetic::div_mod::{lemma_div_by_multiple, lemma_div_denominator};
use vstd::arithmetic::power2::{
    lemma2_to64, lemma_pow2_adds, lemma_pow2_pos, lemma_pow2_unfold, pow2,
};
use vstd::prelude::*;

verus! {

/// The sign bit.
pub const SIGN: u32 = 0x8000_0000;

/// The magnitude bits of infinity.
pub const INFINITY: u32 = 0x7f80_0000;

/// The one result that is not a number.
pub const NAN: u32 = 0x7fc0_0000;

/// The number of fractions to an exponent.
pub const FRACTIONS: u32 = 0x80_0000;

/// One as a number of units.
pub open spec fn one_units() -> nat {
    pow2(149)
}

pub open spec fn is_negative(b: u32) -> bool {
    b >= SIGN
}

/// The bits but for the sign.
pub open spec fn magnitude(b: u32) -> u32 {
    if b >= SIGN {
        (b - SIGN) as u32
    } else {
        b
    }
}

pub open spec fn is_nan(b: u32) -> bool {
    magnitude(b) > INFINITY
}

pub open spec fn is_infinite(b: u32) -> bool {
    magnitude(b) == INFINITY
}

pub open spec fn is_finite(b: u32) -> bool {
    magnitude(b) < INFINITY
}

/// The magnitude that the bits `n` stand for, in units. At infinity this is the
/// power of two that follows the largest number, which is where rounding stops.
pub open spec fn units(n: nat) -> nat {
    let exponent = n / (FRACTIONS as nat);
    let fraction = n % (FRACTIONS as nat);
    if exponent == 0 {
        fraction
    } else {
        (FRACTIONS + fraction) as nat * pow2((exponent - 1) as nat)
    }
}

/// The number that finite bits stand for, in units.
pub open spec fn value(b: u32) -> int {
    if is_negative(b) {
        -(units(magnitude(b) as nat) as int)
    } else {
        units(magnitude(b) as nat) as int
    }
}

/// The bits `n` with a sign.
pub open spec fn signed(negative: bool, n: u32) -> u32 {
    if negative {
        (n + SIGN) as u32
    } else {
        n
    }
}

/// Whether twice the exact magnitude compares with the midpoint below `n` and
/// the one above it so that `n` is the nearest, or the even one of two nearest.
pub open spec fn is_nearest(num: nat, den: nat, n: u32) -> bool {
    &&& n <= INFINITY
    &&& n > 0 ==> {
        let mid = (units((n - 1) as nat) + units(n as nat)) * den;
        mid < 2 * num || (mid == 2 * num && n % 2 == 0)
    }
    &&& n < INFINITY ==> {
        let mid = (units(n as nat) + units((n + 1) as nat)) * den;
        2 * num < mid || (mid == 2 * num && n % 2 == 0)
    }
}

/// The magnitude bits nearest to `num / den` units.
pub open spec fn nearest(num: nat, den: nat) -> u32 {
    choose|n: u32| is_nearest(num, den, n)
}

/// The same of the square root of `square` square units.
pub open spec fn is_nearest_root(square: nat, n: u32) -> bool {
    &&& n <= INFINITY
    &&& n > 0 ==> {
        let mid = units((n - 1) as nat) + units(n as nat);
        mid * mid < 4 * square || (mid * mid == 4 * square && n % 2 == 0)
    }
    &&& n < INFINITY ==> {
        let mid = units(n as nat) + units((n + 1) as nat);
        4 * square < mid * mid || (mid * mid == 4 * square && n % 2 == 0)
    }
}

pub open spec fn nearest_root(square: nat) -> u32 {
    choose|n: u32| is_nearest_root(square, n)
}

pub(crate) proof fn lemma_units_split(m: nat, q: nat)
    requires
        m <= 2 * FRACTIONS,
        m >= FRACTIONS || q == 0,
    ensures
        units(q * FRACTIONS as nat + m) == m * pow2(q),
{
    let n = q * FRACTIONS as nat + m;
    lemma_pow2_pos(q);
    if m == 2 * FRACTIONS {
        assert(n / (FRACTIONS as nat) == q + 2 && n % (FRACTIONS as nat) == 0);
        lemma_pow2_unfold(q + 1);
        assert(FRACTIONS as nat * pow2(q + 1) == m * pow2(q)) by (nonlinear_arith)
            requires
                pow2(q + 1) == 2 * pow2(q),
                m == 2 * FRACTIONS,
        ;
    } else if m >= FRACTIONS {
        assert(n / (FRACTIONS as nat) == q + 1 && n % (FRACTIONS as nat) == m - FRACTIONS);
    } else {
        assert(n / (FRACTIONS as nat) == 0 && n % (FRACTIONS as nat) == m);
        lemma2_to64();
        assert(m * pow2(q) == m) by (nonlinear_arith)
            requires
                pow2(q) == 1,
        ;
    }
}

pub(crate) proof fn lemma_units_step(n: nat)
    ensures
        units(n) < units(n + 1),
{
    let e = n / (FRACTIONS as nat);
    let f = n % (FRACTIONS as nat);
    if e == 0 {
        lemma_units_split(n, 0);
        lemma_units_split(n + 1, 0);
        lemma2_to64();
    } else {
        let q = (e - 1) as nat;
        let m = FRACTIONS as nat + f;
        assert(n == q * FRACTIONS as nat + m) by (nonlinear_arith)
            requires
                e == n / (FRACTIONS as nat),
                f == n % (FRACTIONS as nat),
                q == e - 1,
                m == FRACTIONS as nat + f,
        ;
        lemma_units_split(m, q);
        lemma_units_split(m + 1, q);
        lemma_pow2_pos(q);
        assert((m + 1) * pow2(q) == m * pow2(q) + pow2(q)) by (nonlinear_arith);
    }
}

pub(crate) proof fn lemma_units_increase(a: nat, b: nat)
    requires
        a <= b,
    ensures
        units(a) <= units(b),
        a < b ==> units(a) < units(b),
    decreases b,
{
    if a < b {
        lemma_units_increase(a, (b - 1) as nat);
        lemma_units_step((b - 1) as nat);
    }
}

/// There is only one nearest number.
pub proof fn lemma_nearest_unique(num: nat, den: nat, n: u32)
    requires
        is_nearest(num, den, n),
        den > 0,
    ensures
        nearest(num, den) == n,
{
    let m = nearest(num, den);
    if m <= n {
        lemma_same(num, den, m, n);
    } else {
        lemma_same(num, den, n, m);
    }
}

proof fn lemma_same(num: nat, den: nat, a: u32, b: u32)
    requires
        is_nearest(num, den, a),
        is_nearest(num, den, b),
        a <= b,
        den > 0,
    ensures
        a == b,
{
    if a < b {
        lemma_units_increase(a as nat, (b - 1) as nat);
        lemma_units_increase((a + 1) as nat, b as nat);
        let x = units(a as nat) + units((a + 1) as nat);
        let y = units((b - 1) as nat) + units(b as nat);
        assert(x * den <= y * den) by (nonlinear_arith)
            requires
                x <= y,
        ;
        if a + 1 < b {
            assert(x * den < y * den) by (nonlinear_arith)
                requires
                    x < y,
                    den > 0,
            ;
        }
    }
}

/// There is a nearest number to every fraction.
pub proof fn law_nearest_exists(num: nat, den: nat)
    requires
        den > 0,
    ensures
        is_nearest(num, den, nearest(num, den)),
{
    lemma_nearest_from(num, den, 0);
}

proof fn lemma_nearest_from(num: nat, den: nat, n: u32)
    requires
        n <= INFINITY,
        n > 0 ==> {
            let mid = (units((n - 1) as nat) + units(n as nat)) * den;
            mid < 2 * num || (mid == 2 * num && n % 2 == 0)
        },
    ensures
        exists|k: u32| is_nearest(num, den, k),
    decreases INFINITY - n,
{
    if n < INFINITY {
        let mid = (units(n as nat) + units((n + 1) as nat)) * den;
        if 2 * num < mid || (mid == 2 * num && n % 2 == 0) {
            assert(is_nearest(num, den, n));
        } else {
            lemma_nearest_from(num, den, (n + 1) as u32);
        }
    } else {
        assert(is_nearest(num, den, n));
    }
}

pub proof fn lemma_nearest_root_unique(square: nat, n: u32)
    requires
        is_nearest_root(square, n),
    ensures
        nearest_root(square) == n,
{
    let m = nearest_root(square);
    if m <= n {
        lemma_same_root(square, m, n);
    } else {
        lemma_same_root(square, n, m);
    }
}

proof fn lemma_same_root(square: nat, a: u32, b: u32)
    requires
        is_nearest_root(square, a),
        is_nearest_root(square, b),
        a <= b,
    ensures
        a == b,
{
    if a < b {
        lemma_units_increase(a as nat, (b - 1) as nat);
        lemma_units_increase((a + 1) as nat, b as nat);
        let x = units(a as nat) + units((a + 1) as nat);
        let y = units((b - 1) as nat) + units(b as nat);
        assert(x * x <= y * y) by (nonlinear_arith)
            requires
                x <= y,
        ;
        if a + 1 < b {
            assert(x * x < y * y) by (nonlinear_arith)
                requires
                    x < y,
            ;
        }
    }
}

/// What rounding `sig * 2^e` or, if `sticky`, something between that and
/// `(sig + 1) * 2^e`, gives when a unit is `2^k`.
spec fn rounds_to(sig: nat, e: nat, sticky: bool, k: nat, n: u32) -> bool {
    let twice = 2 * (sig * pow2(e));
    &&& n <= INFINITY
    &&& n > 0 ==> {
        let mid = (units((n - 1) as nat) + units(n as nat)) * pow2(k);
        mid < twice || (mid == twice && (sticky || n % 2 == 0))
    }
    &&& n < INFINITY ==> {
        let mid = (units(n as nat) + units((n + 1) as nat)) * pow2(k);
        if sticky {
            twice + 2 * pow2(e) <= mid
        } else {
            twice < mid || (mid == twice && n % 2 == 0)
        }
    }
}

/// Where `twice` stands against `g * 2^at` while bits are shifted out.
spec fn bracket(twice: nat, width: nat, g: nat, at: nat, rest: bool) -> bool {
    let low = g * pow2(at);
    let high = (g + 1) * pow2(at);
    if rest {
        &&& low <= twice
        &&& width == 0 ==> low < twice && twice < high
        &&& twice + width <= high
    } else {
        width == 0 && low == twice
    }
}

proof fn lemma_bracket_halve(twice: nat, width: nat, g: nat, at: nat, rest: bool)
    requires
        bracket(twice, width, g, at, rest),
    ensures
        bracket(twice, width, g / 2, at + 1, rest || g % 2 == 1),
{
    let p = pow2(at);
    lemma_pow2_pos(at);
    lemma_pow2_unfold(at + 1);
    let h = g / 2;
    assert(pow2(at + 1) == 2 * p);
    assert(h * (2 * p) == (2 * h) * p) by (nonlinear_arith);
    assert((h + 1) * (2 * p) == (2 * h + 2) * p) by (nonlinear_arith);
    if g % 2 == 1 {
        assert(g == 2 * h + 1);
        assert((2 * h) * p + p == (2 * h + 1) * p) by (nonlinear_arith);
        assert((2 * h + 2) * p == (g + 1) * p);
        assert((g + 1) * p == g * p + p) by (nonlinear_arith);
    } else {
        assert(g == 2 * h);
        assert((2 * h + 2) * p == (g + 1) * p + p) by (nonlinear_arith)
            requires
                g == 2 * h,
        ;
    }
}

proof fn lemma_rounded(sig: nat, e: nat, sticky: bool, k: nat, g: nat, at: nat, rest: bool, n: u32)
    requires
        bracket(2 * (sig * pow2(e)), if sticky { 2 * pow2(e) } else { 0 }, g, at, rest),
        g < 4 * FRACTIONS,
        g >= 2 * FRACTIONS || at == k,
        at >= k,
        ({
            let m = g / 2;
            let low = (at - k) as nat * FRACTIONS as nat + m;
            let r = if g % 2 == 1 && (rest || m % 2 == 1) {
                low + 1
            } else {
                low
            };
            n == if r >= INFINITY {
                INFINITY as nat
            } else {
                r
            }
        }),
    ensures
        rounds_to(sig, e, sticky, k, n),
{
    let twice = 2 * (sig * pow2(e));
    let m = g / 2;
    let q = (at - k) as nat;
    let low = q * FRACTIONS as nat + m;
    let up = g % 2 == 1 && (rest || m % 2 == 1);
    let r = if up {
        low + 1
    } else {
        low
    };
    lemma_pow2_adds(q, k);
    lemma_pow2_pos(k);
    lemma_pow2_pos(at);
    lemma_pow2_pos(e);
    lemma_units_split(m, q);
    lemma_units_split(m + 1, q);
    let unit = pow2(k);
    let step = pow2(at);
    assert(units(low) * unit == m * step) by (nonlinear_arith)
        requires
            units(low) == m * pow2(q),
            step == pow2(q) * unit,
    ;
    assert(units(low + 1) * unit == (m + 1) * step) by (nonlinear_arith)
        requires
            units(low + 1) == (m + 1) * pow2(q),
            step == pow2(q) * unit,
    ;
    let mid = (units(low) + units(low + 1)) * unit;
    assert(mid == (2 * m + 1) * step) by (nonlinear_arith)
        requires
            units(low) * unit == m * step,
            units(low + 1) * unit == (m + 1) * step,
            mid == (units(low) + units(low + 1)) * unit,
    ;
    assert(low % 2 == m % 2) by {
        assert(q * FRACTIONS as nat == 2 * (q * 0x40_0000)) by (nonlinear_arith);
    }
    assert(2 * (m * step) == (2 * m) * step) by (nonlinear_arith);
    assert((2 * m + 1) * step == (2 * m) * step + step) by (nonlinear_arith);
    assert((2 * m + 2) * step == (2 * m + 1) * step + step) by (nonlinear_arith);
    assert(2 * ((m + 1) * step) == (2 * m + 2) * step) by (nonlinear_arith);
    // Below: the exact magnitude is at least the number chosen less half a step.
    if n > 0 {
        let below = (units((n - 1) as nat) + units(n as nat)) * unit;
        if r == n && up {
            assert(below == mid);
        } else {
            // The number chosen is not above the exact magnitude.
            lemma_units_increase((n - 1) as nat, n as nat);
            lemma_units_increase(n as nat, low);
            assert(below < 2 * (m * step)) by (nonlinear_arith)
                requires
                    below == (units((n - 1) as nat) + units(n as nat)) * unit,
                    units((n - 1) as nat) < units(n as nat),
                    units(n as nat) <= units(low),
                    units(low) * unit == m * step,
                    unit > 0,
            ;
        }
    }
    if n < INFINITY {
        let above = (units(n as nat) + units((n + 1) as nat)) * unit;
        if up {
            lemma_units_increase(n as nat, (n + 1) as nat);
            assert(above > 2 * ((m + 1) * step)) by (nonlinear_arith)
                requires
                    above == (units(n as nat) + units((n + 1) as nat)) * unit,
                    units(n as nat) < units((n + 1) as nat),
                    units(n as nat) == units(low + 1),
                    units(low + 1) * unit == (m + 1) * step,
                    unit > 0,
            ;
        } else {
            assert(above == mid);
        }
    }
}

/// Rounds `sig * 2^e`, or something strictly between that and the next step if
/// `sticky`, where a unit is `2^k`.
fn round(sig: u128, e: u32, sticky: bool, k: u32) -> (n: u32)
    requires
        0 < sig < 0x100_0000_0000_0000_0000_0000_0000_0000,
        sticky ==> sig >= 0x100_0000,
        e <= 1000,
        k <= 1000,
    ensures
        rounds_to(sig as nat, e as nat, sticky, k as nat, n),
{
    let ghost twice: nat = 2 * (sig as nat * pow2(e as nat));
    let ghost width: nat = if sticky {
        2 * pow2(e as nat)
    } else {
        0
    };
    let mut g: u128;
    let mut at: u32;
    let mut rest: bool = sticky;
    if sticky {
        g = sig;
        at = e + 1;
        proof {
            lemma_pow2_unfold((e + 1) as nat);
            lemma_pow2_pos(e as nat);
            assert(sig as nat * (2 * pow2(e as nat)) == twice) by (nonlinear_arith)
                requires
                    twice == 2 * (sig as nat * pow2(e as nat)),
            ;
            assert((sig as nat + 1) * (2 * pow2(e as nat)) == twice + width) by (nonlinear_arith)
                requires
                    twice == 2 * (sig as nat * pow2(e as nat)),
                    width == 2 * pow2(e as nat),
            ;
        }
    } else {
        g = 2 * sig;
        at = e;
        assert((2 * sig as nat) * pow2(e as nat) == twice) by (nonlinear_arith)
            requires
                twice == 2 * (sig as nat * pow2(e as nat)),
        ;
    }
    while g < 0x100_0000 && at > k
        invariant
            g > 0,
            at <= 1001,
            g < 0x200_0000_0000_0000_0000_0000_0000_0000,
            rest ==> g >= 0x100_0000,
            bracket(twice, width, g as nat, at as nat, rest),
        decreases at,
    {
        proof {
            lemma_pow2_unfold(at as nat);
            assert((2 * g as nat) * pow2((at - 1) as nat) == g as nat * (2 * pow2((at - 1) as nat)))
                by (nonlinear_arith);
        }
        g = g * 2;
        at = at - 1;
    }
    let ghost mut room: nat = 121;
    proof {
        lemma2_to64();
        lemma_pow2_adds(32, 25);
        lemma_pow2_adds(64, 57);
        assert(pow2(121) == 0x200_0000_0000_0000_0000_0000_0000_0000);
    }
    while g >= 0x200_0000 || at < k
        invariant
            g < pow2(room),
            at + room <= 1200 || (room == 0 && at <= k),
            k <= 1000,
            g >= 0x100_0000 || at <= k,
            bracket(twice, width, g as nat, at as nat, rest),
        decreases g + (if at < k { k - at } else { 0 }),
    {
        proof {
            lemma_bracket_halve(twice, width, g as nat, at as nat, rest);
            if room > 0 {
                lemma_pow2_unfold(room);
                room = (room - 1) as nat;
            } else {
                lemma2_to64();
            }
        }
        rest = rest || g % 2 == 1;
        g = g / 2;
        at = at + 1;
    }
    let m: u64 = (g / 2) as u64;
    let low: u64 = (at - k) as u64 * 0x80_0000 + m;
    let r: u64 = if g % 2 == 1 && (rest || m % 2 == 1) {
        low + 1
    } else {
        low
    };
    let n: u32 = if r >= INFINITY as u64 {
        INFINITY
    } else {
        r as u32
    };
    proof {
        lemma_rounded(sig as nat, e as nat, sticky, k as nat, g as nat, at as nat, rest, n);
    }
    n
}

/// Rounding a bracket of `num / den` rounds `num / den`.
proof fn lemma_nearest_of(
    num: nat,
    den: nat,
    sig: nat,
    e: nat,
    sticky: bool,
    k: nat,
    n: u32,
)
    requires
        den > 0,
        rounds_to(sig, e, sticky, k, n),
        !sticky ==> (sig * pow2(e)) * den == num * pow2(k),
        sticky ==> (sig * pow2(e)) * den < num * pow2(k) < (sig * pow2(e) + pow2(e)) * den,
    ensures
        nearest(num, den) == n,
{
    let s = sig * pow2(e);
    let w = pow2(e);
    let u = pow2(k);
    lemma_pow2_pos(k);
    lemma_pow2_pos(e);
    if n > 0 {
        let m = units((n - 1) as nat) + units(n as nat);
        lemma_lower(num, den, s, u, m);
    }
    if n < INFINITY {
        let m = units(n as nat) + units((n + 1) as nat);
        lemma_upper(num, den, s, w, u, m);
    }
    assert(is_nearest(num, den, n));
    lemma_nearest_unique(num, den, n);
}

proof fn lemma_lower(num: nat, den: nat, s: nat, u: nat, m: nat)
    requires
        den > 0,
        u > 0,
        s * den <= num * u,
    ensures
        m * u < 2 * s ==> m * den < 2 * num,
        m * u == 2 * s && s * den < num * u ==> m * den < 2 * num,
        m * u == 2 * s && s * den == num * u ==> m * den == 2 * num,
{
    assert((m * den) * u == (m * u) * den) by (nonlinear_arith);
    assert((2 * s) * den == 2 * (s * den)) by (nonlinear_arith);
    assert((2 * num) * u == 2 * (num * u)) by (nonlinear_arith);
    if m * u < 2 * s {
        assert((m * u) * den < (2 * s) * den) by (nonlinear_arith)
            requires
                m * u < 2 * s,
                den > 0,
        ;
    }
    assert((m * den) * u < (2 * num) * u ==> m * den < 2 * num) by (nonlinear_arith)
        requires
            u > 0,
    ;
    assert((m * den) * u == (2 * num) * u ==> m * den == 2 * num) by (nonlinear_arith)
        requires
            u > 0,
    ;
}

proof fn lemma_upper(num: nat, den: nat, s: nat, w: nat, u: nat, m: nat)
    requires
        den > 0,
        u > 0,
    ensures
        s * den == num * u && 2 * s < m * u ==> 2 * num < m * den,
        s * den == num * u && 2 * s == m * u ==> 2 * num == m * den,
        num * u < (s + w) * den && 2 * s + 2 * w <= m * u ==> 2 * num < m * den,
{
    assert((m * den) * u == (m * u) * den) by (nonlinear_arith);
    assert((2 * s) * den == 2 * (s * den)) by (nonlinear_arith);
    assert((2 * s + 2 * w) * den == 2 * ((s + w) * den)) by (nonlinear_arith);
    assert((2 * num) * u == 2 * (num * u)) by (nonlinear_arith);
    if 2 * s < m * u {
        assert((2 * s) * den < (m * u) * den) by (nonlinear_arith)
            requires
                2 * s < m * u,
                den > 0,
        ;
    }
    if 2 * s + 2 * w <= m * u {
        assert((2 * s + 2 * w) * den <= (m * u) * den) by (nonlinear_arith)
            requires
                2 * s + 2 * w <= m * u,
        ;
    }
    assert((2 * num) * u < (m * den) * u ==> 2 * num < m * den) by (nonlinear_arith)
        requires
            u > 0,
    ;
    assert((2 * num) * u == (m * den) * u ==> 2 * num == m * den) by (nonlinear_arith)
        requires
            u > 0,
    ;
}

/// Nothing is nearest to nothing.
pub(crate) proof fn lemma_nearest_zero(den: nat)
    requires
        den > 0,
    ensures
        nearest(0, den) == 0,
{
    lemma_units_split(0, 0);
    lemma_units_split(1, 0);
    lemma2_to64();
    assert((units(0) + units(1)) * den == den) by (nonlinear_arith)
        requires
            units(0) + units(1) == 1,
    ;
    lemma_nearest_unique(0, den, 0);
}

/// The bits without the sign.
pub fn abs(a: u32) -> (r: u32)
    ensures
        r == magnitude(a),
{
    if a >= SIGN {
        a - SIGN
    } else {
        a
    }
}

pub(crate) fn with_sign(negative: bool, n: u32) -> (r: u32)
    requires
        n < SIGN,
    ensures
        r == signed(negative, n),
{
    if negative {
        n + SIGN
    } else {
        n
    }
}

/// Finite magnitude bits as a whole number times a power of two.
fn split(n: u32) -> (r: (u32, u32))
    requires
        n < INFINITY,
    ensures
        units(n as nat) == r.0 * pow2(r.1 as nat),
        r.0 < 2 * FRACTIONS,
        r.1 <= 253,
        r.1 > 0 ==> r.0 >= FRACTIONS,
        r.0 == 0 <==> n == 0,
{
    let exponent: u32 = n / FRACTIONS;
    let fraction: u32 = n % FRACTIONS;
    if exponent == 0 {
        proof {
            lemma_units_split(n as nat, 0);
        }
        (fraction, 0)
    } else {
        proof {
            assert(n == (exponent - 1) * FRACTIONS + (FRACTIONS + fraction));
            lemma_units_split((FRACTIONS + fraction) as nat, (exponent - 1) as nat);
        }
        (FRACTIONS + fraction, exponent - 1)
    }
}

/// Twice the midpoint above finite magnitude bits, as a whole number times a
/// power of two.
pub(crate) fn midpoint(n: u32) -> (r: (u32, u32))
    requires
        n < INFINITY,
    ensures
        units(n as nat) + units((n + 1) as nat) == r.0 * pow2(r.1 as nat),
        r.0 < 4 * FRACTIONS,
        r.1 <= 253,
{
    let exponent: u32 = n / FRACTIONS;
    let fraction: u32 = n % FRACTIONS;
    let m: u32 = if exponent == 0 {
        fraction
    } else {
        FRACTIONS + fraction
    };
    let q: u32 = if exponent == 0 {
        0
    } else {
        exponent - 1
    };
    proof {
        assert(n == q * FRACTIONS + m);
        lemma_units_split(m as nat, q as nat);
        lemma_units_split((m + 1) as nat, q as nat);
        let p = pow2(q as nat);
        assert(m * p + (m + 1) * p == (2 * m + 1) * p) by (nonlinear_arith);
    }
    (2 * m + 1, q)
}

/// `m * 2^d`.
fn scale(m: u128, d: u32) -> (r: u128)
    requires
        m < 0x1_0000_0000,
        d <= 41,
    ensures
        r == m * pow2(d as nat),
        r < 0x200_0000_0000_0000_0000,
{
    let mut r: u128 = m;
    let mut i: u32 = 0;
    proof {
        lemma2_to64();
        lemma_pow2_adds(32, 9);
        assert(m * 1 == m);
    }
    while i < d
        invariant
            i <= d <= 41,
            m < 0x1_0000_0000,
            r == m * pow2(i as nat),
        decreases d - i,
    {
        proof {
            lemma_scale_bound(m as nat, i as nat);
            lemma_pow2_unfold((i + 1) as nat);
            assert(m * (2 * pow2(i as nat)) == 2 * (m * pow2(i as nat))) by (nonlinear_arith);
        }
        r = r * 2;
        i = i + 1;
    }
    proof {
        lemma_scale_bound(m as nat, d as nat);
    }
    r
}

proof fn lemma_scale_bound(m: nat, d: nat)
    requires
        m < 0x1_0000_0000,
        d <= 41,
    ensures
        m * pow2(d) < 0x200_0000_0000_0000_0000,
{
    lemma2_to64();
    lemma_pow2_adds(32, 9);
    lemma_pow2_adds(d, (41 - d) as nat);
    lemma_pow2_pos((41 - d) as nat);
    let p = pow2(d);
    assert(p <= pow2(41)) by (nonlinear_arith)
        requires
            pow2(41) == p * pow2((41 - d) as nat),
            pow2((41 - d) as nat) > 0,
    ;
    assert(pow2(41) == 0x200_0000_0000);
    assert(m * p <= m * 0x200_0000_0000) by (nonlinear_arith)
        requires
            p <= 0x200_0000_0000,
    ;
}

/// The product of two numbers.
pub open spec fn product(a: u32, b: u32) -> u32 {
    let negative = is_negative(a) != is_negative(b);
    if is_nan(a) || is_nan(b) || (is_infinite(a) && magnitude(b) == 0) || (magnitude(a) == 0
        && is_infinite(b)) {
        NAN
    } else if is_infinite(a) || is_infinite(b) {
        signed(negative, INFINITY)
    } else {
        signed(
            negative,
            nearest(units(magnitude(a) as nat) * units(magnitude(b) as nat), one_units()),
        )
    }
}

/// The product of two numbers.
pub fn times(a: u32, b: u32) -> (r: u32)
    ensures
        r == product(a, b),
{
    let x: u32 = abs(a);
    let y: u32 = abs(b);
    let negative: bool = (a >= SIGN) != (b >= SIGN);
    if x > INFINITY || y > INFINITY || (x == INFINITY && y == 0) || (x == 0 && y == INFINITY) {
        return NAN;
    }
    if x == INFINITY || y == INFINITY {
        return with_sign(negative, INFINITY);
    }
    let (ma, qa) = split(x);
    let (mb, qb) = split(y);
    let ghost num = units(x as nat) * units(y as nat);
    proof {
        lemma_pow2_pos(149);
    }
    if x == 0 || y == 0 {
        proof {
            assert(num == 0) by (nonlinear_arith)
                requires
                    num == units(x as nat) * units(y as nat),
                    units(x as nat) == ma * pow2(qa as nat),
                    units(y as nat) == mb * pow2(qb as nat),
                    ma == 0 || mb == 0,
            ;
            lemma_nearest_zero(one_units());
        }
        return with_sign(negative, 0);
    }
    assert(0 < ma * mb < 0x1_0000_0000_0000) by (nonlinear_arith)
        requires
            0 < ma < 0x100_0000,
            0 < mb < 0x100_0000,
    ;
    let sig: u128 = (ma as u64 * mb as u64) as u128;
    let n: u32 = round(sig, qa + qb, false, 149);
    proof {
        lemma_pow2_adds(qa as nat, qb as nat);
        assert(sig as nat * (pow2(qa as nat) * pow2(qb as nat)) == num) by (nonlinear_arith)
            requires
                sig == ma * mb,
                num == (ma * pow2(qa as nat)) * (mb * pow2(qb as nat)),
        ;
        lemma_nearest_of(num, one_units(), sig as nat, (qa + qb) as nat, false, 149, n);
    }
    with_sign(negative, n)
}

pub open spec fn distance(v: int) -> nat {
    if v < 0 {
        (-v) as nat
    } else {
        v as nat
    }
}

/// The sum of two numbers. A sum of zero is negative only if both are.
pub open spec fn sum(a: u32, b: u32) -> u32 {
    if is_nan(a) || is_nan(b) || (is_infinite(a) && is_infinite(b) && a != b) {
        NAN
    } else if is_infinite(a) {
        a
    } else if is_infinite(b) {
        b
    } else {
        let exact = value(a) + value(b);
        if exact == 0 {
            signed(is_negative(a) && is_negative(b), 0)
        } else {
            signed(exact < 0, nearest(distance(exact), 1))
        }
    }
}

/// `m * 2^q` with a sign.
spec fn side(negative: bool, m: nat, q: nat) -> int {
    if negative {
        -((m * pow2(q)) as int)
    } else {
        (m * pow2(q)) as int
    }
}

/// Adds two numbers of which the first has the larger exponent.
fn plus_ordered(na: bool, ma: u32, qa: u32, nb: bool, mb: u32, qb: u32) -> (r: u32)
    requires
        ma < 2 * FRACTIONS,
        mb < 2 * FRACTIONS,
        qb <= qa <= 253,
        qa > 0 ==> ma >= FRACTIONS,
    ensures
        ({
            let exact = side(na, ma as nat, qa as nat) + side(nb, mb as nat, qb as nat);
            r == if exact == 0 {
                signed(na && nb, 0)
            } else {
                signed(exact < 0, nearest(distance(exact), 1))
            }
        }),
{
    let d: u32 = qa - qb;
    let ghost va = (ma * pow2(qa as nat)) as nat;
    let ghost vb = (mb * pow2(qb as nat)) as nat;
    let ghost exact = side(na, ma as nat, qa as nat) + side(nb, mb as nat, qb as nat);
    proof {
        lemma_pow2_pos(qa as nat);
        lemma_pow2_pos(qb as nat);
        lemma2_to64();
    }
    if d <= 41 {
        let big: u128 = scale(ma as u128, d);
        let small: u128 = mb as u128;
        let ghost p = pow2(qb as nat);
        proof {
            lemma_pow2_adds(d as nat, qb as nat);
            assert(va == big * p) by (nonlinear_arith)
                requires
                    va == ma * (pow2(d as nat) * p),
                    big == ma * pow2(d as nat),
            ;
        }
        let negative: bool;
        let sig: u128;
        if na == nb {
            negative = na;
            sig = big + small;
            assert((big + small) * p == big * p + small * p) by (nonlinear_arith);
        } else if big >= small {
            negative = na;
            sig = big - small;
            assert((big - small) * p == big * p - small * p) by (nonlinear_arith);
        } else {
            negative = nb;
            sig = small - big;
            assert((small - big) * p == small * p - big * p) by (nonlinear_arith);
        }
        assert(distance(exact) == sig * p);
        if sig == 0 {
            assert(exact == 0) by (nonlinear_arith)
                requires
                    distance(exact) == sig * p,
                    sig == 0,
            ;
            if na == nb {
                proof {
                    assert(big * p == 0) by (nonlinear_arith)
                        requires
                            big == 0,
                    ;
                }
            }
            return with_sign(na && nb, 0);
        }
        assert(sig * p > 0) by (nonlinear_arith)
            requires
                sig > 0,
                p > 0,
        ;
        let n: u32 = round(sig, qb, false, 0);
        proof {
            assert((sig * p) * 1 == sig * p);
            lemma_nearest_of(distance(exact), 1, sig as nat, qb as nat, false, 0, n);
        }
        return with_sign(negative, n);
    }
    let e: u32 = qa - 18;
    let wide: u128 = scale(ma as u128, 18);
    let ghost w = pow2(e as nat);
    proof {
        lemma_pow2_pos(e as nat);
        lemma_pow2_adds(18, e as nat);
        assert(va == wide * w) by (nonlinear_arith)
            requires
                va == ma * (pow2(18) * w),
                wide == ma * pow2(18),
        ;
        assert(wide >= 0x200_0000_0000) by (nonlinear_arith)
            requires
                wide == ma * 0x4_0000,
                ma >= 0x80_0000,
        ;
        assert(wide <= 0x400_0000_0000) by (nonlinear_arith)
            requires
                wide == ma * 0x4_0000,
                ma < 0x100_0000,
        ;
        // The smaller side is less than one step of the wider one.
        lemma_pow2_adds(24, qb as nat);
        lemma_pow2_adds((e - 24 - qb) as nat, (24 + qb) as nat);
        lemma_pow2_pos((e - 24 - qb) as nat);
        assert(vb < w) by (nonlinear_arith)
            requires
                vb == mb * pow2(qb as nat),
                mb < 0x100_0000,
                pow2((24 + qb) as nat) == 0x100_0000 * pow2(qb as nat),
                w == pow2((e - 24 - qb) as nat) * pow2((24 + qb) as nat),
                pow2((e - 24 - qb) as nat) > 0,
                pow2(qb as nat) > 0,
        ;
        assert(wide * w >= 2 * w) by (nonlinear_arith)
            requires
                wide >= 2,
        ;
    }
    if mb == 0 {
        let n: u32 = round(wide, e, false, 0);
        proof {
            assert(vb == 0) by (nonlinear_arith)
                requires
                    vb == mb * pow2(qb as nat),
                    mb == 0,
            ;
            assert((wide * w) * 1 == wide * w);
            lemma_nearest_of(distance(exact), 1, wide as nat, e as nat, false, 0, n);
        }
        return with_sign(na, n);
    }
    assert(vb > 0) by (nonlinear_arith)
        requires
            vb == mb * pow2(qb as nat),
            mb > 0,
            pow2(qb as nat) > 0,
    ;
    let sig: u128 = if na == nb {
        wide
    } else {
        wide - 1
    };
    let n: u32 = round(sig, e, true, 0);
    proof {
        assert((wide - 1) * w == wide * w - w) by (nonlinear_arith);
        assert((sig * w) * 1 == sig * w);
        assert((sig * w + w) * 1 == sig * w + w);
        assert(distance(exact) * 1 == distance(exact));
        lemma_nearest_of(distance(exact), 1, sig as nat, e as nat, true, 0, n);
    }
    with_sign(na, n)
}

/// The sum of two numbers.
pub fn plus(a: u32, b: u32) -> (r: u32)
    ensures
        r == sum(a, b),
{
    let x: u32 = abs(a);
    let y: u32 = abs(b);
    if x > INFINITY || y > INFINITY || (x == INFINITY && y == INFINITY && a != b) {
        return NAN;
    }
    if x == INFINITY {
        return a;
    }
    if y == INFINITY {
        return b;
    }
    let (ma, qa) = split(x);
    let (mb, qb) = split(y);
    if qa >= qb {
        plus_ordered(a >= SIGN, ma, qa, b >= SIGN, mb, qb)
    } else {
        plus_ordered(b >= SIGN, mb, qb, a >= SIGN, ma, qa)
    }
}

/// A number with its sign turned.
pub open spec fn negated(a: u32) -> u32 {
    signed(!is_negative(a), magnitude(a))
}

/// The difference of two numbers.
pub open spec fn difference(a: u32, b: u32) -> u32 {
    sum(a, negated(b))
}

/// The difference of two numbers.
pub fn minus(a: u32, b: u32) -> (r: u32)
    ensures
        r == difference(a, b),
{
    plus(a, with_sign(b < SIGN, abs(b)))
}

/// The quotient of two numbers.
pub open spec fn quotient(a: u32, b: u32) -> u32 {
    let negative = is_negative(a) != is_negative(b);
    if is_nan(a) || is_nan(b) || (is_infinite(a) && is_infinite(b)) || (magnitude(a) == 0
        && magnitude(b) == 0) {
        NAN
    } else if is_infinite(a) || magnitude(b) == 0 {
        signed(negative, INFINITY)
    } else if is_infinite(b) {
        signed(negative, 0)
    } else {
        signed(
            negative,
            nearest(units(magnitude(a) as nat) * one_units(), units(magnitude(b) as nat)),
        )
    }
}

/// `m * 2^s` with its top bit where that of a normal number is, and `s`.
fn normalize(m: u32) -> (r: (u32, u32))
    requires
        0 < m < 2 * FRACTIONS,
    ensures
        r.0 == m * pow2(r.1 as nat),
        FRACTIONS <= r.0 < 2 * FRACTIONS,
        r.1 <= 23,
{
    let mut x: u32 = m;
    let mut s: u32 = 0;
    proof {
        lemma2_to64();
    }
    while x < FRACTIONS
        invariant
            0 < m,
            0 < x < 2 * FRACTIONS,
            x == m * pow2(s as nat),
            s <= 23,
        decreases 2 * FRACTIONS - x,
    {
        proof {
            lemma2_to64();
            lemma_pow2_unfold((s + 1) as nat);
            assert(m * (2 * pow2(s as nat)) == 2 * (m * pow2(s as nat))) by (nonlinear_arith);
            if s == 23 {
                assert(m * pow2(23) >= FRACTIONS) by (nonlinear_arith)
                    requires
                        m >= 1,
                        pow2(23) == 0x80_0000,
                ;
            }
        }
        x = x * 2;
        s = s + 1;
    }
    (x, s)
}

/// The quotient of two numbers.
pub fn over(a: u32, b: u32) -> (r: u32)
    ensures
        r == quotient(a, b),
{
    let x: u32 = abs(a);
    let y: u32 = abs(b);
    let negative: bool = (a >= SIGN) != (b >= SIGN);
    if x > INFINITY || y > INFINITY || (x == INFINITY && y == INFINITY) || (x == 0 && y == 0) {
        return NAN;
    }
    if x == INFINITY || y == 0 {
        return with_sign(negative, INFINITY);
    }
    if y == INFINITY {
        return with_sign(negative, 0);
    }
    let (ma, qa) = split(x);
    let (mb, qb) = split(y);
    let ghost num = units(x as nat) * one_units();
    let ghost den = units(y as nat);
    proof {
        lemma_pow2_pos(149);
        lemma_pow2_pos(qb as nat);
        assert(den > 0) by (nonlinear_arith)
            requires
                den == mb * pow2(qb as nat),
                mb > 0,
                pow2(qb as nat) > 0,
        ;
    }
    if x == 0 {
        proof {
            assert(num == 0) by (nonlinear_arith)
                requires
                    num == units(x as nat) * one_units(),
                    units(x as nat) == ma * pow2(qa as nat),
                    ma == 0,
            ;
            lemma_nearest_zero(den);
        }
        return with_sign(negative, 0);
    }
    let (mn, s) = normalize(ma);
    let wide: u128 = scale(mn as u128, 40);
    let sig: u128 = wide / (mb as u128);
    let rest: u128 = wide % (mb as u128);
    let e: u32 = qa + 309 - qb - s;
    let sticky: bool = rest != 0;
    proof {
        lemma2_to64();
        lemma_pow2_adds(32, 8);
        assert(wide >= 0x8000_0000_0000_0000) by (nonlinear_arith)
            requires
                wide == mn * 0x100_0000_0000,
                mn >= 0x80_0000,
        ;
        assert(wide == sig * mb + rest && rest < mb) by (nonlinear_arith)
            requires
                sig == wide / (mb as u128),
                rest == wide % (mb as u128),
                mb > 0,
        ;
        assert(sig >= 0x100_0000) by (nonlinear_arith)
            requires
                wide == sig * mb + rest,
                rest < mb,
                mb < 0x100_0000,
                wide >= 0x8000_0000_0000_0000,
        ;
    }
    let n: u32 = round(sig, e, sticky, 200);
    proof {
        let p = pow2((e + qb) as nat);
        lemma_pow2_adds(e as nat, qb as nat);
        lemma_pow2_pos((e + qb) as nat);
        // num * 2^200 == wide * p
        lemma_pow2_adds(40, (e + qb) as nat);
        lemma_pow2_adds(s as nat, (40 + e + qb) as nat);
        lemma_pow2_adds(qa as nat, 149);
        lemma_pow2_adds((qa + 149) as nat, 200);
        assert(s + 40 + e + qb == qa + 149 + 200);
        let all = pow2((qa + 349) as nat);
        assert(num * pow2(200) == ma * all) by (nonlinear_arith)
            requires
                num == (ma * pow2(qa as nat)) * pow2(149),
                all == (pow2(qa as nat) * pow2(149)) * pow2(200),
        ;
        assert(wide * p == ma * all) by (nonlinear_arith)
            requires
                wide == mn * pow2(40),
                mn == ma * pow2(s as nat),
                all == pow2(s as nat) * (pow2(40) * p),
        ;
        assert((sig as nat * pow2(e as nat)) * den == (sig * mb) * p) by (nonlinear_arith)
            requires
                den == mb * pow2(qb as nat),
                p == pow2(e as nat) * pow2(qb as nat),
        ;
        assert((sig as nat * pow2(e as nat) + pow2(e as nat)) * den == (sig * mb + mb) * p)
            by (nonlinear_arith)
            requires
                den == mb * pow2(qb as nat),
                p == pow2(e as nat) * pow2(qb as nat),
        ;
        assert(wide * p == (sig * mb) * p + rest * p) by (nonlinear_arith)
            requires
                wide == sig * mb + rest,
        ;
        assert((sig * mb + mb) * p == (sig * mb) * p + mb * p) by (nonlinear_arith);
        assert(rest * p < mb * p) by (nonlinear_arith)
            requires
                rest < mb,
                p > 0,
        ;
        assert(rest > 0 ==> rest * p > 0) by (nonlinear_arith)
            requires
                p > 0,
        ;
        assert(rest == 0 ==> rest * p == 0) by (nonlinear_arith);
        lemma_nearest_of(num, den, sig as nat, e as nat, sticky, 200, n);
    }
    with_sign(negative, n)
}

/// The square root of a number.
pub open spec fn square_root(a: u32) -> u32 {
    if is_nan(a) {
        NAN
    } else if magnitude(a) == 0 {
        a
    } else if is_negative(a) {
        NAN
    } else if is_infinite(a) {
        a
    } else {
        nearest_root(units(a as nat) * one_units())
    }
}

/// The largest number whose square is at most `x`.
fn whole_root(x: u128) -> (r: u128)
    requires
        x < 0x4_0000_0000_0000_0000,
    ensures
        r * r <= x < (r + 1) * (r + 1),
        r < 0x2_0000_0000,
{
    let mut low: u128 = 0;
    let mut high: u128 = 0x2_0000_0000;
    while high - low > 1
        invariant
            low < high <= 0x2_0000_0000,
            low * low <= x < high * high,
        decreases high - low,
    {
        let mid: u128 = (low + high) / 2;
        assert(mid * mid <= 0x4_0000_0000_0000_0000) by (nonlinear_arith)
            requires
                mid <= 0x2_0000_0000,
        ;
        if mid * mid <= x {
            low = mid;
        } else {
            high = mid;
        }
    }
    assert(high == low + 1);
    low
}

/// Rounding a bracket of a root rounds the root.
proof fn lemma_nearest_root_of(square: nat, sig: nat, e: nat, sticky: bool, n: u32)
    requires
        rounds_to(sig, e, sticky, 0, n),
        !sticky ==> (sig * pow2(e)) * (sig * pow2(e)) == square,
        sticky ==> (sig * pow2(e)) * (sig * pow2(e)) < square < (sig * pow2(e) + pow2(e)) * (sig
            * pow2(e) + pow2(e)),
    ensures
        nearest_root(square) == n,
{
    let s = sig * pow2(e);
    let w = pow2(e);
    lemma2_to64();
    assert((2 * s) * (2 * s) == 4 * (s * s)) by (nonlinear_arith);
    assert((2 * s + 2 * w) * (2 * s + 2 * w) == 4 * ((s + w) * (s + w))) by (nonlinear_arith);
    if n > 0 {
        let m = units((n - 1) as nat) + units(n as nat);
        assert(m * pow2(0) == m);
        assert(m < 2 * s ==> m * m < (2 * s) * (2 * s)) by (nonlinear_arith);
    }
    if n < INFINITY {
        let m = units(n as nat) + units((n + 1) as nat);
        assert(m * pow2(0) == m);
        assert(2 * s < m ==> (2 * s) * (2 * s) < m * m) by (nonlinear_arith);
        assert(2 * s + 2 * w <= m ==> (2 * s + 2 * w) * (2 * s + 2 * w) <= m * m)
            by (nonlinear_arith);
    }
    assert(is_nearest_root(square, n));
    lemma_nearest_root_unique(square, n);
}

/// The square root of a number.
pub fn sqrt(a: u32) -> (r: u32)
    ensures
        r == square_root(a),
{
    let x: u32 = abs(a);
    if x > INFINITY {
        return NAN;
    }
    if x == 0 {
        return a;
    }
    if a >= SIGN {
        return NAN;
    }
    if x == INFINITY {
        return a;
    }
    let (m, q) = split(x);
    let (mn, s) = normalize(m);
    let t: u32 = q + 149 - s;
    let j: u32 = if t % 2 == 0 {
        40
    } else {
        41
    };
    let wide: u128 = scale(mn as u128, j);
    proof {
        lemma2_to64();
        lemma_pow2_adds(32, 8);
        lemma_pow2_adds(32, 9);
        assert(0x8000_0000_0000_0000 <= wide < 0x4_0000_0000_0000_0000) by (nonlinear_arith)
            requires
                wide == mn * 0x100_0000_0000 || wide == mn * 0x200_0000_0000,
                0x80_0000 <= mn < 0x100_0000,
        ;
    }
    let root: u128 = whole_root(wide);
    let e: u32 = (t - j) / 2;
    assert(root * root < 0x4_0000_0000_0000_0000) by (nonlinear_arith)
        requires
            root < 0x2_0000_0000,
    ;
    let sticky: bool = root * root != wide;
    assert(root >= 0x100_0000) by (nonlinear_arith)
        requires
            wide < (root + 1) * (root + 1),
            wide >= 0x8000_0000_0000_0000,
    ;
    let n: u32 = round(root, e, sticky, 0);
    proof {
        let square = units(x as nat) * one_units();
        let p = pow2(e as nat);
        lemma_pow2_pos(e as nat);
        lemma_pow2_adds(e as nat, e as nat);
        lemma_pow2_adds(j as nat, (t - j) as nat);
        lemma_pow2_adds(s as nat, t as nat);
        lemma_pow2_adds(q as nat, 149);
        let all = pow2((q + 149) as nat);
        assert(square == m * all) by (nonlinear_arith)
            requires
                square == (m * pow2(q as nat)) * pow2(149),
                all == pow2(q as nat) * pow2(149),
        ;
        assert(wide * (p * p) == m * all) by (nonlinear_arith)
            requires
                wide == mn * pow2(j as nat),
                mn == m * pow2(s as nat),
                all == pow2(s as nat) * (pow2(j as nat) * (p * p)),
        ;
        assert((root * p) * (root * p) == (root * root) * (p * p)) by (nonlinear_arith);
        assert((root * p + p) * (root * p + p) == ((root + 1) * (root + 1)) * (p * p))
            by (nonlinear_arith);
        assert(p * p > 0) by (nonlinear_arith)
            requires
                p > 0,
        ;
        assert(root * root < wide ==> (root * root) * (p * p) < wide * (p * p))
            by (nonlinear_arith)
            requires
                p * p > 0,
        ;
        assert(wide * (p * p) < ((root + 1) * (root + 1)) * (p * p)) by (nonlinear_arith)
            requires
                p * p > 0,
                wide < (root + 1) * (root + 1),
        ;
        lemma_nearest_root_of(square, root as nat, e as nat, sticky, n);
    }
    n
}

/// The number nearest to a whole number.
pub open spec fn nearest_int(v: int) -> u32 {
    signed(v < 0, nearest(distance(v) * one_units(), 1))
}

/// The number nearest to a whole number.
pub fn from_int(v: i64) -> (r: u32)
    ensures
        r == nearest_int(v as int),
{
    let ghost num = distance(v as int) * one_units();
    if v == 0 {
        proof {
            lemma_nearest_zero(1);
            assert(num == 0) by (nonlinear_arith)
                requires
                    num == distance(0) * one_units(),
            ;
        }
        return 0;
    }
    let sig: u128 = if v < 0 {
        (-(v as i128)) as u128
    } else {
        v as u128
    };
    let n: u32 = round(sig, 149, false, 0);
    proof {
        lemma2_to64();
        assert((sig * one_units()) * 1 == num * 1);
        lemma_nearest_of(num, 1, sig as nat, 149, false, 0, n);
    }
    with_sign(v < 0, n)
}

/// A number without its fraction, as far as it fits: nothing for what is below
/// zero or not a number, and the largest count for what is too large.
pub open spec fn whole(b: u32) -> usize {
    if is_nan(b) || is_negative(b) {
        0
    } else if is_infinite(b) || units(b as nat) / one_units() > usize::MAX {
        usize::MAX
    } else {
        (units(b as nat) / one_units()) as usize
    }
}

/// A number without its fraction, as far as it fits.
pub fn truncated(b: u32) -> (r: usize)
    ensures
        r == whole(b),
{
    if b >= SIGN || b > INFINITY {
        return 0;
    }
    if b == INFINITY {
        return usize::MAX;
    }
    let (m, q): (u32, u32) = split(b);
    proof {
        lemma_pow2_pos(149);
        lemma_pow2_pos(q as nat);
    }
    if q < 149 {
        let d: u32 = 149 - q;
        proof {
            lemma_pow2_adds(q as nat, d as nat);
            lemma_pow2_pos(d as nat);
            let p = pow2(q as nat) as int;
            lemma_div_denominator(m as int * p, p, pow2(d as nat) as int);
            lemma_div_by_multiple(m as int, p);
        }
        halved(m, d) as usize
    } else {
        let d: u32 = q - 149;
        proof {
            lemma_pow2_adds(d as nat, 149);
            let p = pow2(d as nat);
            let one = pow2(149);
            assert(m * (p * one) == (m * p) * one) by (nonlinear_arith);
            lemma_div_by_multiple((m * p) as int, one as int);
        }
        if d > 41 {
            proof {
                lemma2_to64();
                lemma_pow2_adds(42, (d - 42) as nat);
                lemma_pow2_adds(32, 10);
                lemma_pow2_pos((d - 42) as nat);
                let far = pow2(42);
                let more = pow2((d - 42) as nat);
                assert(m * (far * more) >= FRACTIONS * far) by (nonlinear_arith)
                    requires
                        m >= FRACTIONS,
                        more >= 1,
                ;
            }
            return usize::MAX;
        }
        let x: u128 = scale(m as u128, d);
        if x > usize::MAX as u128 {
            usize::MAX
        } else {
            x as usize
        }
    }
}

/// A number halved a number of times.
fn halved(m: u32, d: u32) -> (r: u32)
    ensures
        r == m as int / pow2(d as nat) as int,
{
    let mut n: u32 = m;
    let mut i: u32 = 0;
    proof {
        lemma2_to64();
    }
    while i < d
        invariant
            i <= d,
            n == m as int / pow2(i as nat) as int,
        decreases d - i,
    {
        proof {
            lemma_pow2_pos(i as nat);
            lemma_pow2_unfold((i + 1) as nat);
            lemma_div_denominator(m as int, pow2(i as nat) as int, 2);
            assert(pow2(i as nat) * 2 == pow2((i + 1) as nat));
        }
        n = n / 2;
        i = i + 1;
    }
    n
}

/// The place of a number among all numbers, both zeros in the same one.
pub open spec fn rank(b: u32) -> int {
    if is_negative(b) {
        -(magnitude(b) as int)
    } else {
        magnitude(b) as int
    }
}

/// Whether `a` is less than `b`. What is not a number compares with nothing.
pub open spec fn is_less(a: u32, b: u32) -> bool {
    !is_nan(a) && !is_nan(b) && rank(a) < rank(b)
}

/// Whether `a` is at most `b`.
pub open spec fn is_at_most(a: u32, b: u32) -> bool {
    !is_nan(a) && !is_nan(b) && rank(a) <= rank(b)
}

fn place(b: u32) -> (r: i64)
    ensures
        r == rank(b),
{
    if b >= SIGN {
        -((b - SIGN) as i64)
    } else {
        b as i64
    }
}

/// Whether `a` is less than `b`.
pub fn less(a: u32, b: u32) -> (r: bool)
    ensures
        r == is_less(a, b),
{
    abs(a) <= INFINITY && abs(b) <= INFINITY && place(a) < place(b)
}

/// Whether `a` is at most `b`.
pub fn at_most(a: u32, b: u32) -> (r: bool)
    ensures
        r == is_at_most(a, b),
{
    abs(a) <= INFINITY && abs(b) <= INFINITY && place(a) <= place(b)
}

/// Comparing finite bit patterns compares the numbers they stand for.
pub proof fn law_order_is_numeric(a: u32, b: u32)
    requires
        is_finite(a),
        is_finite(b),
    ensures
        is_less(a, b) <==> value(a) < value(b),
        is_at_most(a, b) <==> value(a) <= value(b),
{
    let x = magnitude(a) as nat;
    let y = magnitude(b) as nat;
    lemma_units_split(0, 0);
    lemma_units_increase(0, x);
    lemma_units_increase(0, y);
    if x <= y {
        lemma_units_increase(x, y);
    } else {
        lemma_units_increase(y, x);
    }
}

/// A result that is a number already is not changed by rounding.
pub proof fn law_rounding_exact(n: u32, den: nat)
    requires
        n <= INFINITY,
        den > 0,
    ensures
        nearest(units(n as nat) * den, den) == n,
{
    let u = units(n as nat);
    let num = u * den;
    if n > 0 {
        let v = units((n - 1) as nat);
        lemma_units_step((n - 1) as nat);
        assert((v + u) * den < 2 * (u * den)) by (nonlinear_arith)
            requires
                v < u,
                den > 0,
        ;
    }
    if n < INFINITY {
        let v = units((n + 1) as nat);
        lemma_units_step(n as nat);
        assert(2 * (u * den) < (u + v) * den) by (nonlinear_arith)
            requires
                u < v,
                den > 0,
        ;
    }
    lemma_nearest_unique(num, den, n);
}

/// Sums and products do not depend on the order of their parts.
pub proof fn law_commutative(a: u32, b: u32)
    ensures
        sum(a, b) == sum(b, a),
        product(a, b) == product(b, a),
{
    let x = units(magnitude(a) as nat);
    let y = units(magnitude(b) as nat);
    assert(x * y == y * x) by (nonlinear_arith);
}

/// Adding either zero to a finite number other than zero leaves it as it is.
pub proof fn law_sum_with_zero(a: u32, zero: u32)
    requires
        is_finite(a),
        magnitude(a) != 0,
        magnitude(zero) == 0,
    ensures
        sum(a, zero) == a,
{
    lemma_units_split(0, 0);
    lemma_units_increase(0, magnitude(a) as nat);
    law_rounding_exact(magnitude(a), 1);
    assert(units(magnitude(a) as nat) * 1 == units(magnitude(a) as nat));
}

/// One as bits and as a number of units.
pub proof fn lemma_one()
    ensures
        units(0x3f80_0000) == one_units(),
{
    lemma_units_split(0x80_0000, 126);
    lemma2_to64();
    lemma_pow2_adds(23, 126);
    assert(126 * FRACTIONS as nat + 0x80_0000 == 0x3f80_0000);
}

/// Rounding keeps the order: what is not greater is not rounded to more.
pub proof fn law_rounding_monotone(a: nat, b: nat, den: nat)
    requires
        a <= b,
        den > 0,
    ensures
        nearest(a, den) <= nearest(b, den),
{
    law_nearest_exists(a, den);
    law_nearest_exists(b, den);
    let m = nearest(a, den);
    let n = nearest(b, den);
    if n < m {
        lemma_units_increase(n as nat, (m - 1) as nat);
        lemma_units_increase((n + 1) as nat, m as nat);
        let x = units(n as nat) + units((n + 1) as nat);
        let y = units((m - 1) as nat) + units(m as nat);
        assert(x * den <= y * den) by (nonlinear_arith)
            requires
                x <= y,
        ;
        assert(a == b);
    }
}

/// A whole number of 64 bits is rounded to a finite one.
pub proof fn law_whole_numbers_are_finite(v: i64)
    ensures
        magnitude(nearest_int(v as int)) <= 0x5f00_0000,
        is_finite(nearest_int(v as int)),
{
    let top = 0x5f00_0000u32;
    lemma_units_split(0x80_0000, 189);
    lemma2_to64();
    lemma_pow2_adds(23, 40);
    lemma_pow2_adds(32, 31);
    lemma_pow2_adds(40, 149);
    assert(189 * FRACTIONS as nat + 0x80_0000 == top);
    let one = one_units();
    let far = pow2(40);
    assert(units(top as nat) == 0x8000_0000_0000_0000 * one) by (nonlinear_arith)
        requires
            units(top as nat) == 0x80_0000 * (far * one),
            0x80_0000 * far == 0x8000_0000_0000_0000,
    ;
    law_rounding_exact(top, 1);
    let d = distance(v as int);
    assert(d * one <= 0x8000_0000_0000_0000 * one) by (nonlinear_arith)
        requires
            d <= 0x8000_0000_0000_0000,
    ;
    law_rounding_monotone(d * one, units(top as nat) * 1, 1);
}

/// Dividing by at least one does not make a finite number larger.
pub proof fn law_quotient_shrinks(a: u32, b: u32)
    requires
        is_finite(a),
        is_finite(b),
        magnitude(b) >= 0x3f80_0000,
    ensures
        magnitude(quotient(a, b)) <= magnitude(a),
        is_finite(quotient(a, b)),
{
    lemma_one();
    lemma_units_increase(0x3f80_0000, magnitude(b) as nat);
    lemma_pow2_pos(149);
    let u = units(magnitude(a) as nat);
    let den = units(magnitude(b) as nat);
    assert(u * one_units() <= u * den) by (nonlinear_arith)
        requires
            one_units() <= den,
    ;
    law_rounding_monotone(u * one_units(), u * den, den);
    law_rounding_exact(magnitude(a), den);
}

/// Zero times a finite number is zero, with a sign.
pub proof fn law_product_with_zero(zero: u32, b: u32)
    requires
        magnitude(zero) == 0,
        is_finite(b),
    ensures
        magnitude(product(zero, b)) == 0,
{
    lemma_units_split(0, 0);
    lemma_pow2_pos(149);
    lemma_nearest_zero(one_units());
    assert(0 * units(magnitude(b) as nat) == 0) by (nonlinear_arith);
}

/// A number times one is that number.
pub proof fn law_product_with_one(a: u32)
    requires
        !is_nan(a),
    ensures
        product(a, 0x3f80_0000) == a,
{
    lemma_one();
    lemma_pow2_pos(149);
    law_rounding_exact(magnitude(a), one_units());
}

} // verus!
