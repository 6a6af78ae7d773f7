//! What moving, steering and finding come to in exact arithmetic.
//!
//! Coordinates are rounded at every step. What is stated here compares the outcome
//! with the plane of geometry: lengths and velocities as they would be without any
//! rounding, up to a few parts in millions.

use vstd::arithmetic::power2::{lemma2_to64, lemma_pow2_adds, lemma_pow2_pos, pow2};
use vstd::prelude::*;

use crate::accuracy::{
    law_difference_is_accurate, law_difference_keeps_the_sign, law_nearest_root_exists,
    law_product_is_accurate, law_product_keeps_the_sign, law_quotient_is_accurate,
    law_quotient_keeps_the_sign, law_square_root_is_accurate, law_sum_is_accurate,
    law_sum_keeps_the_sign, law_sum_moves_on, law_whole_number_is_accurate, lemma_negated,
    lemma_pow2_grows, lemma_rounded_range, lemma_within_chain, lemma_within_double,
    lemma_within_itself, lemma_within_more, lemma_within_product, lemma_within_scaled,
    lemma_within_sum, lemma_within_unscaled, product_units, within, PARTS,
};
use crate::binary32::{
    difference, distance, is_finite, is_less, is_nan, is_negative, law_commutative,
    law_nearest_exists, law_order_is_numeric, law_rounding_exact, lemma_units_increase,
    lemma_units_split, magnitude, nearest, nearest_int, one_units, product, quotient, rank,
    square_root, sum, units, value, INFINITY, SIGN,
};
use crate::ecs::{
    after, body_distance2, distance2, drifted, find, heading, in_reach, is_first_nearest, seconds,
    BodyView, EcsView, THOUSAND, TOGETHER,
};
use crate::imports::{HostCall, Value};
use crate::laws::{
    law_nearest_is_nearest, law_velocity_reads_back, lemma_filter_wf, lemma_first_nearest_exists,
    same_entities,
};
use crate::state::{entity_id, HostTrap, HostView};

verus! {

/// Whether a number of units is nothing or of an ordinary size: from two to the power
/// of minus forty, about a millionth of a millionth, to two to the power of forty.
pub open spec fn ordinary(e: int) -> bool {
    e == 0 || pow2(109) <= distance(e) <= pow2(189)
}

pub open spec fn square(e: int) -> nat {
    distance(e) * distance(e)
}

/// The square of the distance between two points of the plane, in square units,
/// without any rounding.
pub open spec fn exact_square(x0: u32, y0: u32, x1: u32, y1: u32) -> nat {
    square(value(x0) - value(x1)) + square(value(y0) - value(y1))
}

/// One leg of a triangle, and its square.
#[verifier::spinoff_prover]
proof fn lemma_leg(a: u32, b: u32)
    requires
        is_finite(a),
        is_finite(b),
        ordinary(value(a) - value(b)),
    ensures
        ({
            let d = difference(a, b);
            let u = units(magnitude(d) as nat);
            let e = value(a) - value(b);
            &&& is_finite(d)
            &&& within(u, distance(e), 2)
            &&& within(u * u, square(e), 5)
            &&& is_finite(product(d, d))
            &&& !is_negative(product(d, d))
            &&& within(product_units(d, d) * one_units(), square(e), 8)
            &&& e == 0 <==> u == 0
            &&& e == 0 ==> product_units(d, d) == 0
            &&& e != 0 ==> pow2(109) <= u <= pow2(189)
            &&& e != 0 ==> pow2(69) <= product_units(d, d) <= pow2(229)
        }),
{
    let d = difference(a, b);
    let u = units(magnitude(d) as nat);
    let e = value(a) - value(b);
    let w = distance(e);
    let one = one_units();
    lemma_negated(b);
    lemma_pow2_grows(189, 276);
    law_difference_is_accurate(a, b);
    law_difference_keeps_the_sign(a, b);
    lemma_within_product(u, w, u, w, 2, 2);
    lemma_units_split(0, 0);
    lemma_pow2_adds(109, 109);
    lemma_pow2_adds(189, 189);
    lemma_pow2_adds(69, 149);
    lemma_pow2_adds(229, 149);
    lemma_pow2_pos(109);
    if e != 0 {
        law_nearest_exists(w, 1);
        assert(magnitude(d) == nearest(w, 1));
        lemma_rounded_range(w, 1, 109);
        lemma_rounded_range(w, 1, 189);
        assert(u * u >= pow2(109) * pow2(109)) by (nonlinear_arith)
            requires
                u >= pow2(109),
        ;
        assert(u * u <= pow2(189) * pow2(189)) by (nonlinear_arith)
            requires
                u <= pow2(189),
        ;
    }
    assert(u == 0 ==> u * u == 0) by (nonlinear_arith);
    law_product_is_accurate(d, d, 69, 229);
    law_product_keeps_the_sign(d, d);
    lemma_within_chain(product_units(d, d) * one, u * u, square(e), 2, 5);
    if e != 0 {
        assert(u * u > 0) by (nonlinear_arith)
            requires
                u > 0,
        ;
    }
}

/// The sum of the squares of two legs.
#[verifier::spinoff_prover]
proof fn lemma_legs(x0: u32, y0: u32, x1: u32, y1: u32)
    requires
        is_finite(x0),
        is_finite(y0),
        is_finite(x1),
        is_finite(y1),
        ordinary(value(x0) - value(x1)),
        ordinary(value(y0) - value(y1)),
    ensures
        ({
            let dx = difference(x0, x1);
            let dy = difference(y0, y1);
            let s = sum(product(dx, dx), product(dy, dy));
            let e = exact_square(x0, y0, x1, y1);
            &&& s < INFINITY
            &&& within(units(s as nat) * one_units(), e, 11)
            &&& e == 0 <==> s == 0
        }),
{
    let dx = difference(x0, x1);
    let dy = difference(y0, y1);
    let p = product(dx, dx);
    let q = product(dy, dy);
    let s = sum(p, q);
    let one = one_units();
    lemma_leg(x0, x1);
    lemma_leg(y0, y1);
    let ex = square(value(x0) - value(x1));
    let ey = square(value(y0) - value(y1));
    let up = product_units(dx, dx);
    let uq = product_units(dy, dy);
    lemma_within_sum(up * one, ex, uq * one, ey, 8);
    assert((up + uq) * one == up * one + uq * one) by (nonlinear_arith);
    lemma_pow2_adds(1, 229);
    lemma2_to64();
    lemma_pow2_grows(230, 276);
    lemma_pow2_pos(69);
    lemma_pow2_pos(229);
    assert(value(p) == up && value(q) == uq);
    law_sum_is_accurate(p, q);
    law_sum_keeps_the_sign(p, q);
    lemma_within_scaled(units(magnitude(s) as nat), up + uq, one, 2);
    lemma_within_chain(
        units(magnitude(s) as nat) * one,
        (up + uq) * one,
        exact_square(x0, y0, x1, y1),
        2,
        8,
    );
    lemma_square_zero(value(x0) - value(x1));
    lemma_square_zero(value(y0) - value(y1));
}

proof fn lemma_square_zero(e: int)
    ensures
        square(e) == 0 <==> e == 0,
{
    let d = distance(e);
    assert(d * d == 0 <==> d == 0) by (nonlinear_arith);
}

/// What stands for the square of a distance is that of the plane, up to rounding: the
/// squares of both coordinate differences, added up.
pub proof fn law_distance2_is_the_distance(x0: u32, y0: u32, x1: u32, y1: u32)
    requires
        is_finite(x0),
        is_finite(y0),
        is_finite(x1),
        is_finite(y1),
        ordinary(value(x0) - value(x1)),
        ordinary(value(y0) - value(y1)),
    ensures
        distance2(x0, y0, x1, y1) < INFINITY,
        within(
            units(distance2(x0, y0, x1, y1) as nat) * one_units(),
            exact_square(x0, y0, x1, y1),
            11,
        ),
{
    lemma_legs(x0, y0, x1, y1);
}

/// Where the differences of the coordinates, their squares and the sum of those are
/// numbers that need no rounding, the square of the distance is exact.
pub proof fn law_distance2_is_exact_where_it_can_be(
    x0: u32,
    y0: u32,
    x1: u32,
    y1: u32,
    m: u32,
    n: u32,
    p: u32,
    q: u32,
    s: u32,
)
    requires
        is_finite(x0),
        is_finite(y0),
        is_finite(x1),
        is_finite(y1),
        m < INFINITY && units(m as nat) == distance(value(x0) - value(x1)),
        n < INFINITY && units(n as nat) == distance(value(y0) - value(y1)),
        p < INFINITY && units(p as nat) * one_units() == square(value(x0) - value(x1)),
        q < INFINITY && units(q as nat) * one_units() == square(value(y0) - value(y1)),
        s < INFINITY && units(s as nat) == units(p as nat) + units(q as nat),
    ensures
        distance2(x0, y0, x1, y1) == s,
        units(distance2(x0, y0, x1, y1) as nat) * one_units() == exact_square(x0, y0, x1, y1),
{
    lemma_exact_leg(x0, x1, m, p);
    lemma_exact_leg(y0, y1, n, q);
    lemma_units_split(0, 0);
    lemma_units_increase(0, s as nat);
    law_rounding_exact(s, 1);
    let a = units(p as nat);
    let b = units(q as nat);
    assert((a + b) * one_units() == a * one_units() + b * one_units()) by (nonlinear_arith);
}

proof fn lemma_exact_leg(a: u32, b: u32, m: u32, p: u32)
    requires
        is_finite(a),
        is_finite(b),
        m < INFINITY && units(m as nat) == distance(value(a) - value(b)),
        p < INFINITY && units(p as nat) * one_units() == square(value(a) - value(b)),
    ensures
        product(difference(a, b), difference(a, b)) == p,
{
    let d = difference(a, b);
    lemma_negated(b);
    lemma_units_split(0, 0);
    lemma_units_increase(0, m as nat);
    law_rounding_exact(m, 1);
    assert(units(m as nat) * 1 == units(m as nat));
    assert(magnitude(d) == m);
    lemma_pow2_pos(149);
    law_rounding_exact(p, one_units());
}

proof fn lemma_difference_turned(a: u32, b: u32)
    ensures
        product(difference(a, b), difference(a, b)) == product(
            difference(b, a),
            difference(b, a),
        ),
{
    let d = difference(a, b);
    let r = difference(b, a);
    assert(magnitude(d) == magnitude(r)) by {
        if is_finite(a) && is_finite(b) {
            lemma_negated(a);
            lemma_negated(b);
            let e = value(a) - value(b);
            assert(distance(e) == distance(-e));
            law_nearest_exists(distance(e), 1);
        }
    }
}

/// The distance is the same there and back, and whichever axis is called the first.
pub proof fn law_distance2_is_symmetric(x0: u32, y0: u32, x1: u32, y1: u32)
    ensures
        distance2(x0, y0, x1, y1) == distance2(x1, y1, x0, y0),
        distance2(x0, y0, x1, y1) == distance2(y0, x0, y1, x1),
{
    lemma_difference_turned(x0, x1);
    lemma_difference_turned(y0, y1);
    let dx = difference(x0, x1);
    let dy = difference(y0, y1);
    law_commutative(product(dx, dx), product(dy, dy));
}

/// The length of the way from one position to another, as steering has it.
#[verifier::spinoff_prover]
proof fn lemma_way(from: [u32; 3], to: [u32; 3])
    requires
        is_finite(from[0]),
        is_finite(from[1]),
        is_finite(to[0]),
        is_finite(to[1]),
        ordinary(value(to[0]) - value(from[0])),
        ordinary(value(to[1]) - value(from[1])),
    ensures
        ({
            let dx = difference(to[0], from[0]);
            let dy = difference(to[1], from[1]);
            let len = square_root(sum(product(dx, dx), product(dy, dy)));
            let u = units(len as nat);
            let e = exact_square(to[0], to[1], from[0], from[1]);
            &&& len < INFINITY
            &&& within(u * u, e, 17)
            &&& e == 0 <==> len == 0
            &&& u <= pow2(190)
        }),
{
    let dx = difference(to[0], from[0]);
    let dy = difference(to[1], from[1]);
    let s = sum(product(dx, dx), product(dy, dy));
    let len = square_root(s);
    let u = units(len as nat);
    let e = exact_square(to[0], to[1], from[0], from[1]);
    let one = one_units();
    lemma_legs(to[0], to[1], from[0], from[1]);
    lemma_units_split(0, 0);
    if s == 0 {
        assert(u * u == 0) by (nonlinear_arith)
            requires
                u == 0,
        ;
        lemma_within_itself(0, 17);
        lemma_pow2_pos(190);
    } else {
        law_square_root_is_accurate(s);
        lemma_within_chain(u * u, units(s as nat) * one, e, 5, 11);
        lemma_pow2_adds(190, 190);
        lemma_pow2_adds(189, 189);
        lemma_pow2_adds(2, 378);
        lemma2_to64();
        let big = pow2(189);
        let wx = distance(value(to[0]) - value(from[0]));
        let wy = distance(value(to[1]) - value(from[1]));
        assert(wx * wx <= big * big) by (nonlinear_arith)
            requires
                wx <= big,
        ;
        assert(wy * wy <= big * big) by (nonlinear_arith)
            requires
                wy <= big,
        ;
        let far = pow2(190);
        assert(far * far == 4 * (big * big));
        lemma_within_double(u * u, e, 17);
        if u > far {
            assert(u * u > far * far) by (nonlinear_arith)
                requires
                    u > far,
            ;
        }
    }
}

/// One component of a velocity: a leg, divided by the length and multiplied by the
/// speed.
#[verifier::spinoff_prover]
proof fn lemma_component(d: u32, len: u32, speed: u32, e: int, all: nat)
    requires
        is_finite(d),
        0 < len < INFINITY,
        is_finite(speed),
        value(speed) != 0,
        ordinary(value(speed)),
        ({
            let u = units(magnitude(d) as nat);
            let l = units(len as nat);
            &&& u == 0 <==> e == 0
            &&& u != 0 ==> pow2(109) <= u
            &&& within(u * u, square(e), 5)
            &&& within(l * l, all, 17)
            &&& square(e) <= all
            &&& l <= pow2(190)
        }),
    ensures
        ({
            let v = product(quotient(d, len), speed);
            &&& is_finite(v)
            &&& is_negative(v) == (is_negative(d) != is_negative(speed))
            &&& e == 0 <==> magnitude(v) == 0
            &&& within(square(value(v)) * all, square(e) * square(value(speed)), 35)
        }),
{
    let one = one_units();
    let u = units(magnitude(d) as nat);
    let l = units(len as nat);
    let w = units(magnitude(speed) as nat);
    let q = quotient(d, len);
    let v = product(q, speed);
    let uq = units(magnitude(q) as nat);
    let uv = units(magnitude(v) as nat);
    lemma_units_split(0, 0);
    lemma_units_increase(0, len as nat);
    lemma_pow2_pos(149);
    // The leg is at most twice the length.
    lemma_within_double(u * u, square(e), 5);
    lemma_within_double(l * l, all, 17);
    assert(u <= 2 * l) by (nonlinear_arith)
        requires
            u * u <= 4 * (l * l),
    ;
    lemma_pow2_adds(65, 190);
    lemma_pow2_adds(109, 149);
    lemma_pow2_grows(255, 258);
    lemma_pow2_adds(1, 149);
    lemma2_to64();
    if u != 0 {
        assert(pow2(65) * l <= pow2(65) * pow2(190)) by (nonlinear_arith)
            requires
                l <= pow2(190),
        ;
        assert(pow2(109) * one <= u * one) by (nonlinear_arith)
            requires
                pow2(109) <= u,
        ;
        assert(u * one <= (2 * one) * l) by (nonlinear_arith)
            requires
                u <= 2 * l,
        ;
    } else {
        assert(u * one == 0) by (nonlinear_arith)
            requires
                u == 0,
        ;
    }
    law_quotient_is_accurate(d, len, 65, 150);
    law_quotient_keeps_the_sign(d, len);
    lemma_pow2_adds(65, 109);
    lemma_pow2_adds(150, 189);
    lemma_pow2_adds(25, 149);
    lemma_pow2_adds(190, 149);
    if u != 0 {
        assert(u * one != 0) by (nonlinear_arith)
            requires
                u > 0,
                one > 0,
        ;
        assert(uq * w >= pow2(65) * pow2(109)) by (nonlinear_arith)
            requires
                uq >= pow2(65),
                w >= pow2(109),
        ;
        assert(uq * w <= pow2(150) * pow2(189)) by (nonlinear_arith)
            requires
                uq <= pow2(150),
                w <= pow2(189),
        ;
        lemma_pow2_pos(174);
    } else {
        assert(magnitude(d) == 0) by {
            if magnitude(d) > 0 {
                lemma_units_increase(0, magnitude(d) as nat);
            }
        }
        assert(uq == 0);
        assert(uq * w == 0) by (nonlinear_arith)
            requires
                uq == 0,
        ;
    }
    law_product_is_accurate(q, speed, 25, 190);
    law_product_keeps_the_sign(q, speed);
    lemma_pow2_pos(25);
    // uv * one ~ uq * w and uq * l ~ u * one
    lemma_within_scaled(uv * one, uq * w, l, 2);
    lemma_within_scaled(uq * l, u * one, w, 2);
    assert((uq * w) * l == (uq * l) * w) by (nonlinear_arith);
    lemma_within_chain((uv * one) * l, (uq * w) * l, (u * one) * w, 2, 2);
    assert((uv * one) * l == (uv * l) * one) by (nonlinear_arith);
    assert((u * one) * w == (u * w) * one) by (nonlinear_arith);
    lemma_within_unscaled(uv * l, u * w, one, 5);
    lemma_within_product(uv * l, u * w, uv * l, u * w, 5, 5);
    assert((uv * l) * (uv * l) == (uv * uv) * (l * l)) by (nonlinear_arith);
    assert((u * w) * (u * w) == (u * u) * (w * w)) by (nonlinear_arith);
    lemma_within_scaled(l * l, all, uv * uv, 17);
    lemma_within_scaled(u * u, square(e), w * w, 5);
    lemma_within_chain((uv * uv) * all, (uv * uv) * (l * l), (u * u) * (w * w), 17, 11);
    lemma_within_chain((uv * uv) * all, (u * u) * (w * w), square(e) * (w * w), 29, 5);
    assert(distance(value(v)) == uv);
    assert(distance(value(speed)) == w);
}

/// How long a millionth is, in units.
#[verifier::spinoff_prover]
proof fn lemma_millionth()
    ensures
        ({
            let t = units(TOGETHER as nat);
            &&& t * 1000000 <= one_units()
            &&& one_units() * 100000000 <= t * 1000000 * 100000001
        }),
{
    lemma_units_split(8796093, 106);
    assert(106 * 0x80_0000 + 8796093 == TOGETHER as nat);
    lemma_pow2_adds(43, 106);
    lemma_pow2_adds(32, 11);
    lemma2_to64();
    assert(pow2(43) == 8796093022208);
    lemma_millionth_in_parts(pow2(106), units(TOGETHER as nat), one_units());
}

proof fn lemma_millionth_in_parts(h: nat, t: nat, one: nat)
    requires
        t == 8796093 * h,
        one == 8796093022208 * h,
    ensures
        t * 1000000 <= one,
        one * 100000000 <= t * 1000000 * 100000001,
{
}

/// A velocity toward a place points there: it is as fast as asked, each part of it
/// bears to the whole as the difference of the coordinates does to the distance, and
/// goes the way in which the target lies, or the other way at a speed below zero.
#[verifier::spinoff_prover]
pub proof fn law_heading_points_at_the_target(from: [u32; 3], to: [u32; 3], speed: u32, axis: int)
    requires
        is_finite(from[0]),
        is_finite(from[1]),
        is_finite(to[0]),
        is_finite(to[1]),
        is_finite(speed),
        value(speed) != 0,
        ordinary(value(speed)),
        ordinary(value(to[0]) - value(from[0])),
        ordinary(value(to[1]) - value(from[1])),
        // More than a millionth apart, by one part in a thousand.
        exact_square(to[0], to[1], from[0], from[1]) * 1000000000000 * 1000 > one_units()
            * one_units() * 1001,
        axis == 0 || axis == 1,
    ensures
        ({
            let v = heading(from, to, speed);
            let e = value(to[axis]) - value(from[axis]);
            let all = exact_square(to[0], to[1], from[0], from[1]);
            &&& is_finite(v[axis])
            &&& value(speed) > 0 && e > 0 ==> value(v[axis]) > 0
            &&& value(speed) > 0 && e < 0 ==> value(v[axis]) < 0
            &&& value(speed) < 0 && e > 0 ==> value(v[axis]) < 0
            &&& value(speed) < 0 && e < 0 ==> value(v[axis]) > 0
            &&& e == 0 ==> value(v[axis]) == 0
            &&& within(square(value(v[axis])) * all, square(e) * square(value(speed)), 35)
            &&& v[2] == 0
        }),
{
    let dx = difference(to[0], from[0]);
    let dy = difference(to[1], from[1]);
    let len = square_root(sum(product(dx, dx), product(dy, dy)));
    let l = units(len as nat);
    let all = exact_square(to[0], to[1], from[0], from[1]);
    let one = one_units();
    lemma_way(from, to);
    lemma_pow2_pos(149);
    lemma_square_zero(value(to[0]) - value(from[0]));
    assert(all != 0) by (nonlinear_arith)
        requires
            all * 1000000000000 * 1000 > one * one * 1001,
    ;
    lemma_millionth();
    let t = units(TOGETHER as nat);
    if l <= t {
        assert(l * l <= t * t) by (nonlinear_arith)
            requires
                l <= t,
        ;
        let a = t * 1000000;
        assert(a * a <= one * one) by (nonlinear_arith)
            requires
                a <= one,
        ;
        assert(a * a == (t * t) * 1000000000000) by (nonlinear_arith)
            requires
                a == t * 1000000,
        ;
        let o = one * one;
        assert((l * l) * (PARTS as nat + 17) <= (t * t) * 16777233) by (nonlinear_arith)
            requires
                l * l <= t * t,
        ;
        assert(all * 16777216 <= (t * t) * 16777233);
        assert(false);
    }
    law_order_is_numeric(TOGETHER, len);
    lemma_leg(to[0], from[0]);
    lemma_leg(to[1], from[1]);
    lemma_component(dx, len, speed, value(to[0]) - value(from[0]), all);
    lemma_component(dy, len, speed, value(to[1]) - value(from[1]), all);
    law_difference_keeps_the_sign(to[0], from[0]);
    law_difference_keeps_the_sign(to[1], from[1]);
    lemma_units_split(0, 0);
    let v = heading(from, to, speed);
    lemma_units_increase(0, magnitude(v[0]) as nat);
    lemma_units_increase(0, magnitude(v[1]) as nat);
}

/// However far away the target is: a part of the velocity that is a number other than
/// zero goes, at a speed above zero, the way in which the target lies.
pub proof fn law_heading_keeps_the_side(from: [u32; 3], to: [u32; 3], speed: u32, axis: int)
    requires
        is_finite(from[0]),
        is_finite(from[1]),
        is_finite(to[0]),
        is_finite(to[1]),
        0 < speed < INFINITY,
        axis == 0 || axis == 1,
    ensures
        ({
            let v = heading(from, to, speed)[axis];
            &&& heading(from, to, speed)[2] == 0
            &&& !is_nan(v) && magnitude(v) != 0 ==> {
                &&& value(to[axis]) != value(from[axis])
                &&& is_negative(v) <==> value(to[axis]) < value(from[axis])
            }
        }),
{
    let dx = difference(to[0], from[0]);
    let dy = difference(to[1], from[1]);
    law_difference_keeps_the_sign(to[0], from[0]);
    law_difference_keeps_the_sign(to[1], from[1]);
    let p = product(dx, dx);
    let q = product(dy, dy);
    lemma_square_is_not_negative(dx);
    lemma_square_is_not_negative(dy);
    let s = sum(p, q);
    lemma_sum_is_not_negative(p, q);
    let len = square_root(s);
    if !is_nan(len) && is_negative(len) {
        law_nearest_root_exists(units(s as nat) * one_units());
    }
    if is_less(TOGETHER, len) {
        assert(!is_nan(len) && !is_negative(len) && magnitude(len) != 0);
        lemma_part_keeps_the_side(dx, len, speed);
        lemma_part_keeps_the_side(dy, len, speed);
    }
}

proof fn lemma_square_is_not_negative(d: u32)
    requires
        !is_nan(d),
    ensures
        !is_nan(product(d, d)),
        !is_negative(product(d, d)),
{
    lemma_pow2_pos(149);
    law_nearest_exists(units(magnitude(d) as nat) * units(magnitude(d) as nat), one_units());
}

proof fn lemma_sum_is_not_negative(a: u32, b: u32)
    requires
        !is_nan(a) && !is_negative(a),
        !is_nan(b) && !is_negative(b),
    ensures
        !is_nan(sum(a, b)),
        !is_negative(sum(a, b)),
{
    if is_finite(a) && is_finite(b) {
        law_sum_keeps_the_sign(a, b);
        lemma_units_split(0, 0);
        lemma_units_increase(0, magnitude(a) as nat);
        lemma_units_increase(0, magnitude(b) as nat);
    }
}

proof fn lemma_part_keeps_the_side(d: u32, len: u32, speed: u32)
    requires
        !is_nan(d),
        !is_nan(len) && !is_negative(len) && magnitude(len) != 0,
        0 < speed < INFINITY,
    ensures
        ({
            let v = product(quotient(d, len), speed);
            !is_nan(v) && magnitude(v) != 0 ==> magnitude(d) != 0 && is_negative(v) == is_negative(
                d,
            )
        }),
{
    let q = quotient(d, len);
    if is_finite(d) {
        law_quotient_keeps_the_sign(d, len);
    }
    lemma_pow2_pos(149);
    law_nearest_exists(units(magnitude(q) as nat) * units(speed as nat), one_units());
    if is_finite(q) {
        law_product_keeps_the_sign(q, speed);
    }
}

/// Who is closer than a millionth to the target, by one part in a thousand, is there
/// and rests.
#[verifier::spinoff_prover]
pub proof fn law_heading_rests_at_the_target(from: [u32; 3], to: [u32; 3], speed: u32)
    requires
        is_finite(from[0]),
        is_finite(from[1]),
        is_finite(to[0]),
        is_finite(to[1]),
        ordinary(value(to[0]) - value(from[0])),
        ordinary(value(to[1]) - value(from[1])),
        exact_square(to[0], to[1], from[0], from[1]) * 1000000000000 * 1001 < one_units()
            * one_units() * 1000,
    ensures
        heading(from, to, speed)@ == seq![0u32, 0u32, 0u32],
{
    let dx = difference(to[0], from[0]);
    let dy = difference(to[1], from[1]);
    let len = square_root(sum(product(dx, dx), product(dy, dy)));
    let l = units(len as nat);
    let all = exact_square(to[0], to[1], from[0], from[1]);
    let one = one_units();
    lemma_way(from, to);
    lemma_millionth();
    let t = units(TOGETHER as nat);
    if t < l {
        assert(t * t <= l * l) by (nonlinear_arith)
            requires
                t <= l,
        ;
        let a = t * 1000000;
        let o = one * one;
        assert((one * 100000000) * (one * 100000000) <= (a * 100000001) * (a * 100000001))
            by (nonlinear_arith)
            requires
                one * 100000000 <= a * 100000001,
        ;
        assert((one * 100000000) * (one * 100000000) == o * 10000000000000000) by (nonlinear_arith)
            requires
                o == one * one,
        ;
        assert((a * 100000001) * (a * 100000001) == (t * t) * 1000000000000 * 10000000200000001)
            by (nonlinear_arith)
            requires
                a == t * 1000000,
        ;
        assert(all * (PARTS as nat + 17) == all * 16777233) by (nonlinear_arith);
        assert((l * l) * 16777216 <= all * 16777233);
        assert((t * t) * 1000000000000 * 10000000200000001 >= o * 10000000000000000);
        assert(false);
    }
    law_order_is_numeric(TOGETHER, len);
    assert(heading(from, to, speed)@ =~= seq![0u32, 0u32, 0u32]);
}

/// Only where the target lies from the entity counts: moving both by the same way
/// changes nothing. Coordinates of minus zero are left out: they turn the sign of a
/// zero.
pub proof fn law_heading_is_translation_invariant(
    from: [u32; 3],
    to: [u32; 3],
    other_from: [u32; 3],
    other_to: [u32; 3],
    speed: u32,
)
    requires
        forall|i: int|
            0 <= i < 2 ==> {
                &&& is_finite(#[trigger] from[i]) && from[i] != SIGN
                &&& is_finite(to[i]) && to[i] != SIGN
                &&& is_finite(other_from[i]) && other_from[i] != SIGN
                &&& is_finite(other_to[i]) && other_to[i] != SIGN
                &&& value(to[i]) - value(from[i]) == value(other_to[i]) - value(other_from[i])
            },
    ensures
        heading(from, to, speed) == heading(other_from, other_to, speed),
{
    assert(is_finite(from[0]) && is_finite(from[1]));
    lemma_same_difference(to[0], from[0], other_to[0], other_from[0]);
    lemma_same_difference(to[1], from[1], other_to[1], other_from[1]);
}

proof fn lemma_same_difference(a: u32, b: u32, c: u32, d: u32)
    requires
        is_finite(a) && a != SIGN,
        is_finite(b) && b != SIGN,
        is_finite(c) && c != SIGN,
        is_finite(d) && d != SIGN,
        value(a) - value(b) == value(c) - value(d),
    ensures
        difference(a, b) == difference(c, d),
{
    lemma_negated(b);
    lemma_negated(d);
    lemma_units_split(0, 0);
    lemma_units_increase(0, magnitude(a) as nat);
    lemma_units_increase(0, magnitude(b) as nat);
    lemma_units_increase(0, magnitude(c) as nat);
    lemma_units_increase(0, magnitude(d) as nat);
}

/// Which axis is called the first does not matter.
pub proof fn law_heading_is_symmetric(from: [u32; 3], to: [u32; 3], speed: u32)
    ensures
        heading([from[1], from[0], from[2]], [to[1], to[0], to[2]], speed)@ == seq![
            heading(from, to, speed)[1],
            heading(from, to, speed)[0],
            heading(from, to, speed)[2],
        ],
{
    let dx = difference(to[0], from[0]);
    let dy = difference(to[1], from[1]);
    law_commutative(product(dx, dx), product(dy, dy));
    assert(heading([from[1], from[0], from[2]], [to[1], to[0], to[2]], speed)@ =~= seq![
        heading(from, to, speed)[1],
        heading(from, to, speed)[0],
        heading(from, to, speed)[2],
    ]);
}

/// The square of the distance of an entity from a point, without any rounding.
pub open spec fn exact_from(b: BodyView, x: u32, y: u32) -> nat {
    exact_square(b.entity.pos[0], b.entity.pos[1], x, y)
}

/// Whether an entity is at a place from which distances to a point are of an ordinary
/// size.
pub open spec fn is_measurable(b: BodyView, x: u32, y: u32) -> bool {
    &&& is_finite(b.entity.pos[0])
    &&& is_finite(b.entity.pos[1])
    &&& ordinary(value(b.entity.pos[0]) - value(x))
    &&& ordinary(value(b.entity.pos[1]) - value(y))
}

/// Distances are in the order of the plane, up to one part in a thousand.
proof fn lemma_compared(a: u32, b: u32, x: nat, y: nat, n: nat)
    requires
        a < INFINITY,
        b < INFINITY,
        within(units(a as nat) * one_units(), x, n),
        within(units(b as nat) * one_units(), y, n),
        n <= 16,
    ensures
        rank(a) <= rank(b) ==> x * 1000 <= y * 1001,
        x * 1001 <= y * 1000 ==> rank(a) <= rank(b),
{
    let one = one_units();
    lemma_pow2_pos(149);
    let u = units(a as nat) * one;
    let w = units(b as nat) * one;
    lemma_within_more(u, x, n, 16);
    lemma_within_more(w, y, n, 16);
    assert(u * (PARTS as nat + 16) == u * 16777232 && w * (PARTS as nat + 16) == w * 16777232 && x
        * (PARTS as nat + 16) == x * 16777232 && y * (PARTS as nat + 16) == y * 16777232)
        by (nonlinear_arith);
    if rank(a) <= rank(b) {
        lemma_units_increase(a as nat, b as nat);
        assert(u <= w) by (nonlinear_arith)
            requires
                u == units(a as nat) * one,
                w == units(b as nat) * one,
                units(a as nat) <= units(b as nat),
        ;
    } else {
        lemma_units_increase(b as nat, a as nat);
        assert(w < u) by (nonlinear_arith)
            requires
                u == units(a as nat) * one,
                w == units(b as nat) * one,
                units(b as nat) < units(a as nat),
                one > 0,
        ;
        if x * 1001 <= y * 1000 {
            // Rounding cannot turn the order of what is so far apart, unless both are
            // nothing.
            assert(x * 16777216 * 1001 <= y * 16777216 * 1000);
            assert(u * 16777216 <= x * 16777232);
            assert(y * 16777216 <= w * 16777232);
        }
    }
}

/// What is answered for the nearest entity is the nearest of the plane: it is under the
/// tag, no further away than the reach, and nothing under the tag is nearer; of
/// entities at one place it is the first. Nothing is answered only if everything under
/// the tag is out of reach. Lengths are told apart up to one part in a thousand of
/// their squares.
#[verifier::spinoff_prover]
pub proof fn law_nearest_is_nearest_in_the_plane(
    store: EcsView,
    tag: Seq<char>,
    x: u32,
    y: u32,
    reach: u32,
)
    requires
        store.wf(),
        tag.len() > 0,
        is_finite(x),
        is_finite(y),
        is_finite(reach),
        ordinary(value(reach)),
        forall|i: int|
            0 <= i < store.bodies.len() && (#[trigger] store.bodies[i]).tag == tag
                ==> is_measurable(store.bodies[i], x, y),
    ensures
        ({
            let b = store.bodies;
            let r = store.nearest(tag, x, y, reach);
            if r == -1 {
                forall|i: int|
                    0 <= i < b.len() && (#[trigger] b[i]).tag == tag ==> exact_from(b[i], x, y)
                        * 1001 > square(value(reach)) * 1000
            } else {
                exists|i: int|
                    {
                        &&& 0 <= i < b.len()
                        &&& (#[trigger] b[i]).id == r
                        &&& b[i].tag == tag
                        &&& exact_from(b[i], x, y) * 1000 <= square(value(reach)) * 1001
                        &&& forall|j: int|
                            0 <= j < b.len() && (#[trigger] b[j]).tag == tag ==> exact_from(
                                b[i],
                                x,
                                y,
                            ) * 1000 <= exact_from(b[j], x, y) * 1001
                        &&& forall|j: int|
                            0 <= j < i && (#[trigger] b[j]).tag == tag ==> b[j].entity.pos[0]
                                != b[i].entity.pos[0] || b[j].entity.pos[1] != b[i].entity.pos[1]
                    }
            }
        }),
{
    let b = store.bodies;
    let r = store.nearest(tag, x, y, reach);
    let one = one_units();
    let w = distance(value(reach));
    let p = in_reach(tag, x, y, reach);
    // The square of the reach.
    lemma_units_split(0, 0);
    lemma_pow2_adds(109, 109);
    lemma_pow2_adds(189, 189);
    lemma_pow2_adds(69, 149);
    lemma_pow2_adds(229, 149);
    if w != 0 {
        assert(w * w >= pow2(109) * pow2(109)) by (nonlinear_arith)
            requires
                w >= pow2(109),
        ;
        assert(w * w <= pow2(189) * pow2(189)) by (nonlinear_arith)
            requires
                w <= pow2(189),
        ;
    } else {
        assert(w * w == 0) by (nonlinear_arith)
            requires
                w == 0,
        ;
    }
    law_product_is_accurate(reach, reach, 69, 229);
    law_product_keeps_the_sign(reach, reach);
    let reach2 = product(reach, reach);
    lemma_within_more(units(reach2 as nat) * one, square(value(reach)), 2, 11);
    assert forall|i: int| 0 <= i < b.len() && (#[trigger] b[i]).tag == tag implies {
        let d = body_distance2(b[i], x, y);
        &&& d < INFINITY
        &&& within(units(d as nat) * one, exact_from(b[i], x, y), 11)
        &&& p(b[i]) ==> exact_from(b[i], x, y) * 1000 <= square(value(reach)) * 1001
        &&& !p(b[i]) ==> exact_from(b[i], x, y) * 1001 > square(value(reach)) * 1000
    } by {
        let d = body_distance2(b[i], x, y);
        let e = b[i].entity;
        assert(is_measurable(b[i], x, y));
        law_distance2_is_the_distance(e.pos[0], e.pos[1], x, y);
        lemma_compared(d, reach2, exact_from(b[i], x, y), square(value(reach)), 11);
    }
    law_nearest_is_nearest(store, tag, x, y, reach);
    if r != -1 {
        lemma_nearest_is_first(store, tag, x, y, reach);
        let i = choose|i: int|
            {
                &&& 0 <= i < b.len()
                &&& (#[trigger] b[i]).id == r
                &&& p(b[i])
                &&& forall|j: int|
                    0 <= j < b.len() && p(#[trigger] b[j]) ==> rank(body_distance2(b[i], x, y))
                        <= rank(body_distance2(b[j], x, y))
                &&& forall|j: int|
                    0 <= j < i && p(#[trigger] b[j]) ==> rank(body_distance2(b[i], x, y)) < rank(
                        body_distance2(b[j], x, y),
                    )
            };
        let di = body_distance2(b[i], x, y);
        let xi = exact_from(b[i], x, y);
        assert forall|j: int| 0 <= j < b.len() && (#[trigger] b[j]).tag == tag implies xi * 1000
            <= exact_from(b[j], x, y) * 1001 by {
            let dj = body_distance2(b[j], x, y);
            if !p(b[j]) {
                assert(rank(di) <= rank(reach2) < rank(dj));
            }
            lemma_compared(di, dj, xi, exact_from(b[j], x, y), 11);
        }
        assert forall|j: int| 0 <= j < i && (#[trigger] b[j]).tag == tag implies b[j].entity.pos[0]
            != b[i].entity.pos[0] || b[j].entity.pos[1] != b[i].entity.pos[1] by {
            if b[j].entity.pos[0] == b[i].entity.pos[0] && b[j].entity.pos[1]
                == b[i].entity.pos[1] {
                assert(body_distance2(b[j], x, y) == di);
                assert(p(b[j]));
            }
        }
    }
}

/// Where the answer stands among all entities.
proof fn lemma_nearest_is_first(store: EcsView, tag: Seq<char>, x: u32, y: u32, reach: u32)
    requires
        store.wf(),
        store.nearest(tag, x, y, reach) != -1,
    ensures
        ({
            let b = store.bodies;
            let p = in_reach(tag, x, y, reach);
            exists|i: int|
                {
                    &&& 0 <= i < b.len()
                    &&& (#[trigger] b[i]).id == store.nearest(tag, x, y, reach)
                    &&& p(b[i])
                    &&& forall|j: int|
                        0 <= j < b.len() && p(#[trigger] b[j]) ==> rank(
                            body_distance2(b[i], x, y),
                        ) <= rank(body_distance2(b[j], x, y))
                    &&& forall|j: int|
                        0 <= j < i && p(#[trigger] b[j]) ==> rank(body_distance2(b[i], x, y))
                            < rank(body_distance2(b[j], x, y))
                }
        }),
{
    let b = store.bodies;
    let p = in_reach(tag, x, y, reach);
    let near = b.filter(p);
    assert(b =~= b.take(b.len() as int));
    lemma_filter_wf(store, p, b);
    lemma_first_nearest_exists(near, x, y);
    let k = choose|i: int| is_first_nearest(near, x, y, i);
    assert(b.contains(near[k]));
    let i = choose|i: int| 0 <= i < b.len() && b[i] == near[k];
    assert(b[i].id == store.nearest(tag, x, y, reach));
    assert(p(near[k]));
    let kept = EcsView { bodies: near, ..store };
    assert(kept.wf());
    assert forall|j: int| 0 <= j < b.len() && p(#[trigger] b[j]) implies rank(
        body_distance2(b[i], x, y),
    ) <= rank(body_distance2(b[j], x, y)) by {
        assert(near.contains(b[j]));
        let m = choose|m: int| 0 <= m < near.len() && near[m] == b[j];
        assert(rank(body_distance2(near[k], x, y)) <= rank(body_distance2(near[m], x, y)));
    }
    assert forall|j: int| 0 <= j < i && p(#[trigger] b[j]) implies rank(body_distance2(b[i], x, y))
        < rank(body_distance2(b[j], x, y)) by {
        assert(near.contains(b[j]));
        let m = choose|m: int| 0 <= m < near.len() && near[m] == b[j];
        assert(b[j].id < b[i].id);
        if m >= k {
            if m > k {
                assert(kept.bodies[k].id < kept.bodies[m].id);
            }
        }
        assert(rank(body_distance2(near[k], x, y)) < rank(body_distance2(near[m], x, y)));
    }
}

/// One thousand in units.
pub(crate) proof fn lemma_thousand()
    ensures
        units(THOUSAND as nat) == 1000 * one_units(),
{
    lemma_units_split(0xfa_0000, 135);
    lemma_pow2_adds(14, 135);
    lemma2_to64();
    assert(135 * 0x80_0000 + 0xfa_0000 == THOUSAND as nat);
}

/// A thousand milliseconds are a second.
pub proof fn law_seconds_are_thousands(dt_ms: i64)
    ensures
        is_finite(seconds(dt_ms)),
        dt_ms == 0 ==> value(seconds(dt_ms)) == 0,
        dt_ms > 0 ==> value(seconds(dt_ms)) > 0,
        dt_ms < 0 ==> value(seconds(dt_ms)) < 0,
        within(
            distance(value(seconds(dt_ms))) * 1000,
            distance(dt_ms as int) * one_units(),
            5,
        ),
        dt_ms != 0 ==> pow2(139) <= distance(value(seconds(dt_ms))) <= pow2(212),
{
    let one = one_units();
    let i = nearest_int(dt_ms as int);
    let u = units(magnitude(i) as nat);
    let s = seconds(dt_ms);
    let w = units(magnitude(s) as nat);
    law_whole_number_is_accurate(dt_ms);
    lemma_thousand();
    lemma_pow2_pos(149);
    lemma_pow2_pos(139);
    lemma2_to64();
    lemma_pow2_adds(10, 139);
    lemma_units_split(0, 0);
    let den = 1000 * one;
    if dt_ms != 0 {
        assert(pow2(139) * den <= u * one) by (nonlinear_arith)
            requires
                den == 1000 * one,
                1024 * pow2(139) <= u,
        ;
        assert(u * one <= pow2(212) * den) by (nonlinear_arith)
            requires
                den == 1000 * one,
                u <= pow2(212),
        ;
        assert(u * one != 0) by (nonlinear_arith)
            requires
                u > 0,
                one > 0,
        ;
    } else {
        assert(u * one == 0) by (nonlinear_arith)
            requires
                u == 0,
        ;
    }
    law_quotient_is_accurate(i, THOUSAND, 139, 212);
    law_quotient_keeps_the_sign(i, THOUSAND);
    assert(w * den == (w * 1000) * one) by (nonlinear_arith)
        requires
            den == 1000 * one,
    ;
    lemma_within_unscaled(w * 1000, u, one, 2);
    lemma_within_chain(w * 1000, u, distance(dt_ms as int) * one, 2, 2);
    assert(distance(value(s)) == w);
}

/// The way that a velocity leads in some milliseconds, up to rounding: a thousandth of
/// their product, forward or back.
pub open spec fn is_way(step: int, vel: u32, dt_ms: i64) -> bool {
    &&& within(distance(step) * 1000, distance(value(vel)) * distance(dt_ms as int), 8)
    &&& value(vel) * dt_ms == 0 ==> step == 0
    &&& value(vel) * dt_ms > 0 ==> step > 0
    &&& value(vel) * dt_ms < 0 ==> step < 0
}

/// A coordinate moves by the way that its velocity leads in the time.
#[verifier::spinoff_prover]
pub proof fn law_drift_follows_the_velocity(pos: u32, vel: u32, dt_ms: i64)
    requires
        is_finite(pos),
        distance(value(pos)) <= pow2(252),
        is_finite(vel),
        ordinary(value(vel)),
    ensures
        ({
            let r = drifted(pos, vel, seconds(dt_ms));
            &&& is_finite(r)
            &&& exists|step: int|
                {
                    &&& #[trigger] is_way(step, vel, dt_ms)
                    &&& within(distance(value(r)), distance(value(pos) + step), 2)
                    &&& value(pos) + step >= 0 ==> value(r) >= 0
                    &&& value(pos) + step <= 0 ==> value(r) <= 0
                }
            &&& value(vel) * dt_ms >= 0 ==> value(r) >= value(pos)
            &&& value(vel) * dt_ms <= 0 ==> value(r) <= value(pos)
        }),
{
    let one = one_units();
    let t = seconds(dt_ms);
    let s = product(vel, t);
    let uv = units(magnitude(vel) as nat);
    let ut = units(magnitude(t) as nat);
    let us = units(magnitude(s) as nat);
    let dt = distance(dt_ms as int);
    law_seconds_are_thousands(dt_ms);
    lemma_units_split(0, 0);
    lemma_pow2_pos(149);
    lemma_pow2_pos(109);
    lemma_pow2_adds(109, 139);
    lemma_pow2_adds(189, 212);
    lemma_pow2_adds(99, 149);
    lemma_pow2_adds(252, 149);
    assert(distance(value(vel)) == uv && distance(value(t)) == ut);
    if uv != 0 && ut != 0 {
        assert(uv * ut >= pow2(109) * pow2(139)) by (nonlinear_arith)
            requires
                uv >= pow2(109),
                ut >= pow2(139),
        ;
        assert(uv * ut <= pow2(189) * pow2(212)) by (nonlinear_arith)
            requires
                uv <= pow2(189),
                ut <= pow2(212),
        ;
    } else {
        assert(uv * ut == 0) by (nonlinear_arith)
            requires
                uv == 0 || ut == 0,
        ;
    }
    law_product_is_accurate(vel, t, 99, 252);
    law_product_keeps_the_sign(vel, t);
    lemma_within_scaled(us * one, uv * ut, 1000, 2);
    assert((us * one) * 1000 == (us * 1000) * one) by (nonlinear_arith);
    lemma_within_scaled(ut * 1000, dt * one, uv, 5);
    assert((uv * ut) * 1000 == uv * (ut * 1000)) by (nonlinear_arith);
    assert(uv * (dt * one) == (uv * dt) * one) by (nonlinear_arith);
    lemma_within_chain((us * 1000) * one, (uv * ut) * 1000, (uv * dt) * one, 2, 5);
    lemma_within_unscaled(us * 1000, uv * dt, one, 8);
    let step = value(s);
    assert(distance(step) == us);
    // Signs.
    let v = value(vel);
    assert(v * dt_ms > 0 <==> (v > 0 && dt_ms > 0) || (v < 0 && dt_ms < 0)) by (nonlinear_arith);
    assert(v * dt_ms == 0 <==> v == 0 || dt_ms == 0) by (nonlinear_arith);
    assert(v != 0 && dt_ms != 0 ==> us >= pow2(99)) by {
        if v != 0 && dt_ms != 0 {
            assert(uv * ut != 0) by (nonlinear_arith)
                requires
                    uv > 0,
                    ut > 0,
            ;
        }
    }
    lemma_pow2_pos(99);
    assert(is_way(step, vel, dt_ms));
    lemma_pow2_adds(1, 252);
    lemma2_to64();
    lemma_pow2_grows(253, 276);
    assert(us <= pow2(252)) by {
        lemma_pow2_pos(252);
    }
    law_sum_is_accurate(pos, s);
    law_sum_keeps_the_sign(pos, s);
    law_sum_moves_on(pos, s);
    let r = drifted(pos, vel, t);
    assert(distance(value(r)) == units(magnitude(r) as nat));
}

/// Moving moves each entity by the ways that its velocity leads.
pub proof fn law_integrate_follows_the_velocities(store: EcsView, dt_ms: i64, i: int, axis: int)
    requires
        0 <= i < store.bodies.len(),
        0 <= axis < 3,
        is_finite(store.bodies[i].entity.pos[axis]),
        distance(value(store.bodies[i].entity.pos[axis])) <= pow2(252),
        is_finite(store.bodies[i].entity.vel[axis]),
        ordinary(value(store.bodies[i].entity.vel[axis])),
    ensures
        ({
            let p = store.bodies[i].entity.pos[axis];
            let v = store.bodies[i].entity.vel[axis];
            let r = store.integrated(dt_ms).bodies[i].entity.pos[axis];
            &&& is_finite(r)
            &&& exists|step: int|
                {
                    &&& #[trigger] is_way(step, v, dt_ms)
                    &&& within(distance(value(r)), distance(value(p) + step), 2)
                    &&& value(p) + step >= 0 ==> value(r) >= 0
                    &&& value(p) + step <= 0 ==> value(r) <= 0
                }
            &&& value(v) * dt_ms >= 0 ==> value(r) >= value(p)
            &&& value(v) * dt_ms <= 0 ==> value(r) <= value(p)
        }),
{
    let b = store.bodies[i];
    law_drift_follows_the_velocity(b.entity.pos[axis], b.entity.vel[axis], dt_ms);
    assert(store.integrated(dt_ms).bodies[i] == after(seconds(dt_ms))(b));
}

/// Whether an entity can tell the way to another: both are at finite places, more than
/// a millionth and not too far apart.
pub open spec fn sees_the_way(from: [u32; 3], to: [u32; 3]) -> bool {
    &&& is_finite(from[0])
    &&& is_finite(from[1])
    &&& is_finite(to[0])
    &&& is_finite(to[1])
    &&& ordinary(value(to[0]) - value(from[0]))
    &&& ordinary(value(to[1]) - value(from[1]))
    &&& exact_square(to[0], to[1], from[0], from[1]) * 1000000000000 * 1000 > one_units()
        * one_units() * 1001
}

/// An entity that is sent toward another sets out for it: it keeps its place and takes
/// the speed asked for, along the straight line to where the other is. Neither the
/// other nor anything else changes; and where one of the two is gone, nothing does.
#[verifier::spinoff_prover]
pub proof fn law_move_toward_sets_out(
    s: HostView,
    memory: Option<Seq<u8>>,
    eid: i64,
    target: i64,
    speed: u32,
    other: u32,
)
    requires
        s.store.wf(),
    ensures
        ({
            let (t, reply) = s.step(memory, HostCall::MoveToward { eid, target, speed });
            let id = entity_id(eid);
            let was = find(s.store.bodies, id);
            let aim = find(s.store.bodies, entity_id(target));
            let is = find(t.store.bodies, id);
            &&& reply == Ok::<Option<Value>, HostTrap>(None)
            &&& t == HostView { store: t.store, ..s }
            &&& same_entities(s.store, t.store)
            &&& other != id ==> find(t.store.bodies, other) == find(s.store.bodies, other)
            &&& was is None || aim is None ==> t == s
            &&& was is Some && aim is Some ==> is is Some && is->0.pos == was->0.pos
            &&& was is Some && aim is Some && sees_the_way(was->0.pos, aim->0.pos) && is_finite(
                speed,
            ) && value(speed) > 0 && ordinary(value(speed)) ==> sets_out(
                was->0.pos,
                aim->0.pos,
                speed,
                is->0.vel,
            )
        }),
{
    let id = entity_id(eid);
    let was = find(s.store.bodies, id);
    let aim = find(s.store.bodies, entity_id(target));
    let t = s.step(memory, HostCall::MoveToward { eid, target, speed }).0;
    if was is Some && aim is Some {
        let vel = heading(was->0.pos, aim->0.pos, speed);
        law_velocity_reads_back(s.store, id, vel, other);
        assert(same_entities(s.store, t.store));
        if sees_the_way(was->0.pos, aim->0.pos) && is_finite(speed) && value(speed) > 0 && ordinary(
            value(speed),
        ) {
            law_heading_points_at_the_target(was->0.pos, aim->0.pos, speed, 0);
            law_heading_points_at_the_target(was->0.pos, aim->0.pos, speed, 1);
        }
    }
}

/// Whether a velocity leads from one place straight to another at a speed.
pub open spec fn sets_out(from: [u32; 3], to: [u32; 3], speed: u32, vel: [u32; 3]) -> bool {
    let all = exact_square(to[0], to[1], from[0], from[1]);
    let ex = value(to[0]) - value(from[0]);
    let ey = value(to[1]) - value(from[1]);
    &&& (ex > 0 <==> value(vel[0]) > 0) && (ex < 0 <==> value(vel[0]) < 0)
    &&& (ey > 0 <==> value(vel[1]) > 0) && (ey < 0 <==> value(vel[1]) < 0)
    &&& within(square(value(vel[0])) * all, square(ex) * square(value(speed)), 35)
    &&& within(square(value(vel[1])) * all, square(ey) * square(value(speed)), 35)
    &&& vel[2] == 0
}

/// Who follows another comes no further away from it along either axis while it moves
/// on: no step of positive length leads back.
pub proof fn law_pursuit_does_not_lead_away(
    from: [u32; 3],
    to: [u32; 3],
    speed: u32,
    dt_ms: i64,
    axis: int,
)
    requires
        sees_the_way(from, to),
        is_finite(speed),
        value(speed) > 0,
        ordinary(value(speed)),
        axis == 0 || axis == 1,
        distance(value(from[axis])) <= pow2(252),
        ordinary(value(heading(from, to, speed)[axis])),
        dt_ms > 0,
    ensures
        ({
            let r = drifted(from[axis], heading(from, to, speed)[axis], seconds(dt_ms));
            &&& is_finite(r)
            &&& value(to[axis]) >= value(from[axis]) ==> value(r) >= value(from[axis])
            &&& value(to[axis]) <= value(from[axis]) ==> value(r) <= value(from[axis])
        }),
{
    let v = heading(from, to, speed)[axis];
    law_heading_points_at_the_target(from, to, speed, axis);
    law_drift_follows_the_velocity(from[axis], v, dt_ms);
    let x = value(v);
    assert(x >= 0 ==> x * dt_ms >= 0) by (nonlinear_arith)
        requires
            dt_ms > 0,
    ;
    assert(x <= 0 ==> x * dt_ms <= 0) by (nonlinear_arith)
        requires
            dt_ms > 0,
    ;
}

} // verus!
