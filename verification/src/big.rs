//! Natural numbers of any size, as far as reading decimals needs them.

use vstd::arithmetic::power2::{lemma2_to64, lemma_pow2_adds, pow2};
use vstd::prelude::*;

verus! {

/// Two to the power of thirty-two.
pub open spec fn limb() -> nat {
    0x1_0000_0000
}

/// The number that limbs stand for, the lowest first.
pub open spec fn big(limbs: Seq<u32>) -> nat
    decreases limbs.len(),
{
    if limbs.len() == 0 {
        0
    } else {
        big(limbs.drop_last()) + limbs.last() as nat * weight((limbs.len() - 1) as nat)
    }
}

/// What one in the limb at a place stands for.
pub open spec fn weight(place: nat) -> nat
    decreases place,
{
    if place == 0 {
        1
    } else {
        limb() * weight((place - 1) as nat)
    }
}

proof fn lemma_weight_pos(place: nat)
    ensures
        weight(place) > 0,
    decreases place,
{
    if place > 0 {
        lemma_weight_pos((place - 1) as nat);
    }
}

/// The limbs below a place stand for less than one at that place.
proof fn lemma_big_bound(limbs: Seq<u32>)
    ensures
        big(limbs) < weight(limbs.len()),
    decreases limbs.len(),
{
    if limbs.len() > 0 {
        let n = (limbs.len() - 1) as nat;
        lemma_big_bound(limbs.drop_last());
        let w = weight(n);
        let top = limbs.last() as nat;
        assert(top * w + w <= limb() * w) by (nonlinear_arith)
            requires
                top + 1 <= limb(),
        ;
    }
}

/// How one number stands to another.
#[derive(Clone, Copy, Debug, PartialEq, Eq, Structural)]
pub enum Side {
    Below,
    Same,
    Above,
}

/// How one number stands to another.
pub open spec fn side(a: nat, b: nat) -> Side {
    if a < b {
        Side::Below
    } else if a == b {
        Side::Same
    } else {
        Side::Above
    }
}

/// The limb at a place, zero above the last.
pub open spec fn limb_at(limbs: Seq<u32>, i: int) -> u32 {
    if 0 <= i < limbs.len() {
        limbs[i]
    } else {
        0
    }
}

/// The lowest limbs, with zeros above the last.
pub open spec fn padded(limbs: Seq<u32>, n: nat) -> Seq<u32> {
    Seq::new(n, |i: int| limb_at(limbs, i))
}

proof fn lemma_padded(limbs: Seq<u32>, n: nat)
    requires
        n >= limbs.len(),
    ensures
        big(padded(limbs, n)) == big(limbs),
    decreases n,
{
    let p = padded(limbs, n);
    if n == limbs.len() {
        assert(p =~= limbs);
    } else {
        lemma_padded(limbs, (n - 1) as nat);
        assert(p.drop_last() =~= padded(limbs, (n - 1) as nat));
        assert(p.last() == 0);
        assert(0 * weight((n - 1) as nat) == 0) by (nonlinear_arith);
    }
}

proof fn lemma_padded_step(limbs: Seq<u32>, n: nat)
    ensures
        big(padded(limbs, n + 1)) == big(padded(limbs, n)) + limb_at(limbs, n as int) as nat
            * weight(n),
{
    assert(padded(limbs, n + 1).drop_last() =~= padded(limbs, n));
}

fn limb_of(limbs: &Vec<u32>, i: usize) -> (r: u32)
    ensures
        r == limb_at(limbs@, i as int),
{
    if i < limbs.len() {
        limbs[i]
    } else {
        0
    }
}

/// How one number stands to another.
pub fn compare(a: &Vec<u32>, b: &Vec<u32>) -> (r: Side)
    ensures
        r == side(big(a@), big(b@)),
{
    let n: usize = if a.len() < b.len() {
        b.len()
    } else {
        a.len()
    };
    let mut r = Side::Same;
    let mut i: usize = 0;
    while i < n
        invariant
            i <= n,
            r == side(big(padded(a@, i as nat)), big(padded(b@, i as nat))),
        decreases n - i,
    {
        let x: u32 = limb_of(a, i);
        let y: u32 = limb_of(b, i);
        proof {
            lemma_padded_step(a@, i as nat);
            lemma_padded_step(b@, i as nat);
            lemma_big_bound(padded(a@, i as nat));
            lemma_big_bound(padded(b@, i as nat));
            let w = weight(i as nat);
            if x < y {
                assert(x as nat * w + w <= y as nat * w) by (nonlinear_arith)
                    requires
                        x + 1 <= y,
                ;
            } else if y < x {
                assert(y as nat * w + w <= x as nat * w) by (nonlinear_arith)
                    requires
                        y + 1 <= x,
                ;
            }
        }
        if x < y {
            r = Side::Below;
        } else if y < x {
            r = Side::Above;
        }
        i = i + 1;
    }
    proof {
        lemma_padded(a@, n as nat);
        lemma_padded(b@, n as nat);
    }
    r
}

/// A number times a small one, plus a small one.
pub fn multiply_add(a: &Vec<u32>, factor: u32, more: u32) -> (r: Vec<u32>)
    ensures
        big(r@) == big(a@) * factor + more,
{
    let mut r: Vec<u32> = Vec::new();
    let mut carry: u32 = more;
    let mut i: usize = 0;
    assert(a@.take(0) =~= Seq::empty());
    assert(0 * factor == 0) by (nonlinear_arith);
    assert(carry as nat * weight(0) == carry) by (nonlinear_arith)
        requires
            weight(0) == 1,
    ;
    while i < a.len()
        invariant
            i <= a.len(),
            r.len() == i,
            big(r@) + carry as nat * weight(i as nat) == big(a@.take(i as int)) * factor + more,
        decreases a.len() - i,
    {
        let limb_here: u32 = a[i];
        assert(limb_here as int * factor as int <= 0xffff_ffff * 0xffff_ffff) by (nonlinear_arith)
            requires
                limb_here <= 0xffff_ffff,
                factor <= 0xffff_ffff,
        ;
        let whole: u64 = (limb_here as u64) * (factor as u64) + (carry as u64);
        let low: u32 = (whole % 0x1_0000_0000) as u32;
        let high: u32 = (whole / 0x1_0000_0000) as u32;
        proof {
            let w = weight(i as nat);
            let before = r@;
            assert(a@.take(i + 1).drop_last() =~= a@.take(i as int));
            assert(before.push(low).drop_last() =~= before);
            assert(whole == low + high * 0x1_0000_0000);
            let x = limb_here as nat;
            let f = factor as nat;
            let c = carry as nat;
            let l = low as nat;
            let h = high as nat;
            let s = big(a@.take(i as int));
            assert(l * w + h * (limb() * w) == (x * f + c) * w) by (nonlinear_arith)
                requires
                    x * f + c == l + h * limb(),
            ;
            assert((x * f + c) * w == (x * w) * f + c * w) by (nonlinear_arith);
            assert((s + x * w) * f == s * f + (x * w) * f) by (nonlinear_arith);
        }
        r.push(low);
        carry = high;
        i = i + 1;
    }
    assert(a@.take(i as int) =~= a@);
    let ghost low = r@;
    r.push(carry);
    assert(r@.drop_last() =~= low);
    r
}

/// A number times a power of two.
pub fn shift(a: &Vec<u32>, by: u32) -> (r: Vec<u32>)
    ensures
        big(r@) == big(a@) * pow2(by as nat),
{
    let mut r: Vec<u32> = multiply_add(a, 1, 0);
    let mut left: u32 = by;
    proof {
        lemma2_to64();
        assert(big(a@) * 1 == big(a@)) by (nonlinear_arith);
        assert(big(r@) * pow2(0) == big(r@)) by (nonlinear_arith)
            requires
                pow2(0) == 1,
        ;
    }
    while left > 0
        invariant
            left <= by,
            big(r@) * pow2(left as nat) == big(a@) * pow2(by as nat),
        decreases left,
    {
        let part: u32 = if left < 16 {
            1
        } else {
            16
        };
        let factor: u32 = if left < 16 {
            2
        } else {
            0x1_0000
        };
        proof {
            lemma2_to64();
            lemma_pow2_adds(part as nat, (left - part) as nat);
            let b = big(r@);
            let p = pow2(part as nat);
            let q = pow2((left - part) as nat);
            assert(p == factor);
            assert((b * factor) * q == b * (p * q)) by (nonlinear_arith)
                requires
                    p == factor,
            ;
        }
        r = multiply_add(&r, factor, 0);
        left = left - part;
    }
    proof {
        lemma2_to64();
        assert(big(r@) * pow2(0) == big(r@)) by (nonlinear_arith)
            requires
                pow2(0) == 1,
        ;
    }
    r
}

} // verus!
