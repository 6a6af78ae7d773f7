//! Decimal numbers as text, read as single-precision bit patterns.

use vstd::arithmetic::power2::{lemma_pow2_unfold, pow2};
use vstd::prelude::*;

use crate::big::{big, compare, multiply_add, shift, weight, Side};
use crate::binary32::{
    is_nearest, lemma_nearest_unique, midpoint, nearest, one_units, signed, units, with_sign,
    INFINITY,
};

verus! {

pub open spec fn is_digit(b: u8) -> bool {
    48 <= b <= 57
}

pub open spec fn is_point(b: u8) -> bool {
    b == 46
}

pub open spec fn is_minus(b: u8) -> bool {
    b == 45
}

/// The number of points in a text.
pub open spec fn points(s: Seq<u8>) -> nat
    decreases s.len(),
{
    if s.len() == 0 {
        0
    } else {
        points(s.drop_last()) + if is_point(s.last()) {
            1nat
        } else {
            0
        }
    }
}

/// Digits, with at least one, and at most one point among them.
pub open spec fn is_plain(s: Seq<u8>) -> bool {
    &&& forall|i: int| 0 <= i < s.len() ==> is_digit(#[trigger] s[i]) || is_point(s[i])
    &&& points(s) <= 1
    &&& points(s) < s.len()
}

/// The digits of a text as a whole number, the point passed over.
pub open spec fn digits(s: Seq<u8>) -> nat
    decreases s.len(),
{
    if s.len() == 0 {
        0
    } else if is_point(s.last()) {
        digits(s.drop_last())
    } else {
        (digits(s.drop_last()) * 10 + (s.last() - 48)) as nat
    }
}

/// Ten to the power of the number of digits behind the point.
pub open spec fn parts(s: Seq<u8>) -> nat
    decreases s.len(),
{
    if s.len() == 0 || points(s.drop_last()) == 0 {
        1
    } else {
        parts(s.drop_last()) * 10
    }
}

/// A text without its leading minus.
pub open spec fn unsigned(s: Seq<u8>) -> Seq<u8> {
    if s.len() > 0 && is_minus(s[0]) {
        s.skip(1)
    } else {
        s
    }
}

/// Whether a text is a decimal number.
pub open spec fn is_decimal(s: Seq<u8>) -> bool {
    is_plain(unsigned(s))
}

/// The bits of the number nearest to a decimal number.
pub open spec fn decimal_bits(s: Seq<u8>) -> u32 {
    signed(
        s.len() > 0 && is_minus(s[0]),
        nearest(digits(unsigned(s)) * one_units(), parts(unsigned(s))),
    )
}

/// Whether a fraction of units is at least the midpoint below some bits, or
/// above it if the bits are odd.
spec fn attains(num: nat, den: nat, n: u32) -> bool {
    n > 0 ==> {
        let mid = (units((n - 1) as nat) + units(n as nat)) * den;
        mid < 2 * num || (mid == 2 * num && n % 2 == 0)
    }
}

/// Whether `twice / 2` parts of `den` of a unit attain some bits.
fn check_attains(twice: &Vec<u32>, den: &Vec<u32>, n: u32, Ghost(num): Ghost<nat>) -> (r: bool)
    requires
        big(twice@) == 2 * num,
        0 < n <= INFINITY,
    ensures
        r == attains(num, big(den@), n),
{
    let (m, q): (u32, u32) = midpoint(n - 1);
    let scaled: Vec<u32> = shift(&multiply_add(den, m, 0), q);
    proof {
        let d = big(den@);
        let p = pow2(q as nat);
        assert((d * m) * p == (m * p) * d) by (nonlinear_arith);
    }
    match compare(&scaled, twice) {
        Side::Below => true,
        Side::Same => n % 2 == 0,
        Side::Above => false,
    }
}

/// The bits nearest to a fraction, by halving the range of candidates.
fn nearest_bits(num: &Vec<u32>, den: &Vec<u32>) -> (r: u32)
    requires
        big(den@) > 0,
    ensures
        r == nearest(big(num@) * one_units(), big(den@)),
        r <= INFINITY,
{
    let twice: Vec<u32> = shift(num, 150);
    let ghost exact: nat = big(num@) * one_units();
    proof {
        lemma_pow2_unfold(150);
        let x = big(num@);
        let p = pow2(149);
        assert(x * (2 * p) == 2 * (x * p)) by (nonlinear_arith);
    }
    let mut low: u32 = 0;
    let mut high: u32 = INFINITY + 1;
    while high - low > 1
        invariant
            big(twice@) == 2 * exact,
            exact == big(num@) * one_units(),
            low < high <= INFINITY + 1,
            attains(exact, big(den@), low),
            high <= INFINITY ==> !attains(exact, big(den@), high),
        decreases high - low,
    {
        let mid: u32 = low + (high - low) / 2;
        if check_attains(&twice, den, mid, Ghost(exact)) {
            low = mid;
        } else {
            high = mid;
        }
    }
    proof {
        assert(is_nearest(exact, big(den@), low));
        lemma_nearest_unique(exact, big(den@), low);
    }
    low
}

/// The bits of the number nearest to a decimal number, if a text is one.
pub fn read_decimal(text: &[u8]) -> (r: Option<u32>)
    ensures
        r is Some <==> is_decimal(text@),
        r matches Some(bits) ==> bits == decimal_bits(text@),
{
    let negative: bool = text.len() > 0 && text[0] == 45;
    let start: usize = if negative {
        1
    } else {
        0
    };
    let ghost plain = unsigned(text@);
    let mut num: Vec<u32> = Vec::new();
    let mut den: Vec<u32> = vec![1];
    let mut pointed: bool = false;
    let mut counted: bool = false;
    let mut i: usize = start;
    proof {
        assert(plain =~= text@.skip(start as int));
        assert(plain.take(0) =~= Seq::empty());
        lemma_one(den@);
    }
    while i < text.len()
        invariant
            start <= i <= text.len(),
            plain == text@.skip(start as int),
            plain == unsigned(text@),
            forall|k: int|
                0 <= k < i - start ==> is_digit(#[trigger] plain[k]) || is_point(plain[k]),
            points(plain.take(i - start)) == if pointed {
                1nat
            } else {
                0
            },
            counted <==> points(plain.take(i - start)) < i - start,
            big(num@) == digits(plain.take(i - start)),
            big(den@) == parts(plain.take(i - start)),
            big(den@) > 0,
        decreases text.len() - i,
    {
        let b: u8 = text[i];
        let ghost at = i - start;
        proof {
            assert(plain[at] == b);
            assert(plain.take(at + 1).drop_last() =~= plain.take(at));
            assert(plain.take(at + 1).last() == b);
        }
        if b == 46 {
            if pointed {
                proof {
                    lemma_points_grow(plain, at + 1);
                }
                return None;
            }
            pointed = true;
        } else if 48 <= b && b <= 57 {
            num = multiply_add(&num, 10, (b - 48) as u32);
            if pointed {
                den = multiply_add(&den, 10, 0);
            }
            counted = true;
        } else {
            return None;
        }
        i = i + 1;
    }
    assert(plain.take(i - start) =~= plain);
    if !counted {
        return None;
    }
    Some(with_sign(negative, nearest_bits(&num, &den)))
}

proof fn lemma_one(limbs: Seq<u32>)
    requires
        limbs.len() == 1,
        limbs[0] == 1,
    ensures
        big(limbs) == 1,
{
    assert(big(limbs.drop_last()) == 0);
    assert(1 * weight(0) == 1) by (nonlinear_arith)
        requires
            weight(0) == 1,
    ;
}

/// A text has no fewer points than its beginning.
proof fn lemma_points_grow(s: Seq<u8>, n: int)
    requires
        0 <= n <= s.len(),
    ensures
        points(s.take(n)) <= points(s),
    decreases s.len() - n,
{
    if n < s.len() {
        lemma_points_grow(s, n + 1);
        assert(s.take(n + 1).drop_last() =~= s.take(n));
    } else {
        assert(s.take(n) =~= s);
    }
}

/// A minus in front turns the sign and leaves the magnitude.
pub proof fn law_minus_negates(s: Seq<u8>)
    requires
        is_decimal(s),
        s.len() > 0 ==> !is_minus(s[0]),
    ensures
        is_decimal(seq![45u8] + s),
        decimal_bits(seq![45u8] + s) == signed(true, decimal_bits(s)),
{
    assert((seq![45u8] + s).skip(1) =~= s);
}

/// A zero in front changes nothing.
pub proof fn law_leading_zero(s: Seq<u8>)
    requires
        is_plain(s),
    ensures
        is_plain(seq![48u8] + s),
        digits(seq![48u8] + s) == digits(s),
        parts(seq![48u8] + s) == parts(s),
{
    lemma_leading_zero(s);
    let t = seq![48u8] + s;
    assert forall|i: int| 0 <= i < t.len() implies is_digit(#[trigger] t[i]) || is_point(t[i]) by {
        if i > 0 {
            assert(t[i] == s[i - 1]);
        }
    }
}

proof fn lemma_leading_zero(s: Seq<u8>)
    ensures
        points(seq![48u8] + s) == points(s),
        digits(seq![48u8] + s) == digits(s),
        parts(seq![48u8] + s) == parts(s),
    decreases s.len(),
{
    let t = seq![48u8] + s;
    if s.len() == 0 {
        assert(t.drop_last() =~= Seq::empty());
        assert(points(t.drop_last()) == 0);
        assert(digits(t.drop_last()) == 0);
    } else {
        lemma_leading_zero(s.drop_last());
        assert(t.drop_last() =~= seq![48u8] + s.drop_last());
        assert(t.last() == s.last());
    }
}

} // verus!
