//! The host's pseudo-random numbers: xorshift generators that a seed fixes.

use vstd::prelude::*;

verus! {

/// The state after one step of the 64-bit generator.
pub open spec fn xorshift64(x: u64) -> u64 {
    let a = x ^ (x << 13);
    let b = a ^ (a >> 7);
    b ^ (b << 17)
}

/// The state after one step of the 32-bit generator.
pub open spec fn xorshift32(x: u32) -> u32 {
    let a = x ^ (x << 13);
    let b = a ^ (a >> 17);
    b ^ (b << 5)
}

/// One step of the 64-bit generator.
pub fn step64(x: u64) -> (r: u64)
    ensures
        r == xorshift64(x),
{
    let a: u64 = x ^ (x << 13);
    let b: u64 = a ^ (a >> 7);
    b ^ (b << 17)
}

/// One step of the 32-bit generator.
pub fn step32(x: u32) -> (r: u32)
    ensures
        r == xorshift32(x),
{
    let a: u32 = x ^ (x << 13);
    let b: u32 = a ^ (a >> 17);
    b ^ (b << 5)
}

/// The state that a seed starts the generator in: odd, so never zero.
pub open spec fn seeded(seed: u64) -> u64 {
    seed | 1
}

/// A seed never starts the generator in the state that it cannot leave.
pub proof fn law_seed_is_odd(seed: u64)
    ensures
        seeded(seed) % 2 == 1,
        seeded(seed) != 0,
        seed % 2 == 1 ==> seeded(seed) == seed,
{
    assert((seed | 1) % 2 == 1) by (bit_vector);
    assert(seed % 2 == 1 ==> (seed | 1) == seed) by (bit_vector);
}

/// The generator never degenerates: from any state but zero it never reaches
/// zero.
pub proof fn law_step_never_zero(x: u64)
    requires
        x != 0,
    ensures
        xorshift64(x) != 0,
{
    assert(x != 0 ==> x ^ (x << 13) != 0) by (bit_vector);
    let a = x ^ (x << 13);
    assert(a != 0 ==> a ^ (a >> 7) != 0) by (bit_vector);
    let b = a ^ (a >> 7);
    assert(b != 0 ==> b ^ (b << 17) != 0) by (bit_vector);
}

/// No two states are followed by the same one, so no state is lost.
pub proof fn law_step_is_injective(x: u64, y: u64)
    requires
        xorshift64(x) == xorshift64(y),
    ensures
        x == y,
{
    let a = x ^ (x << 13);
    let c = y ^ (y << 13);
    let b = a ^ (a >> 7);
    let d = c ^ (c >> 7);
    assert(b ^ (b << 17) == d ^ (d << 17) ==> b == d) by (bit_vector);
    assert(a ^ (a >> 7) == c ^ (c >> 7) ==> a == c) by (bit_vector);
    assert(x ^ (x << 13) == y ^ (y << 13) ==> x == y) by (bit_vector);
}

/// The number that a state of the generator gives below `n`.
pub open spec fn draw(x: u64, n: i64) -> i64 {
    (x as int % n as int) as i64
}

/// The number that a state of the generator gives below `n`.
pub fn reduce(x: u64, n: i64) -> (r: i64)
    requires
        n > 0,
    ensures
        r == draw(x, n),
        0 <= r < n,
{
    (x % (n as u64)) as i64
}

} // verus!
