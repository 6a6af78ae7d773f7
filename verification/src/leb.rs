//! Unsigned LEB128, the variable-length integer format of WebAssembly.

use vstd::arithmetic::div_mod::{
    lemma_add_mod_noop, lemma_add_mod_noop_right, lemma_mod_twice, lemma_mul_mod_noop_left,
    lemma_mul_mod_noop_right,
};
use vstd::prelude::*;

verus! {

/// The number of values of a `u64`.
pub open spec fn word() -> nat {
    0x1_0000_0000_0000_0000
}

/// The position just past the encoding that starts at `off`: past the first
/// byte whose top bit is clear, or the end of the bytes if there is none.
pub open spec fn uleb_end(b: Seq<u8>, off: int) -> int
    decreases b.len() - off,
{
    if off >= b.len() {
        off
    } else if b[off] < 0x80 {
        off + 1
    } else {
        uleb_end(b, off + 1)
    }
}

/// The number encoded at `off`: seven bits to a byte, the lowest first.
pub open spec fn uleb_nat(b: Seq<u8>, off: int) -> nat
    decreases b.len() - off,
{
    if off >= b.len() {
        0
    } else if b[off] < 0x80 {
        b[off] as nat
    } else {
        (b[off] - 0x80) as nat + 0x80 * uleb_nat(b, off + 1)
    }
}

/// The number encoded at `off` as far as 64 bits hold it.
pub open spec fn uleb(b: Seq<u8>, off: int) -> nat {
    uleb_nat(b, off) % word()
}

/// The shortest encoding of `n`.
pub open spec fn uleb_bytes(n: nat) -> Seq<u8>
    decreases n,
{
    if n < 0x80 {
        seq![n as u8]
    } else {
        seq![(n % 0x80 + 0x80) as u8] + uleb_bytes(n / 0x80)
    }
}

/// One more group of seven bits: what is left to read moves into the total.
proof fn lemma_group(val: nat, scale: nat, low: nat, rest: nat)
    ensures
        (val + scale * (low + 0x80 * rest)) % word() == (((val + (low * (scale % word())) % word())
            % word()) + ((scale % word()) * 0x80) % word() * rest) % word(),
{
    let m = word() as int;
    let v = val as int;
    let s = scale as int;
    let l = low as int;
    let r = rest as int;
    assert(s * (l + 0x80 * r) == l * s + (s * 0x80) * r) by (nonlinear_arith);
    let a = (l * (s % m)) % m;
    assert(a == (l * s) % m) by {
        lemma_mul_mod_noop_right(l, s, m);
    }
    let c = ((s % m) * 0x80) % m;
    assert(c == (s * 0x80) % m) by {
        lemma_mul_mod_noop_left(s, 0x80, m);
    }
    assert((c * r) % m == ((s * 0x80) * r) % m) by {
        lemma_mul_mod_noop_left(s * 0x80, r, m);
    }
    let lhs = (v + l * s) + (s * 0x80) * r;
    assert(((v + a) % m) == (v + l * s) % m) by {
        lemma_add_mod_noop_right(v, l * s, m);
    }
    lemma_add_mod_noop((v + a) % m, c * r, m);
    lemma_add_mod_noop(v + l * s, (s * 0x80) * r, m);
    lemma_mod_twice(v + a, m);
    assert(lhs % m == ((v + a) % m + c * r) % m);
}

/// Reads the number encoded at `off` and the position after it. Bits past the
/// sixty-fourth are dropped, and an encoding cut short by the end of the bytes
/// ends there.
pub fn read_uleb(b: &[u8], off: usize) -> (r: (u64, usize))
    ensures
        r.0 == uleb(b@, off as int),
        r.1 == uleb_end(b@, off as int),
{
    let mut at: usize = off;
    let mut val: u64 = 0;
    let mut scale: u64 = 1;
    let ghost start = off as int;
    proof {
        assert(1 * uleb_nat(b@, start) == uleb_nat(b@, start));
    }
    while at < b.len()
        invariant
            start == off,
            uleb_end(b@, start) == uleb_end(b@, at as int),
            uleb(b@, start) == (val + scale * uleb_nat(b@, at as int)) % word() as int,
        decreases b.len() - at,
    {
        let byte: u8 = b[at];
        let ghost rest = uleb_nat(b@, at + 1);
        at = at + 1;
        if byte < 0x80 {
            proof {
                lemma_group(val as nat, scale as nat, byte as nat, 0);
                assert(scale * byte == byte * scale) by (nonlinear_arith);
                assert((scale as nat % word() * 0x80) % word() * 0 == 0);
            }
            val = val.wrapping_add((byte as u64).wrapping_mul(scale));
            return (val, at);
        }
        let low: u64 = (byte - 0x80) as u64;
        proof {
            lemma_group(val as nat, scale as nat, low as nat, rest);
        }
        val = val.wrapping_add(low.wrapping_mul(scale));
        scale = scale.wrapping_mul(0x80);
    }
    proof {
        assert(uleb_nat(b@, at as int) == 0);
        assert(scale * 0 == 0);
    }
    (val, at)
}

/// Whether bytes are an encoding of `n`, the shortest or one padded with zeros.
pub open spec fn encodes(b: Seq<u8>, n: nat) -> bool
    decreases b.len(),
{
    if b.len() == 0 {
        false
    } else if b.len() == 1 {
        b[0] < 0x80 && n == b[0]
    } else {
        &&& b[0] >= 0x80
        &&& n % 0x80 == b[0] - 0x80
        &&& encodes(b.drop_first(), n / 0x80)
    }
}

/// Reading any encoding of a number gives back the number and the position after
/// the encoding, whatever stands before and after it.
pub proof fn law_uleb_round_trip(before: Seq<u8>, b: Seq<u8>, n: nat, after: Seq<u8>)
    requires
        encodes(b, n),
    ensures
        uleb_nat(before + b + after, before.len() as int) == n,
        uleb_end(before + b + after, before.len() as int) == before.len() + b.len(),
        n < word() ==> uleb(before + b + after, before.len() as int) == n,
    decreases b.len(),
{
    let whole = before + b + after;
    let off = before.len() as int;
    assert(whole[off] == b[0]);
    if b.len() > 1 {
        let rest = b.drop_first();
        law_uleb_round_trip(before.push(b[0]), rest, n / 0x80, after);
        assert(before.push(b[0]) + rest + after =~= whole);
    }
}

/// Every number has an encoding, the shortest.
pub proof fn law_shortest_encodes(n: nat)
    ensures
        encodes(uleb_bytes(n), n),
    decreases n,
{
    if n >= 0x80 {
        law_shortest_encodes(n / 0x80);
        let b = uleb_bytes(n);
        assert(b.drop_first() =~= uleb_bytes(n / 0x80));
        assert(uleb_bytes(n / 0x80).len() > 0);
    }
}

/// A read inside the bytes moves forward and stays inside them.
pub proof fn lemma_uleb_end_range(b: Seq<u8>, off: int)
    ensures
        off < b.len() ==> off < uleb_end(b, off) <= b.len(),
        off >= b.len() ==> uleb_end(b, off) == off && uleb_nat(b, off) == 0,
    decreases b.len() - off,
{
    if off < b.len() && b[off] >= 0x80 {
        lemma_uleb_end_range(b, off + 1);
    }
}

} // verus!
