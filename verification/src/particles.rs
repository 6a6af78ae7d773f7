//! Bursts of sparks where an entity has fallen.

use vstd::arithmetic::power2::{lemma2_to64, lemma_pow2_adds, lemma_pow2_pos, pow2};
use vstd::prelude::*;

use crate::accuracy::{
    law_difference_is_accurate, law_product_is_accurate, law_product_is_monotone,
    law_product_keeps_the_sign, law_quotient_is_monotone, law_quotient_keeps_the_sign,
    law_sum_is_accurate, law_sum_is_monotone, law_sum_keeps_the_sign, law_sum_moves_on,
    law_whole_number_is_accurate, law_whole_number_is_monotone, lemma_negated, lemma_pow2_grows,
    lemma_power_bits, lemma_within_chain, lemma_within_double, lemma_within_scaled,
    lemma_within_unscaled, within, PARTS,
};
use crate::binary32::{
    abs, difference, distance, from_int, is_finite, is_less, is_nearest, is_negative,
    law_commutative, law_nearest_exists, law_order_is_numeric, law_product_with_one,
    law_quotient_shrinks, law_rounding_exact, law_rounding_monotone, lemma_nearest_unique,
    lemma_nearest_zero, lemma_one, lemma_units_increase, lemma_units_split, less, magnitude, minus,
    nearest, nearest_int, negated, one_units, over, plus, product, quotient, sum, times, units,
    value, FRACTIONS,
};
use crate::game::{sightings, Sighting, SightingView};
use crate::motion::ordinary;
use crate::rng::{step32, xorshift32};
use crate::scene::ONE;

verus! {

/// The seconds of a frame: sixteen thousandths.
pub const FRAME: u32 = 0x3c83_126f;

/// Nine tenths.
pub const NINE_TENTHS: u32 = 0x3f66_6666;

/// Two.
pub const TWO: u32 = 0x4000_0000;

/// The largest state of the generator as a number: two to the power of 32.
pub const NOISE_RANGE: u32 = 0x4f80_0000;

/// The least life of a spark, as a part of the scene's: seven tenths.
pub const LIFE_BASE: u32 = 0x3f33_3333;

/// How much longer a spark can live, as a part of the scene's: six tenths.
pub const LIFE_SPREAD: u32 = 0x3f19_999a;

/// A spark: where it is, how fast, how old and how old it gets.
#[derive(Clone, Copy, Debug)]
pub struct Particle {
    pub pos: [u32; 2],
    pub vel: [u32; 2],
    pub age: u32,
    pub life: u32,
}

/// How a scene's bursts are made.
#[derive(Clone, Copy, Debug)]
pub struct Burst {
    pub count: usize,
    pub speed: u32,
    pub life: u32,
}

/// The state of the generator as a number from minus one to one.
pub open spec fn noise(state: u32) -> u32 {
    difference(product(quotient(nearest_int(state as int), NOISE_RANGE), TWO), ONE)
}

/// The state of the generator as a number from minus one to one.
pub fn noise_of(state: u32) -> (r: u32)
    ensures
        r == noise(state),
{
    minus(times(over(from_int(state as i64), NOISE_RANGE), TWO), ONE)
}

/// A spark out of three random numbers.
pub open spec fn spark(a: u32, b: u32, c: u32, at: [u32; 2], burst: Burst) -> Particle {
    Particle {
        pos: at,
        vel: [product(noise(a), burst.speed), product(noise(b), burst.speed)],
        age: 0,
        life: product(burst.life, sum(LIFE_BASE, product(magnitude(noise(c)), LIFE_SPREAD))),
    }
}

/// The generator three steps on.
pub open spec fn thrice(rng: u32) -> u32 {
    xorshift32(xorshift32(xorshift32(rng)))
}

/// The generator after a number of sparks.
pub open spec fn rng_after(rng: u32, n: nat) -> u32
    decreases n,
{
    if n == 0 {
        rng
    } else {
        thrice(rng_after(rng, (n - 1) as nat))
    }
}

/// The spark that the generator makes next.
pub open spec fn next_spark(rng: u32, at: [u32; 2], burst: Burst) -> Particle {
    let a = xorshift32(rng);
    let b = xorshift32(a);
    spark(a, b, xorshift32(b), at, burst)
}

/// A number of sparks at a place.
pub open spec fn sparks(rng: u32, at: [u32; 2], burst: Burst, n: nat) -> Seq<Particle> {
    Seq::new(n, |i: int| next_spark(rng_after(rng, i as nat), at, burst))
}

/// The generator after bursts at a number of places.
pub open spec fn rng_after_bursts(rng: u32, burst: Burst, places: nat) -> u32
    decreases places,
{
    if places == 0 {
        rng
    } else {
        rng_after(rng_after_bursts(rng, burst, (places - 1) as nat), burst.count as nat)
    }
}

/// A burst at each of some places, one after the other.
pub open spec fn bursts(rng: u32, places: Seq<[u32; 2]>, burst: Burst) -> Seq<Particle>
    decreases places.len(),
{
    if places.len() == 0 {
        Seq::empty()
    } else {
        let before = places.drop_last();
        bursts(rng, before, burst) + sparks(
            rng_after_bursts(rng, burst, before.len()),
            places.last(),
            burst,
            burst.count as nat,
        )
    }
}

/// Whether an entity with an id is among those seen.
pub open spec fn is_seen(now: Seq<SightingView>, id: u32) -> bool {
    exists|i: int| 0 <= i < now.len() && (#[trigger] now[i]).id == id
}

/// Whether a sighting is of a ghost that is gone now.
pub open spec fn has_fallen(now: Seq<SightingView>) -> spec_fn(SightingView) -> bool {
    |s: SightingView| s.tag == "ghost"@ && !is_seen(now, s.id)
}

/// Where the ghosts were last seen that are gone now.
pub open spec fn fallen(before: Seq<SightingView>, now: Seq<SightingView>) -> Seq<[u32; 2]>
    decreases before.len(),
{
    if before.len() == 0 {
        Seq::empty()
    } else {
        let rest = fallen(before.drop_last(), now);
        if has_fallen(now)(before.last()) {
            rest.push(before.last().pos)
        } else {
            rest
        }
    }
}

/// A spark one frame later: older, further, slower.
pub open spec fn aged(p: Particle) -> Particle {
    Particle {
        pos: [
            sum(p.pos[0], product(p.vel[0], FRAME)),
            sum(p.pos[1], product(p.vel[1], FRAME)),
        ],
        vel: [product(p.vel[0], NINE_TENTHS), product(p.vel[1], NINE_TENTHS)],
        age: sum(p.age, FRAME),
        life: p.life,
    }
}

/// Whether a spark is younger than it gets.
pub open spec fn glows(p: Particle) -> bool {
    is_less(p.age, p.life)
}

/// Sparks one frame later, those that still glow.
pub open spec fn burnt(list: Seq<Particle>) -> Seq<Particle> {
    list.map_values(|p: Particle| aged(p)).filter(|p: Particle| glows(p))
}

/// Adds a burst of sparks at a place.
pub fn add_sparks(rng: u32, at: [u32; 2], burst: Burst, list: &mut Vec<Particle>) -> (r: u32)
    ensures
        r == rng_after(rng, burst.count as nat),
        final(list)@ == old(list)@ + sparks(rng, at, burst, burst.count as nat),
{
    let mut state: u32 = rng;
    let mut i: usize = 0;
    assert(list@ =~= old(list)@ + sparks(rng, at, burst, 0));
    while i < burst.count
        invariant
            i <= burst.count,
            state == rng_after(rng, i as nat),
            list@ == old(list)@ + sparks(rng, at, burst, i as nat),
        decreases burst.count - i,
    {
        let a: u32 = step32(state);
        let b: u32 = step32(a);
        let c: u32 = step32(b);
        let vx: u32 = times(noise_of(a), burst.speed);
        let vy: u32 = times(noise_of(b), burst.speed);
        let life: u32 = times(burst.life, plus(LIFE_BASE, times(abs(noise_of(c)), LIFE_SPREAD)));
        let p = Particle { pos: at, vel: [vx, vy], age: 0, life };
        assert(p == next_spark(state, at, burst));
        list.push(p);
        state = c;
        i = i + 1;
        assert(list@ =~= old(list)@ + sparks(rng, at, burst, i as nat));
    }
    state
}

/// Adds a burst at each of some places, one after the other.
pub fn add_bursts(rng: u32, places: &Vec<[u32; 2]>, burst: Burst, list: &mut Vec<Particle>) -> (r:
    u32)
    ensures
        r == rng_after_bursts(rng, burst, places@.len()),
        final(list)@ == old(list)@ + bursts(rng, places@, burst),
{
    let mut state: u32 = rng;
    let mut i: usize = 0;
    assert(places@.take(0) =~= Seq::empty());
    assert(list@ =~= old(list)@ + bursts(rng, places@.take(0), burst));
    while i < places.len()
        invariant
            i <= places.len(),
            state == rng_after_bursts(rng, burst, i as nat),
            list@ == old(list)@ + bursts(rng, places@.take(i as int), burst),
        decreases places.len() - i,
    {
        let ghost had = list@;
        let ghost more = sparks(state, places@[i as int], burst, burst.count as nat);
        proof {
            assert(places@.take(i + 1).drop_last() =~= places@.take(i as int));
            assert(had + more =~= old(list)@ + (bursts(rng, places@.take(i as int), burst) + more));
        }
        state = add_sparks(state, places[i], burst, list);
        i = i + 1;
    }
    assert(places@.take(i as int) =~= places@);
    state
}

/// Whether an entity with an id is among those seen.
fn sees(now: &Vec<Sighting>, id: u32) -> (r: bool)
    ensures
        r == is_seen(sightings(now@), id),
{
    let ghost all = sightings(now@);
    let mut i: usize = 0;
    while i < now.len()
        invariant
            i <= now.len(),
            all == sightings(now@),
            forall|k: int| 0 <= k < i ==> (#[trigger] all[k]).id != id,
        decreases now.len() - i,
    {
        if now[i].id == id {
            assert(all[i as int].id == id);
            return true;
        }
        i = i + 1;
    }
    false
}

/// Where the ghosts were last seen that are gone now.
pub fn find_fallen(before: &Vec<Sighting>, now: &Vec<Sighting>) -> (r: Vec<[u32; 2]>)
    ensures
        r@ == fallen(sightings(before@), sightings(now@)),
{
    let ghost all = sightings(before@);
    let ghost seen_now = sightings(now@);
    let ghost_tag: String = "ghost".to_owned();
    let mut out: Vec<[u32; 2]> = Vec::new();
    let mut i: usize = 0;
    assert(all.take(0) =~= Seq::empty());
    while i < before.len()
        invariant
            i <= before.len(),
            all == sightings(before@),
            seen_now == sightings(now@),
            ghost_tag@ == "ghost"@,
            out@ == fallen(all.take(i as int), seen_now),
        decreases before.len() - i,
    {
        let s: &Sighting = &before[i];
        proof {
            assert(all.take(i + 1).drop_last() =~= all.take(i as int));
            assert(all[i as int] == s@);
        }
        if s.tag == ghost_tag && !sees(now, s.id) {
            out.push(s.pos);
        }
        i = i + 1;
    }
    assert(all.take(i as int) =~= all);
    out
}

/// A spark one frame later.
pub fn age_particle(p: Particle) -> (r: Particle)
    ensures
        r == aged(p),
{
    Particle {
        pos: [
            plus(p.pos[0], times(p.vel[0], FRAME)),
            plus(p.pos[1], times(p.vel[1], FRAME)),
        ],
        vel: [times(p.vel[0], NINE_TENTHS), times(p.vel[1], NINE_TENTHS)],
        age: plus(p.age, FRAME),
        life: p.life,
    }
}

/// Sparks one frame later, those that still glow.
pub fn burn(list: &Vec<Particle>) -> (r: Vec<Particle>)
    ensures
        r@ == burnt(list@),
{
    let ghost older = list@.map_values(|p: Particle| aged(p));
    let ghost keep = |p: Particle| glows(p);
    let mut out: Vec<Particle> = Vec::new();
    let mut i: usize = 0;
    proof {
        reveal(Seq::filter);
        assert(older.take(0) =~= Seq::empty());
    }
    while i < list.len()
        invariant
            i <= list.len(),
            older == list@.map_values(|p: Particle| aged(p)),
            keep == (|p: Particle| glows(p)),
            out@ == older.take(i as int).filter(keep),
        decreases list.len() - i,
    {
        let p: Particle = age_particle(list[i]);
        proof {
            reveal(Seq::filter);
            assert(older.take(i + 1).drop_last() =~= older.take(i as int));
            assert(older[i as int] == p);
        }
        if less(p.age, p.life) {
            out.push(p);
        }
        i = i + 1;
    }
    assert(older.take(i as int) =~= older);
    out
}

/// A burst at each place puts the scene's number of sparks there.
pub proof fn law_burst_size(rng: u32, places: Seq<[u32; 2]>, burst: Burst)
    ensures
        bursts(rng, places, burst).len() == places.len() * burst.count,
    decreases places.len(),
{
    if places.len() > 0 {
        law_burst_size(rng, places.drop_last(), burst);
        let n = places.len();
        let c = burst.count as nat;
        assert((n - 1) * c + c == n * c) by (nonlinear_arith);
    } else {
        assert(0 * burst.count == 0) by (nonlinear_arith);
    }
}

/// Nothing falls that is still there: where everything seen is seen again, there
/// is no burst.
pub proof fn law_nothing_falls_unseen(before: Seq<SightingView>, now: Seq<SightingView>)
    requires
        forall|i: int| 0 <= i < before.len() ==> is_seen(now, (#[trigger] before[i]).id),
    ensures
        fallen(before, now) == Seq::<[u32; 2]>::empty(),
    decreases before.len(),
{
    if before.len() > 0 {
        let rest = before.drop_last();
        assert forall|i: int| 0 <= i < rest.len() implies is_seen(now, (#[trigger] rest[i]).id) by {
            assert(is_seen(now, before[i].id));
        }
        law_nothing_falls_unseen(rest, now);
        assert(is_seen(now, before[before.len() - 1].id));
    }
}

/// A spark that stays still glows, and is one of those there were, a frame older.
pub proof fn law_only_glowing_sparks_stay(list: Seq<Particle>, i: int)
    requires
        0 <= i < burnt(list).len(),
    ensures
        glows(burnt(list)[i]),
        exists|k: int| 0 <= k < list.len() && burnt(list)[i] == aged(#[trigger] list[k]),
{
    let older = list.map_values(|p: Particle| aged(p));
    let keep = |p: Particle| glows(p);
    older.lemma_filter_pred(keep, i);
    assert(keep(burnt(list)[i]));
    assert(older.filter(keep).contains(burnt(list)[i]));
    older.lemma_filter_contains_rev(keep, burnt(list)[i]);
    let k = choose|k: int| 0 <= k < older.len() && older[k] == burnt(list)[i];
    assert(burnt(list)[i] == aged(list[k]));
}

/// The generator goes on where it stopped.
proof fn lemma_rng_goes_on(rng: u32, a: nat, b: nat)
    ensures
        rng_after(rng_after(rng, a), b) == rng_after(rng, a + b),
    decreases b,
{
    if b > 0 {
        lemma_rng_goes_on(rng, a, (b - 1) as nat);
        assert(a + b - 1 == a + (b - 1));
    }
}

/// Every spark of every burst takes the next three numbers of one generator, so that as
/// many are used up as sparks are made.
pub proof fn law_bursts_use_one_stream(rng: u32, burst: Burst, places: nat)
    ensures
        rng_after_bursts(rng, burst, places) == rng_after(rng, places * burst.count as nat),
    decreases places,
{
    let c = burst.count as nat;
    if places > 0 {
        let n = (places - 1) as nat;
        law_bursts_use_one_stream(rng, burst, n);
        lemma_rng_goes_on(rng, n * c, c);
        assert(n * c + c == places * c) by (nonlinear_arith)
            requires
                n == places - 1,
        ;
    } else {
        assert(0 * c == 0);
    }
}

/// The sparks of a burst start where the burst is: of those at several places, the first
/// so many start at the first place, the next at the second, and so on. They are new,
/// and each is made of numbers of its own.
pub proof fn law_sparks_start_where_they_burst(
    rng: u32,
    places: Seq<[u32; 2]>,
    burst: Burst,
    k: int,
    i: int,
)
    requires
        0 <= k < places.len(),
        0 <= i < burst.count,
    ensures
        0 <= k * burst.count + i < bursts(rng, places, burst).len(),
        bursts(rng, places, burst)[k * burst.count + i].pos == places[k],
        bursts(rng, places, burst)[k * burst.count + i].age == 0,
        bursts(rng, places, burst)[k * burst.count + i] == next_spark(
            rng_after(rng, (k * burst.count + i) as nat),
            places[k],
            burst,
        ),
    decreases places.len(),
{
    let c = burst.count as nat;
    let before = places.drop_last();
    let n = before.len() as int;
    let at = k * c + i;
    law_burst_size(rng, places, burst);
    law_burst_size(rng, before, burst);
    assert(at < (k + 1) * c) by (nonlinear_arith)
        requires
            at == k * c + i,
            i < c,
    ;
    assert((k + 1) * c <= places.len() * c) by (nonlinear_arith)
        requires
            k + 1 <= places.len(),
    ;
    assert(0 <= k * c) by (nonlinear_arith)
        requires
            0 <= k,
    ;
    if k < n {
        law_sparks_start_where_they_burst(rng, before, burst, k, i);
        assert(before[k] == places[k]);
    } else {
        law_bursts_use_one_stream(rng, burst, n as nat);
        lemma_rng_goes_on(rng, (n * c) as nat, i as nat);
        assert(bursts(rng, before, burst).len() == n * c);
    }
}

/// A ghost that was seen and is gone has fallen where it was seen, one after the other,
/// and nothing else has: seeing more before adds what fell of it.
pub proof fn law_the_fallen_are_the_ghosts_gone(
    before: Seq<SightingView>,
    more: Seq<SightingView>,
    now: Seq<SightingView>,
    one: SightingView,
)
    ensures
        fallen(before + more, now) == fallen(before, now) + fallen(more, now),
        fallen(seq![one], now) == if one.tag == seq!['g', 'h', 'o', 's', 't'] && forall|i: int|
            0 <= i < now.len() ==> (#[trigger] now[i]).id != one.id {
            seq![one.pos]
        } else {
            Seq::<[u32; 2]>::empty()
        },
    decreases more.len(),
{
    let a = fallen(before, now);
    if more.len() == 0 {
        assert(before + more =~= before);
        assert(a + fallen(more, now) =~= a);
    } else {
        let rest = more.drop_last();
        law_the_fallen_are_the_ghosts_gone(before, rest, now, one);
        assert((before + more).drop_last() =~= before + rest);
        assert((before + more).last() == more.last());
        let b = fallen(rest, now);
        let p = more.last().pos;
        assert((a + b).push(p) =~= a + b.push(p));
    }
    reveal_strlit("ghost");
    assert("ghost"@ =~= seq!['g', 'h', 'o', 's', 't']);
    assert(seq![one].drop_last() =~= Seq::empty());
    assert(fallen(seq![one].drop_last(), now) =~= Seq::empty());
    if is_seen(now, one.id) {
        let i = choose|i: int| 0 <= i < now.len() && (#[trigger] now[i]).id == one.id;
        assert(now[i].id == one.id);
    }
}

/// Sparks burn each for itself, in their order: one stays, a frame older, as long as
/// its age is below its life.
#[verifier::spinoff_prover]
pub proof fn law_sparks_burn_one_by_one(list: Seq<Particle>, more: Seq<Particle>, p: Particle)
    ensures
        burnt(list + more) == burnt(list) + burnt(more),
        is_finite(aged(p).age) && is_finite(p.life) ==> burnt(seq![p]) == if value(aged(p).age)
            < value(p.life) {
            seq![aged(p)]
        } else {
            Seq::<Particle>::empty()
        },
    decreases more.len(),
{
    reveal(Seq::filter);
    let f = |p: Particle| aged(p);
    let keep = |p: Particle| glows(p);
    if more.len() == 0 {
        assert(list + more =~= list);
        assert(more.map_values(f) =~= Seq::empty());
        assert(burnt(list) + burnt(more) =~= burnt(list));
    } else {
        let rest = more.drop_last();
        law_sparks_burn_one_by_one(list, rest, p);
        let all = (list + more).map_values(f);
        let q = aged(more.last());
        assert(all.drop_last() =~= (list + rest).map_values(f));
        assert(all.last() == q);
        assert(more.map_values(f).drop_last() =~= rest.map_values(f));
        assert(more.map_values(f).last() == q);
        let a = burnt(list);
        let b = burnt(rest);
        assert((a + b).push(q) =~= a + b.push(q));
    }
    let single = seq![p].map_values(f);
    assert(single =~= seq![aged(p)]);
    assert(single.drop_last() =~= Seq::empty());
    assert(single.drop_last().filter(keep) =~= Seq::empty());
    if is_finite(aged(p).age) && is_finite(p.life) {
        law_order_is_numeric(aged(p).age, p.life);
        assert(burnt(seq![p]) =~= if value(aged(p).age) < value(p.life) {
            seq![aged(p)]
        } else {
            Seq::<Particle>::empty()
        });
    }
}

/// Sixteen thousandths and nine tenths, in units.
#[verifier::spinoff_prover]
pub(crate) proof fn lemma_parts()
    ensures
        within(units(FRAME as nat) * 1000, 16 * one_units(), 2),
        within(units(NINE_TENTHS as nat) * 10, 9 * one_units(), 2),
        pow2(142) <= units(FRAME as nat) <= pow2(149),
        pow2(142) <= units(NINE_TENTHS as nat) <= pow2(149),
{
    lemma_units_split(8589935, 120);
    lemma_units_split(15099494, 125);
    assert(120 * 0x80_0000 + 8589935 == FRAME as nat);
    assert(125 * 0x80_0000 + 15099494 == NINE_TENTHS as nat);
    lemma2_to64();
    lemma_pow2_adds(5, 120);
    lemma_pow2_adds(24, 125);
    lemma_pow2_adds(22, 120);
    lemma_pow2_adds(17, 125);
    lemma_in_parts(pow2(120), units(FRAME as nat), units(NINE_TENTHS as nat), one_units());
}

proof fn lemma_in_parts(h: nat, frame: nat, nine: nat, one: nat)
    requires
        one == 536870912 * h,
        frame == 8589935 * h,
        nine == 483183808 * h,
    ensures
        within(frame * 1000, 16 * one, 2),
        within(nine * 10, 9 * one, 2),
{
    let p = PARTS as nat;
    let a = frame * 1000;
    let b = 16 * one;
    assert(a == 8589935000 * h && b == 8589934592 * h);
    assert(a * (p + 2) == a * 16777218 && b * (p + 2) == b * 16777218) by (nonlinear_arith)
        requires
            p == 16777216,
    ;
    let c = nine * 10;
    let d = 9 * one;
    assert(c == 4831838080 * h && d == 4831838208 * h);
    assert(c * (p + 2) == c * 16777218 && d * (p + 2) == d * 16777218) by (nonlinear_arith)
        requires
            p == 16777216,
    ;
}

/// In a frame a spark goes on along its velocity for sixteen thousandths of a second
/// and loses a tenth of its velocity. Its life does not change.
#[verifier::spinoff_prover]
pub proof fn law_spark_flies_on_and_slows_down(p: Particle, axis: int)
    requires
        axis == 0 || axis == 1,
        is_finite(p.pos[axis]),
        distance(value(p.pos[axis])) <= pow2(189),
        is_finite(p.vel[axis]),
        ordinary(value(p.vel[axis])),
    ensures
        ({
            let q = aged(p);
            let v = value(p.vel[axis]);
            &&& q.life == p.life
            &&& is_finite(q.vel[axis])
            &&& within(distance(value(q.vel[axis])) * 10, distance(v) * 9, 5)
            &&& (v > 0 <==> value(q.vel[axis]) > 0) && (v < 0 <==> value(q.vel[axis]) < 0)
            &&& is_finite(q.pos[axis])
            &&& exists|step: int|
                {
                    &&& within(#[trigger] distance(step) * 1000, distance(v) * 16, 5)
                    &&& (v > 0 <==> step > 0) && (v < 0 <==> step < 0)
                    &&& within(distance(value(q.pos[axis])), distance(value(p.pos[axis]) + step), 2)
                    &&& value(p.pos[axis]) + step >= 0 ==> value(q.pos[axis]) >= 0
                    &&& value(p.pos[axis]) + step <= 0 ==> value(q.pos[axis]) <= 0
                }
        }),
{
    lemma_parts();
    lemma_units_split(0, 0);
    let q = aged(p);
    let v = p.vel[axis];
    lemma_share(v, NINE_TENTHS, 10, 9);
    lemma_share(v, FRAME, 1000, 16);
    let s = product(v, FRAME);
    lemma_pow2_adds(1, 189);
    lemma2_to64();
    lemma_pow2_grows(190, 276);
    law_sum_is_accurate(p.pos[axis], s);
    law_sum_keeps_the_sign(p.pos[axis], s);
    let step = value(s);
    assert(within(distance(step) * 1000, distance(value(v)) * 16, 5));
}

/// A share of a number.
pub(crate) proof fn lemma_share(v: u32, share: u32, of: nat, parts: nat)
    requires
        is_finite(v),
        ordinary(value(v)),
        share < 0x4000_0000,
        within(units(share as nat) * of, parts * one_units(), 2),
        pow2(142) <= units(share as nat) <= pow2(149),
    ensures
        ({
            let r = product(v, share);
            &&& is_finite(r)
            &&& within(distance(value(r)) * of, distance(value(v)) * parts, 5)
            &&& (value(v) > 0 <==> value(r) > 0) && (value(v) < 0 <==> value(r) < 0)
            &&& distance(value(r)) <= pow2(189)
        }),
{
    let one = one_units();
    let r = product(v, share);
    let uv = units(magnitude(v) as nat);
    let us = units(share as nat);
    let ur = units(magnitude(r) as nat);
    lemma_units_split(0, 0);
    lemma_pow2_pos(149);
    lemma_pow2_pos(109);
    lemma_pow2_pos(102);
    lemma_pow2_pos(189);
    lemma_pow2_adds(109, 142);
    lemma_pow2_adds(102, 149);
    if uv != 0 {
        assert(uv * us >= pow2(109) * pow2(142)) by (nonlinear_arith)
            requires
                uv >= pow2(109),
                us >= pow2(142),
        ;
        assert(uv * us <= pow2(189) * one) by (nonlinear_arith)
            requires
                uv <= pow2(189),
                us <= one,
        ;
        lemma_pow2_pos(251);
    } else {
        assert(uv * us == 0) by (nonlinear_arith)
            requires
                uv == 0,
        ;
    }
    law_product_is_accurate(v, share, 102, 189);
    law_product_keeps_the_sign(v, share);
    lemma_within_scaled(ur * one, uv * us, of, 2);
    assert((ur * one) * of == (ur * of) * one) by (nonlinear_arith);
    lemma_within_scaled(us * of, parts * one, uv, 2);
    assert((uv * us) * of == uv * (us * of)) by (nonlinear_arith);
    assert(uv * (parts * one) == (uv * parts) * one) by (nonlinear_arith);
    lemma_within_chain((ur * of) * one, (uv * us) * of, (uv * parts) * one, 2, 2);
    lemma_within_unscaled(ur * of, uv * parts, one, 5);
}

/// A spark is older by sixteen thousandths of a second after a frame.
pub proof fn law_spark_grows_older(p: Particle)
    requires
        is_finite(p.age),
        !is_negative(p.age),
        value(p.age) <= pow2(189),
    ensures
        is_finite(aged(p).age),
        value(aged(p).age) >= value(p.age),
        exists|step: nat|
            {
                &&& within(#[trigger] (step * 1000), 16 * one_units(), 2)
                &&& within(distance(value(aged(p).age)), (value(p.age) + step) as nat, 2)
            },
{
    lemma_parts();
    lemma_pow2_grows(149, 189);
    lemma_pow2_adds(1, 189);
    lemma2_to64();
    lemma_pow2_grows(190, 276);
    law_sum_is_accurate(p.age, FRAME);
    law_sum_keeps_the_sign(p.age, FRAME);
    law_sum_moves_on(p.age, FRAME);
    let step = units(FRAME as nat);
    assert(within(step * 1000, 16 * one_units(), 2));
}

/// The noise goes from minus one for the least state through zero for the middle one to
/// one for the greatest, and never back.
pub proof fn law_noise_goes_from_minus_one_to_one(a: u32, b: u32)
    requires
        a <= b,
    ensures
        value(noise(a)) <= value(noise(b)),
        noise(0) == negated(ONE),
        noise(0x8000_0000) == 0,
        noise(0xffff_ffff) == ONE,
        is_finite(noise(a)),
        distance(value(noise(a))) <= one_units(),
{
    lemma_noise_steps(0);
    lemma_noise_steps(a as int);
    lemma_noise_steps(b as int);
    lemma_noise_steps(0x8000_0000);
    lemma_noise_steps(0xffff_ffff);
    lemma_noise_order(a, b);
    lemma_noise_order(0, a);
    lemma_noise_order(a, 0xffff_ffff);
    lemma_noise_anchors();
    lemma_one();
}

/// What the noise is made of stays in range.
#[verifier::spinoff_prover]
proof fn lemma_noise_steps(state: int)
    requires
        0 <= state <= 0xffff_ffff,
    ensures
        ({
            let i = nearest_int(state);
            let q = quotient(i, NOISE_RANGE);
            let d = product(q, TWO);
            &&& is_finite(i) && !is_negative(i)
            &&& is_finite(q) && !is_negative(q)
            &&& is_finite(d) && !is_negative(d)
            &&& value(d) <= 2 * one_units()
            &&& is_finite(noise(state as u32))
        }),
{
    let one = one_units();
    let i = nearest_int(state);
    law_whole_number_is_accurate(state as i64);
    law_whole_number_is_monotone(state, 0xffff_ffff);
    lemma_noise_anchors();
    lemma_constants();
    lemma_units_split(0, 0);
    lemma_one();
    law_quotient_keeps_the_sign(i, NOISE_RANGE);
    law_quotient_is_monotone(i, nearest_int(0xffff_ffff), NOISE_RANGE);
    law_quotient_shrinks(i, NOISE_RANGE);
    let q = quotient(i, NOISE_RANGE);
    law_product_keeps_the_sign(q, TWO);
    law_product_is_monotone(q, ONE, TWO);
    let d = product(q, TWO);
    assert(value(q) <= one);
    law_nearest_exists(units(magnitude(q) as nat) * units(TWO as nat), one);
    assert(value(d) <= 2 * one);
    assert(is_finite(d)) by {
        if !is_finite(d) {
            assert(magnitude(d) == 0x7f80_0000);
            lemma_units_increase(TWO as nat, magnitude(d) as nat);
        }
    }
    lemma_negated(ONE);
    lemma_pow2_adds(2, 149);
    lemma2_to64();
    lemma_pow2_grows(151, 276);
    law_difference_is_accurate(d, ONE);
}

proof fn lemma_noise_order(a: u32, b: u32)
    requires
        a <= b,
    ensures
        value(noise(a)) <= value(noise(b)),
{
    lemma_noise_steps(a as int);
    lemma_noise_steps(b as int);
    lemma_constants();
    let i = nearest_int(a as int);
    let j = nearest_int(b as int);
    law_whole_number_is_monotone(a as int, b as int);
    law_quotient_is_monotone(i, j, NOISE_RANGE);
    let q = quotient(i, NOISE_RANGE);
    let r = quotient(j, NOISE_RANGE);
    law_product_is_monotone(q, r, TWO);
    lemma_negated(ONE);
    law_commutative(product(q, TWO), negated(ONE));
    law_commutative(product(r, TWO), negated(ONE));
    law_sum_is_monotone(negated(ONE), product(q, TWO), product(r, TWO));
}

/// Two, a half and the range of the generator, in units.
#[verifier::spinoff_prover]
proof fn lemma_constants()
    ensures
        units(TWO as nat) == 2 * one_units(),
        units(NOISE_RANGE as nat) == 0x1_0000_0000 * one_units(),
        units(0x4f00_0000) == 0x8000_0000 * one_units(),
        units(0x3f00_0000) * 2 == one_units(),
{
    lemma_one();
    lemma2_to64();
    lemma_power_bits(150);
    lemma_power_bits(181);
    lemma_power_bits(180);
    lemma_power_bits(148);
    lemma_pow2_adds(1, 149);
    lemma_pow2_adds(32, 149);
    lemma_pow2_adds(31, 149);
    lemma_pow2_adds(1, 148);
    assert((150 - 22) * FRACTIONS == TWO as int);
    assert((181 - 22) * FRACTIONS == NOISE_RANGE as int);
    assert((180 - 22) * FRACTIONS == 0x4f00_0000);
    assert((148 - 22) * FRACTIONS == 0x3f00_0000);
}

/// The noise of the least, the middle and the greatest state.
#[verifier::spinoff_prover]
proof fn lemma_noise_anchors()
    ensures
        nearest_int(0xffff_ffff) == NOISE_RANGE,
        quotient(NOISE_RANGE, NOISE_RANGE) == ONE,
        product(ONE, TWO) == TWO,
        units(TWO as nat) == 2 * one_units(),
        noise(0) == negated(ONE),
        noise(0x8000_0000) == 0,
        noise(0xffff_ffff) == ONE,
{
    let one = one_units();
    lemma_constants();
    lemma_one();
    lemma_pow2_pos(149);
    lemma2_to64();
    lemma_units_split(0, 0);
    // The greatest state is nearer to the range than to the number below.
    let top = NOISE_RANGE as nat;
    lemma_units_split(0xff_ffff, 157);
    lemma_units_split(0x80_0001, 158);
    assert(157 * FRACTIONS as nat + 0xff_ffff == top - 1);
    assert(158 * FRACTIONS as nat + 0x80_0001 == top + 1);
    lemma_pow2_adds(8, 149);
    lemma_pow2_adds(9, 149);
    assert(units((top - 1) as nat) == 0xffff_ff00 * one) by (nonlinear_arith)
        requires
            units((top - 1) as nat) == 0xff_ffff * pow2(157),
            pow2(157) == 256 * one,
    ;
    assert(units(top + 1) == 0x1_0000_0200 * one) by (nonlinear_arith)
        requires
            units(top + 1) == 0x80_0001 * pow2(158),
            pow2(158) == 512 * one,
    ;
    let num = 0xffff_ffffnat * one;
    assert(is_nearest(num, 1, NOISE_RANGE)) by {
        assert((units((top - 1) as nat) + units(top)) * 1 < 2 * num);
        assert(2 * num < (units(top) + units(top + 1)) * 1);
    }
    lemma_nearest_unique(num, 1, NOISE_RANGE);
    // Dividing the range by itself.
    let range = units(NOISE_RANGE as nat);
    law_rounding_exact(ONE, range);
    assert(range * one == one * range) by (nonlinear_arith);
    // Twice one, and twice a half.
    law_commutative(ONE, TWO);
    law_product_with_one(TWO);
    // The least state.
    lemma_nearest_zero(1);
    lemma_nearest_zero(range);
    lemma_nearest_zero(one);
    assert(0 * one == 0);
    assert(0 * units(TWO as nat) == 0);
    law_rounding_exact(ONE, 1);
    // The middle state.
    let half = 0x3f00_0000u32;
    law_rounding_exact(0x4f00_0000, 1);
    assert(nearest_int(0x8000_0000) == 0x4f00_0000);
    let mid = units(0x4f00_0000);
    assert(mid * one == units(half as nat) * range) by (nonlinear_arith)
        requires
            mid == 0x8000_0000 * one,
            range == 0x1_0000_0000 * one,
            units(half as nat) * 2 == one,
    ;
    law_rounding_exact(half, range);
    assert(quotient(0x4f00_0000, NOISE_RANGE) == half);
    assert(units(half as nat) * units(TWO as nat) == one * one) by (nonlinear_arith)
        requires
            units(TWO as nat) == 2 * one,
            units(half as nat) * 2 == one,
    ;
    law_rounding_exact(ONE, one);
    assert(product(half, TWO) == ONE);
    // The differences.
    lemma_negated(ONE);
    assert(value(TWO) - value(ONE) == one);
}

/// A spark flies no faster along either axis than the scene's bursts do.
pub proof fn law_sparks_keep_the_speed(rng: u32, at: [u32; 2], burst: Burst, axis: int)
    requires
        axis == 0 || axis == 1,
        is_finite(burst.speed),
        !is_negative(burst.speed),
    ensures
        is_finite(next_spark(rng, at, burst).vel[axis]),
        distance(value(next_spark(rng, at, burst).vel[axis])) <= value(burst.speed),
        next_spark(rng, at, burst).pos == at,
        next_spark(rng, at, burst).age == 0,
{
    let a = xorshift32(rng);
    let b = xorshift32(a);
    lemma_slower(a, burst.speed);
    lemma_slower(b, burst.speed);
}

proof fn lemma_slower(state: u32, speed: u32)
    requires
        is_finite(speed),
        !is_negative(speed),
    ensures
        is_finite(product(noise(state), speed)),
        distance(value(product(noise(state), speed))) <= value(speed),
{
    law_noise_goes_from_minus_one_to_one(state, state);
    lemma_slower_share(noise(state), speed);
}

/// The numbers of a spark are drawn one after the other: along y a spark flies as the
/// one that is made a number later flies along x, and at a speed of one it flies as the
/// noise says.
pub proof fn law_spark_draws_number_after_number(rng: u32, at: [u32; 2], burst: Burst)
    ensures
        next_spark(rng, at, burst).vel[1] == next_spark(xorshift32(rng), at, burst).vel[0],
        burst.speed == ONE ==> next_spark(rng, at, burst).vel[0] == noise(xorshift32(rng)),
        rng_after(rng, 1) == xorshift32(xorshift32(xorshift32(rng))),
{
    law_noise_goes_from_minus_one_to_one(xorshift32(rng), xorshift32(rng));
    law_product_with_one(noise(xorshift32(rng)));
    reveal_with_fuel(rng_after, 2);
}

/// Seven tenths and thirteen tenths, in units.
#[verifier::spinoff_prover]
proof fn lemma_lives()
    ensures
        units(LIFE_BASE as nat) * 100 >= 69 * one_units(),
        (units(LIFE_BASE as nat) + units(LIFE_SPREAD as nat)) * 1000 <= 1301 * one_units(),
        pow2(140) <= units(LIFE_BASE as nat),
        units(LIFE_SPREAD as nat) <= one_units(),
{
    lemma2_to64();
    lemma_units_split(11744051, 125);
    lemma_units_split(10066330, 125);
    assert(125 * 0x80_0000 + 11744051 == LIFE_BASE as nat);
    assert(125 * 0x80_0000 + 10066330 == LIFE_SPREAD as nat);
    lemma_pow2_adds(24, 125);
    lemma_pow2_adds(15, 125);
    lemma_lives_in_parts(
        pow2(125),
        units(LIFE_BASE as nat),
        units(LIFE_SPREAD as nat),
        one_units(),
    );
}

proof fn lemma_lives_in_parts(h: nat, base: nat, spread: nat, one: nat)
    requires
        base == 11744051 * h,
        spread == 10066330 * h,
        one == 16777216 * h,
    ensures
        base * 100 >= 69 * one,
        (base + spread) * 1000 <= 1301 * one,
        spread <= one,
        32768 * h <= base,
{
}

/// A spark lives from seven to thirteen tenths of the scene's life.
#[verifier::spinoff_prover]
pub proof fn law_spark_lives_about_as_long_as_asked(rng: u32, at: [u32; 2], burst: Burst)
    requires
        is_finite(burst.life),
        value(burst.life) > 0,
        ordinary(value(burst.life)),
    ensures
        is_finite(next_spark(rng, at, burst).life),
        value(next_spark(rng, at, burst).life) * 100 >= value(burst.life) * 68,
        value(next_spark(rng, at, burst).life) * 100 <= value(burst.life) * 132,
{
    let one = one_units();
    let c = xorshift32(xorshift32(xorshift32(rng)));
    let n = magnitude(noise(c));
    let x = product(n, LIFE_SPREAD);
    let m = sum(LIFE_BASE, x);
    let r = product(burst.life, m);
    law_noise_goes_from_minus_one_to_one(c, c);
    lemma_lives();
    lemma_units_split(0, 0);
    lemma_pow2_pos(149);
    assert(units(n as nat) <= one);
    lemma_slower_share(n, LIFE_SPREAD);
    let ux = units(magnitude(x) as nat);
    law_product_keeps_the_sign(n, LIFE_SPREAD);
    lemma_pow2_adds(2, 149);
    lemma2_to64();
    lemma_pow2_grows(151, 276);
    law_sum_is_accurate(LIFE_BASE, x);
    law_sum_keeps_the_sign(LIFE_BASE, x);
    law_sum_moves_on(LIFE_BASE, x);
    let um = units(magnitude(m) as nat);
    lemma_within_double(um, (units(LIFE_BASE as nat) + ux) as nat, 2);
    let ul = units(magnitude(burst.life) as nat);
    lemma_pow2_adds(109, 140);
    lemma_pow2_adds(100, 149);
    lemma_pow2_adds(189, 151);
    lemma_pow2_adds(191, 149);
    assert(ul * um >= pow2(109) * pow2(140)) by (nonlinear_arith)
        requires
            ul >= pow2(109),
            um >= pow2(140),
    ;
    assert(ul * um <= pow2(189) * pow2(151)) by (nonlinear_arith)
        requires
            ul <= pow2(189),
            um <= pow2(151),
    ;
    law_product_is_accurate(burst.life, m, 100, 191);
    law_product_keeps_the_sign(burst.life, m);
    lemma_life_range(
        units(magnitude(r) as nat),
        ul,
        um,
        (units(LIFE_BASE as nat) + ux) as nat,
        one,
    );
}

proof fn lemma_life_range(r: nat, l: nat, m: nat, s: nat, one: nat)
    requires
        within(r * one, l * m, 2),
        within(m, s, 2),
        s * 100 >= 69 * one,
        s * 1000 <= 1301 * one,
        one > 0,
    ensures
        r * 100 >= l * 68,
        r * 100 <= l * 132,
{
    let p = PARTS as nat;
    lemma_within_scaled(m, s, l, 2);
    lemma_within_chain(r * one, l * m, l * s, 2, 2);
    let a = r * one;
    let b = l * s;
    assert(a * (p + 5) == a * 16777221 && b * (p + 5) == b * 16777221) by (nonlinear_arith)
        requires
            p == 16777216,
    ;
    let o = l * one;
    assert(b * 100 >= o * 69) by (nonlinear_arith)
        requires
            b == l * s,
            o == l * one,
            s * 100 >= 69 * one,
    ;
    assert(b * 1000 <= o * 1301) by (nonlinear_arith)
        requires
            b == l * s,
            o == l * one,
            s * 1000 <= 1301 * one,
    ;
    assert(a * 100 >= o * 68);
    assert(a * 100 <= o * 132);
    assert(r * 100 >= l * 68) by (nonlinear_arith)
        requires
            (r * one) * 100 >= (l * one) * 68,
            one > 0,
    ;
    assert(r * 100 <= l * 132) by (nonlinear_arith)
        requires
            (r * one) * 100 <= (l * one) * 132,
            one > 0,
    ;
}

/// A share of what is at most one is at most the share.
proof fn lemma_slower_share(n: u32, share: u32)
    requires
        is_finite(n),
        units(magnitude(n) as nat) <= one_units(),
        is_finite(share),
    ensures
        is_finite(product(n, share)),
        units(magnitude(product(n, share)) as nat) <= units(magnitude(share) as nat),
{
    let one = one_units();
    let u = units(magnitude(n) as nat);
    let w = units(magnitude(share) as nat);
    lemma_pow2_pos(149);
    assert(u * w <= w * one) by (nonlinear_arith)
        requires
            u <= one,
    ;
    law_nearest_exists(u * w, one);
    law_rounding_monotone(u * w, w * one, one);
    law_rounding_exact(magnitude(share), one);
    lemma_units_increase(nearest(u * w, one) as nat, magnitude(share) as nat);
}

} // verus!
