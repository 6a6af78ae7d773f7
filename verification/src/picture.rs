//! What a frame shows, and what the keys do, in plain terms.

use vstd::arithmetic::power2::{lemma2_to64, lemma_pow2_adds, lemma_pow2_pos, pow2};
use vstd::prelude::*;

use crate::accuracy::{
    law_difference_is_accurate, law_difference_is_antitone, law_difference_keeps_the_sign,
    law_product_is_accurate, law_product_is_monotone, law_product_keeps_the_sign,
    law_quotient_is_accurate, law_quotient_is_monotone, law_quotient_keeps_the_sign,
    law_sum_is_accurate, law_sum_is_monotone, law_sum_keeps_the_sign, law_sum_moves_on,
    law_whole_number_is_accurate, law_whole_number_is_monotone, lemma_negated, lemma_pow2_grows,
    lemma_rounded_range, lemma_within_chain, lemma_within_scaled, lemma_within_sum,
    lemma_within_unscaled, product_units, within, PARTS,
};
use crate::binary32::{
    difference, distance, is_finite, is_nan, is_nearest, is_negative, law_commutative,
    law_nearest_exists,
    law_order_is_numeric, law_product_with_one, law_product_with_zero, law_rounding_exact,
    law_rounding_monotone, law_sum_with_zero, lemma_nearest_unique, lemma_nearest_zero, lemma_one,
    lemma_units_increase, lemma_units_split, magnitude, nearest, nearest_int, negated, one_units,
    product, quotient, sum, units, value, INFINITY, SIGN,
};
use crate::ecs::{BodyView, THOUSAND};
use crate::game::{aimed, all_seen, player_place, SightingView, FRAME_MS};
use crate::guest::GuestView;
use crate::host::running;
use crate::laws::law_reaches_keeps;
use crate::lifecycle::{lemma_tick_reaches, Outcome};
use crate::motion::{lemma_thousand, ordinary};
use crate::particles::{
    burnt, bursts, fallen, law_bursts_use_one_stream, lemma_parts, lemma_share, rng_after, Burst,
    Particle, FRAME, NINE_TENTHS,
};
use crate::player::{
    action_for, angle_at, aspect, entity_disc, entity_discs, is_due, keys_after, lever, look_of,
    on_screen, opening, rate, smoothed, spark_disc, zoom, Action, AppView, Camera, Disc, Input, Key,
    Keys, FOUR_TENTHS, PULSE_RATE, SIX_TENTHS, SMALL, TENTH,
};
use crate::scene::{RenderProfile, SceneView, CAMERA_SCALE, ONE};
use crate::state::HostView;

verus! {

/// A place where the player is, is drawn at the center, wherever that is and whatever
/// the scale and the aspect.
pub proof fn law_player_is_at_the_center(camera: Camera, w: [u32; 2])
    requires
        is_finite(camera.player[0]),
        is_finite(camera.player[1]),
        is_finite(camera.scale),
        is_finite(camera.aspect),
        is_finite(w[0]),
        is_finite(w[1]),
        value(w[0]) == value(camera.player[0]),
        value(w[1]) == value(camera.player[1]),
    ensures
        magnitude(on_screen(camera, w)[0]) == 0,
        magnitude(on_screen(camera, w)[1]) == 0,
{
    let dx = difference(w[0], camera.player[0]);
    let dy = difference(w[1], camera.player[1]);
    law_difference_keeps_the_sign(w[0], camera.player[0]);
    law_difference_keeps_the_sign(w[1], camera.player[1]);
    law_product_with_zero(dx, camera.scale);
    law_product_with_zero(dy, camera.scale);
    law_product_with_zero(product(dx, camera.scale), camera.aspect);
}

/// A difference, multiplied by a scale.
proof fn lemma_scaled(a: u32, b: u32, scale: u32)
    requires
        is_finite(a),
        is_finite(b),
        is_finite(scale),
        ordinary(value(a) - value(b)),
        ordinary(value(scale)),
    ensures
        ({
            let d = difference(a, b);
            let r = product(d, scale);
            let e = distance(value(a) - value(b)) * distance(value(scale));
            let u = units(magnitude(r) as nat);
            &&& is_finite(r)
            &&& within(u * one_units(), e, 5)
            &&& value(a) == value(b) || value(scale) == 0 ==> u == 0
            &&& value(a) != value(b) && value(scale) != 0 ==> pow2(69) <= u <= pow2(229)
            &&& value(a) > value(b) ==> is_negative(r) == is_negative(scale)
            &&& value(a) < value(b) ==> is_negative(r) != is_negative(scale)
        }),
{
    let d = difference(a, b);
    let w = distance(value(a) - value(b));
    let ud = units(magnitude(d) as nat);
    let us = units(magnitude(scale) as nat);
    lemma_negated(b);
    lemma_pow2_grows(189, 276);
    law_difference_is_accurate(a, b);
    law_difference_keeps_the_sign(a, b);
    lemma_units_split(0, 0);
    lemma_pow2_pos(109);
    lemma_pow2_adds(109, 109);
    lemma_pow2_adds(189, 189);
    lemma_pow2_adds(69, 149);
    lemma_pow2_adds(229, 149);
    if w != 0 {
        law_nearest_exists(w, 1);
        assert(magnitude(d) == nearest(w, 1));
        lemma_rounded_range(w, 1, 109);
        lemma_rounded_range(w, 1, 189);
    }
    if w != 0 && us != 0 {
        assert(ud * us >= pow2(109) * pow2(109)) by (nonlinear_arith)
            requires
                ud >= pow2(109),
                us >= pow2(109),
        ;
        assert(ud * us <= pow2(189) * pow2(189)) by (nonlinear_arith)
            requires
                ud <= pow2(189),
                us <= pow2(189),
        ;
        lemma_pow2_pos(218);
    } else {
        assert(ud * us == 0) by (nonlinear_arith)
            requires
                ud == 0 || us == 0,
        ;
    }
    law_product_is_accurate(d, scale, 69, 229);
    law_product_keeps_the_sign(d, scale);
    lemma_within_scaled(ud, w, us, 2);
    lemma_within_chain(product_units(d, scale) * one_units(), ud * us, w * us, 2, 2);
}

/// A place is drawn as far from the center as it is from the player, times the scale,
/// and sideways times the aspect: to the right of the center if it is to the right of
/// the player, and above it if it is above.
#[verifier::spinoff_prover]
pub proof fn law_screen_shows_where_things_are(camera: Camera, w: [u32; 2])
    requires
        is_finite(camera.player[0]),
        is_finite(camera.player[1]),
        is_finite(camera.scale),
        is_finite(camera.aspect),
        is_finite(w[0]),
        is_finite(w[1]),
        ordinary(value(w[0]) - value(camera.player[0])),
        ordinary(value(w[1]) - value(camera.player[1])),
        value(camera.scale) > 0 && ordinary(value(camera.scale)),
        value(camera.aspect) > 0 && ordinary(value(camera.aspect)),
    ensures
        ({
            let c = on_screen(camera, w);
            let ex = value(w[0]) - value(camera.player[0]);
            let ey = value(w[1]) - value(camera.player[1]);
            let scale = distance(value(camera.scale));
            let aspect = distance(value(camera.aspect));
            &&& is_finite(c[0]) && is_finite(c[1])
            &&& (value(c[0]) > 0 <==> ex > 0) && (value(c[0]) < 0 <==> ex < 0)
            &&& (value(c[1]) > 0 <==> ey > 0) && (value(c[1]) < 0 <==> ey < 0)
            &&& within(
                distance(value(c[0])) * one_units() * one_units(),
                distance(ex) * scale * aspect,
                8,
            )
            &&& within(distance(value(c[1])) * one_units(), distance(ey) * scale, 5)
        }),
{
    let one = one_units();
    let c = on_screen(camera, w);
    let ex = value(w[0]) - value(camera.player[0]);
    let scale = distance(value(camera.scale));
    let aspect = distance(value(camera.aspect));
    lemma_scaled(w[0], camera.player[0], camera.scale);
    lemma_scaled(w[1], camera.player[1], camera.scale);
    let dx = difference(w[0], camera.player[0]);
    let p = product(dx, camera.scale);
    let up = units(magnitude(p) as nat);
    let uc = units(magnitude(c[0]) as nat);
    lemma_units_split(0, 0);
    lemma_pow2_pos(69);
    lemma_pow2_pos(109);
    lemma_pow2_adds(69, 109);
    lemma_pow2_adds(229, 189);
    lemma_pow2_adds(29, 149);
    lemma_pow2_adds(269, 149);
    if up != 0 {
        assert(up * aspect >= pow2(69) * pow2(109)) by (nonlinear_arith)
            requires
                up >= pow2(69),
                aspect >= pow2(109),
        ;
        assert(up * aspect <= pow2(229) * pow2(189)) by (nonlinear_arith)
            requires
                up <= pow2(229),
                aspect <= pow2(189),
        ;
        lemma_pow2_pos(178);
    } else {
        assert(up * aspect == 0) by (nonlinear_arith)
            requires
                up == 0,
        ;
    }
    law_product_is_accurate(p, camera.aspect, 29, 269);
    law_product_keeps_the_sign(p, camera.aspect);
    lemma_pow2_pos(29);
    lemma_within_scaled(uc * one, up * aspect, one, 2);
    assert((up * aspect) * one == (up * one) * aspect) by (nonlinear_arith);
    lemma_within_scaled(up * one, distance(ex) * scale, aspect, 5);
    lemma_within_chain(
        (uc * one) * one,
        (up * one) * aspect,
        (distance(ex) * scale) * aspect,
        2,
        5,
    );
}

/// One unit of the plane is the part of the screen that the scene's camera asks for: one
/// over its width, or one over 620 where the width is not above one.
pub proof fn law_zoom_is_one_over_the_width(camera_scale: u32)
    requires
        is_finite(camera_scale),
        value(camera_scale) <= pow2(189),
    ensures
        is_finite(zoom(camera_scale)),
        value(zoom(camera_scale)) > 0,
        value(camera_scale) > one_units() ==> within(
            distance(value(zoom(camera_scale))) * distance(value(camera_scale)),
            one_units() * one_units(),
            2,
        ),
        value(camera_scale) <= one_units() ==> within(
            distance(value(zoom(camera_scale))) * 620,
            one_units(),
            2,
        ),
{
    let one = one_units();
    lemma_one();
    law_order_is_numeric(ONE, camera_scale);
    lemma_pow2_pos(149);
    lemma_units_split(0, 0);
    lemma_units_split(0x9b_0000, 135);
    lemma_pow2_adds(14, 135);
    lemma2_to64();
    assert(135 * 0x80_0000 + 0x9b_0000 == CAMERA_SCALE as nat);
    assert(units(CAMERA_SCALE as nat) == 620 * one);
    let by = if value(camera_scale) > one {
        camera_scale
    } else {
        CAMERA_SCALE
    };
    let den = units(magnitude(by) as nat);
    lemma_pow2_adds(109, 189);
    lemma_pow2_adds(149, 149);
    assert(620 * one <= pow2(189)) by {
        lemma_pow2_adds(10, 149);
        lemma_pow2_grows(159, 189);
    }
    assert(pow2(109) * den <= one * one) by (nonlinear_arith)
        requires
            den <= pow2(189),
            pow2(109) * pow2(189) == one * one,
    ;
    assert(one * one <= pow2(149) * den) by (nonlinear_arith)
        requires
            one <= den,
            pow2(149) == one,
    ;
    law_quotient_is_accurate(ONE, by, 109, 149);
    law_quotient_keeps_the_sign(ONE, by);
    let z = units(magnitude(zoom(camera_scale)) as nat);
    assert(one * one != 0) by (nonlinear_arith)
        requires
            one > 0,
    ;
    lemma_pow2_pos(109);
    if by == CAMERA_SCALE {
        assert(z * den == (z * 620) * one) by (nonlinear_arith)
            requires
                den == 620 * one,
        ;
        lemma_within_unscaled(z * 620, one, one, 2);
    }
}

/// What an entity with a profile looks like: it has the profile's color, glow and,
/// unless it pulses, size.
pub proof fn law_entity_looks_like_its_profile(
    pos: [u32; 2],
    look: RenderProfile,
    camera: Camera,
    wave: u32,
)
    ensures
        entity_disc(pos, look, camera, wave).center == on_screen(camera, pos),
        entity_disc(pos, look, camera, wave).color == look.color,
        entity_disc(pos, look, camera, wave).glow == look.glow,
        !look.pulse ==> entity_disc(pos, look, camera, wave).radius == look.size,
{
}

/// Every entity that has a profile is drawn once, in the order in which they are seen,
/// and nothing else is: seeing one more draws one more if it has a profile.
pub proof fn law_entities_are_drawn_in_order(
    ents: Seq<SightingView>,
    more: Seq<SightingView>,
    profiles: Seq<(Seq<char>, RenderProfile)>,
    camera: Camera,
    wave: u32,
    one: SightingView,
)
    ensures
        entity_discs(ents + more, profiles, camera, wave) == entity_discs(
            ents,
            profiles,
            camera,
            wave,
        ) + entity_discs(more, profiles, camera, wave),
        entity_discs(seq![one], profiles, camera, wave) == match look_of(profiles, one.tag) {
            Some(look) => seq![entity_disc(one.pos, look, camera, wave)],
            None => Seq::<Disc>::empty(),
        },
    decreases more.len(),
{
    let a = entity_discs(ents, profiles, camera, wave);
    if more.len() == 0 {
        assert(ents + more =~= ents);
        assert(a + entity_discs(more, profiles, camera, wave) =~= a);
    } else {
        let rest = more.drop_last();
        law_entities_are_drawn_in_order(ents, rest, profiles, camera, wave, one);
        assert((ents + more).drop_last() =~= ents + rest);
        assert((ents + more).last() == more.last());
        let b = entity_discs(rest, profiles, camera, wave);
        match look_of(profiles, more.last().tag) {
            Some(look) => {
                let d = entity_disc(more.last().pos, look, camera, wave);
                assert((a + b).push(d) =~= a + b.push(d));
            },
            None => {},
        }
    }
    assert(seq![one].drop_last() =~= Seq::empty());
    assert(entity_discs(seq![one].drop_last(), profiles, camera, wave) =~= Seq::empty());
}

/// The profile of a tag is the one listed for it, and there is none only if none is.
pub proof fn law_look_is_the_one_listed(profiles: Seq<(Seq<char>, RenderProfile)>, tag: Seq<char>)
    ensures
        match look_of(profiles, tag) {
            Some(look) => exists|i: int|
                {
                    &&& 0 <= i < profiles.len()
                    &&& (#[trigger] profiles[i]).0 == tag
                    &&& profiles[i].1 == look
                    &&& forall|j: int| 0 <= j < i ==> (#[trigger] profiles[j]).0 != tag
                },
            None => forall|i: int| 0 <= i < profiles.len() ==> (#[trigger] profiles[i]).0 != tag,
        },
    decreases profiles.len(),
{
    if profiles.len() > 0 && profiles[0].0 != tag {
        let rest = profiles.drop_first();
        law_look_is_the_one_listed(rest, tag);
        match look_of(rest, tag) {
            Some(look) => {
                let i = choose|i: int|
                    {
                        &&& 0 <= i < rest.len()
                        &&& (#[trigger] rest[i]).0 == tag
                        &&& rest[i].1 == look
                        &&& forall|j: int| 0 <= j < i ==> (#[trigger] rest[j]).0 != tag
                    };
                assert(profiles[i + 1] == rest[i]);
                assert forall|j: int| 0 <= j < i + 1 implies (#[trigger] profiles[j]).0 != tag by {
                    if j > 0 {
                        assert(rest[j - 1].0 != tag);
                    }
                }
            },
            None => {
                assert forall|i: int| 0 <= i < profiles.len() implies (#[trigger] profiles[i]).0
                    != tag by {
                    if i > 0 {
                        assert(rest[i - 1].0 != tag);
                    }
                }
            },
        }
    }
}

/// The player is where the last entity under the tag of the player is, and at the origin
/// if there is none.
pub proof fn law_player_place_is_the_last(list: Seq<SightingView>, i: int)
    requires
        0 <= i < list.len() ==> list[i].tag == seq![
            's', 'h', 'i', 'r', 'o', '-', 'p', 'i', 'c', 'o',
        ],
        forall|j: int|
            i < j < list.len() && 0 <= j ==> (#[trigger] list[j]).tag != seq![
                's', 'h', 'i', 'r', 'o', '-', 'p', 'i', 'c', 'o',
            ],
        -1 <= i < list.len(),
    ensures
        i >= 0 ==> player_place(list) == list[i].pos,
        i == -1 ==> player_place(list)@ == seq![0u32, 0u32],
    decreases list.len(),
{
    reveal_strlit("shiro-pico");
    assert("shiro-pico"@ =~= seq!['s', 'h', 'i', 'r', 'o', '-', 'p', 'i', 'c', 'o']);
    if list.len() > 0 && i < list.len() - 1 {
        let rest = list.drop_last();
        assert(list[list.len() - 1].tag != "shiro-pico"@);
        assert forall|j: int| i < j < rest.len() && 0 <= j implies (#[trigger] rest[j]).tag != seq![
            's', 'h', 'i', 'r', 'o', '-', 'p', 'i', 'c', 'o',
        ] by {
            assert(list[j].tag != "shiro-pico"@);
        }
        law_player_place_is_the_last(rest, i);
    }
    assert([0u32, 0u32]@ =~= seq![0u32, 0u32]);
}

/// An entity is seen where it is, under its own tag and id.
pub proof fn law_entities_are_seen_where_they_are(bodies: Seq<BodyView>, i: int)
    requires
        0 <= i < bodies.len(),
    ensures
        all_seen(bodies).len() == bodies.len(),
        all_seen(bodies)[i].id == bodies[i].id,
        all_seen(bodies)[i].tag == bodies[i].tag,
        all_seen(bodies)[i].pos[0] == bodies[i].entity.pos[0],
        all_seen(bodies)[i].pos[1] == bodies[i].entity.pos[1],
{
}

/// A frame draws the sparks and then the entities, around the player, as far as it can
/// draw.
pub proof fn law_frame_draws_sparks_then_entities(s: AppView, aspect: u32, wave: u32, i: int)
    requires
        0 <= i < s.drawn(aspect, wave).len(),
    ensures
        ({
            let camera = Camera {
                player: player_place(s.before),
                scale: zoom(s.scene.camera_scale),
                aspect,
            };
            let n = s.particles.len();
            let m = entity_discs(s.before, s.scene.profiles, camera, wave).len();
            let d = s.drawn(aspect, wave);
            &&& d.len() == if n + m <= 4096 {
                n + m
            } else {
                4096
            }
            &&& i < n ==> d[i].center == on_screen(camera, s.particles[i].pos)
            &&& i >= n ==> d[i] == entity_discs(s.before, s.scene.profiles, camera, wave)[i - n]
        }),
{
}

proof fn lemma_levers()
    ensures
        nearest_int(1) == ONE,
        nearest_int(0) == 0,
        nearest_int(-1) == negated(ONE),
{
    lemma_one();
    let one = one_units();
    law_rounding_exact(ONE, 1);
    assert(one * 1 == one && 1 * one == one && 0 * one == 0);
    lemma_nearest_zero(1);
}

/// The keys that are down steer the player: right and left along x, up and down along y,
/// at the speed of the scene; two that are opposite cancel, and no other axis changes.
#[verifier::spinoff_prover]
pub proof fn law_keys_steer_the_player(
    g: GuestView,
    right: bool,
    left: bool,
    up: bool,
    down: bool,
    speed: u32,
    other: Seq<char>,
)
    requires
        is_finite(speed),
        other != seq!['M', 'o', 'v', 'e', 'X'],
        other != seq!['M', 'o', 'v', 'e', 'Y'],
    ensures
        ({
            let after = aimed(g, lever(right, left), lever(up, down), speed);
            let axes = after.state.axes;
            let x = seq!['M', 'o', 'v', 'e', 'X'];
            let y = seq!['M', 'o', 'v', 'e', 'Y'];
            &&& axes.contains_key(x) && axes.contains_key(y)
            &&& right && !left ==> axes[x] == speed
            &&& left && !right ==> axes[x] == negated(speed)
            &&& right == left ==> magnitude(axes[x]) == 0
            &&& up && !down ==> axes[y] == speed
            &&& down && !up ==> axes[y] == negated(speed)
            &&& up == down ==> magnitude(axes[y]) == 0
            &&& axes.contains_key(other) == g.state.axes.contains_key(other)
            &&& axes.contains_key(other) ==> axes[other] == g.state.axes[other]
            &&& after == g.with_state(HostView { axes, ..g.state })
        }),
{
    lemma_levers();
    reveal_strlit("MoveX");
    reveal_strlit("MoveY");
    assert("MoveX"@ =~= seq!['M', 'o', 'v', 'e', 'X']);
    assert("MoveY"@ =~= seq!['M', 'o', 'v', 'e', 'Y']);
    assert("MoveX"@[4] != "MoveY"@[4]);
    law_commutative(ONE, speed);
    law_product_with_one(speed);
    law_product_with_zero(0, speed);
    lemma_one();
    lemma_turned_product(speed);
}

proof fn lemma_turned_product(speed: u32)
    requires
        is_finite(speed),
    ensures
        product(negated(ONE), speed) == negated(speed),
{
    law_commutative(ONE, speed);
    law_product_with_one(speed);
    let u = units(magnitude(speed) as nat);
    let one = one_units();
    lemma_one();
    lemma_pow2_pos(149);
    law_rounding_exact(magnitude(speed), one);
    assert(one * u == u * one) by (nonlinear_arith);
}

/// A key that goes down or up is held or let go, and changes no other: the arrow or the
/// letter for a side is that side's.
pub proof fn law_each_key_has_its_side(keys: Keys, key: Key, pressed: bool)
    ensures
        ({
            let k = keys_after(keys, key, pressed);
            &&& k.left == if key is ArrowLeft || key is KeyA {
                pressed
            } else {
                keys.left
            }
            &&& k.right == if key is ArrowRight || key is KeyD {
                pressed
            } else {
                keys.right
            }
            &&& k.up == if key is ArrowUp || key is KeyW {
                pressed
            } else {
                keys.up
            }
            &&& k.down == if key is ArrowDown || key is KeyS {
                pressed
            } else {
                keys.down
            }
        }),
{
}

/// What happens to the window changes the keys that are down and whether faults are
/// shown, by the keyboard alone, and nothing of the game or the picture.
pub proof fn law_window_changes_keys_alone(s: AppView, input: Input)
    ensures
        ({
            let t = s.told(input);
            &&& t == AppView { keys: t.keys, debug: t.debug, ..s }
            &&& !(input is Keyboard) ==> t == s
            &&& input matches Input::Keyboard { key, pressed } ==> t.debug == if key is F1
                && pressed {
                !s.debug
            } else {
                s.debug
            }
            &&& input matches Input::Keyboard { key, pressed } ==> t.keys == keys_after(
                s.keys,
                key,
                pressed,
            )
        }),
{
}

/// The player leaves if the window is closed or the escape key goes down, draws if it is
/// asked to, and gives the picture the window's size, never less than a pixel.
pub proof fn law_window_is_answered(input: Input)
    ensures
        action_for(input) is Exit <==> input is CloseRequested || (input is Keyboard
            && input->key is Escape && input->pressed),
        action_for(input) is Render <==> input is RedrawRequested,
        action_for(input) is Configure <==> input is Resized,
        input matches Input::Resized { width, height } ==> action_for(input)
            == (Action::Configure {
            width: if width == 0 {
                1
            } else {
                width
            },
            height: if height == 0 {
                1
            } else {
                height
            },
        }),
{
}

/// A surface is as wide, for each unit of its height, as its width bears to its height.
#[verifier::spinoff_prover]
pub proof fn law_aspect_is_width_to_height(width: u32, height: u32)
    requires
        width > 0,
        height > 0,
    ensures
        is_finite(aspect(width, height)),
        value(aspect(width, height)) > 0,
        within(
            distance(value(aspect(width, height))) * height as nat,
            width as nat * one_units(),
            8,
        ),
{
    let one = one_units();
    let w = nearest_int(width as int);
    let h = nearest_int(height as int);
    let uw = units(magnitude(w) as nat);
    let uh = units(magnitude(h) as nat);
    law_whole_number_is_accurate(width as i64);
    law_whole_number_is_accurate(height as i64);
    law_whole_number_is_monotone(width as int, 0xffff_ffff);
    law_whole_number_is_monotone(height as int, 0xffff_ffff);
    lemma2_to64();
    lemma_pow2_pos(149);
    lemma_units_split(0, 0);
    lemma_pow2_adds(86, 212);
    lemma_pow2_adds(149, 149);
    lemma_pow2_adds(63, 149);
    lemma_pow2_adds(212, 149);
    assert(pow2(86) * uh <= uw * one) by (nonlinear_arith)
        requires
            uh <= pow2(212),
            uw >= one,
            pow2(86) * pow2(212) == one * one,
    ;
    assert(uw * one <= pow2(212) * uh) by (nonlinear_arith)
        requires
            uw <= pow2(212),
            uh >= one,
    ;
    law_quotient_is_accurate(w, h, 86, 212);
    law_quotient_keeps_the_sign(w, h);
    let r = aspect(width, height);
    let ur = units(magnitude(r) as nat);
    assert(uw * one != 0) by (nonlinear_arith)
        requires
            uw > 0,
            one > 0,
    ;
    lemma_pow2_pos(86);
    // ur * uh ~ uw * one, uh ~ height * one, uw ~ width * one
    let ww = width as nat;
    let hh = height as nat;
    lemma_within_scaled(uh, hh * one, ur, 2);
    lemma_within_chain(ur * (hh * one), ur * uh, uw * one, 2, 2);
    lemma_within_scaled(uw, ww * one, one, 2);
    lemma_within_chain(ur * (hh * one), uw * one, (ww * one) * one, 5, 2);
    assert(ur * (hh * one) == (ur * hh) * one) by (nonlinear_arith);
    lemma_within_unscaled(ur * hh, ww * one, one, 8);
}

/// One tenth in units.
#[verifier::spinoff_prover]
proof fn lemma_tenth()
    ensures
        within(units(TENTH as nat) * 10, one_units(), 2),
        pow2(142) <= units(TENTH as nat) <= pow2(149),
{
    lemma2_to64();
    lemma_units_split(13421773, 122);
    assert(122 * 0x80_0000 + 13421773 == TENTH as nat);
    lemma_pow2_adds(27, 122);
    lemma_pow2_adds(20, 122);
    lemma_tenth_in_parts(pow2(122), units(TENTH as nat), one_units());
}

proof fn lemma_tenth_in_parts(h: nat, t: nat, one: nat)
    requires
        t == 13421773 * h,
        one == 134217728 * h,
    ensures
        within(t * 10, one, 2),
{
    let p = PARTS as nat;
    let a = t * 10;
    assert(a == 134217730 * h);
    assert(a * (p + 2) == a * 16777218 && one * (p + 2) == one * 16777218) by (nonlinear_arith)
        requires
            p == 16777216,
    ;
}

/// Six tenths and four tenths come to one.
#[verifier::spinoff_prover]
proof fn lemma_six_and_four()
    ensures
        sum(SIX_TENTHS, FOUR_TENTHS) == ONE,
{
    lemma2_to64();
    lemma_one();
    lemma_units_split(10066330, 125);
    lemma_units_split(13421773, 124);
    lemma_units_split(0x80_0001, 126);
    lemma_units_split(0xff_ffff, 125);
    assert(125 * 0x80_0000 + 10066330 == SIX_TENTHS as nat);
    assert(124 * 0x80_0000 + 13421773 == FOUR_TENTHS as nat);
    assert(126 * 0x80_0000 + 0x80_0001 == ONE as nat + 1);
    assert(125 * 0x80_0000 + 0xff_ffff == ONE as nat - 1);
    lemma_pow2_adds(1, 124);
    lemma_pow2_adds(2, 124);
    lemma_pow2_adds(25, 124);
    lemma_pow2_pos(124);
    let k = pow2(124);
    let e = (33554433 * k) as nat;
    assert(value(SIX_TENTHS) + value(FOUR_TENTHS) == e);
    assert(units(ONE as nat) == 33554432 * k);
    assert(units((ONE + 1) as nat) == 33554436 * k);
    assert(units((ONE - 1) as nat) == 33554430 * k);
    assert(is_nearest(e, 1, ONE)) by {
        assert((units((ONE - 1) as nat) + units(ONE as nat)) * 1 < 2 * e);
        assert(2 * e < (units(ONE as nat) + units((ONE + 1) as nat)) * 1);
    }
    lemma_nearest_unique(e, 1, ONE);
}

/// A mean follows its input: it is nine parts of what it was and one of what is new.
#[verifier::spinoff_prover]
pub proof fn law_mean_follows_its_input(mean: u32, ms: u32)
    requires
        mean < SIGN && is_finite(mean) && ordinary(value(mean)),
        ms < SIGN && is_finite(ms) && ordinary(value(ms)),
    ensures
        is_finite(smoothed(mean, ms)),
        value(smoothed(mean, ms)) >= 0,
        within(
            distance(value(smoothed(mean, ms))) * 10,
            (9 * value(mean) + value(ms)) as nat,
            8,
        ),
{
    lemma_tenth();
    lemma_parts();
    lemma_units_split(0, 0);
    lemma_share(mean, NINE_TENTHS, 10, 9);
    assert(1 * one_units() == one_units());
    lemma_share(ms, TENTH, 10, 1);
    let a = product(mean, NINE_TENTHS);
    let b = product(ms, TENTH);
    lemma_pow2_adds(1, 189);
    lemma2_to64();
    lemma_pow2_grows(190, 276);
    lemma_pow2_pos(189);
    let x = distance(value(a));
    let y = distance(value(b));
    let m = distance(value(mean));
    let n = distance(value(ms));
    lemma_within_sum(x * 10, m * 9, y * 10, n * 1, 5);
    law_sum_is_accurate(a, b);
    law_sum_keeps_the_sign(a, b);
    let r = units(magnitude(smoothed(mean, ms)) as nat);
    assert(value(a) >= 0 && value(b) >= 0);
    lemma_within_scaled(r, x + y, 10, 2);
    assert((x + y) * 10 == x * 10 + y * 10);
    lemma_within_chain(r * 10, (x + y) * 10, m * 9 + n * 1, 2, 5);
}

/// So many frames of a length fit into a second.
pub proof fn law_rate_is_frames_in_a_second(frame_ms: u32)
    requires
        is_finite(frame_ms),
        ordinary(value(frame_ms)),
    ensures
        value(frame_ms) <= 0 ==> rate(frame_ms) == 0,
        value(frame_ms) > 0 ==> is_finite(rate(frame_ms)) && value(rate(frame_ms)) > 0 && within(
            distance(value(rate(frame_ms))) * distance(value(frame_ms)),
            1000 * one_units() * one_units(),
            2,
        ),
{
    let one = one_units();
    lemma_thousand();
    law_order_is_numeric(0, frame_ms);
    lemma_units_split(0, 0);
    lemma_pow2_pos(149);
    lemma_pow2_pos(109);
    if value(frame_ms) > 0 {
        let den = units(magnitude(frame_ms) as nat);
        let num = (1000 * one) * one;
        lemma_pow2_adds(109, 189);
        lemma_pow2_adds(149, 149);
        lemma_pow2_adds(10, 298);
        lemma_pow2_adds(199, 109);
        lemma2_to64();
        assert(pow2(109) * den <= num) by (nonlinear_arith)
            requires
                den <= pow2(189),
                pow2(109) * pow2(189) == one * one,
                num == (1000 * one) * one,
        ;
        assert(num <= pow2(199) * den) by (nonlinear_arith)
            requires
                den >= pow2(109),
                pow2(199) * pow2(109) == 1024 * (one * one),
                num == (1000 * one) * one,
        ;
        assert(num != 0) by (nonlinear_arith)
            requires
                num == (1000 * one) * one,
                one > 0,
        ;
        law_quotient_is_accurate(THOUSAND, frame_ms, 109, 199);
        law_quotient_keeps_the_sign(THOUSAND, frame_ms);
    }
}

/// A frame counts one up, takes sixteen thousandths of a second for itself, and, if the
/// time since the one before is known, lets the mean follow it in milliseconds and the
/// rate the mean. Nothing else changes.
pub proof fn law_frame_begins(s: AppView, since: Option<u32>)
    requires
        s.frames < u64::MAX,
        is_finite(s.time),
        distance(value(s.time)) <= pow2(189),
    ensures
        ({
            let t = s.frame_begun(since);
            &&& t == AppView {
                time: t.time,
                frames: t.frames,
                frame_ms: t.frame_ms,
                fps: t.fps,
                ..s
            }
            &&& t.frames == s.frames + 1
            &&& is_finite(t.time)
            &&& value(t.time) >= value(s.time)
            &&& exists|step: nat|
                {
                    &&& within(#[trigger] (step * 1000), 16 * one_units(), 2)
                    &&& within(distance(value(t.time)), distance(value(s.time) + step), 2)
                }
            &&& since is None ==> t.frame_ms == s.frame_ms && t.fps == s.fps
            &&& since matches Some(secs) ==> t.frame_ms == smoothed(
                s.frame_ms,
                product(secs, 0x447a_0000),
            ) && t.fps == rate(t.frame_ms)
        }),
{
    lemma_parts();
    lemma_pow2_grows(149, 189);
    lemma_pow2_adds(1, 189);
    lemma2_to64();
    lemma_pow2_grows(190, 276);
    law_sum_is_accurate(s.time, FRAME);
    law_sum_keeps_the_sign(s.time, FRAME);
    law_sum_moves_on(s.time, FRAME);
    let step = units(FRAME as nat);
    assert(within(step * 1000, 16 * one_units(), 2));
}

/// A step that took some seconds lets the mean of the steps follow it in milliseconds,
/// and changes nothing else.
pub proof fn law_step_is_timed(s: AppView, secs: u32)
    ensures
        s.step_timed(secs) == (AppView {
            step_ms: smoothed(s.step_ms, product(secs, 0x447a_0000)),
            ..s
        }),
{
}

/// After a step everything is seen anew; where a ghost was seen before and is gone the
/// scene's sparks burst, as many and as fast and for as long as it says; and all sparks
/// burn on. The game and everything else stay as they are.
pub proof fn law_advance_bursts_where_ghosts_fell(s: AppView)
    ensures
        ({
            let t = s.advanced();
            let now = all_seen(s.game.state.store.bodies);
            let burst = Burst {
                count: s.scene.burst_count,
                speed: s.scene.burst_speed,
                life: s.scene.burst_life,
            };
            let places = fallen(s.before, now);
            &&& t == AppView { before: now, rng: t.rng, particles: t.particles, ..s }
            &&& t.particles == burnt(s.particles + bursts(s.rng, places, burst))
            &&& t.rng == rng_after(s.rng, places.len() * s.scene.burst_count as nat)
        }),
{
    let now = all_seen(s.game.state.store.bodies);
    law_bursts_use_one_stream(s.rng, s.burst(), fallen(s.before, now).len());
}

/// A spark is drawn where it is, in the scene's color but for the green, which fades.
pub proof fn law_spark_is_drawn_where_it_is(p: Particle, camera: Camera, size: u32, color: [u32; 3])
    ensures
        spark_disc(p, camera, size, color).center == on_screen(camera, p.pos),
        spark_disc(p, camera, size, color).color[0] == color[0],
        spark_disc(p, camera, size, color).color[2] == color[2],
{
}

/// A new spark is drawn at its full size and glow and in its full color.
pub proof fn law_new_spark_is_bright(p: Particle, camera: Camera, size: u32, color: [u32; 3])
    requires
        magnitude(p.age) == 0,
        0 < p.life < INFINITY,
        is_finite(size),
        is_finite(color[1]),
    ensures
        spark_disc(p, camera, size, color).radius == sum(size, SMALL),
        spark_disc(p, camera, size, color).glow == NINE_TENTHS,
        spark_disc(p, camera, size, color).color[1] == color[1],
{
    let q = quotient(p.age, p.life);
    law_quotient_keeps_the_sign(p.age, p.life);
    lemma_negated(q);
    law_sum_with_zero(ONE, negated(q));
    law_product_with_one(size);
    law_product_with_one(NINE_TENTHS);
    law_product_with_one(FOUR_TENTHS);
    law_product_with_one(color[1]);
    lemma_six_and_four();
}

/// A spark at the end of its life has no glow, the least size and six tenths of its
/// green.
pub proof fn law_old_spark_is_faint(p: Particle, camera: Camera, size: u32, color: [u32; 3])
    requires
        p.age == p.life,
        0 < p.life < INFINITY,
        is_finite(size),
    ensures
        spark_disc(p, camera, size, color).radius == SMALL,
        magnitude(spark_disc(p, camera, size, color).glow) == 0,
        spark_disc(p, camera, size, color).color[1] == product(color[1], SIX_TENTHS),
{
    let u = units(p.life as nat);
    lemma_units_split(0, 0);
    lemma_units_increase(0, p.life as nat);
    lemma_one();
    law_rounding_exact(ONE, u);
    assert(u * one_units() == one_units() * u) by (nonlinear_arith);
    assert(quotient(p.age, p.life) == ONE);
    lemma_negated(ONE);
    let f = difference(ONE, ONE);
    assert(f == 0);
    law_product_keeps_the_sign(size, f);
    law_product_keeps_the_sign(NINE_TENTHS, f);
    law_product_keeps_the_sign(FOUR_TENTHS, f);
    law_commutative(product(size, f), SMALL);
    law_sum_with_zero(SMALL, product(size, f));
    law_sum_with_zero(SIX_TENTHS, product(FOUR_TENTHS, f));
}

/// A spark shrinks and dims with age: an older one is drawn no larger and no brighter.
#[verifier::spinoff_prover]
pub proof fn law_spark_fades(
    p: Particle,
    q: Particle,
    camera: Camera,
    size: u32,
    color: [u32; 3],
)
    requires
        p.life == q.life,
        0x0080_0000 <= p.life < 0x7000_0000,
        p.age <= q.age <= p.life,
        is_finite(size) && !is_negative(size),
    ensures
        value(spark_disc(q, camera, size, color).glow) <= value(
            spark_disc(p, camera, size, color).glow,
        ),
        value(spark_disc(q, camera, size, color).radius) <= value(
            spark_disc(p, camera, size, color).radius,
        ),
{
    let life = p.life;
    lemma_fading(p.age, life);
    lemma_fading(q.age, life);
    law_order_is_numeric(p.age, q.age);
    law_quotient_is_monotone(p.age, q.age, life);
    let a = quotient(p.age, life);
    let b = quotient(q.age, life);
    law_difference_is_antitone(ONE, a, b);
    let f = difference(ONE, a);
    let g = difference(ONE, b);
    law_commutative(NINE_TENTHS, f);
    law_commutative(NINE_TENTHS, g);
    law_product_is_monotone(g, f, NINE_TENTHS);
    law_commutative(size, f);
    law_commutative(size, g);
    law_product_is_monotone(g, f, size);
    lemma_smaller(f, size);
    lemma_smaller(g, size);
    law_commutative(product(size, f), SMALL);
    law_commutative(product(size, g), SMALL);
    law_sum_is_monotone(SMALL, product(size, g), product(size, f));
}

/// The part of its life that a spark has left is from zero to one.
proof fn lemma_fading(age: u32, life: u32)
    requires
        0 < life < 0x7000_0000,
        age <= life,
    ensures
        ({
            let q = quotient(age, life);
            let f = difference(ONE, q);
            &&& is_finite(q) && 0 <= value(q) <= one_units()
            &&& is_finite(f) && 0 <= value(f) <= one_units()
        }),
{
    let one = one_units();
    let u = units(age as nat);
    let w = units(life as nat);
    lemma_units_split(0, 0);
    lemma_units_increase(0, life as nat);
    lemma_units_increase(age as nat, life as nat);
    lemma_one();
    law_quotient_keeps_the_sign(age, life);
    assert(u * one <= one * w) by (nonlinear_arith)
        requires
            u <= w,
    ;
    law_nearest_exists(u * one, w);
    law_rounding_monotone(u * one, one * w, w);
    law_rounding_exact(ONE, w);
    let q = quotient(age, life);
    lemma_units_increase(magnitude(q) as nat, ONE as nat);
    lemma_negated(q);
    lemma_negated(ONE);
    law_difference_keeps_the_sign(ONE, q);
    lemma_pow2_grows(149, 276);
    law_difference_is_accurate(ONE, q);
    law_sum_moves_on(ONE, negated(q));
}

proof fn lemma_smaller(f: u32, size: u32)
    requires
        is_finite(f),
        0 <= value(f) <= one_units(),
        is_finite(size),
    ensures
        is_finite(product(size, f)),
{
    let one = one_units();
    let u = units(magnitude(f) as nat);
    let w = units(magnitude(size) as nat);
    lemma_pow2_pos(149);
    lemma_units_split(0, 0);
    assert(w * u <= w * one) by (nonlinear_arith)
        requires
            u <= one,
    ;
    law_nearest_exists(w * u, one);
    law_rounding_monotone(w * u, w * one, one);
    law_rounding_exact(magnitude(size), one);
}

/// What pulses swings about its size by four thousandths, up with the wave and down.
pub proof fn law_pulse_swings_with_the_wave(
    pos: [u32; 2],
    look: RenderProfile,
    camera: Camera,
    low: u32,
    high: u32,
)
    requires
        look.pulse,
        is_finite(look.size),
        is_finite(low),
        is_finite(high),
        value(low) <= value(high),
        distance(value(low)) <= one_units(),
        distance(value(high)) <= one_units(),
    ensures
        value(entity_disc(pos, look, camera, low).radius) <= value(
            entity_disc(pos, look, camera, high).radius,
        ),
        magnitude(look.size) != 0 && magnitude(low) == 0 ==> entity_disc(
            pos,
            look,
            camera,
            low,
        ).radius == look.size,
        low == ONE ==> entity_disc(pos, look, camera, low).radius == sum(look.size, 0x3b83_126f),
{
    law_commutative(SMALL, low);
    law_commutative(SMALL, high);
    law_product_is_monotone(low, high, SMALL);
    lemma_swing(low);
    lemma_swing(high);
    law_sum_is_monotone(look.size, product(SMALL, low), product(SMALL, high));
    if magnitude(low) == 0 {
        law_product_keeps_the_sign(SMALL, low);
        if magnitude(look.size) != 0 {
            law_sum_with_zero(look.size, product(SMALL, low));
        }
    }
    law_product_with_one(SMALL);
}

proof fn lemma_swing(wave: u32)
    requires
        is_finite(wave),
        distance(value(wave)) <= one_units(),
    ensures
        is_finite(product(SMALL, wave)),
{
    let one = one_units();
    let u = units(magnitude(wave) as nat);
    let w = units(SMALL as nat);
    lemma_pow2_pos(149);
    assert(w * u <= w * one) by (nonlinear_arith)
        requires
            u <= one,
    ;
    law_nearest_exists(w * u, one);
    law_rounding_monotone(w * u, w * one, one);
    law_rounding_exact(SMALL, one);
}

/// The player reports once in sixty frames: after one report there is another sixty
/// frames on, and none between the two; the first comes with the sixtieth frame.
pub proof fn law_reports_come_every_sixty_frames(frames: u64, k: u64)
    requires
        frames + 60 <= u64::MAX,
        0 < k < 60,
    ensures
        is_due(60),
        is_due(frames) ==> is_due((frames + 60) as u64) && !is_due((frames + k) as u64),
{
}

/// The pulse turns by six radians a second.
pub proof fn law_pulse_turns_six_radians_a_second(time: u32)
    requires
        is_finite(time),
        ordinary(value(time)),
    ensures
        is_finite(angle_at(time)),
        value(time) > 0 <==> value(angle_at(time)) > 0,
        value(time) < 0 <==> value(angle_at(time)) < 0,
        within(distance(value(angle_at(time))), distance(value(time)) * 6, 2),
{
    let one = one_units();
    lemma_units_split(0, 0);
    lemma_units_split(0xc0_0000, 128);
    assert(128 * 0x80_0000 + 0xc0_0000 == PULSE_RATE as nat);
    lemma_pow2_adds(21, 128);
    lemma_pow2_adds(109, 149);
    lemma_pow2_adds(3, 189);
    lemma2_to64();
    lemma_pow2_pos(149);
    lemma_pow2_pos(109);
    assert(units(PULSE_RATE as nat) == 6 * one);
    let u = units(magnitude(time) as nat);
    let w = 6 * one;
    if u != 0 {
        assert(pow2(109) * one <= u * w) by (nonlinear_arith)
            requires
                u >= pow2(109),
                w == 6 * one,
        ;
        assert(u * w <= pow2(192) * one) by (nonlinear_arith)
            requires
                u <= pow2(189),
                w == 6 * one,
                pow2(192) == 8 * pow2(189),
        ;
        assert(u * w != 0) by (nonlinear_arith)
            requires
                u > 0,
                w > 0,
        ;
    } else {
        assert(u * w == 0) by (nonlinear_arith)
            requires
                u == 0,
        ;
    }
    law_product_is_accurate(time, PULSE_RATE, 109, 192);
    law_product_keeps_the_sign(time, PULSE_RATE);
    let r = units(magnitude(angle_at(time)) as nat);
    assert(u * w == (u * 6) * one) by (nonlinear_arith)
        requires
            w == 6 * one,
    ;
    lemma_within_unscaled(r, u * 6, one, 2);
}

/// The player leaves once it has run as many frames as it was to, and draws before.
pub proof fn law_player_leaves_after_its_frames(s: AppView)
    ensures
        s.max_frames is None ==> s.action_due() is Render,
        s.max_frames matches Some(max) ==> s.action_due() == if s.frames < max {
            Action::Render
        } else {
            Action::Exit
        },
{
}

/// The player begins with no key down, nothing seen, no spark, no time gone and no frame
/// run, and shows faults.
pub proof fn law_player_begins_afresh(game: GuestView, scene: SceneView, max_frames: Option<u64>)
    ensures
        ({
            let s = opening(game, scene, max_frames);
            &&& s.game == game && s.scene == scene && s.max_frames == max_frames
            &&& !s.keys.left && !s.keys.right && !s.keys.up && !s.keys.down
            &&& s.before.len() == 0 && s.particles.len() == 0
            &&& s.time == 0 && s.fps == 0 && s.frame_ms == 0 && s.step_ms == 0 && s.frames == 0
            &&& s.debug
            &&& s.rng == 0x1234_5678
        }),
{
}

/// A number times one above zero has the sign of the number.
proof fn lemma_sign_stays(a: u32, b: u32)
    requires
        !is_nan(a),
        0 < b < INFINITY,
    ensures
        !is_nan(product(a, b)),
        is_negative(product(a, b)) == is_negative(a),
{
    lemma_pow2_pos(149);
    law_nearest_exists(units(magnitude(a) as nat) * units(b as nat), one_units());
}

/// Wherever things are: what is to the left of the player is drawn to the left of the
/// center or, if it is too near to tell, at it, and so for every side.
pub proof fn law_screen_keeps_the_sides(camera: Camera, w: [u32; 2])
    requires
        is_finite(camera.player[0]),
        is_finite(camera.player[1]),
        0 < camera.scale < INFINITY,
        0 < camera.aspect < INFINITY,
        is_finite(w[0]),
        is_finite(w[1]),
    ensures
        !is_nan(on_screen(camera, w)[0]),
        !is_nan(on_screen(camera, w)[1]),
        value(w[0]) < value(camera.player[0]) ==> is_negative(on_screen(camera, w)[0]),
        value(w[0]) > value(camera.player[0]) ==> !is_negative(on_screen(camera, w)[0]),
        value(w[1]) < value(camera.player[1]) ==> is_negative(on_screen(camera, w)[1]),
        value(w[1]) > value(camera.player[1]) ==> !is_negative(on_screen(camera, w)[1]),
{
    let dx = difference(w[0], camera.player[0]);
    let dy = difference(w[1], camera.player[1]);
    law_difference_keeps_the_sign(w[0], camera.player[0]);
    law_difference_keeps_the_sign(w[1], camera.player[1]);
    lemma_sign_stays(dx, camera.scale);
    lemma_sign_stays(product(dx, camera.scale), camera.aspect);
    lemma_sign_stays(dy, camera.scale);
}

/// A step of the game runs with the axes as the keys have them: whoever holds right or
/// up goes on at the scene's speed, left or down at its opposite, and both or neither
/// not at all.
#[verifier::spinoff_prover]
pub proof fn law_step_runs_by_the_keys(s: AppView, game: GuestView, outcome: Outcome)
    requires
        s.steps_to(game, outcome),
        is_finite(s.scene.player_speed),
    ensures
        ({
            let axes = game.state.axes;
            let x = seq!['M', 'o', 'v', 'e', 'X'];
            let y = seq!['M', 'o', 'v', 'e', 'Y'];
            let speed = s.scene.player_speed;
            &&& axes.contains_key(x) && axes.contains_key(y)
            &&& s.keys.right && !s.keys.left ==> axes[x] == speed
            &&& s.keys.left && !s.keys.right ==> axes[x] == negated(speed)
            &&& s.keys.left == s.keys.right ==> magnitude(axes[x]) == 0
            &&& s.keys.up && !s.keys.down ==> axes[y] == speed
            &&& s.keys.down && !s.keys.up ==> axes[y] == negated(speed)
            &&& s.keys.up == s.keys.down ==> magnitude(axes[y]) == 0
            &&& game.state.tick_n == s.game.state.tick_n + 1
            &&& game.wasm == s.game.wasm && game.systems == s.game.systems
        }),
{
    let k = s.keys;
    let speed = s.scene.player_speed;
    let start = aimed(s.game, lever(k.right, k.left), lever(k.up, k.down), speed);
    assert(seq!['M', 'o', 'v', 'e', 'X'].len() == 5 && seq!['M', 'o', 'v', 'e', 'Y'].len() == 5);
    law_keys_steer_the_player(s.game, k.right, k.left, k.up, k.down, speed, Seq::empty());
    let ran = lemma_tick_reaches(running(s.game.wasm), start, FRAME_MS, game.world(), outcome);
    law_reaches_keeps(start.state.tick_begun(), ran);
}

} // verus!
