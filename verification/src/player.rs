//! The player: what happens in a frame, in answer to keys, and what is drawn.

use vstd::prelude::*;

use crate::binary32::{
    difference, from_int, is_less, less, minus, nearest_int, over, plus, product, quotient, sum,
    times,
};
use crate::ecs::THOUSAND;
use crate::error::RuntimeError;
use crate::exports::{export_names, lacks_start, tick_names};
use crate::game::{
    aimed, all_seen, player_place, sightings, Game, Sighting, SightingView, FRAME_MS,
};
use crate::guest::GuestView;
use crate::host::running;
use crate::lifecycle::{initialized, loaded, outcome_of, ticked, Outcome};
use crate::particles::{
    add_bursts, burn, burnt, bursts, fallen, find_fallen, noise, noise_of, rng_after_bursts, Burst,
    Particle, FRAME, NINE_TENTHS,
};
use crate::rng::{step32, xorshift32};
use crate::scene::{profile_views, RenderProfile, Scene, SceneView, CAMERA_SCALE, ONE};
use crate::state::fresh;

verus! {

/// One tenth.
pub const TENTH: u32 = 0x3dcc_cccd;

/// Four tenths.
pub const FOUR_TENTHS: u32 = 0x3ecc_cccd;

/// Six tenths.
pub const SIX_TENTHS: u32 = 0x3f19_999a;

/// Four thousandths: the least radius of a spark, and how far a pulse swings.
pub const SMALL: u32 = 0x3b83_126f;

/// Six: the turns of a pulse, in radians a second.
pub const PULSE_RATE: u32 = 0x40c0_0000;

/// The seed of every game that the player loads.
pub const GAME_SEED: u64 = 0x5151_2737;

/// The state in which the player's own generator starts.
pub const NOISE_SEED: u32 = 0x1234_5678;

/// The most that one frame draws.
pub const DISC_CAP: usize = 4096;

/// How often the player reports, in frames.
pub const REPORT_EVERY: u64 = 60;

/// The keys that are down.
#[derive(Clone, Copy, Debug)]
pub struct Keys {
    pub left: bool,
    pub right: bool,
    pub up: bool,
    pub down: bool,
}

/// A key of the keyboard, by its place.
#[derive(Clone, Copy, Debug, PartialEq, Eq, Structural)]
pub enum Key {
    Escape,
    F1,
    ArrowLeft,
    ArrowRight,
    ArrowUp,
    ArrowDown,
    KeyA,
    KeyD,
    KeyW,
    KeyS,
    Other,
}

/// What the window tells the player.
#[derive(Clone, Copy, Debug, PartialEq, Eq, Structural)]
pub enum Input {
    CloseRequested,
    Resized { width: u32, height: u32 },
    Keyboard { key: Key, pressed: bool },
    RedrawRequested,
    Other,
}

/// What the player asks of the window.
#[derive(Clone, Copy, Debug, PartialEq, Eq, Structural)]
pub enum Action {
    Exit,
    Configure { width: u32, height: u32 },
    Render,
    Nothing,
}

/// A disc to draw. Numbers are bit patterns.
#[derive(Clone, Copy, Debug)]
pub struct Disc {
    pub center: [u32; 2],
    pub radius: u32,
    pub glow: u32,
    pub color: [u32; 3],
}

/// What the camera sees: where it is, and how the plane maps onto the screen.
#[derive(Clone, Copy, Debug)]
pub struct Camera {
    pub player: [u32; 2],
    pub scale: u32,
    pub aspect: u32,
}

/// The difference of two keys as a number: minus one, zero or one.
pub open spec fn lever(plus: bool, minus: bool) -> u32 {
    nearest_int((if plus { 1int } else { 0 }) - (if minus { 1int } else { 0 }))
}

/// A mean that follows its input: nine tenths of the old, one of the new.
pub open spec fn smoothed(mean: u32, ms: u32) -> u32 {
    sum(product(mean, NINE_TENTHS), product(ms, TENTH))
}

/// The frames in a second, at a number of milliseconds each.
pub open spec fn rate(frame_ms: u32) -> u32 {
    if is_less(0, frame_ms) {
        quotient(THOUSAND, frame_ms)
    } else {
        0
    }
}

/// The part of the screen that one unit of the plane takes.
pub open spec fn zoom(camera_scale: u32) -> u32 {
    if is_less(ONE, camera_scale) {
        quotient(ONE, camera_scale)
    } else {
        quotient(ONE, CAMERA_SCALE)
    }
}

/// Where a place of the plane is on the screen.
pub open spec fn on_screen(camera: Camera, w: [u32; 2]) -> [u32; 2] {
    [
        product(product(difference(w[0], camera.player[0]), camera.scale), camera.aspect),
        product(difference(w[1], camera.player[1]), camera.scale),
    ]
}

/// How a spark is drawn: it shrinks, dims and reddens with age.
pub open spec fn spark_disc(p: Particle, camera: Camera, size: u32, color: [u32; 3]) -> Disc {
    let f = difference(ONE, quotient(p.age, p.life));
    Disc {
        center: on_screen(camera, p.pos),
        radius: sum(product(size, f), SMALL),
        glow: product(NINE_TENTHS, f),
        color: [
            color[0],
            product(color[1], sum(SIX_TENTHS, product(FOUR_TENTHS, f))),
            color[2],
        ],
    }
}

/// How an entity with a profile is drawn, at a point of the pulse.
pub open spec fn entity_disc(pos: [u32; 2], look: RenderProfile, camera: Camera, wave: u32) -> Disc {
    Disc {
        center: on_screen(camera, pos),
        radius: if look.pulse {
            sum(look.size, product(SMALL, wave))
        } else {
            look.size
        },
        glow: look.glow,
        color: look.color,
    }
}

/// The profile of a tag.
pub open spec fn look_of(profiles: Seq<(Seq<char>, RenderProfile)>, tag: Seq<char>) -> Option<
    RenderProfile,
>
    decreases profiles.len(),
{
    if profiles.len() == 0 {
        None
    } else if profiles[0].0 == tag {
        Some(profiles[0].1)
    } else {
        look_of(profiles.drop_first(), tag)
    }
}

/// How entities are drawn, those that have a profile.
pub open spec fn entity_discs(
    ents: Seq<SightingView>,
    profiles: Seq<(Seq<char>, RenderProfile)>,
    camera: Camera,
    wave: u32,
) -> Seq<Disc>
    decreases ents.len(),
{
    if ents.len() == 0 {
        Seq::empty()
    } else {
        let rest = entity_discs(ents.drop_last(), profiles, camera, wave);
        match look_of(profiles, ents.last().tag) {
            Some(look) => rest.push(entity_disc(ents.last().pos, look, camera, wave)),
            None => rest,
        }
    }
}

/// How sparks are drawn.
pub open spec fn spark_discs(
    list: Seq<Particle>,
    camera: Camera,
    size: u32,
    color: [u32; 3],
) -> Seq<Disc> {
    list.map_values(|p: Particle| spark_disc(p, camera, size, color))
}

/// As many as one frame draws.
pub open spec fn capped(list: Seq<Disc>) -> Seq<Disc> {
    if list.len() <= DISC_CAP {
        list
    } else {
        list.take(DISC_CAP as int)
    }
}

/// The player's state.
pub struct App {
    game: Game,
    scene: Scene,
    keys: Keys,
    /// The seconds since the start, as frames count them.
    time: u32,
    /// What was seen in the frame before.
    before: Vec<Sighting>,
    particles: Vec<Particle>,
    rng: u32,
    debug: bool,
    fps: u32,
    frame_ms: u32,
    step_ms: u32,
    frames: u64,
    max_frames: Option<u64>,
}

/// The player's state as contracts speak of it.
#[verifier::ext_equal]
pub struct AppView {
    pub game: GuestView,
    pub scene: SceneView,
    pub keys: Keys,
    pub time: u32,
    pub before: Seq<SightingView>,
    pub particles: Seq<Particle>,
    pub rng: u32,
    pub debug: bool,
    pub fps: u32,
    pub frame_ms: u32,
    pub step_ms: u32,
    pub frames: u64,
    pub max_frames: Option<u64>,
}

impl View for App {
    type V = AppView;

    closed spec fn view(&self) -> AppView {
        AppView {
            game: self.game@,
            scene: self.scene@,
            keys: self.keys,
            time: self.time,
            before: sightings(self.before@),
            particles: self.particles@,
            rng: self.rng,
            debug: self.debug,
            fps: self.fps,
            frame_ms: self.frame_ms,
            step_ms: self.step_ms,
            frames: self.frames,
            max_frames: self.max_frames,
        }
    }
}

/// No key is down.
pub open spec fn no_keys() -> Keys {
    Keys { left: false, right: false, up: false, down: false }
}

impl Default for Keys {
    fn default() -> (r: Keys)
        ensures
            r == no_keys(),
    {
        Keys { left: false, right: false, up: false, down: false }
    }
}

/// The player before its first frame.
pub open spec fn opening(game: GuestView, scene: SceneView, max_frames: Option<u64>) -> AppView {
    AppView {
        game,
        scene,
        keys: no_keys(),
        time: 0,
        before: Seq::empty(),
        particles: Seq::empty(),
        rng: NOISE_SEED,
        debug: true,
        fps: 0,
        frame_ms: 0,
        step_ms: 0,
        frames: 0,
        max_frames,
    }
}

/// The keys after one was pressed or let go. Letters stand for arrows.
pub open spec fn keys_after(keys: Keys, key: Key, pressed: bool) -> Keys {
    match key {
        Key::ArrowLeft | Key::KeyA => Keys { left: pressed, ..keys },
        Key::ArrowRight | Key::KeyD => Keys { right: pressed, ..keys },
        Key::ArrowUp | Key::KeyW => Keys { up: pressed, ..keys },
        Key::ArrowDown | Key::KeyS => Keys { down: pressed, ..keys },
        _ => keys,
    }
}

/// At least one.
pub open spec fn at_least_one(n: u32) -> u32 {
    if n == 0 {
        1
    } else {
        n
    }
}

impl AppView {
    /// The state after something happened to the window.
    pub open spec fn told(self, input: Input) -> AppView {
        match input {
            Input::Keyboard { key, pressed } => AppView {
                keys: keys_after(self.keys, key, pressed),
                debug: if key is F1 && pressed {
                    !self.debug
                } else {
                    self.debug
                },
                ..self
            },
            _ => self,
        }
    }

    /// The state at the start of a frame, some seconds after the one before.
    pub open spec fn frame_begun(self, since: Option<u32>) -> AppView {
        let timed = match since {
            Some(secs) => {
                let mean = smoothed(self.frame_ms, product(secs, THOUSAND));
                AppView { frame_ms: mean, fps: rate(mean), ..self }
            },
            None => self,
        };
        AppView { time: sum(self.time, FRAME), frames: (self.frames + 1) as u64, ..timed }
    }

    /// Whether a step of the game, moved by the keys that are down, can lead to a game
    /// and end so.
    pub open spec fn steps_to(self, game: GuestView, outcome: Outcome) -> bool {
        let start = aimed(
            self.game,
            lever(self.keys.right, self.keys.left),
            lever(self.keys.up, self.keys.down),
            self.scene.player_speed,
        );
        &&& game == self.game.at(game.world())
        &&& game.state.tick_n == self.game.state.tick_n + 1
        &&& ticked(running(self.game.wasm), start, FRAME_MS, game.world(), outcome)
    }

    /// The state after a step of the game that took some seconds.
    pub open spec fn step_timed(self, secs: u32) -> AppView {
        AppView { step_ms: smoothed(self.step_ms, product(secs, THOUSAND)), ..self }
    }

    /// How the scene's bursts are made.
    pub open spec fn burst(self) -> Burst {
        Burst {
            count: self.scene.burst_count,
            speed: self.scene.burst_speed,
            life: self.scene.burst_life,
        }
    }

    /// The state after what fell has burst and the sparks have burnt on.
    pub open spec fn advanced(self) -> AppView {
        let now = all_seen(self.game.state.store.bodies);
        let places = fallen(self.before, now);
        AppView {
            before: now,
            rng: rng_after_bursts(self.rng, self.burst(), places.len()),
            particles: burnt(self.particles + bursts(self.rng, places, self.burst())),
            ..self
        }
    }

    /// What is asked of the window once a frame is over.
    pub open spec fn action_due(self) -> Action {
        match self.max_frames {
            Some(max) if self.frames >= max => Action::Exit,
            _ => Action::Render,
        }
    }

    /// What is drawn: the sparks, then the entities, as many as one frame draws.
    pub open spec fn drawn(self, aspect: u32, wave: u32) -> Seq<Disc> {
        let camera = Camera {
            player: player_place(self.before),
            scale: zoom(self.scene.camera_scale),
            aspect,
        };
        capped(
            spark_discs(self.particles, camera, self.scene.burst_size, self.scene.burst_color)
                + entity_discs(self.before, self.scene.profiles, camera, wave),
        )
    }
}

/// Whether the player reports after a number of frames.
pub open spec fn is_due(frames: u64) -> bool {
    frames % REPORT_EVERY == 0
}

/// The angle of the pulse at a time, in radians.
pub open spec fn angle_at(time: u32) -> u32 {
    product(time, PULSE_RATE)
}

/// What the player asks of the window in answer.
pub open spec fn action_for(input: Input) -> Action {
    match input {
        Input::CloseRequested => Action::Exit,
        Input::Resized { width, height } => Action::Configure {
            width: at_least_one(width),
            height: at_least_one(height),
        },
        Input::Keyboard { key: Key::Escape, pressed: true } => Action::Exit,
        Input::RedrawRequested => Action::Render,
        _ => Action::Nothing,
    }
}

/// A size with room for at least one pixel.
pub fn surface_size(width: u32, height: u32) -> (r: (u32, u32))
    ensures
        r == (at_least_one(width), at_least_one(height)),
{
    (
        if width == 0 {
            1
        } else {
            width
        },
        if height == 0 {
            1
        } else {
            height
        },
    )
}

/// The width of a surface for each unit of its height.
pub open spec fn aspect(width: u32, height: u32) -> u32 {
    quotient(nearest_int(width as int), nearest_int(height as int))
}

/// The width of a surface for each unit of its height.
pub fn aspect_of(width: u32, height: u32) -> (r: u32)
    ensures
        r == aspect(width, height),
{
    over(from_int(width as i64), from_int(height as i64))
}

fn push_of(plus: bool, minus: bool) -> (r: u32)
    ensures
        r == lever(plus, minus),
{
    let ahead: i64 = if plus {
        1
    } else {
        0
    };
    let back: i64 = if minus {
        1
    } else {
        0
    };
    from_int(ahead - back)
}

fn follow(mean: u32, ms: u32) -> (r: u32)
    ensures
        r == smoothed(mean, ms),
{
    plus(times(mean, NINE_TENTHS), times(ms, TENTH))
}

fn place_on_screen(camera: Camera, w: [u32; 2]) -> (r: [u32; 2])
    ensures
        r == on_screen(camera, w),
{
    [
        times(times(minus(w[0], camera.player[0]), camera.scale), camera.aspect),
        times(minus(w[1], camera.player[1]), camera.scale),
    ]
}

fn draw_spark(p: Particle, camera: Camera, size: u32, color: [u32; 3]) -> (r: Disc)
    ensures
        r == spark_disc(p, camera, size, color),
{
    let f: u32 = minus(ONE, over(p.age, p.life));
    Disc {
        center: place_on_screen(camera, p.pos),
        radius: plus(times(size, f), SMALL),
        glow: times(NINE_TENTHS, f),
        color: [
            color[0],
            times(color[1], plus(SIX_TENTHS, times(FOUR_TENTHS, f))),
            color[2],
        ],
    }
}

fn draw_entity(pos: [u32; 2], look: RenderProfile, camera: Camera, wave: u32) -> (r: Disc)
    ensures
        r == entity_disc(pos, look, camera, wave),
{
    Disc {
        center: place_on_screen(camera, pos),
        radius: if look.pulse {
            plus(look.size, times(SMALL, wave))
        } else {
            look.size
        },
        glow: look.glow,
        color: look.color,
    }
}

impl Scene {
    /// The profile of a tag.
    pub fn look(&self, tag: &String) -> (r: Option<RenderProfile>)
        ensures
            r == look_of(self@.profiles, tag@),
    {
        let ghost all = profile_views(self.profiles@);
        let mut i: usize = 0;
        assert(all.skip(0) =~= all);
        while i < self.profiles.len()
            invariant
                i <= self.profiles.len(),
                all == profile_views(self.profiles@),
                look_of(all, tag@) == look_of(all.skip(i as int), tag@),
            decreases self.profiles.len() - i,
        {
            proof {
                assert(all.skip(i as int)[0] == all[i as int]);
                assert(all.skip(i as int).drop_first() =~= all.skip(i + 1));
            }
            if self.profiles[i].tag == *tag {
                return Some(self.profiles[i].profile);
            }
            i = i + 1;
        }
        None
    }
}

impl App {
    /// The parts of the game belong together.
    pub closed spec fn linked(self) -> bool {
        self.game.linked()
    }

    /// What holds of every player: the parts of its game belong together, its
    /// entities are in order, and its generator never stalls.
    pub open spec fn wf(self) -> bool {
        &&& self.linked()
        &&& self@.game.state.store.wf()
        &&& self@.game.state.rng != 0
    }

    /// Plays a game in a scene. A number of frames ends it.
    pub fn play(game: Game, scene: Scene, max_frames: Option<u64>) -> (r: Self)
        requires
            game.wf(),
        ensures
            r.wf(),
            r@ == opening(game@, scene@, max_frames),
    {
        let app = Self {
            game,
            scene,
            keys: Keys::default(),
            time: 0,
            before: Vec::new(),
            particles: Vec::new(),
            rng: NOISE_SEED,
            debug: true,
            fps: 0,
            frame_ms: 0,
            step_ms: 0,
            frames: 0,
            max_frames,
        };
        assert(app@.before =~= Seq::empty());
        app
    }

    /// Loads a game and plays it in a scene. A number of frames ends it.
    pub fn new(wasm: &[u8], scene: Scene, max_frames: Option<u64>) -> (r: Result<
        Self,
        RuntimeError,
    >)
        ensures
            match r {
                Ok(app) => {
                    &&& app.wf()
                    &&& app@ == opening(app@.game, scene@, max_frames)
                    &&& app@.game.wasm == wasm@
                    &&& app@.game.systems == tick_names(export_names(wasm@))
                    &&& app@.game.state.tick_n == 0
                    &&& exists|host: GuestView|
                        {
                            &&& #[trigger] loaded(running(wasm@), GAME_SEED, host)
                            &&& app@.game == host.at(app@.game.world())
                            &&& lacks_start(wasm@) ==> host.state == fresh(GAME_SEED)
                            &&& initialized(
                                running(wasm@),
                                host,
                                app@.game.world(),
                                Outcome::Done,
                            )
                        }
                },
                Err(RuntimeError::MissingExport(name)) => {
                    &&& name@ == "init"@
                    &&& !(running(wasm@).has)("init"@, 0)
                },
                Err(e) => e is Backend,
            },
    {
        match Game::new(wasm, GAME_SEED) {
            Ok(game) => Ok(Self::play(game, scene, max_frames)),
            Err(e) => Err(e),
        }
    }

    /// The next random number from minus one to one.
    pub fn rand(&mut self) -> (r: u32)
        requires
            old(self).wf(),
        ensures
            final(self).wf(),
            r == noise(xorshift32(old(self)@.rng)),
            final(self)@ == (AppView { rng: xorshift32(old(self)@.rng), ..old(self)@ }),
    {
        self.rng = step32(self.rng);
        noise_of(self.rng)
    }

    /// Takes in what happened to the window and says what to do about it.
    pub fn window_event(&mut self, input: Input) -> (r: Action)
        requires
            old(self).wf(),
        ensures
            final(self).wf(),
            final(self)@ == old(self)@.told(input),
            r == action_for(input),
    {
        match input {
            Input::CloseRequested => Action::Exit,
            Input::Resized { width, height } => {
                let (width, height): (u32, u32) = surface_size(width, height);
                Action::Configure { width, height }
            },
            Input::Keyboard { key, pressed } => {
                match key {
                    Key::Escape => {
                        if pressed {
                            return Action::Exit;
                        }
                    },
                    Key::F1 => {
                        if pressed {
                            self.debug = !self.debug;
                        }
                    },
                    Key::ArrowLeft | Key::KeyA => {
                        self.keys.left = pressed;
                    },
                    Key::ArrowRight | Key::KeyD => {
                        self.keys.right = pressed;
                    },
                    Key::ArrowUp | Key::KeyW => {
                        self.keys.up = pressed;
                    },
                    Key::ArrowDown | Key::KeyS => {
                        self.keys.down = pressed;
                    },
                    Key::Other => {},
                }
                Action::Nothing
            },
            Input::RedrawRequested => Action::Render,
            Input::Other => Action::Nothing,
        }
    }

    /// Begins a frame, some seconds after the one before if there was one.
    pub fn begin_frame(&mut self, since: Option<u32>)
        requires
            old(self).wf(),
            old(self)@.frames < u64::MAX,
        ensures
            final(self).wf(),
            final(self)@ == old(self)@.frame_begun(since),
    {
        self.time = plus(self.time, FRAME);
        match since {
            Some(secs) => {
                self.frame_ms = follow(self.frame_ms, times(secs, THOUSAND));
                self.fps = if less(0, self.frame_ms) {
                    over(THOUSAND, self.frame_ms)
                } else {
                    0
                };
            },
            None => {},
        }
        self.frames = self.frames + 1;
    }

    /// Runs the game for one tick, moved by the keys that are down.
    pub fn step(&mut self) -> (r: Result<(), RuntimeError>)
        requires
            old(self).wf(),
            old(self)@.game.state.tick_n < i64::MAX,
        ensures
            final(self).wf(),
            final(self)@ == (AppView { game: final(self)@.game, ..old(self)@ }),
            old(self)@.steps_to(final(self)@.game, outcome_of(r)),
            r matches Err(e) ==> e is Backend,
    {
        let mx: u32 = push_of(self.keys.right, self.keys.left);
        let my: u32 = push_of(self.keys.up, self.keys.down);
        self.game.step(mx, my, self.scene.player_speed, self.scene.arena)
    }

    /// Takes in how many seconds the step took.
    pub fn step_took(&mut self, secs: u32)
        requires
            old(self).wf(),
        ensures
            final(self).wf(),
            final(self)@ == old(self)@.step_timed(secs),
    {
        self.step_ms = follow(self.step_ms, times(secs, THOUSAND));
    }

    /// Lets what fell burst, and the sparks burn on.
    pub fn advance(&mut self)
        requires
            old(self).wf(),
        ensures
            final(self).wf(),
            final(self)@ == old(self)@.advanced(),
    {
        let (_, now): ([u32; 2], Vec<Sighting>) = self.game.snapshot();
        let places: Vec<[u32; 2]> = find_fallen(&self.before, &now);
        let burst = Burst {
            count: self.scene.burst_count,
            speed: self.scene.burst_speed,
            life: self.scene.burst_life,
        };
        self.rng = add_bursts(self.rng, &places, burst, &mut self.particles);
        self.particles = burn(&self.particles);
        self.before = now;
    }

    /// Whether the player has run as many frames as it was to.
    pub fn finished(&self) -> (r: bool)
        ensures
            r == match self@.max_frames {
                Some(max) => self@.frames >= max,
                None => false,
            },
    {
        match self.max_frames {
            Some(max) => self.frames >= max,
            None => false,
        }
    }

    /// What the player asks of the window once a frame is over: to leave if it has run
    /// as many frames as it was to, and otherwise to draw.
    pub fn frame_action(&self) -> (r: Action)
        ensures
            r == self@.action_due(),
    {
        if self.finished() {
            Action::Exit
        } else {
            Action::Render
        }
    }

    /// Plays a frame, some seconds after the one before if there was one: runs the game
    /// for one tick, takes in how many seconds that took, lets what fell burst and the
    /// sparks burn on, and says what to do then. A game that is stopped ends the frame
    /// there.
    pub fn frame<C: FnOnce() -> u32>(&mut self, since: Option<u32>, took: C) -> (r: Result<
        Action,
        RuntimeError,
    >)
        requires
            old(self).wf(),
            old(self)@.frames < u64::MAX,
            old(self)@.game.state.tick_n < i64::MAX,
            took.requires(()),
        ensures
            final(self).wf(),
            ({
                let begun = old(self)@.frame_begun(since);
                let stepped = AppView { game: final(self)@.game, ..begun };
                match r {
                    Ok(action) => {
                        &&& begun.steps_to(stepped.game, Outcome::Done)
                        &&& exists|secs: u32| #[trigger]
                            took.ensures((), secs) && final(self)@ == stepped.step_timed(
                                secs,
                            ).advanced()
                        &&& action == final(self)@.action_due()
                    },
                    Err(e) => {
                        &&& e is Backend
                        &&& begun.steps_to(stepped.game, Outcome::Stopped)
                        &&& final(self)@ == stepped
                    },
                }
            }),
    {
        self.begin_frame(since);
        match self.step() {
            Ok(()) => {},
            Err(e) => {
                return Err(e);
            },
        }
        let secs: u32 = took();
        self.step_took(secs);
        self.advance();
        Ok(self.frame_action())
    }

    /// Whether the player reports in this frame.
    pub fn reports(&self) -> (r: bool)
        ensures
            r == is_due(self@.frames),
    {
        self.frames % REPORT_EVERY == 0
    }

    /// The angle of the pulse, in radians.
    pub fn pulse_angle(&self) -> (r: u32)
        ensures
            r == angle_at(self@.time),
    {
        times(self.time, PULSE_RATE)
    }

    /// Where the player was last seen.
    pub fn player(&self) -> (r: [u32; 2])
        ensures
            r == player_place(self@.before),
    {
        let duo: String = "shiro-pico".to_owned();
        let ghost all = sightings(self.before@);
        let mut i: usize = self.before.len();
        assert(all.take(i as int) =~= all);
        while i > 0
            invariant
                i <= self.before.len(),
                all == sightings(self.before@),
                duo@ == "shiro-pico"@,
                player_place(all.take(i as int)) == player_place(all),
            decreases i,
        {
            i = i - 1;
            proof {
                assert(all.take(i + 1).drop_last() =~= all.take(i as int));
                assert(all.take(i + 1).last() == all[i as int]);
            }
            if self.before[i].tag == duo {
                return self.before[i].pos;
            }
        }
        [0, 0]
    }

    /// What is drawn on a surface of some aspect, at the sine of the pulse's angle.
    pub fn discs(&self, aspect: u32, wave: u32) -> (r: Vec<Disc>)
        ensures
            r@ == self@.drawn(aspect, wave),
    {
        let scale: u32 = if less(ONE, self.scene.camera_scale) {
            over(ONE, self.scene.camera_scale)
        } else {
            over(ONE, CAMERA_SCALE)
        };
        let camera = Camera { player: self.player(), scale, aspect };
        let size: u32 = self.scene.burst_size;
        let color: [u32; 3] = self.scene.burst_color;
        let mut out: Vec<Disc> = Vec::new();
        let ghost sparks_all = spark_discs(self.particles@, camera, size, color);
        let mut i: usize = 0;
        assert(out@ =~= sparks_all.take(0));
        while i < self.particles.len()
            invariant
                i <= self.particles.len(),
                sparks_all == spark_discs(self.particles@, camera, size, color),
                out@ == sparks_all.take(i as int),
            decreases self.particles.len() - i,
        {
            out.push(draw_spark(self.particles[i], camera, size, color));
            i = i + 1;
            assert(out@ =~= sparks_all.take(i as int));
        }
        assert(sparks_all.take(i as int) =~= sparks_all);
        let ghost ents = sightings(self.before@);
        let ghost profiles = self@.scene.profiles;
        let mut k: usize = 0;
        assert(ents.take(0) =~= Seq::empty());
        assert(out@ =~= sparks_all + entity_discs(ents.take(0), profiles, camera, wave));
        while k < self.before.len()
            invariant
                k <= self.before.len(),
                ents == sightings(self.before@),
                profiles == self.scene@.profiles,
                out@ == sparks_all + entity_discs(ents.take(k as int), profiles, camera, wave),
            decreases self.before.len() - k,
        {
            let s: &Sighting = &self.before[k];
            proof {
                assert(ents.take(k + 1).drop_last() =~= ents.take(k as int));
                assert(ents[k as int] == s@);
            }
            match self.scene.look(&s.tag) {
                Some(look) => {
                    let ghost drawn = entity_discs(ents.take(k as int), profiles, camera, wave);
                    let disc = draw_entity(s.pos, look, camera, wave);
                    assert((sparks_all + drawn).push(disc) =~= sparks_all + drawn.push(disc));
                    out.push(disc);
                },
                None => {},
            }
            k = k + 1;
        }
        assert(ents.take(k as int) =~= ents);
        if out.len() > DISC_CAP {
            out.truncate(DISC_CAP);
        }
        out
    }

    /// The number of live entities.
    pub fn entity_count(&self) -> (r: usize)
        ensures
            r == self@.game.state.store.bodies.len(),
    {
        self.game.entity_count()
    }

    /// The name of the engine that runs the game.
    pub fn backend(&self) -> (r: &'static str)
        ensures
            r@ == "wasmtime"@,
    {
        self.game.backend()
    }

    /// The title of the scene.
    pub fn title(&self) -> (r: &str)
        ensures
            r@ == self@.scene.title,
    {
        self.scene.title.as_str()
    }

    pub fn frames(&self) -> (r: u64)
        ensures
            r == self@.frames,
    {
        self.frames
    }

    /// The number of sparks.
    pub fn particle_count(&self) -> (r: usize)
        ensures
            r == self@.particles.len(),
    {
        self.particles.len()
    }

    /// The frames in a second.
    pub fn fps(&self) -> (r: u32)
        ensures
            r == self@.fps,
    {
        self.fps
    }

    /// The milliseconds that a step takes.
    pub fn step_ms(&self) -> (r: u32)
        ensures
            r == self@.step_ms,
    {
        self.step_ms
    }

    /// The seconds since the start, as frames count them.
    pub fn time(&self) -> (r: u32)
        ensures
            r == self@.time,
    {
        self.time
    }

    /// Whether what helps in finding faults is shown.
    pub fn debug(&self) -> (r: bool)
        ensures
            r == self@.debug,
    {
        self.debug
    }
}

/// A key that is pressed and let go again, where it was up before, leaves the
/// keys as they were.
pub proof fn law_key_comes_back(s: AppView, key: Key)
    requires
        s.keys == no_keys(),
    ensures
        s.told(Input::Keyboard { key, pressed: true }).told(
            Input::Keyboard { key, pressed: false },
        ).keys == s.keys,
{
}

/// A letter does what its arrow does.
pub proof fn law_letters_are_arrows(keys: Keys, pressed: bool)
    ensures
        keys_after(keys, Key::KeyA, pressed) == keys_after(keys, Key::ArrowLeft, pressed),
        keys_after(keys, Key::KeyD, pressed) == keys_after(keys, Key::ArrowRight, pressed),
        keys_after(keys, Key::KeyW, pressed) == keys_after(keys, Key::ArrowUp, pressed),
        keys_after(keys, Key::KeyS, pressed) == keys_after(keys, Key::ArrowDown, pressed),
{
}

/// No frame draws more than it can.
pub proof fn law_frame_is_capped(s: AppView, aspect: u32, wave: u32)
    ensures
        s.drawn(aspect, wave).len() <= DISC_CAP,
{
}

} // verus!
