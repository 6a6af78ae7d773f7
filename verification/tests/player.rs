use kami_script_runtime_rs::game::Game;
use kami_script_runtime_rs::particles::{burn, find_fallen, noise_of, Particle};
use kami_script_runtime_rs::game::Sighting;
use kami_script_runtime_rs::player::{aspect_of, surface_size, Action, App, Input, Key};
use kami_script_runtime_rs::scene::{parse_scene, Scene};
use kami_script_runtime_rs::{KamiHost, RuntimeError};

fn bits(x: f32) -> u32 {
    x.to_bits()
}

fn sized(bytes: &[u8]) -> Vec<u8> {
    assert!(bytes.len() < 0x4000);
    let mut out = if bytes.len() < 0x80 {
        vec![bytes.len() as u8]
    } else {
        vec![(bytes.len() & 0x7f) as u8 | 0x80, (bytes.len() >> 7) as u8]
    };
    out.extend_from_slice(bytes);
    out
}

fn section(id: u8, items: &[Vec<u8>]) -> Vec<u8> {
    let mut body = vec![items.len() as u8];
    for item in items {
        body.extend_from_slice(item);
    }
    let mut out = vec![id];
    out.extend(sized(&body));
    out
}

fn import(module: &str, name: &str, ty: u8) -> Vec<u8> {
    let mut out = sized(module.as_bytes());
    out.extend(sized(name.as_bytes()));
    out.extend([0, ty]);
    out
}

fn f32c(x: f32) -> Vec<u8> {
    let mut out = vec![0x43];
    out.extend(x.to_le_bytes());
    out
}

/// A duo that the axes move, with a ghost at (30, 40) that is despawned in the
/// third tick.
fn duel() -> Vec<u8> {
    let scene = "kami:engine/scene@1.0.0";
    let mut out = b"\0asm\x01\0\0\0".to_vec();
    out.extend(section(
        1,
        &[
            vec![0x60, 2, 0x7f, 0x7f, 1, 0x7e],
            vec![0x60, 1, 0x7e, 0],
            vec![0x60, 4, 0x7e, 0x7d, 0x7d, 0x7d, 0],
            vec![0x60, 2, 0x7f, 0x7f, 1, 0x7d],
            vec![0x60, 0, 1, 0x7e],
            vec![0x60, 1, 0x7e, 1, 0x7e],
        ],
    ));
    out.extend(section(
        2,
        &[
            import(scene, "spawn", 0),
            import(scene, "despawn", 1),
            import(scene, "set-position", 2),
            import(scene, "set-velocity", 2),
            import("kami:engine/input@1.0.0", "axis", 3),
            import("kami:engine/time@1.0.0", "tick", 4),
        ],
    ));
    out.extend(section(3, &[vec![4], vec![5]]));
    out.extend(section(5, &[vec![0, 1]]));
    let mut memory = sized(b"memory");
    memory.extend([2, 0]);
    let mut init = sized(b"init");
    init.extend([0, 6]);
    let mut play = sized(b"play-tick");
    play.extend([0, 7]);
    out.extend(section(7, &[memory, init, play]));
    // "shiro-pico" at 0, "ghost" at 10, "MoveX" at 15, "MoveY" at 20.
    let mut start = vec![0u8];
    start.extend([0x41, 0, 0x41, 10, 0x10, 0, 0x1a, 0x41, 10, 0x41, 5, 0x10, 0]);
    start.extend([f32c(30.0), f32c(40.0), f32c(0.0)].concat());
    start.extend([0x10, 2, 0x42, 0, 0x0b]);
    let mut tick = vec![0u8];
    tick.extend([0x42, 0, 0x41, 15, 0x41, 5, 0x10, 4, 0x41, 20, 0x41, 5, 0x10, 4]);
    tick.extend(f32c(0.0));
    tick.extend([0x10, 3, 0x10, 5, 0x42, 3, 0x51, 0x04, 0x40, 0x42, 1, 0x10, 1, 0x0b]);
    tick.extend([0x42, 0, 0x0b]);
    out.extend(section(10, &[sized(&start), sized(&tick)]));
    let mut data = vec![0, 0x41, 0, 0x0b];
    data.extend(sized(b"shiro-picoghostMoveXMoveY"));
    out.extend(section(11, &[data]));
    out
}

fn scene() -> Scene {
    parse_scene(concat_scene().as_str())
}

fn concat_scene() -> String {
    String::from(
        ":game/title \"xDuel\", :player-speed 100.0, :camera-scale 500.0, \
         :shiro-pico {:color [0.5 0.25 1.0], :size 0.05, :glow 0.5, :pulse true}, \
         :ghost {:color [1.0 1.0 1.0], :size 0.02}, \
         :fx/burst {:count 4.0, :speed 150.0, :life 0.6, :color [1.0 0.5 0.25], :size 0.02}",
    )
}

/// A guest on wasmtime, with less address space set aside for its memory where the
/// machine has too little for the default.
fn load(wasm: &[u8], seed: u64) -> Result<KamiHost, RuntimeError> {
    KamiHost::load(wasm, seed).or_else(|_| KamiHost::load_sparing(wasm, seed))
}

fn app(max_frames: Option<u64>) -> App {
    let host = load(&duel(), 0x5151_2737).expect("load");
    let game = Game::start(host).expect("init");
    App::play(game, scene(), max_frames)
}

fn frame(app: &mut App) {
    app.frame(Some(bits(0.02)), || bits(0.001)).expect("frame");
}

#[test]
fn a_game_is_seen_from_its_player() {
    let host = load(&duel(), 1).expect("load");
    let mut game = Game::start(host).expect("init");
    assert_eq!(game.backend(), "wasmtime");
    assert_eq!(game.entity_count(), 2);
    let (player, seen) = game.snapshot();
    assert_eq!(player, [0, 0]);
    let list: Vec<(&str, [u32; 2], u32)> =
        seen.iter().map(|s| (s.tag.as_str(), s.pos, s.id)).collect();
    assert_eq!(
        list,
        vec![("shiro-pico", [0, 0], 0), ("ghost", [bits(30.0), bits(40.0)], 1)]
    );
    game.step(bits(1.0), bits(-1.0), bits(250.0), bits(460.0)).expect("step");
    let dt = 16i64 as f32 / 1000.0;
    assert_eq!(game.snapshot().0, [bits(250.0 * dt), bits(-250.0 * dt)]);
}

#[test]
fn a_game_that_cannot_be_loaded() {
    assert!(matches!(Game::new(b"nothing", 1), Err(RuntimeError::Backend(_))));
    assert!(matches!(App::new(b"nothing", scene(), None), Err(RuntimeError::Backend(_))));
    // A module without anything has no `init`.
    let empty = b"\0asm\x01\0\0\0";
    assert!(matches!(Game::new(empty, 1), Err(RuntimeError::MissingExport(n)) if n == "init"));
    assert!(matches!(App::new(empty, scene(), None), Err(RuntimeError::MissingExport(_))));
}

#[test]
fn a_game_that_can_be_loaded() {
    // One function, `init`, that answers zero.
    let wasm = b"\0asm\x01\0\0\0\x01\x05\x01\x60\0\x01\x7e\x03\x02\x01\0\x07\x08\x01\x04init\0\0\x0a\x06\x01\x04\0\x42\0\x0b";
    let mut game = Game::new(wasm, 1).expect("load");
    assert_eq!(game.entity_count(), 0);
    game.step(0, 0, 0, 0).expect("step");
    assert_eq!(game.snapshot().0, [0, 0]);
    let app = App::new(wasm, scene(), Some(3)).expect("load");
    assert_eq!(app.title(), "Duel");
    assert_eq!(app.frames(), 0);
    assert!(!app.finished());
    assert!(app.debug());
}

#[test]
fn keys_move_the_player() {
    let mut a = app(None);
    let press = |a: &mut App, key: Key, pressed: bool| {
        assert_eq!(a.window_event(Input::Keyboard { key, pressed }), Action::Nothing);
    };
    press(&mut a, Key::KeyD, true);
    press(&mut a, Key::ArrowDown, true);
    frame(&mut a);
    let dt = 16i64 as f32 / 1000.0;
    let step = 100.0f32 * dt;
    assert_eq!(a.player(), [bits(step), bits(-step)]);
    press(&mut a, Key::ArrowLeft, true);
    press(&mut a, Key::ArrowDown, false);
    frame(&mut a);
    assert_eq!(a.player(), [bits(step), bits(-step)], "opposite keys cancel");
    press(&mut a, Key::ArrowRight, false);
    press(&mut a, Key::KeyW, true);
    frame(&mut a);
    assert_eq!(a.player(), [bits(step - step), bits(-step + step)]);
}

#[test]
fn the_window_is_answered() {
    let mut a = app(None);
    let key = |key: Key, pressed: bool| Input::Keyboard { key, pressed };
    assert_eq!(a.window_event(Input::CloseRequested), Action::Exit);
    assert_eq!(a.window_event(key(Key::Escape, true)), Action::Exit);
    assert_eq!(a.window_event(key(Key::Escape, false)), Action::Nothing);
    assert_eq!(a.window_event(Input::RedrawRequested), Action::Render);
    assert_eq!(a.window_event(Input::Other), Action::Nothing);
    assert_eq!(a.window_event(key(Key::Other, true)), Action::Nothing);
    assert_eq!(
        a.window_event(Input::Resized { width: 0, height: 7 }),
        Action::Configure { width: 1, height: 7 }
    );
    assert!(a.debug());
    assert_eq!(a.window_event(key(Key::F1, true)), Action::Nothing);
    assert!(!a.debug());
    assert_eq!(a.window_event(key(Key::F1, false)), Action::Nothing);
    assert!(!a.debug());
    a.window_event(key(Key::F1, true));
    assert!(a.debug());
}

#[test]
fn surfaces_have_a_pixel_and_an_aspect() {
    assert_eq!(surface_size(0, 0), (1, 1));
    assert_eq!(surface_size(1280, 800), (1280, 800));
    assert_eq!(aspect_of(1280, 800), bits(1280u32 as f32 / 800u32 as f32));
    assert_eq!(aspect_of(1, 3), bits(1.0 / 3.0));
}

#[test]
fn frames_are_timed() {
    let mut a = app(Some(2));
    a.begin_frame(None);
    assert_eq!((a.fps(), a.frames()), (0, 1));
    assert_eq!(a.time(), bits(0.0 + 0.016));
    assert!(!a.finished());
    assert_eq!(a.frame_action(), Action::Render);
    a.begin_frame(Some(bits(0.0166)));
    let mean = 0.0f32 * 0.9 + (0.0166f32 * 1000.0) * 0.1;
    assert_eq!(a.fps(), bits(1000.0 / mean));
    assert_eq!(a.time(), bits(0.016 + 0.016));
    assert!(a.finished());
    assert_eq!(a.frame_action(), Action::Exit);
    a.step_took(bits(0.002));
    let took = 0.0f32 * 0.9 + 0.002f32 * 1000.0 * 0.1;
    assert_eq!(a.step_ms(), bits(took));
    a.step_took(bits(0.004));
    assert_eq!(a.step_ms(), bits(took * 0.9 + 0.004f32 * 1000.0 * 0.1));
    assert_eq!(a.pulse_angle(), bits((0.016f32 + 0.016) * 6.0));
}

#[test]
fn a_frame_is_its_parts_in_order() {
    let mut a = app(Some(4));
    let mut b = app(Some(4));
    for i in 0..4 {
        let since = if i == 0 { None } else { Some(bits(0.02)) };
        let action = a.frame(since, || bits(0.003)).expect("frame");
        b.begin_frame(since);
        b.step().expect("step");
        b.step_took(bits(0.003));
        b.advance();
        assert_eq!(action, b.frame_action());
        assert_eq!(action, if i == 3 { Action::Exit } else { Action::Render });
        assert_eq!((a.frames(), a.time(), a.fps()), (b.frames(), b.time(), b.fps()));
        assert_eq!((a.step_ms(), a.player()), (b.step_ms(), b.player()));
        assert_eq!((a.entity_count(), a.particle_count()), (b.entity_count(), b.particle_count()));
    }
    assert_eq!((a.frames(), a.entity_count(), a.particle_count()), (4, 1, 4));
}

#[test]
fn a_game_that_is_stopped_ends_the_frame() {
    // `init` answers zero; `stop-tick` is stopped at once.
    let mut wasm = b"\0asm\x01\0\0\0".to_vec();
    wasm.extend(section(1, &[vec![0x60, 0, 1, 0x7e], vec![0x60, 1, 0x7e, 1, 0x7e]]));
    wasm.extend(section(3, &[vec![0], vec![1]]));
    let mut init = sized(b"init");
    init.extend([0, 0]);
    let mut stop = sized(b"stop-tick");
    stop.extend([0, 1]);
    wasm.extend(section(7, &[init, stop]));
    wasm.extend(section(10, &[sized(&[0, 0x42, 0, 0x0b]), sized(&[0, 0, 0x0b])]));
    let mut a = App::new(&wasm, scene(), None).expect("load");
    let r = a.frame(None, || panic!("a step that is stopped is not timed"));
    assert!(matches!(r, Err(RuntimeError::Backend(_))));
    assert_eq!((a.frames(), a.step_ms()), (1, 0));
    assert_eq!(a.time(), bits(0.016));
}

#[test]
fn reports_come_once_a_second() {
    let mut a = app(None);
    let mut due = Vec::new();
    for i in 1..=120u64 {
        a.begin_frame(None);
        if a.reports() {
            due.push(i);
        }
    }
    assert_eq!(due, vec![60, 120]);
}

fn next(x: &mut u32) -> f32 {
    *x ^= *x << 13;
    *x ^= *x >> 17;
    *x ^= *x << 5;
    (*x as f32 / u32::MAX as f32) * 2.0 - 1.0
}

#[test]
fn noise_is_between_minus_one_and_one() {
    let mut x: u32 = 0x1234_5678;
    let mut a = app(None);
    for _ in 0..100 {
        let n = next(&mut x);
        assert!((-1.0..=1.0).contains(&n));
        assert_eq!(noise_of(x), bits(n));
        assert_eq!(a.rand(), bits(n));
    }
}

#[test]
fn a_ghost_that_falls_bursts() {
    let mut a = app(None);
    frame(&mut a);
    frame(&mut a);
    assert_eq!((a.particle_count(), a.entity_count()), (0, 2));
    frame(&mut a);
    assert_eq!((a.particle_count(), a.entity_count()), (4, 1));

    // The same sparks, one by one.
    let mut x: u32 = 0x1234_5678;
    let discs = a.discs(bits(1.0), bits(0.0));
    assert_eq!(discs.len(), 5);
    let scale = 1.0f32 / 500.0;
    for disc in &discs[..4] {
        let vx = next(&mut x) * 150.0;
        let vy = next(&mut x) * 150.0;
        let life = 0.6f32 * (0.7 + next(&mut x).abs() * 0.6);
        let age = 0.0f32 + 0.016;
        let (px, py) = (30.0f32 + vx * 0.016, 40.0f32 + vy * 0.016);
        let f = 1.0 - age / life;
        assert_eq!(disc.center, [bits((px - 0.0) * scale * 1.0), bits((py - 0.0) * scale)]);
        assert_eq!(disc.radius, bits(0.02 * f + 0.004));
        assert_eq!(disc.glow, bits(0.9 * f));
        assert_eq!(disc.color, [bits(1.0), bits(0.5 * (0.6 + 0.4 * f)), bits(0.25)]);
    }
    let duo = &discs[4];
    assert_eq!(duo.center, [bits(0.0), bits(0.0)]);
    assert_eq!((duo.radius, duo.glow), (bits(0.05 + 0.004 * 0.0), bits(0.5)));
    assert_eq!(duo.color, [bits(0.5), bits(0.25), bits(1.0)]);

    for _ in 0..80 {
        frame(&mut a);
    }
    assert_eq!(a.particle_count(), 0, "sparks burn out");
}

#[test]
fn a_pulse_swings_the_radius() {
    let mut a = app(None);
    frame(&mut a);
    let wave = f32::from_bits(a.pulse_angle()).sin();
    let discs = a.discs(bits(1.6), bits(wave));
    assert_eq!(discs[0].radius, bits(0.05 + 0.004 * wave));
    assert_eq!(discs[1].radius, bits(0.02));
    let scale = 1.0f32 / 500.0;
    assert_eq!(discs[1].center, [bits((30.0 - 0.0) * scale * 1.6), bits((40.0 - 0.0) * scale)]);
}

#[test]
fn what_has_no_profile_is_not_drawn() {
    let host = load(&duel(), 1).expect("load");
    let game = Game::start(host).expect("init");
    let mut a = App::play(game, parse_scene(":ghost {:size 0.5}, :camera-scale 1.0"), None);
    frame(&mut a);
    let discs = a.discs(bits(1.0), bits(0.0));
    assert_eq!(discs.len(), 1);
    assert_eq!(discs[0].radius, bits(0.5));
    let scale = 1.0f32 / 620.0;
    assert_eq!(discs[0].center[0], bits(30.0 * scale * 1.0), "a scale of one or less is 620");
}

#[test]
fn a_frame_draws_no_more_than_it_can() {
    let host = load(&duel(), 1).expect("load");
    let game = Game::start(host).expect("init");
    let mut a = App::play(game, parse_scene(":fx/burst {:count 5000}"), None);
    for _ in 0..3 {
        frame(&mut a);
    }
    assert_eq!(a.particle_count(), 5000);
    assert_eq!(a.discs(bits(1.0), bits(0.0)).len(), 4096);
}

fn sighting(tag: &str, id: u32) -> Sighting {
    Sighting { tag: String::from(tag), pos: [bits(id as f32), 0], id }
}

#[test]
fn only_ghosts_that_are_gone_have_fallen() {
    let before = vec![sighting("ghost", 1), sighting("enemy", 2), sighting("ghost", 3), sighting("ghost", 4)];
    let now = vec![sighting("ghost", 3), sighting("ghost", 9)];
    assert_eq!(find_fallen(&before, &now), vec![[bits(1.0), 0], [bits(4.0), 0]]);
    assert!(find_fallen(&before, &before).is_empty());
    assert!(find_fallen(&[].into(), &now).is_empty());
}

#[test]
fn sparks_age_slow_down_and_go_out() {
    let p = Particle {
        pos: [bits(1.0), bits(2.0)],
        vel: [bits(10.0), bits(-20.0)],
        age: bits(0.5),
        life: bits(0.53),
    };
    let out = burn(&vec![p]);
    assert_eq!(out.len(), 1);
    assert_eq!(out[0].age, bits(0.5 + 0.016));
    assert_eq!(out[0].pos, [bits(1.0 + 10.0 * 0.016), bits(2.0 + -20.0 * 0.016)]);
    assert_eq!(out[0].vel, [bits(10.0 * 0.90), bits(-20.0 * 0.90)]);
    assert_eq!(burn(&out).len(), 0);
}
