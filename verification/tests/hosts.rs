//! Guests assembled by hand, run on both engines.

use kami_script_runtime_rs::host::{init_outcome, system_outcome};
use kami_script_runtime_rs::wasmi_host;
use kami_script_runtime_rs::{ordered_tick_exports, KamiHost, KamiHostWasmi, RuntimeError};

const I32: u8 = 0x7f;
const I64: u8 = 0x7e;
const F32: u8 = 0x7d;

const SPAWN: u64 = 0;
const DESPAWN: u64 = 1;
const SET_POSITION: u64 = 2;
const SET_VELOCITY: u64 = 3;
const GET_X: u64 = 4;
const GET_Y: u64 = 5;
const COUNT_TAGGED: u64 = 6;
const QUERY_BEGIN: u64 = 7;
const QUERY_NEXT: u64 = 8;
const NEAREST: u64 = 9;
const MOVE_TOWARD: u64 = 10;
const AXIS: u64 = 11;
const RANDOM_INT: u64 = 12;
const TICK: u64 = 13;

/// The imports in the order in which every guest here declares them.
fn imports() -> Vec<(&'static str, &'static str, Vec<u8>, Vec<u8>)> {
    let scene = "kami:engine/scene@1.0.0";
    vec![
        (scene, "spawn", vec![I32, I32], vec![I64]),
        (scene, "despawn", vec![I64], vec![]),
        (scene, "set-position", vec![I64, F32, F32, F32], vec![]),
        (scene, "set-velocity", vec![I64, F32, F32, F32], vec![]),
        (scene, "get-x", vec![I64], vec![F32]),
        (scene, "get-y", vec![I64], vec![F32]),
        (scene, "count-tagged", vec![I32, I32], vec![I64]),
        (scene, "query-begin", vec![I32, I32], vec![I64]),
        (scene, "query-next", vec![I64], vec![I64]),
        (scene, "nearest", vec![I32, I32, F32, F32, F32], vec![I64]),
        (scene, "move-toward", vec![I64, I64, F32], vec![]),
        ("kami:engine/input@1.0.0", "axis", vec![I32, I32], vec![F32]),
        ("kami:engine/random@1.0.0", "int", vec![I64], vec![I64]),
        ("kami:engine/time@1.0.0", "tick", vec![], vec![I64]),
    ]
}

fn uleb(mut n: u64) -> Vec<u8> {
    let mut out = Vec::new();
    loop {
        let byte = (n & 0x7f) as u8;
        n >>= 7;
        if n == 0 {
            out.push(byte);
            return out;
        }
        out.push(byte | 0x80);
    }
}

fn sleb(mut n: i64) -> Vec<u8> {
    let mut out = Vec::new();
    loop {
        let byte = (n & 0x7f) as u8;
        n >>= 7;
        if (n == 0 && byte & 0x40 == 0) || (n == -1 && byte & 0x40 != 0) {
            out.push(byte);
            return out;
        }
        out.push(byte | 0x80);
    }
}

fn sized(bytes: &[u8]) -> Vec<u8> {
    let mut out = uleb(bytes.len() as u64);
    out.extend_from_slice(bytes);
    out
}

fn section(id: u8, items: &[Vec<u8>]) -> Vec<u8> {
    let mut body = uleb(items.len() as u64);
    for item in items {
        body.extend_from_slice(item);
    }
    let mut out = vec![id];
    out.extend(sized(&body));
    out
}

fn signature(params: &[u8], results: &[u8]) -> Vec<u8> {
    let mut out = vec![0x60];
    out.extend(sized(params));
    out.extend(sized(results));
    out
}

/// A function of a guest: its export name, its types, its 64-bit locals beyond the
/// parameters, its code.
struct Function {
    name: &'static str,
    params: Vec<u8>,
    results: Vec<u8>,
    locals: u64,
    code: Vec<u8>,
}

fn init(locals: u64, code: Vec<u8>) -> Function {
    Function { name: "init", params: vec![], results: vec![I64], locals, code }
}

fn system(name: &'static str, locals: u64, code: Vec<u8>) -> Function {
    Function { name, params: vec![I64], results: vec![I64], locals, code }
}

/// The texts that every guest has in memory, one after the other.
const TEXTS: &str = "shiro-picoghostenemyplayerMoveXMoveYbeat-spark";

fn text(t: &str) -> Vec<u8> {
    let at = TEXTS.find(t).expect("a known text");
    let mut out = i32c(at as i32);
    out.extend(i32c(t.len() as i32));
    out
}

/// A module with every import, one page of memory with [`TEXTS`] in it, and some
/// functions.
fn module(functions: &[Function]) -> Vec<u8> {
    assemble(functions, true, None)
}

fn assemble(functions: &[Function], export_memory: bool, start: Option<u64>) -> Vec<u8> {
    let imports = imports();
    let mut types = Vec::new();
    let mut import_items = Vec::new();
    for (i, (m, n, params, results)) in imports.iter().enumerate() {
        types.push(signature(params, results));
        let mut item = sized(m.as_bytes());
        item.extend(sized(n.as_bytes()));
        item.push(0);
        item.extend(uleb(i as u64));
        import_items.push(item);
    }
    let mut function_items = Vec::new();
    let mut export_items = Vec::new();
    let mut code_items = Vec::new();
    if export_memory {
        let mut item = sized(b"memory");
        item.extend([2, 0]);
        export_items.push(item);
    }
    for (i, f) in functions.iter().enumerate() {
        function_items.push(uleb(types.len() as u64));
        types.push(signature(&f.params, &f.results));
        let mut item = sized(f.name.as_bytes());
        item.push(0);
        item.extend(uleb((imports.len() + i) as u64));
        export_items.push(item);
        let mut body = if f.locals > 0 {
            let mut l = vec![1];
            l.extend(uleb(f.locals));
            l.push(I64);
            l
        } else {
            vec![0]
        };
        body.extend_from_slice(&f.code);
        body.push(0x0b);
        code_items.push(sized(&body));
    }
    let mut out = b"\0asm\x01\0\0\0".to_vec();
    out.extend(section(1, &types));
    out.extend(section(2, &import_items));
    out.extend(section(3, &function_items));
    out.extend(section(5, &[vec![0, 1]]));
    out.extend(section(7, &export_items));
    if let Some(f) = start {
        out.push(8);
        out.extend(sized(&uleb(f)));
    }
    out.extend(section(10, &code_items));
    let mut data = vec![0, 0x41, 0, 0x0b];
    data.extend(sized(TEXTS.as_bytes()));
    out.extend(section(11, &[data]));
    out
}

fn i32c(n: i32) -> Vec<u8> {
    let mut out = vec![0x41];
    out.extend(sleb(n as i64));
    out
}

fn i64c(n: i64) -> Vec<u8> {
    let mut out = vec![0x42];
    out.extend(sleb(n));
    out
}

fn f32c(x: f32) -> Vec<u8> {
    let mut out = vec![0x43];
    out.extend(x.to_le_bytes());
    out
}

fn call(f: u64) -> Vec<u8> {
    let mut out = vec![0x10];
    out.extend(uleb(f));
    out
}

fn get(local: u8) -> Vec<u8> {
    vec![0x20, local]
}

fn set(local: u8) -> Vec<u8> {
    vec![0x21, local]
}

fn code(parts: &[Vec<u8>]) -> Vec<u8> {
    parts.concat()
}

const TO_F32: u8 = 0xb4;

/// Code that runs where the 64-bit integer on the stack is not -1.
fn unless_none(then: &[Vec<u8>]) -> Vec<u8> {
    let mut out = i64c(-1);
    out.extend([0x52, 0x04, 0x40]);
    out.extend(then.concat());
    out.push(0x0b);
    out
}

/// One player at the origin, three enemies, and a weapon that despawns the nearest
/// enemy within fifty each tick.
fn weapon_scene() -> Vec<u8> {
    module(&[
        init(
            1,
            code(&[
                text("player"),
                call(SPAWN),
                set(0),
                get(0),
                f32c(0.0),
                f32c(0.0),
                f32c(0.0),
                call(SET_POSITION),
                text("enemy"),
                call(SPAWN),
                vec![0x1a],
                text("enemy"),
                call(SPAWN),
                vec![0x1a],
                text("enemy"),
                call(SPAWN),
            ]),
        ),
        system(
            "weapon-tick",
            1,
            code(&[
                text("enemy"),
                f32c(0.0),
                f32c(0.0),
                f32c(50.0),
                call(NEAREST),
                set(1),
                get(1),
                unless_none(&[get(1), call(DESPAWN)]),
                i64c(0),
            ]),
        ),
    ])
}

/// A duo that the axes move, ghosts that spawn at random places every fifteenth
/// tick and follow it, and a weapon that despawns the nearest.
fn survivors() -> Vec<u8> {
    let place = |range: i64| {
        code(&[i64c(range), call(RANDOM_INT), i64c(range / 2), vec![0x7d], vec![TO_F32]])
    };
    module(&[
        init(0, code(&[text("shiro-pico"), call(SPAWN)])),
        system(
            "player-tick",
            0,
            code(&[
                i64c(0),
                text("MoveX"),
                call(AXIS),
                text("MoveY"),
                call(AXIS),
                f32c(0.0),
                call(SET_VELOCITY),
                i64c(0),
            ]),
        ),
        system(
            "spawn-tick",
            1,
            code(&[
                call(TICK),
                i64c(15),
                vec![0x81, 0x50, 0x04, 0x40],
                text("ghost"),
                call(COUNT_TAGGED),
                i64c(119),
                vec![0x53, 0x04, 0x40],
                text("ghost"),
                call(SPAWN),
                set(1),
                get(1),
                place(800),
                place(600),
                f32c(0.0),
                call(SET_POSITION),
                vec![0x0b, 0x0b],
                i64c(0),
            ]),
        ),
        system(
            "chase-tick",
            2,
            code(&[
                text("ghost"),
                call(QUERY_BEGIN),
                set(1),
                vec![0x02, 0x40, 0x03, 0x40],
                get(1),
                call(QUERY_NEXT),
                set(2),
                get(2),
                i64c(-1),
                vec![0x51, 0x0d, 1],
                get(2),
                i64c(0),
                f32c(37.5),
                call(MOVE_TOWARD),
                vec![0x0c, 0, 0x0b, 0x0b],
                i64c(0),
            ]),
        ),
        system(
            "weapon-tick",
            1,
            code(&[
                text("ghost"),
                i64c(0),
                call(GET_X),
                i64c(0),
                call(GET_Y),
                f32c(30.0),
                call(NEAREST),
                set(1),
                get(1),
                unless_none(&[get(1), call(DESPAWN)]),
                i64c(0),
            ]),
        ),
    ])
}

/// A guest on wasmtime, with less address space set aside for its memory where the
/// machine has too little for the default.
fn load(wasm: &[u8], seed: u64) -> Result<KamiHost, RuntimeError> {
    KamiHost::load(wasm, seed).or_else(|_| KamiHost::load_sparing(wasm, seed))
}

fn bits(x: f32) -> u32 {
    x.to_bits()
}

#[test]
fn survivors_core_loop_evolves() {
    let mut host = load(&survivors(), 7).expect("load+instantiate");
    host.call_init().expect("call init");

    for _ in 0..300 {
        host.tick(16).expect("tick");
    }

    assert_eq!(host.tagged_count("shiro-pico"), 1, "exactly one duo");
    assert!(host.tagged_count("ghost") > 0, "wave spawning produced ghosts");
    assert!(host.tagged_count("ghost") < 120, "alive count stays under max-alive");

    let moved = host
        .debug_dump()
        .into_iter()
        .filter(|(_, tag, ..)| tag == "ghost")
        .any(|(_, _, pos, _)| f32::from_bits(pos[0]) != 0.0 || f32::from_bits(pos[1]) != 0.0);
    assert!(moved, "at least one ghost should have moved from (0,0)");
}

#[test]
fn weapon_culls_a_synthetic_scene() {
    let mut host = load(&weapon_scene(), 1).expect("load+instantiate");
    host.call_init().expect("call init");
    assert_eq!(host.tagged_count("enemy"), 3);
    host.tick(16).expect("tick");
    assert_eq!(host.tagged_count("enemy"), 2, "one culled per fire");
}

#[test]
fn weapon_culls_until_nothing_is_left() {
    let mut wt = load(&weapon_scene(), 1).expect("load");
    let mut wi = KamiHostWasmi::load(&weapon_scene(), 1).expect("load");
    wt.call_init().expect("init");
    wi.call_init().expect("init");
    for left in [2usize, 1, 0, 0] {
        wt.tick(16).expect("tick");
        wi.tick(16).expect("tick");
        assert_eq!(wt.tagged_count("enemy"), left);
        assert_eq!(wi.tagged_count("enemy"), left);
        assert_eq!(wt.entity_count(), left + 1);
        assert_eq!(wi.entity_count(), left + 1);
    }
}

#[test]
fn wasmtime_and_wasmi_agree_after_200_ticks() {
    let wasm = survivors();

    let mut wt = load(&wasm, 42).expect("load wasmtime");
    wt.call_init().expect("init wasmtime");
    let mut wi = KamiHostWasmi::load(&wasm, 42).expect("load wasmi");
    wi.call_init().expect("init wasmi");

    assert_eq!(wt.engine_backend(), "wasmtime");
    assert_eq!(wi.engine_backend(), "wasmi");

    for _ in 0..200 {
        wt.tick(16).expect("tick wasmtime");
        wi.tick(16).expect("tick wasmi");
    }

    assert_eq!(wt.entity_count(), wi.entity_count(), "entity_count diverged");
    assert_eq!(wt.tagged_count("ghost"), wi.tagged_count("ghost"), "ghost count diverged");
    assert_eq!(
        wt.tagged_count("shiro-pico"),
        wi.tagged_count("shiro-pico"),
        "shiro-pico count diverged"
    );

    let mut a = wt.debug_dump();
    let mut b = wi.debug_dump();
    a.sort_by_key(|(id, ..)| *id);
    b.sort_by_key(|(id, ..)| *id);
    assert_eq!(a.len(), b.len(), "entity count mismatch in dumps");
    for ((id_a, tag_a, pos_a, vel_a), (id_b, tag_b, pos_b, vel_b)) in a.iter().zip(b.iter()) {
        assert_eq!(id_a, id_b, "entity id order diverged");
        assert_eq!(tag_a, tag_b, "tag diverged for entity {id_a}");
        assert_eq!(pos_a, pos_b, "position diverged for entity {id_a} ({tag_a})");
        assert_eq!(vel_a, vel_b, "velocity diverged for entity {id_a} ({tag_a})");
    }
}

#[test]
fn the_same_seed_gives_the_same_run() {
    let run = |seed: u64| {
        let mut host = load(&survivors(), seed).expect("load");
        host.call_init().expect("init");
        host.set_axis("MoveX", bits(12.5));
        for _ in 0..120 {
            host.tick(16).expect("tick");
        }
        host.debug_dump()
    };
    assert_eq!(run(42), run(42));
    assert_eq!(run(42), run(43), "an even seed starts as the odd one above it");
    assert_ne!(run(42), run(44));
}

#[test]
fn axes_move_the_player() {
    let mut host = load(&survivors(), 7).expect("load");
    host.call_init().expect("init");
    host.set_axis("MoveX", bits(100.0));
    host.set_axis("MoveY", bits(-50.0));
    host.tick(16).expect("tick");
    let (id, tag, pos, vel) = host.debug_dump().remove(0);
    assert_eq!(id, 0);
    assert_eq!(tag, "shiro-pico");
    assert_eq!(vel, [bits(100.0), bits(-50.0), bits(0.0)]);
    let dt = 16i64 as f32 / 1000.0;
    assert_eq!(pos, [bits(100.0 * dt), bits(-50.0 * dt), bits(0.0)]);
}

#[test]
fn integrate_moves_without_running_the_guest() {
    let mut wt = load(&survivors(), 7).expect("load");
    let mut wi = KamiHostWasmi::load(&survivors(), 7).expect("load");
    wt.call_init().expect("init");
    wi.call_init().expect("init");
    wt.set_axis("MoveX", bits(3.0));
    wi.set_axis("MoveX", bits(3.0));
    wt.tick(1000).expect("tick");
    wi.tick(1000).expect("tick");
    assert_eq!(wt.debug_dump()[0].2[0], bits(3.0));
    wt.integrate(500);
    wi.integrate(500);
    assert_eq!(wt.debug_dump()[0].2[0], bits(4.5));
    assert_eq!(wt.debug_dump(), wi.debug_dump());
}

#[test]
fn systems_run_in_the_order_of_definition_and_see_the_new_tick() {
    // Each system puts down where it stands: x is ten times what was there plus its
    // own digit, y is the tick.
    let mark = |digit: f32| {
        code(&[
            i64c(0),
            i64c(0),
            call(GET_X),
            f32c(10.0),
            vec![0x94],
            f32c(digit),
            vec![0x92],
            call(TICK),
            vec![TO_F32],
            f32c(0.0),
            call(SET_POSITION),
            i64c(0),
        ])
    };
    let wasm = module(&[
        system("second-tick", 0, mark(1.0)),
        init(0, code(&[text("player"), call(SPAWN)])),
        system("another", 0, mark(9.0)),
        system("first-tick", 0, mark(2.0)),
        system("zero-tick", 0, mark(3.0)),
    ]);
    assert_eq!(ordered_tick_exports(&wasm), vec!["second-tick", "first-tick", "zero-tick"]);
    let mut wt = load(&wasm, 1).expect("load");
    let mut wi = KamiHostWasmi::load(&wasm, 1).expect("load");
    wt.call_init().expect("init");
    wi.call_init().expect("init");
    wt.tick(16).expect("tick");
    wi.tick(16).expect("tick");
    assert_eq!(wt.debug_dump()[0].2, [bits(123.0), bits(1.0), bits(0.0)]);
    wt.tick(16).expect("tick");
    wi.tick(16).expect("tick");
    assert_eq!(wt.debug_dump()[0].2, [bits(123123.0), bits(2.0), bits(0.0)]);
    assert_eq!(wt.debug_dump(), wi.debug_dump());
}

#[test]
fn what_is_not_a_module_is_refused() {
    for wasm in [&b""[..], b"\0asm", b"\0asm\x01\0\0\0\x01", b"not a module"] {
        let e = load(wasm, 1).err().expect("refused");
        assert!(matches!(e, RuntimeError::Backend(_)));
        assert!(e.message().starts_with("wasm backend error: "));
        assert!(e.message().len() > "wasm backend error: ".len());
        let e = KamiHostWasmi::load(wasm, 1).err().expect("refused");
        assert!(matches!(e, RuntimeError::Interpreter(_)));
        assert!(e.message().starts_with("wasm backend error: "));
        assert!(e.message().len() > "wasm backend error: ".len());
    }
}

#[test]
fn an_import_that_nobody_defines_is_refused() {
    let mut wasm = b"\0asm\x01\0\0\0".to_vec();
    wasm.extend(section(1, &[signature(&[], &[])]));
    let mut item = sized(b"kami:engine/audio@1.0.0");
    item.extend(sized(b"play"));
    item.extend([0, 0]);
    wasm.extend(section(2, &[item]));
    assert!(matches!(load(&wasm, 1), Err(RuntimeError::Backend(_))));
    assert!(matches!(KamiHostWasmi::load(&wasm, 1), Err(RuntimeError::Interpreter(_))));
}

#[test]
fn an_import_of_another_type_is_refused() {
    let mut wasm = b"\0asm\x01\0\0\0".to_vec();
    wasm.extend(section(1, &[signature(&[I64], &[I64])]));
    let mut item = sized(b"kami:engine/time@1.0.0");
    item.extend(sized(b"tick"));
    item.extend([0, 0]);
    wasm.extend(section(2, &[item]));
    assert!(matches!(load(&wasm, 1), Err(RuntimeError::Backend(_))));
    assert!(matches!(KamiHostWasmi::load(&wasm, 1), Err(RuntimeError::Interpreter(_))));
}

#[test]
fn a_guest_without_init_is_told_so() {
    let wasm = module(&[system("idle-tick", 0, i64c(0))]);
    let mut wt = load(&wasm, 1).expect("load");
    let e = wt.call_init().expect_err("no init");
    assert!(matches!(&e, RuntimeError::MissingExport(name) if name == "init"));
    assert_eq!(e.message(), "missing export `init`");
    let mut wi = KamiHostWasmi::load(&wasm, 1).expect("load");
    let e = wi.call_init().expect_err("no init");
    assert!(matches!(&e, RuntimeError::MissingExport(name) if name == "init"));
    assert_eq!(e.message(), "missing export `init`");
    wt.tick(16).expect("tick");
    wi.tick(16).expect("tick");
}

#[test]
fn an_init_of_another_type_counts_as_missing() {
    let wasm = module(&[Function {
        name: "init",
        params: vec![I64],
        results: vec![I64],
        locals: 0,
        code: i64c(0),
    }]);
    let mut wt = load(&wasm, 1).expect("load");
    assert!(matches!(wt.call_init(), Err(RuntimeError::MissingExport(_))));
    let mut wi = KamiHostWasmi::load(&wasm, 1).expect("load");
    assert!(matches!(wi.call_init(), Err(RuntimeError::MissingExport(_))));
}

#[test]
fn an_init_that_is_stopped_hands_the_error_on() {
    let wasm = module(&[init(0, code(&[text("ghost"), call(SPAWN), vec![0x1a, 0x00]]))]);
    let mut wt = load(&wasm, 1).expect("load");
    assert!(matches!(wt.call_init(), Err(RuntimeError::Backend(_))));
    assert_eq!(wt.tagged_count("ghost"), 1);
    let mut wi = KamiHostWasmi::load(&wasm, 1).expect("load");
    assert!(matches!(wi.call_init(), Err(RuntimeError::Interpreter(_))));
    assert_eq!(wi.tagged_count("ghost"), 1);
}

#[test]
fn a_system_that_is_stopped_ends_the_tick_there() {
    let wasm = module(&[
        init(
            0,
            code(&[
                text("ghost"),
                call(SPAWN),
                vec![0x1a],
                i64c(0),
                f32c(1000.0),
                f32c(0.0),
                f32c(0.0),
                call(SET_VELOCITY),
                i64c(0),
            ]),
        ),
        system("spawn-tick", 0, code(&[text("enemy"), call(SPAWN)])),
        system("stop-tick", 0, vec![0x00]),
        system("late-tick", 0, code(&[text("player"), call(SPAWN)])),
    ]);
    let mut wt = load(&wasm, 1).expect("load");
    let mut wi = KamiHostWasmi::load(&wasm, 1).expect("load");
    wt.call_init().expect("init");
    wi.call_init().expect("init");
    assert!(matches!(wt.tick(16), Err(RuntimeError::Backend(_))));
    assert!(matches!(wi.tick(16), Err(RuntimeError::Interpreter(_))));
    assert_eq!(wt.tagged_count("enemy"), 1);
    assert_eq!(wt.tagged_count("player"), 0);
    assert_eq!(wt.debug_dump()[0].2, [0, 0, 0], "nothing moves in a tick that is cut short");
    assert_eq!(wt.debug_dump(), wi.debug_dump());
}

#[test]
fn a_system_of_another_type_is_passed_over() {
    let wasm = module(&[
        init(0, i64c(0)),
        Function {
            name: "odd-tick",
            params: vec![],
            results: vec![I64],
            locals: 0,
            code: code(&[text("ghost"), call(SPAWN)]),
        },
        system("even-tick", 0, code(&[text("enemy"), call(SPAWN)])),
    ]);
    let mut wt = load(&wasm, 1).expect("load");
    let mut wi = KamiHostWasmi::load(&wasm, 1).expect("load");
    wt.tick(16).expect("tick");
    wi.tick(16).expect("tick");
    assert_eq!(wt.tagged_count("ghost"), 0);
    assert_eq!(wt.tagged_count("enemy"), 1);
    assert_eq!(wi.tagged_count("ghost"), 0);
    assert_eq!(wi.tagged_count("enemy"), 1);
}

#[test]
fn a_start_function_can_call_imports() {
    let f = Function {
        name: "begin",
        params: vec![],
        results: vec![],
        locals: 0,
        code: code(&[text("ghost"), call(SPAWN), vec![0x1a]]),
    };
    let wasm = assemble(&[f], true, Some(14));
    let wt = load(&wasm, 1).expect("load");
    let wi = KamiHostWasmi::load(&wasm, 1).expect("load");
    assert_eq!(wt.tagged_count("ghost"), 1);
    assert_eq!(wi.tagged_count("ghost"), 1);
}

#[test]
fn a_start_function_that_is_stopped_is_refused() {
    let f = Function { name: "begin", params: vec![], results: vec![], locals: 0, code: vec![0x00] };
    let wasm = assemble(&[f], true, Some(14));
    assert!(matches!(load(&wasm, 1), Err(RuntimeError::Backend(_))));
    assert!(matches!(KamiHostWasmi::load(&wasm, 1), Err(RuntimeError::Interpreter(_))));
}

#[test]
fn without_exported_memory_every_text_is_empty() {
    let wasm = assemble(&[init(0, code(&[text("ghost"), call(SPAWN)]))], false, None);
    let mut wt = load(&wasm, 1).expect("load");
    let mut wi = KamiHostWasmi::load(&wasm, 1).expect("load");
    wt.call_init().expect("init");
    wi.call_init().expect("init");
    assert_eq!(wt.entity_count(), 1);
    assert_eq!(wt.tagged_count("ghost"), 0);
    assert_eq!(wt.tagged_count(""), 0);
    assert_eq!(wt.debug_dump()[0].1, "");
    assert_eq!(wt.debug_dump(), wi.debug_dump());
}

#[test]
fn queries_hand_out_each_entity_once() {
    // Counts what a query of ghosts hands out, then asks twice more, and puts the
    // count and both late answers down as a position.
    let wasm = module(&[
        init(
            4,
            code(&[
                text("player"),
                call(SPAWN),
                vec![0x1a],
                text("ghost"),
                call(SPAWN),
                vec![0x1a],
                text("ghost"),
                call(SPAWN),
                vec![0x1a],
                text("ghost"),
                call(QUERY_BEGIN),
                set(0),
                vec![0x02, 0x40, 0x03, 0x40],
                get(0),
                call(QUERY_NEXT),
                i64c(-1),
                vec![0x51, 0x0d, 1],
                get(1),
                i64c(1),
                vec![0x7c],
                set(1),
                vec![0x0c, 0, 0x0b, 0x0b],
                i64c(0),
                get(1),
                vec![TO_F32],
                get(0),
                call(QUERY_NEXT),
                vec![TO_F32],
                i64c(99),
                call(QUERY_NEXT),
                vec![TO_F32],
                call(SET_POSITION),
                i64c(0),
            ]),
        ),
    ]);
    let mut wt = load(&wasm, 1).expect("load");
    let mut wi = KamiHostWasmi::load(&wasm, 1).expect("load");
    wt.call_init().expect("init");
    wi.call_init().expect("init");
    assert_eq!(wt.debug_dump()[0].2, [bits(2.0), bits(-1.0), bits(-1.0)]);
    assert_eq!(wt.debug_dump(), wi.debug_dump());
}

#[test]
fn a_query_does_not_outlive_its_tick() {
    // Begins a query in each tick and asks the one of the tick before.
    let wasm = module(&[
        init(0, code(&[text("ghost"), call(SPAWN)])),
        system(
            "ask-tick",
            0,
            code(&[
                i64c(0),
                call(TICK),
                i64c(1),
                vec![0x7d],
                call(QUERY_NEXT),
                vec![TO_F32],
                text("ghost"),
                call(QUERY_BEGIN),
                vec![TO_F32],
                f32c(0.0),
                call(SET_POSITION),
                i64c(0),
            ]),
        ),
    ]);
    let mut host = load(&wasm, 1).expect("load");
    host.call_init().expect("init");
    host.tick(0).expect("tick");
    assert_eq!(host.debug_dump()[0].2[1], bits(1.0), "the first query has the handle one");
    host.tick(0).expect("tick");
    assert_eq!(host.debug_dump()[0].2[0], bits(-1.0), "the query of the first tick is gone");
    assert_eq!(host.debug_dump()[0].2[1], bits(2.0));
}

#[test]
fn random_numbers_are_the_generators() {
    let wasm = module(&[init(
        0,
        code(&[
            text("ghost"),
            call(SPAWN),
            i64c(1000),
            call(RANDOM_INT),
            vec![TO_F32],
            i64c(1000),
            call(RANDOM_INT),
            vec![TO_F32],
            i64c(0),
            call(RANDOM_INT),
            vec![TO_F32],
            call(SET_POSITION),
            i64c(0),
        ]),
    )]);
    let mut x: u64 = 42 | 1;
    let mut draw = || {
        x ^= x << 13;
        x ^= x >> 7;
        x ^= x << 17;
        (x % 1000) as f32
    };
    let expected = [bits(draw()), bits(draw()), bits(0.0)];
    let mut wt = load(&wasm, 42).expect("load");
    let mut wi = KamiHostWasmi::load(&wasm, 42).expect("load");
    wt.call_init().expect("init");
    wi.call_init().expect("init");
    assert_eq!(wt.debug_dump()[0].2, expected);
    assert_eq!(wi.debug_dump()[0].2, expected);
}

#[test]
fn outcomes_of_init() {
    assert!(init_outcome(Some(Ok(3))).is_ok());
    assert!(matches!(init_outcome(None), Err(RuntimeError::MissingExport(n)) if n == "init"));
    let e = init_outcome(Some(Err(wasmtime::Error::msg("stopped")))).expect_err("error");
    assert_eq!(e.message(), "wasm backend error: stopped");
    assert!(wasmi_host::init_outcome(Some(Ok(3))).is_ok());
    assert!(matches!(
        wasmi_host::init_outcome(None),
        Err(RuntimeError::MissingExport(n)) if n == "init"
    ));
    let e = wasmi_host::init_outcome(Some(Err(wasmi::Error::new("stopped")))).expect_err("error");
    assert_eq!(e.message(), "wasm backend error: stopped");
}

#[test]
fn outcomes_of_a_system() {
    assert!(system_outcome(None).is_ok());
    assert!(system_outcome(Some(Ok(0))).is_ok());
    let e = system_outcome(Some(Err(wasmtime::Error::msg("stopped")))).expect_err("error");
    assert!(matches!(e, RuntimeError::Backend(_)));
    assert!(wasmi_host::system_outcome(None).is_ok());
    assert!(wasmi_host::system_outcome(Some(Ok(0))).is_ok());
    let e = wasmi_host::system_outcome(Some(Err(wasmi::Error::new("stopped")))).expect_err("error");
    assert!(matches!(e, RuntimeError::Interpreter(_)));
}

#[test]
fn a_nan_position_survives_the_engines() {
    let nan = f32::from_bits(0x7fc0_0001);
    let wasm = module(&[init(
        0,
        code(&[
            text("ghost"),
            call(SPAWN),
            f32c(nan),
            f32c(-0.0),
            f32c(f32::INFINITY),
            call(SET_POSITION),
            i64c(0),
        ]),
    )]);
    let mut wt = load(&wasm, 1).expect("load");
    let mut wi = KamiHostWasmi::load(&wasm, 1).expect("load");
    wt.call_init().expect("init");
    wi.call_init().expect("init");
    assert_eq!(wt.debug_dump()[0].2, [0x7fc0_0001, 0x8000_0000, 0x7f80_0000]);
    assert_eq!(wi.debug_dump()[0].2, [0x7fc0_0001, 0x8000_0000, 0x7f80_0000]);
}

/// A module with every import and without memory.
fn bare(functions: &[Function]) -> Vec<u8> {
    let whole = assemble(functions, false, None);
    let mut out = whole[..8].to_vec();
    let mut at = 8;
    while at < whole.len() {
        let id = whole[at];
        let mut size = 0usize;
        let mut shift = 0;
        let mut end = at + 1;
        loop {
            let byte = whole[end];
            size |= ((byte & 0x7f) as usize) << shift;
            shift += 7;
            end += 1;
            if byte & 0x80 == 0 {
                break;
            }
        }
        end += size;
        if id != 5 && id != 11 {
            out.extend_from_slice(&whole[at..end]);
        }
        at = end;
    }
    out
}

#[test]
fn a_guest_without_memory_runs_on_the_default_engine() {
    let wasm = bare(&[
        init(0, code(&[i32c(0), i32c(4), call(SPAWN)])),
        system("spawn-tick", 0, code(&[i32c(0), i32c(4), call(SPAWN)])),
    ]);
    let mut host = KamiHost::load(&wasm, 1).expect("load");
    host.call_init().expect("init");
    host.tick(16).expect("tick");
    assert_eq!(host.entity_count(), 2);
    let ids: Vec<u32> = host.debug_dump().iter().map(|row| row.0).collect();
    assert_eq!(ids, vec![0, 1]);
    assert!(host.debug_dump().iter().all(|row| row.1.is_empty()));
}

#[test]
fn the_default_engine_refuses_what_is_not_a_module() {
    assert!(matches!(KamiHost::load(b"nothing", 1), Err(RuntimeError::Backend(_))));
}

#[test]
fn a_module_without_a_start_function_leaves_the_host_fresh() {
    let wt = load(&survivors(), 9).expect("load");
    let wi = KamiHostWasmi::load(&survivors(), 9).expect("load");
    assert_eq!((wt.entity_count(), wi.entity_count()), (0, 0));
}

#[test]
fn a_guest_keeps_its_memory_from_call_to_call() {
    // Each tick adds one to a number in memory and puts it down as a position.
    let wasm = module(&[
        init(0, code(&[text("player"), call(SPAWN)])),
        system(
            "count-tick",
            0,
            code(&[
                i32c(1024),
                i32c(1024),
                vec![0x29, 3, 0],
                i64c(1),
                vec![0x7c, 0x37, 3, 0],
                i64c(0),
                i32c(1024),
                vec![0x29, 3, 0, TO_F32],
                f32c(0.0),
                f32c(0.0),
                call(SET_POSITION),
                i64c(0),
            ]),
        ),
    ]);
    let mut wt = load(&wasm, 1).expect("load");
    let mut wi = KamiHostWasmi::load(&wasm, 1).expect("load");
    wt.call_init().expect("init");
    wi.call_init().expect("init");
    for n in 1..=5 {
        wt.tick(16).expect("tick");
        wi.tick(16).expect("tick");
        wt.set_axis("MoveX", 0);
        assert_eq!(wt.debug_dump()[0].2[0], bits(n as f32));
        assert_eq!(wi.debug_dump()[0].2[0], bits(n as f32));
    }
}

#[test]
fn the_time_counts_ticks_from_zero_in_init() {
    // Puts the tick down as x, in `init` and in each tick.
    let mark = code(&[
        i64c(0),
        call(TICK),
        vec![TO_F32],
        f32c(0.0),
        f32c(0.0),
        call(SET_POSITION),
        i64c(0),
    ]);
    let begin = code(&[text("player"), call(SPAWN), vec![0x1a], mark.clone()]);
    let wasm = module(&[init(0, begin), system("mark-tick", 0, mark)]);
    let mut wt = load(&wasm, 1).expect("load");
    let mut wi = KamiHostWasmi::load(&wasm, 1).expect("load");
    wt.call_init().expect("init");
    wi.call_init().expect("init");
    assert_eq!(wt.debug_dump()[0].2[0], bits(0.0));
    assert_eq!(wt.debug_dump(), wi.debug_dump());
    for (i, dt) in [16i64, 0, 1000, -5].into_iter().enumerate() {
        wt.tick(dt).expect("tick");
        wi.tick(dt).expect("tick");
        assert_eq!(wt.debug_dump()[0].2[0], bits((i + 1) as f32));
        assert_eq!(wt.debug_dump(), wi.debug_dump());
    }
}
