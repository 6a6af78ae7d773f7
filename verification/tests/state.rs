use kami_script_runtime_rs::imports::{HostCall, Import, Value};
use kami_script_runtime_rs::state::{read_guest_str, HostTrap};
use kami_script_runtime_rs::HostState;

const MEMORY: &[u8] = b"ghostenemyMoveX\xff\xfe\xe3\x81\x82";

fn bits(x: f32) -> u32 {
    x.to_bits()
}

fn spawn(s: &mut HostState, ptr: i32, len: i32) -> i64 {
    match s.call(Some(MEMORY), HostCall::Spawn { ptr, len }) {
        Ok(Some(Value::I64(id))) => id,
        other => panic!("{other:?}"),
    }
}

fn place(s: &mut HostState, eid: i64, x: f32, y: f32) {
    let call = HostCall::SetPosition { eid, x: bits(x), y: bits(y), z: bits(0.0) };
    assert_eq!(s.call(None, call), Ok(None));
}

fn x_of(s: &mut HostState, eid: i64) -> Value {
    s.call(None, HostCall::GetX { eid }).unwrap().unwrap()
}

fn y_of(s: &mut HostState, eid: i64) -> Value {
    s.call(None, HostCall::GetY { eid }).unwrap().unwrap()
}

fn count(s: &mut HostState, ptr: i32, len: i32) -> i64 {
    match s.call(Some(MEMORY), HostCall::CountTagged { ptr, len }) {
        Ok(Some(Value::I64(n))) => n,
        other => panic!("{other:?}"),
    }
}

#[test]
fn a_fresh_host_is_empty() {
    let s = HostState::new(6);
    assert_eq!(s.rng, 7);
    assert_eq!(s.tick_n, 0);
    assert_eq!(s.next_query, 1);
    assert_eq!(s.store.len(), 0);
    assert!(s.query_cursors.is_empty());
    assert_eq!(HostState::new(0).rng, 1);
    assert_eq!(HostState::new(u64::MAX).rng, u64::MAX);
}

#[test]
fn ids_count_up_and_are_never_reused() {
    let mut s = HostState::new(1);
    assert_eq!(spawn(&mut s, 0, 5), 0);
    assert_eq!(spawn(&mut s, 5, 5), 1);
    assert_eq!(s.call(None, HostCall::Despawn { eid: 1 }), Ok(None));
    assert_eq!(spawn(&mut s, 0, 5), 2);
    assert_eq!(s.call(None, HostCall::Despawn { eid: 1 }), Ok(None));
    assert_eq!(s.store.len(), 2);
    assert_eq!(count(&mut s, 0, 5), 2);
    assert_eq!(count(&mut s, 5, 5), 0);
}

#[test]
fn despawning_what_was_spawned_undoes_it() {
    let mut s = HostState::new(1);
    spawn(&mut s, 0, 5);
    let before = s.store.dump();
    let id = spawn(&mut s, 5, 5);
    assert_eq!(s.call(None, HostCall::Despawn { eid: id }), Ok(None));
    assert_eq!(s.store.dump(), before);
}

#[test]
fn positions_read_back_and_others_stay() {
    let mut s = HostState::new(1);
    let a = spawn(&mut s, 0, 5);
    let b = spawn(&mut s, 0, 5);
    place(&mut s, a, 1.5, -2.5);
    assert_eq!(x_of(&mut s, a), Value::F32(bits(1.5)));
    assert_eq!(y_of(&mut s, a), Value::F32(bits(-2.5)));
    assert_eq!(x_of(&mut s, b), Value::F32(bits(0.0)));
    assert_eq!(x_of(&mut s, 77), Value::F32(bits(0.0)));
    place(&mut s, 77, 9.0, 9.0);
    assert_eq!(s.store.len(), 2);
    // Only the low half of a handle counts.
    assert_eq!(x_of(&mut s, a + (1i64 << 32)), Value::F32(bits(1.5)));
    assert_eq!(y_of(&mut s, i64::MIN + a), Value::F32(bits(-2.5)));
}

#[test]
fn velocities_move_what_they_are_set_on() {
    let mut s = HostState::new(1);
    let a = spawn(&mut s, 0, 5);
    let call = HostCall::SetVelocity { eid: a, x: bits(10.0), y: bits(-4.0), z: bits(2.0) };
    assert_eq!(s.call(None, call), Ok(None));
    s.integrate(250);
    assert_eq!(s.store.dump()[0].2, [bits(2.5), bits(-1.0), bits(0.5)]);
    assert_eq!(s.store.dump()[0].3, [bits(10.0), bits(-4.0), bits(2.0)]);
    s.integrate(-250);
    assert_eq!(s.store.dump()[0].2, [bits(0.0), bits(0.0), bits(0.0)]);
}

#[test]
fn queries_drain_from_the_last_spawned() {
    let mut s = HostState::new(1);
    for _ in 0..3 {
        spawn(&mut s, 0, 5);
        spawn(&mut s, 5, 5);
    }
    let handle = match s.call(Some(MEMORY), HostCall::QueryBegin { ptr: 0, len: 5 }) {
        Ok(Some(Value::I64(h))) => h,
        other => panic!("{other:?}"),
    };
    assert_eq!(handle, 1);
    assert_eq!(count(&mut s, 0, 5), 3);
    for id in [4i64, 2, 0, -1, -1] {
        let call = HostCall::QueryNext { handle };
        assert_eq!(s.call(None, call), Ok(Some(Value::I64(id))));
    }
    assert!(s.query_cursors.is_empty());
    assert_eq!(s.next_query, 2);
}

fn begin(s: &mut HostState, ptr: i32, len: i32) -> i64 {
    match s.call(Some(MEMORY), HostCall::QueryBegin { ptr, len }) {
        Ok(Some(Value::I64(h))) => h,
        other => panic!("{other:?}"),
    }
}

fn next(s: &mut HostState, handle: i64) -> i64 {
    match s.call(None, HostCall::QueryNext { handle }) {
        Ok(Some(Value::I64(id))) => id,
        other => panic!("{other:?}"),
    }
}

#[test]
fn queries_go_on_beside_other_calls() {
    let mut s = HostState::new(1);
    for _ in 0..3 {
        spawn(&mut s, 0, 5);
        spawn(&mut s, 5, 5);
    }
    let ghosts = begin(&mut s, 0, 5);
    let enemies = begin(&mut s, 5, 5);
    assert_eq!((ghosts, enemies), (1, 2));
    assert_eq!(next(&mut s, ghosts), 4);
    assert_eq!(next(&mut s, enemies), 5);
    s.call(None, HostCall::Despawn { eid: 2 }).unwrap();
    spawn(&mut s, 0, 5);
    assert_eq!(next(&mut s, ghosts), 2);
    let again = begin(&mut s, 0, 5);
    assert_eq!(again, 3);
    assert_eq!(next(&mut s, ghosts), 0);
    assert_eq!(next(&mut s, enemies), 3);
    assert_eq!(next(&mut s, ghosts), -1);
    s.call(None, HostCall::RandomInt { n: 5 }).unwrap();
    assert_eq!(next(&mut s, ghosts), -1);
    assert_eq!([6i64, 4, 0, -1].map(|_| next(&mut s, again)), [6, 4, 0, -1]);
    assert_eq!([1i64, -1].map(|_| next(&mut s, enemies)), [1, -1]);
}

#[test]
fn handles_are_never_used_again() {
    let mut s = HostState::new(1);
    spawn(&mut s, 0, 5);
    let mut old = Vec::new();
    for tick in 0..4i64 {
        s.begin_tick();
        for &h in &old {
            assert_eq!(next(&mut s, h), -1);
        }
        for k in 0..2i64 {
            let h = begin(&mut s, 0, 5);
            assert_eq!(h, 1 + tick * 2 + k);
            old.push(h);
        }
        s.end_tick(16);
        assert_eq!(s.next_query, 3 + tick * 2);
    }
}

#[test]
fn an_entity_reads_back_what_is_set() {
    let mut s = HostState::new(5);
    let a = spawn(&mut s, 0, 5);
    let b = spawn(&mut s, 5, 5);
    place(&mut s, b, 7.0, 8.0);
    let h = begin(&mut s, 0, 5);
    let nan = 0x7fc0_0001u32;
    s.call(None, HostCall::SetPosition { eid: a, x: nan, y: 0x8000_0000, z: 3 }).unwrap();
    s.call(None, HostCall::SetVelocity { eid: a, x: 4, y: 5, z: nan }).unwrap();
    assert_eq!((x_of(&mut s, a), y_of(&mut s, a)), (Value::F32(nan), Value::F32(0x8000_0000)));
    let rows = s.store.dump();
    assert_eq!(rows[0], (0, "ghost".to_string(), [nan, 0x8000_0000, 3], [4, 5, nan]));
    assert_eq!(rows[1], (1, "enemy".to_string(), [bits(7.0), bits(8.0), 0], [0, 0, 0]));
    assert_eq!((s.rng, s.tick_n, s.next_query), (5, 0, 2));
    assert_eq!(next(&mut s, h), 0);
    assert_eq!(spawn(&mut s, 0, 5), 2);
}

#[test]
fn a_query_keeps_what_it_found() {
    let mut s = HostState::new(1);
    spawn(&mut s, 0, 5);
    spawn(&mut s, 0, 5);
    assert!(s.call(Some(MEMORY), HostCall::QueryBegin { ptr: 0, len: 5 }).is_ok());
    s.call(None, HostCall::Despawn { eid: 1 }).unwrap();
    spawn(&mut s, 0, 5);
    let next = HostCall::QueryNext { handle: 1 };
    assert_eq!(s.call(None, next), Ok(Some(Value::I64(1))));
    assert_eq!(s.call(None, next), Ok(Some(Value::I64(0))));
    assert_eq!(s.call(None, next), Ok(Some(Value::I64(-1))));
}

#[test]
fn the_nearest_is_in_reach_and_first_of_equals() {
    let mut s = HostState::new(1);
    let near = |s: &mut HostState, x: f32, reach: f32| {
        let call = HostCall::Nearest {
            ptr: 0,
            len: 5,
            x: bits(x),
            y: bits(0.0),
            reach: bits(reach),
        };
        s.call(Some(MEMORY), call).unwrap().unwrap()
    };
    assert_eq!(near(&mut s, 0.0, 100.0), Value::I64(-1));
    let a = spawn(&mut s, 0, 5);
    let b = spawn(&mut s, 0, 5);
    let c = spawn(&mut s, 5, 5);
    place(&mut s, a, 10.0, 0.0);
    place(&mut s, b, -10.0, 0.0);
    place(&mut s, c, 0.0, 0.0);
    assert_eq!(near(&mut s, 0.0, 10.0), Value::I64(a), "the edge is in reach");
    assert_eq!(near(&mut s, -1.0, 10.0), Value::I64(b));
    assert_eq!(near(&mut s, 0.0, 9.5), Value::I64(-1));
    assert_eq!(near(&mut s, 0.0, -10.0), Value::I64(a), "a reach is squared");
    place(&mut s, a, f32::NAN, 0.0);
    assert_eq!(near(&mut s, 0.0, 10.0), Value::I64(b), "what is nowhere is not near");
}

#[test]
fn moving_toward_sets_the_speed() {
    let mut s = HostState::new(1);
    let a = spawn(&mut s, 0, 5);
    let b = spawn(&mut s, 0, 5);
    place(&mut s, b, 3.0, 4.0);
    let toward = HostCall::MoveToward { eid: a, target: b, speed: bits(10.0) };
    assert_eq!(s.call(None, toward), Ok(None));
    let (dx, dy) = (3.0f32, 4.0f32);
    let len = (dx * dx + dy * dy).sqrt();
    let expected = [bits(dx / len * 10.0), bits(dy / len * 10.0), bits(0.0)];
    assert_eq!(s.store.dump()[0].3, expected);
    place(&mut s, b, 0.0, 0.0);
    assert_eq!(s.call(None, toward), Ok(None));
    assert_eq!(s.store.dump()[0].3, [0, 0, 0], "together, nobody moves");
    let nobody = HostCall::MoveToward { eid: a, target: 99, speed: bits(10.0) };
    place(&mut s, b, 1.0, 0.0);
    s.call(None, toward).unwrap();
    let before = s.store.dump();
    assert_eq!(s.call(None, nobody), Ok(None));
    assert_eq!(s.store.dump(), before);
}

#[test]
fn axes_read_back_by_name() {
    let mut s = HostState::new(1);
    let axis = |s: &mut HostState, ptr: i32, len: i32| {
        s.call(Some(MEMORY), HostCall::Axis { ptr, len }).unwrap().unwrap()
    };
    assert_eq!(axis(&mut s, 10, 5), Value::F32(0));
    s.set_axis("MoveX", bits(-0.5));
    s.set_axis("MoveY", bits(7.0));
    assert_eq!(axis(&mut s, 10, 5), Value::F32(bits(-0.5)));
    s.set_axis("MoveX", bits(2.0));
    assert_eq!(axis(&mut s, 10, 5), Value::F32(bits(2.0)));
    assert_eq!(axis(&mut s, 0, 5), Value::F32(0));
}

#[test]
fn random_numbers_follow_the_seed() {
    let mut s = HostState::new(7);
    let mut x: u64 = 7;
    for n in [10i64, 1, 1_000_000, i64::MAX, 3] {
        x ^= x << 13;
        x ^= x >> 7;
        x ^= x << 17;
        let expected = (x % (n as u64)) as i64;
        assert!(expected >= 0 && expected < n);
        assert_eq!(s.call(None, HostCall::RandomInt { n }), Ok(Some(Value::I64(expected))));
    }
    assert_eq!(s.rng, x);
    for n in [0i64, -1, i64::MIN] {
        assert_eq!(s.call(None, HostCall::RandomInt { n }), Ok(Some(Value::I64(0))));
    }
    assert_eq!(s.rng, x, "an empty range draws nothing");
}

#[test]
fn a_tick_counts_moves_and_ends_queries() {
    let mut s = HostState::new(1);
    let a = spawn(&mut s, 0, 5);
    let call = HostCall::SetVelocity { eid: a, x: bits(1000.0), y: 0, z: 0 };
    s.call(None, call).unwrap();
    s.begin_tick();
    assert_eq!(s.call(None, HostCall::Tick), Ok(Some(Value::I64(1))));
    assert!(s.call(Some(MEMORY), HostCall::QueryBegin { ptr: 0, len: 5 }).is_ok());
    s.end_tick(1);
    assert!(s.query_cursors.is_empty());
    assert_eq!(s.store.dump()[0].2[0], bits(1000.0 * (1.0 / 1000.0)));
    assert_eq!(s.call(None, HostCall::Tick), Ok(Some(Value::I64(1))));
}

#[test]
fn texts_are_read_inside_memory_only() {
    assert_eq!(read_guest_str(Some(MEMORY), 0, 5), "ghost");
    assert_eq!(read_guest_str(Some(MEMORY), 5, 5), "enemy");
    assert_eq!(read_guest_str(Some(MEMORY), 17, 3), "\u{3042}");
    assert_eq!(read_guest_str(Some(MEMORY), 0, 0), "");
    assert_eq!(read_guest_str(Some(MEMORY), 0, -1), "");
    assert_eq!(read_guest_str(Some(MEMORY), -1, 3), "");
    assert_eq!(read_guest_str(Some(MEMORY), 18, 3), "");
    assert_eq!(read_guest_str(Some(MEMORY), i32::MAX, i32::MAX), "");
    assert_eq!(read_guest_str(None, 0, 5), "");
    assert_eq!(read_guest_str(Some(&[]), 0, 1), "");
}

#[test]
fn broken_text_is_read_with_replacements() {
    assert_eq!(read_guest_str(Some(MEMORY), 14, 3), "X\u{fffd}\u{fffd}");
    assert_eq!(read_guest_str(Some(MEMORY), 17, 2), "\u{fffd}");
}

#[test]
fn raw_arguments_are_checked() {
    let mut s = HostState::new(1);
    let args = [Value::I32(0), Value::I32(5)];
    assert_eq!(s.answer(Some(MEMORY), Import::Spawn, &args), Ok(Some(Value::I64(0))));
    assert_eq!(s.answer(Some(MEMORY), Import::Spawn, &args[..1]), Err(HostTrap::BadArguments));
    let wrong = [Value::I64(0), Value::I32(5)];
    assert_eq!(s.answer(Some(MEMORY), Import::Spawn, &wrong), Err(HostTrap::BadArguments));
    assert_eq!(s.answer(None, Import::Tick, &[]), Ok(Some(Value::I64(0))));
    assert_eq!(s.answer(None, Import::Tick, &args), Err(HostTrap::BadArguments));
    let at = [Value::I64(0), Value::F32(bits(1.0)), Value::F32(bits(2.0)), Value::F32(0)];
    assert_eq!(s.answer(None, Import::SetPosition, &at), Ok(None));
    assert_eq!(s.answer(None, Import::SetVelocity, &at), Ok(None));
    let one = [Value::I64(0)];
    assert_eq!(s.answer(None, Import::GetX, &one), Ok(Some(Value::F32(bits(1.0)))));
    assert_eq!(s.answer(None, Import::GetY, &one), Ok(Some(Value::F32(bits(2.0)))));
    assert_eq!(s.answer(Some(MEMORY), Import::CountTagged, &args), Ok(Some(Value::I64(1))));
    assert_eq!(s.answer(Some(MEMORY), Import::QueryBegin, &args), Ok(Some(Value::I64(1))));
    let first = [Value::I64(1)];
    assert_eq!(s.answer(None, Import::QueryNext, &first), Ok(Some(Value::I64(0))));
    let near = [
        Value::I32(0),
        Value::I32(5),
        Value::F32(0),
        Value::F32(0),
        Value::F32(bits(5.0)),
    ];
    assert_eq!(s.answer(Some(MEMORY), Import::Nearest, &near), Ok(Some(Value::I64(0))));
    let toward = [Value::I64(0), Value::I64(0), Value::F32(bits(1.0))];
    assert_eq!(s.answer(None, Import::MoveToward, &toward), Ok(None));
    assert_eq!(s.answer(Some(MEMORY), Import::Axis, &args), Ok(Some(Value::F32(0))));
    assert_eq!(s.answer(None, Import::RandomInt, &[Value::I64(1)]), Ok(Some(Value::I64(0))));
    assert_eq!(s.answer(None, Import::Despawn, &one), Ok(None));
    assert_eq!(s.store.len(), 0);
}

#[test]
fn query_handles_run_out() {
    let mut s = HostState::new(1);
    s.next_query = i64::MAX;
    let begin = HostCall::QueryBegin { ptr: 0, len: 5 };
    assert_eq!(s.call(Some(MEMORY), begin), Err(HostTrap::QueriesExhausted));
    assert_eq!(s.next_query, i64::MAX);
}

#[test]
fn refusals_say_why() {
    assert_eq!(HostTrap::IdsExhausted.text(), "no entity id is left");
    assert_eq!(HostTrap::QueriesExhausted.text(), "no query handle is left");
    assert_eq!(HostTrap::BadArguments.text(), "the arguments do not fit the import");
}

#[test]
fn import_names_are_distinct() {
    let all = [
        Import::Spawn,
        Import::Despawn,
        Import::SetPosition,
        Import::SetVelocity,
        Import::GetX,
        Import::GetY,
        Import::CountTagged,
        Import::QueryBegin,
        Import::QueryNext,
        Import::Nearest,
        Import::MoveToward,
        Import::Axis,
        Import::RandomInt,
        Import::Tick,
    ];
    for (i, a) in all.iter().enumerate() {
        for b in &all[i + 1..] {
            assert_ne!((a.module(), a.name()), (b.module(), b.name()));
        }
    }
    assert_eq!(Import::scene_list(), all[..11].to_vec());
    assert_eq!(Import::Axis.module(), "kami:engine/input@1.0.0");
    assert_eq!(Import::RandomInt.module(), "kami:engine/random@1.0.0");
    assert_eq!(Import::Tick.module(), "kami:engine/time@1.0.0");
}

#[test]
fn errors_of_the_engines_become_the_hosts() {
    let e = kami_script_runtime_rs::RuntimeError::from(wasmtime::Error::msg("first"));
    assert!(matches!(&e, kami_script_runtime_rs::RuntimeError::Backend(_)));
    assert_eq!(e.message(), "wasm backend error: first");
    let e = kami_script_runtime_rs::RuntimeError::from(wasmi::Error::new("second"));
    assert!(matches!(&e, kami_script_runtime_rs::RuntimeError::Interpreter(_)));
    assert_eq!(e.message(), "wasm backend error: second");
    let e = kami_script_runtime_rs::RuntimeError::MissingExport(String::from("x"));
    assert_eq!(e.message(), "missing export `x`");
    assert!(!e.is_out_of_memory());
}

#[test]
fn a_store_starts_empty_and_an_entity_at_rest() {
    let store = kami_script_runtime_rs::EcsStore::default();
    assert_eq!(store.len(), 0);
    assert!(store.has_room());
    let e = kami_script_runtime_rs::Entity::default();
    assert_eq!((e.pos, e.vel), ([0; 3], [0; 3]));
}

#[test]
fn what_is_at_rest_stays() {
    let mut s = HostState::new(1);
    let a = spawn(&mut s, 0, 5);
    place(&mut s, a, 0.1, -7.25);
    let before = s.store.dump();
    for dt in [16i64, 0, -16, i64::MAX, i64::MIN] {
        s.integrate(dt);
        assert_eq!(s.store.dump(), before);
    }
    // Adding zero to minus zero gives zero.
    place(&mut s, a, -0.0, 1.0);
    s.integrate(16);
    assert_eq!(s.store.dump()[0].2[0], bits(0.0));
}

#[test]
fn an_allocation_that_failed_is_told_from_other_errors() {
    let oom = wasmtime::Error::from(wasmtime::error::OutOfMemory::new(64));
    assert!(kami_script_runtime_rs::RuntimeError::from(oom).is_out_of_memory());
    let other = wasmtime::Error::msg("stopped");
    assert!(!kami_script_runtime_rs::RuntimeError::from(other).is_out_of_memory());
    let other = wasmi::Error::new("stopped");
    assert!(!kami_script_runtime_rs::RuntimeError::from(other).is_out_of_memory());
}
