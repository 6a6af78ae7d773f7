//! The host on `wasmtime`.

use vstd::prelude::*;

use crate::ecs::{lists, Row};
use crate::error::{from_wasmtime, RuntimeError};
use crate::exports::{export_names, lacks_start, ordered_tick_exports, texts, tick_names};
use crate::guest::{answer_of, GuestView, World};
use crate::imports::{lemma_single, Import};
use crate::laws::{
    law_fresh_host_stays_in_order, law_integrate_only_moves, law_reaches_itself, law_reaches_keeps,
    law_reaches_on, reaches,
};
use crate::lifecycle::{
    acted, acted_through, agree, initialized, law_runs_agree, loaded, outcome_of, stops_at, system_runs,
    systems_run, tick_end, tick_start, ticked, Act, Outcome, Running,
};
use crate::rng::seeded;
use crate::state::{fresh, HostState, HostView};
use crate::wasmtime_engine::{
    bind, compiles, exports_function, imported, instance_view, instantiate, linker_view, new_engine,
    new_engine_reserving, new_linker, new_module, new_store, run0, run1, runs, starts, state, state_mut,
    store_view,
};

verus! {

/// Defines the functions on entities.
fn bind_scene(linker: &mut wasmtime::Linker<HostState>) -> (r: Result<(), RuntimeError>)
    ensures
        linker_view(*final(linker)).engine == linker_view(*old(linker)).engine,
        r is Ok ==> linker_view(*final(linker)).imports == linker_view(*old(linker)).imports.union(
            Import::scene(),
        ),
        r is Ok ==> linker_view(*old(linker)).imports.disjoint(Import::scene()),
        r matches Err(e) ==> e.lacks_memory() || !linker_view(*old(linker)).imports.disjoint(
            Import::scene(),
        ),
        r matches Err(e) ==> e is Backend,
{
    let imports: Vec<Import> = Import::scene_list();
    from_wasmtime(bind(linker, &imports))
}

/// Defines the function that reads an input axis.
fn bind_input(linker: &mut wasmtime::Linker<HostState>) -> (r: Result<(), RuntimeError>)
    ensures
        linker_view(*final(linker)).engine == linker_view(*old(linker)).engine,
        r is Ok ==> linker_view(*final(linker)).imports == linker_view(*old(linker)).imports.union(
            Import::input(),
        ),
        r is Ok ==> linker_view(*old(linker)).imports.disjoint(Import::input()),
        r matches Err(e) ==> e.lacks_memory() || !linker_view(*old(linker)).imports.disjoint(
            Import::input(),
        ),
        r matches Err(e) ==> e is Backend,
{
    let imports: Vec<Import> = vec![Import::Axis];
    proof {
        lemma_single(Import::Axis, imports@);
    }
    from_wasmtime(bind(linker, &imports))
}

/// Defines the function that draws a random number.
fn bind_random(linker: &mut wasmtime::Linker<HostState>) -> (r: Result<(), RuntimeError>)
    ensures
        linker_view(*final(linker)).engine == linker_view(*old(linker)).engine,
        r is Ok ==> linker_view(*final(linker)).imports == linker_view(*old(linker)).imports.union(
            Import::random(),
        ),
        r is Ok ==> linker_view(*old(linker)).imports.disjoint(Import::random()),
        r matches Err(e) ==> e.lacks_memory() || !linker_view(*old(linker)).imports.disjoint(
            Import::random(),
        ),
        r matches Err(e) ==> e is Backend,
{
    let imports: Vec<Import> = vec![Import::RandomInt];
    proof {
        lemma_single(Import::RandomInt, imports@);
    }
    from_wasmtime(bind(linker, &imports))
}

/// Defines the function that tells the tick.
fn bind_time(linker: &mut wasmtime::Linker<HostState>) -> (r: Result<(), RuntimeError>)
    ensures
        linker_view(*final(linker)).engine == linker_view(*old(linker)).engine,
        r is Ok ==> linker_view(*final(linker)).imports == linker_view(*old(linker)).imports.union(
            Import::time(),
        ),
        r is Ok ==> linker_view(*old(linker)).imports.disjoint(Import::time()),
        r matches Err(e) ==> e.lacks_memory() || !linker_view(*old(linker)).imports.disjoint(
            Import::time(),
        ),
        r matches Err(e) ==> e is Backend,
{
    let imports: Vec<Import> = vec![Import::Tick];
    proof {
        lemma_single(Import::Tick, imports@);
    }
    from_wasmtime(bind(linker, &imports))
}

/// Defines every import.
fn bind_all(linker: &mut wasmtime::Linker<HostState>) -> (r: Result<(), RuntimeError>)
    requires
        linker_view(*old(linker)).imports == Set::<Import>::empty(),
    ensures
        linker_view(*final(linker)).engine == linker_view(*old(linker)).engine,
        r is Ok ==> linker_view(*final(linker)).imports == Import::all(),
        r matches Err(e) ==> e is Backend && e.lacks_memory(),
{
    match bind_scene(linker) {
        Ok(()) => {},
        Err(e) => {
            return Err(e);
        },
    }
    match bind_input(linker) {
        Ok(()) => {},
        Err(e) => {
            return Err(e);
        },
    }
    match bind_random(linker) {
        Ok(()) => {},
        Err(e) => {
            return Err(e);
        },
    }
    let r = bind_time(linker);
    proof {
        if r is Ok {
            assert(linker_view(*linker).imports =~= Import::all());
        }
    }
    r
}

/// The bytes of address space that a sparing host sets aside for a guest's memory.
pub const SPARING: u64 = 0x100_0000;

/// A guest that wasmtime runs, and the host's state around it.
pub struct KamiHost {
    engine: wasmtime::Engine,
    store: wasmtime::Store<HostState>,
    instance: wasmtime::Instance,
    systems: Vec<String>,
}

impl View for KamiHost {
    type V = GuestView;

    closed spec fn view(&self) -> GuestView {
        GuestView {
            wasm: instance_view(self.instance).wasm,
            systems: texts(self.systems@),
            state: store_view(self.store).state@,
            memory: store_view(self.store).guest,
        }
    }
}

/// What wasmtime can do with a module.
pub open spec fn running(wasm: Seq<u8>) -> Running {
    Running {
        imports: imported(wasm),
        has: |name: Seq<char>, arity: nat| exports_function(wasm, name, arity),
        starts: |before: HostView, after: World| starts(wasm, Import::all(), before, after),
        runs: |
            name: Seq<char>,
            args: Seq<i64>,
            before: World,
            after: World,
            answer: Option<i64>,
        | runs(wasm, name, args, before, after, answer),
    }
}

/// Where what wasmtime does with a module does not rest on the machine, a run is a
/// function of the module, the seed and the calls: two hosts loaded from it, with one
/// seed or with an even one and the odd one above, and asked the same, return the same
/// and are in the same state after each call, bit for bit.
pub proof fn law_runs_repeat(
    wasm: Seq<u8>,
    seed: u64,
    other_seed: u64,
    acts: Seq<Act>,
    xs: Seq<GuestView>,
    ps: Seq<Outcome>,
    ys: Seq<GuestView>,
    qs: Seq<Outcome>,
)
    requires
        agree(running(wasm), running(wasm)),
        seeded(seed) == seeded(other_seed),
        acted_through(running(wasm), xs, acts, ps),
        acted_through(running(wasm), ys, acts, qs),
        loaded(running(wasm), seed, xs[0]),
        loaded(running(wasm), other_seed, ys[0]),
        xs[0].wasm == ys[0].wasm,
        xs[0].systems == ys[0].systems,
    ensures
        xs == ys,
        ps == qs,
{
    law_runs_agree(running(wasm), running(wasm), seed, other_seed, acts, xs, ps, ys, qs);
}

/// What calling `init` comes to: the guest must export it, and what stops it is
/// handed on.
pub fn init_outcome(found: Option<Result<i64, wasmtime::Error>>) -> (r: Result<(), RuntimeError>)
    ensures
        match found {
            None => r matches Err(RuntimeError::MissingExport(name)) && name@ == "init"@,
            Some(Ok(_)) => r == Ok::<(), RuntimeError>(()),
            Some(Err(e)) => r == Err::<(), RuntimeError>(RuntimeError::Backend(e)),
        },
{
    match found {
        None => Err(RuntimeError::MissingExport("init".to_owned())),
        Some(Ok(_)) => Ok(()),
        Some(Err(e)) => Err(RuntimeError::Backend(e)),
    }
}

/// What calling a system comes to: one that the guest does not have is passed
/// over, and what stops it is handed on.
pub fn system_outcome(found: Option<Result<i64, wasmtime::Error>>) -> (r: Result<(), RuntimeError>)
    ensures
        match found {
            Some(Err(e)) => r == Err::<(), RuntimeError>(RuntimeError::Backend(e)),
            _ => r == Ok::<(), RuntimeError>(()),
        },
{
    match found {
        Some(Err(e)) => Err(RuntimeError::Backend(e)),
        _ => Ok(()),
    }
}

impl KamiHost {
    /// The instance lives in the store.
    pub closed spec fn linked(self) -> bool {
        instance_view(self.instance).store == store_view(self.store).id
    }

    /// What holds of every host: its parts belong together, its entities are in
    /// order, and its generator never stalls.
    pub open spec fn wf(self) -> bool {
        &&& self.linked()
        &&& self@.state.store.wf()
        &&& self@.state.rng != 0
    }

    /// What loading a guest comes to: a host around it that has only been called by
    /// the guest's start function, or what the engine said.
    pub open spec fn is_loaded(r: Result<Self, RuntimeError>, wasm: Seq<u8>, seed: u64) -> bool {
        match r {
            Ok(host) => {
                &&& host.wf()
                &&& host@.wasm == wasm
                &&& host@.systems == tick_names(export_names(wasm))
                &&& host@.state.tick_n == 0
                &&& host@.state.axes == Map::<Seq<char>, u32>::empty()
                &&& compiles(wasm)
                &&& loaded(running(wasm), seed, host@)
                &&& reaches(fresh(seed), host@.state)
                &&& lacks_start(wasm) ==> host@.state == fresh(seed)
            },
            Err(e) => e is Backend,
        }
    }

    /// Loads a guest, with every import defined. The seed fixes every random
    /// number.
    pub fn load(wasm: &[u8], seed: u64) -> (r: Result<Self, RuntimeError>)
        ensures
            Self::is_loaded(r, wasm@, seed),
    {
        Self::load_on(new_engine(), wasm, seed)
    }

    /// Loads a guest where address space is short: its memory gets more as it grows.
    pub fn load_sparing(wasm: &[u8], seed: u64) -> (r: Result<Self, RuntimeError>)
        ensures
            Self::is_loaded(r, wasm@, seed),
    {
        match from_wasmtime(new_engine_reserving(SPARING)) {
            Ok(engine) => Self::load_on(engine, wasm, seed),
            Err(e) => Err(e),
        }
    }

    fn load_on(engine: wasmtime::Engine, wasm: &[u8], seed: u64) -> (r: Result<Self, RuntimeError>)
        ensures
            Self::is_loaded(r, wasm@, seed),
    {
        let mut linker: wasmtime::Linker<HostState> = new_linker(&engine);
        match bind_all(&mut linker) {
            Ok(()) => {},
            Err(e) => {
                return Err(e);
            },
        }
        let mut store: wasmtime::Store<HostState> = new_store(&engine, HostState::new(seed));
        let module: wasmtime::Module = match from_wasmtime(new_module(&engine, wasm)) {
            Ok(module) => module,
            Err(e) => {
                return Err(e);
            },
        };
        let instance: wasmtime::Instance = match from_wasmtime(
            instantiate(&linker, &mut store, &module),
        ) {
            Ok(instance) => instance,
            Err(e) => {
                return Err(e);
            },
        };
        let systems: Vec<String> = ordered_tick_exports(wasm);
        proof {
            law_fresh_host_stays_in_order(seed, store_view(store).state@);
            law_reaches_keeps(fresh(seed), store_view(store).state@);
        }
        Ok(Self { engine, store, instance, systems })
    }

    /// Sets an input axis to a value given as a bit pattern.
    pub fn set_axis(&mut self, name: &str, value: u32)
        requires
            old(self).wf(),
        ensures
            final(self).wf(),
            final(self)@ == old(self)@.with_state(
                HostView {
                    axes: old(self)@.state.axes.insert(name@, value),
                    ..old(self)@.state
                },
            ),
            acted(
                running(old(self)@.wasm),
                old(self)@,
                (Act::SetAxis { name: name@, value }),
                final(self)@,
                Outcome::Done,
            ),
    {
        state_mut(&mut self.store).set_axis(name, value);
    }

    /// Calls the guest's `init`.
    pub fn call_init(&mut self) -> (r: Result<(), RuntimeError>)
        requires
            old(self).wf(),
        ensures
            final(self).wf(),
            final(self)@ == old(self)@.at(final(self)@.world()),
            final(self)@.state.tick_n == old(self)@.state.tick_n,
            final(self)@.state.axes == old(self)@.state.axes,
            reaches(old(self)@.state, final(self)@.state),
            initialized(
                running(old(self)@.wasm),
                old(self)@,
                final(self)@.world(),
                outcome_of(r),
            ),
            acted(running(old(self)@.wasm), old(self)@, Act::Init, final(self)@, outcome_of(r)),
            match r {
                Ok(()) => true,
                Err(RuntimeError::MissingExport(name)) => name@ == "init"@,
                Err(e) => e is Backend,
            },
    {
        let found: Option<Result<i64, wasmtime::Error>> = run0(
            &mut self.store,
            &self.instance,
            "init",
        );
        proof {
            law_reaches_keeps(old(self)@.state, self@.state);
            let engine = running(old(self)@.wasm);
            assert(found is Some <==> (engine.has)("init"@, 0));
            if found is Some {
                assert((engine.runs)(
                    "init"@,
                    Seq::empty(),
                    old(self)@.world(),
                    self@.world(),
                    answer_of(found->0),
                ));
            }
        }
        init_outcome(found)
    }

    /// Advances the tick counter, runs every system of the guest once in the order
    /// of definition, moves everything and ends every query. A system that is
    /// stopped ends the tick there.
    pub fn tick(&mut self, dt_ms: i64) -> (r: Result<(), RuntimeError>)
        requires
            old(self).wf(),
            old(self)@.state.tick_n < i64::MAX,
        ensures
            final(self).wf(),
            final(self)@ == old(self)@.at(final(self)@.world()),
            final(self)@.state.tick_n == old(self)@.state.tick_n + 1,
            final(self)@.state.axes == old(self)@.state.axes,
            old(self)@.state.next_query <= final(self)@.state.next_query,
            r is Ok ==> final(self)@.state.cursors == Map::<i64, Seq<u32>>::empty(),
            ticked(
                running(old(self)@.wasm),
                old(self)@,
                dt_ms,
                final(self)@.world(),
                outcome_of(r),
            ),
            acted(
                running(old(self)@.wasm),
                old(self)@,
                (Act::Tick { dt_ms }),
                final(self)@,
                outcome_of(r),
            ),
            r matches Err(e) ==> e is Backend,
    {
        state_mut(&mut self.store).begin_tick();
        let ghost engine = running(self@.wasm);
        let ghost start = self@.world();
        let ghost names = self@.systems;
        let ghost mut worlds: Seq<World> = seq![start];
        proof {
            law_reaches_itself(start.host);
        }
        let mut i: usize = 0;
        while i < self.systems.len()
            invariant
                i <= self.systems.len(),
                self.linked(),
                self.systems@ == old(self).systems@,
                names == texts(self.systems@),
                self@.wasm == old(self)@.wasm,
                self@.systems == names,
                engine == running(self@.wasm),
                old(self)@.systems == names,
                old(self).wf(),
                old(self)@.state.tick_n < i64::MAX,
                start == tick_start(old(self)@),
                worlds.len() == i + 1,
                worlds[0] == start,
                worlds.last() == self@.world(),
                systems_run(engine, dt_ms, names.take(i as int), worlds),
                reaches(start.host, self@.state),
            decreases self.systems.len() - i,
        {
            let ghost before = self@.world();
            let ghost past = worlds;
            let found: Option<Result<i64, wasmtime::Error>> = run1(
                &mut self.store,
                &self.instance,
                self.systems[i].as_str(),
                dt_ms,
            );
            proof {
                law_reaches_on(start.host, before.host, self@.state);
                assert(names[i as int] == self.systems@[i as int]@);
                assert(found is Some <==> (engine.has)(names[i as int], 1));
                if found is Some {
                    assert((engine.runs)(
                        names[i as int],
                        seq![dt_ms],
                        before,
                        self@.world(),
                        answer_of(found->0),
                    ));
                }
            }
            match system_outcome(found) {
                Ok(()) => {},
                Err(e) => {
                    proof {
                        assert(stops_at(engine, dt_ms, names, worlds, self@.world()));
                        law_reaches_keeps(start.host, self@.state);
                    }
                    return Err(e);
                },
            }
            proof {
                worlds = past.push(self@.world());
                let now = names.take(i + 1);
                assert(now.drop_last() =~= names.take(i as int));
                assert forall|k: int| 0 <= k < now.len() implies if (engine.has)(
                    #[trigger] now[k],
                    1,
                ) {
                    system_runs(engine, dt_ms, now[k], worlds[k], worlds[k + 1])
                } else {
                    worlds[k + 1] == worlds[k]
                } by {
                    if k < i {
                        assert(names.take(i as int)[k] == now[k]);
                    }
                }
            }
            i = i + 1;
        }
        proof {
            assert(names.take(i as int) =~= names);
            law_reaches_keeps(start.host, self@.state);
            law_integrate_only_moves(self@.state.store, dt_ms);
        }
        let ghost ran = self@.world();
        state_mut(&mut self.store).end_tick(dt_ms);
        assert(self@.world() == tick_end(ran, dt_ms));
        Ok(())
    }

    /// Moves every entity at its velocity for `dt_ms` milliseconds.
    pub fn integrate(&mut self, dt_ms: i64)
        requires
            old(self).wf(),
        ensures
            final(self).wf(),
            final(self)@ == old(self)@.with_state(old(self)@.state.integrated(dt_ms)),
            acted(
                running(old(self)@.wasm),
                old(self)@,
                (Act::Integrate { dt_ms }),
                final(self)@,
                Outcome::Done,
            ),
    {
        proof {
            law_integrate_only_moves(self@.state.store, dt_ms);
        }
        state_mut(&mut self.store).integrate(dt_ms);
    }

    /// The number of live entities.
    pub fn entity_count(&self) -> (r: usize)
        ensures
            r == self@.state.store.bodies.len(),
    {
        state(&self.store).store.len()
    }

    /// Each live entity in the order in which they were spawned: its id, its tag,
    /// and the bit patterns of its position and its velocity.
    pub fn debug_dump(&self) -> (r: Vec<Row>)
        ensures
            lists(r@, self@.state.store.bodies),
    {
        state(&self.store).store.dump()
    }

    /// The number of live entities under a tag.
    pub fn tagged_count(&self, tag: &str) -> (r: usize)
        ensures
            r == self@.state.store.tagged(tag@).len(),
    {
        state(&self.store).store.tagged(tag).len()
    }

    /// The name of the engine that runs the guest.
    pub fn engine_backend(&self) -> (r: &'static str)
        ensures
            r@ == "wasmtime"@,
    {
        "wasmtime"
    }
}

} // verus!
