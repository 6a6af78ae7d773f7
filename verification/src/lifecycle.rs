//! The life of a guest: loaded, started by `init`, then run tick by tick.
//!
//! An engine is spoken of by what it can do with one module. What a host does is
//! then the same whatever engine runs it.

use vstd::prelude::*;

use crate::error::RuntimeError;
use crate::guest::{GuestView, World};
use crate::imports::{all_among, HostCall, Import, Value};
use crate::laws::{
    law_fresh_host_stays_in_order, law_integrate_only_moves, law_reaches_keeps, reaches, replayed,
    run, Event,
};
use crate::queries::{law_old_handle_is_dead, law_old_handles_stay_old, none_below};
use crate::rng::seeded;
use crate::state::{fresh, HostTrap, HostView};

verus! {

/// What an engine can do with one module.
pub struct Running {
    /// What the module imports, by module and name.
    pub imports: Set<(Seq<char>, Seq<char>)>,
    /// Whether there is a function under a name that takes that many 64-bit integers
    /// and returns one.
    pub has: spec_fn(Seq<char>, nat) -> bool,
    /// Whether starting the module can lead from a host's state to what is kept then.
    pub starts: spec_fn(HostView, World) -> bool,
    /// Whether running a function with arguments can lead from what is kept to what
    /// is kept then, with an answer, or none if it was stopped.
    pub runs: spec_fn(Seq<char>, Seq<i64>, World, World, Option<i64>) -> bool,
}

/// How a call of a guest ended.
#[derive(Clone, Copy, Debug, PartialEq, Eq, Structural)]
pub enum Outcome {
    Done,
    Stopped,
    Missing,
}

/// How a call of a guest ended, by what the host returned.
pub open spec fn outcome_of(r: Result<(), RuntimeError>) -> Outcome {
    match r {
        Ok(()) => Outcome::Done,
        Err(RuntimeError::MissingExport(_)) => Outcome::Missing,
        Err(_) => Outcome::Stopped,
    }
}

/// Whether a system can run to its end.
pub open spec fn system_runs(
    engine: Running,
    dt_ms: i64,
    name: Seq<char>,
    before: World,
    after: World,
) -> bool {
    exists|answer: i64| #[trigger] (engine.runs)(name, seq![dt_ms], before, after, Some(answer))
}

/// Whether the guest's systems can run one after the other, from the first of some
/// worlds to the last. What the guest does not export as a system is passed over.
pub open spec fn systems_run(
    engine: Running,
    dt_ms: i64,
    systems: Seq<Seq<char>>,
    worlds: Seq<World>,
) -> bool {
    &&& worlds.len() == systems.len() + 1
    &&& forall|i: int|
        0 <= i < systems.len() ==> if (engine.has)(#[trigger] systems[i], 1) {
            system_runs(engine, dt_ms, systems[i], worlds[i], worlds[i + 1])
        } else {
            worlds[i + 1] == worlds[i]
        }
}

/// Whether a tick can stop at a system, with the systems before it run through some
/// worlds and a last one left.
pub open spec fn stops_at(
    engine: Running,
    dt_ms: i64,
    systems: Seq<Seq<char>>,
    worlds: Seq<World>,
    last: World,
) -> bool {
    &&& 1 <= worlds.len() <= systems.len()
    &&& systems_run(engine, dt_ms, systems.take(worlds.len() - 1), worlds)
    &&& (engine.has)(systems[worlds.len() - 1], 1)
    &&& (engine.runs)(systems[worlds.len() - 1], seq![dt_ms], worlds.last(), last, None)
}

/// What is kept when the systems of a tick begin to run.
pub open spec fn tick_start(guest: GuestView) -> World {
    World { host: guest.state.tick_begun(), guest: guest.memory }
}

/// What is kept when a tick whose systems have all run is over.
pub open spec fn tick_end(world: World, dt_ms: i64) -> World {
    World { host: world.host.tick_ended(dt_ms), ..world }
}

/// Whether a tick in which every system runs can end so: the counter advances, the
/// systems run, everything moves and every query ends.
pub open spec fn tick_ends(engine: Running, guest: GuestView, dt_ms: i64, after: World) -> bool {
    exists|worlds: Seq<World>|
        {
            &&& #[trigger] systems_run(engine, dt_ms, guest.systems, worlds)
            &&& worlds[0] == tick_start(guest)
            &&& reaches(worlds[0].host, worlds.last().host)
            &&& after == tick_end(worlds.last(), dt_ms)
        }
}

/// Whether a tick in which a system is stopped can end so.
pub open spec fn tick_breaks_off(
    engine: Running,
    guest: GuestView,
    dt_ms: i64,
    after: World,
) -> bool {
    exists|worlds: Seq<World>|
        {
            &&& #[trigger] stops_at(engine, dt_ms, guest.systems, worlds, after)
            &&& worlds[0] == tick_start(guest)
            &&& reaches(worlds[0].host, after.host)
        }
}

/// Whether a tick can end so.
pub open spec fn ticked(
    engine: Running,
    guest: GuestView,
    dt_ms: i64,
    after: World,
    outcome: Outcome,
) -> bool {
    match outcome {
        Outcome::Done => tick_ends(engine, guest, dt_ms, after),
        Outcome::Stopped => tick_breaks_off(engine, guest, dt_ms, after),
        Outcome::Missing => false,
    }
}

/// Whether calling `init` can end so: only its calls touch the host, and without one
/// nothing changes.
pub open spec fn initialized(
    engine: Running,
    guest: GuestView,
    after: World,
    outcome: Outcome,
) -> bool {
    &&& reaches(guest.state, after.host)
    &&& match outcome {
        Outcome::Done => (engine.has)("init"@, 0) && exists|answer: i64| #[trigger]
            (engine.runs)("init"@, Seq::empty(), guest.world(), after, Some(answer)),
        Outcome::Stopped => (engine.has)("init"@, 0) && (engine.runs)(
            "init"@,
            Seq::empty(),
            guest.world(),
            after,
            None,
        ),
        Outcome::Missing => !(engine.has)("init"@, 0) && after == guest.world(),
    }
}

/// Whether loading a module can lead to a host: the host has all that the module
/// imports, and only the calls of the guest's start function touch it.
pub open spec fn loaded(engine: Running, seed: u64, host: GuestView) -> bool {
    &&& all_among(engine.imports, Import::all())
    &&& (engine.starts)(fresh(seed), host.world())
    &&& reaches(fresh(seed), host.state)
}

/// What is asked of a host.
pub enum Act {
    SetAxis { name: Seq<char>, value: u32 },
    Init,
    Tick { dt_ms: i64 },
    Integrate { dt_ms: i64 },
}

/// Whether an act can lead from a host to a host, and end so.
pub open spec fn acted(
    engine: Running,
    before: GuestView,
    act: Act,
    after: GuestView,
    outcome: Outcome,
) -> bool {
    match act {
        Act::SetAxis { name, value } => {
            &&& after == before.with_state(
                HostView { axes: before.state.axes.insert(name, value), ..before.state },
            )
            &&& outcome is Done
        },
        Act::Init => {
            &&& after == before.at(after.world())
            &&& initialized(engine, before, after.world(), outcome)
        },
        Act::Tick { dt_ms } => {
            &&& after == before.at(after.world())
            &&& ticked(engine, before, dt_ms, after.world(), outcome)
        },
        Act::Integrate { dt_ms } => {
            &&& after == before.with_state(before.state.integrated(dt_ms))
            &&& outcome is Done
        },
    }
}

/// Whether acts can lead through some hosts, one after the other, and end so.
pub open spec fn acted_through(
    engine: Running,
    hosts: Seq<GuestView>,
    acts: Seq<Act>,
    outcomes: Seq<Outcome>,
) -> bool {
    &&& hosts.len() == acts.len() + 1
    &&& outcomes.len() == acts.len()
    &&& forall|i: int|
        0 <= i < acts.len() ==> acted(
            engine,
            hosts[i],
            #[trigger] acts[i],
            hosts[i + 1],
            outcomes[i],
        )
}

/// Whether two engines, or one at two times, do the same with a module wherever they
/// start from the same: what they do does not rest on the machine.
pub open spec fn agree(a: Running, b: Running) -> bool {
    &&& forall|name: Seq<char>, arity: nat| #[trigger]
        (a.has)(name, arity) == (b.has)(name, arity)
    &&& forall|before: HostView, x: World, y: World|
        #![trigger (a.starts)(before, x), (b.starts)(before, y)]
        (a.starts)(before, x) && (b.starts)(before, y) ==> x == y
    &&& forall|
        name: Seq<char>,
        args: Seq<i64>,
        before: World,
        x: World,
        y: World,
        p: Option<i64>,
        q: Option<i64>,
    |
        #![trigger (a.runs)(name, args, before, x, p), (b.runs)(name, args, before, y, q)]
        (a.runs)(name, args, before, x, p) && (b.runs)(name, args, before, y, q) ==> x == y && p
            == q
}

/// Where engines agree, systems run through the same worlds, as far as both run.
proof fn lemma_worlds_agree(
    a: Running,
    b: Running,
    dt_ms: i64,
    systems: Seq<Seq<char>>,
    more: Seq<Seq<char>>,
    xs: Seq<World>,
    ys: Seq<World>,
    n: nat,
)
    requires
        agree(a, b),
        systems_run(a, dt_ms, systems, xs),
        systems_run(b, dt_ms, more, ys),
        xs[0] == ys[0],
        n <= systems.len(),
        n <= more.len(),
        systems.take(n as int) == more.take(n as int),
    ensures
        xs[n as int] == ys[n as int],
    decreases n,
{
    if n > 0 {
        let k = n - 1;
        assert(systems.take(n as int)[k] == systems[k] && more.take(n as int)[k] == more[k]);
        assert(systems.take(k) =~= systems.take(n as int).take(k));
        assert(more.take(k) =~= more.take(n as int).take(k));
        lemma_worlds_agree(a, b, dt_ms, systems, more, xs, ys, k as nat);
        let name = systems[k];
        assert((a.has)(name, 1) == (b.has)(name, 1));
        if (a.has)(name, 1) {
            assert(system_runs(a, dt_ms, name, xs[k], xs[k + 1]));
            assert(system_runs(b, dt_ms, name, ys[k], ys[k + 1]));
            let p = choose|p: i64| #[trigger]
                (a.runs)(name, seq![dt_ms], xs[k], xs[k + 1], Some(p));
            let q = choose|q: i64| #[trigger]
                (b.runs)(name, seq![dt_ms], ys[k], ys[k + 1], Some(q));
            assert((a.runs)(name, seq![dt_ms], xs[k], xs[k + 1], Some(p)));
            assert((b.runs)(name, seq![dt_ms], ys[k], ys[k + 1], Some(q)));
        }
    }
}

/// Where engines agree, a system that ran to its end on one is not stopped on the
/// other.
proof fn lemma_no_stop(
    a: Running,
    b: Running,
    dt_ms: i64,
    systems: Seq<Seq<char>>,
    more: Seq<Seq<char>>,
    xs: Seq<World>,
    ys: Seq<World>,
    last: World,
)
    requires
        agree(a, b),
        systems_run(a, dt_ms, systems, xs),
        stops_at(b, dt_ms, more, ys, last),
        xs[0] == ys[0],
        ys.len() <= systems.len() <= more.len(),
        systems == more.take(systems.len() as int),
    ensures
        xs.len() < ys.len(),
{
    let k = ys.len() - 1;
    let name = more[k];
    assert(systems[k] == name);
    assert(systems.take(k) =~= more.take(k).take(k));
    lemma_worlds_agree(a, b, dt_ms, systems, more.take(k), xs, ys, k as nat);
    assert((a.has)(name, 1) == (b.has)(name, 1));
    assert(system_runs(a, dt_ms, name, xs[k], xs[k + 1]));
    let p = choose|p: i64| #[trigger] (a.runs)(name, seq![dt_ms], xs[k], xs[k + 1], Some(p));
    assert((a.runs)(name, seq![dt_ms], xs[k], xs[k + 1], Some(p)));
    assert((b.runs)(name, seq![dt_ms], ys[k], last, None));
}

/// Where engines agree, so do the systems' ways to the end of a tick or to the
/// system that is stopped.
proof fn lemma_stops_agree(
    a: Running,
    b: Running,
    dt_ms: i64,
    systems: Seq<Seq<char>>,
    xs: Seq<World>,
    x: World,
    ys: Seq<World>,
    y: World,
)
    requires
        agree(a, b),
        agree(b, a),
        stops_at(a, dt_ms, systems, xs, x),
        stops_at(b, dt_ms, systems, ys, y),
        xs[0] == ys[0],
    ensures
        x == y,
{
    let m = xs.len() - 1;
    let n = ys.len() - 1;
    if n < m {
        lemma_no_stop(a, b, dt_ms, systems.take(m), systems, xs, ys, y);
    } else if m < n {
        lemma_no_stop(b, a, dt_ms, systems.take(n), systems, ys, xs, x);
    } else {
        lemma_worlds_agree(a, b, dt_ms, systems.take(m), systems.take(n), xs, ys, m as nat);
        assert((a.runs)(systems[m], seq![dt_ms], xs[m], x, None));
        assert((b.runs)(systems[m], seq![dt_ms], ys[m], y, None));
    }
}

proof fn lemma_agree_turned(a: Running, b: Running)
    requires
        agree(a, b),
    ensures
        agree(b, a),
{
    assert forall|name: Seq<char>, arity: nat| #[trigger]
        (b.has)(name, arity) == (a.has)(name, arity) by {
        assert((a.has)(name, arity) == (b.has)(name, arity));
    }
}

/// Where engines agree, a tick from the same host ends in the same way: done or
/// stopped, with the same kept.
pub proof fn law_ticks_agree(
    a: Running,
    b: Running,
    guest: GuestView,
    dt_ms: i64,
    x: World,
    p: Outcome,
    y: World,
    q: Outcome,
)
    requires
        agree(a, b),
        ticked(a, guest, dt_ms, x, p),
        ticked(b, guest, dt_ms, y, q),
    ensures
        x == y,
        p == q,
{
    lemma_agree_turned(a, b);
    let systems = guest.systems;
    let n = systems.len();
    assert(systems.take(n as int) =~= systems);
    match (p, q) {
        (Outcome::Done, Outcome::Done) => {
            let xs = choose|worlds: Seq<World>|
                {
                    &&& #[trigger] systems_run(a, dt_ms, systems, worlds)
                    &&& worlds[0] == tick_start(guest)
                    &&& reaches(worlds[0].host, worlds.last().host)
                    &&& x == tick_end(worlds.last(), dt_ms)
                };
            let ys = choose|worlds: Seq<World>|
                {
                    &&& #[trigger] systems_run(b, dt_ms, systems, worlds)
                    &&& worlds[0] == tick_start(guest)
                    &&& reaches(worlds[0].host, worlds.last().host)
                    &&& y == tick_end(worlds.last(), dt_ms)
                };
            lemma_worlds_agree(a, b, dt_ms, systems, systems, xs, ys, n);
        },
        (Outcome::Done, _) => {
            let xs = choose|worlds: Seq<World>|
                {
                    &&& #[trigger] systems_run(a, dt_ms, systems, worlds)
                    &&& worlds[0] == tick_start(guest)
                    &&& reaches(worlds[0].host, worlds.last().host)
                    &&& x == tick_end(worlds.last(), dt_ms)
                };
            let ys = choose|worlds: Seq<World>|
                {
                    &&& #[trigger] stops_at(b, dt_ms, systems, worlds, y)
                    &&& worlds[0] == tick_start(guest)
                    &&& reaches(worlds[0].host, y.host)
                };
            lemma_no_stop(a, b, dt_ms, systems, systems, xs, ys, y);
        },
        (_, Outcome::Done) => {
            let ys = choose|worlds: Seq<World>|
                {
                    &&& #[trigger] systems_run(b, dt_ms, systems, worlds)
                    &&& worlds[0] == tick_start(guest)
                    &&& reaches(worlds[0].host, worlds.last().host)
                    &&& y == tick_end(worlds.last(), dt_ms)
                };
            let xs = choose|worlds: Seq<World>|
                {
                    &&& #[trigger] stops_at(a, dt_ms, systems, worlds, x)
                    &&& worlds[0] == tick_start(guest)
                    &&& reaches(worlds[0].host, x.host)
                };
            lemma_no_stop(b, a, dt_ms, systems, systems, ys, xs, x);
        },
        _ => {
            let xs = choose|worlds: Seq<World>|
                {
                    &&& #[trigger] stops_at(a, dt_ms, systems, worlds, x)
                    &&& worlds[0] == tick_start(guest)
                    &&& reaches(worlds[0].host, x.host)
                };
            let ys = choose|worlds: Seq<World>|
                {
                    &&& #[trigger] stops_at(b, dt_ms, systems, worlds, y)
                    &&& worlds[0] == tick_start(guest)
                    &&& reaches(worlds[0].host, y.host)
                };
            lemma_stops_agree(a, b, dt_ms, systems, xs, x, ys, y);
        },
    }
}

/// Where engines agree, any act on the same host ends in the same way.
pub proof fn law_acts_agree(
    a: Running,
    b: Running,
    before: GuestView,
    act: Act,
    x: GuestView,
    p: Outcome,
    y: GuestView,
    q: Outcome,
)
    requires
        agree(a, b),
        acted(a, before, act, x, p),
        acted(b, before, act, y, q),
    ensures
        x == y,
        p == q,
{
    match act {
        Act::Init => {
            assert((a.has)("init"@, 0) == (b.has)("init"@, 0));
            if p is Done {
                let m = choose|m: i64| #[trigger]
                    (a.runs)("init"@, Seq::empty(), before.world(), x.world(), Some(m));
                assert((a.runs)("init"@, Seq::empty(), before.world(), x.world(), Some(m)));
            }
            if q is Done {
                let m = choose|m: i64| #[trigger]
                    (b.runs)("init"@, Seq::empty(), before.world(), y.world(), Some(m));
                assert((b.runs)("init"@, Seq::empty(), before.world(), y.world(), Some(m)));
            }
            assert(x.world() == y.world());
        },
        Act::Tick { dt_ms } => {
            law_ticks_agree(a, b, before, dt_ms, x.world(), p, y.world(), q);
        },
        _ => {},
    }
}

/// Where engines agree, a run is a function of the module, the seed and the calls:
/// hosts loaded from the same module with seeds that start the generator alike,
/// and asked the same, return the same and are in the same state after each call,
/// bit for bit.
pub proof fn law_runs_agree(
    a: Running,
    b: Running,
    seed: u64,
    other_seed: u64,
    acts: Seq<Act>,
    xs: Seq<GuestView>,
    ps: Seq<Outcome>,
    ys: Seq<GuestView>,
    qs: Seq<Outcome>,
)
    requires
        agree(a, b),
        seeded(seed) == seeded(other_seed),
        acted_through(a, xs, acts, ps),
        acted_through(b, ys, acts, qs),
        loaded(a, seed, xs[0]),
        loaded(b, other_seed, ys[0]),
        xs[0].wasm == ys[0].wasm,
        xs[0].systems == ys[0].systems,
    ensures
        xs == ys,
        ps == qs,
{
    assert(fresh(seed) == fresh(other_seed));
    assert((a.starts)(fresh(seed), xs[0].world()));
    assert((b.starts)(fresh(seed), ys[0].world()));
    assert(xs[0].world() == ys[0].world());
    assert(xs[0] == ys[0]);
    assert forall|i: int| 0 <= i < xs.len() implies xs[i] == ys[i] by {
        lemma_runs_agree(a, b, acts, xs, ps, ys, qs, i as nat);
    }
    assert forall|i: int| 0 <= i < ps.len() implies ps[i] == qs[i] by {
        lemma_runs_agree(a, b, acts, xs, ps, ys, qs, i as nat);
        assert(acted(a, xs[i], acts[i], xs[i + 1], ps[i]));
        assert(acted(b, ys[i], acts[i], ys[i + 1], qs[i]));
        law_acts_agree(a, b, xs[i], acts[i], xs[i + 1], ps[i], ys[i + 1], qs[i]);
    }
    assert(xs =~= ys);
    assert(ps =~= qs);
}

proof fn lemma_runs_agree(
    a: Running,
    b: Running,
    acts: Seq<Act>,
    xs: Seq<GuestView>,
    ps: Seq<Outcome>,
    ys: Seq<GuestView>,
    qs: Seq<Outcome>,
    n: nat,
)
    requires
        agree(a, b),
        acted_through(a, xs, acts, ps),
        acted_through(b, ys, acts, qs),
        xs[0] == ys[0],
        n <= acts.len(),
    ensures
        xs[n as int] == ys[n as int],
    decreases n,
{
    if n > 0 {
        let k = n - 1;
        lemma_runs_agree(a, b, acts, xs, ps, ys, qs, k as nat);
        assert(acted(a, xs[k], acts[k], xs[k + 1], ps[k]));
        assert(acted(b, ys[k], acts[k], ys[k + 1], qs[k]));
        law_acts_agree(a, b, xs[k], acts[k], xs[k + 1], ps[k], ys[k + 1], qs[k]);
    }
}

/// An even seed and the odd one above it start a host alike.
pub proof fn law_even_seed_is_the_odd_above(seed: u64)
    requires
        seed % 2 == 0,
    ensures
        seeded(seed) == seeded((seed + 1) as u64),
        fresh(seed) == fresh((seed + 1) as u64),
{
    assert(seed % 2 == 0 ==> seed | 1 == ((seed + 1) as u64) | 1) by (bit_vector);
}

/// A tick can be replayed: what it does to the host is what the guest's calls do,
/// one after the other, and nothing else.
pub proof fn law_tick_is_replayable(engine: Running, guest: GuestView, dt_ms: i64, after: World)
    requires
        tick_ends(engine, guest, dt_ms, after),
    ensures
        exists|events: Seq<Event>|
            after.host == (#[trigger] run(guest.state.tick_begun(), events)).tick_ended(dt_ms),
{
    let worlds = choose|worlds: Seq<World>|
        {
            &&& #[trigger] systems_run(engine, dt_ms, guest.systems, worlds)
            &&& worlds[0] == tick_start(guest)
            &&& reaches(worlds[0].host, worlds.last().host)
            &&& after == tick_end(worlds.last(), dt_ms)
        };
    let events = choose|events: Seq<Event>|
        worlds.last().host == #[trigger] run(worlds[0].host, events);
    assert(after.host == run(guest.state.tick_begun(), events).tick_ended(dt_ms));
}

/// A whole run can be replayed, tick by tick, from the calls that the guest made.
/// The replay is the same whatever runs the guest: two hosts that started alike and
/// whose guests made the same calls are in the same state, bit for bit.
pub proof fn law_run_is_replayable(
    engine: Running,
    guest: GuestView,
    worlds: Seq<World>,
    lengths: Seq<i64>,
)
    requires
        worlds.len() == lengths.len() + 1,
        forall|i: int|
            0 <= i < lengths.len() ==> tick_ends(
                engine,
                guest.at(worlds[i]),
                #[trigger] lengths[i],
                worlds[i + 1],
            ),
    ensures
        exists|ticks: Seq<(Seq<Event>, i64)>|
            {
                &&& worlds.last().host == #[trigger] replayed(worlds[0].host, ticks)
                &&& ticks.len() == lengths.len()
                &&& forall|i: int| 0 <= i < ticks.len() ==> (#[trigger] ticks[i]).1 == lengths[i]
            },
    decreases lengths.len(),
{
    if lengths.len() == 0 {
        assert(worlds.last().host == replayed(worlds[0].host, Seq::empty()));
    } else {
        let n = lengths.len() - 1;
        let earlier = worlds.drop_last();
        let shorter = lengths.drop_last();
        assert forall|i: int| 0 <= i < shorter.len() implies tick_ends(
            engine,
            guest.at(earlier[i]),
            #[trigger] shorter[i],
            earlier[i + 1],
        ) by {
            assert(shorter[i] == lengths[i]);
        }
        law_run_is_replayable(engine, guest, earlier, shorter);
        let past = choose|ticks: Seq<(Seq<Event>, i64)>|
            {
                &&& earlier.last().host == #[trigger] replayed(earlier[0].host, ticks)
                &&& ticks.len() == shorter.len()
                &&& forall|i: int| 0 <= i < ticks.len() ==> (#[trigger] ticks[i]).1 == shorter[i]
            };
        let here = guest.at(worlds[n]);
        assert(tick_ends(engine, here, lengths[n], worlds[n + 1]));
        law_tick_is_replayable(engine, here, lengths[n], worlds[n + 1]);
        let events = choose|events: Seq<Event>|
            worlds[n + 1].host == (#[trigger] run(
                worlds[n].host.tick_begun(),
                events,
            )).tick_ended(lengths[n]);
        let ticks = past.push((events, lengths[n]));
        assert(ticks.drop_last() =~= past);
        assert(worlds.last().host == replayed(worlds[0].host, ticks));
        assert forall|i: int| 0 <= i < ticks.len() implies (#[trigger] ticks[i]).1
            == lengths[i] by {
            if i < n {
                assert(past[i].1 == shorter[i]);
            }
        }
    }
}

/// A module that imports anything under a name that the host does not have is refused.
pub proof fn law_unknown_import_is_refused(
    engine: Running,
    seed: u64,
    host: GuestView,
    module: Seq<char>,
    name: Seq<char>,
)
    requires
        engine.imports.contains((module, name)),
        forall|i: Import| (#[trigger] i.module_text()) != module || i.name_text() != name,
    ensures
        !loaded(engine, seed, host),
{
}

/// A guest without systems is only moved by a tick, which is always done, and keeps
/// what it has.
pub proof fn law_tick_without_systems(
    engine: Running,
    guest: GuestView,
    dt_ms: i64,
    after: World,
    outcome: Outcome,
)
    requires
        ticked(engine, guest, dt_ms, after, outcome),
        forall|i: int|
            0 <= i < guest.systems.len() ==> !(engine.has)(#[trigger] guest.systems[i], 1),
    ensures
        outcome is Done,
        after == tick_end(tick_start(guest), dt_ms),
{
    if outcome is Done {
        let worlds = choose|worlds: Seq<World>|
            {
                &&& #[trigger] systems_run(engine, dt_ms, guest.systems, worlds)
                &&& worlds[0] == tick_start(guest)
                &&& reaches(worlds[0].host, worlds.last().host)
                &&& after == tick_end(worlds.last(), dt_ms)
            };
        lemma_worlds_stay(engine, guest, dt_ms, worlds, guest.systems.len());
    }
}

proof fn lemma_worlds_stay(
    engine: Running,
    guest: GuestView,
    dt_ms: i64,
    worlds: Seq<World>,
    n: nat,
)
    requires
        systems_run(engine, dt_ms, guest.systems, worlds),
        n <= guest.systems.len(),
        forall|i: int|
            0 <= i < guest.systems.len() ==> !(engine.has)(#[trigger] guest.systems[i], 1),
    ensures
        worlds[n as int] == worlds[0],
    decreases n,
{
    if n > 0 {
        lemma_worlds_stay(engine, guest, dt_ms, worlds, (n - 1) as nat);
        assert(!(engine.has)(guest.systems[n - 1], 1));
    }
}

/// Systems run one after the other, each once and with the length of the tick: running
/// some and then more is running all of them, and running one is calling it, or passing
/// it over if the guest does not have it.
pub proof fn law_systems_run_one_after_the_other(
    engine: Running,
    dt_ms: i64,
    first: Seq<Seq<char>>,
    more: Seq<Seq<char>>,
    worlds: Seq<World>,
    name: Seq<char>,
    before: World,
    after: World,
)
    requires
        worlds.len() == first.len() + more.len() + 1,
    ensures
        systems_run(engine, dt_ms, first + more, worlds) <==> systems_run(
            engine,
            dt_ms,
            first,
            worlds.take(first.len() as int + 1),
        ) && systems_run(engine, dt_ms, more, worlds.skip(first.len() as int)),
        systems_run(engine, dt_ms, seq![name], seq![before, after]) <==> if (engine.has)(name, 1) {
            exists|answer: i64| #[trigger]
                (engine.runs)(name, seq![dt_ms], before, after, Some(answer))
        } else {
            after == before
        },
{
    let all = first + more;
    let n = first.len() as int;
    let a = worlds.take(n + 1);
    let b = worlds.skip(n);
    if systems_run(engine, dt_ms, all, worlds) {
        assert forall|i: int| 0 <= i < first.len() implies if (engine.has)(#[trigger] first[i], 1) {
            system_runs(engine, dt_ms, first[i], a[i], a[i + 1])
        } else {
            a[i + 1] == a[i]
        } by {
            assert(all[i] == first[i]);
        }
        assert forall|i: int| 0 <= i < more.len() implies if (engine.has)(#[trigger] more[i], 1) {
            system_runs(engine, dt_ms, more[i], b[i], b[i + 1])
        } else {
            b[i + 1] == b[i]
        } by {
            assert(all[n + i] == more[i]);
        }
    }
    if systems_run(engine, dt_ms, first, a) && systems_run(engine, dt_ms, more, b) {
        assert forall|i: int| 0 <= i < all.len() implies if (engine.has)(#[trigger] all[i], 1) {
            system_runs(engine, dt_ms, all[i], worlds[i], worlds[i + 1])
        } else {
            worlds[i + 1] == worlds[i]
        } by {
            if i < n {
                assert(all[i] == first[i]);
                assert(a[i] == worlds[i] && a[i + 1] == worlds[i + 1]);
            } else {
                assert(all[i] == more[i - n]);
                assert(b[i - n] == worlds[i] && b[i - n + 1] == worlds[i + 1]);
            }
        }
    }
    let one = seq![name];
    let two = seq![before, after];
    assert(one[0] == name && two[0] == before && two[1] == after);
    if systems_run(engine, dt_ms, one, two) {
        assert((engine.has)(one[0], 1) == (engine.has)(name, 1));
    }
}

/// A tick that breaks off leaves the host as its calls have made it: nothing moves and
/// no query ends for it, and the counter has advanced.
pub proof fn law_stopped_tick_is_only_its_calls(
    engine: Running,
    guest: GuestView,
    dt_ms: i64,
    after: World,
)
    requires
        ticked(engine, guest, dt_ms, after, Outcome::Stopped),
        guest.state.tick_n < i64::MAX,
    ensures
        exists|events: Seq<Event>|
            after.host == #[trigger] run(guest.state.tick_begun(), events),
        after.host.tick_n == guest.state.tick_n + 1,
{
    let ran = lemma_tick_reaches(engine, guest, dt_ms, after, Outcome::Stopped);
    law_reaches_keeps(guest.state.tick_begun(), ran);
    let events = choose|events: Seq<Event>| ran == #[trigger] run(guest.state.tick_begun(), events);
    assert(after.host == run(guest.state.tick_begun(), events));
}

/// Setting an axis sets that axis to that value and nothing else; moving moves every
/// entity and does nothing else; and neither can fail.
pub proof fn law_acts_do_what_they_say(
    engine: Running,
    before: GuestView,
    act: Act,
    after: GuestView,
    outcome: Outcome,
    other: Seq<char>,
)
    requires
        acted(engine, before, act, after, outcome),
    ensures
        act matches Act::SetAxis { name, value } ==> {
            &&& outcome is Done
            &&& after.state.axes.contains_key(name) && after.state.axes[name] == value
            &&& other != name ==> after.state.axes.contains_key(other)
                == before.state.axes.contains_key(other)
            &&& other != name && after.state.axes.contains_key(other) ==> after.state.axes[other]
                == before.state.axes[other]
            &&& after.state == HostView { axes: after.state.axes, ..before.state }
        },
        act matches Act::Integrate { dt_ms } ==> {
            &&& outcome is Done
            &&& after.state == HostView {
                store: before.state.store.integrated(dt_ms),
                ..before.state
            }
        },
        act is SetAxis || act is Integrate ==> after.memory == before.memory,
        after.wasm == before.wasm,
        after.systems == before.systems,
{
}

/// How many of some acts are ticks.
pub open spec fn ticks_in(acts: Seq<Act>) -> nat
    decreases acts.len(),
{
    if acts.len() == 0 {
        0
    } else {
        ticks_in(acts.drop_last()) + if acts.last() is Tick {
            1nat
        } else {
            0
        }
    }
}

/// Whether a guest's calls can lead to a state in the course of an act.
pub open spec fn met_in(act: Act, before: GuestView, now: HostView) -> bool {
    match act {
        Act::Init => reaches(before.state, now),
        Act::Tick { .. } => reaches(before.state.tick_begun(), now),
        _ => false,
    }
}

/// What holds of a host after a number of ticks, whatever its guest did.
pub open spec fn in_order(s: HostView, ticks: nat) -> bool {
    &&& s.store.wf()
    &&& s.rng != 0
    &&& s.next_query >= 1
    &&& s.tick_n == ticks
}

proof fn lemma_reached_in_order(a: HostView, b: HostView, ticks: nat)
    requires
        reaches(a, b),
        in_order(a, ticks),
    ensures
        in_order(b, ticks),
{
    law_reaches_keeps(a, b);
}

/// What an act leaves in order.
proof fn lemma_acted_in_order(
    engine: Running,
    before: GuestView,
    act: Act,
    after: GuestView,
    outcome: Outcome,
    ticks: nat,
)
    requires
        acted(engine, before, act, after, outcome),
        in_order(before.state, ticks),
        ticks < i64::MAX,
    ensures
        in_order(
            after.state,
            ticks + if act is Tick {
                1nat
            } else {
                0
            },
        ),
{
    match act {
        Act::SetAxis { .. } => {},
        Act::Init => {
            lemma_reached_in_order(before.state, after.state, ticks);
        },
        Act::Tick { dt_ms } => {
            let ran = lemma_tick_reaches(engine, before, dt_ms, after.world(), outcome);
            lemma_reached_in_order(before.state.tick_begun(), ran, ticks + 1);
            law_integrate_only_moves(ran.store, dt_ms);
        },
        Act::Integrate { dt_ms } => {
            law_integrate_only_moves(before.state.store, dt_ms);
        },
    }
}

/// The state that the systems of a tick lead to, from which it ends or breaks off.
pub(crate) proof fn lemma_tick_reaches(
    engine: Running,
    guest: GuestView,
    dt_ms: i64,
    after: World,
    outcome: Outcome,
) -> (ran: HostView)
    requires
        ticked(engine, guest, dt_ms, after, outcome),
    ensures
        reaches(guest.state.tick_begun(), ran),
        outcome is Done ==> after.host == ran.tick_ended(dt_ms),
        outcome is Stopped ==> after.host == ran,
        !(outcome is Missing),
{
    if outcome is Done {
        let worlds = choose|worlds: Seq<World>|
            {
                &&& #[trigger] systems_run(engine, dt_ms, guest.systems, worlds)
                &&& worlds[0] == tick_start(guest)
                &&& reaches(worlds[0].host, worlds.last().host)
                &&& after == tick_end(worlds.last(), dt_ms)
            };
        worlds.last().host
    } else {
        after.host
    }
}

/// However long a host lives, and however its ticks end: no two entities share an id,
/// they stand in the order of their ids, every id was handed out, the generator has
/// not stalled, and the counter counts the ticks.
pub proof fn law_life_is_in_order(
    engine: Running,
    seed: u64,
    hosts: Seq<GuestView>,
    acts: Seq<Act>,
    outcomes: Seq<Outcome>,
    n: nat,
)
    requires
        loaded(engine, seed, hosts[0]),
        acted_through(engine, hosts, acts, outcomes),
        n <= acts.len() <= i64::MAX,
    ensures
        in_order(hosts[n as int].state, ticks_in(acts.take(n as int))),
        ticks_in(acts.take(n as int)) <= n,
    decreases n,
{
    if n == 0 {
        law_fresh_host_stays_in_order(seed, hosts[0].state);
    } else {
        let k = n - 1;
        law_life_is_in_order(engine, seed, hosts, acts, outcomes, k as nat);
        assert(acts.take(n as int).drop_last() =~= acts.take(k));
        assert(acted(engine, hosts[k], acts[k], hosts[k + 1], outcomes[k]));
        lemma_acted_in_order(
            engine,
            hosts[k],
            acts[k],
            hosts[k + 1],
            outcomes[k],
            ticks_in(acts.take(k)),
        );
    }
}

/// The same of every state that the guest meets. What it is told for the time is the
/// number of ticks begun since it was loaded: zero in an `init` before the first, and
/// `k` throughout the `k`-th, however long the ticks are; to ask changes nothing.
pub proof fn law_time_counts_ticks(
    engine: Running,
    seed: u64,
    hosts: Seq<GuestView>,
    acts: Seq<Act>,
    outcomes: Seq<Outcome>,
    n: int,
    now: HostView,
    memory: Option<Seq<u8>>,
)
    requires
        loaded(engine, seed, hosts[0]),
        acted_through(engine, hosts, acts, outcomes),
        0 <= n < acts.len() <= i64::MAX,
        met_in(acts[n], hosts[n], now),
    ensures
        in_order(now, ticks_in(acts.take(n + 1))),
        now.step(memory, HostCall::Tick) == (
            now,
            Ok::<Option<Value>, HostTrap>(Some(Value::I64(ticks_in(acts.take(n + 1)) as i64))),
        ),
{
    law_life_is_in_order(engine, seed, hosts, acts, outcomes, n as nat);
    let before = hosts[n].state;
    let ticks = ticks_in(acts.take(n));
    assert(acts.take(n + 1).drop_last() =~= acts.take(n));
    if acts[n] is Tick {
        lemma_reached_in_order(before.tick_begun(), now, ticks + 1);
    } else {
        lemma_reached_in_order(before, now, ticks);
    }
}

/// A query does not outlive the tick that it was begun in or before: once a tick is
/// over, every handle given out so far is answered with -1, which changes nothing, in
/// whatever comes after, and none is given out again.
pub proof fn law_queries_end_with_their_tick(
    engine: Running,
    hosts: Seq<GuestView>,
    acts: Seq<Act>,
    outcomes: Seq<Outcome>,
    tick: int,
    n: int,
    now: HostView,
    handle: i64,
    tag: Seq<char>,
)
    requires
        acted_through(engine, hosts, acts, outcomes),
        0 <= tick < n < acts.len(),
        acts[tick] is Tick,
        outcomes[tick] is Done,
        handle < hosts[tick + 1].state.next_query,
        met_in(acts[n], hosts[n], now),
    ensures
        now.query_next(handle) == (
            now,
            Ok::<Option<Value>, HostTrap>(Some(Value::I64((-1) as i64))),
        ),
        now.query_begin(tag).1 != Ok::<Option<Value>, HostTrap>(Some(Value::I64(handle))),
{
    let q = hosts[tick + 1].state.next_query;
    assert(acted(engine, hosts[tick], acts[tick], hosts[tick + 1], outcomes[tick]));
    let dt_ms = acts[tick]->Tick_dt_ms;
    let ran = lemma_tick_reaches(
        engine,
        hosts[tick],
        dt_ms,
        hosts[tick + 1].world(),
        outcomes[tick],
    );
    assert(none_below(hosts[tick + 1].state, q));
    lemma_old_through_acts(engine, hosts, acts, outcomes, tick + 1, n, q);
    if acts[n] is Tick {
        lemma_old_reached(hosts[n].state.tick_begun(), now, q);
    } else {
        lemma_old_reached(hosts[n].state, now, q);
    }
    law_old_handle_is_dead(now, q, handle, tag);
}

proof fn lemma_old_reached(a: HostView, b: HostView, q: i64)
    requires
        reaches(a, b),
        none_below(a, q),
    ensures
        none_below(b, q),
{
    let events = choose|events: Seq<Event>| b == #[trigger] run(a, events);
    law_old_handles_stay_old(a, events, q);
}

/// No act brings a handle back.
proof fn lemma_old_through_acts(
    engine: Running,
    hosts: Seq<GuestView>,
    acts: Seq<Act>,
    outcomes: Seq<Outcome>,
    from: int,
    n: int,
    q: i64,
)
    requires
        acted_through(engine, hosts, acts, outcomes),
        0 <= from <= n <= acts.len(),
        none_below(hosts[from].state, q),
    ensures
        none_below(hosts[n].state, q),
    decreases n - from,
{
    if from < n {
        let k = n - 1;
        lemma_old_through_acts(engine, hosts, acts, outcomes, from, k, q);
        assert(acted(engine, hosts[k], acts[k], hosts[k + 1], outcomes[k]));
        match acts[k] {
            Act::Init => {
                lemma_old_reached(hosts[k].state, hosts[n].state, q);
            },
            Act::Tick { dt_ms } => {
                let ran = lemma_tick_reaches(
                    engine,
                    hosts[k],
                    dt_ms,
                    hosts[n].world(),
                    outcomes[k],
                );
                lemma_old_reached(hosts[k].state.tick_begun(), ran, q);
            },
            _ => {},
        }
    }
}

} // verus!
