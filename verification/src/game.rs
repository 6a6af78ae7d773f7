//! A game: a host driven by two axes, and what is to be seen of it.

use vstd::prelude::*;

use crate::binary32::{product, times};
use crate::ecs::{lists, BodyView, EcsView, Row};
use crate::error::RuntimeError;
use crate::exports::{export_names, lacks_start, tick_names};
use crate::guest::GuestView;
use crate::host::{running, KamiHost};
use crate::lifecycle::{initialized, loaded, outcome_of, ticked, Outcome};
use crate::state::{fresh, HostView};

verus! {

/// The milliseconds of a frame.
pub const FRAME_MS: i64 = 16;

/// An entity as it is seen: its tag, its place in the plane and its id.
pub struct Sighting {
    pub tag: String,
    pub pos: [u32; 2],
    pub id: u32,
}

/// An entity as it is seen, as contracts speak of it.
#[verifier::ext_equal]
pub struct SightingView {
    pub tag: Seq<char>,
    pub pos: [u32; 2],
    pub id: u32,
}

impl View for Sighting {
    type V = SightingView;

    open spec fn view(&self) -> SightingView {
        SightingView { tag: self.tag@, pos: self.pos, id: self.id }
    }
}

/// The views of a list of sightings.
pub open spec fn sightings(list: Seq<Sighting>) -> Seq<SightingView> {
    list.map_values(|s: Sighting| s@)
}

/// How an entity is seen.
pub open spec fn seen(b: BodyView) -> SightingView {
    SightingView { tag: b.tag, pos: [b.entity.pos[0], b.entity.pos[1]], id: b.id }
}

/// How all entities are seen, in the order in which they were spawned.
pub open spec fn all_seen(bodies: Seq<BodyView>) -> Seq<SightingView> {
    bodies.map_values(|b: BodyView| seen(b))
}

/// Where the player is: where the last entity under the player's tag is, and at
/// the origin if there is none.
pub open spec fn player_place(list: Seq<SightingView>) -> [u32; 2]
    decreases list.len(),
{
    if list.len() == 0 {
        [0u32, 0u32]
    } else if list.last().tag == "shiro-pico"@ {
        list.last().pos
    } else {
        player_place(list.drop_last())
    }
}

/// The guest with the player's two axes set.
pub open spec fn aimed(g: GuestView, mx: u32, my: u32, player_speed: u32) -> GuestView {
    let axes = g.state.axes.insert("MoveX"@, product(mx, player_speed)).insert(
        "MoveY"@,
        product(my, player_speed),
    );
    GuestView { state: HostView { axes, ..g.state }, ..g }
}

/// A loaded game.
pub struct Game {
    host: KamiHost,
}

impl View for Game {
    type V = GuestView;

    closed spec fn view(&self) -> GuestView {
        self.host@
    }
}

impl Game {
    /// The parts of the host belong together.
    pub closed spec fn linked(self) -> bool {
        self.host.linked()
    }

    /// What holds of every game: its parts belong together, its entities are in
    /// order, and its generator never stalls.
    pub open spec fn wf(self) -> bool {
        &&& self.linked()
        &&& self@.state.store.wf()
        &&& self@.state.rng != 0
    }

    /// What starting a game comes to: its guest's `init` has run, or the guest has
    /// none, or what the engine said.
    pub open spec fn is_started(r: Result<Self, RuntimeError>, host: GuestView) -> bool {
        match r {
            Ok(game) => {
                &&& game.wf()
                &&& game@ == host.at(game@.world())
                &&& game@.state.tick_n == host.state.tick_n
                &&& initialized(running(host.wasm), host, game@.world(), Outcome::Done)
            },
            Err(RuntimeError::MissingExport(name)) => {
                &&& name@ == "init"@
                &&& !(running(host.wasm).has)("init"@, 0)
            },
            Err(e) => e is Backend && (running(host.wasm).has)("init"@, 0),
        }
    }

    /// What loading and starting a game comes to.
    pub open spec fn is_new(r: Result<Self, RuntimeError>, wasm: Seq<u8>, seed: u64) -> bool {
        match r {
            Ok(game) => {
                &&& game.wf()
                &&& game@.wasm == wasm
                &&& game@.systems == tick_names(export_names(wasm))
                &&& game@.state.tick_n == 0
                &&& exists|host: GuestView|
                    {
                        &&& #[trigger] loaded(running(wasm), seed, host)
                        &&& game@ == host.at(game@.world())
                        &&& lacks_start(wasm) ==> host.state == fresh(seed)
                        &&& initialized(running(wasm), host, game@.world(), Outcome::Done)
                    }
            },
            Err(RuntimeError::MissingExport(name)) => {
                &&& name@ == "init"@
                &&& !(running(wasm).has)("init"@, 0)
            },
            Err(e) => e is Backend,
        }
    }

    /// Starts a game on a host that was just loaded.
    pub fn start(host: KamiHost) -> (r: Result<Self, RuntimeError>)
        requires
            host.wf(),
        ensures
            Self::is_started(r, host@),
    {
        let mut host = host;
        match host.call_init() {
            Ok(()) => Ok(Self { host }),
            Err(e) => Err(e),
        }
    }

    /// Loads a game and calls its `init`.
    pub fn new(wasm: &[u8], seed: u64) -> (r: Result<Self, RuntimeError>)
        ensures
            Self::is_new(r, wasm@, seed),
    {
        match KamiHost::load(wasm, seed) {
            Ok(host) => {
                assert(loaded(running(wasm@), seed, host@));
                Self::start(host)
            },
            Err(e) => Err(e),
        }
    }

    /// Sets the axes that move the player and runs one tick. The arena bounds
    /// nothing here.
    pub fn step(&mut self, mx: u32, my: u32, player_speed: u32, arena: u32) -> (r: Result<
        (),
        RuntimeError,
    >)
        requires
            old(self).wf(),
            old(self)@.state.tick_n < i64::MAX,
        ensures
            final(self).wf(),
            final(self)@ == old(self)@.at(final(self)@.world()),
            final(self)@.state.tick_n == old(self)@.state.tick_n + 1,
            ticked(
                running(old(self)@.wasm),
                aimed(old(self)@, mx, my, player_speed),
                FRAME_MS,
                final(self)@.world(),
                outcome_of(r),
            ),
            r matches Err(e) ==> e is Backend,
    {
        self.host.set_axis("MoveX", times(mx, player_speed));
        self.host.set_axis("MoveY", times(my, player_speed));
        assert(self@ =~= aimed(old(self)@, mx, my, player_speed));
        self.host.tick(FRAME_MS)
    }

    /// Where the player is, and every entity.
    pub fn snapshot(&self) -> (r: ([u32; 2], Vec<Sighting>))
        ensures
            sightings(r.1@) == all_seen(self@.state.store.bodies),
            r.0 == player_place(all_seen(self@.state.store.bodies)),
    {
        let rows: Vec<Row> = self.host.debug_dump();
        let ghost bodies = self@.state.store.bodies;
        let ghost all = all_seen(bodies);
        let duo: String = "shiro-pico".to_owned();
        let mut player: [u32; 2] = [0, 0];
        let mut out: Vec<Sighting> = Vec::new();
        let mut i: usize = 0;
        assert(sightings(out@) =~= all.take(0));
        while i < rows.len()
            invariant
                i <= rows.len(),
                lists(rows@, bodies),
                all == all_seen(bodies),
                duo@ == "shiro-pico"@,
                sightings(out@) == all.take(i as int),
                player == player_place(all.take(i as int)),
            decreases rows.len() - i,
        {
            let row: &Row = &rows[i];
            let p: [u32; 2] = [row.2[0], row.2[1]];
            if row.1 == duo {
                player = p;
            }
            let s = Sighting { tag: row.1.clone(), pos: p, id: row.0 };
            proof {
                assert(all.take(i + 1).drop_last() =~= all.take(i as int));
                assert(s@ == seen(bodies[i as int]));
                assert(sightings(out@.push(s)) =~= sightings(out@).push(s@));
            }
            out.push(s);
            i = i + 1;
            assert(sightings(out@) =~= all.take(i as int));
        }
        assert(all.take(i as int) =~= all);
        (player, out)
    }

    /// The number of live entities.
    pub fn entity_count(&self) -> (r: usize)
        ensures
            r == self@.state.store.bodies.len(),
    {
        self.host.entity_count()
    }

    /// The name of the engine that runs the game.
    pub fn backend(&self) -> (r: &'static str)
        ensures
            r@ == "wasmtime"@,
    {
        self.host.engine_backend()
    }
}

/// Entities in order are seen under different ids, in the order of the ids.
pub proof fn law_sightings_differ(store: EcsView, i: int, j: int)
    requires
        store.wf(),
        0 <= i < j < all_seen(store.bodies).len(),
    ensures
        all_seen(store.bodies)[i].id < all_seen(store.bodies)[j].id,
{
    assert(store.bodies[i].id < store.bodies[j].id);
}

} // verus!
