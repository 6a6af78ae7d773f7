//! The host's state, and what each call of an imported function does to it.

use std::collections::HashMap;

use vstd::hash_map::StringHashMap;
use vstd::prelude::*;

use crate::ecs::{find, ids, EcsStore, EcsView};
use crate::imports::{decode, decoded, HostCall, Import, Value};
use crate::rng::{draw, reduce, seeded, step64, xorshift64};
use crate::text::{text_of, utf8_lossy};

verus! {

broadcast use vstd::std_specs::hash::group_hash_axioms;

/// Why the host refuses a call.
#[derive(Clone, Copy, Debug, PartialEq, Eq, Structural)]
pub enum HostTrap {
    /// Every entity id has been handed out.
    IdsExhausted,
    /// Every query handle has been handed out.
    QueriesExhausted,
    /// The arguments are not of the types of the import.
    BadArguments,
}

impl HostTrap {
    pub open spec fn text_spec(self) -> Seq<char> {
        match self {
            HostTrap::IdsExhausted => "no entity id is left"@,
            HostTrap::QueriesExhausted => "no query handle is left"@,
            HostTrap::BadArguments => "the arguments do not fit the import"@,
        }
    }

    pub fn text(self) -> (r: &'static str)
        ensures
            r@ == self.text_spec(),
    {
        match self {
            HostTrap::IdsExhausted => "no entity id is left",
            HostTrap::QueriesExhausted => "no query handle is left",
            HostTrap::BadArguments => "the arguments do not fit the import",
        }
    }
}

/// Everything the imported functions read and write.
pub struct HostState {
    pub store: EcsStore,
    /// Input axes by name, each value as a bit pattern.
    pub axes: StringHashMap<u32>,
    pub tick_n: i64,
    /// The ids that a running query has still to hand out, the next one last.
    pub query_cursors: HashMap<i64, Vec<u32>>,
    pub next_query: i64,
    /// The state of the random number generator.
    pub rng: u64,
}

/// The host's state as contracts speak of it.
#[verifier::ext_equal]
pub struct HostView {
    pub store: EcsView,
    pub axes: Map<Seq<char>, u32>,
    pub tick_n: i64,
    pub cursors: Map<i64, Seq<u32>>,
    pub next_query: i64,
    pub rng: u64,
}

/// The ids left in each running query.
pub open spec fn cursor_views(m: Map<i64, Vec<u32>>) -> Map<i64, Seq<u32>> {
    m.map_values(|v: Vec<u32>| v@)
}

impl View for HostState {
    type V = HostView;

    open spec fn view(&self) -> HostView {
        HostView {
            store: self.store@,
            axes: self.axes@,
            tick_n: self.tick_n,
            cursors: cursor_views(self.query_cursors@),
            next_query: self.next_query,
            rng: self.rng,
        }
    }
}

/// The state that a host starts in.
pub open spec fn fresh(seed: u64) -> HostView {
    HostView {
        store: EcsView { next_id: 0, bodies: Seq::empty() },
        axes: Map::empty(),
        tick_n: 0,
        cursors: Map::empty(),
        next_query: 1,
        rng: seeded(seed),
    }
}

/// The text at a place in the guest's memory. A place that is not wholly inside
/// it holds no text.
pub open spec fn guest_text(memory: Option<Seq<u8>>, ptr: i32, len: i32) -> Seq<char> {
    match memory {
        Some(m) if len > 0 && ptr >= 0 && ptr + len <= m.len() => text_of(
            m.subrange(ptr as int, ptr + len),
        ),
        _ => Seq::empty(),
    }
}

/// The entity id in the low half of a guest's handle.
pub open spec fn entity_id(eid: i64) -> u32 {
    (eid as int % 0x1_0000_0000) as u32
}

/// The coordinate of an entity, or zero if there is none.
pub open spec fn coordinate(store: EcsView, eid: i64, axis: int) -> u32 {
    match find(store.bodies, entity_id(eid)) {
        Some(e) => e.pos[axis],
        None => 0,
    }
}

/// What a call answers: a value, nothing, or a refusal.
pub type Reply = Result<Option<Value>, HostTrap>;

impl HostView {
    pub open spec fn spawn(self, tag: Seq<char>) -> (HostView, Reply) {
        if self.store.next_id < u32::MAX {
            (
                HostView { store: self.store.spawned(tag), ..self },
                Ok(Some(Value::I64(self.store.next_id as i64))),
            )
        } else {
            (self, Err(HostTrap::IdsExhausted))
        }
    }

    pub open spec fn query_begin(self, tag: Seq<char>) -> (HostView, Reply) {
        if self.next_query < i64::MAX {
            (
                HostView {
                    cursors: self.cursors.insert(self.next_query, ids(self.store.tagged(tag))),
                    next_query: (self.next_query + 1) as i64,
                    ..self
                },
                Ok(Some(Value::I64(self.next_query))),
            )
        } else {
            (self, Err(HostTrap::QueriesExhausted))
        }
    }

    pub open spec fn query_next(self, handle: i64) -> (HostView, Reply) {
        if !self.cursors.contains_key(handle) {
            (self, Ok(Some(Value::I64((-1) as i64))))
        } else if self.cursors[handle].len() == 0 {
            (
                HostView { cursors: self.cursors.remove(handle), ..self },
                Ok(Some(Value::I64((-1) as i64))),
            )
        } else {
            (
                HostView {
                    cursors: self.cursors.insert(handle, self.cursors[handle].drop_last()),
                    ..self
                },
                Ok(Some(Value::I64(self.cursors[handle].last() as i64))),
            )
        }
    }

    pub open spec fn random_int(self, n: i64) -> (HostView, Reply) {
        if n <= 0 {
            (self, Ok(Some(Value::I64(0))))
        } else {
            (
                HostView { rng: xorshift64(self.rng), ..self },
                Ok(Some(Value::I64(draw(xorshift64(self.rng), n)))),
            )
        }
    }

    /// The state after a call and what the call answers.
    pub open spec fn step(self, memory: Option<Seq<u8>>, call: HostCall) -> (HostView, Reply) {
        match call {
            HostCall::Spawn { ptr, len } => self.spawn(guest_text(memory, ptr, len)),
            HostCall::Despawn { eid } => (
                HostView { store: self.store.despawned(entity_id(eid)), ..self },
                Ok(None),
            ),
            HostCall::SetPosition { eid, x, y, z } => (
                HostView { store: self.store.placed(entity_id(eid), [x, y, z]), ..self },
                Ok(None),
            ),
            HostCall::SetVelocity { eid, x, y, z } => (
                HostView { store: self.store.driven(entity_id(eid), [x, y, z]), ..self },
                Ok(None),
            ),
            HostCall::GetX { eid } => (
                self,
                Ok(Some(Value::F32(coordinate(self.store, eid, 0)))),
            ),
            HostCall::GetY { eid } => (
                self,
                Ok(Some(Value::F32(coordinate(self.store, eid, 1)))),
            ),
            HostCall::CountTagged { ptr, len } => (
                self,
                Ok(
                    Some(
                        Value::I64(
                            self.store.tagged(guest_text(memory, ptr, len)).len() as i64,
                        ),
                    ),
                ),
            ),
            HostCall::QueryBegin { ptr, len } => self.query_begin(guest_text(memory, ptr, len)),
            HostCall::QueryNext { handle } => self.query_next(handle),
            HostCall::Nearest { ptr, len, x, y, reach } => (
                self,
                Ok(
                    Some(
                        Value::I64(self.store.nearest(guest_text(memory, ptr, len), x, y, reach)),
                    ),
                ),
            ),
            HostCall::MoveToward { eid, target, speed } => (
                HostView {
                    store: self.store.steered(entity_id(eid), entity_id(target), speed),
                    ..self
                },
                Ok(None),
            ),
            HostCall::Axis { ptr, len } => {
                let name = guest_text(memory, ptr, len);
                (
                    self,
                    Ok(
                        Some(
                            Value::F32(
                                if self.axes.contains_key(name) {
                                    self.axes[name]
                                } else {
                                    0
                                },
                            ),
                        ),
                    ),
                )
            },
            HostCall::RandomInt { n } => self.random_int(n),
            HostCall::Tick => (self, Ok(Some(Value::I64(self.tick_n)))),
        }
    }

    /// The same for raw arguments.
    pub open spec fn answer(
        self,
        memory: Option<Seq<u8>>,
        import: Import,
        args: Seq<Value>,
    ) -> (HostView, Reply) {
        match decoded(import, args) {
            Some(call) => self.step(memory, call),
            None => (self, Err(HostTrap::BadArguments)),
        }
    }

    /// The state in which the systems of a tick run.
    pub open spec fn tick_begun(self) -> HostView {
        HostView { tick_n: (self.tick_n + 1) as i64, ..self }
    }

    pub open spec fn integrated(self, dt_ms: i64) -> HostView {
        HostView { store: self.store.integrated(dt_ms), ..self }
    }

    /// The state after a tick whose systems have all run: everything has moved,
    /// and no query outlives the tick.
    pub open spec fn tick_ended(self, dt_ms: i64) -> HostView {
        HostView { cursors: Map::empty(), ..self.integrated(dt_ms) }
    }
}

/// A slice that may be absent.
pub open spec fn memory_view(memory: Option<&[u8]>) -> Option<Seq<u8>> {
    match memory {
        Some(m) => Some(m@),
        None => None,
    }
}

/// Reads a text out of the guest's memory.
pub fn read_guest_str(memory: Option<&[u8]>, ptr: i32, len: i32) -> (r: String)
    ensures
        r@ == guest_text(memory_view(memory), ptr, len),
{
    if len <= 0 || ptr < 0 {
        return String::new();
    }
    match memory {
        None => String::new(),
        Some(m) => {
            let start: usize = ptr as usize;
            let count: usize = len as usize;
            if m.len() < count || m.len() - count < start {
                String::new()
            } else {
                utf8_lossy(vstd::slice::slice_subrange(m, start, start + count))
            }
        },
    }
}

/// The entity id in the low half of a guest's handle.
pub fn low_id(eid: i64) -> (r: u32)
    ensures
        r == entity_id(eid),
{
    let r: u32 = eid as u32;
    assert(eid as u32 == eid as int % 0x1_0000_0000) by (bit_vector);
    r
}

impl HostState {
    /// A host with nothing in it. The seed fixes every random number.
    pub fn new(seed: u64) -> (r: HostState)
        ensures
            r@ == fresh(seed),
    {
        let r = HostState {
            store: EcsStore::new(),
            axes: StringHashMap::new(),
            tick_n: 0,
            query_cursors: HashMap::new(),
            next_query: 1,
            rng: seed | 1,
        };
        assert(r@ =~= fresh(seed));
        r
    }

    /// Sets an input axis to a value given as a bit pattern.
    pub fn set_axis(&mut self, name: &str, value: u32)
        ensures
            final(self)@ == (HostView { axes: old(self)@.axes.insert(name@, value), ..old(self)@ }),
    {
        self.axes.insert(name.to_owned(), value);
    }

    fn coordinate(&self, eid: i64, axis: usize) -> (r: u32)
        requires
            axis < 3,
        ensures
            r == coordinate(self@.store, eid, axis as int),
    {
        match self.store.get(low_id(eid)) {
            Some(e) => e.pos[axis],
            None => 0,
        }
    }

    fn query_begin(&mut self, tag: &str) -> (r: Reply)
        ensures
            (final(self)@, r) == old(self)@.query_begin(tag@),
    {
        let handle: i64 = self.next_query;
        if handle == i64::MAX {
            return Err(HostTrap::QueriesExhausted);
        }
        let found: Vec<u32> = self.store.tagged(tag);
        self.next_query = handle + 1;
        self.query_cursors.insert(handle, found);
        assert(self@.cursors =~= old(self)@.cursors.insert(handle, found@));
        Ok(Some(Value::I64(handle)))
    }

    fn query_next(&mut self, handle: i64) -> (r: Reply)
        ensures
            (final(self)@, r) == old(self)@.query_next(handle),
    {
        match self.query_cursors.remove(&handle) {
            None => {
                assert(self@.cursors =~= old(self)@.cursors);
                Ok(Some(Value::I64(-1)))
            },
            Some(mut left) => {
                let ghost all = left@;
                match left.pop() {
                    None => {
                        assert(self@.cursors =~= old(self)@.cursors.remove(handle));
                        Ok(Some(Value::I64(-1)))
                    },
                    Some(id) => {
                        self.query_cursors.insert(handle, left);
                        assert(left@ =~= all.drop_last());
                        assert(self@.cursors =~= old(self)@.cursors.insert(handle, all.drop_last()));
                        Ok(Some(Value::I64(id as i64)))
                    },
                }
            },
        }
    }

    fn random_int(&mut self, n: i64) -> (r: Reply)
        ensures
            (final(self)@, r) == old(self)@.random_int(n),
    {
        if n <= 0 {
            return Ok(Some(Value::I64(0)));
        }
        let x: u64 = step64(self.rng);
        self.rng = x;
        Ok(Some(Value::I64(reduce(x, n))))
    }

    /// Does what a call asks for and answers it.
    pub fn call(&mut self, memory: Option<&[u8]>, call: HostCall) -> (r: Reply)
        ensures
            (final(self)@, r) == old(self)@.step(memory_view(memory), call),
    {
        match call {
            HostCall::Spawn { ptr, len } => {
                let tag: String = read_guest_str(memory, ptr, len);
                if self.store.has_room() {
                    let id: u32 = self.store.spawn(tag.as_str());
                    Ok(Some(Value::I64(id as i64)))
                } else {
                    Err(HostTrap::IdsExhausted)
                }
            },
            HostCall::Despawn { eid } => {
                self.store.despawn(low_id(eid));
                Ok(None)
            },
            HostCall::SetPosition { eid, x, y, z } => {
                self.store.set_position(low_id(eid), [x, y, z]);
                Ok(None)
            },
            HostCall::SetVelocity { eid, x, y, z } => {
                self.store.set_velocity(low_id(eid), [x, y, z]);
                Ok(None)
            },
            HostCall::GetX { eid } => Ok(Some(Value::F32(self.coordinate(eid, 0)))),
            HostCall::GetY { eid } => Ok(Some(Value::F32(self.coordinate(eid, 1)))),
            HostCall::CountTagged { ptr, len } => {
                let tag: String = read_guest_str(memory, ptr, len);
                let found: Vec<u32> = self.store.tagged(tag.as_str());
                Ok(Some(Value::I64(found.len() as i64)))
            },
            HostCall::QueryBegin { ptr, len } => {
                let tag: String = read_guest_str(memory, ptr, len);
                self.query_begin(tag.as_str())
            },
            HostCall::QueryNext { handle } => self.query_next(handle),
            HostCall::Nearest { ptr, len, x, y, reach } => {
                let tag: String = read_guest_str(memory, ptr, len);
                Ok(Some(Value::I64(self.store.nearest(tag.as_str(), x, y, reach))))
            },
            HostCall::MoveToward { eid, target, speed } => {
                self.store.move_toward(low_id(eid), low_id(target), speed);
                Ok(None)
            },
            HostCall::Axis { ptr, len } => {
                let name: String = read_guest_str(memory, ptr, len);
                match self.axes.get(name.as_str()) {
                    Some(v) => Ok(Some(Value::F32(*v))),
                    None => Ok(Some(Value::F32(0))),
                }
            },
            HostCall::RandomInt { n } => self.random_int(n),
            HostCall::Tick => Ok(Some(Value::I64(self.tick_n))),
        }
    }

    /// Answers a call of an import with raw arguments.
    pub fn answer(&mut self, memory: Option<&[u8]>, import: Import, args: &[Value]) -> (r: Reply)
        ensures
            (final(self)@, r) == old(self)@.answer(memory_view(memory), import, args@),
    {
        match decode(import, args) {
            Some(call) => self.call(memory, call),
            None => Err(HostTrap::BadArguments),
        }
    }

    /// Advances the tick counter, before the systems run.
    pub fn begin_tick(&mut self)
        requires
            old(self)@.tick_n < i64::MAX,
        ensures
            final(self)@ == old(self)@.tick_begun(),
    {
        self.tick_n = self.tick_n + 1;
    }

    /// Moves every entity at its velocity for `dt_ms` milliseconds.
    pub fn integrate(&mut self, dt_ms: i64)
        ensures
            final(self)@ == old(self)@.integrated(dt_ms),
    {
        self.store.integrate(dt_ms);
    }

    /// Ends a tick whose systems have all run.
    pub fn end_tick(&mut self, dt_ms: i64)
        ensures
            final(self)@ == old(self)@.tick_ended(dt_ms),
    {
        self.integrate(dt_ms);
        self.query_cursors.clear();
        assert(self@.cursors =~= Map::empty());
    }
}

} // verus!
