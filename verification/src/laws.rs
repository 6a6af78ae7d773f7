//! What holds of the host whatever a guest does, call after call.

use vstd::prelude::*;

use crate::binary32::{
    is_finite, law_product_with_zero, law_quotient_shrinks, law_sum_with_zero,
    law_whole_numbers_are_finite, magnitude, nearest_int, product, rank, SIGN,
};
use crate::ecs::{
    after, at_rest, body_distance2, drifted, find, has_tag, ids, in_reach, is_first_nearest, is_other,
    seconds, with_pos, with_vel, BodyView, EcsView, THOUSAND,
};
use crate::imports::{decoded, matches_kinds, HostCall, Import, Value};
use crate::rng::{law_seed_is_odd, law_step_never_zero, xorshift64};
use crate::state::{entity_id, fresh, guest_text, HostTrap, HostView};

verus! {

/// A call of an import as a guest makes it.
pub struct Event {
    pub memory: Option<Seq<u8>>,
    pub import: Import,
    pub args: Seq<Value>,
}

/// The state after a sequence of calls.
pub open spec fn run(s: HostView, events: Seq<Event>) -> HostView
    decreases events.len(),
{
    if events.len() == 0 {
        s
    } else {
        let e = events[0];
        run(s.answer(e.memory, e.import, e.args).0, events.drop_first())
    }
}

/// Whether some sequence of calls leads from one state to another.
pub open spec fn reaches(a: HostView, b: HostView) -> bool {
    exists|events: Seq<Event>| b == #[trigger] run(a, events)
}

/// What no call changes, and what calls only ever move one way.
pub open spec fn keeps(a: HostView, b: HostView) -> bool {
    &&& b.tick_n == a.tick_n
    &&& b.axes == a.axes
    &&& a.store.next_id <= b.store.next_id
    &&& a.next_query <= b.next_query
    &&& a.rng != 0 ==> b.rng != 0
    &&& a.store.wf() ==> b.store.wf()
    &&& a.store.wf() ==> forall|id: u32|
        id < a.store.next_id && !lives(a.store, id) ==> !#[trigger] lives(b.store, id)
}

/// Whether an entity with an id lives.
pub open spec fn lives(store: EcsView, id: u32) -> bool {
    exists|i: int| 0 <= i < store.bodies.len() && (#[trigger] store.bodies[i]).id == id
}

/// Filtering keeps an order: an element stays behind those it stood behind.
pub(crate) proof fn lemma_filter_wf(
    store: EcsView,
    p: spec_fn(BodyView) -> bool,
    bodies: Seq<BodyView>,
)
    requires
        store.wf(),
        0 <= bodies.len() <= store.bodies.len(),
        bodies == store.bodies.take(bodies.len() as int),
    ensures
        (EcsView { bodies: bodies.filter(p), ..store }).wf(),
        forall|i: int|
            0 <= i < bodies.filter(p).len() ==> bodies.contains(#[trigger] bodies.filter(p)[i]) && p(
                bodies.filter(p)[i],
            ),
        forall|i: int| 0 <= i < bodies.len() && p(bodies[i]) ==> bodies.filter(p).contains(
            #[trigger] bodies[i],
        ),
    decreases bodies.len(),
{
    reveal(Seq::filter);
    let out = bodies.filter(p);
    if bodies.len() > 0 {
        let rest = bodies.drop_last();
        let last = bodies.last();
        assert(rest =~= store.bodies.take(rest.len() as int));
        lemma_filter_wf(store, p, rest);
        let sub = rest.filter(p);
        assert forall|i: int| 0 <= i < sub.len() implies (#[trigger] sub[i]).id < last.id by {
            assert(rest.contains(sub[i]));
            let k = choose|k: int| 0 <= k < rest.len() && rest[k] == sub[i];
            assert(store.bodies[k] == sub[i]);
            assert(store.bodies[bodies.len() - 1] == last);
        }
        assert forall|i: int| 0 <= i < out.len() implies bodies.contains(#[trigger] out[i]) && p(
            out[i],
        ) by {
            if i < sub.len() {
                assert(out[i] == sub[i]);
                assert(rest.contains(sub[i]));
                let k = choose|k: int| 0 <= k < rest.len() && rest[k] == sub[i];
                assert(bodies[k] == out[i]);
            } else {
                assert(out[i] == last);
                assert(bodies[bodies.len() - 1] == out[i]);
            }
        }
        assert forall|i: int| 0 <= i < bodies.len() && p(bodies[i]) implies out.contains(
            #[trigger] bodies[i],
        ) by {
            if i < rest.len() {
                assert(rest[i] == bodies[i]);
                assert(sub.contains(rest[i]));
                let k = choose|k: int| 0 <= k < sub.len() && sub[k] == rest[i];
                assert(out[k] == bodies[i]);
            } else {
                assert(out[out.len() - 1] == bodies[i]);
            }
        }
        let whole = EcsView { bodies: out, ..store };
        assert forall|i: int| 0 <= i < out.len() implies (#[trigger] out[i]).id < store.next_id by {
            assert(bodies.contains(out[i]));
            let k = choose|k: int| 0 <= k < bodies.len() && bodies[k] == out[i];
            assert(store.bodies[k] == out[i]);
        }
        assert forall|i: int, j: int| 0 <= i < j < out.len() implies (#[trigger] out[i]).id < (
        #[trigger] out[j]).id by {
            if j < sub.len() {
                let whole_sub = EcsView { bodies: sub, ..store };
                assert(whole_sub.wf());
                assert(whole_sub.bodies[i].id < whole_sub.bodies[j].id);
            } else {
                assert(out[i] == sub[i]);
            }
        }
    }
}

/// What one call keeps.
proof fn lemma_step_keeps(s: HostView, memory: Option<Seq<u8>>, call: HostCall)
    ensures
        keeps(s, s.step(memory, call).0),
{
    let t = s.step(memory, call).0;
    match call {
        HostCall::Spawn { ptr, len } => {
            let tag = guest_text(memory, ptr, len);
            if s.store.next_id < u32::MAX && s.store.wf() {
                let b = s.store.bodies;
                assert forall|id: u32| id < s.store.next_id && !lives(s.store, id) implies !(
                #[trigger] lives(t.store, id)) by {
                    if lives(t.store, id) {
                        let i = choose|i: int|
                            0 <= i < t.store.bodies.len() && (#[trigger] t.store.bodies[i]).id
                                == id;
                        assert(i < b.len() ==> b[i].id == id);
                    }
                }
            }
        },
        HostCall::Despawn { eid } => {
            if s.store.wf() {
                let p = is_other(entity_id(eid));
                assert(s.store.bodies =~= s.store.bodies.take(s.store.bodies.len() as int));
                lemma_filter_wf(s.store, p, s.store.bodies);
                assert forall|id: u32| id < s.store.next_id && !lives(s.store, id) implies !(
                #[trigger] lives(t.store, id)) by {
                    if lives(t.store, id) {
                        let i = choose|i: int|
                            0 <= i < t.store.bodies.len() && (#[trigger] t.store.bodies[i]).id
                                == id;
                        assert(s.store.bodies.contains(t.store.bodies[i]));
                        let k = choose|k: int|
                            0 <= k < s.store.bodies.len() && s.store.bodies[k]
                                == t.store.bodies[i];
                        assert(s.store.bodies[k].id == id);
                    }
                }
            }
        },
        HostCall::RandomInt { n } => {
            if s.rng != 0 {
                law_step_never_zero(s.rng);
            }
        },
        HostCall::SetPosition { .. }
        | HostCall::SetVelocity { .. }
        | HostCall::MoveToward { .. } => {
            lemma_same_ids(s.store, t.store);
        },
        _ => {},
    }
}

/// Entities that only changed place or pace are the same entities.
proof fn lemma_same_ids(a: EcsView, b: EcsView)
    requires
        b.next_id == a.next_id,
        b.bodies.len() == a.bodies.len(),
        forall|i: int| 0 <= i < a.bodies.len() ==> (#[trigger] b.bodies[i]).id == a.bodies[i].id,
    ensures
        a.wf() ==> b.wf(),
        forall|id: u32| #[trigger] lives(b, id) == lives(a, id),
{
    if a.wf() {
        assert forall|i: int, j: int| 0 <= i < j < b.bodies.len() implies (#[trigger] b.bodies[i]).id
            < (#[trigger] b.bodies[j]).id by {
            assert(a.bodies[i].id < a.bodies[j].id);
        }
        assert forall|i: int| 0 <= i < b.bodies.len() implies (#[trigger] b.bodies[i]).id
            < b.next_id by {
            assert(a.bodies[i].id < a.next_id);
        }
    }
    assert forall|id: u32| #[trigger] lives(b, id) == lives(a, id) by {
        if lives(b, id) {
            let i = choose|i: int| 0 <= i < b.bodies.len() && (#[trigger] b.bodies[i]).id == id;
            assert(a.bodies[i].id == id);
        }
        if lives(a, id) {
            let i = choose|i: int| 0 <= i < a.bodies.len() && (#[trigger] a.bodies[i]).id == id;
            assert(b.bodies[i].id == id);
        }
    }
}

/// A call leaves the tick counter and the input axes alone, never takes back an
/// id or a query handle, never stalls the generator, and brings no dead entity
/// back to life.
pub proof fn law_answer_keeps(
    s: HostView,
    memory: Option<Seq<u8>>,
    import: Import,
    args: Seq<Value>,
)
    ensures
        keeps(s, s.answer(memory, import, args).0),
{
    match decoded(import, args) {
        Some(call) => lemma_step_keeps(s, memory, call),
        None => {},
    }
}

proof fn lemma_keeps_chain(a: HostView, b: HostView, c: HostView)
    requires
        keeps(a, b),
        keeps(b, c),
    ensures
        keeps(a, c),
{
    if a.store.wf() {
        assert forall|id: u32| id < a.store.next_id && !lives(a.store, id) implies !(
        #[trigger] lives(c.store, id)) by {
            assert(!lives(b.store, id));
        }
    }
}

/// However long a guest runs, its calls keep what one call keeps.
pub proof fn law_run_keeps(s: HostView, events: Seq<Event>)
    ensures
        keeps(s, run(s, events)),
    decreases events.len(),
{
    if events.len() > 0 {
        let e = events[0];
        let t = s.answer(e.memory, e.import, e.args).0;
        law_answer_keeps(s, e.memory, e.import, e.args);
        law_run_keeps(t, events.drop_first());
        lemma_keeps_chain(s, t, run(s, events));
    }
}

/// The same of any state that a guest can lead to.
pub proof fn law_reaches_keeps(a: HostView, b: HostView)
    requires
        reaches(a, b),
    ensures
        keeps(a, b),
{
    let events = choose|events: Seq<Event>| b == #[trigger] run(a, events);
    law_run_keeps(a, events);
}

/// A run can be stopped and resumed at any point: the calls alone decide where
/// it leads.
pub proof fn law_run_resumes(s: HostView, first: Seq<Event>, more: Seq<Event>)
    ensures
        run(s, first + more) == run(run(s, first), more),
    decreases first.len(),
{
    if first.len() == 0 {
        assert(first + more =~= more);
    } else {
        let e = first[0];
        assert((first + more).drop_first() =~= first.drop_first() + more);
        law_run_resumes(s.answer(e.memory, e.import, e.args).0, first.drop_first(), more);
    }
}

pub proof fn law_reaches_itself(s: HostView)
    ensures
        reaches(s, s),
{
    assert(run(s, Seq::empty()) == s);
}

pub proof fn law_reaches_on(a: HostView, b: HostView, c: HostView)
    requires
        reaches(a, b),
        reaches(b, c),
    ensures
        reaches(a, c),
{
    let first = choose|events: Seq<Event>| b == #[trigger] run(a, events);
    let more = choose|events: Seq<Event>| c == #[trigger] run(b, events);
    law_run_resumes(a, first, more);
    assert(c == run(a, first + more));
}

/// Every state that a guest can lead a new host to is in order: entities stand
/// by ascending ids that were all handed out, and the generator is alive.
pub proof fn law_fresh_host_stays_in_order(seed: u64, s: HostView)
    requires
        reaches(fresh(seed), s),
    ensures
        s.store.wf(),
        s.rng != 0,
        s.tick_n == 0,
        s.next_query >= 1,
{
    law_seed_is_odd(seed);
    law_reaches_keeps(fresh(seed), s);
}

/// The entity with an id in a store in order is at one place only.
proof fn lemma_find_at(bodies: Seq<BodyView>, i: int)
    requires
        0 <= i < bodies.len(),
        forall|j: int| 0 <= j < i ==> (#[trigger] bodies[j]).id != bodies[i].id,
    ensures
        find(bodies, bodies[i].id) == Some(bodies[i].entity),
    decreases bodies.len(),
{
    if i > 0 {
        assert(bodies[0].id != bodies[i].id);
        let rest = bodies.drop_first();
        assert(rest[i - 1] == bodies[i]);
        assert forall|j: int| 0 <= j < i - 1 implies (#[trigger] rest[j]).id != rest[i - 1].id by {
            assert(bodies[j + 1].id != bodies[i].id);
        }
        lemma_find_at(rest, i - 1);
    }
}

proof fn lemma_find_none(bodies: Seq<BodyView>, id: u32)
    requires
        forall|j: int| 0 <= j < bodies.len() ==> (#[trigger] bodies[j]).id != id,
    ensures
        find(bodies, id) is None,
    decreases bodies.len(),
{
    if bodies.len() > 0 {
        assert(bodies[0].id != id);
        let rest = bodies.drop_first();
        assert forall|j: int| 0 <= j < rest.len() implies (#[trigger] rest[j]).id != id by {
            assert(bodies[j + 1].id != id);
        }
        lemma_find_none(rest, id);
    }
}

/// Finding an entity finds the one that lives, if it does.
pub proof fn law_find_is_life(store: EcsView, id: u32)
    requires
        store.wf(),
    ensures
        find(store.bodies, id) is Some <==> lives(store, id),
        forall|i: int|
            0 <= i < store.bodies.len() && (#[trigger] store.bodies[i]).id == id ==> find(
                store.bodies,
                id,
            ) == Some(store.bodies[i].entity),
{
    let b = store.bodies;
    assert forall|i: int| 0 <= i < b.len() && (#[trigger] b[i]).id == id implies find(b, id)
        == Some(b[i].entity) by {
        assert forall|j: int| 0 <= j < i implies (#[trigger] b[j]).id != b[i].id by {
            assert(b[j].id < b[i].id);
        }
        lemma_find_at(b, i);
    }
    if !lives(store, id) {
        lemma_find_none(b, id);
    }
}

/// An id that is handed out is new: nothing lives under it, and under every
/// other id there lives what lived before. The newcomer is at rest at the origin.
pub proof fn law_spawn_is_fresh(store: EcsView, tag: Seq<char>, id: u32)
    requires
        store.wf(),
        store.next_id < u32::MAX,
    ensures
        !lives(store, store.next_id),
        find(store.spawned(tag).bodies, store.next_id) == Some(at_rest()),
        id != store.next_id ==> find(store.spawned(tag).bodies, id) == find(store.bodies, id),
        store.spawned(tag).wf(),
{
    let after = store.spawned(tag);
    let b = store.bodies;
    let n = b.len() as int;
    assert(after.wf());
    assert(after.bodies[n].id == store.next_id);
    law_find_is_life(store, id);
    law_find_is_life(after, id);
    law_find_is_life(after, store.next_id);
    if id != store.next_id {
        if lives(store, id) {
            let i = choose|i: int| 0 <= i < b.len() && (#[trigger] b[i]).id == id;
            assert(after.bodies[i] == b[i]);
        } else if lives(after, id) {
            let i = choose|i: int|
                0 <= i < after.bodies.len() && (#[trigger] after.bodies[i]).id == id;
            assert(b[i].id == id);
        }
    }
}

/// Despawning what was just spawned leaves everything as it was but the id.
pub proof fn law_despawn_undoes_spawn(store: EcsView, tag: Seq<char>)
    requires
        store.wf(),
        store.next_id < u32::MAX,
    ensures
        store.spawned(tag).despawned(store.next_id).bodies == store.bodies,
{
    let p = is_other(store.next_id);
    let b = store.bodies;
    let more = store.spawned(tag).bodies;
    reveal(Seq::filter);
    assert(more.drop_last() =~= b);
    assert(!p(more.last()));
    lemma_filter_all(b, p);
}

proof fn lemma_filter_all(b: Seq<BodyView>, p: spec_fn(BodyView) -> bool)
    requires
        forall|i: int| 0 <= i < b.len() ==> p(#[trigger] b[i]),
    ensures
        b.filter(p) == b,
    decreases b.len(),
{
    reveal(Seq::filter);
    if b.len() > 0 {
        let rest = b.drop_last();
        assert forall|i: int| 0 <= i < rest.len() implies p(#[trigger] rest[i]) by {
            assert(p(b[i]));
        }
        lemma_filter_all(rest, p);
        assert(p(b[b.len() - 1]));
        assert(rest.push(b.last()) =~= b);
    }
}

/// A despawned entity is gone, and no other is touched.
pub proof fn law_despawn_removes_one(store: EcsView, id: u32, other: u32)
    requires
        store.wf(),
    ensures
        !lives(store.despawned(id), id),
        other != id ==> find(store.despawned(id).bodies, other) == find(store.bodies, other),
        store.despawned(id).bodies.len() == store.bodies.len() - if lives(store, id) {
            1int
        } else {
            0
        },
{
    let p = is_other(id);
    let b = store.bodies;
    let out = b.filter(p);
    assert(b =~= b.take(b.len() as int));
    lemma_filter_wf(store, p, b);
    let after = store.despawned(id);
    if lives(after, id) {
        let i = choose|i: int| 0 <= i < after.bodies.len() && (#[trigger] after.bodies[i]).id == id;
        assert(p(out[i]));
    }
    law_find_is_life(store, other);
    law_find_is_life(after, other);
    if other != id {
        if lives(store, other) {
            let i = choose|i: int| 0 <= i < b.len() && (#[trigger] b[i]).id == other;
            assert(out.contains(b[i]));
            let k = choose|k: int| 0 <= k < out.len() && out[k] == b[i];
            assert(after.bodies[k].id == other);
        } else if lives(after, other) {
            let i = choose|i: int|
                0 <= i < after.bodies.len() && (#[trigger] after.bodies[i]).id == other;
            assert(b.contains(out[i]));
            let k = choose|k: int| 0 <= k < b.len() && b[k] == out[i];
            assert(b[k].id == other);
        }
    }
    if lives(store, id) {
        let i = choose|i: int| 0 <= i < b.len() && (#[trigger] b[i]).id == id;
        lemma_filter_one(b, i, id);
    } else {
        assert forall|i: int| 0 <= i < b.len() implies p(#[trigger] b[i]) by {
            assert(b[i].id != id);
        }
        lemma_filter_all(b, p);
    }
}

/// Leaving out the one body with an id leaves the others in place.
proof fn lemma_filter_one(b: Seq<BodyView>, i: int, id: u32)
    requires
        0 <= i < b.len(),
        b[i].id == id,
        forall|j: int| 0 <= j < b.len() && j != i ==> (#[trigger] b[j]).id != id,
    ensures
        b.filter(is_other(id)) == b.remove(i),
    decreases b.len(),
{
    reveal(Seq::filter);
    let p = is_other(id);
    let rest = b.drop_last();
    if i == b.len() - 1 {
        assert forall|j: int| 0 <= j < rest.len() implies p(#[trigger] rest[j]) by {
            assert(b[j].id != id);
        }
        lemma_filter_all(rest, p);
        assert(b.remove(i) =~= rest);
    } else {
        assert forall|j: int| 0 <= j < rest.len() && j != i implies (#[trigger] rest[j]).id
            != id by {
            assert(b[j].id != id);
        }
        lemma_filter_one(rest, i, id);
        assert(b[b.len() - 1].id != id);
        assert(b.remove(i) =~= rest.remove(i).push(b.last()));
    }
}

/// A position that is set is read back, bit for bit, and nothing else about the
/// entity or any other changes.
pub proof fn law_position_reads_back(store: EcsView, id: u32, pos: [u32; 3], other: u32)
    requires
        store.wf(),
    ensures
        match find(store.bodies, id) {
            Some(e) => find(store.placed(id, pos).bodies, id) matches Some(f) && f.pos == pos
                && f.vel == e.vel,
            None => find(store.placed(id, pos).bodies, id) is None,
        },
        other != id ==> find(store.placed(id, pos).bodies, other) == find(store.bodies, other),
{
    let after = store.placed(id, pos);
    let b = store.bodies;
    assert forall|i: int| 0 <= i < b.len() implies (#[trigger] after.bodies[i]).id == b[i].id by {
        assert(after.bodies[i] == with_pos(id, pos)(b[i]));
    }
    lemma_same_ids(store, after);
    law_find_is_life(store, id);
    law_find_is_life(after, id);
    law_find_is_life(store, other);
    law_find_is_life(after, other);
    if lives(store, id) {
        let i = choose|i: int| 0 <= i < b.len() && (#[trigger] b[i]).id == id;
        assert(after.bodies[i] == with_pos(id, pos)(b[i]));
    }
    if other != id && lives(store, other) {
        let i = choose|i: int| 0 <= i < b.len() && (#[trigger] b[i]).id == other;
        assert(after.bodies[i] == with_pos(id, pos)(b[i]));
    }
}

/// A velocity that is set is kept, bit for bit, and nothing else about the
/// entity or any other changes.
pub proof fn law_velocity_reads_back(store: EcsView, id: u32, vel: [u32; 3], other: u32)
    requires
        store.wf(),
    ensures
        match find(store.bodies, id) {
            Some(e) => find(store.driven(id, vel).bodies, id) matches Some(f) && f.vel == vel
                && f.pos == e.pos,
            None => find(store.driven(id, vel).bodies, id) is None,
        },
        other != id ==> find(store.driven(id, vel).bodies, other) == find(store.bodies, other),
{
    let after = store.driven(id, vel);
    let b = store.bodies;
    assert forall|i: int| 0 <= i < b.len() implies (#[trigger] after.bodies[i]).id == b[i].id by {
        assert(after.bodies[i] == with_vel(id, vel)(b[i]));
    }
    lemma_same_ids(store, after);
    law_find_is_life(store, id);
    law_find_is_life(after, id);
    law_find_is_life(store, other);
    law_find_is_life(after, other);
    if lives(store, id) {
        let i = choose|i: int| 0 <= i < b.len() && (#[trigger] b[i]).id == id;
        assert(after.bodies[i] == with_vel(id, vel)(b[i]));
    }
    if other != id && lives(store, other) {
        let i = choose|i: int| 0 <= i < b.len() && (#[trigger] b[i]).id == other;
        assert(after.bodies[i] == with_vel(id, vel)(b[i]));
    }
}

/// What a guest sets of a live entity it reads back, bit for bit: a position and then a
/// velocity leave the entity with both, each leaves the other alone, and neither
/// touches a tag, an order, another entity or anything else of the host.
pub proof fn law_entity_reads_back(
    s: HostView,
    memory: Option<Seq<u8>>,
    eid: i64,
    pos: [u32; 3],
    vel: [u32; 3],
    other: u32,
)
    requires
        s.store.wf(),
        lives(s.store, entity_id(eid)),
    ensures
        ({
            let id = entity_id(eid);
            let place = HostCall::SetPosition { eid, x: pos[0], y: pos[1], z: pos[2] };
            let drive = HostCall::SetVelocity { eid, x: vel[0], y: vel[1], z: vel[2] };
            let placed = s.step(memory, place).0;
            let driven = placed.step(memory, drive).0;
            &&& s.step(memory, place).1 == Ok::<Option<Value>, HostTrap>(None)
            &&& placed.step(memory, drive).1 == Ok::<Option<Value>, HostTrap>(None)
            &&& driven.step(memory, HostCall::GetX { eid }) == (
                driven,
                Ok::<Option<Value>, HostTrap>(Some(Value::F32(pos[0]))),
            )
            &&& driven.step(memory, HostCall::GetY { eid }) == (
                driven,
                Ok::<Option<Value>, HostTrap>(Some(Value::F32(pos[1]))),
            )
            &&& find(placed.store.bodies, id) matches Some(e) && e.pos@ == pos@ && e.vel
                == find(s.store.bodies, id)->0.vel
            &&& find(driven.store.bodies, id) matches Some(e) && e.pos@ == pos@ && e.vel@ == vel@
            &&& other != id ==> find(placed.store.bodies, other) == find(s.store.bodies, other)
            &&& other != id ==> find(driven.store.bodies, other) == find(s.store.bodies, other)
            &&& placed == HostView { store: placed.store, ..s }
            &&& driven == HostView { store: driven.store, ..s }
            &&& same_entities(s.store, placed.store)
            &&& same_entities(s.store, driven.store)
        }),
{
    let id = entity_id(eid);
    let place = [pos[0], pos[1], pos[2]];
    let drive = [vel[0], vel[1], vel[2]];
    let placed = s.store.placed(id, place);
    let driven = placed.driven(id, drive);
    assert(place@ =~= pos@);
    assert(drive@ =~= vel@);
    law_find_is_life(s.store, id);
    law_position_reads_back(s.store, id, place, other);
    assert(same_entities(s.store, placed));
    lemma_same_ids(s.store, placed);
    law_velocity_reads_back(placed, id, drive, other);
    assert(same_entities(placed, driven));
    assert forall|i: int| 0 <= i < s.store.bodies.len() implies (#[trigger] driven.bodies[i]).id
        == s.store.bodies[i].id && driven.bodies[i].tag == s.store.bodies[i].tag by {
        assert(placed.bodies[i].id == s.store.bodies[i].id);
    }
}

/// Whether the same entities live, in the same order and under the same tags, and the
/// same ids are left.
pub open spec fn same_entities(a: EcsView, b: EcsView) -> bool {
    &&& b.next_id == a.next_id
    &&& b.bodies.len() == a.bodies.len()
    &&& forall|i: int|
        0 <= i < a.bodies.len() ==> (#[trigger] b.bodies[i]).id == a.bodies[i].id && b.bodies[i].tag
            == a.bodies[i].tag
}

/// Moving keeps who lives, under which tags, in which order and how fast.
pub proof fn law_integrate_only_moves(store: EcsView, dt_ms: i64)
    ensures
        store.integrated(dt_ms).next_id == store.next_id,
        store.integrated(dt_ms).bodies.len() == store.bodies.len(),
        forall|i: int|
            0 <= i < store.bodies.len() ==> ({
                let b = #[trigger] store.integrated(dt_ms).bodies[i];
                &&& b.id == store.bodies[i].id
                &&& b.tag == store.bodies[i].tag
                &&& b.entity.vel == store.bodies[i].entity.vel
            }),
        store.wf() ==> store.integrated(dt_ms).wf(),
{
    let moved = store.integrated(dt_ms);
    assert forall|i: int| 0 <= i < store.bodies.len() implies (#[trigger] moved.bodies[i]).id
        == store.bodies[i].id by {
        assert(moved.bodies[i] == after(seconds(dt_ms))(store.bodies[i]));
    }
    lemma_same_ids(store, moved);
}

/// What is at rest stays where it is. A coordinate of minus zero is left out: adding
/// zero makes it zero.
pub proof fn law_rest_stays(store: EcsView, dt_ms: i64, i: int, axis: int)
    requires
        0 <= i < store.bodies.len(),
        0 <= axis < 3,
        magnitude(store.bodies[i].entity.vel[axis]) == 0,
        is_finite(store.bodies[i].entity.pos[axis]),
        store.bodies[i].entity.pos[axis] != SIGN,
    ensures
        store.integrated(dt_ms).bodies[i].entity.pos[axis] == store.bodies[i].entity.pos[axis],
{
    let b = store.bodies[i];
    let dt = seconds(dt_ms);
    law_whole_numbers_are_finite(dt_ms);
    law_quotient_shrinks(nearest_int(dt_ms as int), THOUSAND);
    let step = product(b.entity.vel[axis], dt);
    law_product_with_zero(b.entity.vel[axis], dt);
    if magnitude(b.entity.pos[axis]) != 0 {
        law_sum_with_zero(b.entity.pos[axis], step);
    }
    assert(drifted(b.entity.pos[axis], b.entity.vel[axis], dt) == b.entity.pos[axis]);
    assert(store.integrated(dt_ms).bodies[i] == after(dt)(b));
}

/// The nearest entity lives, carries the tag and is within reach; nothing under
/// the tag is nearer; and there is none only if nothing under the tag is within
/// reach.
pub proof fn law_nearest_is_nearest(store: EcsView, tag: Seq<char>, x: u32, y: u32, reach: u32)
    requires
        store.wf(),
    ensures
        ({
            let r = store.nearest(tag, x, y, reach);
            let p = in_reach(tag, x, y, reach);
            if r == -1 {
                forall|i: int| 0 <= i < store.bodies.len() ==> !p(#[trigger] store.bodies[i])
            } else {
                exists|i: int|
                    0 <= i < store.bodies.len() && (#[trigger] store.bodies[i]).id == r && p(
                        store.bodies[i],
                    ) && forall|j: int|
                        0 <= j < store.bodies.len() && p(#[trigger] store.bodies[j]) ==> rank(
                            body_distance2(store.bodies[i], x, y),
                        ) <= rank(body_distance2(store.bodies[j], x, y))
            }
        }),
{
    let p = in_reach(tag, x, y, reach);
    let b = store.bodies;
    let near = b.filter(p);
    assert(b =~= b.take(b.len() as int));
    lemma_filter_wf(store, p, b);
    let r = store.nearest(tag, x, y, reach);
    if near.len() == 0 {
        assert forall|i: int| 0 <= i < b.len() implies !p(#[trigger] b[i]) by {
            if p(b[i]) {
                assert(near.contains(b[i]));
            }
        }
    } else {
        lemma_first_nearest_exists(near, x, y);
        let k = choose|i: int| is_first_nearest(near, x, y, i);
        assert(b.contains(near[k]));
        let i = choose|i: int| 0 <= i < b.len() && b[i] == near[k];
        assert(b[i].id == r);
        assert forall|j: int| 0 <= j < b.len() && p(#[trigger] b[j]) implies rank(
            body_distance2(b[i], x, y),
        ) <= rank(body_distance2(b[j], x, y)) by {
            assert(near.contains(b[j]));
            let m = choose|m: int| 0 <= m < near.len() && near[m] == b[j];
            assert(rank(body_distance2(near[k], x, y)) <= rank(body_distance2(near[m], x, y)));
        }
    }
}

pub(crate) proof fn lemma_first_nearest_exists(near: Seq<BodyView>, x: u32, y: u32)
    requires
        near.len() > 0,
    ensures
        exists|i: int| is_first_nearest(near, x, y, i),
    decreases near.len(),
{
    if near.len() == 1 {
        assert(is_first_nearest(near, x, y, 0));
    } else {
        let rest = near.drop_last();
        lemma_first_nearest_exists(rest, x, y);
        let i = choose|i: int| is_first_nearest(rest, x, y, i);
        let n = near.len() - 1;
        assert(forall|j: int| 0 <= j < n ==> near[j] == rest[j]);
        if rank(body_distance2(near[n], x, y)) < rank(body_distance2(near[i], x, y)) {
            assert forall|j: int| 0 <= j < n implies rank(body_distance2(near[n], x, y)) < rank(
                #[trigger] body_distance2(near[j], x, y),
            ) by {
                assert(rank(body_distance2(rest[i], x, y)) <= rank(body_distance2(rest[j], x, y)));
            }
            assert(is_first_nearest(near, x, y, n));
        } else {
            assert forall|j: int| 0 <= j < near.len() implies rank(body_distance2(near[i], x, y))
                <= rank(#[trigger] body_distance2(near[j], x, y)) by {
                if j < n {
                    assert(rank(body_distance2(rest[i], x, y)) <= rank(
                        body_distance2(rest[j], x, y),
                    ));
                }
            }
            assert forall|j: int| 0 <= j < i implies rank(body_distance2(near[i], x, y)) < rank(
                #[trigger] body_distance2(near[j], x, y),
            ) by {
                assert(rank(body_distance2(rest[i], x, y)) < rank(body_distance2(rest[j], x, y)));
            }
            assert(is_first_nearest(near, x, y, i));
        }
    }
}

/// Despawning the nearest entity under a tag takes exactly one away from those
/// under the tag, so a weapon that does so once a tick culls one a tick.
pub proof fn law_cull_takes_one(store: EcsView, tag: Seq<char>, x: u32, y: u32, reach: u32)
    requires
        store.wf(),
        store.nearest(tag, x, y, reach) != -1,
    ensures
        store.despawned(store.nearest(tag, x, y, reach) as u32).tagged(tag).len() == store.tagged(
            tag,
        ).len() - 1,
{
    law_nearest_is_nearest(store, tag, x, y, reach);
    let r = store.nearest(tag, x, y, reach);
    let p = in_reach(tag, x, y, reach);
    let b = store.bodies;
    let i = choose|i: int| 0 <= i < b.len() && (#[trigger] b[i]).id == r && p(b[i]);
    let id = r as u32;
    assert forall|j: int| 0 <= j < b.len() && j != i implies (#[trigger] b[j]).id != id by {
        if j < i {
            assert(b[j].id < b[i].id);
        } else {
            assert(b[i].id < b[j].id);
        }
    }
    lemma_filter_one(b, i, id);
    lemma_filter_remove_len(b, i, has_tag(tag));
}

/// A weapon that asks for the nearest entity under a tag and despawns it lowers the
/// count of that tag by one, and where nothing is in reach there is nothing to hit.
pub proof fn law_weapon_culls_one(
    s: HostView,
    memory: Option<Seq<u8>>,
    ptr: i32,
    len: i32,
    x: u32,
    y: u32,
    reach: u32,
)
    requires
        s.store.wf(),
    ensures
        ({
            let tag = guest_text(memory, ptr, len);
            let hit = s.store.nearest(tag, x, y, reach);
            let asked = s.step(memory, HostCall::Nearest { ptr, len, x, y, reach });
            let shot = s.step(memory, HostCall::Despawn { eid: hit }).0;
            &&& asked == (s, Ok::<Option<Value>, HostTrap>(Some(Value::I64(hit))))
            &&& hit != -1 ==> shot.store.tagged(tag).len() == s.store.tagged(tag).len() - 1
            &&& hit == -1 <==> forall|i: int|
                0 <= i < s.store.bodies.len() ==> !in_reach(tag, x, y, reach)(
                    #[trigger] s.store.bodies[i],
                )
        }),
{
    let tag = guest_text(memory, ptr, len);
    let hit = s.store.nearest(tag, x, y, reach);
    law_nearest_is_nearest(s.store, tag, x, y, reach);
    if hit != -1 {
        law_cull_takes_one(s.store, tag, x, y, reach);
        assert(entity_id(hit) == hit as u32);
    }
}

proof fn lemma_filter_remove_len(b: Seq<BodyView>, i: int, p: spec_fn(BodyView) -> bool)
    requires
        0 <= i < b.len(),
        p(b[i]),
    ensures
        b.remove(i).filter(p).len() == b.filter(p).len() - 1,
    decreases b.len(),
{
    reveal(Seq::filter);
    let rest = b.drop_last();
    if i == b.len() - 1 {
        assert(b.remove(i) =~= rest);
    } else {
        lemma_filter_remove_len(rest, i, p);
        assert(b.remove(i).drop_last() =~= rest.remove(i));
        assert(b.remove(i).last() == b.last());
    }
}

/// The state after `k` further ids were asked of a query.
pub open spec fn asked(s: HostView, handle: i64, k: nat) -> HostView
    decreases k,
{
    if k == 0 {
        s
    } else {
        asked(s, handle, (k - 1) as nat).query_next(handle).0
    }
}

/// A query hands out each entity that was under its tag when it began exactly
/// once, the last spawned first, then answers -1 and is forgotten. Nothing but
/// the query itself changes.
pub proof fn law_query_drains(s: HostView, tag: Seq<char>, k: nat)
    requires
        s.next_query < i64::MAX,
        k <= s.store.tagged(tag).len(),
    ensures
        ({
            let begun = s.query_begin(tag).0;
            let handle = s.next_query;
            let all = ids(s.store.tagged(tag));
            let now = asked(begun, handle, k);
            &&& s.query_begin(tag).1 == Ok::<Option<Value>, HostTrap>(
                Some(Value::I64(handle)),
            )
            &&& now == (HostView {
                cursors: s.cursors.insert(handle, all.take(all.len() - k)),
                ..begun
            })
            &&& k < all.len() ==> now.query_next(handle).1 == Ok::<
                Option<Value>,
                HostTrap,
            >(Some(Value::I64(all[all.len() - 1 - k] as i64)))
            &&& k == all.len() ==> {
                &&& now.query_next(handle).1 == Ok::<Option<Value>, HostTrap>(
                    Some(Value::I64((-1) as i64)),
                )
                &&& !now.query_next(handle).0.cursors.contains_key(handle)
                &&& now.query_next(handle).0.query_next(handle).1 == Ok::<
                    Option<Value>,
                    HostTrap,
                >(Some(Value::I64((-1) as i64)))
            }
        }),
    decreases k,
{
    let begun = s.query_begin(tag).0;
    let handle = s.next_query;
    let all = ids(s.store.tagged(tag));
    let now = asked(begun, handle, k);
    if k == 0 {
        assert(all.take(all.len() as int) =~= all);
    } else {
        law_query_drains(s, tag, (k - 1) as nat);
        let before = asked(begun, handle, (k - 1) as nat);
        let left = all.take(all.len() - (k - 1));
        assert(before.cursors[handle] == left);
        assert(left.drop_last() =~= all.take(all.len() - k));
        assert(now.cursors =~= s.cursors.insert(handle, all.take(all.len() - k)));
    }
    assert(now.cursors[handle] == all.take(all.len() - k));
}

/// Counting entities under a tag counts what a query of that tag hands out, and
/// nothing is under the empty tag.
pub proof fn law_count_is_query_length(s: HostView, tag: Seq<char>)
    ensures
        ids(s.store.tagged(tag)).len() == s.store.tagged(tag).len(),
        tag.len() == 0 ==> s.store.tagged(tag).len() == 0,
{
    if tag.len() == 0 {
        lemma_filter_nothing(s.store.bodies, has_tag(tag));
    }
}

proof fn lemma_filter_nothing(b: Seq<BodyView>, p: spec_fn(BodyView) -> bool)
    requires
        forall|x: BodyView| !#[trigger] p(x),
    ensures
        b.filter(p).len() == 0,
    decreases b.len(),
{
    reveal(Seq::filter);
    if b.len() > 0 {
        lemma_filter_nothing(b.drop_last(), p);
    }
}

/// A random number is drawn by one step of the generator, whatever the bound, and is
/// below the bound; without a positive bound it is zero and nothing is drawn. Nothing
/// else changes, and the generator never stalls.
pub proof fn law_random_in_range(s: HostView, memory: Option<Seq<u8>>, n: i64)
    ensures
        ({
            let (t, reply) = s.step(memory, HostCall::RandomInt { n });
            if n <= 0 {
                &&& t == s
                &&& reply == Ok::<Option<Value>, HostTrap>(Some(Value::I64(0)))
            } else {
                let drawn = xorshift64(s.rng);
                &&& t == HostView { rng: drawn, ..s }
                &&& reply == Ok::<Option<Value>, HostTrap>(
                    Some(Value::I64((drawn as int % (n as int)) as i64)),
                )
                &&& 0 <= drawn as int % (n as int)
                &&& drawn as int % (n as int) < n
                &&& s.rng != 0 ==> drawn != 0
            }
        }),
{
    if n > 0 {
        let drawn = xorshift64(s.rng);
        assert(0 <= drawn as int % (n as int) && drawn as int % (n as int) < n) by (nonlinear_arith)
            requires
                n > 0,
        ;
        if s.rng != 0 {
            law_step_never_zero(s.rng);
        }
    }
}

/// An axis that the host sets is what the guest reads under that name, and no
/// other axis changes.
pub proof fn law_axis_reads_back(
    s: HostView,
    name: Seq<char>,
    value: u32,
    memory: Option<Seq<u8>>,
    ptr: i32,
    len: i32,
)
    ensures
        ({
            let set = HostView { axes: s.axes.insert(name, value), ..s };
            let read = guest_text(memory, ptr, len);
            let call = HostCall::Axis { ptr, len };
            if read == name {
                set.step(memory, call).1 == Ok::<Option<Value>, HostTrap>(
                    Some(Value::F32(value)),
                )
            } else {
                set.step(memory, call).1 == s.step(memory, call).1
            }
        }),
{
}

/// What a call answers is of the type that its import declares.
pub proof fn law_reply_fits_import(
    s: HostView,
    memory: Option<Seq<u8>>,
    import: Import,
    args: Seq<Value>,
)
    ensures
        match s.answer(memory, import, args).1 {
            Ok(Some(v)) => matches_kinds(import.result_kinds(), seq![v]),
            Ok(None) => import.result_kinds().len() == 0,
            Err(_) => s.answer(memory, import, args).0 == s,
        },
{
}

/// Imports have distinct names, so each can be bound beside the others.
pub proof fn law_import_names_differ(a: Import, b: Import)
    requires
        a != b,
    ensures
        a.module_text() != b.module_text() || a.name_text() != b.name_text(),
{
    reveal_strlit("kami:engine/input@1.0.0");
    reveal_strlit("kami:engine/random@1.0.0");
    reveal_strlit("kami:engine/time@1.0.0");
    reveal_strlit("kami:engine/scene@1.0.0");
    reveal_strlit("spawn");
    reveal_strlit("despawn");
    reveal_strlit("set-position");
    reveal_strlit("set-velocity");
    reveal_strlit("get-x");
    reveal_strlit("get-y");
    reveal_strlit("count-tagged");
    reveal_strlit("query-begin");
    reveal_strlit("query-next");
    reveal_strlit("nearest");
    reveal_strlit("move-toward");
    reveal_strlit("axis");
    reveal_strlit("int");
    reveal_strlit("tick");
    let x = a.name_text();
    let y = b.name_text();
    assert(x.len() != y.len() || x[0] != y[0] || x[4] != y[4]);
}

/// The fourteen imports are all there are.
pub proof fn law_every_import_is_bound(i: Import)
    ensures
        Import::all().contains(i),
{
}

/// A tick counts one up, moves everything when its systems have run, lets no query
/// outlive it, and leaves the axes and the generator alone.
pub proof fn law_tick_frame(s: HostView, dt_ms: i64)
    requires
        s.tick_n < i64::MAX,
    ensures
        s.tick_begun().tick_n == s.tick_n + 1,
        s.tick_begun().store == s.store,
        s.tick_begun().cursors == s.cursors,
        s.tick_begun().next_query == s.next_query,
        s.tick_begun().axes == s.axes,
        s.tick_begun().rng == s.rng,
        s.tick_ended(dt_ms).tick_n == s.tick_n,
        s.tick_ended(dt_ms).store == s.store.integrated(dt_ms),
        s.tick_ended(dt_ms).next_query == s.next_query,
        s.tick_ended(dt_ms).cursors == Map::<i64, Seq<u32>>::empty(),
        s.tick_ended(dt_ms).axes == s.axes,
        s.tick_ended(dt_ms).rng == s.rng,
        s.store.wf() ==> s.tick_ended(dt_ms).store.wf(),
{
    law_integrate_only_moves(s.store, dt_ms);
}

/// Whatever a tick's systems have done so far, the next call sees the counter
/// already advanced.
pub proof fn law_systems_see_the_new_tick(s: HostView, t: HostView, memory: Option<Seq<u8>>)
    requires
        s.tick_n < i64::MAX,
        reaches(s.tick_begun(), t),
    ensures
        t.step(memory, HostCall::Tick) == (
            t,
            Ok::<Option<Value>, HostTrap>(Some(Value::I64((s.tick_n + 1) as i64))),
        ),
{
    law_reaches_keeps(s.tick_begun(), t);
}

/// A place that is not wholly inside the guest's memory, or of no length, reads as
/// no text; so does every place of a guest without memory.
pub proof fn law_outside_reads_as_nothing(memory: Option<Seq<u8>>, ptr: i32, len: i32)
    requires
        memory matches Some(m) ==> len <= 0 || ptr < 0 || ptr + len > m.len(),
    ensures
        guest_text(memory, ptr, len) == Seq::<char>::empty(),
{
}

/// The state after a number of ticks, each given by the calls that its systems made
/// and its length in milliseconds.
pub open spec fn replayed(s: HostView, ticks: Seq<(Seq<Event>, i64)>) -> HostView
    decreases ticks.len(),
{
    if ticks.len() == 0 {
        s
    } else {
        let before = replayed(s, ticks.drop_last());
        run(before.tick_begun(), ticks.last().0).tick_ended(ticks.last().1)
    }
}

/// However many ticks a host has run, whatever its guest has called: no two
/// entities share an id, they stand in the order of their ids, every id was handed
/// out, and the generator has not stalled. The counter counts the ticks.
pub proof fn law_every_state_is_in_order(seed: u64, ticks: Seq<(Seq<Event>, i64)>)
    requires
        ticks.len() <= i64::MAX,
    ensures
        replayed(fresh(seed), ticks).store.wf(),
        replayed(fresh(seed), ticks).rng != 0,
        replayed(fresh(seed), ticks).tick_n == ticks.len(),
    decreases ticks.len(),
{
    law_seed_is_odd(seed);
    if ticks.len() > 0 {
        law_every_state_is_in_order(seed, ticks.drop_last());
        let before = replayed(fresh(seed), ticks.drop_last());
        let ran = run(before.tick_begun(), ticks.last().0);
        law_run_keeps(before.tick_begun(), ticks.last().0);
        law_integrate_only_moves(ran.store, ticks.last().1);
    }
}

} // verus!
