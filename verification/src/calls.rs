//! What a guest's calls come to, from the arguments it gives to what it can see after.

use vstd::prelude::*;
use vstd::utf8::{encode_utf8, encode_utf8_decode_utf8, encode_utf8_valid_utf8};

use crate::ecs::{find, has_tag, is_row, lists, BodyView, EcsView, Row};
use crate::exports::{is_tick_name, tick_names};
use crate::imports::{decoded, HostCall, Import, Value};
use crate::laws::{law_despawn_removes_one, law_spawn_is_fresh, lives};
use crate::state::{entity_id, fresh, guest_text, HostTrap, HostView};

verus! {

/// A text that a guest has in its memory is read as it is, wherever it stands.
pub proof fn law_text_is_read_where_it_stands(front: Seq<u8>, t: Seq<char>, behind: Seq<u8>)
    requires
        front.len() + encode_utf8(t).len() <= i32::MAX,
    ensures
        guest_text(
            Some(front + encode_utf8(t) + behind),
            front.len() as i32,
            encode_utf8(t).len() as i32,
        ) == t,
{
    let bytes = encode_utf8(t);
    let memory = front + bytes + behind;
    encode_utf8_valid_utf8(t);
    encode_utf8_decode_utf8(t);
    assert(memory.subrange(front.len() as int, (front.len() + bytes.len()) as int) =~= bytes);
    if bytes.len() == 0 {
        if t.len() > 0 {
            assert(false);
        }
        assert(t =~= Seq::empty());
    }
}

/// An id that was handed out names its entity; only the low half of a handle counts.
pub proof fn law_handle_is_the_id(id: u32, high: i64)
    requires
        -0x8000_0000 <= high < 0x8000_0000,
    ensures
        entity_id(id as i64) == id,
        entity_id((high * 0x1_0000_0000 + id) as i64) == id,
{
}

/// The arguments of each import come in the order in which they are written.
pub proof fn law_arguments_come_in_order(
    a: i64,
    b: i64,
    p: i32,
    n: i32,
    x: u32,
    y: u32,
    z: u32,
)
    ensures
        ({
            let text = seq![Value::I32(p), Value::I32(n)];
            let one = seq![Value::I64(a)];
            let place = seq![Value::I64(a), Value::F32(x), Value::F32(y), Value::F32(z)];
            let reach = seq![
                Value::I32(p),
                Value::I32(n),
                Value::F32(x),
                Value::F32(y),
                Value::F32(z),
            ];
            let way = seq![Value::I64(a), Value::I64(b), Value::F32(x)];
            &&& decoded(Import::Spawn, text) == Some(HostCall::Spawn { ptr: p, len: n })
            &&& decoded(Import::Despawn, one) == Some(HostCall::Despawn { eid: a })
            &&& decoded(Import::SetPosition, place) == Some(
                HostCall::SetPosition { eid: a, x, y, z },
            )
            &&& decoded(Import::SetVelocity, place) == Some(
                HostCall::SetVelocity { eid: a, x, y, z },
            )
            &&& decoded(Import::GetX, one) == Some(HostCall::GetX { eid: a })
            &&& decoded(Import::GetY, one) == Some(HostCall::GetY { eid: a })
            &&& decoded(Import::CountTagged, text) == Some(
                HostCall::CountTagged { ptr: p, len: n },
            )
            &&& decoded(Import::QueryBegin, text) == Some(HostCall::QueryBegin { ptr: p, len: n })
            &&& decoded(Import::QueryNext, one) == Some(HostCall::QueryNext { handle: a })
            &&& decoded(Import::Nearest, reach) == Some(
                HostCall::Nearest { ptr: p, len: n, x, y, reach: z },
            )
            &&& decoded(Import::MoveToward, way) == Some(
                HostCall::MoveToward { eid: a, target: b, speed: x },
            )
            &&& decoded(Import::Axis, text) == Some(HostCall::Axis { ptr: p, len: n })
            &&& decoded(Import::RandomInt, one) == Some(HostCall::RandomInt { n: a })
            &&& decoded(Import::Tick, seq![]) == Some(HostCall::Tick)
        }),
{
}

/// A host begins with nothing: no entity, no axis, no tick, no query, and the first id
/// and the first handle still to be given out.
pub proof fn law_host_begins_empty(seed: u64, id: u32)
    ensures
        fresh(seed).store.bodies.len() == 0,
        fresh(seed).store.next_id == 0,
        fresh(seed).tick_n == 0,
        fresh(seed).next_query == 1,
        fresh(seed).axes == Map::<Seq<char>, u32>::empty(),
        fresh(seed).cursors == Map::<i64, Seq<u32>>::empty(),
        !lives(fresh(seed).store, id),
        fresh(seed).rng == seed | 1,
{
}

/// Spawning answers with a new id, under which there is then an entity with the tag, at
/// rest at the origin; every other entity stays as it is.
pub proof fn law_spawn_answers_a_new_entity(
    s: HostView,
    memory: Option<Seq<u8>>,
    ptr: i32,
    len: i32,
    other: u32,
)
    requires
        s.store.wf(),
        s.store.next_id < u32::MAX,
    ensures
        ({
            let (t, reply) = s.step(memory, HostCall::Spawn { ptr, len });
            let id = s.store.next_id;
            &&& reply == Ok::<Option<Value>, HostTrap>(Some(Value::I64(id as i64)))
            &&& !lives(s.store, id)
            &&& find(t.store.bodies, id) matches Some(e) && e.pos@ == seq![0u32, 0, 0] && e.vel@
                == seq![0u32, 0, 0]
            &&& t.store.bodies.len() == s.store.bodies.len() + 1
            &&& t.store.bodies.last().id == id
            &&& t.store.bodies.last().tag == guest_text(memory, ptr, len)
            &&& t.store.next_id == id + 1
            &&& other != id ==> find(t.store.bodies, other) == find(s.store.bodies, other)
            &&& t == HostView { store: t.store, ..s }
        }),
{
    let tag = guest_text(memory, ptr, len);
    law_spawn_is_fresh(s.store, tag, other);
    assert([0u32, 0u32, 0u32]@ =~= seq![0u32, 0, 0]);
}

/// A despawned entity cannot be found, and nothing else changes; its coordinates then
/// read as zero, as do those of any that is not there.
pub proof fn law_despawn_takes_one_away(
    s: HostView,
    memory: Option<Seq<u8>>,
    eid: i64,
    other: u32,
)
    requires
        s.store.wf(),
    ensures
        ({
            let (t, reply) = s.step(memory, HostCall::Despawn { eid });
            &&& reply == Ok::<Option<Value>, HostTrap>(None)
            &&& find(t.store.bodies, entity_id(eid)) is None
            &&& other != entity_id(eid) ==> find(t.store.bodies, other) == find(
                s.store.bodies,
                other,
            )
            &&& t.step(memory, HostCall::GetX { eid }) == (
                t,
                Ok::<Option<Value>, HostTrap>(Some(Value::F32(0))),
            )
            &&& t.step(memory, HostCall::GetY { eid }) == (
                t,
                Ok::<Option<Value>, HostTrap>(Some(Value::F32(0))),
            )
            &&& t.store.next_id == s.store.next_id
            &&& t == HostView { store: t.store, ..s }
        }),
{
    let id = entity_id(eid);
    law_despawn_removes_one(s.store, id, other);
    let after = s.store.despawned(id);
    lemma_find_gone(after.bodies, id, after);
}

proof fn lemma_find_gone(bodies: Seq<BodyView>, id: u32, store: EcsView)
    requires
        forall|i: int| 0 <= i < bodies.len() ==> store.bodies.contains(#[trigger] bodies[i]),
        !lives(store, id),
    ensures
        find(bodies, id) is None,
    decreases bodies.len(),
{
    if bodies.len() > 0 {
        assert(store.bodies.contains(bodies[0]));
        let k = choose|k: int| 0 <= k < store.bodies.len() && store.bodies[k] == bodies[0];
        assert(store.bodies[k].id == bodies[0].id);
        let rest = bodies.drop_first();
        assert forall|i: int| 0 <= i < rest.len() implies store.bodies.contains(
            #[trigger] rest[i],
        ) by {
            assert(store.bodies.contains(bodies[i + 1]));
        }
        lemma_find_gone(rest, id, store);
    }
}

/// Those under a tag are counted one by one: an entity counts if the tag is its own, and
/// none counts under no tag.
pub proof fn law_tags_are_counted_one_by_one(bodies: Seq<BodyView>, b: BodyView, tag: Seq<char>)
    ensures
        Seq::<BodyView>::empty().filter(has_tag(tag)).len() == 0,
        bodies.push(b).filter(has_tag(tag)) == if b.tag == tag && tag.len() > 0 {
            bodies.filter(has_tag(tag)).push(b)
        } else {
            bodies.filter(has_tag(tag))
        },
{
    reveal(Seq::filter);
    assert(bodies.push(b).drop_last() =~= bodies);
}

/// Counting under a tag answers with the number of entities under it, and changes
/// nothing.
pub proof fn law_count_answers_how_many(s: HostView, memory: Option<Seq<u8>>, ptr: i32, len: i32)
    requires
        s.store.bodies.len() <= i64::MAX,
    ensures
        ({
            let tag = guest_text(memory, ptr, len);
            let n = s.store.bodies.filter(|b: BodyView| tag.len() > 0 && b.tag == tag).len();
            s.step(memory, HostCall::CountTagged { ptr, len }) == (
                s,
                Ok::<Option<Value>, HostTrap>(Some(Value::I64(n as i64))),
            )
        }),
{
    let tag = guest_text(memory, ptr, len);
    assert(has_tag(tag) =~= (|b: BodyView| tag.len() > 0 && b.tag == tag));
}

/// An axis that nobody has set reads as zero.
pub proof fn law_unset_axis_reads_as_zero(
    s: HostView,
    memory: Option<Seq<u8>>,
    ptr: i32,
    len: i32,
)
    requires
        !s.axes.contains_key(guest_text(memory, ptr, len)),
    ensures
        s.step(memory, HostCall::Axis { ptr, len }) == (
            s,
            Ok::<Option<Value>, HostTrap>(Some(Value::F32(0))),
        ),
{
}

/// An export is a system exactly if its name ends in `-tick`.
pub proof fn law_systems_end_in_tick(t: Seq<char>)
    ensures
        is_tick_name(encode_utf8(t)) <==> t.len() >= 5 && t[t.len() - 5] == '-' && t[t.len() - 4]
            == 't' && t[t.len() - 3] == 'i' && t[t.len() - 2] == 'c' && t[t.len() - 1] == 'k',
        tick_names(seq![encode_utf8(t)]) == if is_tick_name(encode_utf8(t)) {
            seq![t]
        } else {
            Seq::<Seq<char>>::empty()
        },
{
    let tail = seq!['-', 't', 'i', 'c', 'k'];
    reveal_strlit("-tick");
    assert("-tick"@ =~= tail);
    encode_utf8_valid_utf8(t);
    encode_utf8_decode_utf8(t);
    if t.len() >= 5 {
        let end = t.skip(t.len() - 5);
        assert(end[0] == t[t.len() - 5] && end[1] == t[t.len() - 4] && end[2] == t[t.len() - 3]
            && end[3] == t[t.len() - 2] && end[4] == t[t.len() - 1]);
        if end[0] == '-' && end[1] == 't' && end[2] == 'i' && end[3] == 'c' && end[4] == 'k' {
            assert(end =~= tail);
        }
        assert(tail[0] == '-' && tail[1] == 't' && tail[2] == 'i' && tail[3] == 'c' && tail[4]
            == 'k');
    }
    let names = seq![encode_utf8(t)];
    assert(names.drop_first() =~= seq![]);
    assert(tick_names(names.drop_first()) =~= seq![]);
    assert(tick_names(names) =~= if is_tick_name(encode_utf8(t)) {
        seq![t]
    } else {
        Seq::<Seq<char>>::empty()
    });
}

/// A row shows an entity as it is: its id, its tag, its position and its velocity.
pub proof fn law_rows_show_entities(rows: Seq<Row>, bodies: Seq<BodyView>, i: int)
    requires
        lists(rows, bodies),
        0 <= i < bodies.len(),
    ensures
        rows.len() == bodies.len(),
        rows[i].0 == bodies[i].id,
        rows[i].1@ == bodies[i].tag,
        rows[i].2 == bodies[i].entity.pos,
        rows[i].3 == bodies[i].entity.vel,
{
    assert(is_row(rows[i], bodies[i]));
}

} // verus!
