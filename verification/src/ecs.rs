//! The entity store: positions, velocities and tags under ids that are handed
//! out once each.
//!
//! Entities are kept in the order in which they were spawned, so whatever walks
//! the store visits them in that order and a run can be repeated exactly.

use vstd::prelude::*;

use crate::binary32::{
    at_most, difference, from_int, is_at_most, is_less, less, minus, nearest_int, over, plus,
    product, quotient, rank, sqrt, square_root, sum, times,
};

verus! {

/// One thousand as a bit pattern: the milliseconds of a second.
pub const THOUSAND: u32 = 0x447a_0000;

/// One millionth as a bit pattern: two entities closer than this are together.
pub const TOGETHER: u32 = 0x3586_37bd;

/// The moving part of an entity. Each coordinate is the bit pattern of a
/// single-precision number.
#[derive(Clone, Copy, Debug)]
pub struct Entity {
    pub pos: [u32; 3],
    pub vel: [u32; 3],
}

/// What an entity is spawned with.
pub open spec fn at_rest() -> Entity {
    Entity { pos: [0u32, 0u32, 0u32], vel: [0u32, 0u32, 0u32] }
}

impl Default for Entity {
    fn default() -> (r: Entity)
        ensures
            r == at_rest(),
    {
        Entity { pos: [0, 0, 0], vel: [0, 0, 0] }
    }
}

/// A live entity, with the tag it was spawned under; the empty tag is no tag.
pub struct Body {
    pub id: u32,
    pub tag: String,
    pub entity: Entity,
}

/// A live entity as contracts speak of it.
#[verifier::ext_equal]
pub struct BodyView {
    pub id: u32,
    pub tag: Seq<char>,
    pub entity: Entity,
}

impl View for Body {
    type V = BodyView;

    open spec fn view(&self) -> BodyView {
        BodyView { id: self.id, tag: self.tag@, entity: self.entity }
    }
}

/// The views of a list of live entities.
pub open spec fn views(bodies: Seq<Body>) -> Seq<BodyView> {
    bodies.map_values(|b: Body| b@)
}

/// An entity laid out for reading: its id, its tag, its position, its velocity.
pub type Row = (u32, String, [u32; 3], [u32; 3]);

/// Whether a row shows an entity.
pub open spec fn is_row(row: Row, b: BodyView) -> bool {
    &&& row.0 == b.id
    &&& row.1@ == b.tag
    &&& row.2 == b.entity.pos
    &&& row.3 == b.entity.vel
}

/// Whether rows show entities, one by one.
pub open spec fn lists(rows: Seq<Row>, bodies: Seq<BodyView>) -> bool {
    &&& rows.len() == bodies.len()
    &&& forall|i: int| 0 <= i < rows.len() ==> is_row(#[trigger] rows[i], bodies[i])
}

/// The live entities in the order in which they were spawned, and the next id.
pub struct EcsStore {
    next_id: u32,
    bodies: Vec<Body>,
}

/// The entity store as contracts speak of it.
#[verifier::ext_equal]
pub struct EcsView {
    pub next_id: u32,
    pub bodies: Seq<BodyView>,
}

impl View for EcsStore {
    type V = EcsView;

    closed spec fn view(&self) -> EcsView {
        EcsView { next_id: self.next_id, bodies: views(self.bodies@) }
    }
}

pub open spec fn is_other(id: u32) -> spec_fn(BodyView) -> bool {
    |b: BodyView| b.id != id
}

pub open spec fn has_tag(tag: Seq<char>) -> spec_fn(BodyView) -> bool {
    |b: BodyView| tag.len() > 0 && b.tag == tag
}

pub open spec fn with_pos(id: u32, pos: [u32; 3]) -> spec_fn(BodyView) -> BodyView {
    |b: BodyView|
        if b.id == id {
            BodyView { entity: Entity { pos, ..b.entity }, ..b }
        } else {
            b
        }
}

pub open spec fn with_vel(id: u32, vel: [u32; 3]) -> spec_fn(BodyView) -> BodyView {
    |b: BodyView|
        if b.id == id {
            BodyView { entity: Entity { vel, ..b.entity }, ..b }
        } else {
            b
        }
}

/// One coordinate after moving at `vel` for `dt` seconds.
pub open spec fn drifted(pos: u32, vel: u32, dt: u32) -> u32 {
    sum(pos, product(vel, dt))
}

pub open spec fn after(dt: u32) -> spec_fn(BodyView) -> BodyView {
    |b: BodyView|
        {
            let p = b.entity.pos;
            let v = b.entity.vel;
            BodyView {
                entity: Entity {
                    pos: [
                        drifted(p[0], v[0], dt),
                        drifted(p[1], v[1], dt),
                        drifted(p[2], v[2], dt),
                    ],
                    vel: v,
                },
                ..b
            }
        }
}

/// A number of milliseconds in seconds.
pub open spec fn seconds(dt_ms: i64) -> u32 {
    quotient(nearest_int(dt_ms as int), THOUSAND)
}

/// The square of the distance between `(x0, y0)` and `(x1, y1)`.
pub open spec fn distance2(x0: u32, y0: u32, x1: u32, y1: u32) -> u32 {
    let dx = difference(x0, x1);
    let dy = difference(y0, y1);
    sum(product(dx, dx), product(dy, dy))
}

pub open spec fn body_distance2(b: BodyView, x: u32, y: u32) -> u32 {
    distance2(b.entity.pos[0], b.entity.pos[1], x, y)
}

/// Whether a body carries `tag` and is no further than `reach` from `(x, y)`.
pub open spec fn in_reach(tag: Seq<char>, x: u32, y: u32, reach: u32) -> spec_fn(BodyView) -> bool {
    |b: BodyView|
        has_tag(tag)(b) && is_at_most(body_distance2(b, x, y), product(reach, reach))
}

/// Whether `i` is the first of the nearest to `(x, y)`.
pub open spec fn is_first_nearest(bodies: Seq<BodyView>, x: u32, y: u32, i: int) -> bool {
    &&& 0 <= i < bodies.len()
    &&& forall|j: int|
        0 <= j < bodies.len() ==> rank(body_distance2(bodies[i], x, y)) <= rank(
            #[trigger] body_distance2(bodies[j], x, y),
        )
    &&& forall|j: int|
        0 <= j < i ==> rank(body_distance2(bodies[i], x, y)) < rank(
            #[trigger] body_distance2(bodies[j], x, y),
        )
}

/// The velocity in the plane from one position toward another.
pub open spec fn heading(from: [u32; 3], to: [u32; 3], speed: u32) -> [u32; 3] {
    let dx = difference(to[0], from[0]);
    let dy = difference(to[1], from[1]);
    let len = square_root(sum(product(dx, dx), product(dy, dy)));
    if is_less(TOGETHER, len) {
        [product(quotient(dx, len), speed), product(quotient(dy, len), speed), 0u32]
    } else {
        [0u32, 0u32, 0u32]
    }
}

/// The first entity with an id.
pub open spec fn find(bodies: Seq<BodyView>, id: u32) -> Option<Entity>
    decreases bodies.len(),
{
    if bodies.len() == 0 {
        None
    } else if bodies[0].id == id {
        Some(bodies[0].entity)
    } else {
        find(bodies.drop_first(), id)
    }
}

pub open spec fn ids(bodies: Seq<BodyView>) -> Seq<u32> {
    bodies.map_values(|b: BodyView| b.id)
}

impl EcsView {
    /// No two entities share an id, they stand in the order of their ids, and
    /// every id was handed out.
    pub open spec fn wf(self) -> bool {
        &&& forall|i: int, j: int|
            0 <= i < j < self.bodies.len() ==> (#[trigger] self.bodies[i]).id < (
            #[trigger] self.bodies[j]).id
        &&& forall|i: int|
            0 <= i < self.bodies.len() ==> (#[trigger] self.bodies[i]).id < self.next_id
    }

    pub open spec fn spawned(self, tag: Seq<char>) -> EcsView {
        EcsView {
            next_id: (self.next_id + 1) as u32,
            bodies: self.bodies.push(BodyView { id: self.next_id, tag, entity: at_rest() }),
        }
    }

    pub open spec fn despawned(self, id: u32) -> EcsView {
        EcsView { bodies: self.bodies.filter(is_other(id)), ..self }
    }

    pub open spec fn placed(self, id: u32, pos: [u32; 3]) -> EcsView {
        EcsView { bodies: self.bodies.map_values(with_pos(id, pos)), ..self }
    }

    pub open spec fn driven(self, id: u32, vel: [u32; 3]) -> EcsView {
        EcsView { bodies: self.bodies.map_values(with_vel(id, vel)), ..self }
    }

    /// Sets one entity moving toward another, if both live.
    pub open spec fn steered(self, id: u32, target: u32, speed: u32) -> EcsView {
        match (find(self.bodies, id), find(self.bodies, target)) {
            (Some(a), Some(b)) => self.driven(id, heading(a.pos, b.pos, speed)),
            _ => self,
        }
    }

    pub open spec fn integrated(self, dt_ms: i64) -> EcsView {
        EcsView { bodies: self.bodies.map_values(after(seconds(dt_ms))), ..self }
    }

    /// The entities under a tag, in the order in which they were spawned.
    pub open spec fn tagged(self, tag: Seq<char>) -> Seq<BodyView> {
        self.bodies.filter(has_tag(tag))
    }

    /// The entity nearest to a point among those under a tag and within reach,
    /// the first spawned of several equally near, or -1.
    pub open spec fn nearest(self, tag: Seq<char>, x: u32, y: u32, reach: u32) -> i64 {
        let near = self.bodies.filter(in_reach(tag, x, y, reach));
        if near.len() == 0 {
            (-1) as i64
        } else {
            near[choose|i: int| is_first_nearest(near, x, y, i)].id as i64
        }
    }
}

proof fn lemma_views_push(bodies: Seq<Body>, b: Body)
    ensures
        views(bodies.push(b)) == views(bodies).push(b@),
{
    assert(views(bodies.push(b)) =~= views(bodies).push(b@));
}

/// Filtering one body more.
proof fn lemma_filter_step(bodies: Seq<BodyView>, i: int, p: spec_fn(BodyView) -> bool)
    requires
        0 <= i < bodies.len(),
    ensures
        bodies.take(i + 1).filter(p) == if p(bodies[i]) {
            bodies.take(i).filter(p).push(bodies[i])
        } else {
            bodies.take(i).filter(p)
        },
{
    reveal(Seq::filter);
    assert(bodies.take(i + 1).drop_last() =~= bodies.take(i));
}

proof fn lemma_filter_none(bodies: Seq<BodyView>, p: spec_fn(BodyView) -> bool)
    ensures
        bodies.take(0).filter(p) == Seq::<BodyView>::empty(),
{
    reveal(Seq::filter);
    assert(bodies.take(0) =~= Seq::<BodyView>::empty());
}

proof fn lemma_first_nearest_unique(near: Seq<BodyView>, x: u32, y: u32, i: int)
    requires
        is_first_nearest(near, x, y, i),
    ensures
        (choose|k: int| is_first_nearest(near, x, y, k)) == i,
{
    let k = choose|k: int| is_first_nearest(near, x, y, k);
    if k < i {
        assert(rank(body_distance2(near[i], x, y)) < rank(body_distance2(near[k], x, y)));
    } else if i < k {
        assert(rank(body_distance2(near[k], x, y)) < rank(body_distance2(near[i], x, y)));
    }
}

/// The square of the distance between two points of the plane.
pub fn squared_distance(x0: u32, y0: u32, x1: u32, y1: u32) -> (r: u32)
    ensures
        r == distance2(x0, y0, x1, y1),
{
    let dx: u32 = minus(x0, x1);
    let dy: u32 = minus(y0, y1);
    plus(times(dx, dx), times(dy, dy))
}

/// The velocity in the plane from one position toward another.
pub fn velocity_toward(from: [u32; 3], to: [u32; 3], speed: u32) -> (r: [u32; 3])
    ensures
        r == heading(from, to, speed),
{
    let dx: u32 = minus(to[0], from[0]);
    let dy: u32 = minus(to[1], from[1]);
    let len: u32 = sqrt(plus(times(dx, dx), times(dy, dy)));
    if less(TOGETHER, len) {
        [times(over(dx, len), speed), times(over(dy, len), speed), 0]
    } else {
        [0, 0, 0]
    }
}

impl Default for EcsStore {
    fn default() -> (r: EcsStore)
        ensures
            r@ == (EcsView { next_id: 0, bodies: Seq::empty() }),
    {
        EcsStore::new()
    }
}

impl EcsStore {
    /// A store without entities.
    pub fn new() -> (r: EcsStore)
        ensures
            r@ == (EcsView { next_id: 0, bodies: Seq::empty() }),
    {
        let r = EcsStore { next_id: 0, bodies: Vec::new() };
        assert(r@.bodies =~= Seq::empty());
        r
    }

    /// Whether there is an id left to hand out.
    pub fn has_room(&self) -> (r: bool)
        ensures
            r == (self@.next_id < u32::MAX),
    {
        self.next_id < u32::MAX
    }

    /// Adds an entity at rest at the origin and returns its id.
    pub fn spawn(&mut self, tag: &str) -> (id: u32)
        requires
            old(self)@.next_id < u32::MAX,
        ensures
            id == old(self)@.next_id,
            final(self)@ == old(self)@.spawned(tag@),
    {
        let id: u32 = self.next_id;
        self.next_id = id + 1;
        let body = Body { id, tag: tag.to_owned(), entity: Entity::default() };
        proof {
            lemma_views_push(self.bodies@, body);
        }
        self.bodies.push(body);
        id
    }

    /// Removes the entity with an id, if there is one.
    pub fn despawn(&mut self, id: u32)
        ensures
            final(self)@ == old(self)@.despawned(id),
    {
        let ghost all = views(self.bodies@);
        let ghost p = is_other(id);
        let ghost mut seen: int = 0;
        let mut i: usize = 0;
        proof {
            lemma_filter_none(all, p);
            assert(views(self.bodies@) =~= all.take(0).filter(p) + all.skip(0));
        }
        while i < self.bodies.len()
            invariant
                p == is_other(id),
                0 <= seen <= all.len(),
                i == all.take(seen).filter(p).len(),
                views(self.bodies@) == all.take(seen).filter(p) + all.skip(seen),
                self.next_id == old(self).next_id,
            decreases self.bodies.len() - i,
        {
            assert(self.bodies.len() == views(self.bodies@).len());
            assert(views(self.bodies@)[i as int] == all[seen]);
            assert(self.bodies@[i as int]@ == all[seen]);
            proof {
                lemma_filter_step(all, seen, p);
            }
            let ghost before = self.bodies@;
            if self.bodies[i].id == id {
                self.bodies.remove(i);
                assert(views(self.bodies@) =~= views(before).remove(i as int));
                assert(views(self.bodies@) =~= all.take(seen + 1).filter(p) + all.skip(seen + 1));
            } else {
                i = i + 1;
                assert(views(self.bodies@) =~= all.take(seen + 1).filter(p) + all.skip(seen + 1));
            }
            proof {
                seen = seen + 1;
            }
        }
        proof {
            assert(self.bodies.len() == views(self.bodies@).len());
            assert(seen == all.len());
            assert(all.take(seen) =~= all);
            assert(views(self.bodies@) =~= all.filter(p));
        }
    }

    /// Where the entity with an id is and how it moves.
    pub fn get(&self, id: u32) -> (r: Option<Entity>)
        ensures
            r == find(self@.bodies, id),
    {
        let ghost all = views(self.bodies@);
        let mut i: usize = 0;
        assert(all.skip(0) =~= all);
        while i < self.bodies.len()
            invariant
                all == views(self.bodies@),
                all == self@.bodies,
                i <= self.bodies.len(),
                find(all, id) == find(all.skip(i as int), id),
            decreases self.bodies.len() - i,
        {
            assert(all.skip(i as int)[0] == self.bodies@[i as int]@);
            assert(all.skip(i as int).drop_first() =~= all.skip(i + 1));
            if self.bodies[i].id == id {
                return Some(self.bodies[i].entity);
            }
            i = i + 1;
        }
        None
    }

    pub fn set_position(&mut self, id: u32, pos: [u32; 3])
        ensures
            final(self)@ == old(self)@.placed(id, pos),
    {
        let ghost all = views(self.bodies@);
        let mut i: usize = 0;
        while i < self.bodies.len()
            invariant
                i <= self.bodies.len(),
                self.bodies.len() == all.len(),
                self.next_id == old(self).next_id,
                forall|k: int|
                    0 <= k < i ==> (#[trigger] self.bodies@[k])@ == with_pos(id, pos)(all[k]),
                forall|k: int| i <= k < all.len() ==> (#[trigger] self.bodies@[k])@ == all[k],
            decreases self.bodies.len() - i,
        {
            if self.bodies[i].id == id {
                self.bodies[i].entity.pos = pos;
            }
            i = i + 1;
        }
        assert(views(self.bodies@) =~= all.map_values(with_pos(id, pos)));
    }

    pub fn set_velocity(&mut self, id: u32, vel: [u32; 3])
        ensures
            final(self)@ == old(self)@.driven(id, vel),
    {
        let ghost all = views(self.bodies@);
        let mut i: usize = 0;
        while i < self.bodies.len()
            invariant
                i <= self.bodies.len(),
                self.bodies.len() == all.len(),
                self.next_id == old(self).next_id,
                forall|k: int|
                    0 <= k < i ==> (#[trigger] self.bodies@[k])@ == with_vel(id, vel)(all[k]),
                forall|k: int| i <= k < all.len() ==> (#[trigger] self.bodies@[k])@ == all[k],
            decreases self.bodies.len() - i,
        {
            if self.bodies[i].id == id {
                self.bodies[i].entity.vel = vel;
            }
            i = i + 1;
        }
        assert(views(self.bodies@) =~= all.map_values(with_vel(id, vel)));
    }

    /// The ids of the entities under a tag, in the order in which they were
    /// spawned. No entity is under the empty tag.
    pub fn tagged(&self, tag: &str) -> (r: Vec<u32>)
        ensures
            r@ == ids(self@.tagged(tag@)),
    {
        let ghost all = views(self.bodies@);
        let ghost p = has_tag(tag@);
        let mut r: Vec<u32> = Vec::new();
        proof {
            lemma_filter_none(all, p);
        }
        assert(r@ =~= ids(all.take(0).filter(p)));
        let wanted: String = tag.to_owned();
        let any: bool = !tag.is_empty();
        let mut i: usize = 0;
        while i < self.bodies.len()
            invariant
                p == has_tag(tag@),
                wanted@ == tag@,
                any == (tag@.len() > 0),
                all == views(self.bodies@),
                i <= self.bodies.len(),
                r@ == ids(all.take(i as int).filter(p)),
            decreases self.bodies.len() - i,
        {
            proof {
                lemma_filter_step(all, i as int, p);
            }
            assert(all[i as int] == self.bodies@[i as int]@);
            if any && self.bodies[i].tag == wanted {
                r.push(self.bodies[i].id);
                assert(r@ =~= ids(all.take(i as int).filter(p).push(all[i as int])));
            }
            i = i + 1;
        }
        assert(all.take(i as int) =~= all);
        r
    }

    /// The number of live entities.
    pub fn len(&self) -> (r: usize)
        ensures
            r == self@.bodies.len(),
    {
        self.bodies.len()
    }

    /// Each live entity in the order in which they were spawned: its id, its tag,
    /// its position and its velocity.
    pub fn dump(&self) -> (r: Vec<Row>)
        ensures
            lists(r@, self@.bodies),
    {
        let mut r: Vec<Row> = Vec::new();
        let mut i: usize = 0;
        while i < self.bodies.len()
            invariant
                i <= self.bodies.len(),
                r.len() == i,
                forall|k: int| 0 <= k < i ==> is_row(#[trigger] r@[k], views(self.bodies@)[k]),
            decreases self.bodies.len() - i,
        {
            let b: &Body = &self.bodies[i];
            r.push((b.id, b.tag.clone(), b.entity.pos, b.entity.vel));
            i = i + 1;
        }
        r
    }

    /// The entity nearest to a point among those under a tag and within reach,
    /// the first spawned of several equally near, or -1.
    pub fn nearest(&self, tag: &str, x: u32, y: u32, reach: u32) -> (r: i64)
        ensures
            r == self@.nearest(tag@, x, y, reach),
    {
        let ghost all = views(self.bodies@);
        let ghost p = in_reach(tag@, x, y, reach);
        let wanted: String = tag.to_owned();
        let any: bool = !tag.is_empty();
        let reach2: u32 = times(reach, reach);
        let mut found: bool = false;
        let mut best: u32 = 0;
        let mut best2: u32 = 0;
        let ghost mut at: int = 0;
        let mut i: usize = 0;
        proof {
            lemma_filter_none(all, p);
        }
        while i < self.bodies.len()
            invariant
                p == in_reach(tag@, x, y, reach),
                wanted@ == tag@,
                any == (tag@.len() > 0),
                reach2 == product(reach, reach),
                all == views(self.bodies@),
                i <= self.bodies.len(),
                found == (all.take(i as int).filter(p).len() > 0),
                found ==> is_first_nearest(all.take(i as int).filter(p), x, y, at),
                found ==> best == all.take(i as int).filter(p)[at].id,
                found ==> best2 == body_distance2(all.take(i as int).filter(p)[at], x, y),
                found ==> is_at_most(best2, reach2),
            decreases self.bodies.len() - i,
        {
            let ghost near = all.take(i as int).filter(p);
            proof {
                lemma_filter_step(all, i as int, p);
            }
            assert(all[i as int] == self.bodies@[i as int]@);
            if any && self.bodies[i].tag == wanted {
                let e: Entity = self.bodies[i].entity;
                let d2: u32 = squared_distance(e.pos[0], e.pos[1], x, y);
                if at_most(d2, reach2) {
                    let ghost more = near.push(all[i as int]);
                    assert(forall|j: int| 0 <= j < near.len() ==> more[j] == near[j]);
                    assert(more[near.len() as int] == all[i as int]);
                    assert(d2 == body_distance2(more[near.len() as int], x, y));
                    if !found || less(d2, best2) {
                        found = true;
                        best = self.bodies[i].id;
                        best2 = d2;
                        proof {
                            at = near.len() as int;
                        }
                        assert(is_first_nearest(more, x, y, at));
                    } else {
                        assert(is_first_nearest(more, x, y, at));
                    }
                }
            }
            i = i + 1;
        }
        assert(all.take(i as int) =~= all);
        if found {
            proof {
                lemma_first_nearest_unique(all.filter(p), x, y, at);
            }
            best as i64
        } else {
            -1
        }
    }

    /// Sets one entity moving toward another, if both live.
    pub fn move_toward(&mut self, id: u32, target: u32, speed: u32)
        ensures
            final(self)@ == old(self)@.steered(id, target, speed),
    {
        if let Some(a) = self.get(id) {
            if let Some(b) = self.get(target) {
                let vel: [u32; 3] = velocity_toward(a.pos, b.pos, speed);
                self.set_velocity(id, vel);
            }
        }
    }

    /// Moves every entity at its velocity for `dt_ms` milliseconds.
    pub fn integrate(&mut self, dt_ms: i64)
        ensures
            final(self)@ == old(self)@.integrated(dt_ms),
    {
        let dt: u32 = over(from_int(dt_ms), THOUSAND);
        let ghost all = views(self.bodies@);
        let mut i: usize = 0;
        while i < self.bodies.len()
            invariant
                dt == seconds(dt_ms),
                i <= self.bodies.len(),
                self.bodies.len() == all.len(),
                self.next_id == old(self).next_id,
                forall|k: int| 0 <= k < i ==> (#[trigger] self.bodies@[k])@ == after(dt)(all[k]),
                forall|k: int| i <= k < all.len() ==> (#[trigger] self.bodies@[k])@ == all[k],
            decreases self.bodies.len() - i,
        {
            let e: Entity = self.bodies[i].entity;
            let pos: [u32; 3] = [
                plus(e.pos[0], times(e.vel[0], dt)),
                plus(e.pos[1], times(e.vel[1], dt)),
                plus(e.pos[2], times(e.vel[2], dt)),
            ];
            self.bodies[i].entity.pos = pos;
            i = i + 1;
        }
        assert(views(self.bodies@) =~= all.map_values(after(dt)));
    }
}

} // verus!
