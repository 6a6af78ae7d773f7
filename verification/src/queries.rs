//! What holds of queries, whatever a guest calls besides.

use vstd::prelude::*;

use crate::ecs::{has_tag, ids, EcsView};
use crate::imports::{decoded, HostCall, Value};
use crate::laws::{lemma_filter_wf, replayed, run, Event};
use crate::state::{fresh, HostTrap, HostView, Reply};

verus! {

/// Whether a call asks a query for its next id.
pub open spec fn asks(e: Event, handle: i64) -> bool {
    decoded(e.import, e.args) == Some(HostCall::QueryNext { handle })
}

/// Whether a call begins a query.
pub open spec fn begins(e: Event) -> bool {
    decoded(e.import, e.args) matches Some(HostCall::QueryBegin { .. })
}

/// What a query has still to hand out: nothing, once it is over.
pub open spec fn left(s: HostView, handle: i64) -> Seq<u32> {
    if s.cursors.contains_key(handle) {
        s.cursors[handle]
    } else {
        Seq::empty()
    }
}

/// What is answered, call after call, to those that ask a query for its next id.
pub open spec fn replies(s: HostView, events: Seq<Event>, handle: i64) -> Seq<Reply>
    decreases events.len(),
{
    if events.len() == 0 {
        Seq::empty()
    } else {
        let e = events[0];
        let (next, reply) = s.answer(e.memory, e.import, e.args);
        let more = replies(next, events.drop_first(), handle);
        if asks(e, handle) {
            seq![reply] + more
        } else {
            more
        }
    }
}

/// What is answered to the call that asks for an id after `k` others did: the ids
/// from the last to the first, then -1.
pub open spec fn handed_out(all: Seq<u32>, k: int) -> Reply {
    Ok(
        Some(
            Value::I64(
                if k < all.len() {
                    all[all.len() - 1 - k] as i64
                } else {
                    (-1) as i64
                },
            ),
        ),
    )
}

/// A call changes no query but the one that it asks.
proof fn lemma_answer_leaves(s: HostView, e: Event, handle: i64)
    requires
        handle < s.next_query,
    ensures
        ({
            let t = s.answer(e.memory, e.import, e.args).0;
            &&& handle < t.next_query
            &&& !asks(e, handle) ==> {
                &&& t.cursors.contains_key(handle) == s.cursors.contains_key(handle)
                &&& left(t, handle) == left(s, handle)
            }
        }),
{
}

/// Calls that do not ask a query leave it as it is.
pub proof fn law_others_leave_a_query(s: HostView, events: Seq<Event>, handle: i64)
    requires
        handle < s.next_query,
        forall|i: int| 0 <= i < events.len() ==> !asks(#[trigger] events[i], handle),
    ensures
        run(s, events).cursors.contains_key(handle) == s.cursors.contains_key(handle),
        s.cursors.contains_key(handle) ==> run(s, events).cursors[handle] == s.cursors[handle],
    decreases events.len(),
{
    if events.len() > 0 {
        let e = events[0];
        let rest = events.drop_first();
        lemma_answer_leaves(s, e, handle);
        assert forall|i: int| 0 <= i < rest.len() implies !asks(#[trigger] rest[i], handle) by {
            assert(rest[i] == events[i + 1]);
        }
        law_others_leave_a_query(s.answer(e.memory, e.import, e.args).0, rest, handle);
    }
}

/// However many other calls come between, those that ask a query are answered with
/// what it has left, the last first, and then with -1.
pub proof fn law_query_goes_on(s: HostView, events: Seq<Event>, handle: i64)
    requires
        handle < s.next_query,
    ensures
        forall|k: int|
            0 <= k < replies(s, events, handle).len() ==> #[trigger] replies(s, events, handle)[k]
                == handed_out(left(s, handle), k),
    decreases events.len(),
{
    if events.len() > 0 {
        let e = events[0];
        let rest = events.drop_first();
        let (t, reply) = s.answer(e.memory, e.import, e.args);
        let all = left(s, handle);
        let more = replies(t, rest, handle);
        lemma_answer_leaves(s, e, handle);
        law_query_goes_on(t, rest, handle);
        if asks(e, handle) {
            assert(reply == handed_out(all, 0));
            assert(left(t, handle) == if all.len() == 0 {
                all
            } else {
                all.drop_last()
            });
            assert forall|k: int| 0 <= k < replies(s, events, handle).len() implies #[trigger]
            replies(s, events, handle)[k] == handed_out(all, k) by {
                if k > 0 {
                    assert(more[k - 1] == handed_out(left(t, handle), k - 1));
                }
            }
        }
    }
}

/// A query hands out the id of each entity that was under its tag when it began, each
/// once, the last spawned first, and then answers -1, whatever the guest calls in
/// between.
pub proof fn law_query_hands_out_each_once(s: HostView, tag: Seq<char>, events: Seq<Event>)
    requires
        s.next_query < i64::MAX,
        s.store.wf(),
    ensures
        ({
            let (begun, reply) = s.query_begin(tag);
            let handle = s.next_query;
            let all = ids(s.store.tagged(tag));
            &&& reply == Ok::<Option<Value>, HostTrap>(Some(Value::I64(handle)))
            &&& all.no_duplicates()
            &&& forall|i: int, j: int| 0 <= i < j < all.len() ==> #[trigger] all[i] < #[trigger] all[j]
            &&& forall|id: u32| #[trigger] all.contains(id) <==> is_under(s.store, tag, id)
            &&& forall|k: int|
                0 <= k < replies(begun, events, handle).len() ==> #[trigger] replies(
                    begun,
                    events,
                    handle,
                )[k] == handed_out(all, k)
        }),
{
    let begun = s.query_begin(tag).0;
    let handle = s.next_query;
    law_query_goes_on(begun, events, handle);
    assert(left(begun, handle) == ids(s.store.tagged(tag)));
    lemma_tagged_ids(s.store, tag);
}

/// Whether an entity with an id lives under a tag. None lives under the empty one.
pub open spec fn is_under(store: EcsView, tag: Seq<char>, id: u32) -> bool {
    tag.len() > 0 && exists|i: int|
        0 <= i < store.bodies.len() && (#[trigger] store.bodies[i]).id == id && store.bodies[i].tag
            == tag
}

/// The ids under a tag are each there once, and they are those that live under it.
proof fn lemma_tagged_ids(store: EcsView, tag: Seq<char>)
    requires
        store.wf(),
    ensures
        ids(store.tagged(tag)).no_duplicates(),
        forall|i: int, j: int|
            0 <= i < j < ids(store.tagged(tag)).len() ==> #[trigger] ids(store.tagged(tag))[i]
                < #[trigger] ids(store.tagged(tag))[j],
        forall|id: u32| #[trigger]
            ids(store.tagged(tag)).contains(id) <==> is_under(store, tag, id),
{
    let b = store.bodies;
    let p = has_tag(tag);
    let out = b.filter(p);
    let all = ids(store.tagged(tag));
    assert(b =~= b.take(b.len() as int));
    lemma_filter_wf(store, p, b);
    let kept = EcsView { bodies: out, ..store };
    assert(kept.wf());
    assert forall|i: int, j: int| 0 <= i < all.len() && 0 <= j < all.len() && i != j implies all[i]
        != all[j] by {
        if i < j {
            assert(kept.bodies[i].id < kept.bodies[j].id);
        } else {
            assert(kept.bodies[j].id < kept.bodies[i].id);
        }
    }
    assert forall|i: int, j: int| 0 <= i < j < all.len() implies #[trigger] all[i]
        < #[trigger] all[j] by {
        assert(kept.bodies[i].id < kept.bodies[j].id);
    }
    assert forall|id: u32| #[trigger] all.contains(id) <==> is_under(store, tag, id) by {
        if all.contains(id) {
            let k = choose|k: int| 0 <= k < all.len() && all[k] == id;
            assert(b.contains(out[k]) && p(out[k]));
            let i = choose|i: int| 0 <= i < b.len() && b[i] == out[k];
            assert(b[i].id == id);
        }
        if is_under(store, tag, id) {
            let i = choose|i: int|
                0 <= i < b.len() && (#[trigger] b[i]).id == id && b[i].tag == tag;
            assert(p(b[i]));
            assert(out.contains(b[i]));
            let k = choose|k: int| 0 <= k < out.len() && out[k] == b[i];
            assert(all[k] == id);
        }
    }
}

/// How many calls begin a query.
pub open spec fn begun_in(events: Seq<Event>) -> nat
    decreases events.len(),
{
    if events.len() == 0 {
        0
    } else {
        (if begins(events[0]) {
            1nat
        } else {
            0
        }) + begun_in(events.drop_first())
    }
}

/// How many calls begin a query over a number of ticks.
pub open spec fn begun_over(ticks: Seq<(Seq<Event>, i64)>) -> nat
    decreases ticks.len(),
{
    if ticks.len() == 0 {
        0
    } else {
        begun_over(ticks.drop_last()) + begun_in(ticks.last().0)
    }
}

/// Handles are counted up, one for each query that begins.
pub proof fn law_handles_count_up(s: HostView, events: Seq<Event>)
    requires
        s.next_query + begun_in(events) <= i64::MAX,
    ensures
        run(s, events).next_query == s.next_query + begun_in(events),
    decreases events.len(),
{
    if events.len() > 0 {
        let e = events[0];
        let t = s.answer(e.memory, e.import, e.args).0;
        assert(t.next_query == s.next_query + if begins(e) {
            1int
        } else {
            0
        });
        law_handles_count_up(t, events.drop_first());
    }
}

proof fn lemma_handles_over_ticks(s: HostView, ticks: Seq<(Seq<Event>, i64)>)
    requires
        s.next_query + begun_over(ticks) <= i64::MAX,
    ensures
        replayed(s, ticks).next_query == s.next_query + begun_over(ticks),
    decreases ticks.len(),
{
    if ticks.len() > 0 {
        lemma_handles_over_ticks(s, ticks.drop_last());
        law_handles_count_up(replayed(s, ticks.drop_last()).tick_begun(), ticks.last().0);
    }
}

/// The handle of a query is one more than the number of queries that began before it
/// since the guest was loaded, in its start and `init` or in a tick, so that no handle
/// is used twice.
pub proof fn law_handle_is_the_count(
    seed: u64,
    first: Seq<Event>,
    ticks: Seq<(Seq<Event>, i64)>,
    now: Seq<Event>,
    tag: Seq<char>,
)
    requires
        1 + begun_in(first) + begun_over(ticks) + begun_in(now) < i64::MAX,
    ensures
        run(replayed(run(fresh(seed), first), ticks).tick_begun(), now).query_begin(tag).1 == Ok::<
            Option<Value>,
            HostTrap,
        >(
            Some(
                Value::I64((1 + begun_in(first) + begun_over(ticks) + begun_in(now)) as i64),
            ),
        ),
{
    let started = run(fresh(seed), first);
    law_handles_count_up(fresh(seed), first);
    lemma_handles_over_ticks(started, ticks);
    law_handles_count_up(replayed(started, ticks).tick_begun(), now);
}

/// Whether every query that goes on, and every one to come, has a handle of at least
/// `q`.
pub open spec fn none_below(s: HostView, q: i64) -> bool {
    &&& q <= s.next_query
    &&& forall|handle: i64| #[trigger] s.cursors.contains_key(handle) ==> q <= handle
}

/// No call brings a handle back: what is below all handles stays so.
pub proof fn law_old_handles_stay_old(s: HostView, events: Seq<Event>, q: i64)
    requires
        none_below(s, q),
    ensures
        none_below(run(s, events), q),
    decreases events.len(),
{
    if events.len() > 0 {
        let e = events[0];
        let t = s.answer(e.memory, e.import, e.args).0;
        assert(none_below(t, q));
        law_old_handles_stay_old(t, events.drop_first(), q);
    }
}

/// A handle below all others is answered with -1, which changes nothing, and is never
/// given out.
pub proof fn law_old_handle_is_dead(s: HostView, q: i64, handle: i64, tag: Seq<char>)
    requires
        none_below(s, q),
        handle < q,
    ensures
        s.query_next(handle) == (
            s,
            Ok::<Option<Value>, HostTrap>(Some(Value::I64((-1) as i64))),
        ),
        s.query_begin(tag).1 != Ok::<Option<Value>, HostTrap>(Some(Value::I64(handle))),
{
}

/// When a tick is over, every handle given out so far is dead, and stays so through
/// any ticks that follow and whatever is called in them.
pub proof fn law_handles_die_with_their_tick(
    s: HostView,
    dt_ms: i64,
    ticks: Seq<(Seq<Event>, i64)>,
    now: Seq<Event>,
    handle: i64,
    tag: Seq<char>,
)
    requires
        handle < s.next_query,
    ensures
        ({
            let later = run(replayed(s.tick_ended(dt_ms), ticks).tick_begun(), now);
            &&& later.query_next(handle) == (
                later,
                Ok::<Option<Value>, HostTrap>(Some(Value::I64((-1) as i64))),
            )
            &&& later.query_begin(tag).1 != Ok::<Option<Value>, HostTrap>(
                Some(Value::I64(handle)),
            )
        }),
{
    let q = s.next_query;
    let over = s.tick_ended(dt_ms);
    assert(none_below(over, q));
    lemma_old_over_ticks(over, ticks, q);
    law_old_handles_stay_old(replayed(over, ticks).tick_begun(), now, q);
    let later = run(replayed(over, ticks).tick_begun(), now);
    law_old_handle_is_dead(later, q, handle, tag);
}

proof fn lemma_old_over_ticks(s: HostView, ticks: Seq<(Seq<Event>, i64)>, q: i64)
    requires
        none_below(s, q),
    ensures
        none_below(replayed(s, ticks), q),
    decreases ticks.len(),
{
    if ticks.len() > 0 {
        lemma_old_over_ticks(s, ticks.drop_last(), q);
        law_old_handles_stay_old(
            replayed(s, ticks.drop_last()).tick_begun(),
            ticks.last().0,
            q,
        );
    }
}

} // verus!
