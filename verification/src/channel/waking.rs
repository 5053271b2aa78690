//! Who is woken when halves are dropped, and what stays.
use crate::channel::counting;
use crate::channel::laws;
use crate::channel::model;
use crate::channel::model::{
    ChannelId, ChannelModel, Half, MappingModel, ThreadId, ThreadRef, WakeupModel, WeakModel,
};
use vstd::prelude::*;

verus! {

/// Whether the step from `s` to `t`, in which halves are dropped, woke who it should: a
/// channel that lost its last writer has all of its waiters in a wakeup, any other channel
/// still has its waiters, and nobody else is woken.
pub open spec fn wakes_orphans(s: MappingModel, t: MappingModel, wakeups: Seq<WakeupModel>) -> bool {
    &&& forall|id: ChannelId| #[trigger]
        t.live.contains_key(id) ==> {
            &&& s.live.contains_key(id)
            &&& t.live[id].writers <= s.live[id].writers
            &&& t.live[id].readers <= s.live[id].readers
            &&& if s.live[id].writers > 0 && t.live[id].writers == 0 {
                &&& t.live[id].waiters == Map::<ThreadId, ThreadRef>::empty()
                &&& wakeups.contains(WakeupModel { id, waiters: s.live[id].waiters })
            } else {
                &&& t.live[id].waiters == s.live[id].waiters
                &&& forall|i: int| 0 <= i < wakeups.len() ==> (#[trigger] wakeups[i]).id != id
            }
        }
    &&& forall|i: int|
        0 <= i < wakeups.len() ==> {
            &&& s.live.contains_key((#[trigger] wakeups[i]).id)
            &&& s.live[wakeups[i].id].writers > 0
            &&& wakeups[i].waiters == s.live[wakeups[i].id].waiters
        }
    &&& forall|i: int, j: int|
        0 <= i < j < wakeups.len() ==> (#[trigger] wakeups[i]).id != (#[trigger] wakeups[j]).id
}

/// Two steps, one after the other, are one step.
proof fn lemma_two_steps(
    s: MappingModel,
    u: MappingModel,
    t: MappingModel,
    first: Seq<WakeupModel>,
    second: Seq<WakeupModel>,
)
    requires
        wakes_orphans(s, u, first),
        wakes_orphans(u, t, second),
    ensures
        wakes_orphans(s, t, first + second),
{
    let both = first + second;
    assert forall|i: int| 0 <= i < both.len() implies {
        &&& s.live.contains_key((#[trigger] both[i]).id)
        &&& s.live[both[i].id].writers > 0
        &&& both[i].waiters == s.live[both[i].id].waiters
    } by {
        if i < first.len() {
            assert(both[i] == first[i]);
        } else {
            assert(both[i] == second[i - first.len()]);
            assert(u.live.contains_key(both[i].id));
        }
    }
    assert forall|i: int, j: int| 0 <= i < j < both.len() implies (#[trigger] both[i]).id != (
    #[trigger] both[j]).id by {
        if j < first.len() {
            assert(both[i] == first[i] && both[j] == first[j]);
        } else if i < first.len() {
            assert(both[i] == first[i] && both[j] == second[j - first.len()]);
            assert(u.live.contains_key(both[j].id));
        } else {
            assert(both[i] == second[i - first.len()] && both[j] == second[j - first.len()]);
        }
    }
    assert forall|id: ChannelId| #[trigger] t.live.contains_key(id) implies {
        &&& s.live.contains_key(id)
        &&& t.live[id].writers <= s.live[id].writers
        &&& t.live[id].readers <= s.live[id].readers
        &&& if s.live[id].writers > 0 && t.live[id].writers == 0 {
            &&& t.live[id].waiters == Map::<ThreadId, ThreadRef>::empty()
            &&& both.contains(WakeupModel { id, waiters: s.live[id].waiters })
        } else {
            &&& t.live[id].waiters == s.live[id].waiters
            &&& forall|i: int| 0 <= i < both.len() ==> (#[trigger] both[i]).id != id
        }
    } by {
        assert(u.live.contains_key(id));
        let w = WakeupModel { id, waiters: s.live[id].waiters };
        if s.live[id].writers > 0 && t.live[id].writers == 0 {
            if u.live[id].writers == 0 {
                let i = choose|i: int| 0 <= i < first.len() && first[i] == w;
                assert(both[i] == w);
            } else {
                let i = choose|i: int| 0 <= i < second.len() && second[i] == w;
                assert(both[first.len() + i] == w);
            }
        } else {
            assert forall|i: int| 0 <= i < both.len() implies (#[trigger] both[i]).id != id by {
                if i < first.len() {
                    assert(both[i] == first[i]);
                } else {
                    assert(both[i] == second[i - first.len()]);
                }
            }
        }
    }
}

/// Dropping halves, and all that goes with them, wakes exactly those that wait on channels
/// that lose their last writer.
pub proof fn law_dropping_wakes_orphans(s: MappingModel, pending: Seq<Half>)
    requires
        s.wf_with(pending),
    ensures
        wakes_orphans(s, s.drop_all(pending), s.drop_wakeups(pending)),
    decreases s.live.dom().len(), pending.len(),
{
    if pending.len() > 0 {
        let step = s.drop_one(pending[0]);
        let after = step.released + pending.drop_first();
        counting::lemma_pending_counted(s, pending);
        counting::lemma_drop_one(s, pending);
        if step.wakeups.len() > 0 {
            assert(step.wakeups[0] == WakeupModel {
                id: pending[0].id,
                waiters: s.live[pending[0].id].waiters,
            });
            assert(step.wakeups.contains(step.wakeups[0]));
        }
        assert(wakes_orphans(s, step.state, step.wakeups));
        law_dropping_wakes_orphans(step.state, after);
        lemma_two_steps(
            s,
            step.state,
            s.drop_all(pending),
            step.wakeups,
            step.state.drop_wakeups(after),
        );
    }
}

/// No waiter is lost when a half is dropped: a thread that waited on a channel that still
/// exists goes on waiting, with the same reference, or is in a wakeup for that channel.
pub proof fn law_drop_loses_no_waiter(s: MappingModel, h: Half, id: ChannelId, thread: ThreadId)
    requires
        s.wf(),
        s.held.count(h) > 0,
        s.live.contains_key(id),
        s.live[id].waiters.contains_key(thread),
        s.drop_half(h).live.contains_key(id),
    ensures
        ({
            let t = s.drop_half(h);
            let wakeups = s.give_back(h).drop_wakeups(seq![h]);
            let thread_ref = s.live[id].waiters[thread];
            ||| t.live[id].waiters.contains_key(thread) && t.live[id].waiters[thread] == thread_ref
            ||| exists|i: int|
                0 <= i < wakeups.len() && (#[trigger] wakeups[i]).id == id
                    && wakeups[i].waiters.contains_key(thread) && wakeups[i].waiters[thread]
                    == thread_ref
        }),
{
    counting::lemma_give_back(s, h);
    law_dropping_wakes_orphans(s.give_back(h), seq![h]);
    let wakeups = s.give_back(h).drop_wakeups(seq![h]);
    let w = WakeupModel { id, waiters: s.live[id].waiters };
    if wakeups.contains(w) {
        let i = choose|i: int| 0 <= i < wakeups.len() && wakeups[i] == w;
        assert(wakeups[i].id == id);
    }
}

/// Reaping one channel wakes exactly those that wait on channels that lose their last
/// writer by it.
proof fn lemma_gc_channel_wakes_orphans(s: MappingModel, k: ChannelId)
    requires
        s.wf(),
    ensures
        wakes_orphans(s, s.gc_channel(k), s.gc_channel_wakeups(k)),
{
    if let Some(id) = s.entry(k) {
        let e = s.emptied(k, id);
        let halves = s.live[id].halves();
        counting::lemma_emptied(s, k, id);
        law_dropping_wakes_orphans(e, halves);
        assert(wakes_orphans(s, e, Seq::empty()));
        lemma_two_steps(s, e, s.gc_channel(k), Seq::empty(), e.drop_wakeups(halves));
        assert(Seq::<WakeupModel>::empty() + e.drop_wakeups(halves) =~= e.drop_wakeups(halves));
    }
}

/// Garbage collection wakes exactly those that wait on channels that lose their last writer
/// by it.
pub proof fn law_gc_wakes_orphans(s: MappingModel, order: Seq<ChannelId>)
    requires
        s.wf(),
    ensures
        wakes_orphans(s, s.gc_all(order), s.gc_wakeups(order)),
    decreases order.len(),
{
    if order.len() > 0 {
        let front = order.drop_last();
        let u = s.gc_all(front);
        law_gc_wakes_orphans(s, front);
        counting::lemma_gc_all(s, front);
        lemma_gc_channel_wakes_orphans(u, order.last());
        lemma_two_steps(
            s,
            u,
            s.gc_all(order),
            s.gc_wakeups(front),
            u.gc_channel_wakeups(order.last()),
        );
    }
}

/// No waiter is lost by garbage collection: a thread that waited on a channel that still
/// exists goes on waiting, with the same reference, or is in a wakeup for that channel. If
/// the channel had a writer and has none any more, all of its waiters are in one wakeup.
pub proof fn law_gc_loses_no_waiter(
    s: MappingModel,
    order: Seq<ChannelId>,
    id: ChannelId,
    thread: ThreadId,
)
    requires
        s.wf(),
        s.live.contains_key(id),
        s.live[id].waiters.contains_key(thread),
        s.gc_all(order).live.contains_key(id),
    ensures
        ({
            let t = s.gc_all(order);
            let wakeups = s.gc_wakeups(order);
            let thread_ref = s.live[id].waiters[thread];
            &&& {
                ||| t.live[id].waiters.contains_key(thread) && t.live[id].waiters[thread]
                    == thread_ref
                ||| exists|i: int|
                    0 <= i < wakeups.len() && (#[trigger] wakeups[i]).id == id
                        && wakeups[i].waiters.contains_key(thread) && wakeups[i].waiters[thread]
                        == thread_ref
            }
            &&& s.live[id].writers > 0 && t.live[id].readers > 0 && t.live[id].writers == 0
                ==> exists|i: int|
                0 <= i < wakeups.len() && (#[trigger] wakeups[i]).id == id && wakeups[i].waiters
                    == s.live[id].waiters
        }),
{
    law_gc_wakes_orphans(s, order);
    let wakeups = s.gc_wakeups(order);
    let w = WakeupModel { id, waiters: s.live[id].waiters };
    if wakeups.contains(w) {
        let i = choose|i: int| 0 <= i < wakeups.len() && wakeups[i] == w;
        assert(wakeups[i].id == id);
    }
}

/// Garbage collection wakes nobody without need: whoever is woken waited on a channel that
/// had a writer and has lost it, or is gone.
pub proof fn law_gc_wakes_nobody_else(s: MappingModel, order: Seq<ChannelId>, i: int)
    requires
        s.wf(),
        0 <= i < s.gc_wakeups(order).len(),
    ensures
        ({
            let t = s.gc_all(order);
            let w = s.gc_wakeups(order)[i];
            &&& s.live.contains_key(w.id)
            &&& s.live[w.id].writers > 0
            &&& w.waiters == s.live[w.id].waiters
            &&& t.live.contains_key(w.id) ==> t.live[w.id].writers == 0
        }),
{
    law_gc_wakes_orphans(s, order);
}

/// Whether channel `x` is referred to by a half that is held, or by one that is queued in a
/// channel in `c`.
pub open spec fn supported(s: MappingModel, c: Set<ChannelId>, x: ChannelId) -> bool {
    ||| exists|h: Half| #[trigger] s.held.count(h) > 0 && h.id == x
    ||| exists|a: ChannelId, h: Half|
        c.contains(a) && s.live.contains_key(a) && #[trigger] s.live[a].halves().contains(h)
            && h.id == x
}

/// A half that supports a channel is referred to.
proof fn lemma_supported(s: MappingModel, pending: Seq<Half>, c: Set<ChannelId>, x: ChannelId) -> (h:
    Half)
    requires
        s.wf_with(pending),
        supported(s, c, x),
    ensures
        h.id == x,
        s.references(h) > 0,
{
    if exists|h: Half| #[trigger] s.held.count(h) > 0 && h.id == x {
        choose|h: Half| #[trigger] s.held.count(h) > 0 && h.id == x
    } else {
        let (a, h) = choose|a: ChannelId, h: Half|
            c.contains(a) && s.live.contains_key(a) && #[trigger] s.live[a].halves().contains(h)
                && h.id == x;
        vstd::seq_lib::to_multiset_contains(s.live[a].halves(), h);
        counting::lemma_queued_at_least(s.live, s.next_id, a, h);
        h
    }
}

/// A channel that is supported keeps a user when a half is dropped.
proof fn lemma_supported_has_users(s: MappingModel, pending: Seq<Half>, c: Set<ChannelId>)
    requires
        s.wf_with(pending),
        pending.len() > 0,
        supported(s, c, pending[0].id),
    ensures
        s.live.contains_key(pending[0].id),
        s.live[pending[0].id].less(pending[0].direction).has_users(),
{
    let h0 = pending[0];
    counting::lemma_pending_counted(s, pending);
    counting::lemma_first(pending, h0);
    let h = lemma_supported(s, pending, c, h0.id);
    assert(s.references(h) + pending.to_multiset().count(h) == model::counted(s.live, h));
    assert(s.references(h0) + pending.to_multiset().count(h0) == model::counted(s.live, h0));
}

/// A channel that is supported is so after a half has been dropped.
proof fn lemma_support_lasts(
    s: MappingModel,
    t: MappingModel,
    c: Set<ChannelId>,
    x: ChannelId,
)
    requires
        supported(s, c, x),
        t.held == s.held,
        forall|a: ChannelId| #[trigger]
            c.contains(a) && s.live.contains_key(a) ==> t.live.contains_key(a)
                && t.live[a].messages == s.live[a].messages,
    ensures
        supported(t, c, x),
{
    if exists|h: Half| #[trigger] s.held.count(h) > 0 && h.id == x {
        let h = choose|h: Half| #[trigger] s.held.count(h) > 0 && h.id == x;
        assert(t.held.count(h) > 0);
    } else {
        let (a, h) = choose|a: ChannelId, h: Half|
            c.contains(a) && s.live.contains_key(a) && #[trigger] s.live[a].halves().contains(h)
                && h.id == x;
        assert(t.live[a].halves() == s.live[a].halves());
        assert(t.live[a].halves().contains(h));
    }
}

/// Whether all channels in `c` exist and are supported.
pub open spec fn all_supported(s: MappingModel, c: Set<ChannelId>) -> bool {
    forall|x: ChannelId| #[trigger]
        c.contains(x) ==> s.live.contains_key(x) && supported(s, c, x)
}

/// Channels that support each other do so after a half has been dropped.
proof fn lemma_all_support_lasts(s: MappingModel, pending: Seq<Half>, c: Set<ChannelId>)
    requires
        s.wf_with(pending),
        pending.len() > 0,
        all_supported(s, c),
    ensures
        all_supported(s.drop_one(pending[0]).state, c),
{
    let t = s.drop_one(pending[0]).state;
    if c.contains(pending[0].id) {
        lemma_supported_has_users(s, pending, c);
    }
    assert forall|a: ChannelId| #[trigger] c.contains(a) && s.live.contains_key(a) implies
        t.live.contains_key(a) && t.live[a].messages == s.live[a].messages by {}
    assert forall|x: ChannelId| #[trigger] c.contains(x) implies t.live.contains_key(x)
        && supported(t, c, x) by {
        lemma_support_lasts(s, t, c, x);
    }
}

/// Dropping halves takes no more away than it must: channels that are held, or that refer to
/// each other, however unreachable, stay. Only reaping takes those away.
pub proof fn law_leaked_cycles_stay(s: MappingModel, pending: Seq<Half>, c: Set<ChannelId>)
    requires
        s.wf_with(pending),
        all_supported(s, c),
    ensures
        c.subset_of(s.drop_all(pending).live.dom()),
    decreases s.live.dom().len(), pending.len(),
{
    if pending.len() > 0 {
        let step = s.drop_one(pending[0]);
        counting::lemma_drop_one(s, pending);
        counting::lemma_pending_counted(s, pending);
        lemma_all_support_lasts(s, pending, c);
        law_leaked_cycles_stay(step.state, step.released + pending.drop_first(), c);
    } else {
        assert forall|x: ChannelId| c.contains(x) implies s.live.dom().contains(x) by {
            assert(s.live.contains_key(x));
        }
    }
}

/// What is left after halves have been dropped is referred to by a half that is held or that
/// is queued in what is left.
pub proof fn law_what_stays_is_referred_to(s: MappingModel, pending: Seq<Half>, x: ChannelId)
    requires
        s.wf_with(pending),
        s.drop_all(pending).live.contains_key(x),
    ensures
        supported(s.drop_all(pending), s.drop_all(pending).live.dom(), x),
        s.drop_all(pending).held == s.held,
{
    let t = s.drop_all(pending);
    counting::lemma_drop_all(s, pending);
    laws::law_live_while_referenced(t, x);
    let h = choose|h: Half| h.id == x && #[trigger] t.references(h) > 0;
    if t.held.count(h) == 0 {
        let a = counting::lemma_queued_somewhere(t.live, t.next_id, h);
        assert(t.live.dom().contains(a));
        assert(t.live[a].halves().contains(h));
    }
}

/// Dropping one of several halves takes one off its count, and changes nothing else: nobody
/// is woken unless the last writer goes.
pub proof fn law_drop_of_one_of_several(s: MappingModel, h: Half)
    requires
        s.wf(),
        s.held.count(h) > 0,
        s.live[h.id].readers + s.live[h.id].writers > 1,
        h.direction is Write ==> s.live[h.id].writers > 1,
    ensures
        ({
            let t = s.drop_half(h);
            let c = s.live[h.id];
            &&& t.live == s.live.insert(
                h.id,
                ChannelModel {
                    readers: if h.direction is Read {
                        (c.readers - 1) as nat
                    } else {
                        c.readers
                    },
                    writers: if h.direction is Write {
                        (c.writers - 1) as nat
                    } else {
                        c.writers
                    },
                    ..c
                },
            )
            &&& t.entries == s.entries
            &&& t.held == s.held.remove(h)
            &&& t.next_id == s.next_id
            &&& s.give_back(h).drop_wakeups(seq![h]) == Seq::<WakeupModel>::empty()
        }),
{
    counting::lemma_referenced_live(s, h);
    let u = s.give_back(h);
    let step = u.drop_one(h);
    let none = Seq::<Half>::empty();
    assert(seq![h].drop_first() =~= none);
    assert(step.released + none =~= none);
    reveal_with_fuel(MappingModel::drop_all, 2);
    reveal_with_fuel(MappingModel::drop_wakeups, 2);
    assert(step.state.live.dom() =~= s.live.dom());
    assert(step.state.drop_all(none) == step.state);
    assert(step.state.drop_wakeups(none) == Seq::<WakeupModel>::empty());
    assert(step.wakeups + Seq::<WakeupModel>::empty() =~= Seq::<WakeupModel>::empty());
}

/// Dropping the last half of a channel takes the channel away, and its entry, and drops the
/// halves in its messages.
pub proof fn law_drop_of_the_last_half(s: MappingModel, h: Half)
    requires
        s.wf(),
        s.held.count(h) > 0,
        s.live[h.id].readers + s.live[h.id].writers == 1,
    ensures
        ({
            let t = s.drop_half(h);
            let rest = MappingModel {
                live: s.live.remove(h.id),
                entries: s.entries.remove(h.id),
                held: s.held.remove(h),
                ..s
            };
            &&& !t.live.contains_key(h.id)
            &&& !t.entries.contains_key(h.id)
            &&& t == rest.drop_all(s.live[h.id].halves())
            &&& s.give_back(h).drop_wakeups(seq![h]) == rest.drop_wakeups(s.live[h.id].halves())
        }),
{
    counting::lemma_referenced_live(s, h);
    counting::lemma_give_back(s, h);
    let u = s.give_back(h);
    let step = u.drop_one(h);
    let halves = s.live[h.id].halves();
    assert(seq![h].drop_first() =~= Seq::<Half>::empty());
    assert(step.released + Seq::<Half>::empty() =~= halves);
    assert(s.live[h.id].less(h.direction).halves() == halves);
    assert(Seq::<WakeupModel>::empty() + step.state.drop_wakeups(halves)
        =~= step.state.drop_wakeups(halves));
    counting::lemma_drop_one(u, seq![h]);
    assert(step.state.live.dom().finite());
    laws::lemma_drop_all_frame(step.state, halves);
    assert(!step.state.entries.contains_key(h.id));
}

/// Whether some entry has a reference to channel `id`.
pub open spec fn referred_to(s: MappingModel, id: ChannelId) -> bool {
    exists|k: ChannelId| #[trigger]
        s.entries.contains_key(k) && s.entries[k] == (WeakModel::To { table: s.table, id })
}

/// Notifying all waiters empties the slots of every channel that an entry refers to, and
/// changes nothing else.
pub proof fn law_notifying_reaches_all_entries(s: MappingModel)
    requires
        s.wf(),
    ensures
        ({
            let t = s.notify_all();
            &&& t.live.dom() == s.live.dom()
            &&& forall|id: ChannelId| #[trigger]
                s.live.contains_key(id) ==> t.live[id] == (ChannelModel {
                    waiters: if referred_to(s, id) {
                        Map::empty()
                    } else {
                        s.live[id].waiters
                    },
                    ..s.live[id]
                })
            &&& t.entries == s.entries
            &&& t.held == s.held
            &&& t.next_id == s.next_id
        }),
{
    let t = s.notify_all();
    assert(t.live.dom() =~= s.live.dom());
    assert forall|id: ChannelId| #[trigger] s.live.contains_key(id) implies (s.has_entry(id)
        <==> referred_to(s, id)) by {
        if s.has_entry(id) {
            let k = choose|k: ChannelId| #[trigger] s.entry(k) == Some(id);
            assert(s.entries.contains_key(k));
        }
        if referred_to(s, id) {
            let k = choose|k: ChannelId| #[trigger]
                s.entries.contains_key(k) && s.entries[k] == (WeakModel::To {
                    table: s.table,
                    id,
                });
            assert(s.entry(k) == Some(id));
        }
    }
}

/// The waiters of every channel that an entry in `order` refers to are in a wakeup, and every
/// wakeup is for such a channel and holds all of its waiters or, the second time, none.
proof fn lemma_notify_wakeups(s: MappingModel, order: Seq<ChannelId>)
    ensures
        forall|i: int|
            0 <= i < order.len() && s.entry(#[trigger] order[i]) is Some ==> s.notify_wakeups(
                order,
            ).contains(
                WakeupModel {
                    id: s.entry(order[i])->0,
                    waiters: s.live[s.entry(order[i])->0].waiters,
                },
            ),
        forall|i: int|
            0 <= i < s.notify_wakeups(order).len() ==> {
                let w = #[trigger] s.notify_wakeups(order)[i];
                &&& exists|j: int|
                    0 <= j < order.len() && s.entry(#[trigger] order[j]) == Some(w.id)
                &&& w.waiters == s.live[w.id].waiters || w.waiters == Map::<
                    ThreadId,
                    ThreadRef,
                >::empty()
            },
    decreases order.len(),
{
    if order.len() > 0 {
        let front = order.drop_last();
        let k = order.last();
        let u = s.notify_entries(front);
        let old = s.notify_wakeups(front);
        let all = s.notify_wakeups(order);
        lemma_notify_wakeups(s, front);
        counting::lemma_notify_entries(s, front);
        assert(u.entry(k) == s.entry(k));
        assert forall|w: WakeupModel| old.contains(w) implies all.contains(w) by {
            let i = choose|i: int| 0 <= i < old.len() && old[i] == w;
            assert(all[i] == w);
        }
        assert forall|i: int| 0 <= i < order.len() && s.entry(#[trigger] order[i]) is Some implies
            all.contains(
            WakeupModel {
                id: s.entry(order[i])->0,
                waiters: s.live[s.entry(order[i])->0].waiters,
            },
        ) by {
            let id = s.entry(order[i])->0;
            if i < front.len() {
                assert(front[i] == order[i]);
            } else if exists|j: int| 0 <= j < front.len() && s.entry(#[trigger] front[j]) == Some(id) {
                let j = choose|j: int| 0 <= j < front.len() && s.entry(#[trigger] front[j]) == Some(id);
                assert(old.contains(WakeupModel { id, waiters: s.live[id].waiters }));
            } else {
                assert(s.live.contains_key(id));
                assert(u.live[id] == s.live[id]);
                assert(all[old.len() as int] == WakeupModel { id, waiters: s.live[id].waiters });
            }
        }
        assert forall|i: int| 0 <= i < all.len() implies {
            let w = #[trigger] all[i];
            &&& exists|j: int| 0 <= j < order.len() && s.entry(#[trigger] order[j]) == Some(w.id)
            &&& w.waiters == s.live[w.id].waiters || w.waiters == Map::<
                ThreadId,
                ThreadRef,
            >::empty()
        } by {
            if i < old.len() {
                assert(all[i] == old[i]);
                let j = choose|j: int|
                    0 <= j < front.len() && s.entry(#[trigger] front[j]) == Some(old[i].id);
                assert(s.entry(order[j]) == Some(all[i].id));
            } else {
                let id = s.entry(k)->0;
                assert(s.live.contains_key(id));
                assert(s.entry(order[order.len() - 1]) == Some(all[i].id));
            }
        }
    }
}

/// No waiter is lost when all are notified: whoever waited on a channel that an entry refers
/// to is in a wakeup for it, with the same reference; and nobody else is woken.
pub proof fn law_notifying_loses_no_waiter(s: MappingModel, order: Seq<ChannelId>)
    requires
        s.wf(),
        order.to_set() == s.entries.dom(),
    ensures
        ({
            let wakeups = s.notify_wakeups(order);
            &&& forall|id: ChannelId| #[trigger]
                s.live.contains_key(id) && referred_to(s, id) ==> exists|i: int|
                    0 <= i < wakeups.len() && (#[trigger] wakeups[i]).id == id
                        && wakeups[i].waiters == s.live[id].waiters
            &&& forall|i: int|
                0 <= i < wakeups.len() ==> {
                    let w = #[trigger] wakeups[i];
                    &&& s.live.contains_key(w.id)
                    &&& referred_to(s, w.id)
                    &&& w.waiters.submap_of(s.live[w.id].waiters)
                }
        }),
{
    lemma_notify_wakeups(s, order);
    let wakeups = s.notify_wakeups(order);
    assert forall|id: ChannelId| #[trigger]
        s.live.contains_key(id) && referred_to(s, id) implies exists|i: int|
        0 <= i < wakeups.len() && (#[trigger] wakeups[i]).id == id && wakeups[i].waiters
            == s.live[id].waiters by {
        let k = choose|k: ChannelId| #[trigger]
            s.entries.contains_key(k) && s.entries[k] == (WeakModel::To { table: s.table, id });
        assert(s.entries.dom().contains(k));
        assert(order.to_set().contains(k));
        let j = choose|j: int| 0 <= j < order.len() && order[j] == k;
        assert(s.entry(order[j]) == Some(id));
        let w = WakeupModel { id, waiters: s.live[id].waiters };
        assert(wakeups.contains(w));
        let i = choose|i: int| 0 <= i < wakeups.len() && wakeups[i] == w;
        assert(wakeups[i].id == id);
    }
    assert forall|i: int| 0 <= i < wakeups.len() implies {
        let w = #[trigger] wakeups[i];
        &&& s.live.contains_key(w.id)
        &&& referred_to(s, w.id)
        &&& w.waiters.submap_of(s.live[w.id].waiters)
    } by {
        let w = wakeups[i];
        let j = choose|j: int| 0 <= j < order.len() && s.entry(#[trigger] order[j]) == Some(w.id);
        assert(s.entries.contains_key(order[j]));
    }
}

} // verus!
