//! What each operation of the table does, spelled out field by field.
use crate::abi::OakStatus;
use crate::channel::counting;
use crate::channel::laws;
use crate::channel::mapping;
use crate::channel::mapping::Operated;
use crate::channel::model;
use crate::channel::model::{
    ChannelHalfDirection, ChannelId, ChannelModel, Half, MappingModel, MessageModel, ThreadId,
    ThreadRef, WeakModel,
};
use crate::channel::visit;
use crate::channel::{Channel, ChannelHalf, Wakeup};
use vstd::multiset::Multiset;
use vstd::prelude::*;

verus! {

/// A channel has users as long as a half of either direction refers to it.
pub proof fn law_users_are_readers_and_writers(c: ChannelModel)
    ensures
        c.has_users() <==> c.readers > 0 || c.writers > 0,
        c.count(ChannelHalfDirection::Read) == c.readers,
        c.count(ChannelHalfDirection::Write) == c.writers,
        c.half(ChannelHalfDirection::Read) == (Half {
            table: c.table,
            id: c.id,
            direction: ChannelHalfDirection::Read,
        }),
        c.half(ChannelHalfDirection::Write) == (Half {
            table: c.table,
            id: c.id,
            direction: ChannelHalfDirection::Write,
        }),
{
}

/// A channel that is created has the next identifier, an empty queue, one half of each
/// direction, nobody who waits on it, the given label and an entry; all else is as before.
pub proof fn law_new_channel_is_fresh(s: MappingModel, label: Seq<char>)
    requires
        s.wf(),
        s.next_id < u64::MAX,
    ensures
        ({
            let t = s.new_channel(label);
            let id = s.next_id as ChannelId;
            &&& !s.live.contains_key(id)
            &&& t.live.dom() == s.live.dom().insert(id)
            &&& t.live[id].id == id
            &&& t.live[id].messages.len() == 0
            &&& t.live[id].readers == 1
            &&& t.live[id].writers == 1
            &&& t.live[id].waiters == Map::<ThreadId, ThreadRef>::empty()
            &&& t.live[id].label == label
            &&& forall|x: ChannelId| x != id ==> #[trigger] t.live[x] == s.live[x]
            &&& t.entries == s.entries.insert(id, WeakModel::To { table: s.table, id })
            &&& t.next_id == s.next_id + 1
            &&& forall|h: Half| #[trigger]
                t.held.count(h) == s.held.count(h) + if h.table == s.table && h.id == id {
                    1nat
                } else {
                    0nat
                }
        }),
{
    counting::lemma_new_channel(s, label);
    let t = s.new_channel(label);
    let id = s.next_id as ChannelId;
    assert(t.live.dom() =~= s.live.dom().insert(id));
}

/// A clone adds one to the count of its end of its channel, and to what is held; all else is
/// as before.
pub proof fn law_clone_adds_one_half(s: MappingModel, h: Half)
    requires
        s.wf(),
        s.references(h) > 0,
    ensures
        ({
            let t = s.clone_half(h);
            &&& t.live.dom() == s.live.dom()
            &&& t.live[h.id].readers == s.live[h.id].readers + if h.direction is Read {
                1nat
            } else {
                0nat
            }
            &&& t.live[h.id].writers == s.live[h.id].writers + if h.direction is Write {
                1nat
            } else {
                0nat
            }
            &&& t.live[h.id].messages == s.live[h.id].messages
            &&& t.live[h.id].waiters == s.live[h.id].waiters
            &&& forall|x: ChannelId| x != h.id ==> #[trigger] t.live[x] == s.live[x]
            &&& t.held == s.held.insert(h)
            &&& t.entries == s.entries
            &&& t.next_id == s.next_id
        }),
{
    counting::lemma_referenced_live(s, h);
    assert(s.clone_half(h).live.dom() =~= s.live.dom());
}

/// A message goes to the end of the queue, and the one at the front comes out, with the
/// others left in their order; all else is as before, but for the halves in the message.
pub proof fn law_queue_is_first_in_first_out(s: MappingModel, id: ChannelId, m: MessageModel)
    requires
        s.wf(),
        s.live.contains_key(id),
    ensures
        ({
            let t = s.push_message(id, m);
            let before = s.live[id].messages;
            &&& t.live.dom() == s.live.dom()
            &&& t.live[id].messages == before + seq![m]
            &&& t.live[id] == (ChannelModel { messages: t.live[id].messages, ..s.live[id] })
            &&& forall|x: ChannelId| x != id ==> #[trigger] t.live[x] == s.live[x]
            &&& t.entries == s.entries
            &&& t.next_id == s.next_id
            &&& t.held == s.held.sub(m.halves.to_multiset())
        }),
        s.live[id].messages.len() > 0 ==> ({
            let t = s.pop_message(id);
            let before = s.live[id].messages;
            &&& t.live.dom() == s.live.dom()
            &&& seq![before[0]] + t.live[id].messages == before
            &&& t.live[id] == (ChannelModel { messages: t.live[id].messages, ..s.live[id] })
            &&& forall|x: ChannelId| x != id ==> #[trigger] t.live[x] == s.live[x]
            &&& t.entries == s.entries
            &&& t.next_id == s.next_id
            &&& t.held == s.held.add(before[0].halves.to_multiset())
        }),
{
    let before = s.live[id].messages;
    assert(s.push_message(id, m).live.dom() =~= s.live.dom());
    assert(before.push(m) =~= before + seq![m]);
    if before.len() > 0 {
        assert(s.pop_message(id).live.dom() =~= s.live.dom());
        assert(seq![before[0]] + before.drop_first() =~= before);
    }
}

/// A thread that begins to wait is in its slot with its reference, the other waiters are as
/// before, and so is the rest of the channel; waking empties all slots and nothing else.
pub proof fn law_waiters_wait_until_woken(
    c: ChannelModel,
    thread_id: ThreadId,
    thread: ThreadRef,
)
    ensures
        c.with_waiter(thread_id, thread).waiters.contains_key(thread_id),
        c.with_waiter(thread_id, thread).waiters[thread_id] == thread,
        forall|x: ThreadId|
            x != thread_id ==> (#[trigger] c.with_waiter(thread_id, thread).waiters.contains_key(x)
                <==> c.waiters.contains_key(x)),
        forall|x: ThreadId|
            x != thread_id && #[trigger] c.waiters.contains_key(x) ==> c.with_waiter(
                thread_id,
                thread,
            ).waiters[x] == c.waiters[x],
        c.with_waiter(thread_id, thread) == (ChannelModel {
            waiters: c.with_waiter(thread_id, thread).waiters,
            ..c
        }),
        c.woken() == (ChannelModel { waiters: Map::empty(), ..c }),
{
}

/// What the halves in a queue are: those of its messages, one message after the other.
pub proof fn law_halves_of_a_queue(messages: Seq<MessageModel>)
    ensures
        model::message_halves(messages) == Seq::new(
            messages.len(),
            |i: int| messages[i].halves,
        ).flatten(),
    decreases messages.len(),
{
    let pieces = Seq::new(messages.len(), |i: int| messages[i].halves);
    pieces.lemma_flatten_and_flatten_alt_are_equivalent();
    if messages.len() > 0 {
        let front = messages.drop_last();
        law_halves_of_a_queue(front);
        let front_pieces = Seq::new(front.len(), |i: int| front[i].halves);
        front_pieces.lemma_flatten_and_flatten_alt_are_equivalent();
        assert(pieces.drop_last() =~= front_pieces);
    }
}

/// What an entry refers to: the channel that its reference was made of, as long as that
/// exists.
pub proof fn law_entry_follows_its_reference(s: MappingModel, k: ChannelId, id: ChannelId)
    requires
        s.wf(),
    ensures
        s.entry(k) == Some(id) <==> s.entries.contains_key(k) && s.entries[k] == (WeakModel::To {
            table: s.table,
            id,
        }) && s.live.contains_key(id),
{
}

/// Reaping an entry removes it and empties the queue of the channel that it refers to; the
/// other channels that are left keep their queues, and no other entry changes but those of
/// channels that are gone.
pub proof fn law_reaping_empties_the_queue(s: MappingModel, k: ChannelId)
    requires
        s.wf(),
    ensures
        ({
            let t = s.gc_channel(k);
            &&& !t.entries.contains_key(k)
            &&& forall|x: ChannelId| #[trigger]
                t.live.contains_key(x) ==> s.live.contains_key(x) && t.live[x].label
                    == s.live[x].label && t.live[x].messages == if s.entries.contains_key(k)
                    && s.entries[k] == (WeakModel::To { table: s.table, id: x }) {
                    Seq::<MessageModel>::empty()
                } else {
                    s.live[x].messages
                }
            &&& forall|x: ChannelId|
                x != k ==> (#[trigger] t.entries.contains_key(x) <==> s.entries.contains_key(x) && (
                s.live.contains_key(x) ==> t.live.contains_key(x)))
            &&& forall|x: ChannelId| #[trigger]
                t.entries.contains_key(x) ==> t.entries[x] == s.entries[x]
            &&& t.held == s.held
            &&& t.next_id == s.next_id
        }),
{
    counting::lemma_gc_channel(s, k);
    let t = s.gc_channel(k);
    if let Some(id) = s.entry(k) {
        let e = s.emptied(k, id);
        assert(e.live.dom() =~= s.live.dom());
        laws::lemma_drop_all_frame(e, s.live[id].halves());
        assert(!e.entries.contains_key(k));
        assert forall|x: ChannelId| #[trigger] t.live.contains_key(x) implies
            s.live.contains_key(x) by {
            assert(e.live.contains_key(x));
            assert(e.live.dom().contains(x));
        }
        assert forall|x: ChannelId| x != k implies (#[trigger] t.entries.contains_key(x)
            <==> s.entries.contains_key(x) && (s.live.contains_key(x) ==> t.live.contains_key(
            x,
        ))) by {
            assert(e.entries.contains_key(x) <==> s.entries.contains_key(x));
            assert(e.live.contains_key(x) <==> s.live.dom().contains(x));
        }
    } else {
        assert forall|x: ChannelId| t.live.contains_key(x) implies !(s.entries.contains_key(k)
            && s.entries[k] == (WeakModel::To { table: s.table, id: x })) by {}
    }
}

/// Reaping goes in order: to reap the channels of two lists one after the other is to reap
/// those of both lists put together, and to reap a list of one is to reap that one.
pub proof fn law_reaping_goes_in_order(
    s: MappingModel,
    first: Seq<ChannelId>,
    second: Seq<ChannelId>,
    k: ChannelId,
)
    ensures
        s.gc_all(Seq::empty()) == s,
        s.gc_all(seq![k]) == s.gc_channel(k),
        s.gc_all(first + second) == s.gc_all(first).gc_all(second),
    decreases second.len(),
{
    assert(seq![k].drop_last() =~= Seq::<ChannelId>::empty());
    assert(s.gc_all(seq![k].drop_last()) == s);
    if second.len() == 0 {
        assert(first + second =~= first);
    } else {
        law_reaping_goes_in_order(s, first, second.drop_last(), k);
        assert((first + second).drop_last() =~= first + second.drop_last());
        assert((first + second).last() == second.last());
    }
}

/// After reaping, no entry is left under any of the identifiers that were reaped, no channel
/// has come into existence, and what is held is as before.
pub proof fn law_reaped_entries_are_gone(s: MappingModel, order: Seq<ChannelId>, i: int)
    requires
        s.wf(),
        0 <= i < order.len(),
    ensures
        !s.gc_all(order).entries.contains_key(order[i]),
        s.gc_all(order).live.dom().subset_of(s.live.dom()),
        s.gc_all(order).held == s.held,
        s.gc_all(order).next_id == s.next_id,
    decreases order.len(),
{
    let front = order.drop_last();
    let u = s.gc_all(front);
    let t = s.gc_all(order);
    counting::lemma_gc_all(s, front);
    counting::lemma_gc_all(s, order);
    law_reaping_empties_the_queue(u, order.last());
    assert forall|x: ChannelId| t.live.dom().contains(x) implies u.live.dom().contains(x) by {
        assert(t.live.contains_key(x));
    }
    if front.len() > 0 {
        if i < front.len() {
            law_reaped_entries_are_gone(s, front, i);
            assert(front[i] == order[i]);
        } else {
            law_reaped_entries_are_gone(s, front, 0);
        }
    }
    if i < front.len() && t.entries.contains_key(order[i]) {
        assert(order[i] != order.last());
        assert(u.entries.contains_key(order[i]));
    }
}

/// An operation puts the channel that it gave back in place and changes no other channel, no
/// entry and no identifier. What it lets go of, and what is in the queue, is no longer held,
/// and what was in the queue or was made is, unless it is in the queue or was let go of.
pub proof fn law_operation_changes_its_channel(
    s: MappingModel,
    id: ChannelId,
    after: ChannelModel,
    handed_out: Seq<Half>,
    let_go: Seq<Half>,
)
    requires
        s.wf(),
        s.live.contains_key(id),
        model::may_operate(s.held, s.live[id], after, handed_out, let_go),
    ensures
        ({
            let t = s.operated(id, after, let_go);
            &&& t.live == s.live.insert(id, after)
            &&& t.entries == s.entries
            &&& t.next_id == s.next_id
            &&& s.operate(id, after, let_go) == t.drop_all(let_go)
            &&& forall|h: Half| #[trigger]
                t.held.count(h) + after.halves().to_multiset().count(h)
                    + let_go.to_multiset().count(h) == s.held.count(h)
                    + s.live[id].halves().to_multiset().count(h) + if h.table == s.table && h.id
                    == id {
                    if h.direction is Read {
                        after.readers - s.live[id].readers
                    } else {
                        after.writers - s.live[id].writers
                    }
                } else {
                    0
                }
        }),
{
    counting::lemma_operated(s, id, after, handed_out, let_go);
    let before = s.live[id];
    let made = model::made(before, after);
    let t = s.operated(id, after, let_go);
    let given = (before.halves() + made).to_multiset();
    assert forall|h: Half| #[trigger]
        t.held.count(h) + after.halves().to_multiset().count(h) + let_go.to_multiset().count(h)
            == s.held.count(h) + before.halves().to_multiset().count(h) + if h.table == s.table
            && h.id == id {
            if h.direction is Read {
                after.readers - before.readers
            } else {
                after.writers - before.writers
            }
        } else {
            0
        } by {
        counting::lemma_made(before, after, h);
        counting::lemma_concat(before.halves(), made, h);
        counting::lemma_concat(after.halves(), let_go, h);
        counting::lemma_concat(after.halves() + let_go, handed_out, h);
        assert((after.halves() + let_go + handed_out).to_multiset().count(h) <= s.held.add(
            given,
        ).count(h));
    }
}

/// An operation loses no half and invents none: each half that was in the queue, or that the
/// counts have grown by, is in the queue, handed out or let go of, and any other half that is
/// found there was held before. The channel stays the same, with its label, and no count goes
/// down.
pub proof fn law_operation_loses_no_half(
    held: Multiset<Half>,
    before: ChannelModel,
    after: ChannelModel,
    handed_out: Seq<Half>,
    let_go: Seq<Half>,
    h: Half,
)
    requires
        model::may_operate(held, before, after, handed_out, let_go),
    ensures
        after.id == before.id,
        after.table == before.table,
        after.label == before.label,
        after.readers >= before.readers,
        after.writers >= before.writers,
        ({
            let given = before.halves().to_multiset().count(h) + if h.table == before.table && h.id
                == before.id {
                if h.direction is Read {
                    after.readers - before.readers
                } else {
                    after.writers - before.writers
                }
            } else {
                0
            };
            let found = after.halves().to_multiset().count(h) + let_go.to_multiset().count(h)
                + handed_out.to_multiset().count(h);
            given <= found <= given + held.count(h)
        }),
{
    let made = model::made(before, after);
    counting::lemma_made(before, after, h);
    counting::lemma_concat(before.halves(), made, h);
    counting::lemma_concat(after.halves(), let_go, h);
    counting::lemma_concat(after.halves() + let_go, handed_out, h);
    let given = (before.halves() + made).to_multiset();
    let found = (after.halves() + let_go + handed_out).to_multiset();
    assert(given.count(h) <= found.count(h));
    assert(found.count(h) <= held.add(given).count(h));
}

/// What an operation that was run leads to: it was handed the channel as it was, its result
/// and what it hands out are returned as they are, the channel that it gave back takes the
/// place of the one that it was handed, and what it lets go of is dropped.
pub proof fn law_operation_was_run<U, F: FnOnce(Channel) -> Operated<U>>(
    f: F,
    before: MappingModel,
    after: MappingModel,
    id: ChannelId,
    r: (Result<U, OakStatus>, Vec<ChannelHalf>, Vec<Wakeup>),
)
    requires
        mapping::ran_on_channel(f, before, after, id, r),
    ensures
        exists|c: Channel, out: Operated<U>|
            {
                let let_go = super::half_views(out.let_go@);
                let t = before.operated(id, out.channel@, let_go);
                &&& #[trigger] call_ensures(f, (c,), out)
                &&& c@ == before.live[id]
                &&& r.0 == out.result
                &&& r.1@ == out.handed_out@
                &&& t.live == before.live.insert(id, out.channel@)
                &&& after == t.drop_all(let_go)
                &&& super::wakeup_views(r.2@) == t.drop_wakeups(let_go)
            },
{
    let (c, out) = choose|c: Channel, out: Operated<U>|
        {
            let let_go = super::half_views(out.let_go@);
            &&& #[trigger] call_ensures(f, (c,), out)
            &&& c@ == before.live[id]
            &&& r.0 == out.result
            &&& r.1@ == out.handed_out@
            &&& after == before.operate(id, out.channel@, let_go)
            &&& super::wakeup_views(r.2@) == before.operated(
                id,
                out.channel@,
                let_go,
            ).drop_wakeups(let_go)
        };
    assert(call_ensures(f, (c,), out));
}

/// An operation that is refused brings the error for a bad handle and nothing else, and
/// changes nothing.
pub proof fn law_refused_operation_changes_nothing<U>(
    before: MappingModel,
    after: MappingModel,
    r: (Result<U, OakStatus>, Vec<ChannelHalf>, Vec<Wakeup>),
)
    requires
        mapping::refused(before, after, r),
    ensures
        r.0 == Err::<U, OakStatus>(OakStatus::ErrBadHandle),
        r.1@.len() == 0,
        r.2@.len() == 0,
        after == before,
{
}

/// A visit takes out the channel that it starts from and all that the halves in the queues of
/// channels taken out refer to, and nothing that is not taken out for one of these reasons.
pub proof fn law_visit_follows_all_halves(
    live: Map<ChannelId, ChannelModel>,
    all: Set<ChannelId>,
    from: ChannelId,
    closed: Set<ChannelId>,
)
    requires
        all.contains(from),
        closed.contains(from),
        forall|a: ChannelId, h: Half|
            closed.contains(a) && all.contains(h.id) && live.contains_key(a)
                && #[trigger] live[a].halves().contains(h) ==> closed.contains(h.id),
    ensures
        ({
            let seen = visit::reach(live, all, from);
            &&& seen.contains(from)
            &&& seen.subset_of(all)
            &&& seen.subset_of(closed)
            &&& forall|a: ChannelId, h: Half|
                seen.contains(a) && all.contains(h.id) && live.contains_key(a)
                    && #[trigger] live[a].halves().contains(h) ==> seen.contains(h.id)
        }),
{
    visit::lemma_reach_self(live, all, from);
    let seen = visit::reach(live, all, from);
    assert forall|x: ChannelId| seen.contains(x) implies all.contains(x) && closed.contains(x) by {
        let path = choose|path: Seq<ChannelId>| #[trigger]
            visit::is_path(live, all, path) && path[0] == from && path.last() == x;
        lemma_path_stays_closed(live, all, path, closed, path.len() - 1);
    }
    assert forall|a: ChannelId, h: Half|
        seen.contains(a) && all.contains(h.id) && live.contains_key(a)
            && #[trigger] live[a].halves().contains(h) implies seen.contains(h.id) by {
        assert(visit::leads_to(live, a, h.id));
        visit::lemma_reach_further(live, all, from, a, h.id);
    }
}

/// A path does not leave a closed set.
proof fn lemma_path_stays_closed(
    live: Map<ChannelId, ChannelModel>,
    all: Set<ChannelId>,
    path: Seq<ChannelId>,
    closed: Set<ChannelId>,
    i: int,
)
    requires
        visit::is_path(live, all, path),
        0 <= i < path.len(),
        closed.contains(path[0]),
        forall|a: ChannelId, h: Half|
            closed.contains(a) && all.contains(h.id) && live.contains_key(a)
                && #[trigger] live[a].halves().contains(h) ==> closed.contains(h.id),
    ensures
        all.contains(path[i]),
        closed.contains(path[i]),
    decreases i,
{
    if i > 0 {
        lemma_path_stays_closed(live, all, path, closed, i - 1);
        assert(visit::leads_to(live, path[i - 1], path[i]));
        let h = choose|h: Half| #[trigger]
            live[path[i - 1]].halves().contains(h) && h.id == path[i];
        assert(closed.contains(h.id));
    }
}

} // verus!
