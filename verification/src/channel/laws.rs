//! What holds of the channel table as a whole.
use crate::channel::counting;
use crate::channel::model;
use crate::channel::model::{
    ChannelHalfDirection, ChannelId, ChannelModel, Half, MappingModel, MessageModel, ThreadId,
    ThreadRef, WakeupModel,
};
use crate::channel::pages;
use crate::text;
use vstd::prelude::*;

verus! {

/// The counts of a channel are the numbers of the halves that refer to it, wherever those
/// halves are.
pub proof fn law_counts_are_references(s: MappingModel, id: ChannelId)
    requires
        s.wf(),
        s.live.contains_key(id),
    ensures
        s.live[id].readers == s.references(s.live[id].half(ChannelHalfDirection::Read)),
        s.live[id].writers == s.references(s.live[id].half(ChannelHalfDirection::Write)),
{
    let r = s.live[id].half(ChannelHalfDirection::Read);
    let w = s.live[id].half(ChannelHalfDirection::Write);
    counting::lemma_empty(r);
    counting::lemma_empty(w);
    assert(s.references(r) + Seq::<Half>::empty().to_multiset().count(r) == model::counted(
        s.live,
        r,
    ));
    assert(s.references(w) + Seq::<Half>::empty().to_multiset().count(w) == model::counted(
        s.live,
        w,
    ));
}

/// A channel exists exactly as long as some half refers to it.
pub proof fn law_live_while_referenced(s: MappingModel, id: ChannelId)
    requires
        s.wf(),
    ensures
        s.live.contains_key(id) <==> exists|h: Half| h.id == id && #[trigger] s.references(h) > 0,
{
    if s.live.contains_key(id) {
        law_counts_are_references(s, id);
        let r = s.live[id].half(ChannelHalfDirection::Read);
        let w = s.live[id].half(ChannelHalfDirection::Write);
        assert(s.references(r) > 0 || s.references(w) > 0);
    }
    if exists|h: Half| h.id == id && #[trigger] s.references(h) > 0 {
        let h = choose|h: Half| h.id == id && #[trigger] s.references(h) > 0;
        counting::lemma_referenced_live(s, h);
    }
}

/// A half that is held can be dropped: the channel that it refers to exists and counts it.
pub proof fn law_held_half_is_counted(s: MappingModel, h: Half)
    requires
        s.wf(),
        s.held.count(h) > 0,
    ensures
        s.live.contains_key(h.id),
        s.live[h.id].count(h.direction) > 0,
{
    counting::lemma_referenced_live(s, h);
}

/// Dropping a clone of a half undoes the cloning, and wakes nobody.
pub proof fn law_drop_undoes_clone(s: MappingModel, h: Half)
    requires
        s.wf(),
        s.references(h) > 0,
    ensures
        s.clone_half(h).drop_half(h) == s,
        s.clone_half(h).give_back(h).drop_wakeups(seq![h]) == Seq::<WakeupModel>::empty(),
{
    counting::lemma_referenced_live(s, h);
    let t = s.clone_half(h).give_back(h);
    let c = s.live[h.id];
    let step = t.drop_one(h);
    assert(t.held =~= s.held);
    assert(t.live.dom() =~= s.live.dom());
    assert(t.live[h.id].less(h.direction) == c);
    assert(step.state.live =~= s.live);
    assert(step.released + seq![h].drop_first() =~= Seq::<Half>::empty());
    assert(step.state.drop_all(Seq::empty()) == step.state);
    assert(step.wakeups + step.state.drop_wakeups(Seq::empty()) =~= Seq::<WakeupModel>::empty());
}

/// Dropping the last writer of a channel that has readers wakes all that wait on it, and
/// leaves the channel orphaned.
pub proof fn law_last_writer_wakes_waiters(s: MappingModel, h: Half)
    requires
        s.wf(),
        s.held.count(h) > 0,
        h.direction is Write,
        s.live[h.id].writers == 1,
        s.live[h.id].readers > 0,
    ensures
        s.give_back(h).drop_wakeups(seq![h]) == seq![
            WakeupModel { id: h.id, waiters: s.live[h.id].waiters },
        ],
        s.drop_half(h).live == s.live.insert(
            h.id,
            ChannelModel { writers: 0, ..s.live[h.id].woken() },
        ),
{
    counting::lemma_referenced_live(s, h);
    let t = s.give_back(h);
    let step = t.drop_one(h);
    assert(step.released + seq![h].drop_first() =~= Seq::<Half>::empty());
    assert(step.state.live.dom() =~= s.live.dom());
    assert(step.state.drop_all(Seq::empty()) == step.state);
    assert(step.wakeups + step.state.drop_wakeups(Seq::empty()) =~= step.wakeups);
}

/// A new channel goes again when both of its halves are dropped, in either order.
pub proof fn law_new_channel_goes_with_its_halves(s: MappingModel, label: Seq<char>)
    requires
        s.wf(),
        s.next_id < u64::MAX,
    ensures
        ({
            let id = s.next_id as ChannelId;
            let w = Half { table: s.table, id, direction: ChannelHalfDirection::Write };
            let r = Half { table: s.table, id, direction: ChannelHalfDirection::Read };
            let after = MappingModel {
                next_id: s.next_id + 1,
                entries: s.entries.remove(id),
                ..s
            };
            &&& s.new_channel(label).drop_half(w).drop_half(r) == after
            &&& s.new_channel(label).drop_half(r).drop_half(w) == after
        }),
{
    let id = s.next_id as ChannelId;
    let w = Half { table: s.table, id, direction: ChannelHalfDirection::Write };
    let r = Half { table: s.table, id, direction: ChannelHalfDirection::Read };
    counting::lemma_new_channel(s, label);
    lemma_drop_two(s, label, w, r);
    lemma_drop_two(s, label, r, w);
}

/// Dropping both halves of a new channel, in the given order.
proof fn lemma_drop_two(s: MappingModel, label: Seq<char>, first: Half, second: Half)
    requires
        s.wf(),
        s.next_id < u64::MAX,
        !s.live.contains_key(s.next_id as ChannelId),
        first.table == s.table,
        second.table == s.table,
        first.id == s.next_id,
        second.id == s.next_id,
        first.direction != second.direction,
    ensures
        s.new_channel(label).drop_half(first).drop_half(second) == (MappingModel {
            next_id: s.next_id + 1,
            entries: s.entries.remove(s.next_id as ChannelId),
            ..s
        }),
{
    let id = s.next_id as ChannelId;
    let a = s.new_channel(label);
    let none = Seq::<Half>::empty();
    let step = a.give_back(first).drop_one(first);
    let b = step.state;
    assert(step.released + seq![first].drop_first() =~= none);
    assert(b.live.dom() =~= a.live.dom());
    assert(b.drop_all(none) == b);
    assert(a.drop_half(first) == b);
    let last = b.give_back(second).drop_one(second);
    let c = last.state;
    assert(b.live[id].halves() =~= none);
    assert(last.released + seq![second].drop_first() =~= none);
    assert(c.live =~= s.live);
    assert(c.held =~= s.held);
    assert(c.entries =~= s.entries.remove(id));
    assert(c.drop_all(none) == c);
}

/// A message that is put into an empty queue is what comes out of it next, and the table is
/// as before.
pub proof fn law_pop_gives_back_push(s: MappingModel, id: ChannelId, m: MessageModel)
    requires
        s.wf(),
        s.live.contains_key(id),
        s.live[id].messages.len() == 0,
        m.halves.to_multiset().subset_of(s.held),
    ensures
        s.push_message(id, m).live[id].messages[0] == m,
        s.push_message(id, m).pop_message(id) == s,
{
    let t = s.push_message(id, m);
    let u = t.pop_message(id);
    assert(t.live[id].messages.drop_first() =~= s.live[id].messages);
    assert(u.live =~= s.live);
    assert(u.held =~= s.held);
}

/// Messages come out in the order in which they were put in: what is put in behind others
/// does not change what comes out next.
pub proof fn law_queue_keeps_order(s: MappingModel, id: ChannelId, m: MessageModel)
    requires
        s.wf(),
        s.live.contains_key(id),
        s.live[id].messages.len() > 0,
        m.halves.to_multiset().subset_of(s.held),
    ensures
        s.push_message(id, m).live[id].messages[0] == s.live[id].messages[0],
        s.push_message(id, m).pop_message(id) == s.pop_message(id).push_message(id, m),
{
    let a = s.push_message(id, m).pop_message(id);
    let b = s.pop_message(id).push_message(id, m);
    let before = s.live[id].messages;
    assert(before.push(m).drop_first() =~= before.drop_first().push(m));
    assert(a.live =~= b.live);
    assert forall|h: Half| a.held.count(h) == b.held.count(h) by {
        assert(m.halves.to_multiset().count(h) <= s.held.count(h));
    }
    assert(a.held =~= b.held);
}

/// An operation may do anything with a channel that leaves its identity, its label, its
/// queue and its counts alone, and changes nothing else: no half changes hands, and nobody
/// is woken.
pub proof fn law_operation_can_look(s: MappingModel, id: ChannelId, after: ChannelModel)
    requires
        s.wf(),
        s.live.contains_key(id),
        after == (ChannelModel { waiters: after.waiters, ..s.live[id] }),
    ensures
        model::may_operate(s.held, s.live[id], after, Seq::empty(), Seq::empty()),
        s.operate(id, after, Seq::empty()) == s.with_channel(id, after),
        s.operated(id, after, Seq::empty()).drop_wakeups(Seq::empty()) == Seq::<
            WakeupModel,
        >::empty(),
{
    let none = Seq::<Half>::empty();
    let before = s.live[id];
    let t = s.operated(id, after, none);
    assert(model::made(before, after) =~= none);
    assert(before.halves() + none =~= before.halves());
    assert(after.halves() + none =~= before.halves());
    assert(before.halves() + none + none =~= before.halves());
    assert(t.held =~= s.held);
    assert(t.live.dom() =~= s.live.dom());
}

/// An operation that queues a message does what [`MappingModel::push_message`] says.
pub proof fn law_operation_can_push(s: MappingModel, id: ChannelId, m: MessageModel)
    requires
        s.wf(),
        s.live.contains_key(id),
        m.halves.to_multiset().subset_of(s.held),
    ensures
        model::may_operate(
            s.held,
            s.live[id],
            s.live[id].with_message(m),
            Seq::empty(),
            Seq::empty(),
        ),
        s.operate(id, s.live[id].with_message(m), Seq::empty()) == s.push_message(id, m),
{
    let none = Seq::<Half>::empty();
    let before = s.live[id];
    let after = before.with_message(m);
    let t = s.operated(id, after, none);
    assert(model::made(before, after) =~= none);
    assert(before.halves() + none =~= before.halves());
    assert(before.messages.push(m).drop_last() =~= before.messages);
    assert(after.halves() =~= before.halves() + m.halves);
    assert(after.halves() + none =~= after.halves());
    assert(after.halves() + none + none =~= after.halves());
    assert forall|h: Half| #[trigger]
        after.halves().to_multiset().count(h) == before.halves().to_multiset().count(h)
            + m.halves.to_multiset().count(h) && m.halves.to_multiset().count(h)
            <= s.held.count(h) by {
        counting::lemma_concat(before.halves(), m.halves, h);
        assert(m.halves.to_multiset().count(h) <= s.held.count(h));
    }
    assert(t.held =~= s.push_message(id, m).held);
    assert(t.live.dom() =~= s.live.dom());
}

/// An operation that takes out the first message and hands out its halves does what
/// [`MappingModel::pop_message`] says. If it lets go of them instead, that is followed by
/// their being dropped.
pub proof fn law_operation_can_pop(s: MappingModel, id: ChannelId)
    requires
        s.wf(),
        s.live.contains_key(id),
        s.live[id].messages.len() > 0,
    ensures
        ({
            let after = s.live[id].without_first();
            let halves = s.live[id].messages[0].halves;
            &&& model::may_operate(s.held, s.live[id], after, halves, Seq::empty())
            &&& s.operate(id, after, Seq::empty()) == s.pop_message(id)
            &&& model::may_operate(s.held, s.live[id], after, Seq::empty(), halves)
            &&& s.operate(id, after, halves) == s.with_channel(id, after).drop_all(halves)
        }),
{
    let none = Seq::<Half>::empty();
    let before = s.live[id];
    let after = before.without_first();
    let halves = before.messages[0].halves;
    let t = s.operated(id, after, none);
    let u = s.operated(id, after, halves);
    assert(model::made(before, after) =~= none);
    assert(before.halves() + none =~= before.halves());
    counting::lemma_halves_split(before.messages);
    assert(after.halves() + none =~= after.halves());
    assert(after.halves() + none + halves =~= after.halves() + halves);
    assert(after.halves() + halves + none =~= after.halves() + halves);
    assert forall|h: Half| #[trigger]
        before.halves().to_multiset().count(h) == after.halves().to_multiset().count(h)
            + halves.to_multiset().count(h) && (after.halves()
            + halves).to_multiset().count(h) == before.halves().to_multiset().count(h) by {
        counting::lemma_concat(halves, after.halves(), h);
        counting::lemma_concat(after.halves(), halves, h);
    }
    assert((after.halves() + halves).to_multiset() =~= before.halves().to_multiset());
    assert(t.held =~= s.pop_message(id).held);
    assert(u.held =~= s.held);
    assert(t.live.dom() =~= s.live.dom());
}

/// An operation that makes a half of its channel and hands it out does what
/// [`MappingModel::clone_half`] says, whichever half of the channel was there before.
pub proof fn law_operation_can_make_a_half(
    s: MappingModel,
    id: ChannelId,
    direction: ChannelHalfDirection,
)
    requires
        s.wf(),
        s.live.contains_key(id),
    ensures
        ({
            let h = s.live[id].half(direction);
            let after = s.live[id].more(direction);
            &&& model::may_operate(s.held, s.live[id], after, seq![h], Seq::empty())
            &&& s.operate(id, after, Seq::empty()) == s.clone_half(h)
        }),
{
    let none = Seq::<Half>::empty();
    let h = s.live[id].half(direction);
    let before = s.live[id];
    let after = before.more(direction);
    let t = s.operated(id, after, none);
    assert(model::made(before, after) =~= seq![h]);
    assert(after.halves() == before.halves());
    assert(after.halves() + none =~= before.halves());
    assert(after.halves() + none + seq![h] =~= before.halves() + seq![h]);
    assert forall|g: Half| #[trigger]
        t.held.count(g) == s.held.insert(h).count(g) by {
        counting::lemma_concat(before.halves(), seq![h], g);
        counting::lemma_first(seq![h], g);
        assert(seq![h].drop_first() =~= none);
        counting::lemma_empty(g);
    }
    assert(t.held =~= s.clone_half(h).held);
    assert(t.live.dom() =~= s.live.dom());
}

/// Whether every entry of the table refers to the channel with its identifier, where that
/// exists, and to nothing otherwise.
pub open spec fn own_entries(s: MappingModel) -> bool {
    forall|k: ChannelId| #[trigger]
        s.entries.contains_key(k) ==> s.entry(k) == if s.live.contains_key(k) {
            Some(k)
        } else {
            None
        }
}

/// Whether every entry of the table refers to the channel with its identifier, and that
/// channel exists.
pub open spec fn no_dangling(s: MappingModel) -> bool {
    forall|k: ChannelId| #[trigger] s.entries.contains_key(k) ==> s.entry(k) == Some(k)
}

/// What dropping halves leaves alone: a channel that still exists has its messages, its
/// label and its entry, no channel comes into existence, and no entry changes.
pub proof fn lemma_drop_all_frame(s: MappingModel, pending: Seq<Half>)
    requires
        s.live.dom().finite(),
    ensures
        s.drop_all(pending).table == s.table,
        forall|id: ChannelId| #[trigger]
            s.drop_all(pending).live.contains_key(id) ==> s.live.contains_key(id)
                && s.drop_all(pending).live[id].messages == s.live[id].messages
                && s.drop_all(pending).live[id].label == s.live[id].label,
        forall|id: ChannelId| #[trigger]
            s.drop_all(pending).entries.contains_key(id) <==> s.entries.contains_key(id) && (
            s.live.contains_key(id) ==> s.drop_all(pending).live.contains_key(id)),
        forall|id: ChannelId| #[trigger]
            s.drop_all(pending).entries.contains_key(id) ==> s.drop_all(pending).entries[id]
                == s.entries[id],
    decreases s.live.dom().len(), pending.len(),
{
    if pending.len() > 0 {
        let step = s.drop_one(pending[0]);
        let after = step.released + pending.drop_first();
        lemma_drop_all_frame(step.state, after);
        let t = step.state;
        let u = t.drop_all(after);
        assert forall|id: ChannelId| #[trigger] u.live.contains_key(id) implies s.live.contains_key(
            id,
        ) && u.live[id].messages == s.live[id].messages && u.live[id].label
            == s.live[id].label by {
            assert(t.live.contains_key(id));
        }
        assert forall|id: ChannelId| #[trigger]
            u.entries.contains_key(id) <==> s.entries.contains_key(id) && (s.live.contains_key(id)
                ==> u.live.contains_key(id)) by {
            assert(u.entries.contains_key(id) <==> t.entries.contains_key(id) && (
            t.live.contains_key(id) ==> u.live.contains_key(id)));
            if u.live.contains_key(id) {
                assert(t.live.contains_key(id));
            }
        }
        assert forall|id: ChannelId| #[trigger] u.entries.contains_key(id) implies u.entries[id]
            == s.entries[id] by {
            assert(t.entries.contains_key(id));
        }
    }
}

/// Dropping halves leaves entries that refer to their own channels as they should be.
proof fn lemma_drop_all_entries(s: MappingModel, pending: Seq<Half>)
    requires
        s.live.dom().finite(),
    ensures
        own_entries(s) ==> own_entries(s.drop_all(pending)),
        no_dangling(s) ==> no_dangling(s.drop_all(pending)),
{
    let t = s.drop_all(pending);
    lemma_drop_all_frame(s, pending);
    assert forall|k: ChannelId| #[trigger] t.entries.contains_key(k) implies {
        &&& own_entries(s) ==> t.entry(k) == if t.live.contains_key(k) {
            Some(k)
        } else {
            None
        }
        &&& no_dangling(s) ==> t.entry(k) == Some(k)
    } by {
        assert(s.entries.contains_key(k));
        if s.entry(k) is None {
            assert(t.entry(k) is None) by {
                if let model::WeakModel::To { table, id } = t.entries[k] {
                    assert(t.live.contains_key(id) ==> s.live.contains_key(id));
                }
            }
        }
    }
}

/// The operations of the table leave no entry behind whose channel has gone. Only a caller
/// who puts a reference of its own into the table, with `get_channels`, can leave one there.
pub proof fn law_no_dangling_entries(
    s: MappingModel,
    label: Seq<char>,
    h: Half,
    id: ChannelId,
    m: MessageModel,
)
    requires
        s.wf(),
        s.next_id < u64::MAX,
        s.live.contains_key(id),
        s.references(h) > 0,
        no_dangling(s),
    ensures
        no_dangling(MappingModel::initial(s.table)),
        no_dangling(s.new_channel(label)),
        no_dangling(s.clone_half(h)),
        no_dangling(s.drop_half(h)),
        no_dangling(s.push_message(id, m)),
        no_dangling(s.pop_message(id)),
        no_dangling(s.notify_all()),
        forall|after: ChannelModel, let_go: Seq<Half>|
            no_dangling(#[trigger] s.operate(id, after, let_go)),
{
    counting::lemma_referenced_live(s, h);
    lemma_drop_all_entries(s.give_back(h), seq![h]);
    assert(no_dangling(s.give_back(h)));
    assert(no_dangling(s.new_channel(label))) by {
        let t = s.new_channel(label);
        assert forall|k: ChannelId| #[trigger] t.entries.contains_key(k) implies t.entry(k)
            == Some(k) by {
            if k != s.next_id {
                assert(s.entries.contains_key(k));
            }
        }
    }
    lemma_same_entries(s, s.clone_half(h));
    lemma_same_entries(s, s.push_message(id, m));
    lemma_same_entries(s, s.pop_message(id));
    lemma_same_entries(s, s.notify_all());
    assert forall|after: ChannelModel, let_go: Seq<Half>|
        no_dangling(#[trigger] s.operate(id, after, let_go)) by {
        let u = s.operated(id, after, let_go);
        assert(u.live.dom() =~= s.live.dom());
        lemma_same_entries(s, u);
        lemma_drop_all_entries(u, let_go);
    }
}

/// Whether entries refer to channels depends on which channels exist alone.
proof fn lemma_same_entries(s: MappingModel, t: MappingModel)
    requires
        no_dangling(s),
        t.table == s.table,
        t.entries == s.entries,
        forall|id: ChannelId| s.live.contains_key(id) ==> t.live.contains_key(id),
    ensures
        no_dangling(t),
{
    assert forall|k: ChannelId| #[trigger] t.entries.contains_key(k) implies t.entry(k) == Some(
        k,
    ) by {
        assert(s.entries.contains_key(k));
    }
}

/// Reaping, too, leaves no entry behind whose channel has gone. Where entries refer to their
/// own channels or to nothing, they go on to do so.
pub proof fn law_gc_leaves_no_dangling_entries(s: MappingModel, order: Seq<ChannelId>)
    requires
        s.wf(),
    ensures
        no_dangling(s) ==> no_dangling(s.gc_all(order)),
        own_entries(s) ==> own_entries(s.gc_all(order)),
    decreases order.len(),
{
    if order.len() > 0 {
        let front = order.drop_last();
        let u = s.gc_all(front);
        let k = order.last();
        law_gc_leaves_no_dangling_entries(s, front);
        counting::lemma_gc_all(s, front);
        let without = MappingModel { entries: u.entries.remove(k), ..u };
        let e = match u.entry(k) {
            Some(id) => u.emptied(k, id),
            None => without,
        };
        assert(e.live.dom() =~= u.live.dom());
        assert forall|x: ChannelId| #[trigger] e.entries.contains_key(x) implies
            u.entries.contains_key(x) && e.entry(x) == u.entry(x) by {
            assert(u.entries.contains_key(x));
            if let model::WeakModel::To { table, id } = u.entries[x] {
                assert(e.live.dom().contains(id) <==> u.live.dom().contains(id));
            }
        }
        assert(forall|x: ChannelId| e.live.dom().contains(x) <==> u.live.dom().contains(x));
        assert(no_dangling(u) ==> no_dangling(e));
        assert(own_entries(u) ==> own_entries(e));
        if let Some(id) = u.entry(k) {
            lemma_drop_all_entries(e, u.live[id].halves());
        }
    }
}

/// A caller may set the entries as it likes, as long as the references are to channels that
/// were created in this table, or to nothing.
pub proof fn law_entries_can_be_set(
    s: MappingModel,
    entries: Map<ChannelId, model::WeakModel>,
)
    requires
        s.wf(),
        model::proper_entries(entries, s.table, s.next_id),
    ensures
        (MappingModel { entries, ..s }).wf(),
{
    let t = MappingModel { entries, ..s };
    assert forall|h: Half| #[trigger]
        t.references(h) + Seq::<Half>::empty().to_multiset().count(h) == model::counted(
            t.live,
            h,
        ) by {
        assert(s.references(h) + Seq::<Half>::empty().to_multiset().count(h) == model::counted(
            s.live,
            h,
        ));
    }
}

/// Reaping one channel keeps the labels of those that are left.
proof fn lemma_gc_channel_keeps_label(s: MappingModel, other: ChannelId, id: ChannelId)
    requires
        s.wf(),
        s.gc_channel(other).live.contains_key(id),
    ensures
        s.live.contains_key(id),
        s.gc_channel(other).live[id].label == s.live[id].label,
{
    if let Some(c) = s.entry(other) {
        let e = s.emptied(other, c);
        assert(e.live.dom() =~= s.live.dom());
        lemma_drop_all_frame(e, s.live[c].halves());
    }
}

/// The label of a channel is the one that it was created with.
pub proof fn law_label_is_set_at_creation(s: MappingModel, label: Seq<char>)
    requires
        s.wf(),
        s.next_id < u64::MAX,
    ensures
        s.new_channel(label).live[s.next_id as ChannelId].label == label,
{
}

/// The label of a channel does not change as long as the channel exists, whatever is done
/// with the table.
pub proof fn law_label_is_kept(
    s: MappingModel,
    id: ChannelId,
    label: Seq<char>,
    h: Half,
    other: ChannelId,
    m: MessageModel,
    order: Seq<ChannelId>,
)
    requires
        s.wf(),
        s.live.contains_key(id),
    ensures
        keeps_label(s, s.new_channel(label), id),
        keeps_label(s, s.clone_half(h), id),
        keeps_label(s, s.drop_half(h), id),
        keeps_label(s, s.push_message(other, m), id),
        keeps_label(s, s.pop_message(other), id),
        keeps_label(s, s.notify_all(), id),
        keeps_label(s, s.gc_channel(other), id),
        keeps_label(s, s.gc_all(order), id),
        forall|after: ChannelModel, handed_out: Seq<Half>, let_go: Seq<Half>|
            s.live.contains_key(other) && #[trigger] model::may_operate(
                s.held,
                s.live[other],
                after,
                handed_out,
                let_go,
            ) ==> keeps_label(s, s.operate(other, after, let_go), id),
    decreases order.len(),
{
    lemma_drop_all_frame(s.give_back(h), seq![h]);
    if s.gc_channel(other).live.contains_key(id) {
        lemma_gc_channel_keeps_label(s, other, id);
    }
    if order.len() > 0 {
        let front = order.drop_last();
        law_label_is_kept(s, id, label, h, other, m, front);
        counting::lemma_gc_all(s, front);
        if s.gc_all(order).live.contains_key(id) {
            lemma_gc_channel_keeps_label(s.gc_all(front), order.last(), id);
        }
    }
    assert forall|after: ChannelModel, handed_out: Seq<Half>, let_go: Seq<Half>|
        s.live.contains_key(other) && #[trigger] model::may_operate(
            s.held,
            s.live[other],
            after,
            handed_out,
            let_go,
        ) implies keeps_label(s, s.operate(other, after, let_go), id) by {
        let t = s.operated(other, after, let_go);
        assert(t.live.dom() =~= s.live.dom());
        lemma_drop_all_frame(t, let_go);
    }
}

/// Whether channel `id`, if it still exists in state `t`, has the label that it had in `s`.
pub open spec fn keeps_label(s: MappingModel, t: MappingModel, id: ChannelId) -> bool {
    t.live.contains_key(id) ==> t.live[id].label == s.live[id].label
}

/// What follows a common beginning is determined by the whole.
proof fn lemma_same_ending(head: Seq<char>, a: Seq<char>, b: Seq<char>)
    requires
        head + a == head + b,
    ensures
        a == b,
{
    assert(a =~= (head + a).subrange(head.len() as int, (head + a).len() as int));
    assert(b =~= (head + b).subrange(head.len() as int, (head + b).len() as int));
}

/// Distinct channels have distinct names in a graph, and distinct pages.
pub proof fn law_names_are_distinct(a: ChannelId, b: ChannelId)
    ensures
        pages::dot_name(a) == pages::dot_name(b) ==> a == b,
        pages::page_path(a) == pages::page_path(b) ==> a == b,
{
    if pages::dot_name(a) == pages::dot_name(b) {
        lemma_same_ending("channel"@, text::decimal(a as nat), text::decimal(b as nat));
        text::lemma_decimal_injective(a as nat, b as nat);
    }
    if pages::page_path(a) == pages::page_path(b) {
        lemma_same_ending("/channel/"@, text::decimal(a as nat), text::decimal(b as nat));
        text::lemma_decimal_injective(a as nat, b as nat);
    }
}

/// A thread that waits on a channel again and again takes up one slot: its latest entry
/// replaces the one before. Once the waiters are woken, nothing is left of them.
pub proof fn law_waiter_has_one_slot(
    c: ChannelModel,
    thread_id: ThreadId,
    stale: ThreadRef,
    fresh: ThreadRef,
)
    ensures
        c.with_waiter(thread_id, stale).with_waiter(thread_id, fresh) == c.with_waiter(
            thread_id,
            fresh,
        ),
        c.with_waiter(thread_id, fresh).woken() == c.woken(),
{
    assert(c.waiters.insert(thread_id, stale).insert(thread_id, fresh) =~= c.waiters.insert(
        thread_id,
        fresh,
    ));
}

} // verus!
