//! Why the counts of the channels stay in step with the halves that exist.
use crate::channel::model;
use crate::channel::model::{
    ChannelHalfDirection, ChannelId, ChannelModel, Half, MappingModel, MessageModel,
};
use vstd::prelude::*;

verus! {

/// Occurrences add up over a concatenation.
pub proof fn lemma_concat(a: Seq<Half>, b: Seq<Half>, h: Half)
    ensures
        (a + b).to_multiset().count(h) == a.to_multiset().count(h) + b.to_multiset().count(h),
{
    vstd::seq_lib::lemma_multiset_commutative(a, b);
}

/// Occurrences in a sequence, split into its first element and the others.
pub proof fn lemma_first(s: Seq<Half>, h: Half)
    requires
        s.len() > 0,
    ensures
        s.to_multiset().count(h) == s.drop_first().to_multiset().count(h) + if s[0] == h {
            1nat
        } else {
            0nat
        },
{
    broadcast use vstd::seq_lib::group_to_multiset_ensures;

    assert(s =~= seq![s[0]] + s.drop_first());
    lemma_concat(seq![s[0]], s.drop_first(), h);
    assert(seq![s[0]] =~= Seq::<Half>::empty().push(s[0]));
}

/// The halves in a queue are those of its first message, followed by those of the others.
pub proof fn lemma_halves_split(messages: Seq<MessageModel>)
    requires
        messages.len() > 0,
    ensures
        model::message_halves(messages) == messages[0].halves + model::message_halves(messages.drop_first()),
    decreases messages.len(),
{
    if messages.len() == 1 {
        assert(messages.drop_last() =~= Seq::<MessageModel>::empty());
        assert(messages.drop_first() =~= Seq::<MessageModel>::empty());
        assert(model::message_halves(messages.drop_last()) =~= Seq::<Half>::empty());
        assert(model::message_halves(messages) =~= messages[0].halves);
        assert(model::message_halves(messages.drop_first()) =~= Seq::<Half>::empty());
    } else {
        lemma_halves_split(messages.drop_last());
        assert(messages.drop_last().drop_first() =~= messages.drop_first().drop_last());
        assert(messages.drop_last()[0] == messages[0]);
        assert(messages.drop_first().last() == messages.last());
        assert(model::message_halves(messages) =~= messages[0].halves + model::message_halves(
            messages.drop_first(),
        ));
    }
}

/// A channel below the bound contributes what its queue holds.
pub proof fn lemma_queued_at_least(
    live: Map<ChannelId, ChannelModel>,
    n: nat,
    id: ChannelId,
    h: Half,
)
    requires
        id < n <= u64::MAX,
    ensures
        model::queued(live, n, h) >= model::queued_in(live, id, h),
    decreases n,
{
    if id < n - 1 {
        lemma_queued_at_least(live, (n - 1) as nat, id, h);
    }
}

/// A half that is queued at all is queued in some channel.
pub proof fn lemma_queued_somewhere(live: Map<ChannelId, ChannelModel>, n: nat, h: Half) -> (id:
    ChannelId)
    requires
        n <= u64::MAX,
        model::queued(live, n, h) > 0,
    ensures
        id < n,
        live.contains_key(id),
        live[id].halves().contains(h),
    decreases n,
{
    broadcast use vstd::seq_lib::group_to_multiset_ensures;

    let last = (n - 1) as ChannelId;
    if model::queued_in(live, last, h) > 0 {
        assert(live[last].halves().to_multiset().count(h) > 0);
        last
    } else {
        lemma_queued_somewhere(live, (n - 1) as nat, h)
    }
}

/// A change of a single channel changes what is queued by that channel's share.
pub proof fn lemma_queued_change(
    a: Map<ChannelId, ChannelModel>,
    b: Map<ChannelId, ChannelModel>,
    n: nat,
    id: ChannelId,
    h: Half,
)
    requires
        n <= u64::MAX,
        forall|i: ChannelId|
            i != id ==> (#[trigger] a.contains_key(i) <==> b.contains_key(i)),
        forall|i: ChannelId| i != id && #[trigger] a.contains_key(i) ==> a[i] == b[i],
    ensures
        id < n ==> model::queued(b, n, h) + model::queued_in(a, id, h) == model::queued(a, n, h) + model::queued_in(b, id, h),
        id >= n ==> model::queued(b, n, h) == model::queued(a, n, h),
    decreases n,
{
    if n > 0 {
        lemma_queued_change(a, b, (n - 1) as nat, id, h);
        let last = (n - 1) as ChannelId;
        if last != id {
            assert(a.contains_key(last) <==> b.contains_key(last));
            assert(model::queued_in(a, last, h) == model::queued_in(b, last, h));
        }
    }
}

/// In a well-formed state a half that is about to be dropped refers to a channel that
/// exists and that counts it.
pub proof fn lemma_pending_counted(s: MappingModel, pending: Seq<Half>)
    requires
        s.wf_with(pending),
        pending.len() > 0,
    ensures
        s.live.contains_key(pending[0].id),
        pending[0] == s.live[pending[0].id].half(pending[0].direction),
        s.live[pending[0].id].count(pending[0].direction) > 0,
{
    lemma_first(pending, pending[0]);
    assert(s.references(pending[0]) + pending.to_multiset().count(pending[0]) == model::counted(
        s.live,
        pending[0],
    ));
}

/// Dropping one half keeps the state well-formed.
pub proof fn lemma_drop_one(s: MappingModel, pending: Seq<Half>)
    requires
        s.wf_with(pending),
        pending.len() > 0,
    ensures
        ({
            let step = s.drop_one(pending[0]);
            step.state.wf_with(step.released + pending.drop_first())
        }),
        s.drop_one(pending[0]).state.held == s.held,
        s.drop_one(pending[0]).state.next_id == s.next_id,
{
    let h0 = pending[0];
    let step = s.drop_one(h0);
    let t = step.state;
    let after = step.released + pending.drop_first();
    lemma_pending_counted(s, pending);
    assert forall|h: Half| #[trigger]
        t.references(h) + after.to_multiset().count(h) == model::counted(t.live, h) by {
        assert(s.references(h) + pending.to_multiset().count(h) == model::counted(s.live, h));
        lemma_first(pending, h);
        lemma_concat(step.released, pending.drop_first(), h);
        lemma_queued_change(s.live, t.live, s.next_id, h0.id, h);
        vstd::seq_lib::to_multiset_len(Seq::<Half>::empty());
        vstd::seq_lib::to_multiset_contains(Seq::<Half>::empty(), h);
        assert(s.live[h0.id].less(h0.direction).halves() == s.live[h0.id].halves());
        if h.id == h0.id && h.table == h0.table {
            if h.direction == h0.direction {
                assert(h == h0);
            } else {
                assert(h != h0);
            }
        }
    }
}

/// Dropping any number of halves keeps the state well-formed, and the halves that exist
/// outside of messages as they are.
pub proof fn lemma_drop_all(s: MappingModel, pending: Seq<Half>)
    requires
        s.wf_with(pending),
    ensures
        s.drop_all(pending).wf(),
        s.drop_all(pending).held == s.held,
        s.drop_all(pending).next_id == s.next_id,
    decreases s.live.dom().len(), pending.len(),
{
    if pending.len() > 0 {
        let step = s.drop_one(pending[0]);
        lemma_drop_one(s, pending);
        lemma_drop_all(step.state, step.released + pending.drop_first());
    } else {
        assert(pending =~= Seq::<Half>::empty());
    }
}

/// A half that exists refers to a channel that exists.
pub proof fn lemma_referenced_live(s: MappingModel, h: Half)
    requires
        s.wf(),
        s.references(h) > 0,
    ensures
        s.live.contains_key(h.id),
        h == s.live[h.id].half(h.direction),
        s.live[h.id].count(h.direction) > 0,
{
    assert(s.references(h) + Seq::<Half>::empty().to_multiset().count(h) == model::counted(
        s.live,
        h,
    ));
}

/// A half that travels in a message refers to a channel that exists.
pub proof fn lemma_queued_half_live(s: MappingModel, id: ChannelId, h: Half)
    requires
        s.wf(),
        s.live.contains_key(id),
        s.live[id].halves().contains(h),
    ensures
        s.references(h) > 0,
        s.live.contains_key(h.id),
{
    vstd::seq_lib::to_multiset_contains(s.live[id].halves(), h);
    lemma_queued_at_least(s.live, s.next_id, id, h);
    lemma_referenced_live(s, h);
}

/// Nothing occurs in an empty sequence.
pub proof fn lemma_empty(h: Half)
    ensures
        Seq::<Half>::empty().to_multiset().count(h) == 0,
{
    vstd::seq_lib::to_multiset_contains(Seq::<Half>::empty(), h);
}

/// Giving back a held half, to be dropped, keeps the state well-formed.
pub proof fn lemma_give_back(s: MappingModel, h: Half)
    requires
        s.wf(),
        s.held.count(h) > 0,
    ensures
        s.give_back(h).wf_with(seq![h]),
{
    let t = s.give_back(h);
    assert forall|g: Half| #[trigger]
        t.references(g) + seq![h].to_multiset().count(g) == model::counted(t.live, g) by {
        assert(s.references(g) + Seq::<Half>::empty().to_multiset().count(g) == model::counted(
            s.live,
            g,
        ));
        lemma_empty(g);
        lemma_first(seq![h], g);
        assert(seq![h].drop_first() =~= Seq::<Half>::empty());
    }
}

/// Creating a channel keeps the state well-formed.
pub proof fn lemma_new_channel(s: MappingModel, label: Seq<char>)
    requires
        s.wf(),
        s.next_id < u64::MAX,
    ensures
        s.new_channel(label).wf(),
        !s.live.contains_key(s.next_id as ChannelId),
{
    let t = s.new_channel(label);
    let id = s.next_id as ChannelId;
    assert forall|h: Half| #[trigger]
        t.references(h) + Seq::<Half>::empty().to_multiset().count(h) == model::counted(
            t.live,
            h,
        ) by {
        assert(s.references(h) + Seq::<Half>::empty().to_multiset().count(h) == model::counted(
            s.live,
            h,
        ));
        lemma_empty(h);
        lemma_queued_change(s.live, t.live, s.next_id, id, h);
        assert(t.live[id].halves() =~= Seq::<Half>::empty());
        assert(model::queued(t.live, t.next_id, h) == model::queued(s.live, s.next_id, h));
    }
}

/// Handing out a second half keeps the state well-formed.
pub proof fn lemma_clone_half(s: MappingModel, h: Half)
    requires
        s.wf(),
        s.live.contains_key(h.id),
        h == s.live[h.id].half(h.direction),
    ensures
        s.clone_half(h).wf(),
{
    let t = s.clone_half(h);
    assert(t.live.dom() =~= s.live.dom());
    assert forall|g: Half| #[trigger]
        t.references(g) + Seq::<Half>::empty().to_multiset().count(g) == model::counted(
            t.live,
            g,
        ) by {
        assert(s.references(g) + Seq::<Half>::empty().to_multiset().count(g) == model::counted(
            s.live,
            g,
        ));
        lemma_queued_change(s.live, t.live, s.next_id, h.id, g);
        assert(t.live[h.id].halves() == s.live[h.id].halves());
    }
}

/// Replacing a channel by one with the same counts keeps the state well-formed, if the
/// halves that leave its queue become held, and the halves that join it were held.
pub proof fn lemma_requeue(s: MappingModel, t: MappingModel, id: ChannelId)
    requires
        s.wf(),
        s.live.contains_key(id),
        t.live == s.live.insert(id, t.live[id]),
        t.next_id == s.next_id,
        t.live[id].id == id,
        t.table == s.table,
        t.entries == s.entries,
        t.live[id].table == s.table,
        t.live[id].readers == s.live[id].readers,
        t.live[id].writers == s.live[id].writers,
        forall|h: Half|
            t.held.count(h) + #[trigger] t.live[id].halves().to_multiset().count(h)
                == s.held.count(h) + s.live[id].halves().to_multiset().count(h),
    ensures
        t.wf(),
{
    assert(t.live.dom() =~= s.live.dom());
    assert forall|g: Half| #[trigger]
        t.references(g) + Seq::<Half>::empty().to_multiset().count(g) == model::counted(
            t.live,
            g,
        ) by {
        assert(s.references(g) + Seq::<Half>::empty().to_multiset().count(g) == model::counted(
            s.live,
            g,
        ));
        lemma_queued_change(s.live, t.live, s.next_id, id, g);
        assert(t.held.count(g) + t.live[id].halves().to_multiset().count(g) == s.held.count(g)
            + s.live[id].halves().to_multiset().count(g));
    }
}

/// Occurrences in a sequence of equal halves.
proof fn lemma_repeated(n: nat, x: Half, h: Half)
    ensures
        Seq::new(n, |i: int| x).to_multiset().count(h) == if x == h {
            n
        } else {
            0
        },
    decreases n,
{
    let s = Seq::new(n, |i: int| x);
    if n == 0 {
        assert(s =~= Seq::<Half>::empty());
        lemma_empty(h);
    } else {
        lemma_first(s, h);
        assert(s.drop_first() =~= Seq::new((n - 1) as nat, |i: int| x));
        lemma_repeated((n - 1) as nat, x, h);
    }
}

/// How often a half is among those that were made.
pub proof fn lemma_made(before: ChannelModel, after: ChannelModel, h: Half)
    requires
        after.readers >= before.readers,
        after.writers >= before.writers,
    ensures
        model::made(before, after).to_multiset().count(h) == if h == before.half(h.direction) {
            (after.count(h.direction) - before.count(h.direction)) as nat
        } else {
            0
        },
{
    let r = before.half(ChannelHalfDirection::Read);
    let w = before.half(ChannelHalfDirection::Write);
    let readers = Seq::new((after.readers - before.readers) as nat, |i: int| r);
    let writers = Seq::new((after.writers - before.writers) as nat, |i: int| w);
    assert(model::made(before, after) =~= readers + writers);
    lemma_concat(readers, writers, h);
    lemma_repeated(readers.len(), r, h);
    lemma_repeated(writers.len(), w, h);
}

/// An operation on a channel keeps the state well-formed, and what it hands out is held.
pub proof fn lemma_operated(
    s: MappingModel,
    id: ChannelId,
    after: ChannelModel,
    handed_out: Seq<Half>,
    let_go: Seq<Half>,
)
    requires
        s.wf(),
        s.live.contains_key(id),
        model::may_operate(s.held, s.live[id], after, handed_out, let_go),
    ensures
        s.operated(id, after, let_go).wf_with(let_go),
        handed_out.to_multiset().subset_of(s.operated(id, after, let_go).held),
{
    let before = s.live[id];
    let t = s.operated(id, after, let_go);
    let made = model::made(before, after);
    let given = (before.halves() + made).to_multiset();
    assert(t.live.dom() =~= s.live.dom());
    assert forall|h: Half| #[trigger]
        t.references(h) + let_go.to_multiset().count(h) == model::counted(t.live, h)
            && handed_out.to_multiset().count(h) <= t.held.count(h) by {
        assert(s.references(h) + Seq::<Half>::empty().to_multiset().count(h) == model::counted(
            s.live,
            h,
        ));
        lemma_empty(h);
        lemma_made(before, after, h);
        lemma_concat(before.halves(), made, h);
        lemma_concat(after.halves(), let_go, h);
        lemma_concat(after.halves() + let_go, handed_out, h);
        lemma_queued_change(s.live, t.live, s.next_id, id, h);
        assert((after.halves() + let_go + handed_out).to_multiset().count(h) <= s.held.add(
            given,
        ).count(h));
    }
    assert forall|h: Half| #[trigger]
        handed_out.to_multiset().count(h) <= t.held.count(h) by {
        assert(t.references(h) >= 0);
    }
}

/// An operation on a channel keeps the state well-formed, once what it let go of has been
/// dropped.
pub proof fn lemma_operate(
    s: MappingModel,
    id: ChannelId,
    after: ChannelModel,
    handed_out: Seq<Half>,
    let_go: Seq<Half>,
)
    requires
        s.wf(),
        s.live.contains_key(id),
        model::may_operate(s.held, s.live[id], after, handed_out, let_go),
    ensures
        s.operate(id, after, let_go).wf(),
        s.operate(id, after, let_go).held == s.operated(id, after, let_go).held,
        s.operate(id, after, let_go).next_id == s.next_id,
{
    lemma_operated(s, id, after, handed_out, let_go);
    lemma_drop_all(s.operated(id, after, let_go), let_go);
}

/// Queueing a message keeps the state well-formed.
pub proof fn lemma_push_message(s: MappingModel, id: ChannelId, m: MessageModel)
    requires
        s.wf(),
        s.live.contains_key(id),
        m.halves.to_multiset().subset_of(s.held),
    ensures
        s.push_message(id, m).wf(),
{
    let t = s.push_message(id, m);
    let before = s.live[id].messages;
    assert(before.push(m).drop_last() =~= before);
    assert forall|h: Half|
        t.held.count(h) + #[trigger] t.live[id].halves().to_multiset().count(h) == s.held.count(
            h,
        ) + s.live[id].halves().to_multiset().count(h) by {
        lemma_concat(model::message_halves(before), m.halves, h);
        assert(m.halves.to_multiset().count(h) <= s.held.count(h));
    }
    lemma_requeue(s, t, id);
}

/// Taking out a message keeps the state well-formed.
pub proof fn lemma_pop_message(s: MappingModel, id: ChannelId)
    requires
        s.wf(),
        s.live.contains_key(id),
        s.live[id].messages.len() > 0,
    ensures
        s.pop_message(id).wf(),
{
    let t = s.pop_message(id);
    let before = s.live[id].messages;
    lemma_halves_split(before);
    assert forall|h: Half|
        t.held.count(h) + #[trigger] t.live[id].halves().to_multiset().count(h) == s.held.count(
            h,
        ) + s.live[id].halves().to_multiset().count(h) by {
        lemma_concat(before[0].halves, model::message_halves(before.drop_first()), h);
    }
    lemma_requeue(s, t, id);
}

/// Waking waiters keeps the state well-formed.
pub proof fn lemma_notify_all(s: MappingModel)
    requires
        s.wf(),
    ensures
        s.notify_all().wf(),
{
    let t = s.notify_all();
    assert(t.live.dom() =~= s.live.dom());
    assert forall|g: Half| #[trigger]
        t.references(g) + Seq::<Half>::empty().to_multiset().count(g) == model::counted(
            t.live,
            g,
        ) by {
        assert(s.references(g) + Seq::<Half>::empty().to_multiset().count(g) == model::counted(
            s.live,
            g,
        ));
        lemma_queued_same(s.live, t.live, s.next_id, g);
    }
}

/// What waking the waiters of the channels of some entries leaves alone, and which channels
/// it changes.
pub proof fn lemma_notify_entries(s: MappingModel, order: Seq<ChannelId>)
    ensures
        ({
            let t = s.notify_entries(order);
            &&& t.table == s.table
            &&& t.entries == s.entries
            &&& t.next_id == s.next_id
            &&& t.held == s.held
            &&& t.live.dom() == s.live.dom()
            &&& forall|k: ChannelId| #[trigger] t.entry(k) == s.entry(k)
            &&& forall|id: ChannelId| #[trigger]
                s.live.contains_key(id) ==> t.live[id] == if exists|i: int|
                    0 <= i < order.len() && s.entry(#[trigger] order[i]) == Some(id) {
                    s.live[id].woken()
                } else {
                    s.live[id]
                }
        }),
    decreases order.len(),
{
    if order.len() > 0 {
        let front = order.drop_last();
        let u = s.notify_entries(front);
        let t = s.notify_entries(order);
        lemma_notify_entries(s, front);
        assert(t.live.dom() =~= s.live.dom());
        assert forall|k: ChannelId| #[trigger] t.entry(k) == s.entry(k) by {
            assert(u.entry(k) == s.entry(k));
            assert(forall|x: ChannelId| t.live.contains_key(x) <==> s.live.dom().contains(x));
        }
        assert(u.entry(order.last()) == s.entry(order.last()));
        assert forall|id: ChannelId| #[trigger] s.live.contains_key(id) implies t.live[id]
            == if exists|i: int| 0 <= i < order.len() && s.entry(#[trigger] order[i]) == Some(id) {
            s.live[id].woken()
        } else {
            s.live[id]
        } by {
            if exists|i: int| 0 <= i < front.len() && s.entry(#[trigger] front[i]) == Some(id) {
                let i = choose|i: int|
                    0 <= i < front.len() && s.entry(#[trigger] front[i]) == Some(id);
                assert(order[i] == front[i]);
            }
            if s.entry(order.last()) == Some(id) {
                assert(s.entry(order[order.len() - 1]) == Some(id));
            }
            if exists|i: int| 0 <= i < order.len() && s.entry(#[trigger] order[i]) == Some(id) {
                let i = choose|i: int|
                    0 <= i < order.len() && s.entry(#[trigger] order[i]) == Some(id);
                if i < front.len() {
                    assert(s.entry(front[i]) == Some(id));
                }
            }
        }
    }
}

/// Waking the waiters of the channels of all entries comes to the same in every order.
pub proof fn lemma_notify_order(s: MappingModel, order: Seq<ChannelId>)
    requires
        order.to_set() == s.entries.dom(),
    ensures
        s.notify_entries(order) == s.notify_all(),
{
    let t = s.notify_entries(order);
    lemma_notify_entries(s, order);
    assert forall|id: ChannelId| #[trigger] s.live.contains_key(id) implies t.live[id]
        == s.notify_all().live[id] by {
        if s.has_entry(id) {
            let k = choose|k: ChannelId| #[trigger] s.entry(k) == Some(id);
            assert(s.entries.dom().contains(k));
            assert(order.to_set().contains(k));
            let i = choose|i: int| 0 <= i < order.len() && order[i] == k;
            assert(s.entry(order[i]) == Some(id));
        }
    }
    assert forall|id: ChannelId| t.live.contains_key(id) <==> s.live.contains_key(id) by {
        assert(t.live.dom().contains(id) <==> s.live.dom().contains(id));
    }
    assert(t.live =~= s.notify_all().live);
}

/// What is queued depends on the channels' messages alone.
proof fn lemma_queued_same(
    a: Map<ChannelId, ChannelModel>,
    b: Map<ChannelId, ChannelModel>,
    n: nat,
    h: Half,
)
    requires
        n <= u64::MAX,
        forall|i: ChannelId| #[trigger] a.contains_key(i) <==> b.contains_key(i),
        forall|i: ChannelId| #[trigger]
            a.contains_key(i) ==> a[i].messages == b[i].messages,
    ensures
        model::queued(a, n, h) == model::queued(b, n, h),
    decreases n,
{
    if n > 0 {
        lemma_queued_same(a, b, (n - 1) as nat, h);
        let last = (n - 1) as ChannelId;
        assert(a.contains_key(last) <==> b.contains_key(last));
    }
}

/// Taking out the messages of a channel, to drop the halves in them, keeps the state
/// well-formed.
pub proof fn lemma_emptied(s: MappingModel, k: ChannelId, id: ChannelId)
    requires
        s.wf(),
        s.live.contains_key(id),
    ensures
        s.emptied(k, id).wf_with(s.live[id].halves()),
{
    let t = s.emptied(k, id);
    let released = s.live[id].halves();
    assert(t.live.dom() =~= s.live.dom());
    assert forall|g: Half| #[trigger]
        t.references(g) + released.to_multiset().count(g) == model::counted(t.live, g) by {
        assert(s.references(g) + Seq::<Half>::empty().to_multiset().count(g) == model::counted(
            s.live,
            g,
        ));
        lemma_empty(g);
        lemma_queued_change(s.live, t.live, s.next_id, id, g);
        assert(t.live[id].halves() =~= Seq::<Half>::empty());
    }
}

/// Reaping a channel keeps the state well-formed, and the halves that exist outside of
/// messages as they are.
pub proof fn lemma_gc_channel(s: MappingModel, id: ChannelId)
    requires
        s.wf(),
    ensures
        s.gc_channel(id).wf(),
        s.gc_channel(id).held == s.held,
        s.gc_channel(id).next_id == s.next_id,
{
    if let Some(c) = s.entry(id) {
        lemma_emptied(s, id, c);
        lemma_drop_all(s.emptied(id, c), s.live[c].halves());
    } else {
        let t = s.gc_channel(id);
        assert forall|g: Half| #[trigger]
            t.references(g) + Seq::<Half>::empty().to_multiset().count(g) == model::counted(
                t.live,
                g,
            ) by {
            assert(s.references(g) + Seq::<Half>::empty().to_multiset().count(g)
                == model::counted(s.live, g));
        }
    }
}

/// Reaping any number of channels keeps the state well-formed.
pub proof fn lemma_gc_all(s: MappingModel, order: Seq<ChannelId>)
    requires
        s.wf(),
    ensures
        s.gc_all(order).wf(),
        s.gc_all(order).held == s.held,
        s.gc_all(order).next_id == s.next_id,
    decreases order.len(),
{
    if order.len() > 0 {
        lemma_gc_all(s, order.drop_last());
        lemma_gc_channel(s.gc_all(order.drop_last()), order.last());
    }
}

} // verus!
