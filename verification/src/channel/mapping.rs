//! The operations of the channel table.
use crate::abi::{Label, OakStatus};
use crate::channel::counting;
use crate::channel::model;
use crate::channel::model::{ChannelHalfDirection, ChannelId, ChannelModel, Half, MappingModel};
use crate::channel::{Channel, ChannelHalf, ChannelMapping, Message, Wakeup, WeakChannel};
use crate::text;
use std::collections::{HashMap, HashSet, VecDeque};
use vstd::multiset::Multiset;
use vstd::prelude::*;

verus! {

broadcast use vstd::std_specs::hash::group_hash_axioms;

/// Lists the members of a set, each once, in the order in which the set is walked.
pub(crate) fn listed(set: &HashSet<ChannelId>) -> (r: Vec<ChannelId>)
    ensures
        r@.no_duplicates(),
        r@.to_set() == set@,
{
    let mut r: Vec<ChannelId> = Vec::new();
    let ghost all = vstd::std_specs::iter::IteratorSpec::remaining(&set.iter()).unref();
    for id in iter: set.iter()
        invariant
            iter.seq().unref() == all,
            r@ == all.take(iter.index()),
    {
        r.push(*id);
        assert(all.take(iter.index() + 1) =~= all.take(iter.index()).push(*id));
    }
    assert(r@ =~= all);
    r
}

impl ChannelMapping {
    /// Creates a new empty [`ChannelMapping`].
    pub fn new() -> (r: ChannelMapping)
        ensures
            r@ == MappingModel::initial(r@.table),
            r.wf(),
    {
        let r = ChannelMapping {
            table: Ghost(0),
            channels: HashMap::new(),
            entries: HashMap::new(),
            next_channel_id: 0,
            held: Ghost(Multiset::empty()),
        };
        proof {
            assert(r@.live =~= Map::<ChannelId, ChannelModel>::empty());
            assert(r@.entries =~= Map::<ChannelId, model::WeakModel>::empty());
            assert forall|h: Half| #[trigger]
                r@.references(h) + Seq::<Half>::empty().to_multiset().count(h) == model::counted(
                    r@.live,
                    h,
                ) by {
                counting::lemma_empty(h);
            }
        }
        r
    }

    /// Gives access to what the table tracks: weak references to channels by identifier. What
    /// is put there must refer to channels of this table, or to nothing.
    pub fn get_channels(&mut self) -> (r: &mut HashMap<ChannelId, WeakChannel>)
        ensures
            super::weak_views(r@) == old(self)@.entries,
            final(self)@ == (MappingModel {
                entries: super::weak_views(final(r)@),
                ..old(self)@
            }),
    {
        &mut self.entries
    }

    /// Returns the identifiers under which the table has entries, each once, in the order in
    /// which the table is walked.
    pub(crate) fn entry_ids(&self) -> (r: Vec<ChannelId>)
        ensures
            r@.no_duplicates(),
            r@.to_set() == self@.entries.dom(),
    {
        let mut r: Vec<ChannelId> = Vec::new();
        let ghost all = vstd::std_specs::iter::IteratorSpec::remaining(
            &self.entries.keys(),
        ).unref();
        for id in iter: self.entries.keys()
            invariant
                iter.seq().unref() == all,
                r@ == all.take(iter.index()),
        {
            r.push(*id);
            assert(all.take(iter.index() + 1) =~= all.take(iter.index()).push(*id));
        }
        assert(r@ =~= all);
        assert(self@.entries.dom() =~= self.entries@.dom());
        r
    }

    /// Returns the identifier of the channel that an entry refers to, if there is such an
    /// entry and the channel exists.
    pub(crate) fn entry_target(&self, id: ChannelId) -> (r: Option<ChannelId>)
        requires
            model::proper_entries(self@.entries, self@.table, self@.next_id),
        ensures
            r == self@.entry(id),
    {
        assert(self@.entries.contains_key(id) <==> self.entries@.contains_key(id));
        match self.entries.get(&id) {
            None => None,
            Some(weak) => match weak.target {
                None => None,
                Some(target) => {
                    assert(self@.live.contains_key(target) <==> self.channels@.contains_key(target));
                    if self.channels.contains_key(&target) {
                        Some(target)
                    } else {
                        None
                    }
                },
            },
        }
    }

    /// Creates a new [`Channel`] and returns a `(writer half, reader half)` pair.
    pub fn new_channel(&mut self, label: &Label) -> (r: (ChannelHalf, ChannelHalf))
        requires
            old(self).wf(),
            old(self)@.next_id < u64::MAX,
        ensures
            final(self)@ == old(self)@.new_channel(label@),
            final(self).wf(),
            r.0@ == (Half {
                table: old(self)@.table,
                id: old(self)@.next_id as ChannelId,
                direction: ChannelHalfDirection::Write,
            }),
            r.1@ == (Half {
                table: old(self)@.table,
                id: old(self)@.next_id as ChannelId,
                direction: ChannelHalfDirection::Read,
            }),
    {
        let id: ChannelId = self.next_channel_id;
        self.next_channel_id = id + 1;
        let mut channel = Channel::new(self.table, id, label);
        let writer = ChannelHalf::new(&mut channel, ChannelHalfDirection::Write);
        let reader = ChannelHalf::new(&mut channel, ChannelHalfDirection::Read);
        proof {
            counting::lemma_new_channel(old(self)@, label@);
            super::lemma_insert_view(self.channels@, id, channel);
        }
        let weak = channel.downgrade();
        self.channels.insert(id, channel);
        self.entries.insert(id, weak);
        self.held = Ghost(self.held@.insert(writer@).insert(reader@));
        assert(self@.entries =~= old(self)@.new_channel(label@).entries);
        (writer, reader)
    }

    /// Hands out a second half that refers to the same end of the same channel.
    pub fn clone_half(&mut self, half: &ChannelHalf) -> (r: ChannelHalf)
        requires
            old(self).wf(),
            old(self)@.references(half@) > 0,
            old(self)@.live[half@.id].count(half@.direction) < u64::MAX,
        ensures
            final(self)@ == old(self)@.clone_half(half@),
            final(self).wf(),
            r@ == half@,
    {
        proof {
            counting::lemma_referenced_live(self@, half@);
            counting::lemma_clone_half(self@, half@);
        }
        let id: ChannelId = half.channel;
        let ghost m = self.channels@;
        let mut channel = self.channels.remove(&id).unwrap();
        let result = ChannelHalf::new(&mut channel, half.direction);
        proof {
            super::lemma_insert_view(m, id, channel);
        }
        self.channels.insert(id, channel);
        self.held = Ghost(self.held@.insert(half@));
        result
    }

    /// Drops a half. If it was the last writer of a channel that has readers, the threads
    /// that wait on the channel are to be woken. If it was the last half, the channel goes,
    /// with the messages that it holds and the halves in them.
    pub fn drop_half(&mut self, half: ChannelHalf) -> (r: Vec<Wakeup>)
        requires
            old(self).wf(),
            old(self)@.held.count(half@) > 0,
        ensures
            final(self)@ == old(self)@.drop_half(half@),
            final(self).wf(),
            super::wakeup_views(r@) == old(self)@.give_back(half@).drop_wakeups(seq![half@]),
    {
        proof {
            counting::lemma_give_back(self@, half@);
            counting::lemma_drop_all(self@.give_back(half@), seq![half@]);
        }
        self.held = Ghost(self.held@.remove(half@));
        let mut stack: Vec<ChannelHalf> = Vec::new();
        stack.push(half);
        assert(super::from_top(stack@) =~= seq![half@]);
        self.drop_stack(stack)
    }

    /// Puts a message at the end of the queue of the channel that `half` refers to.
    pub fn push_message(&mut self, half: &ChannelHalf, message: Message)
        requires
            old(self).wf(),
            old(self)@.references(half@) > 0,
            message@.halves.to_multiset().subset_of(old(self)@.held),
        ensures
            final(self)@ == old(self)@.push_message(half@.id, message@),
            final(self).wf(),
    {
        proof {
            counting::lemma_referenced_live(self@, half@);
            counting::lemma_push_message(self@, half@.id, message@);
        }
        let id: ChannelId = half.channel;
        let ghost m = self.channels@;
        self.held = Ghost(self.held@.sub(message@.halves.to_multiset()));
        let mut channel = self.channels.remove(&id).unwrap();
        channel.push(message);
        proof {
            super::lemma_insert_view(m, id, channel);
        }
        self.channels.insert(id, channel);
    }

    /// Takes out the message at the front of the queue of the channel that `half` refers
    /// to, if there is one. The halves in it are now held by the caller, and those that are
    /// not needed must reach [`ChannelMapping::drop_half`].
    pub fn pop_message(&mut self, half: &ChannelHalf) -> (r: Option<Message>)
        requires
            old(self).wf(),
            old(self)@.references(half@) > 0,
        ensures
            final(self).wf(),
            match r {
                Some(message) => {
                    &&& old(self)@.live[half@.id].messages.len() > 0
                    &&& message@ == old(self)@.live[half@.id].messages[0]
                    &&& final(self)@ == old(self)@.pop_message(half@.id)
                },
                None => {
                    &&& old(self)@.live[half@.id].messages.len() == 0
                    &&& final(self)@ == old(self)@
                },
            },
    {
        proof {
            counting::lemma_referenced_live(self@, half@);
        }
        let id: ChannelId = half.channel;
        let ghost m = self.channels@;
        let mut channel = self.channels.remove(&id).unwrap();
        let result = channel.pop();
        proof {
            super::lemma_insert_view(m, id, channel);
            if result is Some {
                counting::lemma_pop_message(old(self)@, id);
            } else {
                assert(old(self)@.live.insert(id, channel@) =~= old(self)@.live);
            }
        }
        self.channels.insert(id, channel);
        if let Some(message) = &result {
            self.held = Ghost(self.held@.add(message@.halves.to_multiset()));
        }
        result
    }

    /// Unblocks all threads waiting on any channel that has an entry: the returned wakeups
    /// are one for each entry that refers to a channel, in the order in which the table is
    /// walked.
    pub fn notify_all_waiters(&mut self) -> (r: Vec<Wakeup>)
        requires
            old(self).wf(),
        ensures
            final(self)@ == old(self)@.notify_all(),
            final(self).wf(),
            exists|order: Seq<ChannelId>|
                {
                    &&& order.no_duplicates()
                    &&& order.to_set() == old(self)@.entries.dom()
                    &&& super::wakeup_views(r@) == #[trigger] old(self)@.notify_wakeups(order)
                },
    {
        let ids = self.entry_ids();
        let ghost s = self@;
        let mut wakeups: Vec<Wakeup> = Vec::new();
        let mut k: usize = 0;
        proof {
            assert(ids@.take(0) =~= Seq::<ChannelId>::empty());
            assert(super::wakeup_views(wakeups@) =~= Seq::<model::WakeupModel>::empty());
        }
        while k < ids.len()
            invariant
                s == old(self)@,
                s.wf(),
                k <= ids.len(),
                self@ == s.notify_entries(ids@.take(k as int)),
                super::wakeup_views(wakeups@) == s.notify_wakeups(ids@.take(k as int)),
            decreases ids.len() - k,
        {
            let id: ChannelId = ids[k];
            let ghost done = ids@.take(k as int);
            let ghost m = self.channels@;
            let ghost before = wakeups@;
            let ghost t = self@;
            proof {
                assert(ids@.take(k + 1).drop_last() =~= done);
                assert(ids@.take(k + 1).last() == id);
                counting::lemma_notify_entries(s, done);
            }
            if let Some(target) = self.entry_target(id) {
                assert(self.channels@.contains_key(target));
                let mut channel = self.channels.remove(&target).unwrap();
                let waiters = channel.wake_waiters();
                proof {
                    super::lemma_insert_view(m, target, channel);
                }
                self.channels.insert(target, channel);
                wakeups.push(Wakeup { channel: target, waiters });
                proof {
                    assert(self@ == t.notify_entry(id));
                    assert(super::wakeup_views(wakeups@) =~= super::wakeup_views(before)
                        + seq![model::WakeupModel { id: target, waiters: t.live[target].waiters }]);
                }
            } else {
                assert(super::wakeup_views(wakeups@) + Seq::<model::WakeupModel>::empty()
                    =~= super::wakeup_views(wakeups@));
            }
            k = k + 1;
        }
        proof {
            assert(ids@.take(k as int) =~= ids@);
            counting::lemma_notify_entries(s, ids@);
            counting::lemma_notify_order(s, ids@);
            counting::lemma_notify_all(s);
        }
        wakeups
    }

    /// Reaps the entry under the given identifier: it is removed, and the messages that its
    /// channel holds are dropped, and with them the halves that kept it and others alive.
    /// Returns how that went, and the waiters to be woken.
    pub fn gc_channel(&mut self, channel_id: ChannelId) -> (r: (String, Vec<Wakeup>))
        requires
            old(self).wf(),
        ensures
            final(self)@ == old(self)@.gc_channel(channel_id),
            final(self).wf(),
            r.0@ == old(self)@.gc_channel_report(channel_id),
            super::wakeup_views(r.1@) == old(self)@.gc_channel_wakeups(channel_id),
    {
        proof {
            counting::lemma_gc_channel(self@, channel_id);
            super::lemma_entry_removed(self.entries@, channel_id);
        }
        let ghost m = self.channels@;
        let none: Vec<Wakeup> = Vec::new();
        assert(super::wakeup_views(none@) =~= Seq::<model::WakeupModel>::empty());
        let target = self.entry_target(channel_id);
        let removed = self.entries.remove(&channel_id);
        assert(removed is Some <==> old(self)@.entries.contains_key(channel_id));
        if removed.is_none() {
            assert(old(self)@.entries.remove(channel_id) =~= old(self)@.entries);
            return ("not found".to_string(), none);
        }
        if let Some(id) = target {
            assert(self.channels@.contains_key(id));
            let mut channel = self.channels.remove(&id).unwrap();
            let mut messages: VecDeque<Message> = VecDeque::new();
            std::mem::swap(&mut messages, &mut channel.messages);
            let ghost halves = old(self)@.live[id].halves();
            proof {
                assert(super::message_views(channel.messages@) =~= Seq::<
                    model::MessageModel,
                >::empty());
                super::lemma_insert_view(m, id, channel);
                counting::lemma_emptied(old(self)@, channel_id, id);
            }
            self.channels.insert(id, channel);
            let mut stack: Vec<ChannelHalf> = Vec::new();
            proof {
                assert(halves + super::from_top(stack@) =~= halves);
            }
            super::stack_released(messages, &mut stack);
            let wakeups = self.drop_stack(stack);
            ("dropped".to_string(), wakeups)
        } else {
            ("found dangling weak ref".to_string(), none)
        }
    }

    /// Reaps the given channels in the given order, and reports on each.
    pub fn gc_in_order(&mut self, order: &Vec<ChannelId>) -> (r: (String, Vec<Wakeup>))
        requires
            old(self).wf(),
        ensures
            final(self)@ == old(self)@.gc_all(order@),
            final(self).wf(),
            r.0@ == old(self)@.gc_report(order@),
            super::wakeup_views(r.1@) == old(self)@.gc_wakeups(order@),
    {
        let mut s = "<h2>Channel GC Result</h2>".to_string();
        let mut wakeups: Vec<Wakeup> = Vec::new();
        let mut k: usize = 0;
        let ghost start = self@;
        proof {
            assert(order@.take(0) =~= Seq::<ChannelId>::empty());
            assert(super::wakeup_views(wakeups@) =~= Seq::<model::WakeupModel>::empty());
        }
        while k < order.len()
            invariant
                start == old(self)@,
                start.wf(),
                k <= order.len(),
                self@ == start.gc_all(order@.take(k as int)),
                self.wf(),
                s@ == start.gc_report(order@.take(k as int)),
                super::wakeup_views(wakeups@) == start.gc_wakeups(order@.take(k as int)),
            decreases order.len() - k,
        {
            let channel_id: ChannelId = order[k];
            let ghost before = wakeups@;
            proof {
                assert(order@.take(k + 1).drop_last() =~= order@.take(k as int));
                assert(order@.take(k + 1).last() == channel_id);
            }
            let (result, mut woken) = self.gc_channel(channel_id);
            s.append("<p>Reaped Channel ");
            text::push_decimal(&mut s, channel_id);
            s.append(": ");
            s.append(result.as_str());
            let ghost new = woken@;
            wakeups.append(&mut woken);
            proof {
                assert(super::wakeup_views(wakeups@) =~= super::wakeup_views(before)
                    + super::wakeup_views(new));
            }
            k = k + 1;
        }
        assert(order@.take(k as int) =~= order@);
        (s, wakeups)
    }

    /// Reaps the given channels, in the order in which the set is walked, and reports on
    /// each.
    pub fn gc(&mut self, unvisited: HashSet<ChannelId>) -> (r: (String, Vec<Wakeup>))
        requires
            old(self).wf(),
        ensures
            final(self).wf(),
            exists|order: Seq<ChannelId>|
                {
                    &&& order.no_duplicates()
                    &&& order.to_set() == unvisited@
                    &&& final(self)@ == #[trigger] old(self)@.gc_all(order)
                    &&& r.0@ == old(self)@.gc_report(order)
                    &&& super::wakeup_views(r.1@) == old(self)@.gc_wakeups(order)
                },
    {
        let order = listed(&unvisited);
        self.gc_in_order(&order)
    }
}

/// What an operation on a [`Channel`] gives back.
///
/// Halves do not drop themselves, so an operation accounts for those that it comes by: a
/// half that it takes out of the channel's queue, or makes with [`ChannelHalf::new`], is put
/// into the queue, handed out or let go of. The same can be done with halves that the
/// operation brings along.
pub struct Operated<U> {
    /// The channel that the operation was handed.
    pub channel: Channel,
    /// The halves that the caller gets.
    pub handed_out: Vec<ChannelHalf>,
    /// The halves that are no longer needed. They are dropped, the first one first, as by
    /// [`ChannelMapping::drop_half`].
    pub let_go: Vec<ChannelHalf>,
    /// The result of the operation.
    pub result: Result<U, OakStatus>,
}

impl<U> Operated<U> {
    /// What an operation gives back that neither hands out a half nor lets one go.
    pub fn plain(channel: Channel, result: Result<U, OakStatus>) -> (r: Operated<U>)
        ensures
            r.channel == channel,
            r.result == result,
            super::half_views(r.handed_out@) == Seq::<Half>::empty(),
            super::half_views(r.let_go@) == Seq::<Half>::empty(),
    {
        let r = Operated { channel, handed_out: Vec::new(), let_go: Vec::new(), result };
        assert(super::half_views(r.handed_out@) =~= Seq::<Half>::empty());
        assert(super::half_views(r.let_go@) =~= Seq::<Half>::empty());
        r
    }
}

/// Whether an operation can be run on channel `id`: it takes the channel as it is, and
/// whatever it makes of it, the channel remains the same and every half is accounted for.
pub open spec fn can_operate<U, F: FnOnce(Channel) -> Operated<U>>(
    f: F,
    s: MappingModel,
    id: ChannelId,
) -> bool {
    &&& forall|c: Channel| c@ == s.live[id] ==> #[trigger] call_requires(f, (c,))
    &&& forall|c: Channel, out: Operated<U>|
        c@ == s.live[id] && #[trigger] call_ensures(f, (c,), out) ==> model::may_operate(
            s.held,
            c@,
            out.channel@,
            super::half_views(out.handed_out@),
            super::half_views(out.let_go@),
        )
}

/// What an operation on channel `id` leads to: it was run on that channel, its result and
/// the halves that it handed out are returned, the channel that it gave back is in place,
/// and what it let go of has been dropped.
pub open spec fn ran_on_channel<U, F: FnOnce(Channel) -> Operated<U>>(
    f: F,
    before: MappingModel,
    after: MappingModel,
    id: ChannelId,
    r: (Result<U, OakStatus>, Vec<ChannelHalf>, Vec<Wakeup>),
) -> bool {
    exists|c: Channel, out: Operated<U>|
        {
            let let_go = super::half_views(out.let_go@);
            &&& #[trigger] call_ensures(f, (c,), out)
            &&& c@ == before.live[id]
            &&& r.0 == out.result
            &&& r.1@ == out.handed_out@
            &&& after == before.operate(id, out.channel@, let_go)
            &&& super::wakeup_views(r.2@) == before.operated(
                id,
                out.channel@,
                let_go,
            ).drop_wakeups(let_go)
        }
}

/// Performs an operation on the [`Channel`] that a [`ChannelHalf`] refers to. The operation
/// is handed the channel and gives it back.
fn with_channel<U, F: FnOnce(Channel) -> Operated<U>>(
    mapping: &mut ChannelMapping,
    half: &ChannelHalf,
    f: F,
) -> (r: (Result<U, OakStatus>, Vec<ChannelHalf>, Vec<Wakeup>))
    requires
        old(mapping).wf(),
        old(mapping)@.references(half@) > 0,
        can_operate(f, old(mapping)@, half@.id),
    ensures
        final(mapping).wf(),
        ran_on_channel(f, old(mapping)@, final(mapping)@, half@.id, r),
        super::half_views(r.1@).to_multiset().subset_of(final(mapping)@.held),
{
    proof {
        counting::lemma_referenced_live(mapping@, half@);
    }
    let id: ChannelId = half.channel;
    let ghost m = mapping.channels@;
    let ghost s = mapping@;
    let channel = mapping.channels.remove(&id).unwrap();
    let ghost given = channel;
    let out = f(channel);
    let ghost given_back = out;
    let ghost let_go = super::half_views(out.let_go@);
    proof {
        assert(call_ensures(f, (given,), given_back));
        super::lemma_insert_view(m, id, out.channel);
        let handed_out = super::half_views(out.handed_out@);
        counting::lemma_operated(s, id, out.channel@, handed_out, let_go);
        counting::lemma_operate(s, id, out.channel@, handed_out, let_go);
    }
    let ghost after = out.channel@;
    mapping.channels.insert(id, out.channel);
    mapping.held = Ghost(s.operated(id, after, let_go).held);
    let mut stack: Vec<ChannelHalf> = Vec::new();
    proof {
        assert(let_go + super::from_top(stack@) =~= let_go);
        assert(mapping@ == s.operated(id, after, let_go));
    }
    super::stack_halves(out.let_go, &mut stack);
    let wakeups = mapping.drop_stack(stack);
    (out.result, out.handed_out, wakeups)
}

/// Performs an operation on the [`Channel`] that a reader [`ChannelHalf`] refers to. A
/// writer half is refused, and the operation is not run.
///
/// Returns the result of the operation, the halves that it handed out, and the waiters to be
/// woken on account of those that it let go of. The halves that were handed out are now held
/// by the caller, and those that are not needed must reach [`ChannelMapping::drop_half`]. So
/// must halves that the operation would have brought along, where it is not run: they are to
/// be kept out of it unless the direction is known to be right.
pub fn with_reader_channel<U, F: FnOnce(Channel) -> Operated<U>>(
    mapping: &mut ChannelMapping,
    half: &ChannelHalf,
    f: F,
) -> (r: (Result<U, OakStatus>, Vec<ChannelHalf>, Vec<Wakeup>))
    requires
        old(mapping).wf(),
        old(mapping)@.references(half@) > 0,
        half@.direction is Read ==> can_operate(f, old(mapping)@, half@.id),
    ensures
        final(mapping).wf(),
        half@.direction is Write ==> refused(old(mapping)@, final(mapping)@, r),
        half@.direction is Read ==> ran_on_channel(
            f,
            old(mapping)@,
            final(mapping)@,
            half@.id,
            r,
        ),
        super::half_views(r.1@).to_multiset().subset_of(final(mapping)@.held),
{
    if half.direction != ChannelHalfDirection::Read {
        return refuse();
    }
    with_channel(mapping, half, f)
}

/// Performs an operation on the [`Channel`] that a writer [`ChannelHalf`] refers to. A
/// reader half is refused, and the operation is not run.
///
/// Returns the result of the operation, the halves that it handed out, and the waiters to be
/// woken on account of those that it let go of. The halves that were handed out are now held
/// by the caller, and those that are not needed must reach [`ChannelMapping::drop_half`]. So
/// must halves that the operation would have brought along, where it is not run: they are to
/// be kept out of it unless the direction is known to be right.
pub fn with_writer_channel<U, F: FnOnce(Channel) -> Operated<U>>(
    mapping: &mut ChannelMapping,
    half: &ChannelHalf,
    f: F,
) -> (r: (Result<U, OakStatus>, Vec<ChannelHalf>, Vec<Wakeup>))
    requires
        old(mapping).wf(),
        old(mapping)@.references(half@) > 0,
        half@.direction is Write ==> can_operate(f, old(mapping)@, half@.id),
    ensures
        final(mapping).wf(),
        half@.direction is Read ==> refused(old(mapping)@, final(mapping)@, r),
        half@.direction is Write ==> ran_on_channel(
            f,
            old(mapping)@,
            final(mapping)@,
            half@.id,
            r,
        ),
        super::half_views(r.1@).to_multiset().subset_of(final(mapping)@.held),
{
    if half.direction != ChannelHalfDirection::Write {
        return refuse();
    }
    with_channel(mapping, half, f)
}

/// What comes of an operation that is not run, as the half has the wrong direction.
pub open spec fn refused<U>(
    before: MappingModel,
    after: MappingModel,
    r: (Result<U, OakStatus>, Vec<ChannelHalf>, Vec<Wakeup>),
) -> bool {
    &&& r.0 == Err::<U, OakStatus>(OakStatus::ErrBadHandle)
    &&& r.1@ == Seq::<ChannelHalf>::empty()
    &&& r.2@ == Seq::<Wakeup>::empty()
    &&& after == before
}

/// The answer where an operation is not run.
fn refuse<U>() -> (r: (Result<U, OakStatus>, Vec<ChannelHalf>, Vec<Wakeup>))
    ensures
        r.0 == Err::<U, OakStatus>(OakStatus::ErrBadHandle),
        r.1@ == Seq::<ChannelHalf>::empty(),
        r.2@ == Seq::<Wakeup>::empty(),
        forall|held: Multiset<Half>| #[trigger]
            super::half_views(r.1@).to_multiset().subset_of(held),
{
    let r = (Err(OakStatus::ErrBadHandle), Vec::new(), Vec::new());
    proof {
        assert(super::half_views(r.1@) =~= Seq::<Half>::empty());
        assert forall|h: Half| Seq::<Half>::empty().to_multiset().count(h) == 0 by {
            counting::lemma_empty(h);
        }
    }
    r
}

} // verus!
