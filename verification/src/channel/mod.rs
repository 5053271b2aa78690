//! Channels, the halves that refer to them, and the table that tracks them.
pub mod counting;
pub mod effects;
pub mod laws;
pub mod mapping;
pub mod model;
pub mod pages;
pub mod reaping;
pub mod shown;
pub mod visit;
pub mod waking;

use crate::abi::Label;
use crate::channel::model::{
    ChannelHalfDirection, ChannelId, ChannelModel, Half, MappingModel, MessageModel, ThreadId,
    ThreadRef, WakeupModel, WeakModel,
};
use std::collections::{HashMap, VecDeque};
use vstd::multiset::Multiset;
use vstd::prelude::*;

verus! {

broadcast use vstd::std_specs::hash::group_hash_axioms;

/// A reference to one half of a [`Channel`].
///
/// Every half is counted by its channel. A half does not drop itself: one that is no longer
/// needed must reach [`ChannelMapping::drop_half`], wherever it came from. That goes for the
/// halves in a message that was taken out of a queue, too. A half that is lost on the way
/// stays counted.
///
/// A half may only be used with the table that handed it out: it refers to its channel by an
/// identifier, which other tables use for channels of their own.
pub struct ChannelHalf {
    // The mark of the table that the half belongs to.
    table: Ghost<int>,
    channel: ChannelId,
    pub direction: ChannelHalfDirection,
}

impl View for ChannelHalf {
    type V = Half;

    closed spec fn view(&self) -> Half {
        Half { table: self.table@, id: self.channel, direction: self.direction }
    }
}

/// A message, with the channel halves that travel in it.
pub struct Message {
    pub data: Vec<u8>,
    pub channels: Vec<ChannelHalf>,
}

/// The models of a sequence of halves.
pub open spec fn half_views(s: Seq<ChannelHalf>) -> Seq<Half> {
    s.map_values(|h: ChannelHalf| h@)
}

impl View for Message {
    type V = MessageModel;

    open spec fn view(&self) -> MessageModel {
        MessageModel { data: self.data@, halves: half_views(self.channels@) }
    }
}

/// The models of a sequence of messages.
pub open spec fn message_views(s: Seq<Message>) -> Seq<MessageModel> {
    s.map_values(|m: Message| m@)
}

/// A channel: a queue of messages, and the counts of the halves that refer to it.
///
/// A channel exists exactly as long as some [`ChannelHalf`] refers to it.
pub struct Channel {
    // The mark of the table that the channel belongs to.
    table: Ghost<int>,
    // The identifier under which this channel is known in the `ChannelMapping`.
    id: ChannelId,
    pub messages: VecDeque<Message>,
    // Counts of the numbers of `ChannelHalf` objects that refer to this channel.
    writer_count: u64,
    reader_count: u64,
    // The threads to be woken when the channel changes. A thread that waits again replaces
    // its earlier entry, so stale entries do not build up.
    waiting_threads: HashMap<ThreadId, ThreadRef>,
    /// The label associated with this channel, set when the channel is created.
    pub label: Label,
}

impl View for Channel {
    type V = ChannelModel;

    closed spec fn view(&self) -> ChannelModel {
        ChannelModel {
            table: self.table@,
            id: self.id,
            messages: message_views(self.messages@),
            writers: self.writer_count as nat,
            readers: self.reader_count as nat,
            waiters: self.waiting_threads@,
            label: self.label@,
        }
    }
}

/// A weak reference to a [`Channel`], which does not keep the channel in existence.
#[derive(Clone, Copy)]
pub struct WeakChannel {
    // The mark of the table that the channel belongs to.
    table: Ghost<int>,
    target: Option<ChannelId>,
}

impl View for WeakChannel {
    type V = WeakModel;

    closed spec fn view(&self) -> WeakModel {
        match self.target {
            None => WeakModel::Dangling,
            Some(id) => WeakModel::To { table: self.table@, id },
        }
    }
}

impl WeakChannel {
    /// Creates a reference that refers to no channel.
    pub fn new() -> (r: WeakChannel)
        ensures
            r@ == WeakModel::Dangling,
    {
        WeakChannel { table: Ghost(0), target: None }
    }
}

/// The models of weak references.
pub open spec fn weak_views(m: Map<ChannelId, WeakChannel>) -> Map<ChannelId, WeakModel> {
    m.map_values(|w: WeakChannel| w@)
}

/// The threads to be woken on behalf of one channel.
pub struct Wakeup {
    pub channel: ChannelId,
    pub waiters: HashMap<ThreadId, ThreadRef>,
}

impl View for Wakeup {
    type V = WakeupModel;

    open spec fn view(&self) -> WakeupModel {
        WakeupModel { id: self.channel, waiters: self.waiters@ }
    }
}

/// The models of a sequence of wakeups.
pub open spec fn wakeup_views(s: Seq<Wakeup>) -> Seq<WakeupModel> {
    s.map_values(|w: Wakeup| w@)
}

/// Mapping of [`ChannelId`]s to [`Channel`]s.
pub struct ChannelMapping {
    // The mark of this table.
    table: Ghost<int>,
    // The channels that exist.
    channels: HashMap<ChannelId, Channel>,
    // Weak references to the channels, for introspection and garbage collection.
    entries: HashMap<ChannelId, WeakChannel>,
    next_channel_id: u64,
    // The halves that exist outside of any queued message.
    held: Ghost<Multiset<Half>>,
}

impl View for ChannelMapping {
    type V = MappingModel;

    closed spec fn view(&self) -> MappingModel {
        MappingModel {
            table: self.table@,
            live: self.channels@.map_values(|c: Channel| c@),
            entries: weak_views(self.entries@),
            next_id: self.next_channel_id as nat,
            held: self.held@,
        }
    }
}

/// The halves on a stack, from the top down.
spec fn from_top(stack: Seq<ChannelHalf>) -> Seq<Half> {
    Seq::new(stack.len(), |i: int| stack[stack.len() - 1 - i]@)
}

/// Moves halves onto the stack, the first one on top.
fn stack_halves(halves: Vec<ChannelHalf>, stack: &mut Vec<ChannelHalf>)
    ensures
        from_top(final(stack)@) == half_views(halves@) + from_top(old(stack)@),
{
    let mut rest = halves;
    let ghost all = half_views(halves@);
    let ghost bottom = from_top(stack@);
    let ghost mut moved: Seq<Half> = Seq::empty();
    proof {
        assert(all + moved =~= all);
        assert(moved + bottom =~= bottom);
    }
    while rest.len() > 0
        invariant
            from_top(stack@) == moved + bottom,
            half_views(rest@) + moved == all,
        decreases rest.len(),
    {
        let ghost rest0 = rest@;
        let ghost stack0 = stack@;
        let half = rest.pop();
        if let Some(half) = half {
            stack.push(half);
            proof {
                let h = half@;
                assert(half_views(rest0) =~= half_views(rest@).push(h));
                assert(half_views(rest@) + (seq![h] + moved) =~= half_views(rest0) + moved);
                assert(from_top(stack@) =~= seq![h] + from_top(stack0));
                assert((seq![h] + moved) + bottom =~= seq![h] + (moved + bottom));
                moved = seq![h] + moved;
            }
        }
    }
    assert(half_views(rest@) + moved =~= moved);
}

/// Moves the halves in `messages` onto the stack, the first one on top.
fn stack_released(messages: VecDeque<Message>, stack: &mut Vec<ChannelHalf>)
    ensures
        from_top(final(stack)@) == model::message_halves(message_views(messages@)) + from_top(
            old(stack)@,
        ),
{
    let mut messages = messages;
    let ghost all = message_views(messages@);
    let ghost bottom = from_top(stack@);
    let ghost mut done: Seq<Half> = Seq::empty();
    proof {
        assert(done + bottom =~= bottom);
        assert(model::message_halves(all) + done =~= model::message_halves(all));
    }
    while messages.len() > 0
        invariant
            from_top(stack@) == done + bottom,
            model::message_halves(message_views(messages@)) + done == model::message_halves(all),
        decreases messages.len(),
    {
        let ghost before = message_views(messages@);
        let last = messages.pop_back();
        if let Some(message) = last {
            let ghost halves = half_views(message.channels@);
            proof {
                assert(before.last() == message@);
                assert(message_views(messages@) =~= before.drop_last());
            }
            stack_halves(message.channels, stack);
            proof {
                assert(model::message_halves(before) == model::message_halves(
                    message_views(messages@),
                ) + halves);
                assert(model::message_halves(message_views(messages@)) + (halves + done)
                    =~= model::message_halves(before) + done);
                assert((halves + done) + bottom =~= halves + (done + bottom));
                done = halves + done;
            }
        }
    }
    proof {
        assert(model::message_halves(message_views(messages@)) =~= Seq::<Half>::empty());
        assert(model::message_halves(message_views(messages@)) + done =~= done);
    }
}

impl Channel {
    /// Creates a channel that no half refers to yet.
    fn new(table: Ghost<int>, id: ChannelId, label: &Label) -> (r: Channel)
        ensures
            r@ == ChannelModel::fresh(table@, id, label@),
    {
        let r = Channel {
            table,
            id,
            messages: VecDeque::new(),
            writer_count: 0,
            reader_count: 0,
            waiting_threads: HashMap::new(),
            label: Label { text: label.text.clone() },
        };
        assert(message_views(r.messages@) =~= Seq::<MessageModel>::empty());
        r
    }

    /// Determines whether there are any readers of the channel.
    pub fn has_readers(&self) -> (r: bool)
        ensures
            r == (self@.readers > 0),
    {
        self.reader_count > 0
    }

    /// Determines whether there are any writers of the channel.
    pub fn has_writers(&self) -> (r: bool)
        ensures
            r == (self@.writers > 0),
    {
        self.writer_count > 0
    }

    /// Determines whether there are any users of the channel.
    pub fn has_users(&self) -> (r: bool)
        ensures
            r == self@.has_users(),
    {
        self.has_readers() || self.has_writers()
    }

    /// Decrements the writer count.
    fn dec_writer_count(&mut self)
        requires
            old(self)@.writers > 0,
        ensures
            final(self)@ == old(self)@.less(ChannelHalfDirection::Write),
            final(self).messages == old(self).messages,
    {
        self.writer_count = self.writer_count - 1;
    }

    /// Decrements the reader count.
    fn dec_reader_count(&mut self)
        requires
            old(self)@.readers > 0,
        ensures
            final(self)@ == old(self)@.less(ChannelHalfDirection::Read),
            final(self).messages == old(self).messages,
    {
        self.reader_count = self.reader_count - 1;
    }

    /// Increments the writer count, and returns what it was.
    fn inc_writer_count(&mut self) -> (r: u64)
        requires
            old(self)@.writers < u64::MAX,
        ensures
            r == old(self)@.writers,
            final(self)@ == old(self)@.more(ChannelHalfDirection::Write),
    {
        let before: u64 = self.writer_count;
        self.writer_count = before + 1;
        before
    }

    /// Increments the reader count, and returns what it was.
    fn inc_reader_count(&mut self) -> (r: u64)
        requires
            old(self)@.readers < u64::MAX,
        ensures
            r == old(self)@.readers,
            final(self)@ == old(self)@.more(ChannelHalfDirection::Read),
    {
        let before: u64 = self.reader_count;
        self.reader_count = before + 1;
        before
    }

    /// Puts a message at the end of the queue.
    pub fn push(&mut self, message: Message)
        ensures
            final(self)@ == old(self)@.with_message(message@),
    {
        let ghost before = self.messages@;
        self.messages.push_back(message);
        assert(message_views(self.messages@) =~= message_views(before).push(message@));
    }

    /// Takes out the message at the front of the queue, if there is one. The halves in it
    /// are no longer looked after by the channel: see [`ChannelHalf`].
    pub fn pop(&mut self) -> (r: Option<Message>)
        ensures
            match r {
                Some(message) => {
                    &&& old(self)@.messages.len() > 0
                    &&& message@ == old(self)@.messages[0]
                    &&& final(self)@ == old(self)@.without_first()
                },
                None => {
                    &&& old(self)@.messages.len() == 0
                    &&& final(self)@ == old(self)@
                },
            },
    {
        let ghost before = self.messages@;
        let result = self.messages.pop_front();
        proof {
            if before.len() > 0 {
                assert(message_views(self.messages@) =~= message_views(before).drop_first());
            }
        }
        result
    }

    /// Returns the number of messages in the queue.
    pub fn message_count(&self) -> (r: usize)
        ensures
            r == self@.messages.len(),
    {
        self.messages.len()
    }

    /// Returns the message with the given number, counted from the front of the queue.
    pub fn message(&self, i: usize) -> (r: &Message)
        requires
            i < self@.messages.len(),
        ensures
            r@ == self@.messages[i as int],
    {
        &self.messages[i]
    }

    /// Returns the label of the channel.
    pub fn label(&self) -> (r: &Label)
        ensures
            r@ == self@.label,
    {
        &self.label
    }

    /// Returns a weak reference to the channel.
    pub fn downgrade(&self) -> (r: WeakChannel)
        ensures
            r@ == (WeakModel::To { table: self@.table, id: self@.id }),
    {
        WeakChannel { table: self.table, target: Some(self.id) }
    }

    /// Records that the given thread waits on the channel, in the slot of its identifier:
    /// an earlier entry of the same thread is replaced.
    pub fn add_waiter(&mut self, thread_id: ThreadId, thread: ThreadRef)
        ensures
            final(self)@ == old(self)@.with_waiter(thread_id, thread),
    {
        self.waiting_threads.insert(thread_id, thread);
    }

    /// Takes out all waiting threads, for the caller to wake those that still exist.
    pub fn wake_waiters(&mut self) -> (r: HashMap<ThreadId, ThreadRef>)
        ensures
            r@ == old(self)@.waiters,
            final(self)@ == old(self)@.woken(),
    {
        let mut waiters: HashMap<ThreadId, ThreadRef> = HashMap::new();
        std::mem::swap(&mut waiters, &mut self.waiting_threads);
        waiters
    }
}

impl ChannelHalf {
    /// Creates a half that refers to `channel`, and keeps the channel's counts up to date.
    pub fn new(channel: &mut Channel, direction: ChannelHalfDirection) -> (r: ChannelHalf)
        requires
            old(channel)@.count(direction) < u64::MAX,
        ensures
            r@ == old(channel)@.half(direction),
            final(channel)@ == old(channel)@.more(direction),
    {
        match direction {
            ChannelHalfDirection::Write => {
                channel.inc_writer_count();
            },
            ChannelHalfDirection::Read => {
                channel.inc_reader_count();
            },
        }
        ChannelHalf { table: channel.table, channel: channel.id, direction }
    }
}

/// Replacing a channel in the exec map replaces its model.
proof fn lemma_insert_view(m: Map<ChannelId, Channel>, id: ChannelId, c: Channel)
    ensures
        m.insert(id, c).map_values(|c: Channel| c@) == m.map_values(|c: Channel| c@).insert(
            id,
            c@,
        ),
        m.remove(id).insert(id, c) == m.insert(id, c),
        m.remove(id).map_values(|c: Channel| c@) == m.map_values(|c: Channel| c@).remove(id),
{
    assert(m.insert(id, c).map_values(|c: Channel| c@) =~= m.map_values(
        |c: Channel| c@,
    ).insert(id, c@));
    assert(m.remove(id).insert(id, c) =~= m.insert(id, c));
    assert(m.remove(id).map_values(|c: Channel| c@) =~= m.map_values(|c: Channel| c@).remove(
        id,
    ));
}

/// Removing an entry removes its model.
proof fn lemma_entry_removed(m: Map<ChannelId, WeakChannel>, k: ChannelId)
    ensures
        weak_views(m.remove(k)) == weak_views(m).remove(k),
{
    assert(weak_views(m.remove(k)) =~= weak_views(m).remove(k));
}

impl ChannelMapping {
    /// The state of the table is consistent: see [`MappingModel::wf`].
    pub open spec fn wf(&self) -> bool {
        self@.wf()
    }

    /// Drops one half: the single step of [`MappingModel::drop_one`]. What it releases goes
    /// on top of the stack, what it wakes goes to the end of `wakeups`.
    fn drop_top(
        &mut self,
        half: ChannelHalf,
        stack: &mut Vec<ChannelHalf>,
        wakeups: &mut Vec<Wakeup>,
    )
        requires
            old(self)@.live.contains_key(half@.id),
            old(self)@.live[half@.id].count(half@.direction) > 0,
        ensures
            final(self)@ == old(self)@.drop_one(half@).state,
            from_top(final(stack)@) == old(self)@.drop_one(half@).released + from_top(
                old(stack)@,
            ),
            wakeup_views(final(wakeups)@) == wakeup_views(old(wakeups)@) + old(self)@.drop_one(
                half@,
            ).wakeups,
    {
        let id: ChannelId = half.channel;
        let ghost m = self.channels@;
        let taken = self.channels.remove(&id);
        if let Some(mut channel) = taken {
            match half.direction {
                ChannelHalfDirection::Write => channel.dec_writer_count(),
                ChannelHalfDirection::Read => channel.dec_reader_count(),
            }
            let ghost step = old(self)@.drop_one(half@);
            if !channel.has_users() {
                // That was the last half: the channel goes, and leaves the table with it.
                self.entries.remove(&id);
                proof {
                    lemma_entry_removed(old(self).entries@, id);
                    lemma_insert_view(m, id, channel);
                }
                stack_released(channel.messages, stack);
                proof {
                    assert(wakeup_views(wakeups@) + step.wakeups =~= wakeup_views(wakeups@));
                    assert(self@.live =~= step.state.live);
                }
            } else {
                proof {
                    assert(step.released + from_top(stack@) =~= from_top(stack@));
                }
                if half.direction == ChannelHalfDirection::Write && channel.has_readers()
                    && !channel.has_writers() {
                    // This was the last writer to the channel: wake any waiters so they can
                    // be aware that the channel is orphaned.
                    let waiters = channel.wake_waiters();
                    let ghost before = wakeups@;
                    wakeups.push(Wakeup { channel: id, waiters });
                    proof {
                        assert(wakeup_views(wakeups@) =~= wakeup_views(before) + step.wakeups);
                    }
                } else {
                    proof {
                        assert(wakeup_views(wakeups@) + step.wakeups =~= wakeup_views(wakeups@));
                    }
                }
                proof {
                    lemma_insert_view(m, id, channel);
                }
                self.channels.insert(id, channel);
            }
        }
    }

    /// Drops the halves on the stack, from the top down, each followed by what it releases.
    fn drop_stack(&mut self, stack: Vec<ChannelHalf>) -> (r: Vec<Wakeup>)
        requires
            old(self)@.wf_with(from_top(stack@)),
        ensures
            final(self)@ == old(self)@.drop_all(from_top(stack@)),
            wakeup_views(r@) == old(self)@.drop_wakeups(from_top(stack@)),
    {
        let mut stack = stack;
        let mut wakeups: Vec<Wakeup> = Vec::new();
        let ghost pending = from_top(stack@);
        proof {
            assert(wakeup_views(wakeups@) + self@.drop_wakeups(pending) =~= self@.drop_wakeups(
                pending,
            ));
        }
        while stack.len() > 0
            invariant
                self@.wf_with(from_top(stack@)),
                self@.drop_all(from_top(stack@)) == old(self)@.drop_all(pending),
                wakeup_views(wakeups@) + self@.drop_wakeups(from_top(stack@)) == old(
                    self,
                )@.drop_wakeups(pending),
            decreases self@.live.dom().len(), stack.len(),
        {
            let ghost s = self@;
            let ghost before = from_top(stack@);
            let ghost woken = wakeup_views(wakeups@);
            let top = stack.pop();
            if let Some(half) = top {
                proof {
                    assert(before[0] == half@);
                    assert(from_top(stack@) =~= before.drop_first());
                    counting::lemma_pending_counted(s, before);
                    counting::lemma_drop_one(s, before);
                }
                self.drop_top(half, &mut stack, &mut wakeups);
                proof {
                    let step = s.drop_one(half@);
                    assert(woken + (step.wakeups + step.state.drop_wakeups(from_top(stack@)))
                        =~= (woken + step.wakeups) + step.state.drop_wakeups(from_top(stack@)));
                }
            }
        }
        proof {
            assert(from_top(stack@) =~= Seq::<Half>::empty());
            assert(wakeup_views(wakeups@) + self@.drop_wakeups(from_top(stack@))
                =~= wakeup_views(wakeups@));
        }
        wakeups
    }
}

} // verus!
