//! The mathematical model of channels and of the table that tracks them.
use crate::text;
use vstd::multiset::Multiset;
use vstd::prelude::*;

verus! {

/// An internal identifier to track a channel.
pub type ChannelId = u64;

/// The identifier of a thread that waits on a channel.
pub type ThreadId = u64;

/// The key under which the weak reference to a waiting thread is kept.
pub type ThreadRef = u64;

/// The direction of a channel half.
#[derive(PartialEq, Eq, Hash, Clone, Copy, Debug, Structural)]
pub enum ChannelHalfDirection {
    Read,
    Write,
}

/// What a channel half refers to: one end of one channel of one table.
pub struct Half {
    /// The mark of the table that the half belongs to: see [`MappingModel::table`].
    pub table: int,
    pub id: ChannelId,
    pub direction: ChannelHalfDirection,
}

/// A message: its bytes, and the channel halves that travel with it.
pub struct MessageModel {
    pub data: Seq<u8>,
    pub halves: Seq<Half>,
}

/// A channel object.
pub struct ChannelModel {
    /// The mark of the table that the channel belongs to.
    pub table: int,
    pub id: ChannelId,
    pub messages: Seq<MessageModel>,
    pub writers: nat,
    pub readers: nat,
    pub waiters: Map<ThreadId, ThreadRef>,
    pub label: Seq<char>,
}

/// A weak reference to a channel, which does not keep the channel in existence.
pub enum WeakModel {
    /// A reference that never referred to a channel.
    Dangling,
    /// A reference to the channel with the given identifier, which may be gone. Identifiers
    /// are not used again, so it refers to no other channel later on.
    To {
        table: int,
        id: ChannelId,
    },
}

/// The waiting threads that are to be woken on behalf of one channel.
pub struct WakeupModel {
    pub id: ChannelId,
    pub waiters: Map<ThreadId, ThreadRef>,
}

/// The state of the channel table.
pub struct MappingModel {
    /// A mark of the table, by which its halves and channels are told from those of other
    /// tables. Nothing is said of the mark that a new table gets, so there is no telling that
    /// two tables have the same one.
    pub table: int,
    /// The channel objects that exist.
    pub live: Map<ChannelId, ChannelModel>,
    /// What the table tracks: weak references to channels by identifier.
    pub entries: Map<ChannelId, WeakModel>,
    /// The identifier that the next channel gets.
    pub next_id: nat,
    /// The halves that exist outside of any queued message.
    pub held: Multiset<Half>,
}

/// The halves that travel in a queue of messages, in queue order.
pub open spec fn message_halves(messages: Seq<MessageModel>) -> Seq<Half>
    decreases messages.len(),
{
    if messages.len() == 0 {
        Seq::empty()
    } else {
        message_halves(messages.drop_last()) + messages.last().halves
    }
}

impl ChannelModel {
    /// A channel without messages, users or waiters.
    pub open spec fn fresh(table: int, id: ChannelId, label: Seq<char>) -> Self {
        ChannelModel {
            table,
            id,
            messages: Seq::empty(),
            writers: 0,
            readers: 0,
            waiters: Map::empty(),
            label,
        }
    }

    /// What a half of the given direction refers to, if it refers to this channel.
    pub open spec fn half(self, direction: ChannelHalfDirection) -> Half {
        Half { table: self.table, id: self.id, direction }
    }

    /// The halves that travel in the channel's messages.
    pub open spec fn halves(self) -> Seq<Half> {
        message_halves(self.messages)
    }

    /// The number of halves of the given direction that refer to the channel.
    pub open spec fn count(self, direction: ChannelHalfDirection) -> nat {
        match direction {
            ChannelHalfDirection::Read => self.readers,
            ChannelHalfDirection::Write => self.writers,
        }
    }

    /// The channel with one more half of the given direction.
    pub open spec fn more(self, direction: ChannelHalfDirection) -> Self {
        match direction {
            ChannelHalfDirection::Read => ChannelModel { readers: self.readers + 1, ..self },
            ChannelHalfDirection::Write => ChannelModel { writers: self.writers + 1, ..self },
        }
    }

    /// The channel with one half less of the given direction.
    pub open spec fn less(self, direction: ChannelHalfDirection) -> Self {
        match direction {
            ChannelHalfDirection::Read => ChannelModel {
                readers: (self.readers - 1) as nat,
                ..self
            },
            ChannelHalfDirection::Write => ChannelModel {
                writers: (self.writers - 1) as nat,
                ..self
            },
        }
    }

    /// Whether some half refers to the channel.
    pub open spec fn has_users(self) -> bool {
        self.readers > 0 || self.writers > 0
    }

    /// The channel after the given thread has begun to wait on it, in the slot of its
    /// identifier.
    pub open spec fn with_waiter(self, thread_id: ThreadId, thread: ThreadRef) -> Self {
        ChannelModel { waiters: self.waiters.insert(thread_id, thread), ..self }
    }

    /// The channel with one more message at the end of its queue.
    pub open spec fn with_message(self, m: MessageModel) -> Self {
        ChannelModel { messages: self.messages.push(m), ..self }
    }

    /// The channel without the message at the front of its queue.
    pub open spec fn without_first(self) -> Self {
        ChannelModel { messages: self.messages.drop_first(), ..self }
    }

    /// The channel after its waiters have been woken.
    pub open spec fn woken(self) -> Self {
        ChannelModel { waiters: Map::empty(), ..self }
    }
}

/// How often `h` occurs in the messages queued in channel `id`.
pub open spec fn queued_in(
    live: Map<ChannelId, ChannelModel>,
    id: ChannelId,
    h: Half,
) -> nat {
    if live.contains_key(id) {
        live[id].halves().to_multiset().count(h)
    } else {
        0
    }
}

/// How often `h` occurs in the messages queued in the channels whose identifier is below
/// `n`.
pub open spec fn queued(live: Map<ChannelId, ChannelModel>, n: nat, h: Half) -> nat
    decreases n,
{
    if n == 0 {
        0
    } else {
        queued(live, (n - 1) as nat, h) + queued_in(live, (n - 1) as ChannelId, h)
    }
}

/// How many halves equal to `h` the counts of the channels account for.
pub open spec fn counted(live: Map<ChannelId, ChannelModel>, h: Half) -> nat {
    if live.contains_key(h.id) && live[h.id].table == h.table {
        live[h.id].count(h.direction)
    } else {
        0
    }
}

/// The halves of a channel that were made while it went from `before` to `after`: as many
/// as its counts have grown by.
pub open spec fn made(before: ChannelModel, after: ChannelModel) -> Seq<Half> {
    Seq::new(
        (after.readers - before.readers) as nat,
        |i: int| before.half(ChannelHalfDirection::Read),
    ) + Seq::new(
        (after.writers - before.writers) as nat,
        |i: int| before.half(ChannelHalfDirection::Write),
    )
}

/// Whether every half is accounted for after an operation on a channel: what was in the
/// queue or was made is now in the queue, is handed out or is let go of, and what is there
/// besides was held.
pub open spec fn accounted(
    held: Multiset<Half>,
    before: ChannelModel,
    after: ChannelModel,
    handed_out: Seq<Half>,
    let_go: Seq<Half>,
) -> bool {
    let given = (before.halves() + made(before, after)).to_multiset();
    let found = (after.halves() + let_go + handed_out).to_multiset();
    given.subset_of(found) && found.subset_of(held.add(given))
}

/// Whether an operation may turn channel `before` into `after`: it is the same channel with
/// the same label, its counts have not gone down, and every half is accounted for.
pub open spec fn may_operate(
    held: Multiset<Half>,
    before: ChannelModel,
    after: ChannelModel,
    handed_out: Seq<Half>,
    let_go: Seq<Half>,
) -> bool {
    &&& after.table == before.table
    &&& after.id == before.id
    &&& after.label == before.label
    &&& after.readers >= before.readers
    &&& after.writers >= before.writers
    &&& accounted(held, before, after, handed_out, let_go)
}

/// Whether all references in `entries` are to channels that were created in the table with
/// the given mark, or to nothing.
pub open spec fn proper_entries(
    entries: Map<ChannelId, WeakModel>,
    table: int,
    next_id: nat,
) -> bool {
    forall|k: ChannelId| #[trigger]
        entries.contains_key(k) ==> match entries[k] {
            WeakModel::Dangling => true,
            WeakModel::To { table: t, id } => t == table && id < next_id,
        }
}

/// What dropping a single half does: the state after it, the halves that are dropped in its
/// wake, and the waiters that it wakes.
pub struct DropStep {
    pub state: MappingModel,
    pub released: Seq<Half>,
    pub wakeups: Seq<WakeupModel>,
}

impl MappingModel {
    /// The state of an empty table.
    pub open spec fn initial(table: int) -> Self {
        MappingModel {
            table,
            live: Map::empty(),
            entries: Map::empty(),
            next_id: 0,
            held: Multiset::empty(),
        }
    }

    /// The number of halves equal to `h` that exist, in messages and outside of them.
    pub open spec fn references(self, h: Half) -> nat {
        self.held.count(h) + queued(self.live, self.next_id, h)
    }

    /// The channel that a weak reference refers to, if it exists.
    pub open spec fn upgraded(self, weak: WeakModel) -> Option<ChannelId> {
        match weak {
            WeakModel::Dangling => None,
            WeakModel::To { table, id } => if table == self.table && self.live.contains_key(id) {
                Some(id)
            } else {
                None
            },
        }
    }

    /// The channel that the entry under the given identifier refers to, if there is such an
    /// entry and the channel exists.
    pub open spec fn entry(self, k: ChannelId) -> Option<ChannelId> {
        if self.entries.contains_key(k) {
            self.upgraded(self.entries[k])
        } else {
            None
        }
    }

    /// The counts of every channel are in step with the halves that exist, and a channel
    /// exists only as long as some half refers to it; `pending` are halves that are about
    /// to be dropped and count as existing.
    pub open spec fn wf_with(self, pending: Seq<Half>) -> bool {
        &&& self.live.dom().finite()
        &&& self.next_id <= u64::MAX
        &&& proper_entries(self.entries, self.table, self.next_id)
        &&& forall|id: ChannelId| #[trigger]
            self.live.contains_key(id) ==> {
                &&& id < self.next_id
                &&& self.live[id].id == id
                &&& self.live[id].table == self.table
                &&& self.live[id].has_users()
            }
        &&& forall|h: Half| #[trigger]
            self.references(h) + pending.to_multiset().count(h) == counted(self.live, h)
    }

    /// The counts of every channel equal the number of halves that refer to it, and a
    /// channel exists only as long as some half refers to it.
    pub open spec fn wf(self) -> bool {
        self.wf_with(Seq::empty())
    }

    /// The state with channel `id` replaced.
    pub open spec fn with_channel(self, id: ChannelId, c: ChannelModel) -> Self {
        MappingModel { live: self.live.insert(id, c), ..self }
    }

    /// The state with channel `id` gone, and its tracking entry with it.
    pub open spec fn without_channel(self, id: ChannelId) -> Self {
        MappingModel { live: self.live.remove(id), entries: self.entries.remove(id), ..self }
    }

    /// Drops one half. The count of its channel goes down. If that was the last writer and
    /// readers remain, the waiters are woken, to learn that the channel is orphaned. If no
    /// half is left, the channel goes, and the halves in its messages are released.
    pub open spec fn drop_one(self, h: Half) -> DropStep {
        if !self.live.contains_key(h.id) {
            DropStep { state: self, released: Seq::empty(), wakeups: Seq::empty() }
        } else {
            let c = self.live[h.id].less(h.direction);
            if !c.has_users() {
                DropStep {
                    state: self.without_channel(h.id),
                    released: c.halves(),
                    wakeups: Seq::empty(),
                }
            } else if h.direction is Write && c.readers > 0 && c.writers == 0 {
                DropStep {
                    state: self.with_channel(h.id, c.woken()),
                    released: Seq::empty(),
                    wakeups: seq![WakeupModel { id: h.id, waiters: c.waiters }],
                }
            } else {
                DropStep {
                    state: self.with_channel(h.id, c),
                    released: Seq::empty(),
                    wakeups: Seq::empty(),
                }
            }
        }
    }

    /// The state after the halves in `pending` have been dropped one after the other, each
    /// followed by the halves that it releases.
    pub open spec fn drop_all(self, pending: Seq<Half>) -> Self
        decreases self.live.dom().len(), pending.len(),
        when self.live.dom().finite()
    {
        if pending.len() == 0 {
            self
        } else {
            let step = self.drop_one(pending[0]);
            step.state.drop_all(step.released + pending.drop_first())
        }
    }

    /// The wakeups that `drop_all` brings about, in order.
    pub open spec fn drop_wakeups(self, pending: Seq<Half>) -> Seq<WakeupModel>
        decreases self.live.dom().len(), pending.len(),
        when self.live.dom().finite()
    {
        if pending.len() == 0 {
            Seq::empty()
        } else {
            let step = self.drop_one(pending[0]);
            step.wakeups + step.state.drop_wakeups(step.released + pending.drop_first())
        }
    }

    /// The state after the creation of a channel with the given label, whose writing and
    /// reading halves are handed out.
    pub open spec fn new_channel(self, label: Seq<char>) -> Self {
        let id = self.next_id as ChannelId;
        let fresh = ChannelModel::fresh(self.table, id, label);
        MappingModel {
            live: self.live.insert(
                id,
                fresh.more(ChannelHalfDirection::Write).more(ChannelHalfDirection::Read),
            ),
            entries: self.entries.insert(id, WeakModel::To { table: self.table, id }),
            next_id: self.next_id + 1,
            held: self.held.insert(fresh.half(ChannelHalfDirection::Write)).insert(
                fresh.half(ChannelHalfDirection::Read),
            ),
            ..self
        }
    }

    /// The state after a second half equal to `h` has been handed out.
    pub open spec fn clone_half(self, h: Half) -> Self {
        MappingModel {
            live: self.live.insert(h.id, self.live[h.id].more(h.direction)),
            held: self.held.insert(h),
            ..self
        }
    }

    /// The state in which `h` no longer counts as held, right before it is dropped.
    pub open spec fn give_back(self, h: Half) -> Self {
        MappingModel { held: self.held.remove(h), ..self }
    }

    /// The state after the held half `h` has been dropped.
    pub open spec fn drop_half(self, h: Half) -> Self {
        self.give_back(h).drop_all(seq![h])
    }

    /// The state after `m` has been put at the end of the queue of channel `id`: its halves
    /// now travel in the queue.
    pub open spec fn push_message(self, id: ChannelId, m: MessageModel) -> Self {
        MappingModel {
            live: self.live.insert(id, self.live[id].with_message(m)),
            held: self.held.sub(m.halves.to_multiset()),
            ..self
        }
    }

    /// The state after the message at the front of the queue of channel `id` has been taken
    /// out: its halves are now held.
    pub open spec fn pop_message(self, id: ChannelId) -> Self {
        MappingModel {
            live: self.live.insert(id, self.live[id].without_first()),
            held: self.held.add(self.live[id].messages[0].halves.to_multiset()),
            ..self
        }
    }

    /// The state after an operation has turned channel `id` into `after`, right before the
    /// halves in `let_go` are dropped: halves that left the queue or were made are now held,
    /// and halves that joined the queue or were let go of no longer are.
    pub open spec fn operated(
        self,
        id: ChannelId,
        after: ChannelModel,
        let_go: Seq<Half>,
    ) -> Self {
        let before = self.live[id];
        MappingModel {
            live: self.live.insert(id, after),
            held: self.held.add((before.halves() + made(before, after)).to_multiset()).sub(
                (after.halves() + let_go).to_multiset(),
            ),
            ..self
        }
    }

    /// The state after an operation has turned channel `id` into `after` and let go of the
    /// halves in `let_go`.
    pub open spec fn operate(
        self,
        id: ChannelId,
        after: ChannelModel,
        let_go: Seq<Half>,
    ) -> Self {
        self.operated(id, after, let_go).drop_all(let_go)
    }

    /// Whether some entry refers to channel `id`.
    pub open spec fn has_entry(self, id: ChannelId) -> bool {
        exists|k: ChannelId| #[trigger] self.entry(k) == Some(id)
    }

    /// The state after the waiters of the channel that an entry refers to have been woken.
    pub open spec fn notify_entry(self, k: ChannelId) -> Self {
        match self.entry(k) {
            Some(id) => self.with_channel(id, self.live[id].woken()),
            None => self,
        }
    }

    /// The state after the waiters of the channels that the given entries refer to have been
    /// woken.
    pub open spec fn notify_entries(self, order: Seq<ChannelId>) -> Self
        decreases order.len(),
    {
        if order.len() == 0 {
            self
        } else {
            self.notify_entries(order.drop_last()).notify_entry(order.last())
        }
    }

    /// The wakeups that `notify_entries` brings about, one for each entry that refers to a
    /// channel. Of several for the same channel, the first one has its waiters.
    pub open spec fn notify_wakeups(self, order: Seq<ChannelId>) -> Seq<WakeupModel>
        decreases order.len(),
    {
        if order.len() == 0 {
            Seq::empty()
        } else {
            let s = self.notify_entries(order.drop_last());
            self.notify_wakeups(order.drop_last()) + match s.entry(order.last()) {
                Some(id) => seq![WakeupModel { id, waiters: s.live[id].waiters }],
                None => Seq::empty(),
            }
        }
    }

    /// The state after the waiters of every channel that has an entry have been woken.
    pub open spec fn notify_all(self) -> Self {
        MappingModel {
            live: Map::new(
                |id: ChannelId| self.live.contains_key(id),
                |id: ChannelId|
                    if self.has_entry(id) {
                        self.live[id].woken()
                    } else {
                        self.live[id]
                    },
            ),
            ..self
        }
    }

    /// The state right after entry `k` and the messages of channel `id` have been taken out,
    /// before the halves in those messages are dropped.
    pub open spec fn emptied(self, k: ChannelId, id: ChannelId) -> Self {
        MappingModel {
            live: self.live.insert(
                id,
                ChannelModel { messages: Seq::empty(), ..self.live[id] },
            ),
            entries: self.entries.remove(k),
            ..self
        }
    }

    /// The state after entry `k` has been reaped: it is gone, and the messages that its
    /// channel held have been dropped.
    pub open spec fn gc_channel(self, k: ChannelId) -> Self {
        match self.entry(k) {
            Some(id) => self.emptied(k, id).drop_all(self.live[id].halves()),
            None => MappingModel { entries: self.entries.remove(k), ..self },
        }
    }

    /// The wakeups that `gc_channel` brings about.
    pub open spec fn gc_channel_wakeups(self, k: ChannelId) -> Seq<WakeupModel> {
        match self.entry(k) {
            Some(id) => self.emptied(k, id).drop_wakeups(self.live[id].halves()),
            None => Seq::empty(),
        }
    }

    /// What reaping entry `k` is reported as.
    pub open spec fn gc_channel_report(self, k: ChannelId) -> Seq<char> {
        if !self.entries.contains_key(k) {
            "not found"@
        } else if self.entry(k) is None {
            "found dangling weak ref"@
        } else {
            "dropped"@
        }
    }

    /// The state after the channels in `order` have been reaped, one after the other.
    pub open spec fn gc_all(self, order: Seq<ChannelId>) -> Self
        decreases order.len(),
    {
        if order.len() == 0 {
            self
        } else {
            self.gc_all(order.drop_last()).gc_channel(order.last())
        }
    }

    /// The wakeups that `gc_all` brings about, in order.
    pub open spec fn gc_wakeups(self, order: Seq<ChannelId>) -> Seq<WakeupModel>
        decreases order.len(),
    {
        if order.len() == 0 {
            Seq::empty()
        } else {
            self.gc_wakeups(order.drop_last()) + self.gc_all(
                order.drop_last(),
            ).gc_channel_wakeups(order.last())
        }
    }

    /// The report on reaping the channels in `order`.
    pub open spec fn gc_report(self, order: Seq<ChannelId>) -> Seq<char>
        decreases order.len(),
    {
        if order.len() == 0 {
            "<h2>Channel GC Result</h2>"@
        } else {
            self.gc_report(order.drop_last()) + "<p>Reaped Channel "@ + text::decimal(
                order.last() as nat,
            ) + ": "@ + self.gc_all(order.drop_last()).gc_channel_report(order.last())
        }
    }
}

} // verus!
