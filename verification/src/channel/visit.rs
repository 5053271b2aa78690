//! Which channels can be reached from a half.
use crate::channel::counting;
use crate::channel::model;
use crate::channel::model::{ChannelId, ChannelModel, Half, MessageModel};
use crate::channel::{ChannelHalf, ChannelMapping};
use std::collections::HashSet;
use vstd::prelude::*;

verus! {

broadcast use vstd::std_specs::hash::group_hash_axioms;

/// Whether a message in channel `a` carries a half of channel `b`.
pub open spec fn leads_to(live: Map<ChannelId, ChannelModel>, a: ChannelId, b: ChannelId) -> bool {
    live.contains_key(a) && exists|h: Half| #[trigger] live[a].halves().contains(h) && h.id == b
}

/// Whether `path` goes from channel to channel, along the halves in their messages, and
/// stays inside `within`.
pub open spec fn is_path(
    live: Map<ChannelId, ChannelModel>,
    within: Set<ChannelId>,
    path: Seq<ChannelId>,
) -> bool {
    &&& path.len() > 0
    &&& forall|i: int| 0 <= i < path.len() ==> within.contains(#[trigger] path[i])
    &&& forall|i: int, j: int|
        0 <= i && j == i + 1 && j < path.len() ==> leads_to(
            live,
            #[trigger] path[i],
            #[trigger] path[j],
        )
}

/// Whether `to` can be reached from `from` on a path that stays inside `within`.
pub open spec fn reachable(
    live: Map<ChannelId, ChannelModel>,
    within: Set<ChannelId>,
    from: ChannelId,
    to: ChannelId,
) -> bool {
    exists|path: Seq<ChannelId>| #[trigger]
        is_path(live, within, path) && path[0] == from && path.last() == to
}

/// The channels that can be reached from `from` on a path that stays inside `within`.
pub open spec fn reach(
    live: Map<ChannelId, ChannelModel>,
    within: Set<ChannelId>,
    from: ChannelId,
) -> Set<ChannelId> {
    Set::new(|to: ChannelId| reachable(live, within, from, to))
}

/// A channel reaches itself.
pub proof fn lemma_reach_self(
    live: Map<ChannelId, ChannelModel>,
    within: Set<ChannelId>,
    id: ChannelId,
)
    requires
        within.contains(id),
    ensures
        reachable(live, within, id, id),
{
    assert(is_path(live, within, seq![id]));
}

/// A path can be prolonged.
pub proof fn lemma_reach_further(
    live: Map<ChannelId, ChannelModel>,
    within: Set<ChannelId>,
    from: ChannelId,
    a: ChannelId,
    b: ChannelId,
)
    requires
        reachable(live, within, from, a),
        leads_to(live, a, b),
        within.contains(b),
    ensures
        reachable(live, within, from, b),
{
    let path = choose|path: Seq<ChannelId>| #[trigger]
        is_path(live, within, path) && path[0] == from && path.last() == a;
    let longer = path.push(b);
    assert(is_path(live, within, longer)) by {
        assert forall|i: int, j: int|
            0 <= i && j == i + 1 && j < longer.len() implies leads_to(
            live,
            #[trigger] longer[i],
            #[trigger] longer[j],
        ) by {
            if j < path.len() {
                assert(leads_to(live, path[i], path[j]));
            } else {
                assert(longer[i] == path.last());
            }
        }
    }
    assert(longer[0] == from && longer.last() == b);
}

/// What is reachable from a successor inside a part is reachable inside the whole.
pub proof fn lemma_reach_through(
    live: Map<ChannelId, ChannelModel>,
    part: Set<ChannelId>,
    within: Set<ChannelId>,
    from: ChannelId,
    next: ChannelId,
    to: ChannelId,
)
    requires
        part.subset_of(within),
        within.contains(from),
        leads_to(live, from, next),
        reachable(live, part, next, to),
    ensures
        reachable(live, within, from, to),
{
    let path = choose|path: Seq<ChannelId>| #[trigger]
        is_path(live, part, path) && path[0] == next && path.last() == to;
    let longer = seq![from] + path;
    assert(is_path(live, within, longer)) by {
        assert forall|i: int| 0 <= i < longer.len() implies within.contains(
            #[trigger] longer[i],
        ) by {
            if i > 0 {
                assert(part.contains(path[i - 1]));
            }
        }
        assert forall|i: int, j: int|
            0 <= i && j == i + 1 && j < longer.len() implies leads_to(
            live,
            #[trigger] longer[i],
            #[trigger] longer[j],
        ) by {
            if i > 0 {
                assert(leads_to(live, path[i - 1], path[j - 1]));
            }
        }
    }
    assert(longer[0] == from && longer.last() == to);
}

/// What is reachable inside a part is reachable inside the whole.
pub proof fn lemma_reach_wider(
    live: Map<ChannelId, ChannelModel>,
    part: Set<ChannelId>,
    within: Set<ChannelId>,
    from: ChannelId,
    to: ChannelId,
)
    requires
        forall|x: ChannelId| part.contains(x) ==> #[trigger] within.contains(x),
        reachable(live, part, from, to),
    ensures
        reachable(live, within, from, to),
{
    let path = choose|path: Seq<ChannelId>| #[trigger]
        is_path(live, part, path) && path[0] == from && path.last() == to;
    assert(is_path(live, within, path));
}

/// Every channel on a path is reachable from its start.
pub proof fn lemma_path_prefix(
    live: Map<ChannelId, ChannelModel>,
    within: Set<ChannelId>,
    path: Seq<ChannelId>,
    j: int,
)
    requires
        is_path(live, within, path),
        0 <= j < path.len(),
    ensures
        reachable(live, within, path[0], path[j]),
{
    let prefix = path.take(j + 1);
    assert(is_path(live, within, prefix));
    assert(prefix[0] == path[0] && prefix.last() == path[j]);
}

/// Whether no channel that has been taken out of `all` leads to one that is left.
pub open spec fn closed_off(
    live: Map<ChannelId, ChannelModel>,
    all: Set<ChannelId>,
    left: Set<ChannelId>,
) -> bool {
    forall|a: ChannelId, b: ChannelId|
        all.contains(a) && !left.contains(a) && #[trigger] leads_to(live, a, b)
            ==> !left.contains(b)
}

/// A path that starts outside of what is left never enters it.
pub proof fn lemma_path_stays_out(
    live: Map<ChannelId, ChannelModel>,
    all: Set<ChannelId>,
    left: Set<ChannelId>,
    path: Seq<ChannelId>,
    i: int,
)
    requires
        is_path(live, all, path),
        closed_off(live, all, left),
        !left.contains(path[0]),
        0 <= i < path.len(),
    ensures
        !left.contains(path[i]),
    decreases i,
{
    if i > 0 {
        lemma_path_stays_out(live, all, left, path, i - 1);
        assert(leads_to(live, path[i - 1], path[i]));
        assert(all.contains(path[i - 1]));
    }
}

/// If exactly reachable channels have been taken out, and nothing that was taken out leads
/// to what is left, what is left is what cannot be reached.
proof fn lemma_all_visited(
    live: Map<ChannelId, ChannelModel>,
    all: Set<ChannelId>,
    left: Set<ChannelId>,
    from: ChannelId,
)
    requires
        left.subset_of(all),
        !left.contains(from),
        closed_off(live, all, left),
        forall|x: ChannelId|
            #[trigger] all.contains(x) && !left.contains(x) ==> reachable(live, all, from, x),
    ensures
        left == all.difference(reach(live, all, from)),
{
    assert forall|x: ChannelId| left.contains(x) <==> all.difference(
        reach(live, all, from),
    ).contains(x) by {
        if left.contains(x) && reachable(live, all, from, x) {
            let path = choose|path: Seq<ChannelId>| #[trigger]
                is_path(live, all, path) && path[0] == from && path.last() == x;
            lemma_path_stays_out(live, all, left, path, path.len() - 1);
        }
    }
    assert(left =~= all.difference(reach(live, all, from)));
}

/// What a visit leaves is closed off from what it took out.
pub proof fn lemma_visit_closes(
    live: Map<ChannelId, ChannelModel>,
    all: Set<ChannelId>,
    from: ChannelId,
)
    ensures
        closed_off(live, all, all.difference(reach(live, all, from))),
        !all.difference(reach(live, all, from)).contains(from),
{
    let left = all.difference(reach(live, all, from));
    assert forall|a: ChannelId, b: ChannelId|
        all.contains(a) && !left.contains(a) && #[trigger] leads_to(live, a, b) implies
        !left.contains(b) by {
        if all.contains(b) {
            lemma_reach_further(live, all, from, a, b);
        }
    }
    if all.contains(from) {
        lemma_reach_self(live, all, from);
    }
}

/// A half that travels in a queue travels in one of its messages.
proof fn lemma_half_in_message(messages: Seq<MessageModel>, h: Half) -> (k: int)
    requires
        model::message_halves(messages).contains(h),
    ensures
        0 <= k < messages.len(),
        messages[k].halves.contains(h),
    decreases messages.len(),
{
    let front = model::message_halves(messages.drop_last());
    let i = choose|i: int|
        0 <= i < model::message_halves(messages).len() && model::message_halves(messages)[i] == h;
    if i < front.len() {
        assert(front[i] == h);
        lemma_half_in_message(messages.drop_last(), h)
    } else {
        assert(messages.last().halves[i - front.len()] == h);
        messages.len() - 1
    }
}

/// A half of a message travels in the queue.
proof fn lemma_message_in_queue(messages: Seq<MessageModel>, k: int, h: Half)
    requires
        0 <= k < messages.len(),
        messages[k].halves.contains(h),
    ensures
        model::message_halves(messages).contains(h),
    decreases messages.len(),
{
    let front = model::message_halves(messages.drop_last());
    let all = model::message_halves(messages);
    if k < messages.len() - 1 {
        lemma_message_in_queue(messages.drop_last(), k, h);
        let i = choose|i: int| 0 <= i < front.len() && front[i] == h;
        assert(all[i] == h);
    } else {
        let i = choose|i: int| 0 <= i < messages.last().halves.len() && messages.last().halves[i]
            == h;
        assert(all[front.len() + i] == h);
    }
}

/// The contents of a hash set are finite.
proof fn lemma_set_finite(set: &HashSet<ChannelId>)
    ensures
        set@.finite(),
{
    let all = vstd::std_specs::iter::IteratorSpec::remaining(&set.iter()).unref();
    assert(all.to_set() == set@);
    vstd::seq_lib::seq_to_set_is_finite(all);
}

impl ChannelMapping {
    /// Visits the [`Channel`](crate::channel::Channel) that `half` refers to, and those that
    /// can be reached from it through the halves in queued messages, and takes them out of
    /// the given set of as yet unvisited channels. A channel that is not in the set counts
    /// as visited, and is not looked into again.
    pub fn visit_half(&self, unvisited: &mut HashSet<ChannelId>, half: &ChannelHalf)
        requires
            self.wf(),
            self@.references(half@) > 0,
        ensures
            final(unvisited)@ == old(unvisited)@.difference(
                reach(self@.live, old(unvisited)@, half@.id),
            ),
        decreases old(unvisited)@.len(),
    {
        let ghost live = self@.live;
        let ghost all = unvisited@;
        proof {
            counting::lemma_referenced_live(self@, half@);
        }
        let channel_id: ChannelId = half.channel;
        if !unvisited.contains(&channel_id) {
            proof {
                lemma_all_visited(live, all, all, channel_id);
            }
            return;
        }
        proof {
            lemma_set_finite(unvisited);
            lemma_reach_self(live, all, channel_id);
        }
        unvisited.remove(&channel_id);
        let ghost rest = unvisited@;
        let channel = self.channels.get(&channel_id).unwrap();
        let ghost messages = channel@.messages;
        let mut i: usize = 0;
        while i < channel.messages.len()
            invariant
                self.wf(),
                live == self@.live,
                live.contains_key(channel_id),
                messages == live[channel_id].messages,
                messages == super::message_views(channel.messages@),
                all == old(unvisited)@,
                all.finite(),
                all.contains(channel_id),
                rest == all.remove(channel_id),
                i <= channel.messages.len(),
                unvisited@.subset_of(rest),
                closed_off(live, rest, unvisited@),
                forall|x: ChannelId|
                    #[trigger] all.contains(x) && !unvisited@.contains(x) ==> reachable(
                        live,
                        all,
                        channel_id,
                        x,
                    ),
                forall|k: int, l: int|
                    0 <= k < i && 0 <= l < messages[k].halves.len() ==> !unvisited@.contains(
                        (#[trigger] messages[k].halves[l]).id,
                    ),
            decreases channel.messages.len() - i,
        {
            let message = &channel.messages[i];
            let mut j: usize = 0;
            assert(messages[i as int] == message@);
            while j < message.channels.len()
                invariant
                    self.wf(),
                    live == self@.live,
                    live.contains_key(channel_id),
                    messages == live[channel_id].messages,
                    all == old(unvisited)@,
                    all.finite(),
                    all.contains(channel_id),
                    rest == all.remove(channel_id),
                    i < messages.len(),
                    messages[i as int] == message@,
                    j <= message.channels.len(),
                    unvisited@.subset_of(rest),
                    closed_off(live, rest, unvisited@),
                    forall|x: ChannelId|
                        #[trigger] all.contains(x) && !unvisited@.contains(x) ==> reachable(
                            live,
                            all,
                            channel_id,
                            x,
                        ),
                    forall|k: int, l: int|
                        0 <= k < i && 0 <= l < messages[k].halves.len() ==> !unvisited@.contains(
                            (#[trigger] messages[k].halves[l]).id,
                        ),
                    forall|l: int|
                        0 <= l < j ==> !unvisited@.contains(
                            (#[trigger] messages[i as int].halves[l]).id,
                        ),
                decreases message.channels.len() - j,
            {
                let next = &message.channels[j];
                let ghost before = unvisited@;
                proof {
                    let h = next@;
                    assert(messages[i as int].halves[j as int] == h);
                    lemma_message_in_queue(messages, i as int, h);
                    assert(live[channel_id].halves().contains(h));
                    assert(leads_to(live, channel_id, h.id));
                    counting::lemma_queued_half_live(self@, channel_id, h);
                    vstd::set_lib::lemma_len_subset(before, rest);
                }
                self.visit_half(unvisited, next);
                proof {
                    lemma_visit_closes(live, before, next@.id);
                    assert forall|x: ChannelId|
                        #[trigger] all.contains(x) && !unvisited@.contains(x) implies reachable(
                        live,
                        all,
                        channel_id,
                        x,
                    ) by {
                        if before.contains(x) {
                            lemma_reach_through(live, before, all, channel_id, next@.id, x);
                        }
                    }
                    assert(closed_off(live, rest, unvisited@)) by {
                        assert forall|a: ChannelId, b: ChannelId|
                            rest.contains(a) && !unvisited@.contains(a) && #[trigger] leads_to(
                                live,
                                a,
                                b,
                            ) implies !unvisited@.contains(b) by {
                            if before.contains(a) {
                            } else {
                                assert(!before.contains(b));
                            }
                        }
                    }
                }
                j = j + 1;
            }
            i = i + 1;
        }
        proof {
            let left = unvisited@;
            assert forall|a: ChannelId, b: ChannelId|
                all.contains(a) && !left.contains(a) && #[trigger] leads_to(live, a, b) implies
                !left.contains(b) by {
                if a == channel_id {
                    let h = choose|h: Half| #[trigger]
                        live[a].halves().contains(h) && h.id == b;
                    let k = lemma_half_in_message(messages, h);
                    let l = choose|l: int|
                        0 <= l < messages[k].halves.len() && messages[k].halves[l] == h;
                    assert(!left.contains(messages[k].halves[l].id));
                } else {
                    assert(rest.contains(a));
                }
            }
            lemma_all_visited(live, all, left, channel_id);
        }
    }
}

} // verus!
