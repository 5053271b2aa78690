//! What visiting and reaping achieve together: the channels that can still be reached stay,
//! and the others go, even where they keep each other alive.
use crate::channel::counting;
use crate::channel::laws;
use crate::channel::model::{ChannelId, ChannelModel, Half, MappingModel, MessageModel};
use crate::channel::visit;
use vstd::prelude::*;

verus! {

/// What is left of `all` after visits from each of the given channels, one after the other.
pub open spec fn visit_all(
    live: Map<ChannelId, ChannelModel>,
    all: Set<ChannelId>,
    starts: Seq<ChannelId>,
) -> Set<ChannelId>
    decreases starts.len(),
{
    if starts.len() == 0 {
        all
    } else {
        let left = visit_all(live, all, starts.drop_last());
        left.difference(visit::reach(live, left, starts.last()))
    }
}

/// Whether `id` can be reached from one of the given channels.
pub open spec fn reachable_from_any(
    live: Map<ChannelId, ChannelModel>,
    all: Set<ChannelId>,
    starts: Seq<ChannelId>,
    id: ChannelId,
) -> bool {
    exists|k: int|
        0 <= k < starts.len() && visit::reachable(live, all, #[trigger] starts[k], id)
}

/// Visits from several channels take out exactly what can be reached from one of them,
/// although each visit stops at channels that an earlier one has seen.
pub proof fn law_visits_find_reachable(
    live: Map<ChannelId, ChannelModel>,
    all: Set<ChannelId>,
    starts: Seq<ChannelId>,
)
    ensures
        forall|id: ChannelId| #[trigger]
            visit_all(live, all, starts).contains(id) <==> all.contains(id)
                && !reachable_from_any(live, all, starts, id),
        visit::closed_off(live, all, visit_all(live, all, starts)),
    decreases starts.len(),
{
    let left = visit_all(live, all, starts);
    if starts.len() == 0 {
        assert(visit::closed_off(live, all, all));
    } else {
        let front = starts.drop_last();
        let from = starts.last();
        let before = visit_all(live, all, front);
        law_visits_find_reachable(live, all, front);
        visit::lemma_visit_closes(live, before, from);
        assert forall|a: ChannelId, b: ChannelId|
            all.contains(a) && !left.contains(a) && #[trigger] visit::leads_to(
                live,
                a,
                b,
            ) implies !left.contains(b) by {
            if !before.contains(a) {
                assert(!before.contains(b));
            }
        }
        assert forall|id: ChannelId| #[trigger]
            left.contains(id) <==> all.contains(id) && !reachable_from_any(
                live,
                all,
                starts,
                id,
            ) by {
            if all.contains(id) && reachable_from_any(live, all, starts, id) && left.contains(id) {
                let k = choose|k: int|
                    0 <= k < starts.len() && visit::reachable(live, all, #[trigger] starts[k], id);
                if k < front.len() {
                    assert(front[k] == starts[k]);
                    assert(reachable_from_any(live, all, front, id));
                } else {
                    let path = choose|path: Seq<ChannelId>| #[trigger]
                        visit::is_path(live, all, path) && path[0] == from && path.last() == id;
                    visit::lemma_path_stays_out(live, all, left, path, path.len() - 1);
                }
            }
            if all.contains(id) && !left.contains(id) {
                if before.contains(id) {
                    visit::lemma_reach_wider(live, before, all, from, id);
                    assert(starts[starts.len() - 1] == from);
                } else {
                    let k = choose|k: int|
                        0 <= k < front.len() && visit::reachable(
                            live,
                            all,
                            #[trigger] front[k],
                            id,
                        );
                    assert(starts[k] == front[k]);
                }
            }
        }
    }
}

/// What reaping one channel leaves alone.
proof fn lemma_gc_channel_frame(s: MappingModel, id: ChannelId)
    requires
        s.wf(),
        laws::own_entries(s),
    ensures
        forall|x: ChannelId| #[trigger]
            s.gc_channel(id).live.contains_key(x) ==> s.live.contains_key(x)
                && s.gc_channel(id).live[x].messages == (if x == id && s.entries.contains_key(id) {
                Seq::<MessageModel>::empty()
            } else {
                s.live[x].messages
            }),
        forall|x: ChannelId| #[trigger]
            s.gc_channel(id).entries.contains_key(x) ==> s.entries.contains_key(x) && x != id,
        forall|x: ChannelId|
            x != id && s.entries.contains_key(x) && #[trigger] s.gc_channel(id).live.contains_key(x)
                ==> s.gc_channel(id).entries.contains_key(x),
{
    if s.entries.contains_key(id) && s.live.contains_key(id) {
        assert(s.entry(id) == Some(id));
        let e = s.emptied(id, id);
        assert(e.live.dom() =~= s.live.dom());
        laws::lemma_drop_all_frame(e, s.live[id].halves());
        let t = s.gc_channel(id);
        assert forall|x: ChannelId|
            x != id && s.entries.contains_key(x) && #[trigger] t.live.contains_key(x) implies
            t.entries.contains_key(x) by {
            assert(e.entries.contains_key(x));
        }
        assert forall|x: ChannelId| #[trigger] t.entries.contains_key(x) implies s.entries.contains_key(
            x,
        ) && x != id by {
            assert(e.entries.contains_key(x));
        }
    }
}

/// What reaping several channels leaves alone, and what it empties.
proof fn lemma_gc_all_frame(s: MappingModel, order: Seq<ChannelId>)
    requires
        s.wf(),
        laws::own_entries(s),
    ensures
        forall|x: ChannelId| #[trigger]
            s.gc_all(order).live.contains_key(x) ==> {
                &&& s.live.contains_key(x)
                &&& !order.contains(x) ==> s.gc_all(order).live[x].messages == s.live[x].messages
                &&& order.contains(x) && s.entries.contains_key(x) ==> s.gc_all(
                    order,
                ).live[x].messages == Seq::<MessageModel>::empty()
                &&& !order.contains(x) && s.entries.contains_key(x) ==> s.gc_all(
                    order,
                ).entries.contains_key(x)
            },
        forall|x: ChannelId| #[trigger]
            s.gc_all(order).entries.contains_key(x) ==> s.entries.contains_key(x) && !order.contains(x),
    decreases order.len(),
{
    if order.len() > 0 {
        let front = order.drop_last();
        let id = order.last();
        let u = s.gc_all(front);
        let g = s.gc_all(order);
        lemma_gc_all_frame(s, front);
        counting::lemma_gc_all(s, front);
        laws::law_gc_leaves_no_dangling_entries(s, front);
        lemma_gc_channel_frame(u, id);
        assert forall|x: ChannelId| order.contains(x) <==> (front.contains(x) || x == id) by {
            assert(order =~= front.push(id));
            if front.contains(x) {
                let j = choose|j: int| 0 <= j < front.len() && front[j] == x;
                assert(order[j] == x);
            }
            if order.contains(x) && x != id {
                let j = choose|j: int| 0 <= j < order.len() && order[j] == x;
                assert(front[j] == x);
            }
            assert(order[order.len() - 1] == id);
        }
        assert forall|x: ChannelId| #[trigger] g.live.contains_key(x) implies {
            &&& s.live.contains_key(x)
            &&& !order.contains(x) ==> g.live[x].messages == s.live[x].messages
            &&& order.contains(x) && s.entries.contains_key(x) ==> g.live[x].messages == Seq::<
                MessageModel,
            >::empty()
            &&& !order.contains(x) && s.entries.contains_key(x) ==> g.entries.contains_key(x)
        } by {
            assert(u.live.contains_key(x));
            if x == id && s.entries.contains_key(x) && !front.contains(x) {
                assert(u.entries.contains_key(x));
            }
        }
        assert forall|x: ChannelId| #[trigger] g.entries.contains_key(x) implies s.entries.contains_key(
            x,
        ) && !order.contains(x) by {
            assert(u.entries.contains_key(x));
        }
    }
}

/// Reaping never takes a channel away from under a half that is held.
pub proof fn law_gc_keeps_held(s: MappingModel, order: Seq<ChannelId>, h: Half)
    requires
        s.wf(),
        s.held.count(h) > 0,
    ensures
        s.gc_all(order).live.contains_key(h.id),
        s.gc_all(order).held == s.held,
{
    counting::lemma_gc_all(s, order);
    counting::lemma_referenced_live(s.gc_all(order), h);
}

/// Channels that are referred to from each other's messages alone go when they are all
/// reaped, however their references are knotted.
pub proof fn law_gc_reclaims_cycles(s: MappingModel, order: Seq<ChannelId>, id: ChannelId)
    requires
        s.wf(),
        laws::own_entries(s),
        order.contains(id),
        forall|x: ChannelId| order.contains(x) ==> #[trigger] s.entries.contains_key(x),
        forall|h: Half| #[trigger] s.held.count(h) > 0 ==> !order.contains(h.id),
        forall|a: ChannelId, b: ChannelId|
            !order.contains(a) && #[trigger] visit::leads_to(s.live, a, b) ==> !order.contains(b),
    ensures
        !s.gc_all(order).live.contains_key(id),
        !s.gc_all(order).entries.contains_key(id),
{
    let g = s.gc_all(order);
    counting::lemma_gc_all(s, order);
    lemma_gc_all_frame(s, order);
    if g.live.contains_key(id) {
        laws::law_live_while_referenced(g, id);
        let h = choose|h: Half| h.id == id && #[trigger] g.references(h) > 0;
        assert(s.held.count(h) == 0);
        let a = counting::lemma_queued_somewhere(g.live, g.next_id, h);
        assert(g.live.contains_key(a));
        if order.contains(a) {
            assert(s.entries.contains_key(a));
            assert(g.live[a].halves() =~= Seq::<Half>::empty());
        } else {
            assert(g.live[a].messages == s.live[a].messages);
            assert(s.live[a].halves().contains(h));
            assert(visit::leads_to(s.live, a, id));
        }
    }
}

/// Whether `id` can be reached from a half that is held.
pub open spec fn reachable_from_held(s: MappingModel, id: ChannelId) -> bool {
    exists|h: Half| #[trigger]
        s.held.count(h) > 0 && visit::reachable(s.live, s.entries.dom(), h.id, id)
}

/// A channel on a path from a held half stays, with its messages, if no channel on the path
/// is reaped.
proof fn lemma_path_survives(
    s: MappingModel,
    order: Seq<ChannelId>,
    h: Half,
    path: Seq<ChannelId>,
    i: int,
)
    requires
        s.wf(),
        laws::own_entries(s),
        s.held.count(h) > 0,
        visit::is_path(s.live, s.entries.dom(), path),
        path[0] == h.id,
        forall|j: int| 0 <= j < path.len() ==> !order.contains(#[trigger] path[j]),
        0 <= i < path.len(),
    ensures
        s.gc_all(order).live.contains_key(path[i]),
    decreases i,
{
    let g = s.gc_all(order);
    counting::lemma_gc_all(s, order);
    lemma_gc_all_frame(s, order);
    if i == 0 {
        counting::lemma_referenced_live(g, h);
    } else {
        lemma_path_survives(s, order, h, path, i - 1);
        let a = path[i - 1];
        assert(visit::leads_to(s.live, a, path[i]));
        let next = choose|n: Half| #[trigger]
            s.live[a].halves().contains(n) && n.id == path[i];
        assert(g.live[a].messages == s.live[a].messages);
        counting::lemma_queued_half_live(g, a, next);
    }
}

/// What can be reached from a held half exists.
proof fn lemma_reached_is_live(s: MappingModel, h: Half, id: ChannelId)
    requires
        s.wf(),
        s.held.count(h) > 0,
        visit::reachable(s.live, s.entries.dom(), h.id, id),
    ensures
        s.live.contains_key(id),
{
    let path = choose|path: Seq<ChannelId>| #[trigger]
        visit::is_path(s.live, s.entries.dom(), path) && path[0] == h.id && path.last() == id;
    if path.len() == 1 {
        counting::lemma_referenced_live(s, h);
    } else {
        let a = path[path.len() - 2];
        assert(visit::leads_to(s.live, a, path[path.len() - 1]));
        let next = choose|n: Half| #[trigger] s.live[a].halves().contains(n) && n.id == id;
        counting::lemma_queued_half_live(s, a, next);
    }
}

/// Garbage collection is exact. Where every channel has its entry, and the entries that cannot
/// be reached from a held half are reaped, in whatever order, what is left are the channels
/// that can be reached, each with its messages and its entry. Entries whose channel no longer
/// exists go, too.
pub proof fn law_gc_is_exact(s: MappingModel, order: Seq<ChannelId>)
    requires
        s.wf(),
        laws::own_entries(s),
        s.live.dom().subset_of(s.entries.dom()),
        forall|id: ChannelId| #[trigger]
            order.contains(id) <==> s.entries.contains_key(id) && !reachable_from_held(s, id),
    ensures
        forall|id: ChannelId| #[trigger]
            s.gc_all(order).live.contains_key(id) <==> s.live.contains_key(id)
                && reachable_from_held(s, id),
        forall|id: ChannelId| #[trigger]
            s.gc_all(order).live.contains_key(id) ==> s.gc_all(order).live[id].messages
                == s.live[id].messages,
        s.gc_all(order).entries.dom() == s.gc_all(order).live.dom(),
{
    let g = s.gc_all(order);
    counting::lemma_gc_all(s, order);
    lemma_gc_all_frame(s, order);
    assert forall|h: Half| #[trigger] s.held.count(h) > 0 implies !order.contains(h.id) by {
        counting::lemma_referenced_live(s, h);
        assert(s.live.dom().contains(h.id));
        visit::lemma_reach_self(s.live, s.entries.dom(), h.id);
        assert(reachable_from_held(s, h.id));
    }
    assert forall|a: ChannelId, b: ChannelId|
        !order.contains(a) && #[trigger] visit::leads_to(s.live, a, b) implies !order.contains(
        b,
    ) by {
        if s.entries.contains_key(b) {
            assert(s.live.dom().contains(a));
            assert(s.entries.contains_key(a));
            assert(reachable_from_held(s, a));
            let h = choose|h: Half| #[trigger]
                s.held.count(h) > 0 && visit::reachable(s.live, s.entries.dom(), h.id, a);
            visit::lemma_reach_further(s.live, s.entries.dom(), h.id, a, b);
            assert(reachable_from_held(s, b));
        }
    }
    assert forall|id: ChannelId| #[trigger] g.live.contains_key(id) <==> s.live.contains_key(id)
        && reachable_from_held(s, id) by {
        if g.live.contains_key(id) && order.contains(id) {
            law_gc_reclaims_cycles(s, order, id);
        }
        if g.live.contains_key(id) {
            assert(s.live.dom().contains(id));
        }
        if s.live.contains_key(id) && reachable_from_held(s, id) {
            let h = choose|h: Half| #[trigger]
                s.held.count(h) > 0 && visit::reachable(s.live, s.entries.dom(), h.id, id);
            let path = choose|path: Seq<ChannelId>| #[trigger]
                visit::is_path(s.live, s.entries.dom(), path) && path[0] == h.id && path.last() == id;
            assert forall|j: int| 0 <= j < path.len() implies !order.contains(
                #[trigger] path[j],
            ) by {
                visit::lemma_path_prefix(s.live, s.entries.dom(), path, j);
                assert(reachable_from_held(s, path[j]));
            }
            lemma_path_survives(s, order, h, path, path.len() - 1);
        }
    }
    assert forall|id: ChannelId| g.live.dom().contains(id) implies g.entries.contains_key(id) by {
        assert(g.live.contains_key(id));
        assert(s.live.dom().contains(id));
    }
    assert forall|id: ChannelId| g.entries.contains_key(id) implies g.live.dom().contains(id) by {
        assert(!order.contains(id));
        let h = choose|h: Half| #[trigger]
            s.held.count(h) > 0 && visit::reachable(s.live, s.entries.dom(), h.id, id);
        lemma_reached_is_live(s, h, id);
        assert(g.live.contains_key(id));
    }
    assert(g.entries.dom() =~= g.live.dom());
}

/// Visiting every held half and reaping what is left is exact: if each channel has an entry
/// and all start out unvisited, what a visit from each held half leaves is what cannot be
/// reached from one.
pub proof fn law_visits_then_gc(s: MappingModel, starts: Seq<ChannelId>, order: Seq<ChannelId>)
    requires
        s.wf(),
        laws::own_entries(s),
        s.live.dom().subset_of(s.entries.dom()),
        forall|h: Half| #[trigger] s.held.count(h) > 0 ==> starts.contains(h.id),
        forall|k: int|
            0 <= k < starts.len() ==> exists|h: Half| #[trigger]
                s.held.count(h) > 0 && h.id == #[trigger] starts[k],
        order.to_set() == visit_all(s.live, s.entries.dom(), starts),
    ensures
        forall|id: ChannelId| #[trigger]
            s.gc_all(order).live.contains_key(id) <==> s.live.contains_key(id)
                && reachable_from_held(s, id),
        forall|id: ChannelId| #[trigger]
            s.gc_all(order).live.contains_key(id) ==> s.gc_all(order).live[id].messages
                == s.live[id].messages,
        s.gc_all(order).entries.dom() == s.gc_all(order).live.dom(),
{
    law_visits_find_reachable(s.live, s.entries.dom(), starts);
    assert forall|id: ChannelId| #[trigger] order.contains(id) <==> s.entries.contains_key(id)
        && !reachable_from_held(s, id) by {
        assert(order.contains(id) <==> order.to_set().contains(id));
        if reachable_from_held(s, id) {
            let h = choose|h: Half| #[trigger]
                s.held.count(h) > 0 && visit::reachable(s.live, s.entries.dom(), h.id, id);
            let k = choose|k: int| 0 <= k < starts.len() && starts[k] == h.id;
            assert(visit::reachable(s.live, s.entries.dom(), starts[k], id));
        }
        if reachable_from_any(s.live, s.entries.dom(), starts, id) {
            let k = choose|k: int|
                0 <= k < starts.len() && visit::reachable(
                    s.live,
                    s.entries.dom(),
                    #[trigger] starts[k],
                    id,
                );
            let h = choose|h: Half| #[trigger] s.held.count(h) > 0 && h.id == starts[k];
            assert(s.held.count(h) > 0 && visit::reachable(s.live, s.entries.dom(), h.id, id));
        }
    }
    law_gc_is_exact(s, order);
}

} // verus!
