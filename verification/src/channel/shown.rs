//! What the diagnostic texts show, spelled out.
use crate::channel::laws;
use crate::channel::model::{
    ChannelHalfDirection, ChannelId, Half, MappingModel, MessageModel, WeakModel,
};
use crate::channel::pages;
use crate::sorted;
use crate::text;
use vstd::prelude::*;

verus! {

/// The text of the last piece comes last.
proof fn lemma_pieces(pieces: Seq<Seq<char>>)
    requires
        pieces.len() > 0,
    ensures
        pieces.flatten() == pieces.drop_last().flatten() + pieces.last(),
{
    pieces.lemma_flatten_and_flatten_alt_are_equivalent();
    pieces.drop_last().lemma_flatten_and_flatten_alt_are_equivalent();
}

/// A channel has its identifier in its name and in the path of its page.
pub proof fn law_names_show_the_identifier(id: ChannelId)
    ensures
        pages::dot_name(id) == "channel"@ + text::decimal(id as nat),
        pages::page_path(id) == "/channel/"@ + text::decimal(id as nat),
{
}

/// A half is shown with its channel's identifier and its direction.
pub proof fn law_half_is_shown(h: Half)
    ensures
        h.direction is Write ==> pages::half_text(h) == "Channel "@ + text::decimal(h.id as nat)
            + " "@ + "WRITE"@,
        h.direction is Read ==> pages::half_text(h) == "Channel "@ + text::decimal(h.id as nat)
            + " "@ + "READ"@,
{
}

/// A channel is shown with its identifier, the numbers of the read halves and of the write
/// halves that refer to it, and its label.
pub proof fn law_channel_is_shown(s: MappingModel, id: ChannelId)
    requires
        s.wf(),
        s.live.contains_key(id),
    ensures
        pages::channel_text(s.live[id]) == "Channel { id="@ + text::decimal(id as nat)
            + ", #readers="@ + text::decimal(
            s.references(Half { table: s.table, id, direction: ChannelHalfDirection::Read }),
        ) + ", #writers="@ + text::decimal(
            s.references(Half { table: s.table, id, direction: ChannelHalfDirection::Write }),
        ) + ", label="@ + s.live[id].label + " }"@,
{
    laws::law_counts_are_references(s, id);
}

/// The links of the first `n` halves are the links of each, separated by commas.
proof fn lemma_half_links(halves: Seq<Half>, links: Seq<Seq<char>>)
    requires
        links.len() <= halves.len(),
        forall|j: int|
            0 <= j < links.len() ==> #[trigger] links[j] == if j == 0 {
                pages::half_link(halves[j])
            } else {
                ", "@ + pages::half_link(halves[j])
            },
    ensures
        pages::half_links(halves, links.len()) == links.flatten(),
    decreases links.len(),
{
    if links.len() == 0 {
        assert(links.flatten() =~= Seq::<char>::empty());
    } else {
        let front = links.drop_last();
        lemma_half_links(halves, front);
        lemma_pieces(links);
        if links.len() == 1 {
            assert(front.flatten() =~= Seq::<char>::empty());
            assert(links.flatten() =~= pages::half_link(halves[0]));
        } else {
            assert(pages::half_links(halves, links.len()) =~= front.flatten() + links.last());
        }
    }
}

/// The list items of the first messages, one after the other.
proof fn lemma_message_items(messages: Seq<MessageModel>, items: Seq<Seq<char>>)
    requires
        items.len() <= messages.len(),
        forall|i: int|
            0 <= i < items.len() ==> #[trigger] items[i] == pages::message_item(
                i as nat,
                messages[i],
            ),
    ensures
        pages::message_items(messages, items.len()) == items.flatten(),
    decreases items.len(),
{
    if items.len() == 0 {
        assert(items.flatten() =~= Seq::<char>::empty());
    } else {
        lemma_message_items(messages, items.drop_last());
        lemma_pieces(items);
    }
}

/// The page of a channel shows its identifier, the numbers of the read halves and of the
/// write halves that refer to it, its label and the number of its messages. An item for each
/// message follows, in queue order, with its number, the length of its data, and a link to
/// the channel of each of its halves.
pub proof fn law_channel_page_shows_the_channel(
    s: MappingModel,
    id: ChannelId,
    items: Seq<Seq<char>>,
    links: Seq<Seq<Seq<char>>>,
)
    requires
        s.wf(),
        s.live.contains_key(id),
        items.len() == s.live[id].messages.len(),
        links.len() == items.len(),
        forall|i: int|
            0 <= i < items.len() ==> #[trigger] items[i] == "  <li>message["@ + text::decimal(
                i as nat,
            ) + "]: data.len()="@ + text::decimal(s.live[id].messages[i].data.len())
                + ", halves=["@ + links[i].flatten() + "]"@,
        forall|i: int|
            0 <= i < items.len() ==> (#[trigger] links[i]).len()
                == s.live[id].messages[i].halves.len(),
        forall|i: int, j: int|
            0 <= i < items.len() && 0 <= j < links[i].len() ==> #[trigger] links[i][j] == {
                let h = s.live[id].messages[i].halves[j];
                let link = "<a href=\""@ + ("/channel/"@ + text::decimal(h.id as nat)) + "\">"@ + (
                "Channel "@ + text::decimal(h.id as nat) + " "@ + if h.direction is Write {
                    "WRITE"@
                } else {
                    "READ"@
                }) + "</a>"@;
                if j == 0 {
                    link
                } else {
                    ", "@ + link
                }
            },
    ensures
        pages::channel_page(s.live[id]) == "Channel { id="@ + text::decimal(id as nat)
            + ", reader_count="@ + text::decimal(
            s.references(Half { table: s.table, id, direction: ChannelHalfDirection::Read }),
        ) + ", writer_count="@ + text::decimal(
            s.references(Half { table: s.table, id, direction: ChannelHalfDirection::Write }),
        ) + ", label="@ + s.live[id].label + " }<br/>"@ + "Messages: (count = "@ + text::decimal(
            s.live[id].messages.len(),
        ) + "):<ul>"@ + items.flatten(),
{
    laws::law_counts_are_references(s, id);
    let messages = s.live[id].messages;
    assert forall|i: int| 0 <= i < items.len() implies #[trigger] items[i] == pages::message_item(
        i as nat,
        messages[i],
    ) by {
        let of_message = links[i];
        assert(of_message.len() == messages[i].halves.len());
        assert forall|j: int| 0 <= j < of_message.len() implies #[trigger] of_message[j] == if j
            == 0 {
            pages::half_link(messages[i].halves[j])
        } else {
            ", "@ + pages::half_link(messages[i].halves[j])
        } by {
            assert(links[i][j] == of_message[j]);
        }
        lemma_half_links(messages[i].halves, of_message);
    }
    lemma_message_items(messages, items);
}

/// The page of an identifier is that of the channel that its entry refers to. Where that
/// does not exist, it says so, and where there is no entry, there is no page.
pub proof fn law_page_follows_the_entry(s: MappingModel, k: ChannelId)
    requires
        s.wf(),
    ensures
        !s.entries.contains_key(k) ==> pages::entry_page(s, k) == None::<Seq<char>>,
        s.entries.contains_key(k) ==> pages::entry_page(s, k) == Some(
            match s.entries[k] {
                WeakModel::Dangling => "Weak reference to Channel { id="@ + text::decimal(k as nat)
                    + " }"@,
                WeakModel::To { table, id } => if s.live.contains_key(id) {
                    pages::channel_page(s.live[id])
                } else {
                    "Weak reference to Channel { id="@ + text::decimal(k as nat) + " }"@
                },
            },
        ),
{
}

/// The page of the table lists the identifiers that have entries, in ascending order, each
/// with a link to its page.
pub proof fn law_table_page_lists_the_entries(
    s: MappingModel,
    ids: Seq<ChannelId>,
    items: Seq<Seq<char>>,
)
    requires
        forall|i: int, j: int| 0 <= i < j < ids.len() ==> ids[i] < ids[j],
        ids.to_set() == s.entries.dom(),
        items.len() == ids.len(),
        forall|i: int|
            0 <= i < ids.len() ==> #[trigger] items[i] == "<li><a href=\""@ + ("/channel/"@
                + text::decimal(ids[i] as nat)) + "\">channel-"@ + text::decimal(ids[i] as nat)
                + "</a> => (Weak)\n"@,
    ensures
        pages::mapping_page(s) == "<h2>Channels</h2>\n"@ + "<ul>\n"@ + items.flatten()
            + "</ul>\n"@,
{
    sorted::lemma_ascending(ids, s.entries.dom());
    lemma_entry_items(ids, items);
}

/// The list items of the first entries, one after the other.
proof fn lemma_entry_items(ids: Seq<ChannelId>, items: Seq<Seq<char>>)
    requires
        items.len() <= ids.len(),
        forall|i: int|
            0 <= i < items.len() ==> #[trigger] items[i] == pages::entry_item(ids[i]),
    ensures
        pages::entry_items(ids, items.len()) == items.flatten(),
    decreases items.len(),
{
    if items.len() == 0 {
        assert(items.flatten() =~= Seq::<char>::empty());
    } else {
        lemma_entry_items(ids, items.drop_last());
        lemma_pieces(items);
    }
}

/// The Dot nodes stanza has a line for each entry, in ascending order: with the numbers of
/// messages, of read halves (after `w=`) and of write halves (after `r=`) of the channel that
/// the entry refers to, or with a remark that it does not exist.
pub proof fn law_nodes_stanza_shows_the_entries(
    s: MappingModel,
    ids: Seq<ChannelId>,
    lines: Seq<Seq<char>>,
)
    requires
        s.wf(),
        forall|i: int, j: int| 0 <= i < j < ids.len() ==> ids[i] < ids[j],
        ids.to_set() == s.entries.dom(),
        lines.len() == ids.len(),
        forall|i: int|
            0 <= i < ids.len() ==> #[trigger] lines[i] == {
                let start = "    "@ + ("channel"@ + text::decimal(ids[i] as nat))
                    + " [label=\"channel-"@ + text::decimal(ids[i] as nat);
                let path = "/channel/"@ + text::decimal(ids[i] as nat);
                match s.entries[ids[i]] {
                    WeakModel::To { table, id } if s.live.contains_key(id) => start + "\\\\nm="@
                        + text::decimal(s.live[id].messages.len()) + ", w="@ + text::decimal(
                        s.references(
                            Half { table: s.table, id, direction: ChannelHalfDirection::Read },
                        ),
                    ) + ", r="@ + text::decimal(
                        s.references(
                            Half { table: s.table, id, direction: ChannelHalfDirection::Write },
                        ),
                    ) + "\" URL=\""@ + path + "\"]\n"@,
                    _ => start + "\\\\nweak-only\" URL=\""@ + path + "\"]\n"@,
                }
            },
    ensures
        pages::nodes_stanza(s) == "  {\n"@
            + "    node [shape=ellipse style=filled fillcolor=green]\n"@ + lines.flatten()
            + "  }\n"@,
{
    sorted::lemma_ascending(ids, s.entries.dom());
    assert forall|i: int| 0 <= i < ids.len() implies #[trigger] lines[i] == pages::entry_node(
        s,
        ids[i],
    ) by {
        assert(ids.to_set().contains(ids[i]));
        assert(s.entries.contains_key(ids[i]));
        if let Some(id) = s.entry(ids[i]) {
            laws::law_counts_are_references(s, id);
        }
    }
    lemma_entry_nodes(s, ids, lines);
}

/// The node lines of the first entries, one after the other.
proof fn lemma_entry_nodes(s: MappingModel, ids: Seq<ChannelId>, lines: Seq<Seq<char>>)
    requires
        lines.len() <= ids.len(),
        forall|i: int|
            0 <= i < lines.len() ==> #[trigger] lines[i] == pages::entry_node(s, ids[i]),
    ensures
        pages::entry_nodes(s, ids, lines.len()) == lines.flatten(),
    decreases lines.len(),
{
    if lines.len() == 0 {
        assert(lines.flatten() =~= Seq::<char>::empty());
    } else {
        lemma_entry_nodes(s, ids, lines.drop_last());
        lemma_pieces(lines);
    }
}

/// The edges of the first halves of a message, one after the other.
proof fn lemma_half_edges(node: Seq<char>, halves: Seq<Half>, edges: Seq<Seq<char>>)
    requires
        edges.len() <= halves.len(),
        forall|j: int|
            0 <= j < edges.len() ==> #[trigger] edges[j] == pages::half_edge(node, halves[j]),
    ensures
        pages::half_edges(node, halves, edges.len()) == edges.flatten(),
    decreases edges.len(),
{
    if edges.len() == 0 {
        assert(edges.flatten() =~= Seq::<char>::empty());
    } else {
        lemma_half_edges(node, halves, edges.drop_last());
        lemma_pieces(edges);
    }
}

/// What the queue edge of message `k` of a channel goes to: the channel for the first
/// message, and the message before it for any other. Messages are numbered over the whole
/// graph, and `before` of them come earlier.
pub open spec fn queue_target(id: ChannelId, before: nat, k: int) -> Seq<char> {
    if k == 0 {
        "channel"@ + text::decimal(id as nat)
    } else {
        "msg"@ + text::decimal((before + k) as nat)
    }
}

/// The edges of a channel's messages form a chain. Message `k` has the number `before + k +
/// 1`; its queue edge goes to the channel if it is the first, and to message `before + k`
/// otherwise. The edges of its halves follow: towards the channel of a write half, and from
/// the channel of a read half.
pub proof fn law_queue_edges_form_a_chain(
    id: ChannelId,
    messages: Seq<MessageModel>,
    before: nat,
    texts: Seq<Seq<char>>,
    edges: Seq<Seq<Seq<char>>>,
)
    requires
        texts.len() == messages.len(),
        edges.len() == messages.len(),
        forall|k: int|
            0 <= k < texts.len() ==> #[trigger] texts[k] == ("    "@ + ("msg"@ + text::decimal(
                (before + k + 1) as nat,
            )) + " -> "@ + (if k == 0 {
                "channel"@ + text::decimal(id as nat)
            } else {
                "msg"@ + text::decimal((before + k) as nat)
            }) + " [style=dashed arrowhead=none]\n"@) + edges[k].flatten(),
        forall|k: int|
            0 <= k < texts.len() ==> (#[trigger] edges[k]).len() == messages[k].halves.len(),
        forall|k: int, j: int|
            0 <= k < texts.len() && 0 <= j < edges[k].len() ==> #[trigger] edges[k][j] == {
                let h = messages[k].halves[j];
                let message = "msg"@ + text::decimal((before + k + 1) as nat);
                let channel = "channel"@ + text::decimal(h.id as nat);
                if h.direction is Write {
                    "    "@ + message + " -> "@ + channel + "\n"@
                } else {
                    "    "@ + channel + " -> "@ + message + "\n"@
                }
            },
    ensures
        pages::message_edges(id, messages, before, messages.len()) == texts.flatten(),
{
    assert forall|k: int| 0 <= k < texts.len() implies #[trigger] texts[k] == pages::queue_edge(
        pages::message_name((before + k + 1) as nat),
        queue_target(id, before, k),
    ) + pages::half_edges(
        pages::message_name((before + k + 1) as nat),
        messages[k].halves,
        messages[k].halves.len(),
    ) by {
        let node = pages::message_name((before + k + 1) as nat);
        let of_message = edges[k];
        assert(of_message.len() == messages[k].halves.len());
        assert forall|j: int| 0 <= j < of_message.len() implies #[trigger] of_message[j]
            == pages::half_edge(node, messages[k].halves[j]) by {
            assert(edges[k][j] == of_message[j]);
        }
        lemma_half_edges(node, messages[k].halves, of_message);
    }
    lemma_message_edges(id, messages, before, texts);
}

/// The texts of the first messages, one after the other.
proof fn lemma_message_edges(
    id: ChannelId,
    messages: Seq<MessageModel>,
    before: nat,
    texts: Seq<Seq<char>>,
)
    requires
        texts.len() <= messages.len(),
        forall|k: int|
            0 <= k < texts.len() ==> #[trigger] texts[k] == pages::queue_edge(
                pages::message_name((before + k + 1) as nat),
                queue_target(id, before, k),
            ) + pages::half_edges(
                pages::message_name((before + k + 1) as nat),
                messages[k].halves,
                messages[k].halves.len(),
            ),
    ensures
        pages::message_edges(id, messages, before, texts.len()) == texts.flatten(),
    decreases texts.len(),
{
    if texts.len() == 0 {
        assert(texts.flatten() =~= Seq::<char>::empty());
    } else {
        let front = texts.drop_last();
        lemma_message_edges(id, messages, before, front);
        lemma_pieces(texts);
        assert(pages::message_edges(id, messages, before, texts.len()) =~= front.flatten()
            + texts.last());
    }
}

/// No two messages of a channel are drawn behind the same thing, so each message but the last
/// is the target of exactly one queue edge.
pub proof fn law_queue_targets_are_distinct(id: ChannelId, before: nat, j: int, k: int)
    requires
        0 <= j < k,
    ensures
        queue_target(id, before, j) != queue_target(id, before, k),
{
    reveal_strlit("channel");
    reveal_strlit("msg");
    let a = queue_target(id, before, j);
    let b = queue_target(id, before, k);
    if a == b {
        if j == 0 {
            assert(a[0] == 'c');
            assert(b[0] == 'm');
        } else {
            assert(a.skip(3) =~= text::decimal((before + j) as nat));
            assert(b.skip(3) =~= text::decimal((before + k) as nat));
            text::lemma_decimal_injective((before + j) as nat, (before + k) as nat);
        }
    }
}

/// The number of messages in the channel that an entry refers to, and those messages.
pub open spec fn entry_messages(s: MappingModel, k: ChannelId) -> Seq<MessageModel> {
    match s.entries[k] {
        WeakModel::To { table, id } if s.live.contains_key(id) => s.live[id].messages,
        _ => Seq::empty(),
    }
}

/// The Dot edges stanza has the edges of the messages of each entry, in ascending order of
/// the entries. The numbers of the messages run on from one entry to the next.
pub proof fn law_edges_stanza_shows_the_messages(
    s: MappingModel,
    ids: Seq<ChannelId>,
    numbers: Seq<nat>,
    blocks: Seq<Seq<char>>,
)
    requires
        s.wf(),
        forall|i: int, j: int| 0 <= i < j < ids.len() ==> ids[i] < ids[j],
        ids.to_set() == s.entries.dom(),
        blocks.len() == ids.len(),
        numbers.len() == ids.len(),
        forall|i: int|
            0 <= i < ids.len() ==> #[trigger] numbers[i] == if i == 0 {
                0
            } else {
                numbers[i - 1] + entry_messages(s, ids[i - 1]).len()
            },
        forall|i: int|
            0 <= i < ids.len() ==> #[trigger] blocks[i] == pages::message_edges(
                ids[i],
                entry_messages(s, ids[i]),
                numbers[i],
                entry_messages(s, ids[i]).len(),
            ),
    ensures
        pages::edges_stanza(s) == "  {\n"@ + "    node [shape=rect fontsize=10 label=\"msg\"]\n"@
            + blocks.flatten() + "  }\n"@,
{
    sorted::lemma_ascending(ids, s.entries.dom());
    lemma_entry_edges(s, ids, numbers, blocks);
}

/// The edges of the first entries, one after the other.
proof fn lemma_entry_edges(
    s: MappingModel,
    ids: Seq<ChannelId>,
    numbers: Seq<nat>,
    blocks: Seq<Seq<char>>,
)
    requires
        s.wf(),
        ids.to_set() == s.entries.dom(),
        blocks.len() <= ids.len(),
        numbers.len() == ids.len(),
        forall|i: int|
            0 <= i < ids.len() ==> #[trigger] numbers[i] == if i == 0 {
                0
            } else {
                numbers[i - 1] + entry_messages(s, ids[i - 1]).len()
            },
        forall|i: int|
            0 <= i < blocks.len() ==> #[trigger] blocks[i] == pages::message_edges(
                ids[i],
                entry_messages(s, ids[i]),
                numbers[i],
                entry_messages(s, ids[i]).len(),
            ),
    ensures
        pages::entry_edges(s, ids, blocks.len()) == blocks.flatten(),
        blocks.len() < ids.len() ==> pages::messages_before(s, ids, blocks.len())
            == numbers[blocks.len() as int],
    decreases blocks.len(),
{
    let n = blocks.len() as int;
    if n == 0 {
        assert(blocks.flatten() =~= Seq::<char>::empty());
    } else {
        let front = blocks.drop_last();
        let id = ids[n - 1];
        lemma_entry_edges(s, ids, numbers, front);
        lemma_pieces(blocks);
        assert(ids.to_set().contains(id));
        assert(s.entries.contains_key(id));
        assert(blocks.last() == pages::message_edges(
            id,
            entry_messages(s, id),
            numbers[n - 1],
            entry_messages(s, id).len(),
        ));
        if s.entry(id) is None {
            assert(entry_messages(s, id) =~= Seq::<MessageModel>::empty());
        }
        if n < ids.len() {
            assert(numbers[n] == numbers[n - 1] + entry_messages(s, id).len());
        }
    }
}

/// The report of a garbage collection has a line for each channel, in the order of reaping:
/// whether there was an entry when its turn came, and whether the channel still existed.
pub proof fn law_gc_reports_on_each(
    s: MappingModel,
    order: Seq<ChannelId>,
    lines: Seq<Seq<char>>,
)
    requires
        s.wf(),
        lines.len() == order.len(),
        forall|i: int|
            0 <= i < order.len() ==> #[trigger] lines[i] == {
                let u = s.gc_all(order.take(i));
                "<p>Reaped Channel "@ + text::decimal(order[i] as nat) + ": "@
                    + if !u.entries.contains_key(order[i]) {
                    "not found"@
                } else {
                    match u.entries[order[i]] {
                        WeakModel::To { table, id } if u.live.contains_key(id) => "dropped"@,
                        _ => "found dangling weak ref"@,
                    }
                }
            },
    ensures
        s.gc_report(order) == "<h2>Channel GC Result</h2>"@ + lines.flatten(),
    decreases order.len(),
{
    if order.len() == 0 {
        assert("<h2>Channel GC Result</h2>"@ + lines.flatten() =~= "<h2>Channel GC Result</h2>"@);
    } else {
        let front = order.drop_last();
        let n = order.len() - 1;
        assert forall|i: int| 0 <= i < front.len() implies #[trigger] lines.drop_last()[i] == {
            let u = s.gc_all(front.take(i));
            "<p>Reaped Channel "@ + text::decimal(front[i] as nat) + ": "@
                + if !u.entries.contains_key(front[i]) {
                "not found"@
            } else {
                match u.entries[front[i]] {
                    WeakModel::To { table, id } if u.live.contains_key(id) => "dropped"@,
                    _ => "found dangling weak ref"@,
                }
            }
        } by {
            assert(lines[i] == lines.drop_last()[i]);
            assert(front.take(i) =~= order.take(i));
        }
        law_gc_reports_on_each(s, front, lines.drop_last());
        lemma_pieces(lines);
        assert(order.take(n) =~= front);
        crate::channel::counting::lemma_gc_all(s, front);
        assert(lines[n] == lines.last());
        assert(s.gc_report(order) =~= "<h2>Channel GC Result</h2>"@ + lines.flatten());
    }
}

} // verus!
