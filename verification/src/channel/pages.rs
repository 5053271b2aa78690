//! The diagnostic texts: names, Dot graph stanzas and HTML pages.
use crate::channel::model::{
    ChannelHalfDirection, ChannelId, ChannelModel, Half, MappingModel, MessageModel,
};
use crate::channel::{Channel, ChannelHalf, ChannelMapping, Message};
use crate::sorted;
use crate::text;
use vstd::prelude::*;

verus! {

broadcast use vstd::std_specs::hash::group_hash_axioms;

/// The name of a channel in a Dot graph.
pub open spec fn dot_name(id: ChannelId) -> Seq<char> {
    "channel"@ + text::decimal(id as nat)
}

/// The path of a channel's page.
pub open spec fn page_path(id: ChannelId) -> Seq<char> {
    "/channel/"@ + text::decimal(id as nat)
}

/// What has a name in a Dot graph.
pub trait DotIdentifier {
    /// The name.
    spec fn dot_id_text(&self) -> Seq<char>;

    /// Returns the name.
    fn dot_id(&self) -> (r: String)
        ensures
            r@ == self.dot_id_text(),
    ;
}

/// What has a page of its own.
pub trait HtmlPath {
    /// The path of the page.
    spec fn html_path_text(&self) -> Seq<char>;

    /// Returns the path of the page.
    fn html_path(&self) -> (r: String)
        ensures
            r@ == self.html_path_text(),
    ;
}

impl DotIdentifier for ChannelId {
    open spec fn dot_id_text(&self) -> Seq<char> {
        dot_name(*self)
    }

    fn dot_id(&self) -> String {
        let mut s = "channel".to_string();
        text::push_decimal(&mut s, *self);
        s
    }
}

impl HtmlPath for ChannelId {
    open spec fn html_path_text(&self) -> Seq<char> {
        page_path(*self)
    }

    fn html_path(&self) -> String {
        let mut s = "/channel/".to_string();
        text::push_decimal(&mut s, *self);
        s
    }
}

impl DotIdentifier for ChannelHalf {
    open spec fn dot_id_text(&self) -> Seq<char> {
        dot_name(self@.id)
    }

    fn dot_id(&self) -> String {
        self.channel.dot_id()
    }
}

impl HtmlPath for ChannelHalf {
    open spec fn html_path_text(&self) -> Seq<char> {
        page_path(self@.id)
    }

    fn html_path(&self) -> String {
        self.channel.html_path()
    }
}

/// How a half is shown.
pub open spec fn half_text(h: Half) -> Seq<char> {
    "Channel "@ + text::decimal(h.id as nat) + " "@ + match h.direction {
        ChannelHalfDirection::Write => "WRITE"@,
        ChannelHalfDirection::Read => "READ"@,
    }
}

/// How a channel is shown.
pub open spec fn channel_text(c: ChannelModel) -> Seq<char> {
    "Channel { id="@ + text::decimal(c.id as nat) + ", #readers="@ + text::decimal(c.readers)
        + ", #writers="@ + text::decimal(c.writers) + ", label="@ + c.label + " }"@
}

/// A link to the page of a half's channel.
pub open spec fn half_link(h: Half) -> Seq<char> {
    "<a href=\""@ + page_path(h.id) + "\">"@ + half_text(h) + "</a>"@
}

/// The links of the first `n` halves of a message, separated by commas.
pub open spec fn half_links(halves: Seq<Half>, n: nat) -> Seq<char>
    decreases n,
{
    if n == 0 {
        Seq::empty()
    } else if n == 1 {
        half_link(halves[0])
    } else {
        half_links(halves, (n - 1) as nat) + ", "@ + half_link(halves[n - 1])
    }
}

/// The list item of message number `i`.
pub open spec fn message_item(i: nat, m: MessageModel) -> Seq<char> {
    "  <li>message["@ + text::decimal(i) + "]: data.len()="@ + text::decimal(m.data.len())
        + ", halves=["@ + half_links(m.halves, m.halves.len()) + "]"@
}

/// The list items of the first `n` messages.
pub open spec fn message_items(messages: Seq<MessageModel>, n: nat) -> Seq<char>
    decreases n,
{
    if n == 0 {
        Seq::empty()
    } else {
        message_items(messages, (n - 1) as nat) + message_item((n - 1) as nat, messages[n - 1])
    }
}

/// The page of a channel.
pub open spec fn channel_page(c: ChannelModel) -> Seq<char> {
    "Channel { id="@ + text::decimal(c.id as nat) + ", reader_count="@ + text::decimal(c.readers)
        + ", writer_count="@ + text::decimal(c.writers) + ", label="@ + c.label + " }<br/>"@
        + "Messages: (count = "@ + text::decimal(c.messages.len()) + "):<ul>"@ + message_items(
        c.messages,
        c.messages.len(),
    )
}

impl ChannelHalf {
    /// Returns how the half is shown.
    pub fn debug_text(&self) -> (r: String)
        ensures
            r@ == half_text(self@),
    {
        let mut s = "Channel ".to_string();
        text::push_decimal(&mut s, self.channel);
        s.append(" ");
        match self.direction {
            ChannelHalfDirection::Write => s.append("WRITE"),
            ChannelHalfDirection::Read => s.append("READ"),
        }
        s
    }
}

/// Returns the link to the page of a half's channel.
fn link_to(half: &ChannelHalf) -> (r: String)
    ensures
        r@ == half_link(half@),
{
    let mut s = "<a href=\"".to_string();
    s.append(half.html_path().as_str());
    s.append("\">");
    s.append(half.debug_text().as_str());
    s.append("</a>");
    s
}

/// Returns the links of a message's halves.
fn links_of(halves: &Vec<ChannelHalf>) -> (r: String)
    ensures
        r@ == half_links(super::half_views(halves@), halves@.len()),
{
    let mut s = String::new();
    let mut j: usize = 0;
    let ghost views = super::half_views(halves@);
    while j < halves.len()
        invariant
            j <= halves.len(),
            views == super::half_views(halves@),
            s@ == half_links(views, j as nat),
        decreases halves.len() - j,
    {
        let ghost before = s@;
        if j > 0 {
            s.append(", ");
        }
        let link = link_to(&halves[j]);
        s.append(link.as_str());
        proof {
            assert(views[j as int] == halves@[j as int]@);
            if j == 0 {
                assert(s@ =~= half_link(views[0]));
            }
        }
        j = j + 1;
    }
    s
}

/// Returns the list item of message number `i`.
fn item_of(i: usize, message: &Message) -> (r: String)
    ensures
        r@ == message_item(i as nat, message@),
{
    let mut s = "  <li>message[".to_string();
    text::push_decimal(&mut s, i as u64);
    s.append("]: data.len()=");
    text::push_decimal(&mut s, message.data.len() as u64);
    s.append(", halves=[");
    let links = links_of(&message.channels);
    s.append(links.as_str());
    s.append("]");
    s
}

impl Channel {
    /// Returns how the channel is shown.
    pub fn debug_text(&self) -> (r: String)
        ensures
            r@ == channel_text(self@),
    {
        let mut s = "Channel { id=".to_string();
        text::push_decimal(&mut s, self.id);
        s.append(", #readers=");
        text::push_decimal(&mut s, self.reader_count);
        s.append(", #writers=");
        text::push_decimal(&mut s, self.writer_count);
        s.append(", label=");
        s.append(self.label.text.as_str());
        s.append(" }");
        s
    }

    /// Builds an HTML page describing the channel.
    pub fn html(&self) -> (r: String)
        ensures
            r@ == channel_page(self@),
    {
        let mut s = "Channel { id=".to_string();
        text::push_decimal(&mut s, self.id);
        s.append(", reader_count=");
        text::push_decimal(&mut s, self.reader_count);
        s.append(", writer_count=");
        text::push_decimal(&mut s, self.writer_count);
        s.append(", label=");
        s.append(self.label.text.as_str());
        s.append(" }<br/>");
        s.append("Messages: (count = ");
        text::push_decimal(&mut s, self.messages.len() as u64);
        s.append("):<ul>");
        let ghost head = s@;
        let ghost messages = self@.messages;
        let mut i: usize = 0;
        assert(head + message_items(messages, 0) =~= head);
        while i < self.messages.len()
            invariant
                i <= self.messages.len(),
                messages == super::message_views(self.messages@),
                s@ == head + message_items(messages, i as nat),
            decreases self.messages.len() - i,
        {
            let item = item_of(i, &self.messages[i]);
            s.append(item.as_str());
            proof {
                assert(messages[i as int] == self.messages@[i as int]@);
                assert(s@ =~= head + message_items(messages, (i + 1) as nat));
            }
            i = i + 1;
        }
        s
    }
}

/// The node line of an entry whose channel exists. The count after `w=` is that of the readers, and
/// the count after `r=` that of the writers.
pub open spec fn live_node(id: ChannelId, c: ChannelModel) -> Seq<char> {
    "    "@ + dot_name(id) + " [label=\"channel-"@ + text::decimal(id as nat) + "\\\\nm="@
        + text::decimal(c.messages.len()) + ", w="@ + text::decimal(c.readers) + ", r="@
        + text::decimal(c.writers) + "\" URL=\""@ + page_path(id) + "\"]\n"@
}

/// The node line of an entry whose channel no longer exists.
pub open spec fn dangling_node(id: ChannelId) -> Seq<char> {
    "    "@ + dot_name(id) + " [label=\"channel-"@ + text::decimal(id as nat)
        + "\\\\nweak-only\" URL=\""@ + page_path(id) + "\"]\n"@
}

/// The node line of an entry.
pub open spec fn entry_node(s: MappingModel, id: ChannelId) -> Seq<char> {
    match s.entry(id) {
        Some(c) => live_node(id, s.live[c]),
        None => dangling_node(id),
    }
}

/// The node lines of the first `n` entries in `ids`.
pub open spec fn entry_nodes(s: MappingModel, ids: Seq<ChannelId>, n: nat) -> Seq<char>
    decreases n,
{
    if n == 0 {
        Seq::empty()
    } else {
        entry_nodes(s, ids, (n - 1) as nat) + entry_node(s, ids[n - 1])
    }
}

/// The Dot nodes stanza: a node for each entry, in ascending order.
pub open spec fn nodes_stanza(s: MappingModel) -> Seq<char> {
    let ids = sorted::ascending(s.entries.dom());
    "  {\n"@ + "    node [shape=ellipse style=filled fillcolor=green]\n"@ + entry_nodes(
        s,
        ids,
        ids.len(),
    ) + "  }\n"@
}

/// The name of message number `n`, counted from one over the whole graph.
pub open spec fn message_name(n: nat) -> Seq<char> {
    "msg"@ + text::decimal(n)
}

/// The edge between a message and a half that travels in it: towards the channel for a
/// writer, from the channel for a reader.
pub open spec fn half_edge(node: Seq<char>, h: Half) -> Seq<char> {
    match h.direction {
        ChannelHalfDirection::Write => "    "@ + node + " -> "@ + dot_name(h.id) + "\n"@,
        ChannelHalfDirection::Read => "    "@ + dot_name(h.id) + " -> "@ + node + "\n"@,
    }
}

/// The edges of the first `n` halves of a message.
pub open spec fn half_edges(node: Seq<char>, halves: Seq<Half>, n: nat) -> Seq<char>
    decreases n,
{
    if n == 0 {
        Seq::empty()
    } else {
        half_edges(node, halves, (n - 1) as nat) + half_edge(node, halves[n - 1])
    }
}

/// The edge from a message to what precedes it in its queue.
pub open spec fn queue_edge(node: Seq<char>, previous: Seq<char>) -> Seq<char> {
    "    "@ + node + " -> "@ + previous + " [style=dashed arrowhead=none]\n"@
}

/// What precedes message number `k` of a channel: the channel, or the message before it.
pub open spec fn previous_name(id: ChannelId, before: nat, k: nat) -> Seq<char> {
    if k == 0 {
        dot_name(id)
    } else {
        message_name(before + k)
    }
}

/// The edges of the first `n` messages of a channel; `before` messages come earlier in the
/// graph.
pub open spec fn message_edges(
    id: ChannelId,
    messages: Seq<MessageModel>,
    before: nat,
    n: nat,
) -> Seq<char>
    decreases n,
{
    if n == 0 {
        Seq::empty()
    } else {
        let k = (n - 1) as nat;
        let node = message_name(before + n);
        let halves = messages[n - 1].halves;
        message_edges(id, messages, before, k) + queue_edge(node, previous_name(id, before, k))
            + half_edges(node, halves, halves.len())
    }
}

/// The number of messages in the channels of the first `n` entries in `ids`.
pub open spec fn messages_before(s: MappingModel, ids: Seq<ChannelId>, n: nat) -> nat
    decreases n,
{
    if n == 0 {
        0
    } else {
        messages_before(s, ids, (n - 1) as nat) + match s.entry(ids[n - 1]) {
            Some(c) => s.live[c].messages.len(),
            None => 0,
        }
    }
}

/// The edges of the first `n` entries in `ids`.
pub open spec fn entry_edges(s: MappingModel, ids: Seq<ChannelId>, n: nat) -> Seq<char>
    decreases n,
{
    if n == 0 {
        Seq::empty()
    } else {
        let k = (n - 1) as nat;
        let id = ids[n - 1];
        entry_edges(s, ids, k) + match s.entry(id) {
            Some(c) => message_edges(
                id,
                s.live[c].messages,
                messages_before(s, ids, k),
                s.live[c].messages.len(),
            ),
            None => Seq::empty(),
        }
    }
}

/// The Dot edges stanza: for each entry, in ascending order, the edges of its messages.
pub open spec fn edges_stanza(s: MappingModel) -> Seq<char> {
    let ids = sorted::ascending(s.entries.dom());
    "  {\n"@ + "    node [shape=rect fontsize=10 label=\"msg\"]\n"@ + entry_edges(
        s,
        ids,
        ids.len(),
    ) + "  }\n"@
}

/// The list item of an entry, whose reference to the channel is shown as a weak one.
pub open spec fn entry_item(id: ChannelId) -> Seq<char> {
    "<li><a href=\""@ + page_path(id) + "\">channel-"@ + text::decimal(id as nat)
        + "</a> => (Weak)\n"@
}

/// The list items of the first `n` entries in `ids`.
pub open spec fn entry_items(ids: Seq<ChannelId>, n: nat) -> Seq<char>
    decreases n,
{
    if n == 0 {
        Seq::empty()
    } else {
        entry_items(ids, (n - 1) as nat) + entry_item(ids[n - 1])
    }
}

/// The page that lists the entries, in ascending order.
pub open spec fn mapping_page(s: MappingModel) -> Seq<char> {
    let ids = sorted::ascending(s.entries.dom());
    "<h2>Channels</h2>\n"@ + "<ul>\n"@ + entry_items(ids, ids.len()) + "</ul>\n"@
}

/// The page of one entry, if there is one.
pub open spec fn entry_page(s: MappingModel, id: ChannelId) -> Option<Seq<char>> {
    if !s.entries.contains_key(id) {
        None
    } else {
        match s.entry(id) {
            None => Some("Weak reference to Channel { id="@ + text::decimal(id as nat) + " }"@),
            Some(c) => Some(channel_page(s.live[c])),
        }
    }
}

/// Returns the name of message number `n`.
fn name_of_message(n: u128) -> (r: String)
    ensures
        r@ == message_name(n as nat),
{
    let mut s = "msg".to_string();
    text::push_wide_decimal(&mut s, n);
    s
}

/// Returns the edge between a message and a half that travels in it.
fn edge_of_half(node: &String, half: &ChannelHalf) -> (r: String)
    ensures
        r@ == half_edge(node@, half@),
{
    let mut s = "    ".to_string();
    let name = half.dot_id();
    match half.direction {
        ChannelHalfDirection::Write => {
            s.append(node.as_str());
            s.append(" -> ");
            s.append(name.as_str());
        },
        ChannelHalfDirection::Read => {
            s.append(name.as_str());
            s.append(" -> ");
            s.append(node.as_str());
        },
    }
    s.append("\n");
    s
}

/// Returns the edges of a message's halves.
fn edges_of_halves(node: &String, halves: &Vec<ChannelHalf>) -> (r: String)
    ensures
        r@ == half_edges(node@, super::half_views(halves@), halves@.len()),
{
    let mut s = String::new();
    let mut j: usize = 0;
    let ghost views = super::half_views(halves@);
    while j < halves.len()
        invariant
            j <= halves.len(),
            views == super::half_views(halves@),
            s@ == half_edges(node@, views, j as nat),
        decreases halves.len() - j,
    {
        let edge = edge_of_half(node, &halves[j]);
        s.append(edge.as_str());
        assert(views[j as int] == halves@[j as int]@);
        j = j + 1;
    }
    s
}

/// Returns the edges of the messages of a channel, for the entry under the given identifier.
fn edges_of_channel(id: ChannelId, channel: &Channel, before: u128) -> (r: String)
    requires
        before + channel@.messages.len() <= u128::MAX,
    ensures
        r@ == message_edges(id, channel@.messages, before as nat, channel@.messages.len()),
{
    let mut s = String::new();
    let mut previous = id.dot_id();
    let mut k: usize = 0;
    let ghost messages = channel@.messages;
    while k < channel.messages.len()
        invariant
            messages == super::message_views(channel.messages@),
            k <= messages.len(),
            before + messages.len() <= u128::MAX,
            previous@ == previous_name(id, before as nat, k as nat),
            s@ == message_edges(id, messages, before as nat, k as nat),
        decreases channel.messages.len() - k,
    {
        let message = &channel.messages[k];
        assert(messages[k as int] == message@);
        let node = name_of_message(before + k as u128 + 1);
        s.append(edge_to_previous(&node, &previous).as_str());
        s.append(edges_of_halves(&node, &message.channels).as_str());
        previous = node;
        k = k + 1;
    }
    s
}

/// Returns the edge from a message to what precedes it in its queue.
fn edge_to_previous(node: &String, previous: &String) -> (r: String)
    ensures
        r@ == queue_edge(node@, previous@),
{
    let mut s = "    ".to_string();
    s.append(node.as_str());
    s.append(" -> ");
    s.append(previous.as_str());
    s.append(" [style=dashed arrowhead=none]\n");
    s
}

impl ChannelMapping {
    /// Returns the channel that the entry under the given identifier refers to, if it
    /// exists.
    fn channel_of(&self, id: ChannelId) -> (r: Option<&Channel>)
        requires
            self.wf(),
        ensures
            match r {
                Some(c) => self@.entry(id) is Some && c@ == self@.live[self@.entry(id)->0],
                None => self@.entry(id) is None,
            },
    {
        match self.entry_target(id) {
            Some(target) => self.channels.get(&target),
            None => None,
        }
    }

    /// Returns the node line of an entry.
    fn node_of(&self, id: ChannelId) -> (r: String)
        requires
            self.wf(),
        ensures
            r@ == entry_node(self@, id),
    {
        let mut s = "    ".to_string();
        s.append(id.dot_id().as_str());
        s.append(" [label=\"channel-");
        text::push_decimal(&mut s, id);
        match self.channel_of(id) {
            Some(channel) => {
                s.append("\\\\nm=");
                text::push_decimal(&mut s, channel.messages.len() as u64);
                s.append(", w=");
                text::push_decimal(&mut s, channel.reader_count);
                s.append(", r=");
                text::push_decimal(&mut s, channel.writer_count);
                s.append("\" URL=\"");
            },
            None => {
                s.append("\\\\nweak-only\" URL=\"");
            },
        }
        s.append(id.html_path().as_str());
        s.append("\"]\n");
        s
    }

    /// Builds a Dot nodes stanza for the `ChannelMapping`.
    pub fn graph_nodes(&self) -> (r: String)
        requires
            self.wf(),
        ensures
            r@ == nodes_stanza(self@),
    {
        let mut s = "  {\n".to_string();
        s.append("    node [shape=ellipse style=filled fillcolor=green]\n");
        let ids = sorted::ascending_ids(self.entry_ids());
        let ghost head = s@;
        assert(head + entry_nodes(self@, ids@, 0) =~= head);
        let mut k: usize = 0;
        while k < ids.len()
            invariant
                self.wf(),
                k <= ids.len(),
                s@ == head + entry_nodes(self@, ids@, k as nat),
            decreases ids.len() - k,
        {
            let node = self.node_of(ids[k]);
            s.append(node.as_str());
            assert(s@ =~= head + entry_nodes(self@, ids@, (k + 1) as nat));
            k = k + 1;
        }
        s.append("  }\n");
        s
    }

    /// Builds a Dot edges stanza for the `ChannelMapping`.
    pub fn graph_edges(&self) -> (r: String)
        requires
            self.wf(),
        ensures
            r@ == edges_stanza(self@),
    {
        let mut s = "  {\n".to_string();
        s.append("    node [shape=rect fontsize=10 label=\"msg\"]\n");
        // Messages have no identifier, so just use a count.
        let mut count: u128 = 0;
        let ids = sorted::ascending_ids(self.entry_ids());
        let ghost head = s@;
        assert(head + entry_edges(self@, ids@, 0) =~= head);
        let mut k: usize = 0;
        while k < ids.len()
            invariant
                self.wf(),
                k <= ids.len(),
                count == messages_before(self@, ids@, k as nat),
                count <= k * 0xffff_ffff_ffff_ffff,
                s@ == head + entry_edges(self@, ids@, k as nat),
            decreases ids.len() - k,
        {
            if let Some(channel) = self.channel_of(ids[k]) {
                let messages: usize = channel.messages.len();
                assert(channel@.messages.len() == messages);
                let edges = edges_of_channel(ids[k], channel, count);
                s.append(edges.as_str());
                count = count + messages as u128;
            }
            assert(s@ =~= head + entry_edges(self@, ids@, (k + 1) as nat));
            k = k + 1;
        }
        s.append("  }\n");
        s
    }

    /// Builds an HTML page describing the `ChannelMapping` structure.
    pub fn html(&self) -> (r: String)
        ensures
            r@ == mapping_page(self@),
    {
        let mut s = "<h2>Channels</h2>\n".to_string();
        s.append("<ul>\n");
        let ids = sorted::ascending_ids(self.entry_ids());
        let ghost head = s@;
        assert(head + entry_items(ids@, 0) =~= head);
        let mut k: usize = 0;
        while k < ids.len()
            invariant
                k <= ids.len(),
                s@ == head + entry_items(ids@, k as nat),
            decreases ids.len() - k,
        {
            let item = item_of_entry(ids[k]);
            s.append(item.as_str());
            assert(s@ =~= head + entry_items(ids@, (k + 1) as nat));
            k = k + 1;
        }
        s.append("</ul>\n");
        s
    }

    /// Builds an HTML page describing a specific channel identified by `ChannelId`, if it
    /// has an entry.
    pub fn html_for_channel(&self, id: u64) -> (r: Option<String>)
        requires
            self.wf(),
        ensures
            r is Some <==> entry_page(self@, id) is Some,
            r matches Some(page) ==> Some(page@) == entry_page(self@, id),
    {
        if !self.entries.contains_key(&id) {
            return None;
        }
        match self.channel_of(id) {
            None => {
                let mut s = "Weak reference to Channel { id=".to_string();
                text::push_decimal(&mut s, id);
                s.append(" }");
                Some(s)
            },
            Some(channel) => Some(channel.html()),
        }
    }
}

/// Returns the list item of an entry.
fn item_of_entry(id: ChannelId) -> (r: String)
    ensures
        r@ == entry_item(id),
{
    let mut s = "<li><a href=\"".to_string();
    s.append(id.html_path().as_str());
    s.append("\">channel-");
    text::push_decimal(&mut s, id);
    s.append("</a> => (Weak)\n");
    s
}

} // verus!
