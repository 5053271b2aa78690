use oak_runtime::abi::Label;
use oak_runtime::channel::mapping::{with_reader_channel, Operated};
use oak_runtime::channel::pages::{DotIdentifier, HtmlPath};
use oak_runtime::channel::{Channel, ChannelMapping, Message, WeakChannel};
use oak_runtime::text::{push_decimal, push_wide_decimal};

fn label(text: &str) -> Label {
    Label { text: text.to_string() }
}

#[test]
fn numerals() {
    let mut s = String::new();
    push_decimal(&mut s, 0);
    s.push(' ');
    push_decimal(&mut s, 1909);
    s.push(' ');
    push_decimal(&mut s, u64::MAX);
    s.push(' ');
    push_wide_decimal(&mut s, u128::MAX);
    assert_eq!(
        s,
        "0 1909 18446744073709551615 340282366920938463463374607431768211455"
    );
}

#[test]
fn names_of_channels() {
    let id: u64 = 42;
    assert_eq!(id.dot_id(), "channel42");
    assert_eq!(id.html_path(), "/channel/42");
    let mut mapping = ChannelMapping::new();
    let (w, r) = mapping.new_channel(&label("L"));
    assert_eq!(w.dot_id(), "channel0");
    assert_eq!(r.html_path(), "/channel/0");
}

#[test]
fn channel_is_shown() {
    let mut mapping = ChannelMapping::new();
    let (w, r) = mapping.new_channel(&label("L"));
    let _w2 = mapping.clone_half(&w);
    let shown = with_reader_channel(&mut mapping, &r, |c: Channel| {
        let text = c.debug_text();
        Operated::plain(c, Ok(text))
    });
    assert_eq!(
        shown.0.unwrap(),
        "Channel { id=0, #readers=1, #writers=2, label=L }"
    );
}

#[test]
fn page_of_a_channel() {
    let mut mapping = ChannelMapping::new();
    let (w0, _r0) = mapping.new_channel(&label("secret"));
    let (w1, r1) = mapping.new_channel(&label("L"));
    assert_eq!(
        mapping.html_for_channel(0).unwrap(),
        "Channel { id=0, reader_count=1, writer_count=1, label=secret }<br/>Messages: (count = 0):<ul>"
    );
    mapping.push_message(&w0, Message { data: vec![1, 2, 3], channels: vec![w1, r1] });
    mapping.push_message(&w0, Message { data: vec![], channels: vec![] });
    assert_eq!(
        mapping.html_for_channel(0).unwrap(),
        "Channel { id=0, reader_count=1, writer_count=1, label=secret }<br/>Messages: (count = 2):<ul>  \
         <li>message[0]: data.len()=3, halves=[<a href=\"/channel/1\">Channel 1 WRITE</a>, \
         <a href=\"/channel/1\">Channel 1 READ</a>]  <li>message[1]: data.len()=0, halves=[]"
    );
}

#[test]
fn page_of_an_entry() {
    let mut mapping = ChannelMapping::new();
    let (_w, _r) = mapping.new_channel(&label("L"));
    assert_eq!(mapping.html_for_channel(9), None);
    mapping.get_channels().insert(9, WeakChannel::new());
    assert_eq!(
        mapping.html_for_channel(9).unwrap(),
        "Weak reference to Channel { id=9 }"
    );
    mapping.get_channels().remove(&0);
    assert_eq!(mapping.html_for_channel(0), None);
}

#[test]
fn page_of_the_mapping_is_sorted() {
    let mut mapping = ChannelMapping::new();
    let mut halves = Vec::new();
    for _ in 0..40 {
        halves.push(mapping.new_channel(&label("L")));
    }
    let mut expected = String::from("<h2>Channels</h2>\n<ul>\n");
    for i in 0..40 {
        expected.push_str(&format!(
            "<li><a href=\"/channel/{}\">channel-{}</a> => (Weak)\n",
            i, i
        ));
    }
    expected.push_str("</ul>\n");
    assert_eq!(mapping.html(), expected);
}

#[test]
fn graph_of_nodes() {
    let mut mapping = ChannelMapping::new();
    let (w, _r) = mapping.new_channel(&label("L"));
    let _w2 = mapping.clone_half(&w);
    mapping.push_message(&w, Message { data: vec![], channels: vec![] });
    mapping.get_channels().insert(3, WeakChannel::new());
    assert_eq!(
        mapping.graph_nodes(),
        concat_lines(&[
            "  {",
            "    node [shape=ellipse style=filled fillcolor=green]",
            r#"    channel0 [label="channel-0\\nm=1, w=1, r=2" URL="/channel/0"]"#,
            r#"    channel3 [label="channel-3\\nweak-only" URL="/channel/3"]"#,
            "  }",
        ])
    );
}

#[test]
fn graph_of_edges() {
    let mut mapping = ChannelMapping::new();
    let (w0, _r0) = mapping.new_channel(&label("L"));
    let (w1, r1) = mapping.new_channel(&label("L"));
    let w1b = mapping.clone_half(&w1);
    mapping.push_message(&w0, Message { data: vec![], channels: vec![w1b, r1] });
    mapping.push_message(&w0, Message { data: vec![], channels: vec![] });
    mapping.push_message(&w1, Message { data: vec![], channels: vec![] });
    assert_eq!(
        mapping.graph_edges(),
        concat_lines(&[
            "  {",
            r#"    node [shape=rect fontsize=10 label="msg"]"#,
            "    msg1 -> channel0 [style=dashed arrowhead=none]",
            "    msg1 -> channel1",
            "    channel1 -> msg1",
            "    msg2 -> msg1 [style=dashed arrowhead=none]",
            "    msg3 -> channel1 [style=dashed arrowhead=none]",
            "  }",
        ])
    );
}

#[test]
fn graphs_follow_the_references_of_entries() {
    let mut mapping = ChannelMapping::new();
    let (w, _r) = mapping.new_channel(&label("L"));
    mapping.push_message(&w, Message { data: vec![], channels: vec![] });
    let weak = mapping.get_channels()[&0];
    mapping.get_channels().insert(5, weak);
    mapping.get_channels().insert(0, WeakChannel::new());
    assert_eq!(
        mapping.graph_nodes(),
        concat_lines(&[
            "  {",
            "    node [shape=ellipse style=filled fillcolor=green]",
            r#"    channel0 [label="channel-0\\nweak-only" URL="/channel/0"]"#,
            r#"    channel5 [label="channel-5\\nm=1, w=1, r=1" URL="/channel/5"]"#,
            "  }",
        ])
    );
    assert_eq!(
        mapping.graph_edges(),
        concat_lines(&[
            "  {",
            r#"    node [shape=rect fontsize=10 label="msg"]"#,
            "    msg1 -> channel5 [style=dashed arrowhead=none]",
            "  }",
        ])
    );
}

#[test]
fn empty_graphs() {
    let mapping = ChannelMapping::new();
    assert_eq!(
        mapping.graph_nodes(),
        "  {\n    node [shape=ellipse style=filled fillcolor=green]\n  }\n"
    );
    assert_eq!(
        mapping.graph_edges(),
        "  {\n    node [shape=rect fontsize=10 label=\"msg\"]\n  }\n"
    );
    assert_eq!(mapping.html(), "<h2>Channels</h2>\n<ul>\n</ul>\n");
}

fn concat_lines(lines: &[&str]) -> String {
    let mut s = String::new();
    for line in lines {
        s.push_str(line);
        s.push('\n');
    }
    s
}
