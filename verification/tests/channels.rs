use oak_runtime::abi::{Label, OakStatus};
use oak_runtime::channel::mapping::{with_reader_channel, with_writer_channel, Operated};
use oak_runtime::channel::model::ChannelHalfDirection;
use oak_runtime::channel::{Channel, ChannelHalf, ChannelMapping, Message, WeakChannel};
use std::collections::HashSet;

fn label() -> Label {
    Label { text: "public".to_string() }
}

fn message(data: Vec<u8>, channels: Vec<ChannelHalf>) -> Message {
    Message { data, channels }
}

fn users(mapping: &mut ChannelMapping, half: &ChannelHalf) -> (bool, bool, bool) {
    let look = |c: Channel| {
        let seen = (c.has_readers(), c.has_writers(), c.has_users());
        Operated::plain(c, Ok(seen))
    };
    match half.direction {
        ChannelHalfDirection::Read => with_reader_channel(mapping, half, look).0.unwrap(),
        ChannelHalfDirection::Write => with_writer_channel(mapping, half, look).0.unwrap(),
    }
}

fn entries(mapping: &mut ChannelMapping) -> Vec<u64> {
    let mut ids: Vec<u64> = mapping.get_channels().keys().copied().collect();
    ids.sort();
    ids
}

#[test]
fn new_mapping_is_empty() {
    let mut mapping = ChannelMapping::new();
    assert!(entries(&mut mapping).is_empty());
    assert_eq!(mapping.html_for_channel(0), None);
}

#[test]
fn new_channels_get_consecutive_ids() {
    let mut mapping = ChannelMapping::new();
    let (w0, r0) = mapping.new_channel(&label());
    let (w1, r1) = mapping.new_channel(&label());
    assert_eq!(w0.debug_text(), "Channel 0 WRITE");
    assert_eq!(r0.debug_text(), "Channel 0 READ");
    assert_eq!(w1.debug_text(), "Channel 1 WRITE");
    assert_eq!(r1.debug_text(), "Channel 1 READ");
    assert_eq!(entries(&mut mapping), vec![0, 1]);
    assert_eq!(users(&mut mapping, &w0), (true, true, true));
}

#[test]
fn channel_goes_with_its_last_half() {
    let mut mapping = ChannelMapping::new();
    let (w, r) = mapping.new_channel(&label());
    mapping.drop_half(w);
    assert_eq!(users(&mut mapping, &r), (true, false, true));
    assert_eq!(entries(&mut mapping), vec![0]);
    let woken = mapping.drop_half(r);
    assert!(woken.is_empty());
    assert!(entries(&mut mapping).is_empty());
    let (w, _r) = mapping.new_channel(&label());
    assert_eq!(w.debug_text(), "Channel 1 WRITE");
}

#[test]
fn drop_undoes_clone() {
    let mut mapping = ChannelMapping::new();
    let (w, r) = mapping.new_channel(&label());
    let before = mapping.graph_nodes();
    let w2 = mapping.clone_half(&w);
    assert_eq!(w2.debug_text(), "Channel 0 WRITE");
    assert!(mapping.graph_nodes() != before);
    assert!(mapping.drop_half(w2).is_empty());
    assert_eq!(mapping.graph_nodes(), before);
    let r2 = mapping.clone_half(&r);
    mapping.drop_half(r);
    assert_eq!(users(&mut mapping, &r2), (true, true, true));
    mapping.drop_half(r2);
    assert_eq!(users(&mut mapping, &w), (false, true, true));
}

#[test]
fn last_writer_wakes_waiters() {
    let mut mapping = ChannelMapping::new();
    let (w, r) = mapping.new_channel(&label());
    let w2 = mapping.clone_half(&w);
    with_reader_channel(&mut mapping, &r, |mut c: Channel| {
        c.add_waiter(7, 70);
        c.add_waiter(8, 80);
        c.add_waiter(7, 71);
        Operated::plain(c, Ok(()))
    })
    .0
    .unwrap();
    assert!(mapping.drop_half(w).is_empty());
    let woken = mapping.drop_half(w2);
    assert_eq!(woken.len(), 1);
    assert_eq!(woken[0].channel, 0);
    assert_eq!(woken[0].waiters.len(), 2);
    assert_eq!(woken[0].waiters[&7], 71);
    assert_eq!(woken[0].waiters[&8], 80);
    let left = with_reader_channel(&mut mapping, &r, |mut c: Channel| {
        let waiters = c.wake_waiters();
        Operated::plain(c, Ok(waiters.len()))
    });
    assert_eq!(left.0, Ok(0));
}

#[test]
fn last_reader_wakes_nobody() {
    let mut mapping = ChannelMapping::new();
    let (w, r) = mapping.new_channel(&label());
    with_reader_channel(&mut mapping, &r, |mut c: Channel| {
        c.add_waiter(1, 10);
        Operated::plain(c, Ok(()))
    })
    .0
    .unwrap();
    assert!(mapping.drop_half(r).is_empty());
    assert!(mapping.drop_half(w).is_empty());
}

#[test]
fn wrong_direction_is_refused() {
    let mut mapping = ChannelMapping::new();
    let (w, r) = mapping.new_channel(&label());
    let f = |c: Channel| Operated::plain(c, Ok(1u64));
    assert_eq!(with_reader_channel(&mut mapping, &w, f).0, Err(OakStatus::ErrBadHandle));
    assert_eq!(with_writer_channel(&mut mapping, &r, f).0, Err(OakStatus::ErrBadHandle));
    assert_eq!(with_reader_channel(&mut mapping, &r, f).0, Ok(1));
    assert_eq!(with_writer_channel(&mut mapping, &w, f).0, Ok(1));
}

#[test]
fn error_of_the_operation_is_returned() {
    let mut mapping = ChannelMapping::new();
    let (w, _r) = mapping.new_channel(&label());
    let (result, handed_out, woken) = with_writer_channel(&mut mapping, &w, |c: Channel| {
        Operated::<u64>::plain(c, Err(OakStatus::ErrChannelClosed))
    });
    assert!(handed_out.is_empty() && woken.is_empty());
    assert_eq!(result, Err(OakStatus::ErrChannelClosed));
}

#[test]
fn operation_can_queue_messages() {
    let mut mapping = ChannelMapping::new();
    let (w, r) = mapping.new_channel(&label());
    with_writer_channel(&mut mapping, &w, |mut c: Channel| {
        c.push(message(vec![4], vec![]));
        Operated::plain(c, Ok(()))
    })
    .0
    .unwrap();
    assert_eq!(mapping.pop_message(&r).unwrap().data, vec![4]);
}

#[test]
fn operation_can_take_a_message_out() {
    let mut mapping = ChannelMapping::new();
    let (w, r) = mapping.new_channel(&label());
    let (wb, rb) = mapping.new_channel(&label());
    mapping.push_message(&w, message(vec![7], vec![rb]));
    let (result, mut halves, woken) = with_reader_channel(&mut mapping, &r, |mut c: Channel| {
        assert_eq!(c.message_count(), 1);
        assert_eq!(c.message(0).data, vec![7]);
        assert_eq!(c.label().text, "public");
        let message = c.pop().unwrap();
        assert!(c.pop().is_none());
        Operated {
            channel: c,
            handed_out: message.channels,
            let_go: vec![],
            result: Ok(message.data),
        }
    });
    assert_eq!(result, Ok(vec![7]));
    assert!(woken.is_empty());
    assert_eq!(halves.len(), 1);
    let rb = halves.pop().unwrap();
    assert_eq!(rb.debug_text(), "Channel 1 READ");
    assert_eq!(users(&mut mapping, &wb), (true, true, true));
    mapping.drop_half(rb);
    assert_eq!(users(&mut mapping, &wb), (false, true, true));
}

#[test]
fn operation_lets_go_of_halves() {
    let mut mapping = ChannelMapping::new();
    let (w, r) = mapping.new_channel(&label());
    let (wb, rb) = mapping.new_channel(&label());
    let (wc, rc) = mapping.new_channel(&label());
    with_reader_channel(&mut mapping, &rc, |mut c: Channel| {
        c.add_waiter(4, 40);
        Operated::plain(c, Ok(()))
    })
    .0
    .unwrap();
    mapping.push_message(&w, message(vec![], vec![rb]));
    mapping.push_message(&w, message(vec![], vec![wc]));
    let (result, handed_out, woken) = with_reader_channel(&mut mapping, &r, |mut c: Channel| {
        let mut let_go = Vec::new();
        while let Some(message) = c.pop() {
            let_go.extend(message.channels);
        }
        Operated { channel: c, handed_out: vec![], let_go, result: Ok(()) }
    });
    assert_eq!(result, Ok(()));
    assert!(handed_out.is_empty());
    assert_eq!(users(&mut mapping, &wb), (false, true, true));
    assert_eq!(users(&mut mapping, &rc), (true, false, true));
    assert_eq!(woken.len(), 1);
    assert_eq!((woken[0].channel, woken[0].waiters[&4]), (2, 40));
}

#[test]
fn operation_can_make_a_half() {
    let mut mapping = ChannelMapping::new();
    let (w, r) = mapping.new_channel(&label());
    mapping.drop_half(w);
    assert_eq!(users(&mut mapping, &r), (true, false, true));
    let (result, mut halves, _) = with_reader_channel(&mut mapping, &r, |mut c: Channel| {
        let writer = ChannelHalf::new(&mut c, ChannelHalfDirection::Write);
        Operated { channel: c, handed_out: vec![writer], let_go: vec![], result: Ok(()) }
    });
    assert_eq!(result, Ok(()));
    let w = halves.pop().unwrap();
    assert_eq!(w.debug_text(), "Channel 0 WRITE");
    assert_eq!(users(&mut mapping, &w), (true, true, true));
    mapping.push_message(&w, message(vec![8], vec![]));
    assert_eq!(mapping.pop_message(&r).unwrap().data, vec![8]);
    mapping.drop_half(r);
    mapping.drop_half(w);
    assert!(entries(&mut mapping).is_empty());
}

#[test]
fn label_stays_with_the_channel() {
    let mut mapping = ChannelMapping::new();
    let (w, r) = mapping.new_channel(&Label { text: "mine".to_string() });
    let (w2, r2) = mapping.new_channel(&label());
    mapping.push_message(&w, message(vec![], vec![w2, r2]));
    mapping.notify_all_waiters();
    mapping.gc_in_order(&vec![1]);
    mapping.pop_message(&r);
    mapping.drop_half(w);
    let shown = with_reader_channel(&mut mapping, &r, |c: Channel| {
        let text = c.label().text.clone();
        Operated::plain(c, Ok(text))
    });
    assert_eq!(shown.0, Ok("mine".to_string()));
}

#[test]
fn gc_removes_dangling_entries() {
    let mut mapping = ChannelMapping::new();
    let (w, _r) = mapping.new_channel(&label());
    mapping.get_channels().insert(12, WeakChannel::new());
    let mut unvisited: HashSet<u64> = mapping.get_channels().keys().copied().collect();
    mapping.visit_half(&mut unvisited, &w);
    let (report, _) = mapping.gc(unvisited);
    assert_eq!(
        report,
        "<h2>Channel GC Result</h2><p>Reaped Channel 12: found dangling weak ref"
    );
    assert_eq!(entries(&mut mapping), vec![0]);
}

#[test]
fn messages_come_out_in_order() {
    let mut mapping = ChannelMapping::new();
    let (w, r) = mapping.new_channel(&label());
    assert!(mapping.pop_message(&r).is_none());
    mapping.push_message(&w, message(vec![1], vec![]));
    mapping.push_message(&w, message(vec![2, 2], vec![]));
    assert_eq!(mapping.pop_message(&r).unwrap().data, vec![1]);
    mapping.push_message(&w, message(vec![3], vec![]));
    assert_eq!(mapping.pop_message(&r).unwrap().data, vec![2, 2]);
    assert_eq!(mapping.pop_message(&r).unwrap().data, vec![3]);
    assert!(mapping.pop_message(&r).is_none());
}

#[test]
fn halves_in_messages_keep_channels_alive() {
    let mut mapping = ChannelMapping::new();
    let (wa, ra) = mapping.new_channel(&label());
    let (wb, rb) = mapping.new_channel(&label());
    mapping.push_message(&wa, message(vec![], vec![rb]));
    assert_eq!(users(&mut mapping, &wb), (true, true, true));
    let got = mapping.pop_message(&ra).unwrap();
    assert_eq!(got.channels.len(), 1);
    assert_eq!(got.channels[0].debug_text(), "Channel 1 READ");
}

#[test]
fn dropping_a_channel_drops_what_its_messages_carry() {
    let mut mapping = ChannelMapping::new();
    let (wa, ra) = mapping.new_channel(&label());
    let (wb, rb) = mapping.new_channel(&label());
    let (wc, rc) = mapping.new_channel(&label());
    with_reader_channel(&mut mapping, &rc, |mut c: Channel| {
        c.add_waiter(5, 50);
        Operated::plain(c, Ok(()))
    })
    .0
    .unwrap();
    // Channel 0 carries both halves of channel 1, which carries the only writer of channel 2.
    mapping.push_message(&wb, message(vec![], vec![wc]));
    mapping.push_message(&wa, message(vec![], vec![rb, wb]));
    assert!(mapping.drop_half(wa).len() == 1);
    let woken = mapping.drop_half(ra);
    assert_eq!(entries(&mut mapping), vec![2]);
    assert_eq!(users(&mut mapping, &rc), (true, false, true));
    assert_eq!(woken.len(), 1);
    assert_eq!(woken[0].channel, 2);
    assert_eq!(woken[0].waiters[&5], 50);
}

#[test]
fn all_waiters_are_notified() {
    let mut mapping = ChannelMapping::new();
    let (_w0, r0) = mapping.new_channel(&label());
    let (_w1, r1) = mapping.new_channel(&label());
    let (_w2, r2) = mapping.new_channel(&label());
    for (half, thread) in [(&r0, 10), (&r1, 11), (&r2, 12)] {
        with_reader_channel(&mut mapping, half, |mut c: Channel| {
            c.add_waiter(thread, thread + 100);
            Operated::plain(c, Ok(()))
        })
        .0
        .unwrap();
    }
    // A channel without an entry is passed over, and so is an entry without a channel.
    mapping.get_channels().remove(&1);
    mapping.get_channels().insert(40, WeakChannel::new());
    let mut woken = mapping.notify_all_waiters();
    woken.sort_by_key(|w| w.channel);
    assert_eq!(woken.len(), 2);
    assert_eq!((woken[0].channel, woken[0].waiters[&10]), (0, 110));
    assert_eq!((woken[1].channel, woken[1].waiters[&12]), (2, 112));
    let mut again = mapping.notify_all_waiters();
    again.sort_by_key(|w| w.channel);
    assert!(again.iter().all(|w| w.waiters.is_empty()));
    let kept = with_reader_channel(&mut mapping, &r1, |mut c: Channel| {
        let waiters = c.wake_waiters();
        Operated::plain(c, Ok(waiters.len()))
    });
    assert_eq!(kept.0, Ok(1));
}

#[test]
fn visit_follows_messages() {
    let mut mapping = ChannelMapping::new();
    let (w0, r0) = mapping.new_channel(&label());
    let (w1, r1) = mapping.new_channel(&label());
    let (w2, r2) = mapping.new_channel(&label());
    let (_w3, _r3) = mapping.new_channel(&label());
    // 0 leads to 1, 1 leads to 2, and 2 leads back to 0.
    mapping.push_message(&w0, message(vec![], vec![r1]));
    mapping.push_message(&w1, message(vec![], vec![r2]));
    mapping.push_message(&w2, message(vec![], vec![r0]));
    let mut unvisited: HashSet<u64> = [0, 1, 2, 3].into_iter().collect();
    mapping.visit_half(&mut unvisited, &w1);
    assert_eq!(unvisited, [3].into_iter().collect());
    // What counts as visited is not looked into.
    let mut unvisited: HashSet<u64> = [0, 1, 3].into_iter().collect();
    mapping.visit_half(&mut unvisited, &w1);
    assert_eq!(unvisited, [0, 3].into_iter().collect());
    let mut unvisited: HashSet<u64> = [0, 2].into_iter().collect();
    mapping.visit_half(&mut unvisited, &w1);
    assert_eq!(unvisited, [0, 2].into_iter().collect());
}

#[test]
fn gc_reclaims_cycles() {
    let mut mapping = ChannelMapping::new();
    let (w0, r0) = mapping.new_channel(&label());
    let (w1, r1) = mapping.new_channel(&label());
    let (w2, r2) = mapping.new_channel(&label());
    // Channels 1 and 2 hold each other's halves; nothing else refers to them.
    let w1_inside = mapping.clone_half(&w1);
    mapping.push_message(&w1, message(vec![1], vec![w2, r2]));
    mapping.push_message(&w0, message(vec![], vec![]));
    let m = mapping.pop_message(&r1).unwrap();
    let mut halves = m.channels;
    let r2 = halves.pop().unwrap();
    let w2 = halves.pop().unwrap();
    mapping.push_message(&w2, message(vec![2], vec![r1, w1_inside]));
    mapping.push_message(&w1, message(vec![1], vec![w2, r2]));
    mapping.drop_half(w1);
    assert_eq!(entries(&mut mapping), vec![0, 1, 2]);
    let mut unvisited: HashSet<u64> = mapping.get_channels().keys().copied().collect();
    mapping.visit_half(&mut unvisited, &w0);
    mapping.visit_half(&mut unvisited, &r0);
    assert_eq!(unvisited, [1, 2].into_iter().collect());
    let (report, _) = mapping.gc(unvisited);
    assert!(report.starts_with("<h2>Channel GC Result</h2><p>Reaped Channel "));
    assert_eq!(entries(&mut mapping), vec![0]);
    assert_eq!(users(&mut mapping, &w0), (true, true, true));
}

#[test]
fn gc_reports_on_each_channel() {
    let mut mapping = ChannelMapping::new();
    let (_w, r) = mapping.new_channel(&label());
    mapping.get_channels().insert(17, WeakChannel::new());
    let (report, woken) = mapping.gc_in_order(&vec![0, 17, 23, 0]);
    assert_eq!(
        report,
        "<h2>Channel GC Result</h2><p>Reaped Channel 0: dropped\
         <p>Reaped Channel 17: found dangling weak ref\
         <p>Reaped Channel 23: not found<p>Reaped Channel 0: not found"
    );
    assert!(woken.is_empty());
    assert!(entries(&mut mapping).is_empty());
    // A half that is still held keeps its channel, although it has lost its entry.
    assert_eq!(users(&mut mapping, &r), (true, true, true));
}

#[test]
fn gc_of_nothing_reports_nothing() {
    let mut mapping = ChannelMapping::new();
    let (report, woken) = mapping.gc(HashSet::new());
    assert_eq!(report, "<h2>Channel GC Result</h2>");
    assert!(woken.is_empty());
}

#[test]
fn gc_wakes_orphaned_readers() {
    let mut mapping = ChannelMapping::new();
    let (w0, _r0) = mapping.new_channel(&label());
    let (w1, r1) = mapping.new_channel(&label());
    with_reader_channel(&mut mapping, &r1, |mut c: Channel| {
        c.add_waiter(3, 30);
        Operated::plain(c, Ok(()))
    })
    .0
    .unwrap();
    mapping.push_message(&w0, message(vec![], vec![w1]));
    let (result, woken) = mapping.gc_channel(0);
    assert_eq!(result, "dropped");
    assert_eq!(woken.len(), 1);
    assert_eq!((woken[0].channel, woken[0].waiters[&3]), (1, 30));
}

#[test]
fn entry_may_refer_to_another_channel() {
    let mut mapping = ChannelMapping::new();
    let (w0, r0) = mapping.new_channel(&label());
    let (_w1, _r1) = mapping.new_channel(&label());
    mapping.push_message(&w0, message(vec![1], vec![]));
    let (weak, _, _) = with_reader_channel(&mut mapping, &r0, |mut c: Channel| {
        c.add_waiter(2, 20);
        let weak = c.downgrade();
        Operated::plain(c, Ok(weak))
    });
    mapping.get_channels().insert(9, weak.unwrap());
    let page = "Channel { id=0, reader_count=1, writer_count=1, label=public }<br/>\
                Messages: (count = 1):<ul>  <li>message[0]: data.len()=1, halves=[]";
    assert_eq!(mapping.html_for_channel(9).unwrap(), page);
    assert_eq!(mapping.html_for_channel(0).unwrap(), page);
    // Both entries lead to channel 0, whose waiters are woken once.
    let woken = mapping.notify_all_waiters();
    assert_eq!(woken.len(), 3);
    let slots: usize = woken.iter().map(|w| w.waiters.len()).sum();
    assert_eq!(slots, 1);
    // Reaping the entry empties the channel that it refers to.
    let (result, _) = mapping.gc_channel(9);
    assert_eq!(result, "dropped");
    assert!(mapping.pop_message(&r0).is_none());
    assert_eq!(entries(&mut mapping), vec![0, 1]);
}

#[test]
fn dead_entry_hides_a_live_channel() {
    let mut mapping = ChannelMapping::new();
    let (w, r) = mapping.new_channel(&label());
    mapping.push_message(&w, message(vec![1], vec![]));
    mapping.get_channels().insert(0, WeakChannel::new());
    assert_eq!(
        mapping.html_for_channel(0).unwrap(),
        "Weak reference to Channel { id=0 }"
    );
    assert!(mapping.notify_all_waiters().is_empty());
    let (result, woken) = mapping.gc_channel(0);
    assert_eq!(result, "found dangling weak ref");
    assert!(woken.is_empty());
    assert_eq!(mapping.pop_message(&r).unwrap().data, vec![1]);
}

#[test]
fn halves_are_visited_in_their_own_table() {
    let mut ours = ChannelMapping::new();
    let mut theirs = ChannelMapping::new();
    let (_w0, _r0) = ours.new_channel(&label());
    let (w0, _r) = theirs.new_channel(&label());
    let (_w1, r1) = theirs.new_channel(&label());
    theirs.push_message(&w0, message(vec![], vec![r1]));
    let mut unvisited: HashSet<u64> = [0, 1].into_iter().collect();
    theirs.visit_half(&mut unvisited, &w0);
    assert!(unvisited.is_empty());
}
