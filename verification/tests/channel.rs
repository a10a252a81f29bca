use epg::{ChannelMap, Descriptor, Eit, EitItem, EpgChannel, EpgEvent, TextMap};

fn channel() -> EpgChannel {
    let channel = EpgChannel::default();
    assert_eq!(
        channel,
        EpgChannel { name: TextMap::new(), events: Vec::new(), last_event_start: None }
    );
    channel
}

fn event(id: u16, start: u64, title: &str) -> EpgEvent {
    let mut event = EpgEvent::default();
    event.event_id = id;
    event.start = start;
    event.stop = start + 10;
    event.title.insert("eng".to_string(), title.to_string());
    event
}

fn row(id: u16, start: u64, title: &str) -> EitItem<String> {
    EitItem {
        event_id: id,
        start,
        duration: 10,
        status: 1,
        descriptors: vec![Descriptor::ShortEvent {
            lang: "eng".to_string(),
            name: title.to_string(),
            text: String::new(),
        }],
    }
}

fn titles(channel: &EpgChannel) -> Vec<String> {
    channel.events.iter().map(|e| e.title.get("eng").unwrap().clone()).collect()
}

#[test]
fn sort_orders_by_start() {
    let mut channel = channel();
    channel.events.push(event(5, 30, "c"));
    channel.events.push(event(6, 10, "a"));
    channel.events.push(event(7, 20, "b"));
    channel.sort();
    assert_eq!(titles(&channel), vec!["a", "b", "c"]);
    assert_eq!(channel.last_event_start, Some(30));
    // the events are numbered from the earliest one on
    let ids: Vec<u16> = channel.events.iter().map(|e| e.event_id).collect();
    assert_eq!(ids, vec![6, 7, 8]);
    for pair in channel.events.windows(2) {
        assert!(pair[0].start <= pair[1].start);
    }
}

#[test]
fn sort_numbers_from_the_earliest_event() {
    let mut channel = channel();
    channel.events.push(event(7, 30, "c"));
    channel.events.push(event(9, 10, "a"));
    channel.events.push(event(3, 20, "b"));
    channel.sort();
    let seen: Vec<(u16, u64, u64)> =
        channel.events.iter().map(|e| (e.event_id, e.start, e.stop)).collect();
    assert_eq!(seen, vec![(9, 10, 20), (10, 20, 30), (11, 30, 40)]);
    assert_eq!(channel.last_event_start, Some(30));
}

#[test]
fn sort_numbers_on_behind_the_last_identifier() {
    let mut channel = channel();
    channel.events.push(event(65535, 10, "a"));
    channel.events.push(event(3, 20, "b"));
    channel.sort();
    assert_eq!(channel.events[0].event_id, 65535);
    assert_eq!(channel.events[1].event_id, 0);
    assert_eq!(channel.last_event_start, Some(20));
}

#[test]
fn order_keeps_the_identifiers() {
    let mut channel = channel();
    channel.events.push(event(5, 30, "c"));
    channel.events.push(event(6, 10, "a"));
    channel.events.push(event(7, 20, "b"));
    channel.put_in_order();
    assert_eq!(titles(&channel), vec!["a", "b", "c"]);
    let ids: Vec<u16> = channel.events.iter().map(|e| e.event_id).collect();
    assert_eq!(ids, vec![6, 7, 5]);
    assert_eq!(channel.last_event_start, Some(30));
}

#[test]
fn sort_keeps_equal_starts_in_place() {
    let mut channel = channel();
    channel.events.push(event(0, 20, "first"));
    channel.events.push(event(0, 10, "early"));
    channel.events.push(event(0, 20, "second"));
    channel.events.push(event(0, 20, "third"));
    channel.sort();
    assert_eq!(titles(&channel), vec!["early", "first", "second", "third"]);
}

#[test]
fn sort_of_nothing_notes_nothing() {
    let mut channel = channel();
    channel.last_event_start = Some(5);
    channel.sort();
    assert!(channel.events.is_empty());
    assert_eq!(channel.last_event_start, None);
}

#[test]
fn sort_of_sorted_changes_nothing() {
    let mut channel = channel();
    channel.events.push(event(1, 10, "a"));
    channel.events.push(event(2, 20, "b"));
    channel.sort();
    let before = channel.events.clone();
    channel.sort();
    assert_eq!(channel.events, before);
    assert_eq!(channel.last_event_start, Some(20));
}

#[test]
fn renumber_counts_from_the_first() {
    let mut channel = channel();
    channel.events.push(event(65534, 10, "a"));
    channel.events.push(event(3, 20, "b"));
    channel.events.push(event(3, 30, "c"));
    channel.events.push(event(9, 40, "d"));
    channel.renumber();
    let ids: Vec<u16> = channel.events.iter().map(|e| e.event_id).collect();
    assert_eq!(ids, vec![65534, 65535, 0, 1]);
    assert_eq!(titles(&channel), vec!["a", "b", "c", "d"]);
}

#[test]
fn table_is_merged_in_order() {
    let mut channel = channel();
    channel.events.push(event(100, 50, "old"));
    let eit = Eit {
        table_id: 0x50,
        version: 0,
        pnr: 1,
        tsid: 1,
        onid: 1,
        items: vec![row(40, 70, "late"), row(41, 20, "early"), row(42, 60, "mid")],
    };
    channel.parse(&eit);
    assert_eq!(titles(&channel), vec!["early", "old", "mid", "late"]);
    let ids: Vec<u16> = channel.events.iter().map(|e| e.event_id).collect();
    assert_eq!(ids, vec![41, 42, 43, 44]);
    assert_eq!(channel.last_event_start, Some(70));
    assert_eq!(channel.events[0].stop, 30);
}

#[test]
fn empty_table_leaves_an_empty_channel() {
    let mut channel = channel();
    let eit: Eit<String> =
        Eit { table_id: 0x50, version: 0, pnr: 1, tsid: 1, onid: 1, items: Vec::new() };
    channel.parse(&eit);
    assert!(channel.events.is_empty());
    assert_eq!(channel.last_event_start, None);
}

#[test]
fn channels_stand_under_their_identifiers() {
    let mut channels = ChannelMap::new();
    assert!(channels.is_empty());
    let mut first = channel();
    first.name.insert("eng".to_string(), "One".to_string());
    channels.insert("a".to_string(), first);
    channels.insert("b".to_string(), channel());
    assert_eq!(channels.len(), 2);
    assert!(channels.contains_key("a"));
    assert!(!channels.contains_key("c"));
    assert_eq!(channels.get("a").unwrap().name.get("eng").unwrap(), "One");
    assert!(channels.get("c").is_none());
    assert_eq!(channels.position("b"), Some(1));
    assert_eq!(channels.id_at(0), "a");

    // a channel that comes again takes the place of the first
    channels.insert("a".to_string(), channel());
    assert_eq!(channels.len(), 2);
    assert!(channels.channel_at(0).name.is_empty());

    channels.push_event(1, event(1, 20, "x"));
    channels.push_event(1, event(2, 10, "y"));
    channels.sort_all();
    assert_eq!(titles(channels.get("b").unwrap()), vec!["y", "x"]);
    assert_eq!(channels.get("b").unwrap().last_event_start, Some(20));
    assert_eq!(channels.get("a").unwrap().last_event_start, None);
}
