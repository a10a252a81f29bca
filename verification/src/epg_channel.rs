use vstd::prelude::*;
use crate::eit::{Eit, EitItem};
use crate::epg_event::{decode_event, EpgEvent, EpgEventView};
use crate::text_map::TextMap;

verus! {

/// What a channel is, as plain values.
pub struct EpgChannelView {
    pub name: Seq<(Seq<char>, Seq<char>)>,
    pub events: Seq<EpgEventView>,
    pub last_event_start: Option<u64>,
}

/// The programmes of one channel.
#[derive(Debug, PartialEq)]
pub struct EpgChannel {
    /// Names of the channel by language
    pub name: TextMap,
    /// The events of the channel
    pub events: Vec<EpgEvent>,
    /// Start time of the last event that was there when the events were
    /// last put in order; `None` as long as none has been seen
    pub last_event_start: Option<u64>,
}

/// The events as plain values.
pub open spec fn events_view(events: Seq<EpgEvent>) -> Seq<EpgEventView> {
    Seq::new(events.len(), |i: int| events[i]@)
}

impl View for EpgChannel {
    type V = EpgChannelView;

    /// The channel as plain values.
    open spec fn view(&self) -> EpgChannelView {
        EpgChannelView {
            name: self.name@,
            events: events_view(self.events@),
            last_event_start: self.last_event_start,
        }
    }
}

impl Default for EpgChannel {
    /// A channel without names and events, which has seen no event yet.
    fn default() -> (r: Self)
        ensures
            r@ == (EpgChannelView {
                name: Seq::empty(),
                events: Seq::empty(),
                last_event_start: None,
            }),
    {
        let r = EpgChannel { name: TextMap::new(), events: Vec::new(), last_event_start: None };
        assert(r@.events =~= Seq::empty());
        r
    }
}

/// Where an event that starts at `start` goes into events in order: before
/// the first one that starts at `start` or later.
pub open spec fn insert_place(events: Seq<EpgEventView>, start: u64) -> int
    decreases events.len(),
{
    if events.len() == 0 {
        0
    } else if events[0].start >= start {
        0
    } else {
        1 + insert_place(events.skip(1), start)
    }
}

/// The events in the order of their start times; events that start at the
/// same time keep the order they had.
pub open spec fn sort_events(events: Seq<EpgEventView>) -> Seq<EpgEventView>
    decreases events.len(),
{
    if events.len() == 0 {
        events
    } else {
        let rest = sort_events(events.skip(1));
        rest.insert(insert_place(rest, events[0].start), events[0])
    }
}

/// No event starts before one that stands earlier.
pub open spec fn in_start_order(events: Seq<EpgEventView>) -> bool {
    forall|i: int, j: int|
        0 <= i <= j < events.len() ==> (#[trigger] events[i]).start <= (#[trigger] events[j]).start
}

/// The start time of the last event.
pub open spec fn last_start(events: Seq<EpgEventView>) -> Option<u64> {
    if events.len() == 0 {
        None
    } else {
        Some(events.last().start)
    }
}

/// The events with identifiers that count up from the first one's, and go
/// on from 0 behind 65535.
pub open spec fn renumbered(events: Seq<EpgEventView>) -> Seq<EpgEventView> {
    Seq::new(
        events.len(),
        |i: int|
            EpgEventView { event_id: ((events[0].event_id + i) % 0x10000) as u16, ..events[i] },
    )
}

/// The events that the rows of a table stand for, in the order of the rows.
pub open spec fn decode_items(items: Seq<EitItem<String>>) -> Seq<EpgEventView> {
    Seq::new(items.len(), |i: int| decode_event(items[i]@))
}

/// A channel after the rows `items` of a table have come in: their events
/// stand with those that were there, all in the order of their start times
/// and numbered from the first one on.
pub open spec fn merge_items(channel: EpgChannelView, items: Seq<EitItem<String>>) -> EpgChannelView {
    let sorted = sort_events(channel.events + decode_items(items));
    EpgChannelView { name: channel.name, events: renumbered(sorted), last_event_start: last_start(sorted) }
}

/// The place that `insert_place` gives is the one before which every event
/// starts earlier and at which none does.
pub proof fn lemma_insert_place(events: Seq<EpgEventView>, start: u64, p: int)
    requires
        0 <= p <= events.len(),
        forall|j: int| 0 <= j < p ==> (#[trigger] events[j]).start < start,
        p < events.len() ==> events[p].start >= start,
    ensures
        insert_place(events, start) == p,
    decreases events.len(),
{
    if events.len() > 0 && p > 0 {
        assert(events[0].start < start);
        let rest = events.skip(1);
        assert forall|j: int| 0 <= j < p - 1 implies (#[trigger] rest[j]).start < start by {
            assert(rest[j] == events[j + 1]);
        }
        lemma_insert_place(rest, start, p - 1);
    }
}

/// `insert_place` lies within the events, behind all that start earlier.
pub proof fn lemma_insert_place_bounds(events: Seq<EpgEventView>, start: u64)
    ensures
        0 <= insert_place(events, start) <= events.len(),
        forall|j: int|
            0 <= j < insert_place(events, start) ==> (#[trigger] events[j]).start < start,
        insert_place(events, start) < events.len() ==> events[insert_place(events, start)].start
            >= start,
    decreases events.len(),
{
    if events.len() > 0 && events[0].start < start {
        let rest = events.skip(1);
        lemma_insert_place_bounds(rest, start);
        let p = insert_place(rest, start);
        assert forall|j: int| 0 <= j < p + 1 implies (#[trigger] events[j]).start < start by {
            if j > 0 {
                assert(rest[j - 1] == events[j]);
            }
        }
        if p < rest.len() {
            assert(rest[p] == events[p + 1]);
        }
    }
}

/// Sorting keeps every event, and no event then starts before one that
/// stands earlier.
pub proof fn lemma_sort_events(events: Seq<EpgEventView>)
    ensures
        sort_events(events).len() == events.len(),
        sort_events(events).to_multiset() == events.to_multiset(),
        in_start_order(sort_events(events)),
    decreases events.len(),
{
    if events.len() > 0 {
        let rest = sort_events(events.skip(1));
        lemma_sort_events(events.skip(1));
        let e = events[0];
        let p = insert_place(rest, e.start);
        lemma_insert_place_bounds(rest, e.start);
        let r = rest.insert(p, e);
        assert forall|i: int, j: int| 0 <= i <= j < r.len() implies (#[trigger] r[i]).start <= (
        #[trigger] r[j]).start by {
            if i < p && j > p {
                assert(rest[i].start <= rest[j - 1].start);
            } else if i < p && j < p {
                assert(rest[i].start <= rest[j].start);
            } else if i > p && j > p {
                assert(rest[i - 1].start <= rest[j - 1].start);
            } else if i == p && j > p {
                assert(rest[p].start <= rest[j - 1].start);
            }
        }
        assert(events =~= seq![e] + events.skip(1));
        assert(r =~= rest.subrange(0, p) + seq![e] + rest.subrange(p, rest.len() as int));
        assert(rest =~= rest.subrange(0, p) + rest.subrange(p, rest.len() as int));
        vstd::seq_lib::lemma_multiset_commutative(seq![e], events.skip(1));
        vstd::seq_lib::lemma_multiset_commutative(rest.subrange(0, p), seq![e]);
        vstd::seq_lib::lemma_multiset_commutative(
            rest.subrange(0, p) + seq![e],
            rest.subrange(p, rest.len() as int),
        );
        vstd::seq_lib::lemma_multiset_commutative(
            rest.subrange(0, p),
            rest.subrange(p, rest.len() as int),
        );
        assert(r.to_multiset() =~= events.to_multiset());
    }
}

/// Events that stand in the order of their start times stay as they are
/// when they are sorted.
pub proof fn lemma_sort_sorted(events: Seq<EpgEventView>)
    requires
        in_start_order(events),
    ensures
        sort_events(events) == events,
    decreases events.len(),
{
    if events.len() > 0 {
        let rest = events.skip(1);
        assert forall|i: int, j: int| 0 <= i <= j < rest.len() implies (#[trigger] rest[i]).start
            <= (#[trigger] rest[j]).start by {
            assert(rest[i] == events[i + 1] && rest[j] == events[j + 1]);
            assert(events[i + 1].start <= events[j + 1].start);
        }
        lemma_sort_sorted(rest);
        assert(rest.len() > 0 ==> events[0].start <= rest[0].start) by {
            if rest.len() > 0 {
                assert(rest[0] == events[1]);
                assert(events[0].start <= events[1].start);
            }
        }
        lemma_insert_place(rest, events[0].start, 0);
        assert(rest.insert(0, events[0]) =~= events);
    }
}

/// Numbering the events anew leaves their order.
pub proof fn lemma_renumbered_order(events: Seq<EpgEventView>)
    requires
        in_start_order(events),
    ensures
        in_start_order(renumbered(events)),
{
    let r = renumbered(events);
    assert forall|i: int, j: int| 0 <= i <= j < r.len() implies (#[trigger] r[i]).start <= (
    #[trigger] r[j]).start by {
        assert(events[i].start <= events[j].start);
    }
}

/// A channel whose events stand in order, and which has noted the start of
/// the last one, stays as it is when its events are put in order.
pub proof fn lemma_sorted_channel_stays(channel: EpgChannelView)
    requires
        in_start_order(channel.events),
        channel.last_event_start == last_start(channel.events),
    ensures
        sort_events(channel.events) == channel.events,
        last_start(sort_events(channel.events)) == channel.last_event_start,
{
    lemma_sort_sorted(channel.events);
}

/// Events in order, one of them put in at `insert_place`.
pub fn insert_in_order(sorted: &mut Vec<EpgEvent>, event: EpgEvent)
    ensures
        events_view(final(sorted)@) == events_view(old(sorted)@).insert(
            insert_place(events_view(old(sorted)@), event.start),
            event@,
        ),
{
    let ghost before = events_view(sorted@);
    let mut p: usize = 0;
    while p < sorted.len() && sorted[p].start < event.start
        invariant
            p <= sorted@.len(),
            sorted@ == old(sorted)@,
            before == events_view(sorted@),
            forall|j: int| 0 <= j < p ==> (#[trigger] before[j]).start < event.start,
        decreases sorted@.len() - p,
    {
        p += 1;
    }
    proof {
        lemma_insert_place(before, event.start, p as int);
    }
    sorted.insert(p, event);
    assert(events_view(sorted@) =~= before.insert(p as int, event@));
}

impl EpgChannel {
    /// Puts the events in the order of their start times, notes the start
    /// of the last one and numbers the events anew: the earliest one keeps
    /// its identifier, each other one gets the one before it plus one, and 0
    /// follows 65535. Events that start at the same time keep the order they
    /// had.
    pub fn sort(&mut self)
        ensures
            final(self)@ == (EpgChannelView {
                name: old(self)@.name,
                events: renumbered(sort_events(old(self)@.events)),
                last_event_start: last_start(sort_events(old(self)@.events)),
            }),
            in_start_order(final(self)@.events),
            final(self)@.events.len() == old(self)@.events.len(),
    {
        self.put_in_order();
        proof {
            lemma_renumbered_order(self@.events);
        }
        self.renumber();
    }

    /// Puts the events in the order of their start times and notes the
    /// start of the last one. Every event keeps its identifier. Events that
    /// start at the same time keep the order they had.
    pub fn put_in_order(&mut self)
        ensures
            final(self)@ == (EpgChannelView {
                name: old(self)@.name,
                events: sort_events(old(self)@.events),
                last_event_start: last_start(sort_events(old(self)@.events)),
            }),
            in_start_order(final(self)@.events),
            final(self)@.events.to_multiset() == old(self)@.events.to_multiset(),
            final(self)@.events.len() == old(self)@.events.len(),
    {
        let ghost before = events_view(self.events@);
        let mut sorted: Vec<EpgEvent> = Vec::new();
        assert(before.skip(before.len() as int) =~= Seq::empty());
        assert(events_view(sorted@) =~= Seq::empty());
        while self.events.len() > 0
            invariant
                self.name == old(self).name,
                self.events@.len() <= before.len(),
                events_view(self.events@) == before.take(self.events@.len() as int),
                events_view(sorted@) == sort_events(before.skip(self.events@.len() as int)),
            decreases self.events@.len(),
        {
            let ghost k = self.events@.len() - 1;
            let ghost prev = events_view(self.events@);
            let event = self.events.pop().unwrap();
            proof {
                assert(event@ == prev[k]);
                assert(events_view(self.events@) =~= before.take(k));
                assert(before.skip(k)[0] == event@);
                assert(before.skip(k).skip(1) =~= before.skip(k + 1));
            }
            insert_in_order(&mut sorted, event);
        }
        proof {
            assert(before.skip(0) =~= before);
            lemma_sort_events(before);
        }
        self.last_event_start = if sorted.len() > 0 {
            Some(sorted[sorted.len() - 1].start)
        } else {
            None
        };
        self.events = sorted;
    }

    /// Numbers the events anew: the first one keeps its identifier, each
    /// other one gets the one before it plus one, and 0 follows 65535.
    pub fn renumber(&mut self)
        ensures
            final(self)@ == (EpgChannelView {
                events: renumbered(old(self)@.events),
                ..old(self)@
            }),
    {
        let ghost before = events_view(self.events@);
        let count = self.events.len();
        if count == 0 {
            assert(events_view(self.events@) =~= renumbered(before));
            return ;
        }
        let first = self.events[0].event_id;
        let mut event_id = first;
        let mut i: usize = 0;
        while i < count
            invariant
                i <= count,
                count == self.events@.len(),
                count == before.len(),
                self.name == old(self).name,
                self.last_event_start == old(self).last_event_start,
                first == before[0].event_id,
                event_id == ((first + i) % 0x10000) as u16,
                forall|j: int| 0 <= j < i ==> events_view(self.events@)[j] == renumbered(before)[j],
                forall|j: int| i <= j < count ==> events_view(self.events@)[j] == before[j],
            decreases count - i,
        {
            self.events[i].event_id = event_id;
            event_id = event_id.wrapping_add(1);
            i += 1;
        }
        assert(events_view(self.events@) =~= renumbered(before));
    }

    /// Takes in the rows of a table: each row gives an event, the events
    /// are put in order with those that were there, and all are numbered
    /// from the first one on.
    pub fn parse(&mut self, eit: &Eit<String>)
        requires
            forall|i: int|
                0 <= i < eit.items@.len() ==> (#[trigger] eit.items@[i]).start
                    + eit.items@[i].duration <= u64::MAX,
        ensures
            final(self)@ == merge_items(old(self)@, eit.items@),
            in_start_order(final(self)@.events),
    {
        let ghost before = events_view(self.events@);
        let count = eit.items.len();
        let mut i: usize = 0;
        while i < count
            invariant
                i <= count,
                count == eit.items@.len(),
                self.name == old(self).name,
                forall|k: int|
                    0 <= k < eit.items@.len() ==> (#[trigger] eit.items@[k]).start
                        + eit.items@[k].duration <= u64::MAX,
                events_view(self.events@) == before + decode_items(eit.items@).take(i as int),
            decreases count - i,
        {
            let ghost prev = events_view(self.events@);
            let event = EpgEvent::from_eit_item(&eit.items[i]);
            self.events.push(event);
            i += 1;
            assert(events_view(self.events@) =~= prev.push(event@));
            assert(events_view(self.events@) =~= before + decode_items(eit.items@).take(i as int));
        }
        assert(decode_items(eit.items@).take(count as int) =~= decode_items(eit.items@));
        self.sort();
    }
}

} // verus!
