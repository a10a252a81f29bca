use vstd::prelude::*;
use crate::epg_channel::{
    in_start_order,
    insert_place,
    last_start,
    lemma_insert_place,
    lemma_insert_place_bounds,
    lemma_sort_events,
    sort_events,
    EpgChannelView,
};
use crate::epg_event::EpgEventView;
use crate::read_xml::{
    gather_events,
    lemma_programme_texts,
    lemma_read_element,
    parse_events,
    programme_attrs,
    programme_texts,
    read_element,
    read_programme,
    takes,
};
use crate::text_map::{has_key, key_index};
use crate::xml_event::{Attribute, XmlEvent};

verus! {

/// Whether the channel `after` is the channel `before` with events behind
/// its own that `before` takes: the names, the events that were there and
/// the start that was noted are the same.
pub open spec fn grown(before: EpgChannelView, after: EpgChannelView) -> bool {
    &&& after.name == before.name
    &&& after.last_event_start == before.last_event_start
    &&& before.events.len() <= after.events.len()
    &&& after.events.take(before.events.len() as int) == before.events
    &&& forall|k: int|
        before.events.len() <= k < after.events.len() ==> takes(
            before,
            (#[trigger] after.events[k]).start,
        )
}

/// Whether the schedule `after` is the schedule `before` with channels
/// behind its own, and with its own channels grown.
pub open spec fn schedule_grown(
    before: Seq<(Seq<char>, EpgChannelView)>,
    after: Seq<(Seq<char>, EpgChannelView)>,
) -> bool {
    &&& before.len() <= after.len()
    &&& forall|i: int|
        0 <= i < before.len() ==> (#[trigger] after[i]).0 == before[i].0 && grown(
            before[i].1,
            after[i].1,
        )
}

/// A schedule that has grown twice has grown.
pub proof fn lemma_grown_twice(
    a: Seq<(Seq<char>, EpgChannelView)>,
    b: Seq<(Seq<char>, EpgChannelView)>,
    c: Seq<(Seq<char>, EpgChannelView)>,
)
    requires
        schedule_grown(a, b),
        schedule_grown(b, c),
    ensures
        schedule_grown(a, c),
{
    assert forall|i: int| 0 <= i < a.len() implies (#[trigger] c[i]).0 == a[i].0 && grown(
        a[i].1,
        c[i].1,
    ) by {
        assert(b[i].0 == a[i].0 && grown(a[i].1, b[i].1));
        assert(c[i].0 == b[i].0 && grown(b[i].1, c[i].1));
        let x = a[i].1.events;
        let y = b[i].1.events;
        let z = c[i].1.events;
        assert(z.take(x.len() as int) =~= z.take(y.len() as int).take(x.len() as int));
        assert forall|k: int| x.len() <= k < z.len() implies takes(
            a[i].1,
            (#[trigger] z[k]).start,
        ) by {
            if k < y.len() {
                assert(z.take(y.len() as int)[k] == z[k]);
                assert(takes(a[i].1, y[k].start));
            } else {
                assert(takes(b[i].1, z[k].start));
            }
        }
    }
}

/// An element that is read lets the schedule grow.
pub proof fn lemma_element_grows(
    epg: Seq<(Seq<char>, EpgChannelView)>,
    name: Seq<char>,
    attrs: Seq<Attribute>,
    events: Seq<XmlEvent>,
    langs: Seq<(Seq<char>, Seq<char>)>,
)
    requires
        read_element(epg, name, attrs, events, langs).is_some(),
    ensures
        schedule_grown(epg, read_element(epg, name, attrs, events, langs).unwrap().0),
{
    let next = read_element(epg, name, attrs, events, langs).unwrap().0;
    let said = programme_attrs(attrs);
    let fresh = EpgEventView {
        event_id: said.event_id,
        start: said.start,
        stop: said.stop,
        title: Seq::empty(),
        subtitle: Seq::empty(),
        desc: Seq::empty(),
        codepage: 0,
        parental_rating: Seq::empty(),
    };
    lemma_programme_texts(events, fresh, langs);
    assert forall|i: int| 0 <= i < epg.len() implies (#[trigger] next[i]).0 == epg[i].0 && grown(
        epg[i].1,
        next[i].1,
    ) by {
        let x = epg[i].1.events;
        let y = next[i].1.events;
        if y.len() == x.len() {
            assert(y.take(x.len() as int) =~= y);
        } else {
            assert(y == x.push(programme_texts(events, fresh, langs).unwrap().0));
            assert(y.take(x.len() as int) =~= x);
        }
    }
}

/// The events of a document let the schedule grow: up to the end of the
/// document, every channel keeps its names, its events and the start it has
/// noted, and gets behind its events only such as start later than that.
pub proof fn lemma_gather_grows(
    epg: Seq<(Seq<char>, EpgChannelView)>,
    events: Seq<XmlEvent>,
    langs: Seq<(Seq<char>, Seq<char>)>,
)
    ensures
        schedule_grown(epg, gather_events(epg, events, langs).0),
    decreases events.len(),
{
    assert forall|i: int| 0 <= i < epg.len() implies grown(epg[i].1, (#[trigger] epg[i]).1) by {
        assert(epg[i].1.events.take(epg[i].1.events.len() as int) =~= epg[i].1.events);
    }
    if events.len() > 0 {
        match events[0] {
            XmlEvent::StartElement { name, attributes } => {
                if name@ == "tv"@ {
                    lemma_gather_grows(epg, events.skip(1), langs);
                } else {
                    lemma_read_element(epg, name@, attributes@, events.skip(1), langs);
                    match read_element(epg, name@, attributes@, events.skip(1), langs) {
                        Some((next, n)) => {
                            lemma_element_grows(epg, name@, attributes@, events.skip(1), langs);
                            lemma_gather_grows(next, events.skip(1 + n), langs);
                            lemma_grown_twice(
                                epg,
                                next,
                                gather_events(next, events.skip(1 + n), langs).0,
                            );
                        },
                        None => {},
                    }
                }
            },
            XmlEvent::EndDocument => {},
            _ => {
                lemma_gather_grows(epg, events.skip(1), langs);
            },
        }
    }
}

/// Every event of sorted events is one of the events.
pub proof fn lemma_sorted_from(events: Seq<EpgEventView>, k: int)
    requires
        0 <= k < sort_events(events).len(),
    ensures
        exists|j: int| 0 <= j < events.len() && events[j] == sort_events(events)[k],
{
    lemma_sort_events(events);
    let sorted = sort_events(events);
    let e = sorted[k];
    sorted.to_multiset_ensures();
    events.to_multiset_ensures();
    assert(sorted.contains(e));
    assert(sorted.to_multiset().count(e) > 0);
    assert(events.to_multiset().count(e) > 0);
    assert(events.contains(e));
    let j = choose|j: int| 0 <= j < events.len() && events[j] == e;
    assert(events[j] == sort_events(events)[k]);
}

/// Events in order with later ones behind them stay where they are when
/// all are sorted; the later ones follow in their order.
pub proof fn lemma_sort_behind(a: Seq<EpgEventView>, b: Seq<EpgEventView>)
    requires
        in_start_order(a),
        forall|i: int, k: int|
            0 <= i < a.len() && 0 <= k < b.len() ==> (#[trigger] a[i]).start < (
            #[trigger] b[k]).start,
    ensures
        sort_events(a + b) == a + sort_events(b),
    decreases a.len(),
{
    if a.len() == 0 {
        assert(a + b =~= b);
        assert(a + sort_events(b) =~= sort_events(b));
    } else {
        let tail = a.skip(1);
        assert((a + b)[0] == a[0]);
        assert((a + b).skip(1) =~= tail + b);
        assert forall|i: int, j: int| 0 <= i <= j < tail.len() implies (#[trigger] tail[i]).start
            <= (#[trigger] tail[j]).start by {
            assert(tail[i] == a[i + 1] && tail[j] == a[j + 1]);
            assert(a[i + 1].start <= a[j + 1].start);
        }
        assert forall|i: int, k: int| 0 <= i < tail.len() && 0 <= k < b.len() implies (
        #[trigger] tail[i]).start < (#[trigger] b[k]).start by {
            assert(tail[i] == a[i + 1]);
            assert(a[i + 1].start < b[k].start);
        }
        lemma_sort_behind(tail, b);
        let rest = tail + sort_events(b);
        if rest.len() > 0 {
            if tail.len() > 0 {
                assert(rest[0] == a[1]);
                assert(a[0].start <= a[1].start);
            } else {
                lemma_sorted_from(b, 0);
                let j = choose|j: int| 0 <= j < b.len() && b[j] == sort_events(b)[0];
                assert(a[0].start < b[j].start);
                assert(rest[0] == sort_events(b)[0]);
            }
        }
        lemma_insert_place(rest, a[0].start, 0);
        assert(rest.insert(0, a[0]) =~= a + sort_events(b));
    }
}

/// What a document that was read to its end does to a channel whose events
/// stood in order, with the start of the last one noted: the channel keeps
/// its names, its events stay where they were, and behind them stand, in
/// order, only events that start later than all of them.
pub proof fn lemma_load_appends(
    epg: Seq<(Seq<char>, EpgChannelView)>,
    events: Seq<XmlEvent>,
    langs: Seq<(Seq<char>, Seq<char>)>,
    i: int,
)
    requires
        parse_events(epg, events, langs).1,
        0 <= i < epg.len(),
        in_start_order(epg[i].1.events),
        epg[i].1.last_event_start == last_start(epg[i].1.events),
    ensures
        ({
            let before = epg[i].1;
            let loaded = parse_events(epg, events, langs).0;
            &&& i < loaded.len()
            &&& loaded[i].0 == epg[i].0
            &&& loaded[i].1.name == before.name
            &&& before.events.len() <= loaded[i].1.events.len()
            &&& loaded[i].1.events.take(before.events.len() as int) == before.events
            &&& forall|k: int|
                before.events.len() <= k < loaded[i].1.events.len() ==> takes(
                    before,
                    (#[trigger] loaded[i].1.events[k]).start,
                )
            &&& in_start_order(loaded[i].1.events)
        }),
{
    let before = epg[i].1;
    let gathered = gather_events(epg, events, langs).0;
    lemma_gather_grows(epg, events, langs);
    assert(gathered[i].0 == epg[i].0 && grown(before, gathered[i].1));
    let a = before.events;
    let all = gathered[i].1.events;
    let b = all.skip(a.len() as int);
    assert(all =~= a + b);
    assert forall|x: int, k: int| 0 <= x < a.len() && 0 <= k < b.len() implies (#[trigger] a[x]).start
        < (#[trigger] b[k]).start by {
        assert(b[k] == all[a.len() + k]);
        assert(takes(before, all[a.len() + k].start));
        assert(a[x].start <= a[a.len() - 1].start);
    }
    lemma_sort_behind(a, b);
    lemma_sort_events(all);
    let loaded = parse_events(epg, events, langs).0;
    assert(loaded[i].1.events == a + sort_events(b));
    assert((a + sort_events(b)).take(a.len() as int) =~= a);
    lemma_sort_events(b);
    assert forall|k: int| a.len() <= k < loaded[i].1.events.len() implies takes(
        before,
        (#[trigger] loaded[i].1.events[k]).start,
    ) by {
        lemma_sorted_from(b, k - a.len());
        let j = choose|j: int| 0 <= j < b.len() && b[j] == sort_events(b)[k - a.len()];
        assert(b[j] == all[a.len() + j]);
        assert(takes(before, all[a.len() + j].start));
    }
}

/// Every event starts before the ones that stand behind it.
pub open spec fn rising(events: Seq<EpgEventView>) -> bool {
    forall|i: int, j: int|
        0 <= i < j < events.len() ==> (#[trigger] events[i]).start < (#[trigger] events[j]).start
}

/// No two events start at the same time.
pub open spec fn distinct_starts(events: Seq<EpgEventView>) -> bool {
    forall|i: int, j: int|
        0 <= i < j < events.len() ==> (#[trigger] events[i]).start != (
        #[trigger] events[j]).start
}

/// The events that a document brings to the channel at place `i`, in the
/// order of the document: what stands behind the events of the channel when
/// the document has been read to its end and nothing has been put in order
/// yet.
pub open spec fn added_events(
    epg: Seq<(Seq<char>, EpgChannelView)>,
    events: Seq<XmlEvent>,
    langs: Seq<(Seq<char>, Seq<char>)>,
    i: int,
) -> Seq<EpgEventView> {
    gather_events(epg, events, langs).0[i].1.events.skip(epg[i].1.events.len() as int)
}

/// Events of which no two start at the same time rise when they are
/// sorted.
pub proof fn lemma_sort_rising(events: Seq<EpgEventView>)
    requires
        distinct_starts(events),
    ensures
        rising(sort_events(events)),
    decreases events.len(),
{
    if events.len() > 0 {
        let tail = events.skip(1);
        assert forall|i: int, j: int| 0 <= i < j < tail.len() implies (#[trigger] tail[i]).start
            != (#[trigger] tail[j]).start by {
            assert(tail[i] == events[i + 1] && tail[j] == events[j + 1]);
            assert(events[i + 1].start != events[j + 1].start);
        }
        lemma_sort_rising(tail);
        let rest = sort_events(tail);
        let e = events[0];
        let p = insert_place(rest, e.start);
        lemma_insert_place_bounds(rest, e.start);
        lemma_sort_events(tail);
        let r = rest.insert(p, e);
        assert forall|k: int| 0 <= k < rest.len() implies (#[trigger] rest[k]).start != e.start by {
            lemma_sorted_from(tail, k);
            let j = choose|j: int| 0 <= j < tail.len() && tail[j] == sort_events(tail)[k];
            assert(tail[j] == events[j + 1]);
            assert(events[0].start != events[j + 1].start);
        }
        assert forall|i: int, j: int| 0 <= i < j < r.len() implies (#[trigger] r[i]).start < (
        #[trigger] r[j]).start by {
            if j < p {
                assert(rest[i].start < rest[j].start);
            } else if j == p {
                assert(rest[i].start < e.start);
            } else if i < p {
                assert(rest[i].start < rest[j - 1].start);
            } else if i == p {
                assert(rest[p].start >= e.start);
                assert(rest[p].start != e.start);
                if j - 1 > p {
                    assert(rest[p].start < rest[j - 1].start);
                }
            } else {
                assert(rest[i - 1].start < rest[j - 1].start);
            }
        }
    }
}

/// A programme that is read brings one event to its channel where the
/// channel takes it, and none where it does not; no other channel gets one.
pub proof fn lemma_programme_counts(
    epg: Seq<(Seq<char>, EpgChannelView)>,
    attrs: Seq<Attribute>,
    events: Seq<XmlEvent>,
    langs: Seq<(Seq<char>, Seq<char>)>,
)
    requires
        read_programme(epg, attrs, events, langs).is_some(),
    ensures
        ({
            let next = read_programme(epg, attrs, events, langs).unwrap().0;
            let channel = programme_attrs(attrs).channel;
            let start = programme_attrs(attrs).start;
            &&& next.len() == epg.len()
            &&& forall|c: int|
                0 <= c < epg.len() ==> (#[trigger] next[c]).1.events.len() == epg[c].1.events.len()
                    + if has_key(epg, channel) && c == key_index(epg, channel) && takes(
                    epg[c].1,
                    start,
                ) {
                    1int
                } else {
                    0int
                }
        }),
{
}

/// What a document that was read to its end does to a channel whose events
/// stood in order, with the start of the last one noted. The events of the
/// channel are those it had and behind them, sorted, those that the document
/// brought: none is lost and none comes twice. Each event that was brought starts later than all that
/// were there. The channel has noted the start of its last event. Where the
/// events that were there rose, and no two of those that were brought start
/// at the same time, the events of the channel rise.
pub proof fn lemma_load_merges(
    epg: Seq<(Seq<char>, EpgChannelView)>,
    events: Seq<XmlEvent>,
    langs: Seq<(Seq<char>, Seq<char>)>,
    i: int,
)
    requires
        parse_events(epg, events, langs).1,
        0 <= i < epg.len(),
        in_start_order(epg[i].1.events),
        epg[i].1.last_event_start == last_start(epg[i].1.events),
    ensures
        ({
            let before = epg[i].1;
            let added = added_events(epg, events, langs, i);
            let loaded = parse_events(epg, events, langs).0;
            &&& i < loaded.len()
            &&& loaded[i].1.events == before.events + sort_events(added)
            &&& loaded[i].1.events.len() == before.events.len() + added.len()
            &&& loaded[i].1.last_event_start == last_start(loaded[i].1.events)
            &&& forall|k: int|
                0 <= k < added.len() ==> takes(before, (#[trigger] added[k]).start)
            &&& added.len() > 0 ==> loaded[i].1.last_event_start == Some(
                sort_events(added).last().start,
            )
            &&& rising(before.events) && distinct_starts(added) ==> rising(loaded[i].1.events)
        }),
{
    let before = epg[i].1;
    let gathered = gather_events(epg, events, langs).0;
    lemma_gather_grows(epg, events, langs);
    assert(gathered[i].0 == epg[i].0 && grown(before, gathered[i].1));
    let a = before.events;
    let all = gathered[i].1.events;
    let b = added_events(epg, events, langs, i);
    assert(all =~= a + b);
    assert forall|k: int| 0 <= k < b.len() implies takes(before, (#[trigger] b[k]).start) by {
        assert(b[k] == all[a.len() + k]);
    }
    assert forall|x: int, k: int| 0 <= x < a.len() && 0 <= k < b.len() implies (#[trigger] a[x]).start
        < (#[trigger] b[k]).start by {
        assert(takes(before, b[k].start));
        assert(a[x].start <= a[a.len() - 1].start);
    }
    lemma_sort_behind(a, b);
    lemma_sort_events(b);
    let sorted = sort_events(b);
    let loaded = parse_events(epg, events, langs).0;
    assert(loaded[i].1.events == a + sorted);
    if b.len() > 0 {
        assert((a + sorted).last() == sorted.last());
    } else {
        assert(a + sorted =~= a);
    }
    if rising(a) && distinct_starts(b) {
        lemma_sort_rising(b);
        let r = a + sorted;
        assert forall|x: int, y: int| 0 <= x < y < r.len() implies (#[trigger] r[x]).start < (
        #[trigger] r[y]).start by {
            if y < a.len() {
                assert(a[x].start < a[y].start);
            } else if x >= a.len() {
                assert(sorted[x - a.len()].start < sorted[y - a.len()].start);
            } else {
                lemma_sorted_from(b, y - a.len());
                let j = choose|j: int| 0 <= j < b.len() && b[j] == sort_events(b)[y - a.len()];
                assert(a[x].start < b[j].start);
            }
        }
    }
}

} // verus!
