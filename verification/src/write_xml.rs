use vstd::prelude::*;
use crate::date::{date_text, format_date};
use crate::epg::Epg;
use crate::epg_channel::EpgChannelView;
use crate::epg_event::{EpgEvent, EpgEventView};
use crate::lang::LangTable;
use crate::number::{decimal_text, format_u16};
use crate::text_map::{lookup, TextMap};
use crate::xml_event::Attribute;

verus! {

/// The error of xml-rs's writer, `xml::writer::Error`. It is carried
/// through; nothing is known of what it holds.
#[verifier::external_type_specification]
#[verifier::external_body]
pub struct ExWriterError(xml::writer::Error);

/// The writer of xml-rs, `xml::writer::EventWriter`. What is known of one
/// is what `emitted` says.
#[verifier::external_type_specification]
#[verifier::external_body]
#[verifier::reject_recursive_types(W)]
pub struct ExEventWriter<W>(xml::writer::EventWriter<W>);

/// The bytes that xml-rs's writer has put out when it has taken `events`,
/// one after the other, from a fresh start and without a declaration of
/// its own.
pub uninterp spec fn rendered(events: Seq<XmlWriteEventView>) -> Seq<u8>;

/// The events that `writer` has taken.
pub uninterp spec fn emitted(writer: xml::writer::EventWriter<Vec<u8>>) -> Seq<XmlWriteEventView>;

/// Calls xml-rs's `EmitterConfig::create_writer` for a writer into memory
/// that adds no declaration of its own. It has taken nothing yet.
#[verifier::external_body]
fn open_writer() -> (writer: xml::writer::EventWriter<Vec<u8>>)
    ensures
        emitted(writer) == Seq::<XmlWriteEventView>::empty(),
{
    xml::writer::EmitterConfig::new().write_document_declaration(false).create_writer(Vec::new())
}

/// Calls xml-rs's `EventWriter::write` with `event` in the writer's own
/// form. The writer writes into memory, so it takes every event but one:
/// it refuses an event that closes an element where none is open. An event
/// that it takes stands behind those that it has taken; nothing is said of
/// a writer that has refused one.
#[verifier::external_body]
fn emit(writer: &mut xml::writer::EventWriter<Vec<u8>>, event: &XmlWriteEvent) -> (r: Result<
    (),
    xml::writer::Error,
>)
    ensures
        r.is_err() == (event@ is EndElement && open_elements(emitted(*old(writer))) == 0),
        r.is_ok() ==> emitted(*final(writer)) == emitted(*old(writer)).push(event@),
{
    match event {
        XmlWriteEvent::StartElement { name, attributes } => writer.write(
            attributes.iter().fold(
                xml::writer::XmlEvent::start_element(name.as_str()),
                |element, a| element.attr(a.name.as_str(), a.value.as_str()),
            ),
        ),
        XmlWriteEvent::EndElement => writer.write(xml::writer::XmlEvent::end_element()),
        XmlWriteEvent::Characters(text) => writer.write(
            xml::writer::XmlEvent::characters(text.as_str()),
        ),
    }
}

/// Calls xml-rs's `EventWriter::into_inner`, which hands out what the
/// writer has written: the bytes that stand for the events it has taken.
#[verifier::external_body]
fn close_writer(writer: xml::writer::EventWriter<Vec<u8>>) -> (bytes: Vec<u8>)
    ensures
        bytes@ == rendered(emitted(writer)),
{
    writer.into_inner()
}

/// Why a document could not be written.
#[derive(Debug)]
pub enum XmlWriterError {
    /// The writer refused an event
    XmlWriter(xml::writer::Error),
    /// A start or stop time lies outside what the calendar can hold
    DateOutOfRange,
}

/// One event of a document that is written, as plain values.
pub enum XmlWriteEventView {
    StartElement { name: Seq<char>, attributes: Seq<(Seq<char>, Seq<char>)> },
    EndElement,
    Characters(Seq<char>),
}

/// One event of a document that is written.
#[derive(Debug, Clone, PartialEq, Eq)]
pub enum XmlWriteEvent {
    /// An element opens
    StartElement { name: String, attributes: Vec<Attribute> },
    /// The element that is open closes
    EndElement,
    /// Text
    Characters(String),
}

/// The attributes as pairs of name and value.
pub open spec fn attrs_view(attrs: Seq<Attribute>) -> Seq<(Seq<char>, Seq<char>)> {
    Seq::new(attrs.len(), |i: int| (attrs[i].name@, attrs[i].value@))
}

impl View for XmlWriteEvent {
    type V = XmlWriteEventView;

    /// The event as plain values.
    open spec fn view(&self) -> XmlWriteEventView {
        match self {
            XmlWriteEvent::StartElement { name, attributes } => XmlWriteEventView::StartElement {
                name: name@,
                attributes: attrs_view(attributes@),
            },
            XmlWriteEvent::EndElement => XmlWriteEventView::EndElement,
            XmlWriteEvent::Characters(text) => XmlWriteEventView::Characters(text@),
        }
    }
}

/// The events as plain values.
pub open spec fn events_out(events: Seq<XmlWriteEvent>) -> Seq<XmlWriteEventView> {
    Seq::new(events.len(), |i: int| events[i]@)
}

/// The number of elements that are open behind `events`, where `depth`
/// were open before them: each opening event adds one, each closing event
/// takes one away. `None` where an event closes an element and none is open.
pub open spec fn nesting(events: Seq<XmlWriteEventView>, depth: nat) -> Option<nat>
    decreases events.len(),
{
    if events.len() == 0 {
        Some(depth)
    } else {
        match nesting(events.drop_last(), depth) {
            Some(open) => match events.last() {
                XmlWriteEventView::StartElement { .. } => Some(open + 1),
                XmlWriteEventView::EndElement => if open > 0 {
                    Some((open - 1) as nat)
                } else {
                    None
                },
                XmlWriteEventView::Characters(_) => Some(open),
            },
            None => None,
        }
    }
}

/// The number of elements that are open behind `events`, counted from the
/// start of a document; 0 where one of the events closes an element and
/// none is open.
pub open spec fn open_elements(events: Seq<XmlWriteEventView>) -> nat {
    match nesting(events, 0) {
        Some(open) => open,
        None => 0,
    }
}

/// An element `name` with the attribute `lang` and the text `text`.
pub open spec fn text_element(name: Seq<char>, lang: Seq<char>, text: Seq<char>) -> Seq<
    XmlWriteEventView,
> {
    seq![
        XmlWriteEventView::StartElement { name: name, attributes: seq![("lang"@, lang)] },
        XmlWriteEventView::Characters(text),
        XmlWriteEventView::EndElement,
    ]
}

/// One element `name` for each text of `map` whose language the table
/// knows, in the order of `map`.
pub open spec fn text_elements(
    map: Seq<(Seq<char>, Seq<char>)>,
    name: Seq<char>,
    langs: Seq<(Seq<char>, Seq<char>)>,
) -> Seq<XmlWriteEventView>
    decreases map.len(),
{
    if map.len() == 0 {
        Seq::empty()
    } else {
        let before = text_elements(map.drop_last(), name, langs);
        match lookup(langs, map.last().0) {
            Some(lang) => before + text_element(name, lang, map.last().1),
            None => before,
        }
    }
}

/// What ends the element of a channel or a programme: the end of the
/// element, and a line break.
pub open spec fn element_end() -> Seq<XmlWriteEventView> {
    seq![XmlWriteEventView::EndElement, XmlWriteEventView::Characters("\n"@)]
}

/// The `channel` element of the channel `id` with its names, and a line
/// break behind it.
pub open spec fn channel_element(
    id: Seq<char>,
    channel: EpgChannelView,
    langs: Seq<(Seq<char>, Seq<char>)>,
) -> Seq<XmlWriteEventView> {
    seq![XmlWriteEventView::StartElement { name: "channel"@, attributes: seq![("id"@, id)] }]
        + text_elements(channel.name, "display-name"@, langs) + element_end()
}

/// The `channel` elements of all channels, in their order.
pub open spec fn channel_elements(
    epg: Seq<(Seq<char>, EpgChannelView)>,
    langs: Seq<(Seq<char>, Seq<char>)>,
) -> Seq<XmlWriteEventView>
    decreases epg.len(),
{
    if epg.len() == 0 {
        Seq::empty()
    } else {
        channel_elements(epg.drop_last(), langs) + channel_element(
            epg.last().0,
            epg.last().1,
            langs,
        )
    }
}

/// `first` and then `second`, where there are both.
pub open spec fn both(
    first: Option<Seq<XmlWriteEventView>>,
    second: Option<Seq<XmlWriteEventView>>,
) -> Option<Seq<XmlWriteEventView>> {
    match (first, second) {
        (Some(a), Some(b)) => Some(a + b),
        _ => None,
    }
}

/// The `programme` element of an event of the channel `id`, and a line
/// break behind it; `None` where its start or its stop cannot be written.
pub open spec fn programme_element(
    id: Seq<char>,
    event: EpgEventView,
    langs: Seq<(Seq<char>, Seq<char>)>,
) -> Option<Seq<XmlWriteEventView>> {
    match (date_text(event.start), date_text(event.stop)) {
        (Some(start), Some(stop)) => Some(
            seq![
                XmlWriteEventView::StartElement {
                    name: "programme"@,
                    attributes: seq![
                        ("event_id"@, decimal_text(event.event_id as nat)),
                        ("channel"@, id),
                        ("start"@, start),
                        ("stop"@, stop),
                    ],
                },
            ] + text_elements(event.title, "title"@, langs) + text_elements(
                event.subtitle,
                "sub-title"@,
                langs,
            ) + text_elements(event.desc, "desc"@, langs) + element_end(),
        ),
        _ => None,
    }
}

/// The `programme` elements of the events of the channel `id`, in their
/// order.
pub open spec fn channel_programmes(
    id: Seq<char>,
    events: Seq<EpgEventView>,
    langs: Seq<(Seq<char>, Seq<char>)>,
) -> Option<Seq<XmlWriteEventView>>
    decreases events.len(),
{
    if events.len() == 0 {
        Some(Seq::empty())
    } else {
        both(
            channel_programmes(id, events.drop_last(), langs),
            programme_element(id, events.last(), langs),
        )
    }
}

/// The `programme` elements of all channels, channel after channel.
pub open spec fn programme_elements(
    epg: Seq<(Seq<char>, EpgChannelView)>,
    langs: Seq<(Seq<char>, Seq<char>)>,
) -> Option<Seq<XmlWriteEventView>>
    decreases epg.len(),
{
    if epg.len() == 0 {
        Some(Seq::empty())
    } else {
        both(
            programme_elements(epg.drop_last(), langs),
            channel_programmes(epg.last().0, epg.last().1.events, langs),
        )
    }
}

/// What opens a document: a line break, the root element, a line break.
pub open spec fn document_head() -> Seq<XmlWriteEventView> {
    seq![
        XmlWriteEventView::Characters("\n"@),
        XmlWriteEventView::StartElement {
            name: "tv"@,
            attributes: seq![
                ("generator-info-name"@, "Cesbo Astra"@),
                ("generator-info-url"@, "https://cesbo.com"@),
            ],
        },
        XmlWriteEventView::Characters("\n"@),
    ]
}

/// The events of the document that holds the schedule: the root element
/// `tv`, in it the channels and behind them the programmes. `None` where
/// the start or the stop of an event cannot be written.
pub open spec fn document_of(
    epg: Seq<(Seq<char>, EpgChannelView)>,
    langs: Seq<(Seq<char>, Seq<char>)>,
) -> Option<Seq<XmlWriteEventView>> {
    match programme_elements(epg, langs) {
        Some(programmes) => Some(
            document_head() + channel_elements(epg, langs) + programmes
                + seq![XmlWriteEventView::EndElement],
        ),
        None => None,
    }
}

/// Events behind events are nested as the second ones are behind the
/// elements that the first ones leave open.
pub proof fn lemma_nesting_concat(
    a: Seq<XmlWriteEventView>,
    b: Seq<XmlWriteEventView>,
    depth: nat,
)
    ensures
        nesting(a + b, depth) == match nesting(a, depth) {
            Some(open) => nesting(b, open),
            None => None,
        },
    decreases b.len(),
{
    if b.len() == 0 {
        assert(a + b =~= a);
    } else {
        assert((a + b).drop_last() =~= a + b.drop_last());
        assert((a + b).last() == b.last());
        lemma_nesting_concat(a, b.drop_last(), depth);
    }
}

/// Where events are well nested, so is every first part of them.
pub proof fn lemma_nesting_prefix(events: Seq<XmlWriteEventView>, depth: nat, n: int)
    requires
        nesting(events, depth).is_some(),
        0 <= n <= events.len(),
    ensures
        nesting(events.take(n), depth).is_some(),
    decreases events.len() - n,
{
    if n == events.len() {
        assert(events.take(n) =~= events);
    } else {
        lemma_nesting_prefix(events, depth, n + 1);
        assert(events.take(n + 1).drop_last() =~= events.take(n));
    }
}

/// What one event does to the elements that are open.
pub proof fn lemma_nesting_one(event: XmlWriteEventView, depth: nat)
    ensures
        nesting(seq![event], depth) == match event {
            XmlWriteEventView::StartElement { .. } => Some(depth + 1),
            XmlWriteEventView::EndElement => if depth > 0 {
                Some((depth - 1) as nat)
            } else {
                None
            },
            XmlWriteEventView::Characters(_) => Some(depth),
        },
{
    let nothing = Seq::<XmlWriteEventView>::empty();
    assert(nesting(nothing, depth) == Some(depth));
    assert(seq![event].drop_last() =~= nothing);
    assert(seq![event].last() == event);
}

/// The end of an element and the line break behind it close one of the
/// elements that are open.
pub proof fn lemma_nesting_end(depth: nat)
    requires
        depth > 0,
    ensures
        nesting(element_end(), depth) == Some((depth - 1) as nat),
{
    let end = seq![XmlWriteEventView::EndElement];
    let line = seq![XmlWriteEventView::Characters("\n"@)];
    lemma_nesting_one(end[0], depth);
    lemma_nesting_one(line[0], (depth - 1) as nat);
    lemma_nesting_concat(end, line, depth);
    assert(element_end() =~= end + line);
}

/// The elements of the texts of a map leave open what was open.
pub proof fn lemma_texts_nest(
    map: Seq<(Seq<char>, Seq<char>)>,
    name: Seq<char>,
    langs: Seq<(Seq<char>, Seq<char>)>,
    depth: nat,
)
    ensures
        nesting(text_elements(map, name, langs), depth) == Some(depth),
    decreases map.len(),
{
    if map.len() > 0 {
        lemma_texts_nest(map.drop_last(), name, langs, depth);
        match lookup(langs, map.last().0) {
            Some(lang) => {
                let element = text_element(name, lang, map.last().1);
                let start = seq![element[0]];
                let text = seq![element[1]];
                let end = seq![element[2]];
                lemma_nesting_one(element[0], depth);
                lemma_nesting_one(element[1], depth + 1);
                lemma_nesting_one(element[2], depth + 1);
                lemma_nesting_concat(start, text, depth);
                lemma_nesting_concat(start + text, end, depth);
                assert(element =~= start + text + end);
                lemma_nesting_concat(text_elements(map.drop_last(), name, langs), element, depth);
            },
            None => {},
        }
    }
}

/// The element of a channel leaves open what was open.
pub proof fn lemma_channel_nests(
    id: Seq<char>,
    channel: EpgChannelView,
    langs: Seq<(Seq<char>, Seq<char>)>,
    depth: nat,
)
    ensures
        nesting(channel_element(id, channel, langs), depth) == Some(depth),
{
    let head = seq![
        XmlWriteEventView::StartElement { name: "channel"@, attributes: seq![("id"@, id)] },
    ];
    let names = text_elements(channel.name, "display-name"@, langs);
    lemma_nesting_one(head[0], depth);
    lemma_texts_nest(channel.name, "display-name"@, langs, depth + 1);
    lemma_nesting_concat(head, names, depth);
    lemma_nesting_end(depth + 1);
    lemma_nesting_concat(head + names, element_end(), depth);
}

/// The elements of all channels leave open what was open.
pub proof fn lemma_channels_nest(
    epg: Seq<(Seq<char>, EpgChannelView)>,
    langs: Seq<(Seq<char>, Seq<char>)>,
    depth: nat,
)
    ensures
        nesting(channel_elements(epg, langs), depth) == Some(depth),
    decreases epg.len(),
{
    if epg.len() > 0 {
        lemma_channels_nest(epg.drop_last(), langs, depth);
        lemma_channel_nests(epg.last().0, epg.last().1, langs, depth);
        lemma_nesting_concat(
            channel_elements(epg.drop_last(), langs),
            channel_element(epg.last().0, epg.last().1, langs),
            depth,
        );
    }
}

/// The element of a programme leaves open what was open.
pub proof fn lemma_programme_nests(
    id: Seq<char>,
    event: EpgEventView,
    langs: Seq<(Seq<char>, Seq<char>)>,
    depth: nat,
)
    requires
        programme_element(id, event, langs).is_some(),
    ensures
        nesting(programme_element(id, event, langs).unwrap(), depth) == Some(depth),
{
    let head = seq![
        XmlWriteEventView::StartElement {
            name: "programme"@,
            attributes: seq![
                ("event_id"@, decimal_text(event.event_id as nat)),
                ("channel"@, id),
                ("start"@, date_text(event.start).unwrap()),
                ("stop"@, date_text(event.stop).unwrap()),
            ],
        },
    ];
    let titles = text_elements(event.title, "title"@, langs);
    let subtitles = text_elements(event.subtitle, "sub-title"@, langs);
    let descs = text_elements(event.desc, "desc"@, langs);
    lemma_nesting_one(head[0], depth);
    lemma_texts_nest(event.title, "title"@, langs, depth + 1);
    lemma_texts_nest(event.subtitle, "sub-title"@, langs, depth + 1);
    lemma_texts_nest(event.desc, "desc"@, langs, depth + 1);
    lemma_nesting_concat(head, titles, depth);
    lemma_nesting_concat(head + titles, subtitles, depth);
    lemma_nesting_concat(head + titles + subtitles, descs, depth);
    lemma_nesting_end(depth + 1);
    lemma_nesting_concat(head + titles + subtitles + descs, element_end(), depth);
}

/// The elements of the programmes of a channel leave open what was open.
pub proof fn lemma_channel_programmes_nest(
    id: Seq<char>,
    events: Seq<EpgEventView>,
    langs: Seq<(Seq<char>, Seq<char>)>,
    depth: nat,
)
    requires
        channel_programmes(id, events, langs).is_some(),
    ensures
        nesting(channel_programmes(id, events, langs).unwrap(), depth) == Some(depth),
    decreases events.len(),
{
    if events.len() > 0 {
        lemma_channel_programmes_nest(id, events.drop_last(), langs, depth);
        lemma_programme_nests(id, events.last(), langs, depth);
        lemma_nesting_concat(
            channel_programmes(id, events.drop_last(), langs).unwrap(),
            programme_element(id, events.last(), langs).unwrap(),
            depth,
        );
    }
}

/// The elements of all programmes leave open what was open.
pub proof fn lemma_programmes_nest(
    epg: Seq<(Seq<char>, EpgChannelView)>,
    langs: Seq<(Seq<char>, Seq<char>)>,
    depth: nat,
)
    requires
        programme_elements(epg, langs).is_some(),
    ensures
        nesting(programme_elements(epg, langs).unwrap(), depth) == Some(depth),
    decreases epg.len(),
{
    if epg.len() > 0 {
        lemma_programmes_nest(epg.drop_last(), langs, depth);
        lemma_channel_programmes_nest(epg.last().0, epg.last().1.events, langs, depth);
        lemma_nesting_concat(
            programme_elements(epg.drop_last(), langs).unwrap(),
            channel_programmes(epg.last().0, epg.last().1.events, langs).unwrap(),
            depth,
        );
    }
}

/// The document of a schedule is well nested: every element that opens in
/// it closes in it, no event closes an element where none is open, and at
/// its end none is open.
pub proof fn lemma_document_nests(
    epg: Seq<(Seq<char>, EpgChannelView)>,
    langs: Seq<(Seq<char>, Seq<char>)>,
)
    requires
        document_of(epg, langs).is_some(),
    ensures
        nesting(document_of(epg, langs).unwrap(), 0) == Some(0nat),
{
    let head = document_head();
    let channels = channel_elements(epg, langs);
    let programmes = programme_elements(epg, langs).unwrap();
    let end = seq![XmlWriteEventView::EndElement];
    let line = seq![head[0]];
    let root = seq![head[1]];
    lemma_nesting_one(head[0], 0);
    lemma_nesting_one(head[1], 0);
    lemma_nesting_one(head[2], 1);
    lemma_nesting_concat(line, root, 0);
    lemma_nesting_concat(line + root, line, 0);
    assert(head =~= line + root + line);
    lemma_channels_nest(epg, langs, 1);
    lemma_programmes_nest(epg, langs, 1);
    lemma_nesting_concat(head, channels, 0);
    lemma_nesting_concat(head + channels, programmes, 0);
    lemma_nesting_one(end[0], 1);
    lemma_nesting_concat(head + channels + programmes, end, 0);
}

/// Where an event cannot be written, the programmes of the schedule cannot
/// be written.
pub proof fn lemma_programmes_fail(
    epg: Seq<(Seq<char>, EpgChannelView)>,
    i: int,
    j: int,
    langs: Seq<(Seq<char>, Seq<char>)>,
)
    requires
        0 <= i < epg.len(),
        0 <= j < epg[i].1.events.len(),
        programme_element(epg[i].0, epg[i].1.events[j], langs).is_none(),
    ensures
        programme_elements(epg, langs).is_none(),
    decreases epg.len(),
{
    if i == epg.len() - 1 {
        lemma_events_fail(epg[i].0, epg[i].1.events, j, langs);
    } else {
        assert(epg.drop_last()[i] == epg[i]);
        lemma_programmes_fail(epg.drop_last(), i, j, langs);
    }
}

/// Where an event cannot be written, the programmes of its channel cannot
/// be written.
pub proof fn lemma_events_fail(
    id: Seq<char>,
    events: Seq<EpgEventView>,
    j: int,
    langs: Seq<(Seq<char>, Seq<char>)>,
)
    requires
        0 <= j < events.len(),
        programme_element(id, events[j], langs).is_none(),
    ensures
        channel_programmes(id, events, langs).is_none(),
    decreases events.len(),
{
    if j < events.len() - 1 {
        assert(events.drop_last()[j] == events[j]);
        lemma_events_fail(id, events.drop_last(), j, langs);
    }
}

/// An attribute from its name and its value.
pub fn attribute(name: &str, value: &str) -> (r: Attribute)
    ensures
        r.name@ == name@,
        r.value@ == value@,
{
    Attribute { name: name.to_owned(), value: value.to_owned() }
}

/// Puts behind `out` one element `name` for each text of `map` whose
/// language the table knows.
pub fn write_xml_value(map: &TextMap, out: &mut Vec<XmlWriteEvent>, name: &str, langs: &LangTable)
    ensures
        events_out(final(out)@) == events_out(old(out)@) + text_elements(map@, name@, langs@),
{
    let count = map.len();
    let mut i: usize = 0;
    assert(map@.take(0) =~= Seq::empty());
    assert(events_out(out@) + Seq::<XmlWriteEventView>::empty() =~= events_out(out@));
    while i < count
        invariant
            i <= count,
            count == map@.len(),
            events_out(out@) == events_out(old(out)@) + text_elements(
                map@.take(i as int),
                name@,
                langs@,
            ),
        decreases count - i,
    {
        proof {
            assert(map@.take(i + 1).drop_last() =~= map@.take(i as int));
            assert(map@.take(i + 1).last() == map@[i as int]);
        }
        match langs.convert(map.lang_at(i).as_str()) {
            Some(lang) => {
                let ghost before = events_out(out@);
                let mut attributes: Vec<Attribute> = Vec::new();
                attributes.push(attribute("lang", lang.as_str()));
                assert(attrs_view(attributes@) =~= seq![("lang"@, lang@)]);
                out.push(XmlWriteEvent::StartElement { name: name.to_owned(), attributes });
                out.push(XmlWriteEvent::Characters(map.text_at(i).as_str().to_owned()));
                out.push(XmlWriteEvent::EndElement);
                assert(events_out(out@) =~= before + text_element(
                    name@,
                    lang@,
                    map@[i as int].1,
                ));
            },
            None => {},
        }
        i += 1;
    }
    assert(map@.take(count as int) =~= map@);
}

/// Puts the `channel` elements of all channels behind `out`.
pub fn write_xml_channel(epg: &Epg, out: &mut Vec<XmlWriteEvent>, langs: &LangTable)
    ensures
        events_out(final(out)@) == events_out(old(out)@) + channel_elements(epg@, langs@),
{
    let count = epg.channels.len();
    let mut i: usize = 0;
    assert(epg@.take(0) =~= Seq::empty());
    assert(events_out(out@) + Seq::<XmlWriteEventView>::empty() =~= events_out(out@));
    while i < count
        invariant
            i <= count,
            count == epg@.len(),
            events_out(out@) == events_out(old(out)@) + channel_elements(
                epg@.take(i as int),
                langs@,
            ),
        decreases count - i,
    {
        proof {
            assert(epg@.take(i + 1).drop_last() =~= epg@.take(i as int));
            assert(epg@.take(i + 1).last() == epg@[i as int]);
        }
        let ghost before = events_out(out@);
        let mut attributes: Vec<Attribute> = Vec::new();
        attributes.push(attribute("id", epg.channels.id_at(i).as_str()));
        assert(attrs_view(attributes@) =~= seq![("id"@, epg@[i as int].0)]);
        out.push(XmlWriteEvent::StartElement { name: "channel".to_owned(), attributes });
        let ghost opened = events_out(out@);
        assert(opened =~= before + seq![
            XmlWriteEventView::StartElement {
                name: "channel"@,
                attributes: seq![("id"@, epg@[i as int].0)],
            },
        ]);
        write_xml_value(&epg.channels.channel_at(i).name, out, "display-name", langs);
        let ghost named = events_out(out@);
        out.push(XmlWriteEvent::EndElement);
        out.push(XmlWriteEvent::Characters("\n".to_owned()));
        assert(events_out(out@) =~= named + seq![
            XmlWriteEventView::EndElement,
            XmlWriteEventView::Characters("\n"@),
        ]);
        assert(events_out(out@) =~= before + channel_element(
            epg@[i as int].0,
            epg@[i as int].1,
            langs@,
        ));
        i += 1;
    }
    assert(epg@.take(count as int) =~= epg@);
}

/// The result of writing where a time cannot be written.
pub open spec fn out_of_range<T>(r: Result<T, XmlWriterError>) -> bool {
    r == Err::<T, XmlWriterError>(XmlWriterError::DateOutOfRange)
}

/// Puts the `programme` element of `event`, an event of the channel `id`,
/// behind `out`. Where the start or the stop of the event cannot be
/// written, `out` stays as it is.
pub fn write_xml_event(
    id: &str,
    event: &EpgEvent,
    out: &mut Vec<XmlWriteEvent>,
    langs: &LangTable,
) -> (r: Result<(), XmlWriterError>)
    ensures
        match programme_element(id@, event@, langs@) {
            Some(element) => r.is_ok() && events_out(final(out)@) == events_out(old(out)@)
                + element,
            None => out_of_range(r) && final(out)@ == old(out)@,
        },
{
    let start = match format_date(event.start) {
        Some(text) => text,
        None => {
            return Err(XmlWriterError::DateOutOfRange);
        },
    };
    let stop = match format_date(event.stop) {
        Some(text) => text,
        None => {
            return Err(XmlWriterError::DateOutOfRange);
        },
    };
    let ghost before = events_out(out@);
    let mut attributes: Vec<Attribute> = Vec::new();
    attributes.push(attribute("event_id", format_u16(event.event_id).as_str()));
    attributes.push(attribute("channel", id));
    attributes.push(attribute("start", start.as_str()));
    attributes.push(attribute("stop", stop.as_str()));
    let ghost head = XmlWriteEventView::StartElement {
        name: "programme"@,
        attributes: seq![
            ("event_id"@, decimal_text(event.event_id as nat)),
            ("channel"@, id@),
            ("start"@, start@),
            ("stop"@, stop@),
        ],
    };
    assert(attrs_view(attributes@) =~= head->attributes);
    out.push(XmlWriteEvent::StartElement { name: "programme".to_owned(), attributes });
    assert(events_out(out@) =~= before + seq![head]);
    write_xml_value(&event.title, out, "title", langs);
    write_xml_value(&event.subtitle, out, "sub-title", langs);
    write_xml_value(&event.desc, out, "desc", langs);
    let ghost filled = events_out(out@);
    out.push(XmlWriteEvent::EndElement);
    out.push(XmlWriteEvent::Characters("\n".to_owned()));
    assert(events_out(out@) =~= filled + seq![
        XmlWriteEventView::EndElement,
        XmlWriteEventView::Characters("\n"@),
    ]);
    assert(events_out(out@) =~= before + programme_element(id@, event@, langs@).unwrap());
    Ok(())
}

/// Puts the `programme` elements of all events of all channels behind
/// `out`.
pub fn write_xml_programme(epg: &Epg, out: &mut Vec<XmlWriteEvent>, langs: &LangTable) -> (r: Result<
    (),
    XmlWriterError,
>)
    ensures
        match programme_elements(epg@, langs@) {
            Some(elements) => r.is_ok() && events_out(final(out)@) == events_out(old(out)@)
                + elements,
            None => out_of_range(r),
        },
{
    let count = epg.channels.len();
    let mut i: usize = 0;
    assert(epg@.take(0) =~= Seq::empty());
    assert(events_out(out@) + Seq::<XmlWriteEventView>::empty() =~= events_out(out@));
    while i < count
        invariant
            i <= count,
            count == epg@.len(),
            match programme_elements(epg@.take(i as int), langs@) {
                Some(elements) => events_out(out@) == events_out(old(out)@) + elements,
                None => false,
            },
        decreases count - i,
    {
        proof {
            assert(epg@.take(i + 1).drop_last() =~= epg@.take(i as int));
            assert(epg@.take(i + 1).last() == epg@[i as int]);
        }
        let id = epg.channels.id_at(i);
        let channel = epg.channels.channel_at(i);
        let ghost events = epg@[i as int].1.events;
        let ghost start = events_out(out@);
        let n = channel.events.len();
        let mut j: usize = 0;
        assert(events.take(0) =~= Seq::empty());
        assert(start + Seq::<XmlWriteEventView>::empty() =~= start);
        while j < n
            invariant
                j <= n,
                n == events.len(),
                events == channel@.events,
                events == epg@[i as int].1.events,
                id@ == epg@[i as int].0,
                i < epg@.len(),
                match channel_programmes(id@, events.take(j as int), langs@) {
                    Some(elements) => events_out(out@) == start + elements,
                    None => false,
                },
            decreases n - j,
        {
            proof {
                assert(events.take(j + 1).drop_last() =~= events.take(j as int));
                assert(events.take(j + 1).last() == events[j as int]);
                assert(events[j as int] == channel.events@[j as int]@);
            }
            let ghost done = channel_programmes(id@, events.take(j as int), langs@).unwrap();
            match write_xml_event(id.as_str(), &channel.events[j], out, langs) {
                Ok(()) => {
                    let ghost element = programme_element(id@, events[j as int], langs@).unwrap();
                    assert(start + done + element =~= start + (done + element));
                },
                Err(e) => {
                    proof {
                        lemma_programmes_fail(epg@, i as int, j as int, langs@);
                    }
                    return Err(e);
                },
            }
            j += 1;
        }
        proof {
            assert(events.take(n as int) =~= events);
            let done = programme_elements(epg@.take(i as int), langs@).unwrap();
            let more = channel_programmes(id@, events, langs@).unwrap();
            assert(events_out(old(out)@) + done + more =~= events_out(old(out)@) + (done + more));
        }
        i += 1;
    }
    assert(epg@.take(count as int) =~= epg@);
    Ok(())
}

/// The events of the document that holds the schedule.
pub fn assemble_xml_tv(epg: &Epg, langs: &LangTable) -> (r: Result<
    Vec<XmlWriteEvent>,
    XmlWriterError,
>)
    ensures
        match document_of(epg@, langs@) {
            Some(document) => r.is_ok() && events_out(r.unwrap()@) == document,
            None => out_of_range(r),
        },
{
    let mut out: Vec<XmlWriteEvent> = Vec::new();
    out.push(XmlWriteEvent::Characters("\n".to_owned()));
    let mut attributes: Vec<Attribute> = Vec::new();
    attributes.push(attribute("generator-info-name", "Cesbo Astra"));
    attributes.push(attribute("generator-info-url", "https://cesbo.com"));
    assert(attrs_view(attributes@) =~= seq![
        ("generator-info-name"@, "Cesbo Astra"@),
        ("generator-info-url"@, "https://cesbo.com"@),
    ]);
    out.push(XmlWriteEvent::StartElement { name: "tv".to_owned(), attributes });
    out.push(XmlWriteEvent::Characters("\n".to_owned()));
    assert(events_out(out@) =~= document_head());
    write_xml_channel(epg, &mut out, langs);
    match write_xml_programme(epg, &mut out, langs) {
        Ok(()) => {},
        Err(e) => {
            return Err(e);
        },
    }
    let ghost filled = events_out(out@);
    out.push(XmlWriteEvent::EndElement);
    assert(events_out(out@) =~= filled + seq![XmlWriteEventView::EndElement]);
    Ok(out)
}

/// Writes the document that holds the schedule: what xml-rs's writer
/// makes of the document's events. The document is well nested, so the
/// writer takes every event of it; the one thing that keeps a schedule from
/// being written is a time that cannot be written.
pub fn write_xml_tv(epg: &Epg, langs: &LangTable) -> (r: Result<Vec<u8>, XmlWriterError>)
    ensures
        match document_of(epg@, langs@) {
            Some(document) => r.is_ok() && r.unwrap()@ == rendered(document),
            None => out_of_range(r),
        },
{
    let events = match assemble_xml_tv(epg, langs) {
        Ok(events) => events,
        Err(e) => {
            return Err(e);
        },
    };
    proof {
        lemma_document_nests(epg@, langs@);
    }
    let mut writer = open_writer();
    let count = events.len();
    let mut i: usize = 0;
    assert(events_out(events@).take(0) =~= Seq::empty());
    while i < count
        invariant
            i <= count,
            count == events@.len(),
            document_of(epg@, langs@) == Some(events_out(events@)),
            nesting(events_out(events@), 0).is_some(),
            emitted(writer) == events_out(events@).take(i as int),
        decreases count - i,
    {
        proof {
            let document = events_out(events@);
            lemma_nesting_prefix(document, 0, i + 1);
            assert(document.take(i + 1).drop_last() =~= document.take(i as int));
            assert(document.take(i + 1).last() == events@[i as int]@);
        }
        match emit(&mut writer, &events[i]) {
            Ok(()) => {},
            Err(e) => {
                return Err(XmlWriterError::XmlWriter(e));
            },
        }
        assert(events_out(events@).take(i + 1) =~= events_out(events@).take(i as int).push(
            events@[i as int]@,
        ));
        i += 1;
    }
    assert(events_out(events@).take(count as int) =~= events_out(events@));
    Ok(close_writer(writer))
}

} // verus!
