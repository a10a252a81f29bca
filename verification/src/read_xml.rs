use vstd::prelude::*;
use vstd::string::StringExecFns;
use crate::date::{date_value, parse_date};
use crate::epg::{sorted_channels, with_event, Epg};
use crate::epg_channel::{in_start_order, lemma_sort_events, EpgChannel, EpgChannelView};
use crate::epg_event::{EpgEvent, EpgEventView};
use crate::lang::{LangTable, LANG_UNDETERMINED};
use crate::number::{decimal_u16, parse_u16};
use crate::rating::RatingMap;
use crate::text_map::{has_key, key_index, lookup, put, same_text, TextMap};
use crate::xml_event::{Attribute, XmlEvent};

verus! {

/// The error of xml-rs's reader, `xml::reader::Error`. It is carried
/// through; nothing is known of what it holds.
#[verifier::external_type_specification]
#[verifier::external_body]
pub struct ExReaderError(xml::reader::Error);

/// A document that is being read: the iterator of xml-rs's reader over
/// its bytes, `xml::reader::Events`. The iterator stands in a field because
/// its type is bound by `std::io::Read`, which cannot be declared to the
/// verifier; what is known of it is what `upcoming` says.
#[verifier::external_body]
pub struct XmlSource<'a> {
    reader: xml::reader::Events<&'a [u8]>,
}

/// The events that xml-rs reads from the document `src`, in the form of
/// this library, each as the reader's iterator gives it: text inside
/// elements without the white space around it, comments left out, an error
/// where the document is not well-formed.
pub uninterp spec fn document_events(src: Seq<u8>) -> Seq<Result<XmlEvent, xml::reader::Error>>;

/// The events that `reader` has yet to give.
pub uninterp spec fn upcoming(reader: XmlSource) -> Seq<
    Result<XmlEvent, xml::reader::Error>,
>;

/// Calls xml-rs's `ParserConfig::create_reader` on `src`, with white space
/// trimmed and comments ignored, and takes the reader's iterator. What the
/// iterator will give is a function of the bytes alone.
#[verifier::external_body]
fn open_reader<'a>(src: &'a [u8]) -> (reader: XmlSource<'a>)
    ensures
        upcoming(reader) == document_events(src@),
{
    let config = xml::reader::ParserConfig::new().trim_whitespace(true).ignore_comments(true);
    XmlSource { reader: config.create_reader(src).into_iter() }
}

/// Calls `next` on the iterator of xml-rs's reader and puts the event into
/// the form of this library: of an element that opens its local name and
/// the local names and values of its attributes, of text its characters. The
/// iterator gives its events one by one and `None` behind the last, which
/// is the end of the document or an error.
#[verifier::external_body]
fn next_event(reader: &mut XmlSource) -> (r: Option<
    Result<XmlEvent, xml::reader::Error>,
>)
    ensures
        match r {
            Some(item) => upcoming(*old(reader)).len() > 0 && item == upcoming(*old(reader))[0]
                && upcoming(*final(reader)) == upcoming(*old(reader)).skip(1),
            None => upcoming(*old(reader)).len() == 0 && upcoming(*final(reader)).len() == 0,
        },
{
    Some(match reader.reader.next()? {
        Ok(xml::reader::XmlEvent::StartElement { name, attributes, .. }) => Ok(XmlEvent::StartElement {
            name: name.local_name,
            attributes: attributes.into_iter().map(|a| Attribute { name: a.name.local_name, value: a.value }).collect(),
        }),
        Ok(xml::reader::XmlEvent::EndElement { .. }) => Ok(XmlEvent::EndElement),
        Ok(xml::reader::XmlEvent::Characters(text)) => Ok(XmlEvent::Characters(text)),
        Ok(xml::reader::XmlEvent::EndDocument) => Ok(XmlEvent::EndDocument),
        Ok(_) => Ok(XmlEvent::Other),
        Err(e) => Err(e),
    })
}

/// Why a document could not be read.
#[derive(Debug)]
pub enum XmlReaderError {
    /// The document is not well-formed, or could not be read to its end
    XmlReader(xml::reader::Error),
    /// The events end inside an element, or before the end of the document
    UnexpectedEnd,
}

/// `found` with `by` more events counted.
pub open spec fn shift<T>(found: Option<(T, int)>, by: int) -> Option<(T, int)> {
    match found {
        Some((value, n)) => Some((value, n + by)),
        None => None,
    }
}

/// `found` with `by` more events counted.
pub open spec fn shift_len(found: Option<int>, by: int) -> Option<int> {
    match found {
        Some(n) => Some(n + by),
        None => None,
    }
}

/// The result of reading where the events end too early.
pub open spec fn ends_early<T>(r: Result<T, XmlReaderError>) -> bool {
    r == Err::<T, XmlReaderError>(XmlReaderError::UnexpectedEnd)
}

/// The result of reading up to the place `end`.
pub open spec fn ends_at(r: Result<usize, XmlReaderError>, end: int) -> bool {
    r == Ok::<usize, XmlReaderError>(end as usize) && 0 <= end <= usize::MAX
}

/// The number of events up to the end of the element that is open, its
/// closing event counted; `depth` elements are open inside it. `None` where
/// the events end before the element does.
pub open spec fn skip_len(events: Seq<XmlEvent>, depth: nat) -> Option<int>
    decreases events.len(),
{
    if events.len() == 0 {
        None
    } else {
        match events[0] {
            XmlEvent::StartElement { .. } => match skip_len(events.skip(1), depth + 1) {
                Some(n) => Some(n + 1),
                None => None,
            },
            XmlEvent::EndElement => if depth > 0 {
                match skip_len(events.skip(1), (depth - 1) as nat) {
                    Some(n) => Some(n + 1),
                    None => None,
                }
            } else {
                Some(1)
            },
            _ => match skip_len(events.skip(1), depth) {
                Some(n) => Some(n + 1),
                None => None,
            },
        }
    }
}

/// What is skipped lies within the events.
pub proof fn lemma_skip_len(events: Seq<XmlEvent>, depth: nat)
    ensures
        match skip_len(events, depth) {
            Some(n) => 1 <= n <= events.len(),
            None => true,
        },
    decreases events.len(),
{
    if events.len() > 0 {
        lemma_skip_len(events.skip(1), depth + 1);
        lemma_skip_len(events.skip(1), depth);
        if depth > 0 {
            lemma_skip_len(events.skip(1), (depth - 1) as nat);
        }
    }
}

/// The text of the element that is open, behind `text`, and the number of
/// events up to its end: the characters directly inside it, one piece after
/// the other. Elements inside it are passed over. `None` where the events
/// end before the element does.
pub open spec fn value_text(events: Seq<XmlEvent>, text: Seq<char>) -> Option<(Seq<char>, int)>
    decreases events.len(),
{
    if events.len() == 0 {
        None
    } else {
        match events[0] {
            XmlEvent::StartElement { .. } => match skip_len(events.skip(1), 0) {
                Some(n) => {
                    proof {
                        lemma_skip_len(events.skip(1), 0);
                    }
                    shift(value_text(events.skip(1 + n), text), 1 + n)
                },
                None => None,
            },
            XmlEvent::EndElement => Some((text, 1)),
            XmlEvent::Characters(s) => shift(value_text(events.skip(1), text + s@), 1),
            _ => shift(value_text(events.skip(1), text), 1),
        }
    }
}

/// The text of an element ends within the events.
pub proof fn lemma_value_text(events: Seq<XmlEvent>, text: Seq<char>)
    ensures
        match value_text(events, text) {
            Some((_, n)) => 1 <= n <= events.len(),
            None => true,
        },
    decreases events.len(),
{
    if events.len() > 0 {
        match events[0] {
            XmlEvent::StartElement { .. } => {
                lemma_skip_len(events.skip(1), 0);
                match skip_len(events.skip(1), 0) {
                    Some(n) => {
                        lemma_value_text(events.skip(1 + n), text);
                    },
                    None => {},
                }
            },
            XmlEvent::EndElement => {},
            XmlEvent::Characters(s) => {
                lemma_value_text(events.skip(1), text + s@);
            },
            _ => {
                lemma_value_text(events.skip(1), text);
            },
        }
    }
}

/// The values of the attributes called `name`, one behind the other.
pub open spec fn attr_values(attrs: Seq<Attribute>, name: Seq<char>) -> Seq<char>
    decreases attrs.len(),
{
    if attrs.len() == 0 {
        Seq::empty()
    } else {
        let before = attr_values(attrs.drop_last(), name);
        if attrs.last().name@ == name {
            before + attrs.last().value@
        } else {
            before
        }
    }
}

/// The language codes that the table gives for the `lang` attributes, one
/// behind the other.
pub open spec fn converted_langs(attrs: Seq<Attribute>, langs: Seq<(Seq<char>, Seq<char>)>) -> Seq<
    char,
>
    decreases attrs.len(),
{
    if attrs.len() == 0 {
        Seq::empty()
    } else {
        let before = converted_langs(attrs.drop_last(), langs);
        if attrs.last().name@ == "lang"@ {
            match lookup(langs, attrs.last().value@) {
                Some(code) => before + code,
                None => before,
            }
        } else {
            before
        }
    }
}

/// The language under which the text of an element goes: the code that the
/// table gives for its `lang` attribute, and the code for an undetermined
/// language where it has none or the table does not know it.
pub open spec fn text_lang(attrs: Seq<Attribute>, langs: Seq<(Seq<char>, Seq<char>)>) -> Seq<char> {
    let lang = converted_langs(attrs, langs);
    if lang.len() == 0 {
        LANG_UNDETERMINED@
    } else {
        lang
    }
}

/// The names of the channel that is open, with those in `names`, and the
/// number of events up to its end. Each `display-name` inside it puts its
/// text under its language, a later one in place of an earlier one; other
/// elements are passed over.
pub open spec fn channel_names(
    events: Seq<XmlEvent>,
    names: Seq<(Seq<char>, Seq<char>)>,
    langs: Seq<(Seq<char>, Seq<char>)>,
) -> Option<(Seq<(Seq<char>, Seq<char>)>, int)>
    decreases events.len(),
{
    if events.len() == 0 {
        None
    } else {
        match events[0] {
            XmlEvent::StartElement { name, attributes } => if name@ == "display-name"@ {
                match value_text(events.skip(1), Seq::empty()) {
                    Some((text, n)) => {
                        proof {
                            lemma_value_text(events.skip(1), Seq::empty());
                        }
                        shift(
                            channel_names(
                                events.skip(1 + n),
                                put(names, text_lang(attributes@, langs), text),
                                langs,
                            ),
                            1 + n,
                        )
                    },
                    None => None,
                }
            } else {
                match skip_len(events.skip(1), 0) {
                    Some(n) => {
                        proof {
                            lemma_skip_len(events.skip(1), 0);
                        }
                        shift(channel_names(events.skip(1 + n), names, langs), 1 + n)
                    },
                    None => None,
                }
            },
            XmlEvent::EndElement => Some((names, 1)),
            _ => shift(channel_names(events.skip(1), names, langs), 1),
        }
    }
}

/// The names of a channel end within the events.
pub proof fn lemma_channel_names(
    events: Seq<XmlEvent>,
    names: Seq<(Seq<char>, Seq<char>)>,
    langs: Seq<(Seq<char>, Seq<char>)>,
)
    ensures
        match channel_names(events, names, langs) {
            Some((_, n)) => 1 <= n <= events.len(),
            None => true,
        },
    decreases events.len(),
{
    if events.len() > 0 {
        match events[0] {
            XmlEvent::StartElement { name, attributes } => {
                lemma_skip_len(events.skip(1), 0);
                lemma_value_text(events.skip(1), Seq::empty());
                if name@ == "display-name"@ {
                    match value_text(events.skip(1), Seq::empty()) {
                        Some((text, n)) => {
                            lemma_channel_names(
                                events.skip(1 + n),
                                put(names, text_lang(attributes@, langs), text),
                                langs,
                            );
                        },
                        None => {},
                    }
                } else {
                    match skip_len(events.skip(1), 0) {
                        Some(n) => {
                            lemma_channel_names(events.skip(1 + n), names, langs);
                        },
                        None => {},
                    }
                }
            },
            XmlEvent::EndElement => {},
            _ => {
                lemma_channel_names(events.skip(1), names, langs);
            },
        }
    }
}

/// Whether an element of a programme holds one of its texts.
pub open spec fn is_text_field(name: Seq<char>) -> bool {
    name == "title"@ || name == "sub-title"@ || name == "desc"@
}

/// The event with `text` under `lang` in what the element `name` stands
/// for: the titles, the short descriptions or the descriptions. A text that
/// stood there under `lang` is gone.
pub open spec fn with_text(
    event: EpgEventView,
    name: Seq<char>,
    lang: Seq<char>,
    text: Seq<char>,
) -> EpgEventView {
    if name == "title"@ {
        EpgEventView { title: put(event.title, lang, text), ..event }
    } else if name == "sub-title"@ {
        EpgEventView { subtitle: put(event.subtitle, lang, text), ..event }
    } else {
        EpgEventView { desc: put(event.desc, lang, text), ..event }
    }
}

/// The programme that is open, with the texts of `event`, and the number of
/// events up to its end. Each `title`, `sub-title` and `desc` inside it puts
/// its text under its language, a later one in place of an earlier one;
/// other elements are passed over.
pub open spec fn programme_texts(
    events: Seq<XmlEvent>,
    event: EpgEventView,
    langs: Seq<(Seq<char>, Seq<char>)>,
) -> Option<(EpgEventView, int)>
    decreases events.len(),
{
    if events.len() == 0 {
        None
    } else {
        match events[0] {
            XmlEvent::StartElement { name, attributes } => if is_text_field(name@) {
                match value_text(events.skip(1), Seq::empty()) {
                    Some((text, n)) => {
                        proof {
                            lemma_value_text(events.skip(1), Seq::empty());
                        }
                        shift(
                            programme_texts(
                                events.skip(1 + n),
                                with_text(event, name@, text_lang(attributes@, langs), text),
                                langs,
                            ),
                            1 + n,
                        )
                    },
                    None => None,
                }
            } else {
                match skip_len(events.skip(1), 0) {
                    Some(n) => {
                        proof {
                            lemma_skip_len(events.skip(1), 0);
                        }
                        shift(programme_texts(events.skip(1 + n), event, langs), 1 + n)
                    },
                    None => None,
                }
            },
            XmlEvent::EndElement => Some((event, 1)),
            _ => shift(programme_texts(events.skip(1), event, langs), 1),
        }
    }
}

/// A programme ends within the events, and keeps its times, its identifier
/// and its codepage.
pub proof fn lemma_programme_texts(
    events: Seq<XmlEvent>,
    event: EpgEventView,
    langs: Seq<(Seq<char>, Seq<char>)>,
)
    ensures
        match programme_texts(events, event, langs) {
            Some((found, n)) => 1 <= n <= events.len() && found.start == event.start && found.stop
                == event.stop && found.event_id == event.event_id && found.codepage
                == event.codepage && found.parental_rating == event.parental_rating,
            None => true,
        },
    decreases events.len(),
{
    if events.len() > 0 {
        match events[0] {
            XmlEvent::StartElement { name, attributes } => {
                lemma_skip_len(events.skip(1), 0);
                lemma_value_text(events.skip(1), Seq::empty());
                if is_text_field(name@) {
                    match value_text(events.skip(1), Seq::empty()) {
                        Some((text, n)) => {
                            lemma_programme_texts(
                                events.skip(1 + n),
                                with_text(event, name@, text_lang(attributes@, langs), text),
                                langs,
                            );
                        },
                        None => {},
                    }
                } else {
                    match skip_len(events.skip(1), 0) {
                        Some(n) => {
                            lemma_programme_texts(events.skip(1 + n), event, langs);
                        },
                        None => {},
                    }
                }
            },
            XmlEvent::EndElement => {},
            _ => {
                lemma_programme_texts(events.skip(1), event, langs);
            },
        }
    }
}

/// What the attributes of a `programme` say.
pub struct ProgrammeAttrs {
    pub event_id: u16,
    pub channel: Seq<char>,
    pub start: u64,
    pub stop: u64,
}

/// What the attributes of a `programme` say: `event_id`, `start` and `stop`
/// as the last attribute of that name gives them, 0 where there is none;
/// `channel` as the values of the attributes of that name, one behind the
/// other.
pub open spec fn programme_attrs(attrs: Seq<Attribute>) -> ProgrammeAttrs
    decreases attrs.len(),
{
    if attrs.len() == 0 {
        ProgrammeAttrs { event_id: 0, channel: Seq::empty(), start: 0, stop: 0 }
    } else {
        let before = programme_attrs(attrs.drop_last());
        let name = attrs.last().name@;
        let value = attrs.last().value@;
        if name == "event_id"@ {
            ProgrammeAttrs { event_id: decimal_u16(value), ..before }
        } else if name == "channel"@ {
            ProgrammeAttrs { channel: before.channel + value, ..before }
        } else if name == "start"@ {
            ProgrammeAttrs { start: date_value(value), ..before }
        } else if name == "stop"@ {
            ProgrammeAttrs { stop: date_value(value), ..before }
        } else {
            before
        }
    }
}

/// Whether a channel takes a programme that starts at `start`: it does
/// where it has seen no event yet, or the last one it has seen starts
/// earlier.
pub open spec fn takes(channel: EpgChannelView, start: u64) -> bool {
    match channel.last_event_start {
        Some(last) => last < start,
        None => true,
    }
}

/// The schedule after the `channel` element that is open, and the number of
/// events up to its end. A channel without an identifier, or with one that
/// the schedule has, is passed over; a new one goes behind the others, with
/// the names it brings and without events.
pub open spec fn read_channel(
    epg: Seq<(Seq<char>, EpgChannelView)>,
    attrs: Seq<Attribute>,
    events: Seq<XmlEvent>,
    langs: Seq<(Seq<char>, Seq<char>)>,
) -> Option<(Seq<(Seq<char>, EpgChannelView)>, int)> {
    let id = attr_values(attrs, "id"@);
    if id.len() == 0 || has_key(epg, id) {
        match skip_len(events, 0) {
            Some(n) => Some((epg, n)),
            None => None,
        }
    } else {
        match channel_names(events, Seq::empty(), langs) {
            Some((names, n)) => Some(
                (
                    epg.push(
                        (
                            id,
                            EpgChannelView {
                                name: names,
                                events: Seq::empty(),
                                last_event_start: None,
                            },
                        ),
                    ),
                    n,
                ),
            ),
            None => None,
        }
    }
}

/// The schedule after the `programme` element that is open, and the number
/// of events up to its end. A programme of a channel that the schedule does
/// not have, or one that the channel does not take, is passed over; another
/// one goes behind the events of its channel.
pub open spec fn read_programme(
    epg: Seq<(Seq<char>, EpgChannelView)>,
    attrs: Seq<Attribute>,
    events: Seq<XmlEvent>,
    langs: Seq<(Seq<char>, Seq<char>)>,
) -> Option<(Seq<(Seq<char>, EpgChannelView)>, int)> {
    let said = programme_attrs(attrs);
    if has_key(epg, said.channel) && takes(epg[key_index(epg, said.channel)].1, said.start) {
        let fresh = EpgEventView {
            event_id: said.event_id,
            start: said.start,
            stop: said.stop,
            title: Seq::empty(),
            subtitle: Seq::empty(),
            desc: Seq::empty(),
            codepage: 0,
            parental_rating: Seq::empty(),
        };
        match programme_texts(events, fresh, langs) {
            Some((event, n)) => Some((with_event(epg, key_index(epg, said.channel), event), n)),
            None => None,
        }
    } else {
        match skip_len(events, 0) {
            Some(n) => Some((epg, n)),
            None => None,
        }
    }
}

/// The schedule after the element `name` that is open, and the number of
/// events up to its end.
pub open spec fn read_element(
    epg: Seq<(Seq<char>, EpgChannelView)>,
    name: Seq<char>,
    attrs: Seq<Attribute>,
    events: Seq<XmlEvent>,
    langs: Seq<(Seq<char>, Seq<char>)>,
) -> Option<(Seq<(Seq<char>, EpgChannelView)>, int)> {
    if name == "channel"@ {
        read_channel(epg, attrs, events, langs)
    } else if name == "programme"@ {
        read_programme(epg, attrs, events, langs)
    } else {
        match skip_len(events, 0) {
            Some(n) => Some((epg, n)),
            None => None,
        }
    }
}

/// An element ends within the events.
pub proof fn lemma_read_element(
    epg: Seq<(Seq<char>, EpgChannelView)>,
    name: Seq<char>,
    attrs: Seq<Attribute>,
    events: Seq<XmlEvent>,
    langs: Seq<(Seq<char>, Seq<char>)>,
)
    ensures
        match read_element(epg, name, attrs, events, langs) {
            Some((_, n)) => 1 <= n <= events.len(),
            None => true,
        },
{
    lemma_skip_len(events, 0);
    lemma_channel_names(events, Seq::empty(), langs);
    let said = programme_attrs(attrs);
    let fresh = EpgEventView {
        event_id: said.event_id,
        start: said.start,
        stop: said.stop,
        title: Seq::empty(),
        subtitle: Seq::empty(),
        desc: Seq::empty(),
        codepage: 0,
        parental_rating: Seq::empty(),
    };
    lemma_programme_texts(events, fresh, langs);
}

/// The schedule as the events of a document leave it before its events
/// are put in order, and whether the end of the document was reached. A `tv`
/// element is entered; a `channel` and a `programme` are read; any other
/// element is passed over with all that is inside it. Where the events end
/// before the document does, the schedule is as the last element that was
/// read to its end left it.
pub open spec fn gather_events(
    epg: Seq<(Seq<char>, EpgChannelView)>,
    events: Seq<XmlEvent>,
    langs: Seq<(Seq<char>, Seq<char>)>,
) -> (Seq<(Seq<char>, EpgChannelView)>, bool)
    decreases events.len(),
{
    if events.len() == 0 {
        (epg, false)
    } else {
        match events[0] {
            XmlEvent::StartElement { name, attributes } => if name@ == "tv"@ {
                gather_events(epg, events.skip(1), langs)
            } else {
                match read_element(epg, name@, attributes@, events.skip(1), langs) {
                    Some((next, n)) => {
                        proof {
                            lemma_read_element(epg, name@, attributes@, events.skip(1), langs);
                        }
                        gather_events(next, events.skip(1 + n), langs)
                    },
                    None => (epg, false),
                }
            },
            XmlEvent::EndDocument => (epg, true),
            _ => gather_events(epg, events.skip(1), langs),
        }
    }
}

/// The schedule after the events of a document, and whether the end of the
/// document was reached. The channels and programmes of the document go in
/// as `gather_events` says; at the end of the document the events of every
/// channel are put in the order of their start times. Where the events end
/// before that, the schedule is as the last element that was read to its end
/// left it.
pub open spec fn parse_events(
    epg: Seq<(Seq<char>, EpgChannelView)>,
    events: Seq<XmlEvent>,
    langs: Seq<(Seq<char>, Seq<char>)>,
) -> (Seq<(Seq<char>, EpgChannelView)>, bool) {
    let (gathered, ended) = gather_events(epg, events, langs);
    if ended {
        (sorted_channels(gathered), true)
    } else {
        (gathered, false)
    }
}

/// A programme whose channel has seen an event that starts at the same
/// time or later leaves the schedule as it is: neither the events of the
/// channel nor the start that it has noted change.
pub proof fn lemma_stale_programme(
    epg: Seq<(Seq<char>, EpgChannelView)>,
    attrs: Seq<Attribute>,
    events: Seq<XmlEvent>,
    langs: Seq<(Seq<char>, Seq<char>)>,
    last: u64,
)
    requires
        has_key(epg, programme_attrs(attrs).channel),
        epg[key_index(epg, programme_attrs(attrs).channel)].1.last_event_start == Some(last),
        programme_attrs(attrs).start <= last,
    ensures
        match read_programme(epg, attrs, events, langs) {
            Some((next, n)) => next == epg,
            None => true,
        },
{
}

/// After a document that was read to its end, no event of a channel starts
/// before one that stands earlier.
pub proof fn lemma_parse_sorts(
    epg: Seq<(Seq<char>, EpgChannelView)>,
    events: Seq<XmlEvent>,
    langs: Seq<(Seq<char>, Seq<char>)>,
)
    requires
        parse_events(epg, events, langs).1,
    ensures
        forall|i: int|
            0 <= i < parse_events(epg, events, langs).0.len() ==> in_start_order(
                (#[trigger] parse_events(epg, events, langs).0[i]).1.events,
            ),
{
    let gathered = gather_events(epg, events, langs).0;
    let sorted = sorted_channels(gathered);
    assert forall|i: int| 0 <= i < sorted.len() implies in_start_order(
        (#[trigger] sorted[i]).1.events,
    ) by {
        lemma_sort_events(gathered[i].1.events);
    }
}

/// Passes over the element that is open at `pos`, with all that is inside
/// it, and gives the place behind its end.
pub fn skip_xml_element(events: &[XmlEvent], pos: usize) -> (r: Result<usize, XmlReaderError>)
    requires
        pos <= events@.len(),
    ensures
        match skip_len(events@.skip(pos as int), 0) {
            Some(n) => ends_at(r, pos + n) && pos + n <= events@.len(),
            None => ends_early(r),
        },
{
    let mut deep: usize = 0;
    let mut i: usize = pos;
    while i < events.len()
        invariant
            pos <= i <= events@.len(),
            deep <= i - pos,
            skip_len(events@.skip(pos as int), 0) == shift_len(
                skip_len(events@.skip(i as int), deep as nat),
                i - pos,
            ),
        decreases events@.len() - i,
    {
        proof {
            assert(events@.skip(i as int).skip(1) =~= events@.skip(i + 1));
            assert(events@.skip(i as int)[0] == events@[i as int]);
        }
        match &events[i] {
            XmlEvent::StartElement { .. } => {
                deep += 1;
            },
            XmlEvent::EndElement => {
                if deep > 0 {
                    deep -= 1;
                } else {
                    return Ok(i + 1);
                }
            },
            _ => {},
        }
        i += 1;
    }
    Err(XmlReaderError::UnexpectedEnd)
}

/// The values of the attributes called `name`, one behind the other.
pub fn attr_text(attrs: &Vec<Attribute>, name: &str) -> (r: String)
    ensures
        r@ == attr_values(attrs@, name@),
{
    let mut r = String::new();
    let mut i: usize = 0;
    assert(attrs@.take(0) =~= Seq::empty());
    while i < attrs.len()
        invariant
            i <= attrs@.len(),
            r@ == attr_values(attrs@.take(i as int), name@),
        decreases attrs@.len() - i,
    {
        proof {
            assert(attrs@.take(i + 1).drop_last() =~= attrs@.take(i as int));
            assert(attrs@.take(i + 1).last() == attrs@[i as int]);
        }
        if same_text(attrs[i].name.as_str(), name) {
            r.append(attrs[i].value.as_str());
        }
        i += 1;
    }
    assert(attrs@.take(attrs@.len() as int) =~= attrs@);
    r
}

/// The language under which the text of an element with the attributes
/// `attrs` goes.
pub fn lang_of(attrs: &Vec<Attribute>, langs: &LangTable) -> (r: String)
    ensures
        r@ == text_lang(attrs@, langs@),
{
    let mut r = String::new();
    let mut i: usize = 0;
    assert(attrs@.take(0) =~= Seq::empty());
    while i < attrs.len()
        invariant
            i <= attrs@.len(),
            r@ == converted_langs(attrs@.take(i as int), langs@),
        decreases attrs@.len() - i,
    {
        proof {
            assert(attrs@.take(i + 1).drop_last() =~= attrs@.take(i as int));
            assert(attrs@.take(i + 1).last() == attrs@[i as int]);
        }
        if same_text(attrs[i].name.as_str(), "lang") {
            match langs.convert(attrs[i].value.as_str()) {
                Some(code) => {
                    r.append(code.as_str());
                },
                None => {},
            }
        }
        i += 1;
    }
    assert(attrs@.take(attrs@.len() as int) =~= attrs@);
    if r.as_str().is_empty() {
        LANG_UNDETERMINED.to_owned()
    } else {
        r
    }
}

/// Reads the text of the element that is open at `pos` and puts it into
/// `map` under the language of the element, in place of a text that stands
/// there. Gives the place behind the element's end. Where the events end
/// before the element does, `map` stays as it is.
pub fn parse_xml_value(
    map: &mut TextMap,
    events: &[XmlEvent],
    pos: usize,
    attrs: &Vec<Attribute>,
    langs: &LangTable,
) -> (r: Result<usize, XmlReaderError>)
    requires
        pos <= events@.len(),
    ensures
        match value_text(events@.skip(pos as int), Seq::empty()) {
            Some((text, n)) => ends_at(r, pos + n) && pos + n <= events@.len() && final(map)@
                == put(old(map)@, text_lang(attrs@, langs@), text),
            None => ends_early(r) && final(map)@ == old(map)@,
        },
{
    let mut text = String::new();
    let mut i: usize = pos;
    while i < events.len()
        invariant
            pos <= i <= events@.len(),
            *map == *old(map),
            value_text(events@.skip(pos as int), Seq::empty()) == shift(
                value_text(events@.skip(i as int), text@),
                i - pos,
            ),
        decreases events@.len() - i,
    {
        proof {
            assert(events@.skip(i as int).skip(1) =~= events@.skip(i + 1));
            assert(events@.skip(i as int)[0] == events@[i as int]);
            lemma_skip_len(events@.skip(i + 1), 0);
        }
        match &events[i] {
            XmlEvent::StartElement { .. } => {
                match skip_xml_element(events, i + 1) {
                    Ok(end) => {
                        assert(events@.skip(i as int).skip(1 + (end - i - 1)) =~= events@.skip(
                            end as int,
                        ));
                        i = end;
                    },
                    Err(e) => {
                        return Err(e);
                    },
                }
            },
            XmlEvent::EndElement => {
                map.insert(lang_of(attrs, langs), text);
                return Ok(i + 1);
            },
            XmlEvent::Characters(s) => {
                text.append(s.as_str());
                i += 1;
            },
            _ => {
                i += 1;
            },
        }
    }
    Err(XmlReaderError::UnexpectedEnd)
}

/// Reads the `channel` element that is open at `pos`, whose attributes
/// are `attrs`, and gives the place behind its end. A channel that is new
/// to the schedule goes in with its names.
#[verifier::loop_isolation(false)]
pub fn read_xml_channel(
    epg: &mut Epg,
    events: &[XmlEvent],
    pos: usize,
    attrs: &Vec<Attribute>,
    langs: &LangTable,
) -> (r: Result<usize, XmlReaderError>)
    requires
        pos <= events@.len(),
    ensures
        match read_channel(old(epg)@, attrs@, events@.skip(pos as int), langs@) {
            Some((next, n)) => ends_at(r, pos + n) && pos + n <= events@.len() && final(epg)@
                == next,
            None => ends_early(r) && final(epg)@ == old(epg)@,
        },
{
    let id = attr_text(attrs, "id");
    if id.as_str().is_empty() {
        return skip_xml_element(events, pos);
    }
    if epg.channels.contains_key(id.as_str()) {
        return skip_xml_element(events, pos);
    }
    let mut name = TextMap::new();
    let mut i: usize = pos;
    while i < events.len()
        invariant
            pos <= i <= events@.len(),
            *epg == *old(epg),
            id@ == attr_values(attrs@, "id"@),
            !has_key(epg@, id@),
            channel_names(events@.skip(pos as int), Seq::empty(), langs@) == shift(
                channel_names(events@.skip(i as int), name@, langs@),
                i - pos,
            ),
        decreases events@.len() - i,
    {
        proof {
            assert(events@.skip(i as int).skip(1) =~= events@.skip(i + 1));
            assert(events@.skip(i as int)[0] == events@[i as int]);
            lemma_skip_len(events@.skip(i + 1), 0);
            lemma_value_text(events@.skip(i + 1), Seq::empty());
        }
        match &events[i] {
            XmlEvent::StartElement { name: element, attributes } => {
                let inner = if same_text(element.as_str(), "display-name") {
                    parse_xml_value(&mut name, events, i + 1, attributes, langs)
                } else {
                    skip_xml_element(events, i + 1)
                };
                match inner {
                    Ok(end) => {
                        assert(events@.skip(i as int).skip(1 + (end - i - 1)) =~= events@.skip(
                            end as int,
                        ));
                        i = end;
                    },
                    Err(e) => {
                        return Err(e);
                    },
                }
            },
            XmlEvent::EndElement => {
                let mut channel = EpgChannel::default();
                channel.name = name;
                epg.channels.insert(id, channel);
                return Ok(i + 1);
            },
            _ => {
                i += 1;
            },
        }
    }
    Err(XmlReaderError::UnexpectedEnd)
}

/// What the attributes of a `programme` say.
pub fn read_programme_attrs(attrs: &Vec<Attribute>) -> (r: (u16, String, u64, u64))
    ensures
        r.0 == programme_attrs(attrs@).event_id,
        r.1@ == programme_attrs(attrs@).channel,
        r.2 == programme_attrs(attrs@).start,
        r.3 == programme_attrs(attrs@).stop,
{
    let mut event_id: u16 = 0;
    let mut channel = String::new();
    let mut start: u64 = 0;
    let mut stop: u64 = 0;
    let mut i: usize = 0;
    assert(attrs@.take(0) =~= Seq::empty());
    while i < attrs.len()
        invariant
            i <= attrs@.len(),
            event_id == programme_attrs(attrs@.take(i as int)).event_id,
            channel@ == programme_attrs(attrs@.take(i as int)).channel,
            start == programme_attrs(attrs@.take(i as int)).start,
            stop == programme_attrs(attrs@.take(i as int)).stop,
        decreases attrs@.len() - i,
    {
        proof {
            assert(attrs@.take(i + 1).drop_last() =~= attrs@.take(i as int));
            assert(attrs@.take(i + 1).last() == attrs@[i as int]);
        }
        let name = attrs[i].name.as_str();
        let value = attrs[i].value.as_str();
        if same_text(name, "event_id") {
            event_id = parse_u16(value);
        } else if same_text(name, "channel") {
            channel.append(value);
        } else if same_text(name, "start") {
            start = parse_date(value);
        } else if same_text(name, "stop") {
            stop = parse_date(value);
        }
        i += 1;
    }
    assert(attrs@.take(attrs@.len() as int) =~= attrs@);
    (event_id, channel, start, stop)
}

/// Reads the element `name` that is open at `pos` inside a programme and
/// gives the place behind its end. A title, a short description and a
/// description put their text into `event`; any other element is passed
/// over.
pub fn read_xml_programme_field(
    event: &mut EpgEvent,
    events: &[XmlEvent],
    pos: usize,
    name: &str,
    attrs: &Vec<Attribute>,
    langs: &LangTable,
) -> (r: Result<usize, XmlReaderError>)
    requires
        pos <= events@.len(),
    ensures
        is_text_field(name@) ==> match value_text(events@.skip(pos as int), Seq::empty()) {
            Some((text, n)) => ends_at(r, pos + n) && pos + n <= events@.len() && final(event)@
                == with_text(old(event)@, name@, text_lang(attrs@, langs@), text),
            None => ends_early(r) && final(event)@ == old(event)@,
        },
        !is_text_field(name@) ==> final(event)@ == old(event)@ && match skip_len(
            events@.skip(pos as int),
            0,
        ) {
            Some(n) => ends_at(r, pos + n) && pos + n <= events@.len(),
            None => ends_early(r),
        },
{
    if same_text(name, "title") {
        parse_xml_value(&mut event.title, events, pos, attrs, langs)
    } else if same_text(name, "sub-title") {
        parse_xml_value(&mut event.subtitle, events, pos, attrs, langs)
    } else if same_text(name, "desc") {
        parse_xml_value(&mut event.desc, events, pos, attrs, langs)
    } else {
        skip_xml_element(events, pos)
    }
}

/// Reads what is inside the programme that is open at `pos` into `event`
/// and gives the place behind the programme's end.
pub fn read_xml_programme_body(
    event: &mut EpgEvent,
    events: &[XmlEvent],
    pos: usize,
    langs: &LangTable,
) -> (r: Result<usize, XmlReaderError>)
    requires
        pos <= events@.len(),
    ensures
        match programme_texts(events@.skip(pos as int), old(event)@, langs@) {
            Some((found, n)) => ends_at(r, pos + n) && pos + n <= events@.len() && final(event)@
                == found,
            None => ends_early(r),
        },
{
    let mut i: usize = pos;
    while i < events.len()
        invariant
            pos <= i <= events@.len(),
            programme_texts(events@.skip(pos as int), old(event)@, langs@) == shift(
                programme_texts(events@.skip(i as int), event@, langs@),
                i - pos,
            ),
        decreases events@.len() - i,
    {
        proof {
            assert(events@.skip(i as int).skip(1) =~= events@.skip(i + 1));
            assert(events@.skip(i as int)[0] == events@[i as int]);
            lemma_skip_len(events@.skip(i + 1), 0);
            lemma_value_text(events@.skip(i + 1), Seq::empty());
        }
        match &events[i] {
            XmlEvent::StartElement { name, attributes } => {
                match read_xml_programme_field(
                    event,
                    events,
                    i + 1,
                    name.as_str(),
                    attributes,
                    langs,
                ) {
                    Ok(end) => {
                        assert(events@.skip(i as int).skip(1 + (end - i - 1)) =~= events@.skip(
                            end as int,
                        ));
                        i = end;
                    },
                    Err(e) => {
                        return Err(e);
                    },
                }
            },
            XmlEvent::EndElement => {
                return Ok(i + 1);
            },
            _ => {
                i += 1;
            },
        }
    }
    Err(XmlReaderError::UnexpectedEnd)
}

/// Reads the `programme` element that is open at `pos`, whose attributes
/// are `attrs`, and gives the place behind its end. A programme that its
/// channel takes goes behind the events of the channel.
pub fn read_xml_programme(
    epg: &mut Epg,
    events: &[XmlEvent],
    pos: usize,
    attrs: &Vec<Attribute>,
    langs: &LangTable,
) -> (r: Result<usize, XmlReaderError>)
    requires
        pos <= events@.len(),
    ensures
        match read_programme(old(epg)@, attrs@, events@.skip(pos as int), langs@) {
            Some((next, n)) => ends_at(r, pos + n) && pos + n <= events@.len() && final(epg)@
                == next,
            None => ends_early(r) && final(epg)@ == old(epg)@,
        },
{
    let (event_id, channel, start, stop) = read_programme_attrs(attrs);
    let at = match epg.channels.position(channel.as_str()) {
        Some(at) => at,
        None => {
            return skip_xml_element(events, pos);
        },
    };
    match epg.channels.channel_at(at).last_event_start {
        Some(last) => {
            if last >= start {
                return skip_xml_element(events, pos);
            }
        },
        None => {},
    }
    let mut event = EpgEvent {
        event_id,
        start,
        stop,
        title: TextMap::new(),
        subtitle: TextMap::new(),
        desc: TextMap::new(),
        codepage: 0,
        parental_rating: RatingMap::new(),
    };
    match read_xml_programme_body(&mut event, events, pos, langs) {
        Ok(end) => {
            epg.channels.push_event(at, event);
            Ok(end)
        },
        Err(e) => Err(e),
    }
}

/// Reads a document from its events into the schedule. Channels that are
/// new go in, programmes go to their channels, and at the end of the
/// document the events of every channel are put in order. Where the events
/// end before the document does, what was read up to there stays in the
/// schedule.
pub fn parse_xml_tv(epg: &mut Epg, events: &[XmlEvent], langs: &LangTable) -> (r: Result<
    (),
    XmlReaderError,
>)
    ensures
        final(epg)@ == parse_events(old(epg)@, events@, langs@).0,
        r.is_ok() == parse_events(old(epg)@, events@, langs@).1,
        r.is_err() ==> ends_early(r),
        r.is_ok() ==> forall|k: int|
            0 <= k < final(epg)@.len() ==> in_start_order((#[trigger] final(epg)@[k]).1.events),
{
    proof {
        if parse_events(epg@, events@, langs@).1 {
            lemma_parse_sorts(epg@, events@, langs@);
        }
    }
    let mut i: usize = 0;
    assert(events@.skip(0) =~= events@);
    while i < events.len()
        invariant
            i <= events@.len(),
            gather_events(old(epg)@, events@, langs@) == gather_events(
                epg@,
                events@.skip(i as int),
                langs@,
            ),
            parse_events(old(epg)@, events@, langs@).1 ==> forall|k: int|
                0 <= k < parse_events(old(epg)@, events@, langs@).0.len() ==> in_start_order(
                    (#[trigger] parse_events(old(epg)@, events@, langs@).0[k]).1.events,
                ),
        decreases events@.len() - i,
    {
        proof {
            assert(events@.skip(i as int).skip(1) =~= events@.skip(i + 1));
            assert(events@.skip(i as int)[0] == events@[i as int]);
        }
        match &events[i] {
            XmlEvent::StartElement { name, attributes } => {
                if same_text(name.as_str(), "tv") {
                    i += 1;
                } else {
                    proof {
                        lemma_read_element(
                            epg@,
                            name@,
                            attributes@,
                            events@.skip(i + 1),
                            langs@,
                        );
                    }
                    let inner = if same_text(name.as_str(), "channel") {
                        read_xml_channel(epg, events, i + 1, attributes, langs)
                    } else if same_text(name.as_str(), "programme") {
                        read_xml_programme(epg, events, i + 1, attributes, langs)
                    } else {
                        skip_xml_element(events, i + 1)
                    };
                    match inner {
                        Ok(end) => {
                            assert(events@.skip(i as int).skip(1 + (end - i - 1)) =~= events@.skip(
                                end as int,
                            ));
                            i = end;
                        },
                        Err(e) => {
                            return Err(e);
                        },
                    }
                }
            },
            XmlEvent::EndDocument => {
                epg.channels.sort_all();
                return Ok(());
            },
            _ => {
                i += 1;
            },
        }
    }
    Err(XmlReaderError::UnexpectedEnd)
}

/// The events up to the first error.
pub open spec fn leading_events(items: Seq<Result<XmlEvent, xml::reader::Error>>) -> Seq<XmlEvent>
    decreases items.len(),
{
    if items.len() == 0 {
        Seq::empty()
    } else {
        match items[0] {
            Ok(event) => seq![event] + leading_events(items.skip(1)),
            Err(_) => Seq::empty(),
        }
    }
}

/// The first error among the events.
pub open spec fn first_failure(items: Seq<Result<XmlEvent, xml::reader::Error>>) -> Option<
    xml::reader::Error,
>
    decreases items.len(),
{
    if items.len() == 0 {
        None
    } else {
        match items[0] {
            Ok(_) => first_failure(items.skip(1)),
            Err(e) => Some(e),
        }
    }
}

/// Reads the events of the document `src`: all of them up to its end, or
/// up to the first error, which comes with them.
pub fn read_xml_events(src: &[u8]) -> (r: (Vec<XmlEvent>, Option<xml::reader::Error>))
    ensures
        r.0@ == leading_events(document_events(src@)),
        r.1 == first_failure(document_events(src@)),
{
    let mut reader = open_reader(src);
    let mut events: Vec<XmlEvent> = Vec::new();
    loop
        invariant
            leading_events(document_events(src@)) == events@ + leading_events(upcoming(reader)),
            first_failure(document_events(src@)) == first_failure(upcoming(reader)),
        decreases upcoming(reader).len(),
    {
        let ghost before = events@;
        match next_event(&mut reader) {
            Some(Ok(event)) => {
                events.push(event);
                assert(events@ + leading_events(upcoming(reader)) =~= before + (seq![event]
                    + leading_events(upcoming(reader))));
            },
            Some(Err(e)) => {
                assert(events@ + Seq::<XmlEvent>::empty() =~= events@);
                return (events, Some(e));
            },
            None => {
                assert(events@ + Seq::<XmlEvent>::empty() =~= events@);
                return (events, None);
            },
        }
    }
}

/// What reading the document `src` gives: the error of the reader where it
/// found one before the document's end, and else that the events ended too
/// early.
pub open spec fn failure_of(src: Seq<u8>) -> XmlReaderError {
    match first_failure(document_events(src)) {
        Some(e) => XmlReaderError::XmlReader(e),
        None => XmlReaderError::UnexpectedEnd,
    }
}

/// Reads the document `src` into the schedule. What the document holds up
/// to its end, or up to the place where it is not well-formed, goes in as
/// `parse_xml_tv` says.
pub fn read_xml_tv(epg: &mut Epg, src: &[u8], langs: &LangTable) -> (r: Result<(), XmlReaderError>)
    ensures
        final(epg)@ == parse_events(
            old(epg)@,
            leading_events(document_events(src@)),
            langs@,
        ).0,
        r.is_ok() == parse_events(old(epg)@, leading_events(document_events(src@)), langs@).1,
        r.is_err() ==> r == Err::<(), XmlReaderError>(failure_of(src@)),
{
    let (events, failure) = read_xml_events(src);
    match parse_xml_tv(epg, events.as_slice(), langs) {
        Ok(()) => Ok(()),
        Err(_) => match failure {
            Some(e) => Err(XmlReaderError::XmlReader(e)),
            None => Err(XmlReaderError::UnexpectedEnd),
        },
    }
}

} // verus!
