use vstd::prelude::*;
use crate::epg_channel::EpgChannelView;
use crate::epg_event::EpgEventView;
use crate::read_xml::{
    channel_names,
    is_text_field,
    lemma_channel_names,
    lemma_programme_texts,
    lemma_read_element,
    lemma_skip_len,
    lemma_value_text,
    gather_events,
    parse_events,
    programme_attrs,
    programme_texts,
    read_element,
    shift,
    skip_len,
    text_lang,
    value_text,
    with_text,
};
use crate::text_map::put;
use crate::xml_event::{Attribute, XmlEvent};

verus! {

/// An element that ends within `a` ends at the same place when more events
/// follow.
pub proof fn lemma_skip_prefix(a: Seq<XmlEvent>, b: Seq<XmlEvent>, depth: nat)
    requires
        skip_len(a, depth).is_some(),
    ensures
        skip_len(a + b, depth) == skip_len(a, depth),
    decreases a.len(),
{
    if a.len() > 0 {
        assert((a + b)[0] == a[0]);
        assert((a + b).skip(1) =~= a.skip(1) + b);
        match a[0] {
            XmlEvent::StartElement { .. } => {
                lemma_skip_prefix(a.skip(1), b, depth + 1);
            },
            XmlEvent::EndElement => {
                if depth > 0 {
                    lemma_skip_prefix(a.skip(1), b, (depth - 1) as nat);
                }
            },
            _ => {
                lemma_skip_prefix(a.skip(1), b, depth);
            },
        }
    }
}

/// The text of an element that ends within `a` is the same when more
/// events follow.
pub proof fn lemma_value_prefix(a: Seq<XmlEvent>, b: Seq<XmlEvent>, text: Seq<char>)
    requires
        value_text(a, text).is_some(),
    ensures
        value_text(a + b, text) == value_text(a, text),
    decreases a.len(),
{
    if a.len() > 0 {
        assert((a + b)[0] == a[0]);
        assert((a + b).skip(1) =~= a.skip(1) + b);
        match a[0] {
            XmlEvent::StartElement { .. } => {
                lemma_skip_len(a.skip(1), 0);
                let n = skip_len(a.skip(1), 0).unwrap();
                lemma_skip_prefix(a.skip(1), b, 0);
                assert((a + b).skip(1 + n) =~= a.skip(1 + n) + b);
                lemma_value_prefix(a.skip(1 + n), b, text);
            },
            XmlEvent::EndElement => {},
            XmlEvent::Characters(s) => {
                lemma_value_prefix(a.skip(1), b, text + s@);
            },
            _ => {
                lemma_value_prefix(a.skip(1), b, text);
            },
        }
    }
}

/// The names of a channel that ends within `a` are the same when more
/// events follow.
pub proof fn lemma_names_prefix(
    a: Seq<XmlEvent>,
    b: Seq<XmlEvent>,
    names: Seq<(Seq<char>, Seq<char>)>,
    langs: Seq<(Seq<char>, Seq<char>)>,
)
    requires
        channel_names(a, names, langs).is_some(),
    ensures
        channel_names(a + b, names, langs) == channel_names(a, names, langs),
    decreases a.len(),
{
    if a.len() > 0 {
        assert((a + b)[0] == a[0]);
        assert((a + b).skip(1) =~= a.skip(1) + b);
        match a[0] {
            XmlEvent::StartElement { name, attributes } => {
                lemma_skip_len(a.skip(1), 0);
                lemma_value_text(a.skip(1), Seq::empty());
                if name@ == "display-name"@ {
                    let (text, n) = value_text(a.skip(1), Seq::empty()).unwrap();
                    lemma_value_prefix(a.skip(1), b, Seq::empty());
                    assert((a + b).skip(1 + n) =~= a.skip(1 + n) + b);
                    lemma_names_prefix(
                        a.skip(1 + n),
                        b,
                        put(names, text_lang(attributes@, langs), text),
                        langs,
                    );
                } else {
                    let n = skip_len(a.skip(1), 0).unwrap();
                    lemma_skip_prefix(a.skip(1), b, 0);
                    assert((a + b).skip(1 + n) =~= a.skip(1 + n) + b);
                    lemma_names_prefix(a.skip(1 + n), b, names, langs);
                }
            },
            XmlEvent::EndElement => {},
            _ => {
                lemma_names_prefix(a.skip(1), b, names, langs);
            },
        }
    }
}

/// The texts of a programme that ends within `a` are the same when more
/// events follow.
pub proof fn lemma_programme_prefix(
    a: Seq<XmlEvent>,
    b: Seq<XmlEvent>,
    event: EpgEventView,
    langs: Seq<(Seq<char>, Seq<char>)>,
)
    requires
        programme_texts(a, event, langs).is_some(),
    ensures
        programme_texts(a + b, event, langs) == programme_texts(a, event, langs),
    decreases a.len(),
{
    if a.len() > 0 {
        assert((a + b)[0] == a[0]);
        assert((a + b).skip(1) =~= a.skip(1) + b);
        match a[0] {
            XmlEvent::StartElement { name, attributes } => {
                lemma_skip_len(a.skip(1), 0);
                lemma_value_text(a.skip(1), Seq::empty());
                if is_text_field(name@) {
                    let (text, n) = value_text(a.skip(1), Seq::empty()).unwrap();
                    lemma_value_prefix(a.skip(1), b, Seq::empty());
                    assert((a + b).skip(1 + n) =~= a.skip(1 + n) + b);
                    lemma_programme_prefix(
                        a.skip(1 + n),
                        b,
                        with_text(event, name@, text_lang(attributes@, langs), text),
                        langs,
                    );
                } else {
                    let n = skip_len(a.skip(1), 0).unwrap();
                    lemma_skip_prefix(a.skip(1), b, 0);
                    assert((a + b).skip(1 + n) =~= a.skip(1 + n) + b);
                    lemma_programme_prefix(a.skip(1 + n), b, event, langs);
                }
            },
            XmlEvent::EndElement => {},
            _ => {
                lemma_programme_prefix(a.skip(1), b, event, langs);
            },
        }
    }
}

/// What an element that ends within `a` does to the schedule is the same
/// when more events follow.
pub proof fn lemma_element_prefix(
    epg: Seq<(Seq<char>, EpgChannelView)>,
    name: Seq<char>,
    attrs: Seq<Attribute>,
    a: Seq<XmlEvent>,
    b: Seq<XmlEvent>,
    langs: Seq<(Seq<char>, Seq<char>)>,
)
    requires
        read_element(epg, name, attrs, a, langs).is_some(),
    ensures
        read_element(epg, name, attrs, a + b, langs) == read_element(epg, name, attrs, a, langs),
{
    if skip_len(a, 0).is_some() {
        lemma_skip_prefix(a, b, 0);
    }
    if channel_names(a, Seq::empty(), langs).is_some() {
        lemma_names_prefix(a, b, Seq::empty(), langs);
    }
    let said = programme_attrs(attrs);
    let fresh = EpgEventView {
        event_id: said.event_id,
        start: said.start,
        stop: said.stop,
        title: Seq::empty(),
        subtitle: Seq::empty(),
        desc: Seq::empty(),
        codepage: 0,
        parental_rating: Seq::empty(),
    };
    if programme_texts(a, fresh, langs).is_some() {
        lemma_programme_prefix(a, b, fresh, langs);
    }
}

/// The schedule after the events of `part`, where every element that opens
/// in them at the top also ends in them and the document does not end in
/// them. `None` for any other events.
pub open spec fn read_through(
    epg: Seq<(Seq<char>, EpgChannelView)>,
    part: Seq<XmlEvent>,
    langs: Seq<(Seq<char>, Seq<char>)>,
) -> Option<Seq<(Seq<char>, EpgChannelView)>>
    decreases part.len(),
{
    if part.len() == 0 {
        Some(epg)
    } else {
        match part[0] {
            XmlEvent::StartElement { name, attributes } => if name@ == "tv"@ {
                read_through(epg, part.skip(1), langs)
            } else {
                match read_element(epg, name@, attributes@, part.skip(1), langs) {
                    Some((next, n)) => {
                        proof {
                            lemma_read_element(epg, name@, attributes@, part.skip(1), langs);
                        }
                        read_through(next, part.skip(1 + n), langs)
                    },
                    None => None,
                }
            },
            XmlEvent::EndDocument => None,
            _ => read_through(epg, part.skip(1), langs),
        }
    }
}

/// Reading a document whose first part is read through goes on behind that
/// part with the schedule that the part has left.
pub proof fn lemma_read_on(
    epg: Seq<(Seq<char>, EpgChannelView)>,
    part: Seq<XmlEvent>,
    rest: Seq<XmlEvent>,
    langs: Seq<(Seq<char>, Seq<char>)>,
)
    requires
        read_through(epg, part, langs).is_some(),
    ensures
        gather_events(epg, part + rest, langs) == gather_events(
            read_through(epg, part, langs).unwrap(),
            rest,
            langs,
        ),
        parse_events(epg, part + rest, langs) == parse_events(
            read_through(epg, part, langs).unwrap(),
            rest,
            langs,
        ),
    decreases part.len(),
{
    if part.len() == 0 {
        assert(part + rest =~= rest);
    } else {
        assert((part + rest)[0] == part[0]);
        assert((part + rest).skip(1) =~= part.skip(1) + rest);
        match part[0] {
            XmlEvent::StartElement { name, attributes } => {
                if name@ == "tv"@ {
                    lemma_read_on(epg, part.skip(1), rest, langs);
                } else {
                    lemma_read_element(epg, name@, attributes@, part.skip(1), langs);
                    lemma_element_prefix(epg, name@, attributes@, part.skip(1), rest, langs);
                    let (next, n) = read_element(
                        epg,
                        name@,
                        attributes@,
                        part.skip(1),
                        langs,
                    ).unwrap();
                    assert((part + rest).skip(1 + n) =~= part.skip(1 + n) + rest);
                    lemma_read_on(next, part.skip(1 + n), rest, langs);
                }
            },
            XmlEvent::EndDocument => {},
            _ => {
                lemma_read_on(epg, part.skip(1), rest, langs);
            },
        }
    }
}

/// Whether `element` is a whole element at the top of a document that is
/// neither the root nor a channel nor a programme: it opens under another
/// name, and ends with its last event.
pub open spec fn unknown_element(element: Seq<XmlEvent>) -> bool {
    &&& element.len() > 0
    &&& match element[0] {
        XmlEvent::StartElement { name, .. } => name@ != "tv"@ && name@ != "channel"@ && name@
            != "programme"@,
        _ => false,
    }
    &&& skip_len(element.skip(1), 0) == Some(element.len() - 1)
}

/// An element that is not known leaves no trace: a document that holds one
/// between its elements is read as the document without it. `before` is what
/// stands before the element, with every element that opens in it at the
/// top ending in it, and `after` what follows.
pub proof fn lemma_unknown_element(
    epg: Seq<(Seq<char>, EpgChannelView)>,
    before: Seq<XmlEvent>,
    element: Seq<XmlEvent>,
    after: Seq<XmlEvent>,
    langs: Seq<(Seq<char>, Seq<char>)>,
)
    requires
        read_through(epg, before, langs).is_some(),
        unknown_element(element),
    ensures
        parse_events(epg, before + element + after, langs) == parse_events(
            epg,
            before + after,
            langs,
        ),
{
    let mid = read_through(epg, before, langs).unwrap();
    assert(before + element + after =~= before + (element + after));
    lemma_read_on(epg, before, element + after, langs);
    lemma_read_on(epg, before, after, langs);
    let all = element + after;
    assert(all[0] == element[0]);
    assert(all.skip(1) =~= element.skip(1) + after);
    lemma_skip_prefix(element.skip(1), after, 0);
    assert(all.skip(1 + (element.len() - 1)) =~= after);
}

} // verus!
