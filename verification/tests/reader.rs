use epg::read_xml::{
    attr_text, lang_of, parse_xml_value, read_programme_attrs, read_xml_channel, read_xml_events,
    read_xml_programme, skip_xml_element,
};
use epg::{
    parse_xml_tv, read_xml_tv, Attribute, Epg, EpgChannel, EpgError, EpgEvent, LangTable, TextMap,
    XmlEvent, XmlReaderError,
};

fn languages() -> LangTable {
    let mut langs = LangTable::new();
    langs.insert("en", "eng");
    langs.insert("de", "deu");
    langs
}

fn attr(name: &str, value: &str) -> Attribute {
    Attribute { name: name.to_string(), value: value.to_string() }
}

fn start(name: &str, attrs: &[(&str, &str)]) -> XmlEvent {
    XmlEvent::StartElement {
        name: name.to_string(),
        attributes: attrs.iter().map(|(n, v)| attr(n, v)).collect(),
    }
}

fn chars(text: &str) -> XmlEvent {
    XmlEvent::Characters(text.to_string())
}

fn end() -> XmlEvent {
    XmlEvent::EndElement
}

fn channel_with(last: Option<u64>) -> EpgChannel {
    EpgChannel { name: TextMap::new(), events: Vec::new(), last_event_start: last }
}

fn read(epg: &mut Epg, document: &str) {
    read_xml_tv(epg, document.as_bytes(), &languages()).unwrap();
}

fn titles(epg: &Epg, id: &str) -> Vec<String> {
    epg.channels
        .get(id)
        .unwrap()
        .events
        .iter()
        .map(|e| e.title.get("eng").unwrap().clone())
        .collect()
}

#[test]
fn skip_stops_at_the_matching_end() {
    let events = vec![
        start("a", &[]),
        start("b", &[]),
        chars("x"),
        start("a", &[]),
        end(),
        end(),
        XmlEvent::Other,
        end(),
        end(),
    ];
    // behind the opening of the outer element
    assert!(matches!(skip_xml_element(&events, 1), Ok(8)));
    assert!(matches!(skip_xml_element(&events, 2), Ok(6)));
    assert!(matches!(skip_xml_element(&events, 4), Ok(5)));
    assert!(matches!(skip_xml_element(&events, 8), Ok(9)));
}

#[test]
fn skip_fails_where_the_events_end() {
    let events = vec![start("a", &[]), start("b", &[]), end(), XmlEvent::EndDocument];
    assert!(matches!(skip_xml_element(&events, 1), Err(XmlReaderError::UnexpectedEnd)));
    assert!(matches!(skip_xml_element(&events, 4), Err(XmlReaderError::UnexpectedEnd)));
}

#[test]
fn attributes_are_put_together() {
    let attrs = vec![attr("id", "a"), attr("x", "y"), attr("id", "b")];
    assert_eq!(attr_text(&attrs, "id"), "ab");
    assert_eq!(attr_text(&attrs, "none"), "");
}

#[test]
fn language_falls_back_to_undetermined() {
    let langs = languages();
    assert_eq!(lang_of(&vec![attr("lang", "en")], &langs), "eng");
    assert_eq!(lang_of(&vec![attr("lang", "xx")], &langs), "und");
    assert_eq!(lang_of(&vec![attr("language", "en")], &langs), "und");
    assert_eq!(lang_of(&vec![], &langs), "und");
    assert_eq!(lang_of(&vec![attr("lang", "")], &langs), "und");
}

#[test]
fn text_is_put_together_from_its_pieces() {
    let events = vec![
        chars("one "),
        start("b", &[]),
        chars("not this"),
        end(),
        XmlEvent::Other,
        chars("two"),
        end(),
        chars("behind"),
    ];
    let mut map = TextMap::new();
    let r = parse_xml_value(&mut map, &events, 0, &vec![attr("lang", "en")], &languages());
    assert!(matches!(r, Ok(7)));
    assert_eq!(map.get("eng").unwrap(), "one two");
}

#[test]
fn second_text_takes_the_place_of_the_first() {
    let mut map = TextMap::new();
    map.insert("eng".to_string(), "Old".to_string());
    map.insert("deu".to_string(), "Alt".to_string());
    let events = vec![chars("New"), end()];
    let r = parse_xml_value(&mut map, &events, 0, &vec![attr("lang", "en")], &languages());
    assert!(matches!(r, Ok(2)));
    assert_eq!(map.len(), 2);
    assert_eq!(map.get("eng").unwrap(), "New");
    assert_eq!(map.get("deu").unwrap(), "Alt");
    assert_eq!(map.lang_at(0), "eng");

    let mut epg = Epg::default();
    read(
        &mut epg,
        r#"<tv><channel id="c"><display-name lang="en">One</display-name><display-name lang="en">Two</display-name></channel>
<programme channel="c" start="20080715003000"><title lang="en">First</title><desc>a</desc><title lang="en">Second</title><desc>b</desc></programme></tv>"#,
    );
    let channel = epg.channels.get("c").unwrap();
    assert_eq!(channel.name.len(), 1);
    assert_eq!(channel.name.get("eng").unwrap(), "Two");
    assert_eq!(channel.events[0].title.get("eng").unwrap(), "Second");
    assert_eq!(channel.events[0].desc.get("und").unwrap(), "b");
}

#[test]
fn text_without_characters_is_empty() {
    let mut map = TextMap::new();
    let r = parse_xml_value(&mut map, &[end()], 0, &vec![], &languages());
    assert!(matches!(r, Ok(1)));
    assert_eq!(map.get("und").unwrap(), "");
}

#[test]
fn text_that_does_not_end_changes_nothing() {
    let mut map = TextMap::new();
    let r = parse_xml_value(&mut map, &[chars("x")], 0, &vec![], &languages());
    assert!(matches!(r, Err(XmlReaderError::UnexpectedEnd)));
    assert!(map.is_empty());
}

#[test]
fn programme_attributes_are_read() {
    let attrs = vec![
        attr("start", "20080715003000 -0600"),
        attr("channel", "id-"),
        attr("stop", "20080715003000 +0600"),
        attr("event_id", "31948"),
        attr("channel", "1"),
        attr("other", "x"),
    ];
    assert_eq!(
        read_programme_attrs(&attrs),
        (31948, "id-1".to_string(), 1216103400, 1216060200)
    );
    assert_eq!(read_programme_attrs(&vec![]), (0, String::new(), 0, 0));
    assert_eq!(read_programme_attrs(&vec![attr("event_id", "x")]).0, 0);
    // the last one counts
    let twice = vec![attr("start", "20080715003000"), attr("start", "nothing")];
    assert_eq!(read_programme_attrs(&twice).2, 0);
}

#[test]
fn channel_element_is_read() {
    let events = vec![
        start("display-name", &[("lang", "en")]),
        chars("One"),
        end(),
        start("icon", &[("src", "x")]),
        end(),
        start("display-name", &[("lang", "de")]),
        chars("Eins"),
        end(),
        end(),
    ];
    let mut epg = Epg::default();
    let r = read_xml_channel(&mut epg, &events, 0, &vec![attr("id", "c1")], &languages());
    assert!(matches!(r, Ok(9)));
    let channel = epg.channels.get("c1").unwrap();
    assert_eq!(channel.name.get("eng").unwrap(), "One");
    assert_eq!(channel.name.get("deu").unwrap(), "Eins");
    assert!(channel.events.is_empty());
    assert_eq!(channel.last_event_start, None);

    // the channel that is there stays
    let again = vec![start("display-name", &[("lang", "en")]), chars("Two"), end(), end()];
    let r = read_xml_channel(&mut epg, &again, 0, &vec![attr("id", "c1")], &languages());
    assert!(matches!(r, Ok(4)));
    assert_eq!(epg.channels.len(), 1);
    assert_eq!(epg.channels.get("c1").unwrap().name.get("eng").unwrap(), "One");

    // a channel without an identifier is passed over
    let r = read_xml_channel(&mut epg, &again, 0, &vec![attr("name", "c2")], &languages());
    assert!(matches!(r, Ok(4)));
    assert_eq!(epg.channels.len(), 1);
}

#[test]
fn programme_element_is_read() {
    let events = vec![
        start("title", &[("lang", "en")]),
        chars("Title"),
        end(),
        start("sub-title", &[("lang", "en")]),
        chars("Short"),
        end(),
        start("category", &[]),
        chars("News"),
        end(),
        start("desc", &[]),
        chars("Text"),
        end(),
        end(),
    ];
    let attrs = vec![attr("channel", "c1"), attr("start", "20080715003000"), attr("event_id", "3")];
    let mut epg = Epg::default();

    // no such channel
    let r = read_xml_programme(&mut epg, &events, 0, &attrs, &languages());
    assert!(matches!(r, Ok(13)));
    assert!(epg.channels.is_empty());

    epg.channels.insert("c1".to_string(), channel_with(None));
    let r = read_xml_programme(&mut epg, &events, 0, &attrs, &languages());
    assert!(matches!(r, Ok(13)));
    let channel = epg.channels.get("c1").unwrap();
    assert_eq!(channel.events.len(), 1);
    let event = &channel.events[0];
    assert_eq!(event.event_id, 3);
    assert_eq!(event.start, 1216081800);
    assert_eq!(event.stop, 0);
    assert_eq!(event.title.get("eng").unwrap(), "Title");
    assert_eq!(event.subtitle.get("eng").unwrap(), "Short");
    assert_eq!(event.desc.get("und").unwrap(), "Text");
    // the start of the last event is noted when the document ends
    assert_eq!(channel.last_event_start, None);
}

#[test]
fn stale_programme_changes_nothing() {
    let events = vec![start("title", &[("lang", "en")]), chars("Title"), end(), end()];
    let mut epg = Epg::default();
    let mut channel = channel_with(Some(1216081800));
    let mut old = EpgEvent::default();
    old.start = 1216081800;
    channel.events.push(old);
    epg.channels.insert("c1".to_string(), channel);
    for start in ["20080715003000", "20080715002959", "20000101000000", "x"] {
        let attrs = vec![attr("channel", "c1"), attr("start", start)];
        let r = read_xml_programme(&mut epg, &events, 0, &attrs, &languages());
        assert!(matches!(r, Ok(4)));
        let channel = epg.channels.get("c1").unwrap();
        assert_eq!(channel.events.len(), 1);
        assert_eq!(channel.last_event_start, Some(1216081800));
    }
    let attrs = vec![attr("channel", "c1"), attr("start", "20080715003001")];
    assert!(matches!(read_xml_programme(&mut epg, &events, 0, &attrs, &languages()), Ok(4)));
    assert_eq!(epg.channels.get("c1").unwrap().events.len(), 2);
}

#[test]
fn first_event_may_start_at_the_epoch() {
    let mut epg = Epg::default();
    read(
        &mut epg,
        r#"<tv><channel id="c"/><programme channel="c" start="19700101000000 +0000"><title lang="en">Zero</title></programme></tv>"#,
    );
    let channel = epg.channels.get("c").unwrap();
    assert_eq!(channel.events.len(), 1);
    assert_eq!(channel.events[0].start, 0);
    assert_eq!(channel.last_event_start, Some(0));
}

#[test]
fn document_is_read_from_events() {
    let events = vec![
        XmlEvent::Other,
        start("tv", &[]),
        start("channel", &[("id", "c1")]),
        start("display-name", &[("lang", "en")]),
        chars("One"),
        end(),
        end(),
        start("programme", &[("channel", "c1"), ("start", "20080715013000")]),
        start("title", &[("lang", "en")]),
        chars("Late"),
        end(),
        end(),
        start("programme", &[("channel", "c1"), ("start", "20080715003000")]),
        start("title", &[("lang", "en")]),
        chars("Early"),
        end(),
        end(),
        end(),
        XmlEvent::EndDocument,
        start("channel", &[("id", "never")]),
    ];
    let mut epg = Epg::default();
    parse_xml_tv(&mut epg, &events, &languages()).unwrap();
    assert_eq!(epg.channels.len(), 1);
    assert_eq!(titles(&epg, "c1"), vec!["Early", "Late"]);
    assert_eq!(epg.channels.get("c1").unwrap().last_event_start, Some(1216085400));
}

#[test]
fn events_that_end_early_are_an_error() {
    let events = vec![
        start("tv", &[]),
        start("channel", &[("id", "c1")]),
        end(),
        start("channel", &[("id", "c2")]),
        start("display-name", &[]),
    ];
    let mut epg = Epg::default();
    let r = parse_xml_tv(&mut epg, &events, &languages());
    assert!(matches!(r, Err(XmlReaderError::UnexpectedEnd)));
    // what was read to its end stays
    assert!(epg.channels.contains_key("c1"));
    assert!(!epg.channels.contains_key("c2"));

    let mut epg = Epg::default();
    let r = parse_xml_tv(&mut epg, &[], &languages());
    assert!(matches!(r, Err(XmlReaderError::UnexpectedEnd)));
}

#[test]
fn document_gives_its_events() {
    let (events, failure) =
        read_xml_events(b"<tv>\n  <a x=\"1\" y=\"2\">text &amp; more</a><!-- no --><b/>\n</tv>");
    assert!(failure.is_none());
    assert_eq!(
        events,
        vec![
            XmlEvent::Other,
            start("tv", &[]),
            start("a", &[("x", "1"), ("y", "2")]),
            chars("text & more"),
            end(),
            start("b", &[]),
            end(),
            end(),
            XmlEvent::EndDocument,
        ]
    );
}

#[test]
fn document_that_is_not_well_formed_gives_its_error() {
    let (events, failure) = read_xml_events(b"<tv><a></b></tv>");
    assert!(failure.is_some());
    assert_eq!(events, vec![XmlEvent::Other, start("tv", &[]), start("a", &[])]);
}

#[test]
fn malformed_document_keeps_what_was_read() {
    let mut epg = Epg::default();
    let document = r#"<tv><channel id="c1"><display-name lang="en">One</display-name></channel><channel id="c2"><display-name>"#;
    let r = read_xml_tv(&mut epg, document.as_bytes(), &languages());
    assert!(matches!(r, Err(XmlReaderError::XmlReader(_))));
    assert_eq!(epg.channels.len(), 1);
    assert_eq!(epg.channels.get("c1").unwrap().name.get("eng").unwrap(), "One");

    let r = epg.read(b"<tv><programme", &languages());
    assert!(matches!(r, Err(EpgError::XmlReader(XmlReaderError::XmlReader(_)))));
    assert_eq!(epg.channels.len(), 1);
}

#[test]
fn unknown_element_leaves_no_trace() {
    let with = r#"<tv>
  <channel id="c1"><display-name lang="en">One</display-name></channel>
  <note kind="x"><channel id="c9"/><programme channel="c1" start="20080715000000"><title lang="en">Hidden</title></programme><note>deep</note></note>
  <programme channel="c1" start="20080715003000"><title lang="en">Shown</title><rating><value>PG</value></rating></programme>
</tv>"#;
    let without = r#"<tv>
  <channel id="c1"><display-name lang="en">One</display-name></channel>
  <programme channel="c1" start="20080715003000"><title lang="en">Shown</title></programme>
</tv>"#;
    let mut one = Epg::default();
    read(&mut one, with);
    let mut other = Epg::default();
    read(&mut other, without);
    assert_eq!(one, other);
    assert_eq!(one.channels.len(), 1);
    assert_eq!(titles(&one, "c1"), vec!["Shown"]);
}

#[test]
fn second_document_adds_only_what_is_later() {
    let first = r#"<tv><channel id="c1"/>
  <programme channel="c1" start="20190101010000 +0000" stop="20190101020000 +0000"><title lang="en">B</title></programme>
  <programme channel="c1" start="20190101000000 +0000" stop="20190101010000 +0000"><title lang="en">A</title></programme>
</tv>"#;
    let second = r#"<tv><channel id="c1"/>
  <programme channel="c1" start="20190101000000 +0000" stop="20190101010000 +0000"><title lang="en">A again</title></programme>
  <programme channel="c1" start="20190101010000 +0000" stop="20190101020000 +0000"><title lang="en">B again</title></programme>
  <programme channel="c1" start="20190101030000 +0000" stop="20190101040000 +0000"><title lang="en">D</title></programme>
  <programme channel="c1" start="20190101020000 +0000" stop="20190101030000 +0000"><title lang="en">C</title></programme>
</tv>"#;
    let mut epg = Epg::default();
    read(&mut epg, first);
    assert_eq!(titles(&epg, "c1"), vec!["A", "B"]);
    assert_eq!(epg.channels.get("c1").unwrap().last_event_start, Some(1546304400));
    read(&mut epg, second);
    assert_eq!(titles(&epg, "c1"), vec!["A", "B", "C", "D"]);
    let channel = epg.channels.get("c1").unwrap();
    for pair in channel.events.windows(2) {
        assert!(pair[0].start < pair[1].start);
        assert_eq!(pair[0].stop, pair[1].start);
    }
    assert_eq!(channel.last_event_start, Some(1546311600));

    // a document without anything new changes nothing
    let before = epg.clone_events("c1");
    read(&mut epg, first);
    assert_eq!(epg.clone_events("c1"), before);
    assert_eq!(epg.channels.get("c1").unwrap().last_event_start, Some(1546311600));
}

trait Events {
    fn clone_events(&self, id: &str) -> Vec<EpgEvent>;
}

impl Events for Epg {
    fn clone_events(&self, id: &str) -> Vec<EpgEvent> {
        self.channels.get(id).unwrap().events.clone()
    }
}
