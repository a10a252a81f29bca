use epg::eit::{EitItem, EncodedTexts};
use epg::{Descriptor, DvbText, Eit, Epg, EpgChannel, LangTable};

use std::str;

const ISO8859_2: u8 = 2;

pub const EIT_50: &[u8] = &[
    0x47, 0x40, 0x12, 0x14, 0x00, 0x50, 0xf2, 0x21, 0x1c, 0xcf, 0xeb, 0x00, 0x00, 0x1c, 0xe8, 0x00,
    0x01, 0x00, 0x50, 0x7c, 0xcc, 0xe3, 0xe7, 0x18, 0x10, 0x00, 0x00, 0x30, 0x00, 0x12, 0x06, 0x4d,
    0x2c, 0x70, 0x6f, 0x6c, 0x27, 0x10, 0x00, 0x02, 0x4f, 0x73, 0x74, 0x61, 0x74, 0x6e, 0x69, 0x20,
    0x70, 0x72, 0x61, 0x77, 0x64, 0x7a, 0x69, 0x77, 0x79, 0x20, 0x6d, 0xea, 0xbf, 0x63, 0x7a, 0x79,
    0x7a, 0x6e, 0x61, 0x20, 0x34, 0x3a, 0x20, 0x6f, 0x64, 0x63, 0x2e, 0x35, 0x00, 0x4e, 0xfe, 0x01,
    0x70, 0x6f, 0x6c, 0x00, 0xf8, 0x10, 0x00, 0x02, 0x73, 0x65, 0x72, 0x69, 0x61, 0x6c, 0x20, 0x6b,
    0x6f, 0x6d, 0x65, 0x64, 0x69, 0x6f, 0x77, 0x79, 0x20, 0x28, 0x55, 0x53, 0x41, 0x2c, 0x20, 0x32,
    0x30, 0x31, 0x34, 0x29, 0x20, 0x6f, 0x64, 0x63, 0x2e, 0x35, 0x2c, 0x20, 0x53, 0x7a, 0x6b, 0x6f,
    0x6c, 0x6e, 0x61, 0x20, 0x66, 0x75, 0x7a, 0x6a, 0x61, 0x3f, 0x57, 0x79, 0x73, 0x74, 0xea, 0x70,
    0x75, 0x6a, 0xb1, 0x3a, 0x20, 0x54, 0x69, 0x6d, 0x20, 0x41, 0x6c, 0x6c, 0x65, 0x6e, 0x2c, 0x20,
    0x4e, 0x61, 0x6e, 0x63, 0x79, 0x20, 0x54, 0x72, 0x61, 0x76, 0x69, 0x73, 0x2c, 0x20, 0x4d, 0x6f,
    0x6c, 0x6c, 0x79, 0x20, 0x45, 0x70, 0x68, 0x72, 0x61, 0x69, 0x6d, 0x3f,
    0x47, 0x00, 0x12, 0x15, 0x4d, 0x69, 0x6b, 0x65, 0x20, 0x69, 0x20, 0x43, 0x68, 0x75, 0x63, 0x6b,
    0x20, 0x64, 0x65, 0x62, 0x61, 0x74, 0x75, 0x6a, 0xb1, 0x20, 0x6e, 0x61, 0x20, 0x74, 0x65, 0x6d,
    0x61, 0x74, 0x20, 0x7a, 0x61, 0x6c, 0x65, 0x74, 0x20, 0x6c, 0x6f, 0x6b, 0x61, 0x6c, 0x6e, 0x65,
    0x67, 0x6f, 0x20, 0x72, 0x65, 0x66, 0x65, 0x72, 0x65, 0x6e, 0x64, 0x75, 0x6d, 0x20, 0x6f, 0x20,
    0x70, 0x6f, 0xb3, 0xb1, 0x63, 0x7a, 0x65, 0x6e, 0x69, 0x75, 0x20, 0x69, 0x63, 0x68, 0x20, 0x65,
    0x6b, 0x73, 0x6b, 0x6c, 0x75, 0x7a, 0x79, 0x77, 0x6e, 0x65, 0x6a, 0x20, 0x73, 0x7a, 0x6b, 0x6f,
    0xb3, 0x79, 0x20, 0xb6, 0x72, 0x65, 0x64, 0x6e, 0x69, 0x65, 0x6a, 0x20, 0x7a, 0x20, 0x73, 0xb1,
    0x73, 0x69, 0x65, 0x64, 0x7a, 0x74, 0x77, 0x61, 0x20, 0x7a, 0x20, 0x70, 0x6c, 0x61, 0x63, 0xf3,
    0x77, 0x6b, 0xb1, 0x20, 0x7a, 0x65, 0x20, 0xb6, 0x72, 0xf3, 0x64, 0x6d, 0x69, 0x65, 0xb6, 0x63,
    0x69, 0x61, 0x2e, 0x20, 0x5a, 0x4e, 0xd0, 0x11, 0x70, 0x6f, 0x6c, 0x00, 0xca, 0x10, 0x00, 0x02,
    0x20, 0x6f, 0x6b, 0x61, 0x7a, 0x6a, 0x69, 0x20, 0x48, 0x61, 0x6c, 0x6c, 0x6f, 0x77, 0x65, 0x65,
    0x6e, 0x2c, 0x20, 0x52, 0x79, 0x61, 0x6e, 0x20, 0x70, 0x72, 0x7a, 0x65,
    0x47, 0x00, 0x12, 0x16, 0x62, 0x69, 0x65, 0x72, 0x61, 0x20, 0x42, 0x6f, 0x79, 0x64, 0x61, 0x20,
    0x7a, 0x61, 0x20, 0x62, 0x72, 0x79, 0xb3, 0xea, 0x20, 0x77, 0xea, 0x67, 0x6c, 0x61, 0x2e, 0x20,
    0x4d, 0x61, 0x20, 0x74, 0x6f, 0x20, 0x62, 0x79, 0xe6, 0x20, 0x6b, 0x6f, 0x6c, 0x65, 0x6a, 0x6e,
    0x79, 0x6d, 0x20, 0x70, 0x72, 0x7a, 0x79, 0x70, 0x6f, 0x6d, 0x6e, 0x69, 0x65, 0x6e, 0x69, 0x65,
    0x6d, 0x20, 0x64, 0x6c, 0x61, 0x20, 0x56, 0x61, 0x6e, 0x65, 0x73, 0x73, 0x79, 0x2c, 0x20, 0xbf,
    0x65, 0x20, 0x6a, 0x65, 0x6a, 0x20, 0x70, 0x72, 0x61, 0x63, 0x61, 0x20, 0x6a, 0x61, 0x6b, 0x6f,
    0x20, 0x67, 0x65, 0x6f, 0x6c, 0x6f, 0x67, 0x61, 0x20, 0x6d, 0x6f, 0xbf, 0x65, 0x20, 0x73, 0x7a,
    0x6b, 0x6f, 0x64, 0x7a, 0x69, 0xe6, 0x20, 0xb6, 0x72, 0x6f, 0x64, 0x6f, 0x77, 0x69, 0x73, 0x6b,
    0x75, 0x20, 0x6e, 0x61, 0x74, 0x75, 0x72, 0x61, 0x6c, 0x6e, 0x65, 0x6d, 0x75, 0x2e, 0x3f, 0x52,
    0x65, 0xbf, 0x79, 0x73, 0x65, 0x72, 0x3a, 0x20, 0x4a, 0x6f, 0x68, 0x6e, 0x20, 0x50, 0x61, 0x73,
    0x71, 0x75, 0x69, 0x6e, 0x3f, 0x4f, 0x64, 0x20, 0x6c, 0x61, 0x74, 0x3a, 0x20, 0x31, 0x32, 0x55,
    0x04, 0x50, 0x4c, 0x20, 0x09, 0xff, 0xc2, 0xe2, 0x2a, 0xff, 0xff, 0xff,
];
pub const EIT_50_EVENT_TITLE: &str = "Ostatni prawdziwy mężczyzna 4: odc.5";
pub const EIT_50_EVENT_DESC: &str = "serial komediowy (USA, 2014) odc.5, Szkolna fuzja?Występują: Tim Allen, Nancy Travis, Molly Ephraim?Mike i Chuck debatują na temat zalet lokalnego referendum o połączeniu ich ekskluzywnej szkoły średniej z sąsiedztwa z placówką ze śródmieścia. Z okazji Halloween, Ryan przebiera Boyda za bryłę węgla. Ma to być kolejnym przypomnieniem dla Vanessy, że jej praca jako geologa może szkodzić środowisku naturalnemu.?Reżyser: John Pasquin?Od lat: 12";


/// The letters of ISO 8859-2 that the sample uses, with their bytes.
const LETTERS: [(char, u8); 7] = [
    ('ą', 0xB1),
    ('ł', 0xB3),
    ('ś', 0xB6),
    ('ż', 0xBF),
    ('ć', 0xE6),
    ('ę', 0xEA),
    ('ó', 0xF3),
];

fn decode_iso8859_2(data: &[u8]) -> String {
    data.iter()
        .map(|b| match LETTERS.iter().find(|(_, code)| code == b) {
            Some((c, _)) => *c,
            None => *b as char,
        })
        .collect()
}

fn encode_iso8859_2(text: &str) -> Vec<u8> {
    text.chars()
        .map(|c| match LETTERS.iter().find(|(letter, _)| *letter == c) {
            Some((_, code)) => *code,
            None => c as u8,
        })
        .collect()
}

/// A text of a descriptor without the bytes that name its codepage.
fn dvb_text(data: &[u8]) -> String {
    if data.len() >= 3 && data[0] == 0x10 {
        decode_iso8859_2(&data[3..])
    } else {
        decode_iso8859_2(data)
    }
}

/// The section that the packets carry: each packet without its header of
/// four bytes, the first also without the pointer byte.
fn section(packets: &[u8]) -> Vec<u8> {
    let mut bytes = Vec::new();
    let mut skip = 0;
    while skip < packets.len() {
        let from = if skip == 0 { 5 } else { 4 };
        bytes.extend_from_slice(&packets[skip + from..skip + 188]);
        skip += 188;
    }
    bytes
}

/// The table in the sample: one row, with its descriptors read tag by tag.
fn sample_eit() -> Eit<String> {
    let section = section(EIT_50);
    assert_eq!(section[0], 0x50);
    let row = 14;
    let event_id = u16::from(section[row]) << 8 | u16::from(section[row + 1]);
    let size = (usize::from(section[row + 10]) & 0x0F) << 8 | usize::from(section[row + 11]);
    let mut descriptors = Vec::new();
    let mut at = row + 12;
    let end = at + size;
    while at < end {
        let tag = section[at];
        let body = &section[at + 2..at + 2 + usize::from(section[at + 1])];
        match tag {
            0x4D => {
                let name_end = 4 + usize::from(body[3]);
                let text_end = name_end + 1 + usize::from(body[name_end]);
                descriptors.push(Descriptor::ShortEvent {
                    lang: str::from_utf8(&body[0..3]).unwrap().to_string(),
                    name: dvb_text(&body[4..name_end]),
                    text: dvb_text(&body[name_end + 1..text_end]),
                });
            }
            0x4E => {
                let items_end = 5 + usize::from(body[4]);
                let text_end = items_end + 1 + usize::from(body[items_end]);
                descriptors.push(Descriptor::ExtendedEvent {
                    number: body[0] >> 4,
                    last_number: body[0] & 0x0F,
                    lang: str::from_utf8(&body[1..4]).unwrap().to_string(),
                    text: dvb_text(&body[items_end + 1..text_end]),
                });
            }
            _ => descriptors.push(Descriptor::Raw { tag, data: body.to_vec() }),
        }
        at += 2 + body.len();
    }
    Eit {
        table_id: section[0],
        version: 21,
        pnr: 7375,
        tsid: 7400,
        onid: 1,
        items: vec![EitItem {
            event_id,
            // 2018-08-13 18:10:00, for half an hour
            start: 1534183800,
            duration: 1800,
            status: 0,
            descriptors,
        }],
    }
}

#[test]
fn test_parse_eit() {
    let eit = sample_eit();

    let mut channel = EpgChannel::default();
    channel.parse(&eit);

    assert_eq!(channel.name.len(), 0);

    assert_eq!(channel.events.len(), 1);
    let event = channel.events.iter().next().unwrap();
    assert_eq!(event.start, 1534183800);
    assert_eq!(event.stop, 1534183800 + 1800);
    assert_eq!(event.title.len(), 1);
    assert_eq!(event.title.get("pol").unwrap(), EIT_50_EVENT_TITLE);
    assert_eq!(event.subtitle.len(), 0);
    assert_eq!(event.desc.len(), 1);
    assert_eq!(event.desc.get("pol").unwrap(), EIT_50_EVENT_DESC);

    assert_eq!(channel.last_event_start, Some(event.start));
}

#[test]
fn test_ts_to_xmltv() {
    let eit = sample_eit();

    let mut channel = EpgChannel::default();
    channel.parse(&eit);
    channel.name.insert("pl".to_string(), "Test".to_string());

    let mut epg = Epg::default();
    epg.channels.insert("id-1".to_string(), channel);

    let mut langs = LangTable::new();
    langs.insert("pol", "pl");
    langs.insert("pl", "pol");
    let dst: Vec<u8> = epg.write(&langs).unwrap();

    let xml = str::from_utf8(&dst).unwrap();
    println!("{}", xml);

    assert!(xml.contains("<channel id=\"id-1\"><display-name lang=\"pol\">Test</display-name></channel>"));
    assert!(xml.contains("<programme event_id=\"31948\" channel=\"id-1\" start=\"20180813181000 +0000\" stop=\"20180813184000 +0000\">"));
    assert!(xml.contains(&format!("<title lang=\"pl\">{}</title>", EIT_50_EVENT_TITLE)));
}

#[test]
fn test_assemble_eit() {
    let eit = sample_eit();

    let mut channel = EpgChannel::default();
    channel.parse(&eit);

    let mut items = Vec::new();
    for event in channel.events.iter() {
        let mut event = event.clone();
        event.codepage = ISO8859_2;
        let encoded = EncodedTexts {
            title: vec![encode_iso8859_2(event.title.get("pol").unwrap())],
            subtitle: vec![Vec::new()],
            desc: vec![encode_iso8859_2(event.desc.get("pol").unwrap())],
        };
        items.push(EitItem::from_encoded(&event, 0, &encoded));
    }
    assert_eq!(items[0].descriptors.len(), 3);

    let decoded = |text: &DvbText| decode_iso8859_2(&text.data);
    let new_eit = Eit {
        table_id: 0x50,
        version: 1,
        pnr: 6,
        tsid: 1,
        onid: 1,
        items: items
            .iter()
            .map(|item| EitItem {
                event_id: item.event_id,
                start: item.start,
                duration: item.duration,
                status: item.status,
                descriptors: item
                    .descriptors
                    .iter()
                    .map(|d| match d {
                        Descriptor::ShortEvent { lang, name, text } => Descriptor::ShortEvent {
                            lang: lang.clone(),
                            name: decoded(name),
                            text: decoded(text),
                        },
                        Descriptor::ExtendedEvent { number, last_number, lang, text } => {
                            Descriptor::ExtendedEvent {
                                number: *number,
                                last_number: *last_number,
                                lang: lang.clone(),
                                text: decoded(text),
                            }
                        }
                        Descriptor::Raw { tag, data } => {
                            Descriptor::Raw { tag: *tag, data: data.clone() }
                        }
                    })
                    .collect(),
            })
            .collect(),
    };

    let mut new_channel = EpgChannel::default();
    new_channel.parse(&new_eit);

    let event = channel.events.iter().next().unwrap();
    let new_event = new_channel.events.iter().next().unwrap();

    assert_eq!(event, new_event);
}
