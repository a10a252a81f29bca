use epg::eit::{copy_bytes, split_text, EncodedTexts, MAX_FRAGMENT_SIZE, MAX_TEXT_SIZE};
use epg::{Descriptor, DvbText, EitItem, EpgEvent, TextMap};

fn text(data: &[u8]) -> DvbText {
    DvbText { codepage: 1, data: data.to_vec() }
}

fn ascii(item: &EitItem<DvbText>) -> EitItem<String> {
    let read = |t: &DvbText| String::from_utf8(t.data.clone()).unwrap();
    EitItem {
        event_id: item.event_id,
        start: item.start,
        duration: item.duration,
        status: item.status,
        descriptors: item
            .descriptors
            .iter()
            .map(|d| match d {
                Descriptor::ShortEvent { lang, name, text } => Descriptor::ShortEvent {
                    lang: lang.clone(),
                    name: read(name),
                    text: read(text),
                },
                Descriptor::ExtendedEvent { number, last_number, lang, text } => {
                    Descriptor::ExtendedEvent {
                        number: *number,
                        last_number: *last_number,
                        lang: lang.clone(),
                        text: read(text),
                    }
                }
                Descriptor::Raw { tag, data } => Descriptor::Raw { tag: *tag, data: data.clone() },
            })
            .collect(),
    }
}

fn encoded(event: &EpgEvent) -> EncodedTexts {
    let texts = event.row_texts();
    EncodedTexts {
        title: texts.title.iter().map(|s| s.as_bytes().to_vec()).collect(),
        subtitle: texts.subtitle.iter().map(|s| s.as_bytes().to_vec()).collect(),
        desc: texts.desc.iter().map(|s| s.as_bytes().to_vec()).collect(),
    }
}

fn event() -> EpgEvent {
    let mut event = EpgEvent::default();
    event.event_id = 7;
    event.start = 1000;
    event.stop = 4600;
    event.codepage = 1;
    event.title.insert("eng".to_string(), "News".to_string());
    event.title.insert("deu".to_string(), "Nachrichten".to_string());
    event.subtitle.insert("deu".to_string(), "Abend".to_string());
    event.desc.insert("eng".to_string(), "All of today".to_string());
    event
}

#[test]
fn bytes_are_copied() {
    assert_eq!(copy_bytes(b"abcdef", 1, 4), b"bcd");
    assert_eq!(copy_bytes(b"abcdef", 0, 6), b"abcdef");
    assert_eq!(copy_bytes(b"abcdef", 3, 3), b"");
}

#[test]
fn text_is_cut_into_fragments() {
    assert_eq!(MAX_TEXT_SIZE, 1000);
    assert_eq!(MAX_FRAGMENT_SIZE, 240);
    let sizes = |n: usize| -> Vec<usize> {
        split_text(&vec![b'x'; n]).iter().map(|f| f.len()).collect()
    };
    assert_eq!(sizes(0), Vec::<usize>::new());
    assert_eq!(sizes(1), vec![1]);
    assert_eq!(sizes(240), vec![240]);
    assert_eq!(sizes(241), vec![240, 1]);
    assert_eq!(sizes(480), vec![240, 240]);
    assert_eq!(sizes(999), vec![240, 240, 240, 240, 39]);
    assert_eq!(sizes(1000), vec![240, 240, 240, 240, 40]);
    assert_eq!(sizes(1001), vec![240, 240, 240, 240, 40]);
    assert_eq!(sizes(5000), vec![240, 240, 240, 240, 40]);
}

#[test]
fn fragments_make_up_the_text() {
    let data: Vec<u8> = (0..700u32).map(|i| (i % 251) as u8).collect();
    assert_eq!(split_text(&data).concat(), data);
    let long: Vec<u8> = (0..1500u32).map(|i| (i % 251) as u8).collect();
    assert_eq!(split_text(&long).concat(), &long[..1000]);
}

#[test]
fn row_takes_the_texts_in_order() {
    let event = event();
    let texts = event.row_texts();
    assert_eq!(texts.title, vec!["News", "Nachrichten"]);
    assert_eq!(texts.subtitle, vec!["", "Abend"]);
    assert_eq!(texts.desc, vec!["All of today"]);
}

#[test]
fn event_becomes_a_row() {
    let event = event();
    let item = EitItem::from_encoded(&event, 0, &encoded(&event));
    assert_eq!(item.event_id, 7);
    assert_eq!(item.start, 1000);
    assert_eq!(item.duration, 3600);
    assert_eq!(item.status, 1);
    assert_eq!(
        item.descriptors,
        vec![
            Descriptor::ShortEvent { lang: "eng".to_string(), name: text(b"News"), text: text(b"") },
            Descriptor::ShortEvent {
                lang: "deu".to_string(),
                name: text(b"Nachrichten"),
                text: text(b"Abend"),
            },
            Descriptor::ExtendedEvent {
                number: 0,
                last_number: 0,
                lang: "eng".to_string(),
                text: text(b"All of today"),
            },
        ]
    );
    assert_eq!(item.descriptors[0].tag(), 0x4D);
    assert_eq!(item.descriptors[2].tag(), 0x4E);
}

#[test]
fn status_follows_the_clock() {
    let event = event();
    let status = |now: u64| EitItem::from_encoded(&event, now, &encoded(&event)).status;
    assert_eq!(status(999), 1);
    assert_eq!(status(1000), 4);
    assert_eq!(status(4599), 4);
    assert_eq!(status(4600), 1);
    assert_eq!(status(u64::MAX), 1);
}

#[test]
fn long_description_is_numbered() {
    let mut event = EpgEvent::default();
    event.stop = 60;
    event.desc.insert("eng".to_string(), "a".repeat(500));
    event.desc.insert("pol".to_string(), String::new());
    event.desc.insert("deu".to_string(), "b".repeat(1200));
    let item = EitItem::from_encoded(&event, 0, &encoded(&event));
    let seen: Vec<(u8, u8, String, usize)> = item
        .descriptors
        .iter()
        .map(|d| match d {
            Descriptor::ExtendedEvent { number, last_number, lang, text } => {
                (*number, *last_number, lang.clone(), text.data.len())
            }
            _ => panic!("only descriptions were given"),
        })
        .collect();
    assert_eq!(
        seen,
        vec![
            (0, 2, "eng".to_string(), 240),
            (1, 2, "eng".to_string(), 240),
            (2, 2, "eng".to_string(), 20),
            (0, 4, "deu".to_string(), 240),
            (1, 4, "deu".to_string(), 240),
            (2, 4, "deu".to_string(), 240),
            (3, 4, "deu".to_string(), 240),
            (4, 4, "deu".to_string(), 40),
        ]
    );
}

#[test]
fn row_becomes_an_event() {
    let item = EitItem {
        event_id: 9,
        start: 100,
        duration: 50,
        status: 4,
        descriptors: vec![
            Descriptor::ShortEvent {
                lang: "eng".to_string(),
                name: "Old".to_string(),
                text: "one".to_string(),
            },
            Descriptor::Raw { tag: 0x55, data: vec![b'P', b'L', b' ', 9] },
            Descriptor::ExtendedEvent {
                number: 0,
                last_number: 1,
                lang: "eng".to_string(),
                text: "Long ".to_string(),
            },
            Descriptor::ShortEvent {
                lang: "eng".to_string(),
                name: "New".to_string(),
                text: " two".to_string(),
            },
            Descriptor::ShortEvent {
                lang: "pol".to_string(),
                name: "Nowy".to_string(),
                text: String::new(),
            },
            Descriptor::ExtendedEvent {
                number: 1,
                last_number: 1,
                lang: "eng".to_string(),
                text: "text".to_string(),
            },
            Descriptor::ExtendedEvent {
                number: 0,
                last_number: 0,
                lang: "pol".to_string(),
                text: String::new(),
            },
        ],
    };
    let event = EpgEvent::from_eit_item(&item);
    assert_eq!(event.event_id, 9);
    assert_eq!(event.start, 100);
    assert_eq!(event.stop, 150);
    assert_eq!(event.codepage, 0);
    assert_eq!(event.title.len(), 2);
    assert_eq!(event.title.get("eng").unwrap(), "New");
    assert_eq!(event.title.get("pol").unwrap(), "Nowy");
    assert_eq!(event.subtitle.len(), 1);
    assert_eq!(event.subtitle.get("eng").unwrap(), "one two");
    assert_eq!(event.desc.len(), 1);
    assert_eq!(event.desc.get("eng").unwrap(), "Long text");
}

#[test]
fn row_without_descriptors_gives_empty_maps() {
    let item: EitItem<String> =
        EitItem { event_id: 1, start: 5, duration: 0, status: 0, descriptors: Vec::new() };
    let event = EpgEvent::from_eit_item(&item);
    assert_eq!(event.title, TextMap::new());
    assert_eq!(event.subtitle, TextMap::new());
    assert_eq!(event.desc, TextMap::new());
    assert_eq!(event.stop, 5);
}

#[test]
fn event_comes_back_from_its_row() {
    let mut event = event();
    event.desc.insert("deu".to_string(), "x".repeat(700));
    let item = EitItem::from_encoded(&event, 2000, &encoded(&event));
    let back = EpgEvent::from_eit_item(&ascii(&item));
    assert_eq!(back.start, event.start);
    assert_eq!(back.stop, event.stop);
    assert_eq!(back.title, event.title);
    assert_eq!(back.subtitle, event.subtitle);
    assert_eq!(back.desc, event.desc);
}

#[test]
fn long_description_comes_back_truncated() {
    let mut event = EpgEvent::default();
    event.stop = 1;
    let long: String = (0..1300).map(|i| char::from(b'a' + (i % 26) as u8)).collect();
    event.desc.insert("eng".to_string(), long.clone());
    let item = EitItem::from_encoded(&event, 0, &encoded(&event));
    assert_eq!(item.descriptors.len(), 5);
    let back = EpgEvent::from_eit_item(&ascii(&item));
    assert_eq!(back.desc.get("eng").unwrap(), &long[..1000]);
}

#[test]
fn description_comes_back_beside_an_empty_one() {
    let mut event = EpgEvent::default();
    event.stop = 1;
    let long: String = (0..500).map(|i| char::from(b'a' + (i % 26) as u8)).collect();
    event.desc.insert("pol".to_string(), String::new());
    event.desc.insert("eng".to_string(), long.clone());
    event.desc.insert("deu".to_string(), String::new());
    let item = EitItem::from_encoded(&event, 0, &encoded(&event));
    assert_eq!(item.descriptors.len(), 3);
    let back = EpgEvent::from_eit_item(&ascii(&item));
    assert_eq!(back.desc.len(), 1);
    assert_eq!(back.desc.get("eng").unwrap(), &long);
    assert!(back.desc.get("pol").is_none());
}

#[test]
fn ratings_become_a_descriptor() {
    let mut event = event();
    event.parental_rating.insert(*b"POL", 12);
    event.parental_rating.insert(*b"DEU", 3);
    event.parental_rating.insert(*b"GBR", 18);
    event.parental_rating.insert(*b"USA", 19);
    event.parental_rating.insert(*b"FRA", 4);
    event.parental_rating.insert(*b"POL", 16);
    assert_eq!(event.parental_rating.len(), 5);
    assert_eq!(event.parental_rating.get(b"POL"), Some(16));
    assert_eq!(event.parental_rating.get(b"ITA"), None);
    let item = EitItem::from_encoded(&event, 0, &encoded(&event));
    assert_eq!(item.descriptors.len(), 4);
    assert_eq!(
        item.descriptors[3],
        Descriptor::Raw {
            tag: 0x55,
            data: vec![b'P', b'O', b'L', 13, b'G', b'B', b'R', 15, b'F', b'R', b'A', 1],
        }
    );
    // a row that is read gives no ratings
    let back = EpgEvent::from_eit_item(&ascii(&item));
    assert!(back.parental_rating.is_empty());
    assert_eq!(back.title, event.title);
}

#[test]
fn ratings_out_of_range_give_no_descriptor() {
    let mut event = event();
    let without = EitItem::from_encoded(&event, 0, &encoded(&event));
    event.parental_rating.insert(*b"POL", 0);
    event.parental_rating.insert(*b"DEU", 3);
    event.parental_rating.insert(*b"USA", 19);
    event.parental_rating.insert(*b"GBR", 255);
    let with = EitItem::from_encoded(&event, 0, &encoded(&event));
    assert_eq!(with.descriptors, without.descriptors);
    assert_eq!(with.descriptors.len(), 3);
}
