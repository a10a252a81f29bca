use epg::{Epg, LangTable};

const E1: &str = r#"<?xml version="1.0" encoding="UTF-8"?>
<tv>
  <channel id="id-1">
    <display-name lang="en">Test Channel</display-name>
  </channel>
  <programme start="20080715003000 -0600" stop="20080715003000 +0600" channel="id-1">
    <title lang="en">Title</title>
    <desc lang="en">Desc</desc>
  </programme>
</tv>
"#;

const E2: &str = r#"<?xml version="1.0" encoding="UTF-8"?>
<tv>
  <channel id="id-1">
    <display-name lang="en">Test Channel</display-name>
  </channel>
  <programme start="20080715003000 +0000" stop="20080715013000 +0000" channel="id-1">
    <title lang="en">Title #1</title>
    <sub-title lang="en">Short #1</sub-title>
    <desc lang="en">Desc #1</desc>
  </programme>
  <programme start="20080715013000 +0000" stop="20080715023000 +0000" channel="id-1">
    <title lang="en">Title #2</title>
    <desc lang="en">Desc #2</desc>
  </programme>
</tv>
"#;

fn languages() -> LangTable {
    let mut langs = LangTable::new();
    langs.insert("en", "eng");
    langs.insert("eng", "en");
    langs
}

#[test]
fn xmltv2epg_test_parse_programme() {
    let content: &[u8] = E1.as_bytes();

    // convert xmltv into epg
    let mut epg = Epg::default();
    epg.read(content, &languages()).unwrap();
    let p = epg.channels.get("id-1").unwrap().events.get(0).unwrap();

    // check event
    assert_eq!(p.start, 1216103400);
    assert_eq!(p.stop, 1216060200);
    assert_eq!(p.title.get("eng").unwrap(), "Title");
    assert_eq!(p.desc.get("eng").unwrap(), "Desc");
}

#[test]
fn xmltv2epg_test_parse_xmltv() {
    let content: &[u8] = E2.as_bytes();

    // convert xmltv into epg
    let mut epg = Epg::default();
    epg.read(content, &languages()).unwrap();

    // get channel events
    let mut events_iter = epg.channels.get("id-1").unwrap().events.iter();
    // check event
    let first = events_iter.next().unwrap();
    assert_eq!(first.title.get("eng").unwrap(), "Title #1");
    // check event
    let second = events_iter.next().unwrap();
    assert_eq!(second.title.get("eng").unwrap(), "Title #2");
}
