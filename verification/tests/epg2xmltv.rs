use epg::{Epg, LangTable};

use std::str;

const E2: &str = r#"<?xml version="1.0" encoding="UTF-8"?>
<tv>
  <channel id="id-1">
    <display-name lang="en">Test Channel</display-name>
  </channel>
  <programme start="20080715003000 +0000" stop="20080715013000 +0000" channel="id-1">
    <title lang="en">Title #1</title>
    <sub-title lang="en">Short #1</sub-title>
    <desc lang="en">Desc #1</desc>
  </programme>
  <programme start="20080715013000 +0000" stop="20080715023000 +0000" channel="id-1">
    <title lang="en">Title #2</title>
    <desc lang="en">Desc #2</desc>
  </programme>
</tv>
"#;

fn languages() -> LangTable {
    let mut langs = LangTable::new();
    langs.insert("en", "eng");
    langs.insert("eng", "en");
    langs
}

#[test]
fn epg2xmltv_test_assemble_xmltv() {
    let content: &[u8] = E2.as_bytes();
    let langs = languages();

    // convert xmltv into epg
    let mut epg = Epg::default();
    epg.read(content, &langs).unwrap();

    // convert epg into xmltv
    let target: Vec<u8> = epg.write(&langs).unwrap();

    let xml = str::from_utf8(&target).unwrap();
    println!("{}", xml);

    assert_eq!(
        xml,
        concat_lines(&[
            "",
            "<tv generator-info-name=\"Cesbo Astra\" generator-info-url=\"https://cesbo.com\">",
            "<channel id=\"id-1\"><display-name lang=\"en\">Test Channel</display-name></channel>",
            "<programme event_id=\"0\" channel=\"id-1\" start=\"20080715003000 +0000\" stop=\"20080715013000 +0000\"><title lang=\"en\">Title #1</title><sub-title lang=\"en\">Short #1</sub-title><desc lang=\"en\">Desc #1</desc></programme>",
            "<programme event_id=\"0\" channel=\"id-1\" start=\"20080715013000 +0000\" stop=\"20080715023000 +0000\"><title lang=\"en\">Title #2</title><desc lang=\"en\">Desc #2</desc></programme>",
            "</tv>",
        ])
    );
}

fn concat_lines(lines: &[&str]) -> String {
    lines.join("\n")
}
