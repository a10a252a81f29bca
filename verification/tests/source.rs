use epg::epg::GZIP_MAGIC;
use epg::{is_gzip, parse_source, Compressed, Epg, EpgError, LangTable, Source};

use std::io::Write;

const DOCUMENT: &str = r#"<tv><channel id="c1"><display-name lang="en">One</display-name></channel></tv>"#;

fn languages() -> LangTable {
    let mut langs = LangTable::new();
    langs.insert("en", "eng");
    langs
}

fn gzip(data: &[u8]) -> Vec<u8> {
    let mut encoder = libflate::gzip::Encoder::new(Vec::new()).unwrap();
    encoder.write_all(data).unwrap();
    encoder.finish().into_result().unwrap()
}

#[test]
fn source_is_a_file_by_default() {
    assert_eq!(parse_source("tests/docs/e1.xml").unwrap(), Source::File("tests/docs/e1.xml".into()));
    assert_eq!(parse_source("").unwrap(), Source::File(String::new()));
    assert_eq!(parse_source(":/").unwrap(), Source::File(":/".into()));
    assert_eq!(parse_source("a:b//c").unwrap(), Source::File("a:b//c".into()));
}

#[test]
fn source_with_a_scheme() {
    assert_eq!(parse_source("file://tests/e1.xml").unwrap(), Source::File("tests/e1.xml".into()));
    assert_eq!(parse_source("file:///tmp/ż.xml").unwrap(), Source::File("/tmp/ż.xml".into()));
    assert_eq!(parse_source("file://").unwrap(), Source::File(String::new()));
    assert_eq!(parse_source("file://a://b").unwrap(), Source::File("a://b".into()));
    assert_eq!(
        parse_source("http://example.com/epg.xml").unwrap(),
        Source::Http("http://example.com/epg.xml".into())
    );
    assert_eq!(
        parse_source("https://pastebin.com/raw/dTk32xRZ").unwrap(),
        Source::Http("https://pastebin.com/raw/dTk32xRZ".into())
    );
}

#[test]
fn source_of_an_unknown_kind() {
    for src in ["ftp://example.com/epg.xml", "://x", "File://x", "httpx://x", " file://x"] {
        assert!(matches!(parse_source(src), Err(EpgError::UnknownSourceType)), "{}", src);
    }
}

#[test]
fn gzip_is_told_by_its_first_bytes() {
    assert_eq!(GZIP_MAGIC, [0x1f, 0x8b]);
    assert!(is_gzip(&[0x1f, 0x8b]));
    assert!(is_gzip(&[0x1f, 0x8b, 0x08, 0x00]));
    assert!(!is_gzip(&[]));
    assert!(!is_gzip(&[0x1f]));
    assert!(!is_gzip(&[0x8b, 0x1f]));
    assert!(!is_gzip(DOCUMENT.as_bytes()));
    assert!(is_gzip(&gzip(DOCUMENT.as_bytes())));
}

#[test]
fn bytes_tell_whether_they_are_packed() {
    let mut packed = gzip(DOCUMENT.as_bytes());
    let before = packed.clone();
    assert!(packed.is_gzipped().unwrap());
    assert_eq!(packed, before);
    let mut plain = DOCUMENT.as_bytes().to_vec();
    assert!(!plain.is_gzipped().unwrap());
    let mut short = vec![0x1f];
    assert!(!short.is_gzipped().unwrap());
}

#[test]
fn packed_document_is_read() {
    let mut epg = Epg::default();
    epg.read(&gzip(DOCUMENT.as_bytes()), &languages()).unwrap();
    assert_eq!(epg.channels.get("c1").unwrap().name.get("eng").unwrap(), "One");

    let mut plain = Epg::default();
    plain.read(DOCUMENT.as_bytes(), &languages()).unwrap();
    assert_eq!(plain, epg);
}

#[test]
fn broken_packing_is_an_error() {
    let mut epg = Epg::default();
    epg.read(DOCUMENT.as_bytes(), &languages()).unwrap();
    let mut packed = gzip(r#"<tv><channel id="c2"/></tv>"#.as_bytes());
    packed.truncate(packed.len() - 12);
    let r = epg.read(&packed, &languages());
    assert!(matches!(r, Err(EpgError::Io(_))));
    assert_eq!(epg.channels.len(), 1);
    let r = epg.read(&[0x1f, 0x8b, 0xff], &languages());
    assert!(matches!(r, Err(EpgError::Io(_))));
}
