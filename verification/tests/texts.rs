use epg::number::{format_u16, parse_u16};
use epg::{LangTable, TextMap};

#[test]
fn text_map_keeps_one_text_per_language() {
    let mut map = TextMap::new();
    assert!(map.is_empty());
    map.insert("eng".to_string(), "First".to_string());
    map.insert("deu".to_string(), "Erste".to_string());
    map.insert("eng".to_string(), "Second".to_string());
    assert_eq!(map.len(), 2);
    assert_eq!(map.get("eng").unwrap(), "Second");
    assert_eq!(map.get("deu").unwrap(), "Erste");
    assert!(map.get("fra").is_none());
    assert!(map.contains_key("deu"));
    assert!(!map.contains_key("de"));
    // the language that came first stays first
    assert_eq!(map.lang_at(0), "eng");
    assert_eq!(map.text_at(0), "Second");
    assert_eq!(map.lang_at(1), "deu");
}

#[test]
fn text_map_adds_text_behind_text() {
    let mut map = TextMap::new();
    map.push_text("eng".to_string(), "");
    assert_eq!(map.get("eng").unwrap(), "");
    map.push_text("eng".to_string(), "one");
    map.push_text("pol".to_string(), "raz");
    map.push_text("eng".to_string(), " two");
    assert_eq!(map.len(), 2);
    assert_eq!(map.get("eng").unwrap(), "one two");
    assert_eq!(map.get("pol").unwrap(), "raz");
}

#[test]
fn text_map_clone_is_equal() {
    let mut map = TextMap::new();
    map.insert("eng".to_string(), "Text".to_string());
    let copy = map.clone();
    assert_eq!(copy, map);
    assert_eq!(TextMap::default(), TextMap::new());
}

#[test]
fn lang_table_converts_both_ways() {
    let mut langs = LangTable::new();
    langs.insert("en", "eng");
    langs.insert("eng", "en");
    assert_eq!(langs.convert("en").unwrap(), "eng");
    assert_eq!(langs.convert("eng").unwrap(), "en");
    assert!(langs.convert("xx").is_none());
    assert!(langs.convert("").is_none());
    langs.insert("en", "ang");
    assert_eq!(langs.convert("en").unwrap(), "ang");
}

#[test]
fn numbers_are_read_from_digits() {
    assert_eq!(parse_u16("0"), 0);
    assert_eq!(parse_u16("42"), 42);
    assert_eq!(parse_u16("+42"), 42);
    assert_eq!(parse_u16("00042"), 42);
    assert_eq!(parse_u16("65535"), 65535);
    assert_eq!(parse_u16("65536"), 0);
    assert_eq!(parse_u16("99999999999999999999"), 0);
    assert_eq!(parse_u16(""), 0);
    assert_eq!(parse_u16("+"), 0);
    assert_eq!(parse_u16("-1"), 0);
    assert_eq!(parse_u16("12a"), 0);
    assert_eq!(parse_u16(" 12"), 0);
    assert_eq!(parse_u16("１２"), 0);
}

#[test]
fn numbers_agree_with_std() {
    for text in ["7", "+7", "007", "65535", "65536", "x", "", "+", "1 ", "-0"] {
        assert_eq!(parse_u16(text), text.parse::<u16>().unwrap_or(0), "{:?}", text);
    }
}

#[test]
fn numbers_are_written_in_digits() {
    assert_eq!(format_u16(0), "0");
    assert_eq!(format_u16(7), "7");
    assert_eq!(format_u16(10), "10");
    assert_eq!(format_u16(31948), "31948");
    assert_eq!(format_u16(65535), "65535");
    for n in [0u16, 9, 10, 99, 100, 1000, 10000, 54321] {
        assert_eq!(format_u16(n), n.to_string());
    }
}
