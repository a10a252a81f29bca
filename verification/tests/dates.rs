use epg::date::{format_date, parse_date};

#[test]
fn date_with_offset() {
    assert_eq!(parse_date("20080715003000 -0600"), 1216103400);
    assert_eq!(parse_date("20080715003000 +0600"), 1216060200);
    assert_eq!(parse_date("20080715003000 +0000"), 1216081800);
    assert_eq!(parse_date("19700101000000 +0000"), 0);
    assert_eq!(parse_date("19700101000001 +0000"), 1);
}

#[test]
fn date_without_offset_is_utc() {
    assert_eq!(parse_date("20080715003000"), 1216081800);
    assert_eq!(parse_date("20180813181000"), 1534183800);
}

#[test]
fn date_without_seconds() {
    assert_eq!(parse_date("200807150030"), 1216081800);
}

#[test]
fn date_that_cannot_be_read_is_zero() {
    assert_eq!(parse_date(""), 0);
    assert_eq!(parse_date("2008"), 0);
    assert_eq!(parse_date("2008071500300"), 0);
    assert_eq!(parse_date("abcdefghijkl"), 0);
    assert_eq!(parse_date("abcdefghijklmn"), 0);
    assert_eq!(parse_date("20081315003000"), 0);
    assert_eq!(parse_date("20080715003000 xxxx"), 0);
    assert_eq!(parse_date("20080715003000 "), 0);
    assert_eq!(parse_date("2008-07-15 00:30:00 +0000"), 0);
}

#[test]
fn date_before_the_epoch_keeps_its_bits() {
    assert_eq!(parse_date("19691231235959 +0000"), u64::MAX);
    assert_eq!(format_date(u64::MAX).unwrap(), "19691231235959 +0000");
}

#[test]
fn date_is_written_in_utc() {
    assert_eq!(format_date(0).unwrap(), "19700101000000 +0000");
    assert_eq!(format_date(1216103400).unwrap(), "20080715063000 +0000");
    assert_eq!(format_date(1534183800).unwrap(), "20180813181000 +0000");
}

#[test]
fn date_out_of_the_calendar_is_not_written() {
    assert!(format_date(i64::MAX as u64).is_none());
    assert!(format_date(i64::MIN as u64).is_none());
}

#[test]
fn date_comes_back() {
    for seconds in [0u64, 1, 86399, 1216103400, 1534183800, 4102444800] {
        assert_eq!(parse_date(&format_date(seconds).unwrap()), seconds);
    }
}
