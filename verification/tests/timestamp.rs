use vtt::VttTimestamp;

fn ts(hours: u8, minutes: u8, seconds: u8, milliseconds: u16) -> VttTimestamp {
    VttTimestamp { hours, minutes, seconds, milliseconds }
}

#[test]
fn parse_valid() {
    assert_eq!(VttTimestamp::parse("00:00:00.199"), Some(ts(0, 0, 0, 199)));
    assert_eq!(VttTimestamp::parse("12:34:56.789"), Some(ts(12, 34, 56, 789)));
    assert_eq!(VttTimestamp::parse("99:59:59.999"), Some(ts(99, 59, 59, 999)));
}

#[test]
fn parse_rejects_wrong_length() {
    assert_eq!(VttTimestamp::parse(""), None);
    assert_eq!(VttTimestamp::parse("0:00:00.000"), None);
    assert_eq!(VttTimestamp::parse("00:00:00.0000"), None);
    assert_eq!(VttTimestamp::parse("c"), None);
    assert_eq!(VttTimestamp::parse("b"), None);
}

#[test]
fn parse_rejects_wrong_separators() {
    assert_eq!(VttTimestamp::parse("00-00:00.000"), None);
    assert_eq!(VttTimestamp::parse("00:00-00.000"), None);
    assert_eq!(VttTimestamp::parse("00:00:00,000"), None);
}

#[test]
fn parse_rejects_out_of_range_fields() {
    assert_eq!(VttTimestamp::parse("00:60:00.000"), None);
    assert_eq!(VttTimestamp::parse("00:00:60.000"), None);
    assert_eq!(VttTimestamp::parse("00:99:00.000"), None);
}

#[test]
fn parse_rejects_non_digits() {
    assert_eq!(VttTimestamp::parse("ab:cd:ef.ghi"), None);
    assert_eq!(VttTimestamp::parse("00:00:0a.000"), None);
    assert_eq!(VttTimestamp::parse("  :  :  .   "), None);
}

#[test]
fn render_exact() {
    assert_eq!(ts(1, 2, 3, 456).render(), "01:02:03.456");
    assert_eq!(ts(0, 0, 0, 0).render(), "00:00:00.000");
    assert_eq!(ts(99, 59, 59, 999).render(), "99:59:59.999");
}

#[test]
fn render_then_parse_round_trip() {
    for &t in &[ts(0, 0, 0, 199), ts(1, 2, 3, 4), ts(99, 59, 59, 999), ts(10, 20, 30, 400)] {
        assert_eq!(VttTimestamp::parse(&t.render()), Some(t));
    }
}

#[test]
fn well_formedness() {
    assert!(ts(99, 59, 59, 999).is_wf());
    assert!(!ts(100, 0, 0, 0).is_wf());
    assert!(!ts(0, 60, 0, 0).is_wf());
    assert!(!ts(0, 0, 60, 0).is_wf());
    assert!(!ts(0, 0, 0, 1000).is_wf());
}
