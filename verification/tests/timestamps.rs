use oodles::{Message, ParseError, Timestamp};

#[test]
fn timestamp_accepts_real_dates_only() {
    assert!(Timestamp::new(2024, 2, 29, 0, 0, 0, 0, 0).is_some());
    assert!(Timestamp::new(2023, 2, 29, 0, 0, 0, 0, 0).is_none());
    assert!(Timestamp::new(2000, 2, 29, 0, 0, 0, 0, 0).is_some());
    assert!(Timestamp::new(1900, 2, 29, 0, 0, 0, 0, 0).is_none());
    assert!(Timestamp::new(2022, 4, 30, 0, 0, 0, 0, 0).is_some());
    assert!(Timestamp::new(2022, 4, 31, 0, 0, 0, 0, 0).is_none());
    assert!(Timestamp::new(2022, 12, 31, 23, 59, 59, 0, 0).is_some());
    assert!(Timestamp::new(2022, 13, 1, 0, 0, 0, 0, 0).is_none());
    assert!(Timestamp::new(2022, 0, 1, 0, 0, 0, 0, 0).is_none());
    assert!(Timestamp::new(2022, 1, 0, 0, 0, 0, 0, 0).is_none());
}

#[test]
fn timestamp_rejects_components_out_of_range() {
    assert!(Timestamp::new(10000, 1, 1, 0, 0, 0, 0, 0).is_none());
    assert!(Timestamp::new(-1, 1, 1, 0, 0, 0, 0, 0).is_none());
    assert!(Timestamp::new(0, 1, 1, 0, 0, 0, 0, 0).is_some());
    assert!(Timestamp::new(9999, 1, 1, 0, 0, 0, 0, 0).is_some());
    assert!(Timestamp::new(2022, 1, 1, 24, 0, 0, 0, 0).is_none());
    assert!(Timestamp::new(2022, 1, 1, 0, 60, 0, 0, 0).is_none());
    assert!(Timestamp::new(2022, 1, 1, 0, 0, 60, 0, 0).is_none());
    assert!(Timestamp::new(2022, 1, 1, 0, 0, 0, 26, 0).is_none());
    assert!(Timestamp::new(2022, 1, 1, 0, 0, 0, -26, 0).is_none());
    assert!(Timestamp::new(2022, 1, 1, 0, 0, 0, 0, 60).is_none());
    assert!(Timestamp::new(2022, 1, 1, 0, 0, 0, 5, -30).is_none());
    assert!(Timestamp::new(2022, 1, 1, 0, 0, 0, -5, 30).is_none());
    assert!(Timestamp::new(2022, 1, 1, 0, 0, 0, -5, -30).is_some());
}

#[test]
fn timestamp_keeps_its_components() {
    let t = Timestamp::new(2022, 6, 1, 13, 45, 7, -5, -30).unwrap();
    assert_eq!(t.year, 2022);
    assert_eq!(t.month, 6);
    assert_eq!(t.day, 1);
    assert_eq!(t.hour, 13);
    assert_eq!(t.minute, 45);
    assert_eq!(t.second, 7);
    assert_eq!(t.offset_hours, -5);
    assert_eq!(t.offset_minutes, -30);
}

#[test]
fn timestamp_is_written_zero_padded() {
    let t = Timestamp::new(7, 1, 2, 3, 4, 5, 5, 30).unwrap();
    assert_eq!(t.formatted(), "0007-01-02 03:04:05+0530");
    let t = Timestamp::new(2022, 6, 1, 13, 45, 0, -5, 0).unwrap();
    assert_eq!(t.formatted(), "2022-06-01 13:45:00-0500");
    let t = Timestamp::new(9999, 12, 31, 23, 59, 59, 0, -30).unwrap();
    assert_eq!(t.formatted(), "9999-12-31 23:59:59-0030");
    let t = Timestamp::new(1970, 1, 1, 0, 0, 0, 0, 0).unwrap();
    assert_eq!(t.formatted(), "1970-01-01 00:00:00+0000");
}

#[test]
fn timestamp_counts_seconds_since_the_epoch() {
    let t = Timestamp::new(1970, 1, 1, 0, 0, 0, 0, 0).unwrap();
    assert_eq!(t.unix_timestamp(), 0);
    let t = Timestamp::new(1970, 1, 1, 0, 0, 0, -1, 0).unwrap();
    assert_eq!(t.unix_timestamp(), 3600);
    let t = Timestamp::new(2022, 6, 1, 13, 45, 0, -5, 0).unwrap();
    assert_eq!(t.unix_timestamp(), 1654109100);
    let t = Timestamp::new(1999, 12, 31, 23, 59, 59, 5, 30).unwrap();
    assert_eq!(t.unix_timestamp(), 946664999);
}

#[test]
fn clock_gives_a_valid_timestamp_in_the_offset() {
    let t = Timestamp::now(-5, 0).unwrap();
    assert_eq!(t.offset_hours, -5);
    assert_eq!(t.offset_minutes, 0);
    assert!(t.year >= 2024);
    assert_eq!(
        Timestamp::new(
            t.year,
            t.month,
            t.day,
            t.hour,
            t.minute,
            t.second,
            t.offset_hours,
            t.offset_minutes
        ),
        Some(t)
    );
    let utc = Timestamp::now(0, 0).unwrap();
    let east = Timestamp::now(14, 0).unwrap();
    let gap = east.unix_timestamp() - utc.unix_timestamp();
    assert!((0..5).contains(&gap));
}

#[test]
fn clock_refuses_an_offset_that_is_none() {
    assert!(Timestamp::now(26, 0).is_none());
    assert!(Timestamp::now(1, -30).is_none());
}

#[test]
fn dateline_index_is_read() {
    let m = Message::from_str("2022-06-01 13:45:00-0500 (7)\nhi").unwrap();
    assert_eq!(m.id, 7);
    assert_eq!(m.content, "hi");
    assert_eq!(m.date, Timestamp::new(2022, 6, 1, 13, 45, 0, -5, 0).unwrap());
    let m = Message::from_str("2022-06-01 13:45:00-0500 (+12)\nhi").unwrap();
    assert_eq!(m.id, 12);
    let m = Message::from_str("2022-06-01 13:45:00-0500 (007)").unwrap();
    assert_eq!(m.id, 7);
    assert_eq!(m.content, "");
    let m = Message::from_str("2022-06-01 13:45:00+0000").unwrap();
    assert_eq!(m.id, 0);
    assert_eq!(m.date, Timestamp::new(2022, 6, 1, 13, 45, 0, 0, 0).unwrap());
    let m = Message::from_str("2022-06-01 13:45:00-0000").unwrap();
    assert_eq!(m.date, Timestamp::new(2022, 6, 1, 13, 45, 0, 0, 0).unwrap());
}

#[test]
fn malformed_datelines_are_reported() {
    let bad = [
        "2022-06-01 13:45:00-0500 (x)\nhi",
        "2022-06-01 13:45:00-0500 ()\nhi",
        "2022-06-01 13:45:00-0500 (-1)\nhi",
        "2022-06-01 13:45:00-0500 (+)\nhi",
        "2022-06-01 13:45:00-0500 7)\nhi",
        "2022-06-01 13:45:00-0500(7)\nhi",
        "2022-06-0113:45:00-0500(7)",
        "2022-06-01 13:45:00-0500  (7)\nhi",
        "2022-06-01 13:45:00-0500 (99999999999999999999999999999)\nhi",
        "2022-13-01 13:45:00-0500\nhi",
        "2022-02-30 13:45:00-0500\nhi",
        "2022-06-01 24:00:00-0500\nhi",
        "2022-06-01 13:45:00-2600\nhi",
        "2022-06-01 13:45:00 0500\nhi",
        "2022-06-01T13:45:00-0500\nhi",
        "2022-06-01 13:45:00-05:00\nhi",
        "22-06-01 13:45:00-0500\nhi",
        "2022-06-01 13:45:00-0500 \nhi",
        "+2022-06-01 13:45:00-0500\nhi",
        "hello",
        ")",
    ];
    for text in bad {
        assert_eq!(Message::from_str(text), Err(ParseError::MalformedDateline), "{}", text);
    }
}

#[test]
fn only_the_final_newline_of_a_body_goes() {
    let m = Message::from_str("2022-06-01 13:45:00-0500\n  hi \n\n").unwrap();
    assert_eq!(m.content, "  hi \n");
    let m = Message::from_str("2022-06-01 13:45:00-0500\n  hi ").unwrap();
    assert_eq!(m.content, "  hi ");
    let m = Message::from_str("2022-06-01 13:45:00-0500\n").unwrap();
    assert_eq!(m.content, "");
    let m = Message::from_str("2022-06-01 13:45:00-0500\n\n").unwrap();
    assert_eq!(m.content, "");
    let m = Message::from_str("2022-06-01 13:45:00-0500\n\n\n").unwrap();
    assert_eq!(m.content, "\n");
}

#[test]
fn dateline_may_end_in_a_carriage_return() {
    let m = Message::from_str("2022-06-01 13:45:00-0500\r\nhi\r\nthere").unwrap();
    assert_eq!(m.content, "hi\nthere");
}
