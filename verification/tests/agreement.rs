use oodles::{Message, Timestamp};
use time::{Date, Month, OffsetDateTime, Time, UtcOffset};

const DESCRIPTION: &str = "[year padding:zero repr:full base:calendar sign:automatic]-[month padding:zero repr:numerical]-[day padding:zero] [hour padding:zero repr:24]:[minute padding:zero]:[second padding:zero][offset_hour padding:zero sign:mandatory][offset_minute padding:zero]";

fn outside(t: &Timestamp) -> OffsetDateTime {
    let date =
        Date::from_calendar_date(t.year, Month::try_from(t.month).unwrap(), t.day).unwrap();
    let time = Time::from_hms(t.hour, t.minute, t.second).unwrap();
    let offset = UtcOffset::from_hms(t.offset_hours, t.offset_minutes, 0).unwrap();
    OffsetDateTime::new_in_offset(date, time, offset)
}

fn samples() -> Vec<Timestamp> {
    let mut all = Vec::new();
    let offsets = [(0, 0), (5, 30), (-5, 0), (0, -30), (-12, -45), (14, 0), (23, 59), (-23, -59)];
    let clocks = [(0, 0, 0), (13, 45, 0), (23, 59, 59), (9, 5, 7)];
    let mut k = 0;
    for year in [0, 1, 99, 400, 999, 1900, 1970, 2000, 2022, 2024, 2100, 9999] {
        for month in 1..=12u8 {
            for day in [1u8, 9, 10, 28, 29, 30, 31] {
                let (hour, minute, second) = clocks[k % clocks.len()];
                let (oh, om) = offsets[k % offsets.len()];
                k += 1;
                if let Some(t) = Timestamp::new(year, month, day, hour, minute, second, oh, om) {
                    all.push(t);
                }
            }
        }
    }
    all
}

#[test]
fn valid_dates_are_those_of_the_time_crate() {
    for year in [0, 1, 4, 100, 400, 1900, 2000, 2023, 2024, 9999] {
        for month in 1..=12u8 {
            for day in 0..=32u8 {
                let ours = Timestamp::new(year, month, day, 0, 0, 0, 0, 0).is_some();
                let theirs =
                    Date::from_calendar_date(year, Month::try_from(month).unwrap(), day).is_ok();
                assert_eq!(ours, theirs, "{}-{}-{}", year, month, day);
            }
        }
    }
}

#[test]
fn datelines_are_written_as_the_time_crate_writes_them() {
    let description = time::format_description::parse(DESCRIPTION).unwrap();
    let all = samples();
    assert!(all.len() > 900);
    for t in all {
        assert_eq!(t.formatted(), outside(&t).format(&description[..]).unwrap());
    }
}

#[test]
fn datelines_are_read_as_the_time_crate_reads_them() {
    let description = time::format_description::parse(DESCRIPTION).unwrap();
    for t in samples() {
        let text = t.formatted();
        let theirs = OffsetDateTime::parse(text.as_str(), &description[..]).unwrap();
        assert_eq!(theirs, outside(&t));
        assert_eq!(theirs.offset(), outside(&t).offset());
        let ours = Message::from_str(text.as_str()).unwrap().date;
        assert_eq!(ours, t);
    }
}

#[test]
fn malformed_dates_are_refused_as_by_the_time_crate() {
    let description = time::format_description::parse(DESCRIPTION).unwrap();
    let bad = [
        "",
        "2022-06-01",
        "2022-06-01 13:45:00",
        "2022-13-01 13:45:00-0500",
        "2022-00-01 13:45:00-0500",
        "2022-02-30 13:45:00-0500",
        "2023-02-29 13:45:00-0500",
        "2022-06-31 13:45:00-0500",
        "2022-06-00 13:45:00-0500",
        "2022-06-01 24:00:00-0500",
        "2022-06-01 13:60:00-0500",
        "2022-06-01 13:45:60-0500",
        "2022-06-01 13:45:00-0560",
        "2022-06-01 13:45:00 0500",
        "2022-06-01 13:45:00-05",
        "2022-06-01 13:45:00-05:00",
        "2022-06-01T13:45:00-0500",
        "2022/06/01 13:45:00-0500",
        "2022-6-1 13:45:00-0500",
        "22-06-01 13:45:00-0500",
        "2022-06-01 13:45:00-0500x",
        "x2022-06-01 13:45:00-0500",
    ];
    for text in bad {
        assert!(OffsetDateTime::parse(text, &description[..]).is_err(), "{}", text);
        assert!(Message::from_str(text).is_err(), "{}", text);
    }
}

#[test]
fn seconds_since_the_epoch_are_those_of_the_time_crate() {
    for t in samples() {
        assert_eq!(t.unix_timestamp(), outside(&t).unix_timestamp());
    }
}

#[test]
fn trimming_is_that_of_the_standard_library() {
    for code in 0..=0x10FFFFu32 {
        let c = match char::from_u32(code) {
            Some(c) if c != '\n' => c,
            _ => continue,
        };
        if !c.is_whitespace() && code > 0x3100 {
            continue;
        }
        let inner = format!("{}{}x{}y{}", c, c, c, c);
        let text = format!("-={}=-\n", inner);
        let ood = oodles::Oodle::from_str_with_id(text.as_str(), String::new()).unwrap();
        assert_eq!(ood.name, inner.trim(), "U+{:04X}", code);
    }
    let m = Message::from_str("2022-06-01 13:45:00-0500\n\n \t a \u{3000}\n\n").unwrap();
    assert_eq!(m.content, "\n \t a \u{3000}\n");
}

#[test]
fn lines_are_those_of_the_standard_library() {
    let contents = [
        "",
        "a",
        "a\n",
        "a\n\n",
        "\n",
        "\n\n",
        "\na",
        "a\nb",
        "a\r\nb",
        "a\r\n",
        "a\r",
        "\r",
        "\r\n",
        "\r\r\n",
        "a\r\r\nb\n\r",
        ".",
        ".\n.",
        ".\r\n.\r",
        "..\n.\n...",
        " .\n. ",
    ];
    for content in contents {
        let stamp = Timestamp::new(2022, 6, 1, 13, 45, 0, -5, 0).unwrap();
        let written = Message::new(0, stamp, content).to_string();
        let mut expected = String::from("2022-06-01 13:45:00-0500\n");
        for line in content.lines() {
            if line == "." {
                expected.push_str("..\n");
            } else {
                expected.push_str(line);
                expected.push('\n');
            }
        }
        assert_eq!(written, expected, "{:?}", content);

        let text = format!("2022-06-01 13:45:00-0500\n{}", content);
        let read = Message::from_str(text.as_str()).unwrap();
        let mut unescaped = String::new();
        for line in content.lines() {
            if line == ".." {
                unescaped.push_str(".\n");
            } else {
                unescaped.push_str(line);
                unescaped.push('\n');
            }
        }
        let expected = unescaped.strip_suffix('\n').unwrap_or(unescaped.as_str());
        assert_eq!(read.content, expected, "{:?}", content);
    }
}

#[test]
fn numbers_are_read_as_the_standard_library_reads_them() {
    let max = format!("{}", usize::MAX);
    let over = format!("{}0", usize::MAX);
    let texts = [
        "0", "7", "007", "+7", "+0", "-0", "-7", "", "+", "++7", "+-7", "7+", " 7", "7 ", "1_000",
        "0x10", "१", "1e3", "1.0", "18446744073709551615", "18446744073709551616",
        "4294967295", "4294967296", "99999999999999999999999999",
        max.as_str(), over.as_str(),
    ];
    for text in texts {
        let expected = text.parse::<usize>().ok();
        let token = format!("{{~{}}}", text);
        let read = match oodles::Reference::from_str(token.as_str()) {
            Some(oodles::Reference::Internal { message_id }) => Some(message_id),
            _ => None,
        };
        assert_eq!(read, expected, "{:?}", text);
    }
    for n in [0usize, 9, 10, 99, 100, 12345, usize::MAX] {
        let written = oodles::Reference::Internal { message_id: n }.to_string();
        assert_eq!(written, format!("{{~{}}}", n));
    }
}
