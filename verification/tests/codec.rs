use oodles::{Message, Oodle, ParseError, Reference, Timestamp};

fn stamp(hour: u8, minute: u8) -> Timestamp {
    Timestamp::new(2022, 6, 1, hour, minute, 0, -5, 0).unwrap()
}

#[test]
fn message_formats_correctly() {
    let message = Message::new(
        0,
        stamp(13, 45),
        "Line one!\nLine tw- oh no is that a\n.\nIt was!",
    );

    let expected =
        "2022-06-01 13:45:00-0500\nLine one!\nLine tw- oh no is that a\n..\nIt was!\n";

    assert_eq!(message.to_string(), expected)
}

#[test]
fn message_parses_correctly() {
    let message = Message::new(
        0,
        stamp(13, 45),
        "Line one!\nLine tw- oh no is that a\n.\nIt was!",
    );

    let expected = "2022-06-01 13:45:00-0500\nLine one!\nLine tw- oh no is that a\n..\nIt was!";

    assert_eq!(Message::from_str(expected), Ok(message))
}

#[test]
fn oodle_formats_correctly() {
    let message = Message::new(
        0,
        stamp(13, 45),
        "Line one!\nLine tw- oh no is that a\n.\nIt was!",
    );

    let message2 = Message::new(1, stamp(14, 15), "Looky here another message!");

    let expected =
        "-= Hey, I'm a title! =-\n[123456]\n\n2022-06-01 13:45:00-0500\nLine one!\nLine tw- oh no is that a\n..\nIt was!\n.\n\n2022-06-01 14:15:00-0500\nLooky here another message!\n.\n";

    let mut ood = Oodle::new("123456", "Hey, I'm a title!", "/tmp/nothing.oodle", message);
    ood.push_message(message2);

    assert_eq!(ood.to_string(), expected)
}

#[test]
fn oodle_format_index_jump_correctly() {
    let message = Message::new(
        0,
        stamp(13, 45),
        "Line one!\nLine tw- oh no is that a\n.\nIt was!",
    );

    let message2 = Message::new(2, stamp(14, 15), "Looky here another message!");

    let expected =
        "-= Hey, I'm a title! =-\n[abcdef]\n\n2022-06-01 13:45:00-0500\nLine one!\nLine tw- oh no is that a\n..\nIt was!\n.\n\n2022-06-01 14:15:00-0500 (2)\nLooky here another message!\n.\n";

    let mut ood = Oodle::new("abcdef", "Hey, I'm a title!", "/tmp/nothing.oodle", message);
    ood.push_message(message2);

    assert_eq!(ood.to_string(), expected)
}

#[test]
fn oodle_parses_correctly() {
    let message = Message::new(
        0,
        stamp(13, 45),
        "Line one!\nLine tw- oh no is that a\n.\nIt was!",
    );

    let message2 = Message::new(1, stamp(14, 15), "Looky here another message!");

    let expected =
        "-= Hey, I'm a title! =-\n[ABC123]\n\n2022-06-01 13:45:00-0500\nLine one!\nLine tw- oh no is that a\n..\nIt was!\n.\n\n2022-06-01 14:15:00-0500\nLooky here another message!\n.\n";

    let mut ood = Oodle::new("ABC123", "Hey, I'm a title!", "/tmp", message);
    ood.push_message(message2);

    assert_eq!(Oodle::from_str(expected), Ok(ood))
}

#[test]
fn reference_writes_correctly() {
    let r = Reference::Internal { message_id: 0 };
    assert_eq!(r.to_string().as_str(), "{~0}");

    let r = Reference::Message {
        oodle_id: String::from("abcID"),
        message_id: 0,
    };
    assert_eq!(r.to_string().as_str(), "{abcID/0}");

    let r = Reference::Oodle {
        oodle_id: String::from("abcdefg"),
    };
    assert_eq!(r.to_string().as_str(), "{abcdefg}");
}

#[test]
fn reference_parses_correctly() {
    let rp = Reference::from_str("{~0}");
    let r = Reference::Internal { message_id: 0 };
    assert_eq!(r, rp.unwrap());

    let rp = Reference::from_str("{abcID/0}");
    let r = Reference::Message {
        oodle_id: String::from("abcID"),
        message_id: 0,
    };
    assert_eq!(r, rp.unwrap());

    let rp = Reference::from_str("{abcdefg}");
    let r = Reference::Oodle {
        oodle_id: String::from("abcdefg"),
    };
    assert_eq!(r, rp.unwrap());
}

#[test]
fn message_finds_references() {
    let msg = Message::new_now("Blh blah!\n{~2}", -5, 0).unwrap();

    assert_eq!(msg.references, vec![Reference::Internal { message_id: 2 }]);
}

#[test]
fn missing_dateline_is_reported() {
    assert_eq!(Message::from_str(""), Err(ParseError::MissingDateline));
}
