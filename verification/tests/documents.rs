use oodles::{Message, Oodle, ParseError, Timestamp};

fn at(minute: u8) -> Timestamp {
    Timestamp::new(2022, 6, 1, 13, minute, 0, -5, 0).unwrap()
}

fn ids(oodle: &Oodle) -> Vec<usize> {
    oodle.messages.iter().map(|m| m.id).collect()
}

#[test]
fn index_assignment_clamps_regressions() {
    let mut ood = Oodle::new("abcdef", "T", "t.oodle", Message::new(0, at(0), "a"));
    assert_eq!(ood.push_message(Message::new(5, at(1), "b")), 5);
    assert_eq!(ood.push_message(Message::new(3, at(2), "c")), 6);
    assert_eq!(ood.push_message(Message::new(7, at(3), "d")), 7);
    assert_eq!(ids(&ood), vec![0, 5, 6, 7]);
}

#[test]
fn index_assignment_when_reading() {
    let text = "-= T =-\n[abcdef]\n\n2022-06-01 13:00:00-0500\na\n.\n\n2022-06-01 13:01:00-0500 (5)\nb\n.\n\n2022-06-01 13:02:00-0500 (3)\nc\n.\n\n2022-06-01 13:03:00-0500 (7)\nd\n.\n";
    let ood = Oodle::from_str(text).unwrap();
    assert_eq!(ids(&ood), vec![0, 5, 6, 7]);
}

#[test]
fn index_assignment_edge_cases() {
    let mut ood = Oodle::new("abcdef", "T", "t.oodle", Message::new(4, at(0), "a"));
    assert_eq!(ids(&ood), vec![4]);
    assert_eq!(ood.push_message(Message::new(0, at(1), "b")), 5);
    assert_eq!(ood.push_message(Message::new(5, at(1), "c")), 6);
    assert_eq!(ood.push_message(Message::new(6, at(1), "d")), 7);
    assert_eq!(ood.push_message(Message::new(8, at(1), "e")), 8);
    assert_eq!(ood.push_message(Message::new(1, at(1), "f")), 9);
    assert_eq!(ids(&ood), vec![4, 5, 6, 7, 8, 9]);
}

#[test]
fn jump_markers_are_written_only_at_jumps() {
    let mut ood = Oodle::new("abcdef", "T", "t.oodle", Message::new(0, at(0), "a"));
    ood.push_message(Message::new(2, at(1), "b"));
    ood.push_message(Message::new(0, at(2), "c"));
    assert_eq!(
        ood.to_string(),
        "-= T =-\n[abcdef]\n\n2022-06-01 13:00:00-0500\na\n.\n\n2022-06-01 13:01:00-0500 (2)\nb\n.\n\n2022-06-01 13:02:00-0500\nc\n.\n"
    );
    let mut ood = Oodle::new("abcdef", "T", "t.oodle", Message::new(0, at(0), "a"));
    ood.push_message(Message::new(1, at(1), "b"));
    assert!(!ood.to_string().contains('('));
}

#[test]
fn a_first_message_above_zero_shows_its_index() {
    let ood = Oodle::new("abcdef", "T", "t.oodle", Message::new(3, at(0), "a"));
    let text = ood.to_string();
    assert_eq!(text, "-= T =-\n[abcdef]\n\n2022-06-01 13:00:00-0500 (3)\na\n.\n");
    assert_eq!(ids(&Oodle::from_str(text.as_str()).unwrap()), vec![3]);
}

#[test]
fn written_documents_read_back() {
    let mut ood = Oodle::new(
        "Zx9",
        "A title =- with markers -= inside",
        "/tmp",
        Message::new(0, at(0), "  Line one!\n.\n..x\n\n  indented\n{~1} and {Zx9/4}"),
    );
    ood.push_message(Message::new(0, at(1), ""));
    ood.push_message(Message::new(9, at(2), "."));
    ood.push_message(Message::new(0, at(3), "-= not a title =-\n[not an id]"));
    ood.push_message(Message::new(40, at(4), "tab\there \r and more"));
    ood.push_message(Message::new(0, at(5), "\n\n\tstarts with blank lines"));
    let text = ood.to_string();
    let back = Oodle::from_str(text.as_str()).unwrap();
    assert_eq!(back, ood);
    assert_eq!(back.to_string(), text);
    assert_eq!(ids(&back), vec![0, 1, 9, 10, 40, 41]);
}

#[test]
fn written_messages_read_back() {
    let contents = [
        "", ".", "a", "a\n.\n.\nb", ". .", "...", "x\n\n\ny", "{~1}\n{a/2}", " ", "  a", "a  ",
        "\ta\t", "\n\na", " \n a \n ", "\u{3000}x\u{a0}", "a\rb",
    ];
    for content in contents {
        let zero = Message::new(0, at(5), content);
        assert_eq!(Message::from_str(zero.to_string().as_str()), Ok(zero.clone()));
        assert_eq!(Message::from_str(zero.fmt_with_idx().as_str()), Ok(zero));
        let seven = Message::new(7, at(5), content);
        assert_eq!(Message::from_str(seven.fmt_with_idx().as_str()), Ok(seven.clone()));
        assert_eq!(Message::from_str(seven.to_string().as_str()).unwrap().id, 0);
    }
}

#[test]
fn lone_period_lines_are_escaped() {
    let m = Message::new(0, at(0), ".");
    assert_eq!(m.to_string(), "2022-06-01 13:00:00-0500\n..\n");
    assert_eq!(Message::from_str("2022-06-01 13:00:00-0500\n..\n").unwrap().content, ".");
    let m = Message::new(0, at(0), "a\n.\nb\n. \n.\n...");
    assert_eq!(m.to_string(), "2022-06-01 13:00:00-0500\na\n..\nb\n. \n..\n...\n");
    assert_eq!(m.fmt_with_idx(), "2022-06-01 13:00:00-0500 (0)\na\n..\nb\n. \n..\n...\n");
    assert_eq!(m.formatted_date(), "2022-06-01 13:00:00-0500");
}

#[test]
fn what_does_not_survive_writing() {
    let m = Message::new(0, at(0), "a\n..\nb");
    assert_eq!(Message::from_str(m.to_string().as_str()).unwrap().content, "a\n.\nb");
    let m = Message::new(0, at(0), " padded \n");
    assert_eq!(Message::from_str(m.to_string().as_str()).unwrap().content, " padded ");
    let m = Message::new(0, at(0), "ends in a bare return\r");
    assert_eq!(
        Message::from_str(m.to_string().as_str()).unwrap().content,
        "ends in a bare return"
    );
    let ood = Oodle::new("id", "T", "t", Message::new(0, at(0), "  kept at the start, lost at the end \t"));
    let back = Oodle::from_str(ood.to_string().as_str()).unwrap();
    assert_eq!(back.messages[0].content, "  kept at the start, lost at the end");
    let m = Message::new(0, at(0), "a\r\nb");
    assert_eq!(Message::from_str(m.to_string().as_str()).unwrap().content, "a\nb");
}

#[test]
fn every_format_error_has_an_input() {
    assert_eq!(Oodle::from_str(""), Err(ParseError::MissingTitle));
    assert_eq!(Oodle::from_str("-= T =-"), Err(ParseError::MissingTitle));
    assert_eq!(Oodle::from_str("Title\n"), Err(ParseError::MalformedTitleMarkers));
    assert_eq!(Oodle::from_str("-= T\n"), Err(ParseError::MalformedTitleMarkers));
    assert_eq!(Oodle::from_str("-=-\n"), Err(ParseError::MalformedTitleMarkers));
    assert_eq!(Oodle::from_str("-= T =-\r\n"), Err(ParseError::MalformedTitleMarkers));
    assert_eq!(Oodle::from_str("-= T =-\n[abc\n"), Err(ParseError::MalformedIdentifierMarkers));
    assert_eq!(Oodle::from_str("-= T =-\nabc]\n"), Err(ParseError::MalformedIdentifierMarkers));
    assert_eq!(Oodle::from_str("-= T =-\n[\n"), Err(ParseError::MalformedIdentifierMarkers));
    assert_eq!(Oodle::from_str("-= T =-\n[id]\n\n\n.\n"), Err(ParseError::MissingDateline));
    assert_eq!(
        Oodle::from_str("-= T =-\n[id]\n\nnot a date\nbody\n.\n"),
        Err(ParseError::MalformedDateline)
    );
    assert_eq!(
        Oodle::from_str("-= T =-\n[id]\n\n2022-06-01 13:00:00-0500\na\n.\ntrailing"),
        Err(ParseError::MalformedDateline)
    );
    let text = format!(
        "-= T =-\n[id]\n\n2022-06-01 13:00:00-0500 ({})\na\n.\n\n2022-06-01 13:01:00-0500\nb\n.\n",
        usize::MAX
    );
    assert_eq!(Oodle::from_str(text.as_str()), Err(ParseError::IndexExhausted));
    assert_eq!(Message::from_str(""), Err(ParseError::MissingDateline));
    assert_eq!(Message::from_str("x"), Err(ParseError::MalformedDateline));
}

#[test]
fn errors_describe_themselves() {
    let all = [
        ParseError::MissingTitle,
        ParseError::MalformedTitleMarkers,
        ParseError::MalformedIdentifierMarkers,
        ParseError::MissingDateline,
        ParseError::MalformedDateline,
        ParseError::IndexExhausted,
    ];
    for (i, e) in all.iter().enumerate() {
        assert!(!e.describe().is_empty());
        for other in &all[i + 1..] {
            assert_ne!(e.describe(), other.describe());
        }
    }
}

#[test]
fn the_last_index_leaves_no_room() {
    let mut ood = Oodle::new("id", "T", "t", Message::new(usize::MAX - 1, at(0), "a"));
    assert!(ood.has_room());
    assert_eq!(ood.push_message(Message::new(0, at(1), "b")), usize::MAX);
    assert!(!ood.has_room());
}

#[test]
fn a_document_without_identifier_gets_one() {
    let text = "-= T =-\n\n2022-06-01 13:00:00-0500\na\n.\n";
    let ood = Oodle::from_str(text).unwrap();
    assert_eq!(ood.id.chars().count(), 6);
    let alphabet = "123456789ABCDEFGHJKLMNPQRSTUVWXYZabcdefghijkmnopqrstuvwxyz";
    assert_eq!(alphabet.chars().count(), 58);
    assert!(ood.id.chars().all(|c| alphabet.contains(c)));
    assert_eq!(ood.name, "T");
    assert_eq!(ids(&ood), vec![0]);
    let ood = Oodle::from_str_with_id(text, String::from("given")).unwrap();
    assert_eq!(ood.id, "given");
    let ood = Oodle::from_str_with_id("-= T =-\n[shown]\n", String::from("given")).unwrap();
    assert_eq!(ood.id, "shown");
    assert!(ood.messages.is_empty());
    let ood = Oodle::from_str_with_id("-= T =-\n2022-06-01 13:00:00-0500\na", String::from("g"))
        .unwrap();
    assert_eq!(ood.id, "g");
    assert_eq!(ood.messages[0].content, "a");
}

#[test]
fn the_header_tolerates_hand_editing() {
    let ood = Oodle::from_str("-=    Spaced out\t=-\n[ i d ]\n2022-06-01 13:00:00-0500\na\n.\n")
        .unwrap();
    assert_eq!(ood.name, "Spaced out");
    assert_eq!(ood.id, " i d ");
    assert_eq!(ood.file, "/tmp");
    assert!(ood.backlinks.is_empty());
    assert_eq!(ood.messages.len(), 1);
    let ood = Oodle::from_str("-==-\n[]\n").unwrap();
    assert_eq!(ood.name, "");
    assert_eq!(ood.id, "");
    let ood = Oodle::from_str("-= T =-\n[id]\n\n\n2022-06-01 13:00:00-0500\na\n.\n").unwrap();
    assert_eq!(ood.messages.len(), 1);
}

#[test]
fn the_last_terminator_may_be_missing() {
    let text = "-= T =-\n[id]\n\n2022-06-01 13:00:00-0500\na\n.\n\n2022-06-01 13:01:00-0500\nb\nc";
    let ood = Oodle::from_str(text).unwrap();
    assert_eq!(ood.messages.len(), 2);
    assert_eq!(ood.messages[1].content, "b\nc");
    assert_eq!(ood.messages[1].id, 1);
    let text = "-= T =-\n[id]\n\n2022-06-01 13:00:00-0500\na\n.\n\n \n\t\n";
    assert_eq!(Oodle::from_str(text).unwrap().messages.len(), 1);
    let text = "-= T =-\n[id]\n\n2022-06-01 13:00:00-0500\na\n.";
    assert_eq!(Oodle::from_str(text).unwrap().messages[0].content, "a\n.");
}

#[test]
fn messages_are_found_by_id() {
    let mut ood = Oodle::new("id", "T", "t", Message::new(0, at(0), "a"));
    ood.push_message(Message::new(5, at(1), "b"));
    assert_eq!(ood.message(5).unwrap().content, "b");
    assert_eq!(ood.message(0).unwrap().content, "a");
    assert!(ood.message(1).is_none());
    assert!(ood.message_mut(6).is_none());
    ood.message_mut(5).unwrap().set_content("changed {~0}");
    assert_eq!(ood.messages[1].content, "changed {~0}");
    assert_eq!(ood.messages[1].references.len(), 1);
    assert_eq!(ood.messages[0].content, "a");
    assert_eq!(ood.date(), Some(at(0)));
}
