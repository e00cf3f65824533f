use oodles::{Backlink, Message, Oodle, Oodles, Reference, Timestamp};

fn at(minute: u8) -> Timestamp {
    Timestamp::new(2022, 6, 1, 13, minute, 0, -5, 0).unwrap()
}

fn link(id: &str, message_id: usize) -> Backlink {
    Backlink { oodle_id: String::from(id), message_id }
}

fn loaded() -> Oodles {
    let mut all = Oodles::new("data");
    let mut a = Oodle::new("AAA", "First", "first.oodle", Message::new(0, at(0), "a0"));
    a.push_message(Message::new(3, at(1), "a3"));
    all.insert(a);
    all.insert(Oodle::new("BBB", "Second", "second.oodle", Message::new(0, at(2), "b0")));
    all.insert(Oodle::new("AAA", "Twin", "twin.oodle", Message::new(0, at(3), "t0")));
    all
}

#[test]
fn created_document_is_written_and_read_back() {
    let mut all = Oodles::new("data");
    let message = Message::new_now("Line one!\n.\nIt was!", -5, 0).unwrap();
    let dateline = message.formatted_date();
    let id = all.new_oodle("Hey", "hey.oodle", message);
    assert_eq!(id.chars().count(), 6);
    let ood = all.oodle_by_file("hey.oodle").unwrap();
    let saved = ood.to_string();
    assert_eq!(
        saved,
        format!("-= Hey =-\n[{}]\n\n{}\nLine one!\n..\nIt was!\n.\n", id, dateline)
    );
    let reloaded = Oodle::from_str(saved.as_str()).unwrap();
    assert_eq!(reloaded.to_string(), saved);
    assert_eq!(reloaded.messages.len(), 1);
    assert_eq!(reloaded.messages[0].content, "Line one!\n.\nIt was!");
    assert_eq!(reloaded.id, id);
    assert_eq!(reloaded.name, "Hey");
}

#[test]
fn citing_a_document_leaves_a_backlink() {
    let mut all = Oodles::new("data");
    let b = all.new_oodle("B", "b.oodle", Message::new(0, at(0), "nothing cited"));
    let content = format!("see {{{}}}", b);
    let a = all.new_oodle("A", "a.oodle", Message::new(0, at(1), content.as_str()));
    assert_eq!(all.oodle_by_file("b.oodle").unwrap().backlinks, vec![link(a.as_str(), 0)]);
    assert!(all.oodle_by_file("a.oodle").unwrap().backlinks.is_empty());
    assert!(all.oodle_by_file("b.oodle").unwrap().messages[0].backlinks.is_empty());
}

#[test]
fn citing_a_message_leaves_a_backlink_on_it() {
    let mut all = loaded();
    let refs = vec![
        Reference::Message { oodle_id: String::from("AAA"), message_id: 3 },
        Reference::Oodle { oodle_id: String::from("BBB") },
        Reference::Internal { message_id: 0 },
    ];
    all.map_backlinks(link("BBB", 9), &refs);
    let first = all.get(0).unwrap();
    assert_eq!(first.messages[1].backlinks, vec![link("BBB", 9)]);
    assert!(first.messages[0].backlinks.is_empty());
    assert!(first.backlinks.is_empty());
    let second = all.get(1).unwrap();
    assert_eq!(second.backlinks, vec![link("BBB", 9)]);
    assert_eq!(second.messages[0].backlinks, vec![link("BBB", 9)]);
    let twin = all.get(2).unwrap();
    assert!(twin.backlinks.is_empty());
    assert!(twin.messages[0].backlinks.is_empty());
}

#[test]
fn citing_what_is_not_loaded_changes_nothing() {
    let mut all = loaded();
    let refs = vec![
        Reference::Message { oodle_id: String::from("AAA"), message_id: 1 },
        Reference::Message { oodle_id: String::from("ZZZ"), message_id: 0 },
        Reference::Oodle { oodle_id: String::from("ZZZ") },
        Reference::Internal { message_id: 0 },
    ];
    all.map_backlinks(link("ZZZ", 0), &refs);
    for i in 0..all.len() {
        let ood = all.get(i).unwrap();
        assert!(ood.backlinks.is_empty());
        assert!(ood.messages.iter().all(|m| m.backlinks.is_empty()));
    }
    assert!(all.get(3).is_none());
}

#[test]
fn a_backlink_is_recorded_once() {
    let mut all = loaded();
    let refs = vec![
        Reference::Oodle { oodle_id: String::from("BBB") },
        Reference::Oodle { oodle_id: String::from("BBB") },
    ];
    all.map_backlinks(link("AAA", 0), &refs);
    all.map_backlinks(link("AAA", 0), &refs);
    all.map_backlinks(link("AAA", 3), &refs);
    assert_eq!(all.get(1).unwrap().backlinks, vec![link("AAA", 0), link("AAA", 3)]);
}

#[test]
fn documents_are_found_by_title_and_by_file() {
    let all = loaded();
    assert_eq!(all.len(), 3);
    assert_eq!(all.get_oodle_by_name("second").unwrap().id, "BBB");
    assert_eq!(all.get_oodle_by_name("SECOND").unwrap().id, "BBB");
    assert_eq!(all.get_oodle_by_name("fIrSt").unwrap().file, "first.oodle");
    assert!(all.get_oodle_by_name("third").is_none());
    assert_eq!(all.oodle_by_file("twin.oodle").unwrap().name, "Twin");
    assert!(all.oodle_by_file("Twin.oodle").is_none());
    assert!(all.oodle_by_file("").is_none());
}

#[test]
fn titles_are_compared_in_lowercase() {
    let mut all = Oodles::new("data");
    all.insert(Oodle::new("1", "ÄRGER Über", "a", Message::new(0, at(0), "")));
    assert_eq!(all.get_oodle_by_name("ärger über").unwrap().id, "1");
    assert_eq!(all.get_oodle_by_name("Ärger ÜBER").unwrap().id, "1");
    assert!(all.get_oodle_by_name("arger uber").is_none());
}

#[test]
fn a_document_found_by_file_can_be_changed() {
    let mut all = loaded();
    assert!(all.oodle_by_file_mut("none").is_none());
    let ood = all.oodle_by_file_mut("second.oodle").unwrap();
    ood.push_message(Message::new(0, at(9), "more"));
    assert_eq!(all.get(1).unwrap().messages.len(), 2);
    assert_eq!(all.get(0).unwrap().messages.len(), 2);
    assert_eq!(all.get(2).unwrap().messages.len(), 1);
}

#[test]
fn metadata_lists_titles_and_first_dates() {
    let mut all = loaded();
    all.insert(Oodle::from_str("-= Empty =-\n[E]\n").unwrap());
    assert_eq!(
        all.oodle_metedata(),
        vec![
            (String::from("First"), Some(at(0))),
            (String::from("Second"), Some(at(2))),
            (String::from("Twin"), Some(at(3))),
            (String::from("Empty"), None),
        ]
    );
}

#[test]
fn documents_are_kept_under_the_oodles_directory() {
    let all = Oodles::new("data");
    let directory = all.directory().clone();
    assert_ne!(directory, "data");
    assert!(directory.starts_with("data"));
    assert!(directory.ends_with("oodles"));
    let path = all.path_of("hey.oodle");
    assert_ne!(path, "hey.oodle");
    assert!(path.starts_with(directory.as_str()));
    assert!(path.ends_with("hey.oodle"));
}

#[test]
fn appending_a_message_resolves_its_citations() {
    let mut all = loaded();
    let id = all.append_message("second.oodle", Message::new(0, at(5), "{AAA/0} {~0} {~1}"));
    assert_eq!(id, Some(1));
    assert_eq!(all.get(0).unwrap().messages[0].backlinks, vec![link("BBB", 1)]);
    let second = all.get(1).unwrap();
    assert_eq!(second.messages.len(), 2);
    assert_eq!(second.messages[0].backlinks, vec![link("BBB", 1)]);
    assert_eq!(second.messages[1].backlinks, vec![link("BBB", 1)]);
    assert_eq!(all.append_message("first.oodle", Message::new(9, at(6), "x")), Some(9));
    assert_eq!(all.append_message("none", Message::new(0, at(6), "x")), None);
    all.insert(Oodle::new("M", "Full", "full", Message::new(usize::MAX, at(0), "")));
    assert_eq!(all.append_message("full", Message::new(0, at(6), "{BBB}")), None);
    assert!(all.get(1).unwrap().backlinks.is_empty());
}

#[test]
fn editing_a_message_derives_its_citations_anew() {
    let mut all = loaded();
    assert!(all.edit_message("first.oodle", 3, "now citing {BBB} and {~0}"));
    let first = all.get(0).unwrap();
    assert_eq!(first.messages[1].content, "now citing {BBB} and {~0}");
    assert_eq!(
        first.messages[1].references,
        vec![
            Reference::Oodle { oodle_id: String::from("BBB") },
            Reference::Internal { message_id: 0 },
        ]
    );
    assert_eq!(first.messages[0].backlinks, vec![link("AAA", 3)]);
    assert_eq!(all.get(1).unwrap().backlinks, vec![link("AAA", 3)]);
    assert!(!all.edit_message("first.oodle", 1, "x"));
    assert!(!all.edit_message("none", 0, "x"));
    assert!(all.edit_message("first.oodle", 3, "cites nothing"));
    assert_eq!(all.get(1).unwrap().backlinks, vec![link("AAA", 3)]);
}

#[test]
fn backlinks_are_rebuilt_from_the_citations() {
    let mut all = Oodles::new("data");
    all.insert(Oodle::new("AAA", "First", "first", Message::new(0, at(0), "{BBB} {BBB/1} {~0}")));
    let mut b = Oodle::new("BBB", "Second", "second", Message::new(0, at(1), "{AAA/0}"));
    b.push_message(Message::new(0, at(2), "{AAA} {ZZZ} {~7}"));
    all.insert(b);
    all.rebuild_backlinks();
    let first = all.get(0).unwrap();
    assert_eq!(first.backlinks, vec![link("BBB", 1)]);
    assert_eq!(first.messages[0].backlinks, vec![link("AAA", 0), link("BBB", 0)]);
    let second = all.get(1).unwrap();
    assert_eq!(second.backlinks, vec![link("AAA", 0)]);
    assert!(second.messages[0].backlinks.is_empty());
    assert_eq!(second.messages[1].backlinks, vec![link("AAA", 0)]);
    all.rebuild_backlinks();
    assert_eq!(all.get(0).unwrap().backlinks, vec![link("BBB", 1)]);
    assert_eq!(all.get(1).unwrap().messages[1].backlinks, vec![link("AAA", 0)]);
}

#[test]
fn a_collection_keeps_the_directory_it_was_made_with() {
    let mut all = Oodles::in_directory(String::from("some/where"));
    assert_eq!(all.len(), 0);
    assert_eq!(all.directory(), "some/where");
    all.insert(Oodle::new("AAA", "First", "first", Message::new(0, at(0), "{AAA}")));
    all.new_oodle("T", "t.oodle", Message::new(0, at(1), "{AAA/0}"));
    assert!(all.edit_message("first", 0, "changed"));
    all.rebuild_backlinks();
    assert_eq!(all.directory(), "some/where");
    assert!(all.path_of("t.oodle").starts_with("some/where"));
    assert!(all.path_of("t.oodle").ends_with("t.oodle"));
}
