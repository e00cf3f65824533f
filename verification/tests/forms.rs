use oodles::form::{get_first_value, parse_first_value};
use oodles::{Login, MessageCreate, MessageModify, OodleCreate};

fn fields(pairs: &[(&str, &str)]) -> Vec<(String, String)> {
    pairs.iter().map(|(k, v)| (String::from(*k), String::from(*v))).collect()
}

#[test]
fn the_first_value_of_a_field_counts() {
    let f = fields(&[("a", "1"), ("b", "2"), ("a", "3"), ("", "4")]);
    assert_eq!(get_first_value(&f, "a"), Some(String::from("1")));
    assert_eq!(get_first_value(&f, "b"), Some(String::from("2")));
    assert_eq!(get_first_value(&f, ""), Some(String::from("4")));
    assert_eq!(get_first_value(&f, "c"), None);
    assert_eq!(get_first_value(&f, "A"), None);
    assert_eq!(parse_first_value(&f, "a"), Some(1));
    assert_eq!(parse_first_value(&f, "c"), None);
    let f = fields(&[("id", "x"), ("id", "7"), ("n", "+08"), ("e", ""), ("m", "-1")]);
    assert_eq!(parse_first_value(&f, "id"), None);
    assert_eq!(parse_first_value(&f, "n"), Some(8));
    assert_eq!(parse_first_value(&f, "e"), None);
    assert_eq!(parse_first_value(&f, "m"), None);
}

#[test]
fn forms_need_all_their_fields() {
    let f = fields(&[("username", "gen"), ("password", "secret"), ("username", "other")]);
    let login = Login::from_fields(&f).unwrap();
    assert_eq!(login.username, "gen");
    assert_eq!(login.password, "secret");
    assert!(Login::from_fields(&fields(&[("username", "gen")])).is_none());
    assert!(Login::from_fields(&fields(&[("password", "secret")])).is_none());

    let f = fields(&[("firstPost", "hello"), ("filename", "a.oodle"), ("title", "A")]);
    let create = OodleCreate::from_fields(&f).unwrap();
    assert_eq!(create.title, "A");
    assert_eq!(create.filename, "a.oodle");
    assert_eq!(create.content, "hello");
    assert!(OodleCreate::from_fields(&fields(&[("title", "A"), ("filename", "a")])).is_none());

    let post = MessageCreate::from_fields(&f).unwrap();
    assert_eq!(post.filename, "a.oodle");
    assert_eq!(post.content, "hello");
    assert!(MessageCreate::from_fields(&fields(&[("content", "x"), ("filename", "a")])).is_none());

    let f = fields(&[("filename", "a.oodle"), ("id", "12"), ("content", "new")]);
    let modify = MessageModify::from_fields(&f).unwrap();
    assert_eq!(modify.filename, "a.oodle");
    assert_eq!(modify.message_id, 12);
    assert_eq!(modify.content, "new");
    let f = fields(&[("filename", "a.oodle"), ("id", "twelve"), ("content", "new")]);
    assert!(MessageModify::from_fields(&f).is_none());
    let f = fields(&[("filename", "a.oodle"), ("content", "new")]);
    assert!(MessageModify::from_fields(&f).is_none());
}
