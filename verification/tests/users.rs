use argon2::{Argon2, PasswordHasher};
use oodles::{Session, Users};

const ALPHABET: &str = "123456789ABCDEFGHJKLMNPQRSTUVWXYZabcdefghijkmnopqrstuvwxyz";

fn hash_of(password: &str) -> String {
    Argon2::default().hash_password(password.as_bytes(), "c29tZXNhbHQ").unwrap().to_string()
}

#[test]
fn session_holds_its_cookie_and_account() {
    let s = Session::new(String::from("abc123"), String::from("gen"));
    assert_eq!(s.cookie, "abc123");
    assert_eq!(s.username, "gen");
}

#[test]
fn sessions_are_opened_found_and_closed() {
    let mut users = Users::new();
    let first = users.new_session("gen").clone();
    let second = users.new_session("other").clone();
    let third = users.new_session("gen").clone();
    for s in [&first, &second, &third] {
        assert_eq!(s.cookie.chars().count(), 6);
        assert!(s.cookie.chars().all(|c| ALPHABET.contains(c)));
    }
    assert_eq!(first.username, "gen");
    assert_eq!(second.username, "other");
    assert_eq!(users.get_session(second.cookie.clone()).unwrap().username, "other");
    assert!(users.get_session(String::from("nothing")).is_none());
    assert!(users.delete_session(first.cookie.clone()));
    assert!(users.get_session(first.cookie.clone()).is_none());
    assert!(!users.delete_session(first.cookie.clone()));
    assert_eq!(users.get_session(second.cookie.clone()).unwrap().cookie, second.cookie);
    assert_eq!(users.get_session(third.cookie.clone()).unwrap().username, "gen");
    assert!(users.delete_session(third.cookie.clone()));
    assert!(users.delete_session(second.cookie.clone()));
    assert!(!users.delete_session(second.cookie));
}

#[test]
fn credentials_are_read_line_by_line() {
    let users = Users::from_credentials("gen hash one\nother second\r\ngen later\n").unwrap();
    assert_eq!(users.password_hash("other").unwrap(), "second");
    assert_eq!(users.password_hash("gen").unwrap(), "later");
    assert!(users.password_hash("nobody").is_none());
    assert!(users.password_hash("").is_none());
    let users = Users::from_credentials("").unwrap();
    assert!(users.password_hash("gen").is_none());
    let users = Users::from_credentials(" lonely").unwrap();
    assert_eq!(users.password_hash("").unwrap(), "lonely");
}

#[test]
fn a_line_without_space_is_no_credential() {
    assert!(Users::from_credentials("gen hash\nnospace\n").is_none());
    assert!(Users::from_credentials("gen hash\n\nother hash\n").is_none());
}

#[test]
fn logins_are_checked_against_the_stored_hash() {
    let text = format!("gen {}\nbroken not-a-hash\n", hash_of("secret"));
    let users = Users::from_credentials(text.as_str()).unwrap();
    assert_eq!(users.verify_login("gen", "secret"), Some(true));
    assert_eq!(users.verify_login("gen", "Secret"), Some(false));
    assert_eq!(users.verify_login("gen", ""), Some(false));
    assert_eq!(users.verify_login("nobody", "secret"), Some(false));
    assert_eq!(users.verify_login("broken", "secret"), None);
}
