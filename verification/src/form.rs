//! The forms that carry a request's fields to the write operations.

use crate::text::{chars_of, parse_number, read_number, same_text};
use vstd::prelude::*;

verus! {

/// The fields of a request: names and values in the order they were sent.
pub open spec fn fields_view(fields: Seq<(String, String)>) -> Seq<(Seq<char>, Seq<char>)> {
    Seq::new(fields.len(), |i: int| (fields[i].0@, fields[i].1@))
}

/// The value of the first field at or after `i` that is named `key`.
pub open spec fn first_value(fields: Seq<(Seq<char>, Seq<char>)>, key: Seq<char>, i: int)
    -> Option<Seq<char>>
    decreases fields.len() - i,
{
    if i < 0 || i >= fields.len() {
        None
    } else if fields[i].0 == key {
        Some(fields[i].1)
    } else {
        first_value(fields, key, i + 1)
    }
}

/// The value of the first field named `key`.
pub fn get_first_value(fields: &Vec<(String, String)>, key: &str) -> (r: Option<String>)
    ensures
        match first_value(fields_view(fields@), key@, 0) {
            Some(value) => r matches Some(x) && x@ == value,
            None => r is None,
        },
{
    let mut i: usize = 0;
    while i < fields.len()
        invariant
            i <= fields.len(),
            first_value(fields_view(fields@), key@, 0) == first_value(
                fields_view(fields@),
                key@,
                i as int,
            ),
        decreases fields.len() - i,
    {
        if same_text(fields[i].0.as_str(), key) {
            return Some(fields[i].1.clone());
        }
        i = i + 1;
    }
    None
}

/// The number that the first field named `key` spells.
pub fn parse_first_value(fields: &Vec<(String, String)>, key: &str) -> (r: Option<usize>)
    ensures
        r == (match first_value(fields_view(fields@), key@, 0) {
            Some(value) => parse_number(value),
            None => None,
        }),
{
    match get_first_value(fields, key) {
        Some(value) => {
            let chars = chars_of(value.as_str());
            assert(chars@.subrange(0, chars@.len() as int) =~= chars@);
            read_number(&chars, 0, chars.len())
        },
        None => None,
    }
}

/// A login attempt.
pub struct Login {
    pub username: String,
    pub password: String,
}

/// The request to create a document.
pub struct OodleCreate {
    pub title: String,
    pub filename: String,
    pub content: String,
}

/// The request to append a message to a document.
pub struct MessageCreate {
    pub filename: String,
    pub content: String,
}

/// The request to replace the content of a message.
pub struct MessageModify {
    pub filename: String,
    pub message_id: usize,
    pub content: String,
}

impl Login {
    /// The login that the fields `username` and `password` carry; `None`
    /// when one of them is missing.
    pub fn from_fields(fields: &Vec<(String, String)>) -> (r: Option<Login>)
        ensures
            match (
                first_value(fields_view(fields@), "username"@, 0),
                first_value(fields_view(fields@), "password"@, 0),
            ) {
                (Some(username), Some(password)) => r matches Some(x) && x.username@ == username
                    && x.password@ == password,
                _ => r is None,
            },
    {
        match (get_first_value(fields, "username"), get_first_value(fields, "password")) {
            (Some(username), Some(password)) => Some(Login { username, password }),
            _ => None,
        }
    }
}

impl OodleCreate {
    /// The request that the fields `title`, `filename` and `firstPost`
    /// carry; `None` when one of them is missing.
    pub fn from_fields(fields: &Vec<(String, String)>) -> (r: Option<OodleCreate>)
        ensures
            match (
                first_value(fields_view(fields@), "title"@, 0),
                first_value(fields_view(fields@), "filename"@, 0),
                first_value(fields_view(fields@), "firstPost"@, 0),
            ) {
                (Some(title), Some(filename), Some(content)) => r matches Some(x) && x.title@
                    == title && x.filename@ == filename && x.content@ == content,
                _ => r is None,
            },
    {
        match (
            get_first_value(fields, "title"),
            get_first_value(fields, "filename"),
            get_first_value(fields, "firstPost"),
        ) {
            (Some(title), Some(filename), Some(content)) => Some(
                OodleCreate { title, filename, content },
            ),
            _ => None,
        }
    }
}

impl MessageCreate {
    /// The request that the fields `filename` and `firstPost` carry; `None`
    /// when one of them is missing.
    pub fn from_fields(fields: &Vec<(String, String)>) -> (r: Option<MessageCreate>)
        ensures
            match (
                first_value(fields_view(fields@), "filename"@, 0),
                first_value(fields_view(fields@), "firstPost"@, 0),
            ) {
                (Some(filename), Some(content)) => r matches Some(x) && x.filename@ == filename
                    && x.content@ == content,
                _ => r is None,
            },
    {
        match (get_first_value(fields, "filename"), get_first_value(fields, "firstPost")) {
            (Some(filename), Some(content)) => Some(MessageCreate { filename, content }),
            _ => None,
        }
    }
}

impl MessageModify {
    /// The request that the fields `filename`, `id` and `content` carry;
    /// `None` when one of them is missing or `id` spells no number.
    pub fn from_fields(fields: &Vec<(String, String)>) -> (r: Option<MessageModify>)
        ensures
            match (
                first_value(fields_view(fields@), "filename"@, 0),
                first_value(fields_view(fields@), "id"@, 0),
                first_value(fields_view(fields@), "content"@, 0),
            ) {
                (Some(filename), Some(id), Some(content)) => match parse_number(id) {
                    Some(message_id) => r matches Some(x) && x.filename@ == filename
                        && x.message_id == message_id && x.content@ == content,
                    None => r is None,
                },
                _ => r is None,
            },
    {
        match (
            get_first_value(fields, "filename"),
            parse_first_value(fields, "id"),
            get_first_value(fields, "content"),
        ) {
            (Some(filename), Some(message_id), Some(content)) => Some(
                MessageModify { filename, message_id, content },
            ),
            _ => None,
        }
    }
}

} // verus!
