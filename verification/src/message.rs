//! One message: its dateline, its escaped body, and its citations.

use crate::error::ParseError;
use crate::lines::{
    after_first_line, first_line, format_body, lemma_first_line_of_suffix, push_rewritten_lines,
    unescape_body, without_final_newline,
};
use crate::reference::{
    backlinks_view, find_references, references_view, scan_references, Backlink, BacklinkView,
    Reference, ReferenceView,
};
use crate::text::{chars_of, index_of_char, slice_of, string_of};
use crate::timestamp::{
    format_dateline, format_timestamp, parse_dateline, read_dateline, push_dateline,
    Timestamp,
};
use vstd::prelude::*;

verus! {

/// One timestamped post of a document.
#[derive(Clone, Debug, PartialEq, Eq)]
pub struct Message {
    /// Position within the document; not necessarily contiguous.
    pub id: usize,
    /// When the message was written, in the offset it was written in.
    pub date: Timestamp,
    /// The body as its author wrote it.
    pub content: String,
    /// The citations found in `content`.
    pub references: Vec<Reference>,
    /// Who cited this message.
    pub backlinks: Vec<Backlink>,
}

/// The mathematical value of a [`Message`].
pub struct MessageView {
    pub id: usize,
    pub date: Timestamp,
    pub content: Seq<char>,
    pub references: Seq<ReferenceView>,
    pub backlinks: Seq<BacklinkView>,
}

impl View for Message {
    type V = MessageView;

    open spec fn view(&self) -> MessageView {
        MessageView {
            id: self.id,
            date: self.date,
            content: self.content@,
            references: references_view(self.references@),
            backlinks: backlinks_view(self.backlinks@),
        }
    }
}

/// A message as constructed: the citations are those of the content, and
/// nobody has cited it yet.
pub open spec fn new_message(id: usize, date: Timestamp, content: Seq<char>) -> MessageView {
    MessageView {
        id,
        date,
        content,
        references: scan_references(content),
        backlinks: Seq::empty(),
    }
}

/// A message as it is written: the dateline, with the index when
/// `print_index`, then the escaped body, every line newline-terminated.
pub open spec fn format_message(m: MessageView, print_index: bool) -> Seq<char> {
    format_dateline(
        m.date,
        if print_index {
            Some(m.id)
        } else {
            None
        },
    ) + seq!['\n'] + format_body(m.content)
}

/// The message that a text spells. The first line is the dateline; an index
/// that it does not show is `0`. The other lines, unescaped, are the
/// content, without the newline that ends the last of them.
pub open spec fn parse_message(text: Seq<char>) -> Result<MessageView, ParseError> {
    if text.len() == 0 {
        Err(ParseError::MissingDateline)
    } else {
        match parse_dateline(first_line(text)) {
            None => Err(ParseError::MalformedDateline),
            Some((index, date)) => Ok(
                new_message(
                    match index {
                        Some(i) => i,
                        None => 0,
                    },
                    date,
                    without_final_newline(unescape_body(after_first_line(text))),
                ),
            ),
        }
    }
}

/// Whether an executable result is the given mathematical one.
pub open spec fn message_result_is(
    r: Result<Message, ParseError>,
    v: Result<MessageView, ParseError>,
) -> bool {
    match v {
        Ok(m) => r matches Ok(x) && x@ == m,
        Err(e) => r == Err::<Message, ParseError>(e),
    }
}

impl Message {
    /// A message with the given id, date and content.
    pub fn new(id: usize, date: Timestamp, message: &str) -> (m: Message)
        ensures
            m@ == new_message(id, date, message@),
    {
        let chars = chars_of(message);
        Message::from_parts(id, date, &chars)
    }

    /// A message whose content is held as characters.
    pub fn from_parts(id: usize, date: Timestamp, content: &Vec<char>) -> (m: Message)
        ensures
            m@ == new_message(id, date, content@),
    {
        let references = find_references(content);
        let m = Message {
            id,
            date,
            content: string_of(content),
            references,
            backlinks: Vec::new(),
        };
        assert(backlinks_view(m.backlinks@) =~= Seq::<BacklinkView>::empty());
        m
    }

    /// A message written now, as the clock shows it in the given UTC offset,
    /// with id `0`. `None` when the clock shows no moment that a dateline can
    /// carry.
    pub fn new_now(message: &str, offset_hours: i8, offset_minutes: i8) -> (r: Option<Message>)
        ensures
            r matches Some(m) ==> {
                &&& m@ == new_message(0, m.date, message@)
                &&& m.date.wf()
                &&& m.date.offset_hours == offset_hours
                &&& m.date.offset_minutes == offset_minutes
            },
    {
        match Timestamp::now(offset_hours, offset_minutes) {
            Some(date) => Some(Message::new(0, date, message)),
            None => None,
        }
    }

    /// Replaces the content and derives the citations anew.
    pub fn set_content(&mut self, content: &str)
        ensures
            final(self)@ == (MessageView {
                content: content@,
                references: scan_references(content@),
                ..old(self)@
            }),
    {
        let chars = chars_of(content);
        self.references = find_references(&chars);
        self.content = string_of(&chars);
    }

    /// The date as it stands in the dateline.
    pub fn formatted_date(&self) -> (s: String)
        requires
            self.date.wf(),
        ensures
            s@ == format_timestamp(self.date),
    {
        self.date.formatted()
    }

    /// Appends the written message to `out`.
    pub fn write_to(&self, out: &mut Vec<char>, print_index: bool)
        requires
            self.date.wf(),
        ensures
            final(out)@ == old(out)@ + format_message(self@, print_index),
    {
        let index = if print_index {
            Some(self.id)
        } else {
            None
        };
        push_dateline(out, &self.date, index);
        out.push('\n');
        let content = chars_of(self.content.as_str());
        push_rewritten_lines(out, &content, true);
    }

    /// The written message without its index.
    pub fn to_string(&self) -> (s: String)
        requires
            self.date.wf(),
        ensures
            s@ == format_message(self@, false),
    {
        let mut out: Vec<char> = Vec::new();
        self.write_to(&mut out, false);
        string_of(&out)
    }

    /// The written message with its index shown on the dateline.
    pub fn fmt_with_idx(&self) -> (s: String)
        requires
            self.date.wf(),
        ensures
            s@ == format_message(self@, true),
    {
        let mut out: Vec<char> = Vec::new();
        self.write_to(&mut out, true);
        string_of(&out)
    }

    /// Reads a written message.
    pub fn from_str(s: &str) -> (r: Result<Message, ParseError>)
        ensures
            message_result_is(r, parse_message(s@)),
    {
        let text = chars_of(s);
        Message::from_chars(&text)
    }

    /// Reads a written message held as characters.
    pub fn from_chars(text: &Vec<char>) -> (r: Result<Message, ParseError>)
        ensures
            message_result_is(r, parse_message(text@)),
    {
        let n = text.len();
        if n == 0 {
            return Err(ParseError::MissingDateline);
        }
        let e = index_of_char(text, '\n', 0);
        let end: usize = if 0 < e && e < n && text[e - 1] == '\r' {
            e - 1
        } else {
            e
        };
        proof {
            lemma_first_line_of_suffix(text@, 0);
        }
        let dateline = slice_of(text, 0, end);
        match read_dateline(&dateline) {
            None => Err(ParseError::MalformedDateline),
            Some((index, date)) => {
                let rest = if e < n {
                    slice_of(text, e + 1, n)
                } else {
                    Vec::new()
                };
                let mut content: Vec<char> = Vec::new();
                push_rewritten_lines(&mut content, &rest, false);
                if content.len() > 0 && content[content.len() - 1] == '\n' {
                    content.pop();
                }
                let id = match index {
                    Some(i) => i,
                    None => 0,
                };
                Ok(Message::from_parts(id, date, &content))
            },
        }
    }
}

} // verus!
