//! One document: a title, an identifier and an ordered run of messages.
//!
//! As written, a document is the line `-= TITLE =-`, the line `[ID]`, and
//! then for each message a blank line, the message, and a line holding only
//! `.`. A message shows its index only where it is not the one expected next.

use crate::error::ParseError;
use crate::ident::{is_base58, random_base58};
use crate::lines::lemma_find_char_suffix;
use crate::message::{format_message, parse_message, Message, MessageView};
use crate::reference::{backlinks_view, Backlink, BacklinkView};
use crate::text::{
    append_chars, chars_of, find_char, index_of_char, slice_of, string_of, string_of_range,
    trim, trim_bounds,
};
use crate::timestamp::Timestamp;
use vstd::prelude::*;

verus! {

/// A titled sequence of messages.
#[derive(Clone, Debug, PartialEq, Eq)]
pub struct Oodle {
    /// Short identifier, fixed when the document is created.
    pub id: String,
    /// The title.
    pub name: String,
    /// The key under which the document is stored; not part of the written text.
    pub file: String,
    /// The messages in the order of the written text.
    pub messages: Vec<Message>,
    /// Who cited the document as a whole.
    pub backlinks: Vec<Backlink>,
}

/// The mathematical value of an [`Oodle`].
pub struct OodleView {
    pub id: Seq<char>,
    pub name: Seq<char>,
    pub file: Seq<char>,
    pub messages: Seq<MessageView>,
    pub backlinks: Seq<BacklinkView>,
}

/// The values of a sequence of messages.
pub open spec fn messages_view(s: Seq<Message>) -> Seq<MessageView> {
    Seq::new(s.len(), |i: int| s[i]@)
}

impl View for Oodle {
    type V = OodleView;

    open spec fn view(&self) -> OodleView {
        OodleView {
            id: self.id@,
            name: self.name@,
            file: self.file@,
            messages: messages_view(self.messages@),
            backlinks: backlinks_view(self.backlinks@),
        }
    }
}

/// The id of the last message, if there is a message.
pub open spec fn last_id(messages: Seq<MessageView>) -> Option<usize> {
    if messages.len() == 0 {
        None
    } else {
        Some(messages.last().id)
    }
}

/// The index expected of the message that follows one with id `last`.
pub open spec fn expected_after(last: Option<usize>) -> int {
    match last {
        None => 0,
        Some(id) => id + 1,
    }
}

/// The id that a message is stored under. A declared id above zero that is
/// not below the expected one is kept; any other gives way to the expected one.
pub open spec fn assign_id(expected: int, declared: usize) -> int {
    if declared > 0 && declared >= expected {
        declared as int
    } else {
        expected
    }
}

/// The message as it is stored after one with id `last`.
pub open spec fn place(m: MessageView, last: Option<usize>) -> MessageView {
    MessageView { id: assign_id(expected_after(last), m.id) as usize, ..m }
}

/// The storage key of a document that was read from text and not stored yet.
pub open spec fn unsaved_file() -> Seq<char> {
    "/tmp"@
}

/// The two header lines of a written document.
pub open spec fn format_header(name: Seq<char>, id: Seq<char>) -> Seq<char> {
    seq!['-', '=', ' '] + name + seq![' ', '=', '-', '\n'] + seq!['['] + id + seq![']', '\n']
}

/// The messages as they are written when the next index expected is
/// `expected`: each one after a blank line and before a line holding `.`,
/// with its index shown where it differs from the expected one.
pub open spec fn format_messages(messages: Seq<MessageView>, expected: int) -> Seq<char>
    decreases messages.len(),
{
    if messages.len() == 0 {
        Seq::empty()
    } else {
        let m = messages[0];
        seq!['\n'] + format_message(m, m.id != expected) + seq!['.', '\n'] + format_messages(
            messages.drop_first(),
            m.id + 1,
        )
    }
}

/// A document as it is written.
pub open spec fn format_document(d: OodleView) -> Seq<char> {
    format_header(d.name, d.id) + format_messages(d.messages, 0)
}

/// The title that a title line spells.
pub open spec fn parse_title(line: Seq<char>) -> Option<Seq<char>> {
    if line.len() >= 4 && line[0] == '-' && line[1] == '=' && line[line.len() - 2] == '='
        && line[line.len() - 1] == '-' {
        Some(trim(line.subrange(2, line.len() - 2)))
    } else {
        None
    }
}

/// The identifier that an identifier line spells.
pub open spec fn parse_identifier(line: Seq<char>) -> Option<Seq<char>> {
    if line.len() >= 2 && line[0] == '[' && line[line.len() - 1] == ']' {
        Some(line.subrange(1, line.len() - 1))
    } else {
        None
    }
}

/// A line with one identifier bracket but not both.
pub open spec fn half_bracketed(line: Seq<char>) -> bool {
    line.len() > 0 && (line[0] == '[' || line[line.len() - 1] == ']') && parse_identifier(line)
        is None
}

/// A line holding only `.` starts at `i`, between two newlines.
pub open spec fn is_terminator_at(s: Seq<char>, i: int) -> bool {
    0 <= i && i + 3 <= s.len() && s[i] == '\n' && s[i + 1] == '.' && s[i + 2] == '\n'
}

/// Position of the first message terminator at or after `i`, or `s.len()`.
pub open spec fn find_terminator_from(s: Seq<char>, i: int) -> int
    decreases s.len() - i,
{
    if i < 0 || i + 3 > s.len() {
        s.len() as int
    } else if is_terminator_at(s, i) {
        i
    } else {
        find_terminator_from(s, i + 1)
    }
}

/// The messages that the body of a document spells, stored after a message
/// with id `last`. Each terminator ends one message; text left over after
/// the last terminator is one more message unless it is blank.
#[verifier::opaque]
pub open spec fn parse_messages(s: Seq<char>, last: Option<usize>) -> Result<
    Seq<MessageView>,
    ParseError,
>
    decreases s.len(),
{
    let k = find_terminator_from(s, 0);
    if 0 <= k && k + 3 <= s.len() {
        match parse_message(trim(s.subrange(0, k))) {
            Err(e) => Err(e),
            Ok(m) => if expected_after(last) > usize::MAX {
                Err(ParseError::IndexExhausted)
            } else {
                let placed = place(m, last);
                match parse_messages(s.subrange(k + 3, s.len() as int), Some(placed.id)) {
                    Err(e) => Err(e),
                    Ok(rest) => Ok(seq![placed] + rest),
                }
            },
        }
    } else if trim(s).len() == 0 {
        Ok(Seq::empty())
    } else {
        match parse_message(trim(s)) {
            Err(e) => Err(e),
            Ok(m) => if expected_after(last) > usize::MAX {
                Err(ParseError::IndexExhausted)
            } else {
                Ok(seq![place(m, last)])
            },
        }
    }
}

/// What follows the title line.
pub open spec fn after_title(s: Seq<char>) -> Seq<char> {
    s.subrange(find_char(s, '\n') + 1, s.len() as int)
}

/// The identifier line of the text `rest` that follows the title line, if
/// `rest` starts with one.
pub open spec fn identifier_of(rest: Seq<char>) -> Option<Seq<char>> {
    let j = find_char(rest, '\n');
    if j < rest.len() {
        parse_identifier(rest.subrange(0, j))
    } else {
        None
    }
}

/// The body of a document: what follows the header lines and the one
/// newline that may separate them from the messages.
pub open spec fn body_of(rest: Seq<char>) -> Seq<char> {
    let after = if identifier_of(rest) is Some {
        rest.subrange(find_char(rest, '\n') + 1, rest.len() as int)
    } else {
        rest
    };
    if after.len() > 0 && after[0] == '\n' {
        after.subrange(1, after.len() as int)
    } else {
        after
    }
}

/// The header of a written document: its title, the identifier it shows,
/// and the body that follows.
pub struct HeaderView {
    pub name: Seq<char>,
    pub id: Option<Seq<char>>,
    pub body: Seq<char>,
}

/// The header that a text starts with.
pub open spec fn parse_header(s: Seq<char>) -> Result<HeaderView, ParseError> {
    let i = find_char(s, '\n');
    if i >= s.len() {
        Err(ParseError::MissingTitle)
    } else {
        match parse_title(s.subrange(0, i)) {
            None => Err(ParseError::MalformedTitleMarkers),
            Some(name) => {
                let rest = after_title(s);
                let j = find_char(rest, '\n');
                if j < rest.len() && half_bracketed(rest.subrange(0, j)) {
                    Err(ParseError::MalformedIdentifierMarkers)
                } else {
                    Ok(HeaderView { name, id: identifier_of(rest), body: body_of(rest) })
                }
            },
        }
    }
}

/// The document that a text spells; `fallback_id` becomes its identifier
/// when the text shows none.
pub open spec fn parse_document(s: Seq<char>, fallback_id: Seq<char>) -> Result<
    OodleView,
    ParseError,
> {
    match parse_header(s) {
        Err(e) => Err(e),
        Ok(header) => match parse_messages(header.body, None) {
            Err(e) => Err(e),
            Ok(messages) => Ok(
                OodleView {
                    id: match header.id {
                        Some(id) => id,
                        None => fallback_id,
                    },
                    name: header.name,
                    file: unsaved_file(),
                    messages,
                    backlinks: Seq::empty(),
                },
            ),
        },
    }
}

/// Whether an executable result is the given mathematical one.
pub open spec fn oodle_result_is(
    r: Result<Oodle, ParseError>,
    v: Result<OodleView, ParseError>,
) -> bool {
    match v {
        Ok(d) => r matches Ok(x) && x@ == d,
        Err(e) => r == Err::<Oodle, ParseError>(e),
    }
}

/// The ids of the messages rise strictly, so each one is unique and is
/// written and read back unchanged.
pub open spec fn ids_increase(messages: Seq<MessageView>) -> bool {
    forall|i: int, j: int| 0 <= i < j < messages.len() ==> messages[i].id < messages[j].id
}

impl OodleView {
    /// A document as every operation leaves it: it holds a message, and the
    /// ids of its messages rise.
    pub open spec fn wf(self) -> bool {
        self.messages.len() > 0 && ids_increase(self.messages)
    }
}

/// A message placed after messages whose ids rise keeps them rising.
pub proof fn lemma_push_keeps_ids_rising(messages: Seq<MessageView>, m: MessageView)
    requires
        ids_increase(messages),
        expected_after(last_id(messages)) <= usize::MAX,
    ensures
        ids_increase(messages.push(place(m, last_id(messages)))),
        place(m, last_id(messages)).id >= expected_after(last_id(messages)),
{
    let placed = place(m, last_id(messages));
    let after = messages.push(placed);
    assert forall|i: int, j: int| 0 <= i < j < after.len() implies after[i].id < after[j].id by {}
}

/// Index of the first message with the given id, or `messages.len()`.
pub open spec fn position_of_id(messages: Seq<MessageView>, id: usize, i: int) -> int
    decreases messages.len() - i,
{
    if i < 0 || i >= messages.len() {
        messages.len() as int
    } else if messages[i].id == id {
        i
    } else {
        position_of_id(messages, id, i + 1)
    }
}

/// A position found is a position of the sequence, and holds the id.
pub proof fn lemma_position_of_id(messages: Seq<MessageView>, id: usize, i: int)
    requires
        0 <= i <= messages.len(),
    ensures
        i <= position_of_id(messages, id, i) <= messages.len(),
        position_of_id(messages, id, i) < messages.len() ==> messages[position_of_id(
            messages,
            id,
            i,
        )].id == id,
    decreases messages.len() - i,
{
    if i < messages.len() && messages[i].id != id {
        lemma_position_of_id(messages, id, i + 1);
    }
}

/// What the first terminator at or after `i` is: none starts between `i`
/// and it, and one starts at it unless it is the end.
pub proof fn lemma_find_terminator_from(s: Seq<char>, i: int)
    requires
        0 <= i <= s.len(),
    ensures
        i <= find_terminator_from(s, i) <= s.len(),
        forall|j: int| i <= j < find_terminator_from(s, i) ==> !is_terminator_at(s, j),
        find_terminator_from(s, i) < s.len() ==> is_terminator_at(s, find_terminator_from(s, i)),
    decreases s.len() - i,
{
    if i + 3 <= s.len() && !is_terminator_at(s, i) {
        lemma_find_terminator_from(s, i + 1);
    }
}

/// A position before which no terminator starts from `i` on, and at which
/// one starts unless it is the end, is the first terminator at or after `i`.
pub proof fn lemma_find_terminator_is(s: Seq<char>, i: int, k: int)
    requires
        0 <= i <= k <= s.len(),
        forall|j: int| i <= j < k ==> !is_terminator_at(s, j),
        k < s.len() ==> is_terminator_at(s, k),
    ensures
        find_terminator_from(s, i) == k,
    decreases k - i,
{
    if i < k && i + 3 <= s.len() {
        lemma_find_terminator_is(s, i + 1, k);
    } else if i < k {
    }
}

/// Searching a suffix for a terminator is searching the whole from where the
/// suffix starts.
pub proof fn lemma_find_terminator_suffix(s: Seq<char>, i: int)
    requires
        0 <= i <= s.len(),
    ensures
        find_terminator_from(s.subrange(i, s.len() as int), 0) == find_terminator_from(s, i) - i,
{
    let t = s.subrange(i, s.len() as int);
    let k = find_terminator_from(s, i);
    lemma_find_terminator_from(s, i);
    assert forall|j: int| 0 <= j < k - i implies !is_terminator_at(t, j) by {
        if j + 3 <= t.len() {
            assert(!is_terminator_at(s, i + j));
        }
    }
    lemma_find_terminator_is(t, 0, k - i);
}

/// First terminator at or after `from`, or `v.len()`.
fn index_of_terminator(v: &Vec<char>, from: usize) -> (r: usize)
    requires
        from <= v.len(),
    ensures
        r == find_terminator_from(v@, from as int),
        from <= r <= v.len(),
        r < v.len() ==> r + 3 <= v.len(),
{
    let n = v.len();
    let mut i: usize = from;
    while i < n && n - i >= 3
        invariant
            from <= i <= n == v.len(),
            find_terminator_from(v@, from as int) == find_terminator_from(v@, i as int),
        decreases n - i,
    {
        if v[i] == '\n' && v[i + 1] == '.' && v[i + 2] == '\n' {
            return i;
        }
        i = i + 1;
    }
    n
}

/// The result of reading further messages after those already read.
pub open spec fn after_read(
    read: Seq<MessageView>,
    further: Result<Seq<MessageView>, ParseError>,
) -> Result<Seq<MessageView>, ParseError> {
    match further {
        Ok(rest) => Ok(read + rest),
        Err(e) => Err(e),
    }
}

impl Oodle {
    /// The index expected of the next message fits a machine integer.
    pub open spec fn has_room_spec(&self) -> bool {
        expected_after(last_id(self@.messages)) <= usize::MAX
    }

    /// A document of one message.
    pub fn new(id: &str, name: &str, file: &str, first_message: Message) -> (d: Oodle)
        ensures
            d@ == (OodleView {
                id: id@,
                name: name@,
                file: file@,
                messages: seq![first_message@],
                backlinks: Seq::empty(),
            }),
            d@.wf(),
    {
        let mut messages: Vec<Message> = Vec::new();
        messages.push(first_message);
        let d = Oodle {
            id: id.to_owned(),
            name: name.to_owned(),
            file: file.to_owned(),
            messages,
            backlinks: Vec::new(),
        };
        assert(d@.messages =~= seq![first_message@]);
        assert(d@.backlinks =~= Seq::<BacklinkView>::empty());
        d
    }

    /// A document of one message under a fresh random identifier of six
    /// base-58 characters.
    pub fn new_noid(name: &str, file: &str, first_message: Message) -> (d: Oodle)
        ensures
            d@ == (OodleView {
                id: d@.id,
                name: name@,
                file: file@,
                messages: seq![first_message@],
                backlinks: Seq::empty(),
            }),
            d@.wf(),
            d@.id.len() == 6,
            is_base58(d@.id),
    {
        let id = random_base58(6);
        Oodle::new(id.as_str(), name, file, first_message)
    }

    /// Whether one more message can be appended.
    pub fn has_room(&self) -> (r: bool)
        ensures
            r == self.has_room_spec(),
    {
        room_after(&self.messages)
    }

    /// Appends a message and returns the id it is stored under: its own id
    /// where that is above zero and not below the one expected next, else the
    /// expected one.
    pub fn push_message(&mut self, msg: Message) -> (id: usize)
        requires
            old(self).has_room_spec(),
        ensures
            id == assign_id(expected_after(last_id(old(self)@.messages)), msg.id),
            final(self)@ == (OodleView {
                messages: old(self)@.messages.push(place(msg@, last_id(old(self)@.messages))),
                ..old(self)@
            }),
            ids_increase(old(self)@.messages) ==> final(self)@.wf(),
    {
        proof {
            if ids_increase(self@.messages) {
                lemma_push_keeps_ids_rising(self@.messages, msg@);
            }
        }
        push_placed(&mut self.messages, msg)
    }

    /// The first message stored under the given id.
    pub fn message(&self, index: usize) -> (r: Option<&Message>)
        ensures
            ({
                let k = position_of_id(self@.messages, index, 0);
                if k < self.messages@.len() {
                    r == Some(&self.messages@[k])
                } else {
                    r is None
                }
            }),
    {
        let mut i: usize = 0;
        while i < self.messages.len()
            invariant
                i <= self.messages.len(),
                position_of_id(self@.messages, index, 0) == position_of_id(
                    self@.messages,
                    index,
                    i as int,
                ),
            decreases self.messages.len() - i,
        {
            if self.messages[i].id == index {
                return Some(&self.messages[i]);
            }
            i = i + 1;
        }
        None
    }

    /// The first message stored under the given id, for changing it in place.
    pub fn message_mut(&mut self, index: usize) -> (r: Option<&mut Message>)
        ensures
            ({
                let k = position_of_id(old(self)@.messages, index, 0);
                if k < old(self).messages@.len() {
                    &&& r matches Some(m)
                    &&& *m == old(self).messages@[k]
                    &&& *final(self) == (Oodle {
                        messages: final(self).messages,
                        ..*old(self)
                    })
                    &&& final(self).messages@ == old(self).messages@.update(k, *final(m))
                } else {
                    r is None && *final(self) == *old(self)
                }
            }),
    {
        let mut i: usize = 0;
        while i < self.messages.len()
            invariant
                *self == *old(self),
                i <= self.messages.len(),
                position_of_id(self@.messages, index, 0) == position_of_id(
                    self@.messages,
                    index,
                    i as int,
                ),
            decreases self.messages.len() - i,
        {
            if self.messages[i].id == index {
                return Some(&mut self.messages[i]);
            }
            i = i + 1;
        }
        None
    }

    /// The date of the first message.
    pub fn date(&self) -> (r: Option<Timestamp>)
        ensures
            r == (if self.messages@.len() > 0 {
                Some(self.messages@[0].date)
            } else {
                None
            }),
    {
        if self.messages.len() > 0 {
            Some(self.messages[0].date)
        } else {
            None
        }
    }

    /// Every message carries a timestamp that a dateline can carry.
    pub open spec fn dates_wf(&self) -> bool {
        forall|i: int| 0 <= i < self.messages@.len() ==> (#[trigger] self.messages@[i]).date.wf()
    }

    /// Whether every message carries a timestamp that a dateline can carry.
    pub fn dates_are_valid(&self) -> (r: bool)
        ensures
            r == self.dates_wf(),
    {
        let mut i: usize = 0;
        while i < self.messages.len()
            invariant
                i <= self.messages.len(),
                forall|j: int| 0 <= j < i ==> (#[trigger] self.messages@[j]).date.wf(),
            decreases self.messages.len() - i,
        {
            if !self.messages[i].date.is_valid() {
                return false;
            }
            i = i + 1;
        }
        true
    }

    /// The document as it is written.
    pub fn to_string(&self) -> (s: String)
        requires
            self.dates_wf(),
        ensures
            s@ == format_document(self@),
    {
        let mut out: Vec<char> = Vec::new();
        out.push('-');
        out.push('=');
        out.push(' ');
        let name = chars_of(self.name.as_str());
        append_chars(&mut out, &name);
        out.push(' ');
        out.push('=');
        out.push('-');
        out.push('\n');
        out.push('[');
        let id = chars_of(self.id.as_str());
        append_chars(&mut out, &id);
        out.push(']');
        out.push('\n');
        let ghost all = self@.messages;
        let n = self.messages.len();
        let mut previous: Option<usize> = None;
        let mut i: usize = 0;
        proof {
            assert(all.subrange(0, n as int) =~= all);
        }
        while i < n
            invariant
                i <= n == self.messages.len(),
                all == self@.messages,
                self.dates_wf(),
                i == 0 ==> previous is None,
                i > 0 ==> previous == Some(all[i - 1].id),
                format_document(self@) == out@ + format_messages(
                    all.subrange(i as int, n as int),
                    if i == 0 {
                        0
                    } else {
                        all[i - 1].id + 1
                    },
                ),
            decreases n - i,
        {
            let msg = &self.messages[i];
            let ghost rest = all.subrange(i as int, n as int);
            let expected_here = match previous {
                None => msg.id == 0,
                Some(p) => p < usize::MAX && msg.id == p + 1,
            };
            out.push('\n');
            msg.write_to(&mut out, !expected_here);
            out.push('.');
            out.push('\n');
            previous = Some(msg.id);
            proof {
                assert(rest.drop_first() =~= all.subrange(i + 1, n as int));
            }
            i = i + 1;
        }
        string_of(&out)
    }

    /// Reads a written document. Where the text shows no identifier, the
    /// document gets a fresh random one of six base-58 characters.
    pub fn from_str(s: &str) -> (r: Result<Oodle, ParseError>)
        ensures
            exists|fallback: Seq<char>|
                fallback.len() == 6 && is_base58(fallback) && oodle_result_is(
                    r,
                    #[trigger] parse_document(s@, fallback),
                ),
    {
        let fallback = random_base58(6);
        Oodle::from_str_with_id(s, fallback)
    }

    /// Reads a written document; `fallback_id` becomes its identifier where
    /// the text shows none.
    pub fn from_str_with_id(s: &str, fallback_id: String) -> (r: Result<Oodle, ParseError>)
        ensures
            oodle_result_is(r, parse_document(s@, fallback_id@)),
    {
        let text = chars_of(s);
        let (name, shown, start) = match read_header(&text) {
            Err(e) => {
                return Err(e);
            },
            Ok(header) => header,
        };
        let id = match shown {
            Some(id) => id,
            None => fallback_id,
        };
        let body = slice_of(&text, start, text.len());
        match read_messages(&body) {
            Err(e) => Err(e),
            Ok(messages) => {
                let oodle = Oodle {
                    id,
                    name,
                    file: "/tmp".to_owned(),
                    messages,
                    backlinks: Vec::new(),
                };
                assert(oodle@.backlinks =~= Seq::<BacklinkView>::empty());
                Ok(oodle)
            },
        }
    }

}

/// Appends a message under the id that its place gives it.
fn push_placed(messages: &mut Vec<Message>, msg: Message) -> (id: usize)
    requires
        expected_after(last_id(messages_view(old(messages)@))) <= usize::MAX,
    ensures
        id == assign_id(expected_after(last_id(messages_view(old(messages)@))), msg.id),
        messages_view(final(messages)@) == messages_view(old(messages)@).push(
            place(msg@, last_id(messages_view(old(messages)@))),
        ),
{
    let n = messages.len();
    let expected: usize = if n == 0 {
        0
    } else {
        messages[n - 1].id + 1
    };
    let mut msg = msg;
    if msg.id > 0 {
        if msg.id < expected {
            msg.id = expected;
        }
    } else {
        msg.id = expected;
    }
    let id = msg.id;
    messages.push(msg);
    id
}

/// Whether a message can follow those in `messages`.
fn room_after(messages: &Vec<Message>) -> (r: bool)
    ensures
        r == (expected_after(last_id(messages_view(messages@))) <= usize::MAX),
{
    let n = messages.len();
    n == 0 || messages[n - 1].id < usize::MAX
}

/// What an executable reading amounts to.
pub open spec fn messages_result_is(
    r: Result<Vec<Message>, ParseError>,
    v: Result<Seq<MessageView>, ParseError>,
) -> bool {
    match v {
        Ok(all) => r matches Ok(x) && messages_view(x@) == all,
        Err(e) => r == Err::<Vec<Message>, ParseError>(e),
    }
}

/// Reads the messages that `body` spells.
fn read_messages(body: &Vec<char>) -> (r: Result<Vec<Message>, ParseError>)
    ensures
        messages_result_is(r, parse_messages(body@, None)),
{
    let n = body.len();
    let mut messages: Vec<Message> = Vec::new();
    let mut pos: usize = 0;
    let ghost goal = parse_messages(body@, None);
    proof {
        assert(body@.subrange(0, n as int) =~= body@);
    }
    loop
        invariant
            pos <= n == body.len(),
            goal == parse_messages(body@, None),
            goal == after_read(
                messages_view(messages@),
                parse_messages(
                    body@.subrange(pos as int, n as int),
                    last_id(messages_view(messages@)),
                ),
            ),
        ensures
            find_terminator_from(body@.subrange(pos as int, n as int), 0) >= n - pos,
            pos <= n == body.len(),
            goal == after_read(
                messages_view(messages@),
                parse_messages(
                    body@.subrange(pos as int, n as int),
                    last_id(messages_view(messages@)),
                ),
            ),
        decreases n - pos,
    {
        let ghost rest = body@.subrange(pos as int, n as int);
        let ghost read = messages_view(messages@);
        let k = index_of_terminator(body, pos);
        proof {
            lemma_find_terminator_suffix(body@, pos as int);
        }
        if k >= n {
            break ;
        }
        let (a, b) = trim_bounds_in(body, pos, k);
        let segment = slice_of(body, a, b);
        proof {
            assert(rest.subrange(0, k - pos) =~= body@.subrange(pos as int, k as int));
            assert(rest.subrange(k - pos + 3, rest.len() as int) =~= body@.subrange(
                k + 3,
                n as int,
            ));
            lemma_read_step(read, rest, k - pos);
        }
        match Message::from_chars(&segment) {
            Err(e) => {
                return Err(e);
            },
            Ok(m) => {
                if !room_after(&messages) {
                    return Err(ParseError::IndexExhausted);
                }
                push_placed(&mut messages, m);
                pos = k + 3;
            },
        }
    }
    let ghost rest = body@.subrange(pos as int, n as int);
    let ghost read = messages_view(messages@);
    let (a, b) = trim_bounds_in(body, pos, n);
    proof {
        lemma_read_last(read, rest);
    }
    if a == b {
        return Ok(messages);
    }
    let segment = slice_of(body, a, b);
    match Message::from_chars(&segment) {
        Err(e) => Err(e),
        Ok(m) => {
            if !room_after(&messages) {
                return Err(ParseError::IndexExhausted);
            }
            push_placed(&mut messages, m);
            Ok(messages)
        },
    }
}

/// Reading a body whose first terminator stands at `k`: the message before
/// it is placed, and reading goes on behind it.
pub proof fn lemma_parse_messages_step(s: Seq<char>, last: Option<usize>, k: int)
    requires
        find_terminator_from(s, 0) == k,
        0 <= k,
        k + 3 <= s.len(),
    ensures
        parse_messages(s, last) == (match parse_message(trim(s.subrange(0, k))) {
            Err(e) => Err(e),
            Ok(m) => if expected_after(last) > usize::MAX {
                Err(ParseError::IndexExhausted)
            } else {
                match parse_messages(s.subrange(k + 3, s.len() as int), Some(place(m, last).id)) {
                    Err(e) => Err(e),
                    Ok(rest) => Ok(seq![place(m, last)] + rest),
                }
            },
        }),
{
    reveal(parse_messages);
}

/// Reading a body that holds no terminator: what it holds is one message
/// unless it is blank.
pub proof fn lemma_parse_messages_last(s: Seq<char>, last: Option<usize>)
    requires
        find_terminator_from(s, 0) >= s.len(),
    ensures
        parse_messages(s, last) == (if trim(s).len() == 0 {
            Ok(Seq::empty())
        } else {
            match parse_message(trim(s)) {
                Err(e) => Err(e),
                Ok(m) => if expected_after(last) > usize::MAX {
                    Err(ParseError::IndexExhausted)
                } else {
                    Ok(seq![place(m, last)])
                },
            }
        }),
{
    reveal(parse_messages);
}

/// One step of reading: the message before the first terminator of `rest`
/// joins those already read, and reading goes on behind the terminator.
proof fn lemma_read_step(read: Seq<MessageView>, rest: Seq<char>, k: int)
    requires
        k == find_terminator_from(rest, 0),
        0 <= k,
        k + 3 <= rest.len(),
    ensures
        after_read(read, parse_messages(rest, last_id(read))) == (match parse_message(
            trim(rest.subrange(0, k)),
        ) {
            Err(e) => Err(e),
            Ok(m) => if expected_after(last_id(read)) > usize::MAX {
                Err(ParseError::IndexExhausted)
            } else {
                after_read(
                    read.push(place(m, last_id(read))),
                    parse_messages(
                        rest.subrange(k + 3, rest.len() as int),
                        last_id(read.push(place(m, last_id(read)))),
                    ),
                )
            },
        }),
{
    lemma_parse_messages_step(rest, last_id(read), k);
    let last = last_id(read);
    match parse_message(trim(rest.subrange(0, k))) {
        Err(e) => {},
        Ok(m) => {
            if expected_after(last) <= usize::MAX {
                let placed = place(m, last);
                let next = read.push(placed);
                match parse_messages(rest.subrange(k + 3, rest.len() as int), Some(placed.id)) {
                    Ok(more) => {
                        assert(read + (seq![placed] + more) =~= next + more);
                    },
                    Err(_) => {},
                }
            }
        },
    }
}

/// The end of reading: what is left behind the last terminator is one more
/// message unless it is blank.
proof fn lemma_read_last(read: Seq<MessageView>, rest: Seq<char>)
    requires
        find_terminator_from(rest, 0) >= rest.len(),
    ensures
        after_read(read, parse_messages(rest, last_id(read))) == (if trim(rest).len() == 0 {
            Ok(read)
        } else {
            match parse_message(trim(rest)) {
                Err(e) => Err(e),
                Ok(m) => if expected_after(last_id(read)) > usize::MAX {
                    Err(ParseError::IndexExhausted)
                } else {
                    Ok(read.push(place(m, last_id(read))))
                },
            }
        }),
{
    lemma_parse_messages_last(rest, last_id(read));
    let last = last_id(read);
    assert(read + Seq::<MessageView>::empty() =~= read);
}

/// The bounds of `trim(v[from..to])` inside `v`.
fn trim_bounds_in(v: &Vec<char>, from: usize, to: usize) -> (r: (usize, usize))
    requires
        from <= to <= v.len(),
    ensures
        from <= r.0 <= r.1 <= to,
        trim(v@.subrange(from as int, to as int)) == v@.subrange(r.0 as int, r.1 as int),
        r.0 == r.1 <==> trim(v@.subrange(from as int, to as int)).len() == 0,
{
    let part = slice_of(v, from, to);
    let (a, b) = trim_bounds(&part);
    (from + a, from + b)
}

/// Reads the header: the title, the identifier if one is shown, and where
/// the body starts.
fn read_header(text: &Vec<char>) -> (r: Result<(String, Option<String>, usize), ParseError>)
    ensures
        match parse_header(text@) {
            Err(e) => r == Err::<(String, Option<String>, usize), ParseError>(e),
            Ok(header) => {
                &&& r matches Ok((name, id, start))
                &&& name@ == header.name
                &&& match header.id {
                    Some(shown) => id matches Some(x) && x@ == shown,
                    None => id is None,
                }
                &&& start <= text.len()
                &&& text@.subrange(start as int, text@.len() as int) == header.body
            },
        },
{
    let n = text.len();
    let i = index_of_char(text, '\n', 0);
    if i >= n {
        return Err(ParseError::MissingTitle);
    }
    let name = match read_title(text, i) {
        None => {
            return Err(ParseError::MalformedTitleMarkers);
        },
        Some(name) => name,
    };
    let ghost rest = after_title(text@);
    let j = index_of_char(text, '\n', i + 1);
    let ghost line = text@.subrange(i + 1, j as int);
    proof {
        lemma_find_char_suffix(text@, '\n', i + 1);
    }
    let mut start: usize = i + 1;
    let mut id: Option<String> = None;
    if j < n {
        match read_identifier(text, i + 1, j) {
            Some(found) => {
                id = Some(found);
                start = j + 1;
            },
            None => {
                if j > i + 1 && (text[i + 1] == '[' || text[j - 1] == ']') {
                    return Err(ParseError::MalformedIdentifierMarkers);
                }
            },
        }
    }
    let ghost after = text@.subrange(start as int, n as int);
    if start < n && text[start] == '\n' {
        start = start + 1;
    }
    Ok((name, id, start))
}

/// The title that the line `text[..end]` spells.
fn read_title(text: &Vec<char>, end: usize) -> (r: Option<String>)
    requires
        end <= text.len(),
    ensures
        match parse_title(text@.subrange(0, end as int)) {
            Some(name) => r matches Some(x) && x@ == name,
            None => r is None,
        },
{
    if end >= 4 && text[0] == '-' && text[1] == '=' && text[end - 2] == '=' && text[end - 1]
        == '-' {
        let ghost line = text@.subrange(0, end as int);
        let (a, b) = trim_bounds_in(text, 2, end - 2);
        assert(line.subrange(2, line.len() - 2) =~= text@.subrange(2, end - 2));
        Some(string_of_range(text, a, b))
    } else {
        None
    }
}

/// The identifier that the line `text[from..to]` spells.
fn read_identifier(text: &Vec<char>, from: usize, to: usize) -> (r: Option<String>)
    requires
        from <= to <= text.len(),
    ensures
        match parse_identifier(text@.subrange(from as int, to as int)) {
            Some(id) => r matches Some(x) && x@ == id,
            None => r is None,
        },
{
    if to - from >= 2 && text[from] == '[' && text[to - 1] == ']' {
        let ghost line = text@.subrange(from as int, to as int);
        Some(string_of_range(text, from + 1, to - 1))
    } else {
        None
    }
}

} // verus!
