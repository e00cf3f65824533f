//! Inline citations: `{~N}`, `{ID}` and `{ID/N}`, and the backlinks that
//! record on the cited side who cited it.

use crate::text::{
    chars_of, decimal, find_char, index_of_char, find_char_from, lemma_find_char_from,
    parse_number, read_number, push_decimal, string_of, string_of_range,
};
use vstd::prelude::*;

verus! {

/// Where a citation came from: the citing message's document and id.
#[derive(Clone, Debug, PartialEq, Eq)]
pub struct Backlink {
    pub oodle_id: String,
    pub message_id: usize,
}

/// The mathematical value of a [`Backlink`].
pub struct BacklinkView {
    pub oodle_id: Seq<char>,
    pub message_id: usize,
}

impl View for Backlink {
    type V = BacklinkView;

    open spec fn view(&self) -> BacklinkView {
        BacklinkView { oodle_id: self.oodle_id@, message_id: self.message_id }
    }
}

/// A citation found in a message.
#[derive(Clone, Debug, PartialEq, Eq)]
pub enum Reference {
    /// One message of a named document.
    Message { oodle_id: String, message_id: usize },
    /// A document as a whole.
    Oodle { oodle_id: String },
    /// A message of the document that holds the citation.
    Internal { message_id: usize },
}

/// The mathematical value of a [`Reference`].
pub enum ReferenceView {
    Message { oodle_id: Seq<char>, message_id: usize },
    Oodle { oodle_id: Seq<char> },
    Internal { message_id: usize },
}

impl View for Reference {
    type V = ReferenceView;

    open spec fn view(&self) -> ReferenceView {
        match self {
            Reference::Message { oodle_id, message_id } => ReferenceView::Message {
                oodle_id: oodle_id@,
                message_id: *message_id,
            },
            Reference::Oodle { oodle_id } => ReferenceView::Oodle { oodle_id: oodle_id@ },
            Reference::Internal { message_id } => ReferenceView::Internal {
                message_id: *message_id,
            },
        }
    }
}

/// The values of a sequence of references.
pub open spec fn references_view(s: Seq<Reference>) -> Seq<ReferenceView> {
    Seq::new(s.len(), |i: int| s[i]@)
}

/// The values of a sequence of backlinks.
pub open spec fn backlinks_view(s: Seq<Backlink>) -> Seq<BacklinkView> {
    Seq::new(s.len(), |i: int| s[i]@)
}

/// The citation that a brace-delimited token spells, if it spells one.
///
/// `{~N}` cites message `N` of the same document, `{ID/N}` message `N` of
/// document `ID` (the text before the first slash), `{ID}` document `ID`.
pub open spec fn parse_reference(token: Seq<char>) -> Option<ReferenceView> {
    if token.len() < 2 || token[0] != '{' || token.last() != '}' {
        None
    } else if token[1] == '~' {
        match parse_number(token.subrange(2, token.len() - 1)) {
            Some(n) => Some(ReferenceView::Internal { message_id: n }),
            None => None,
        }
    } else {
        let inner = token.subrange(1, token.len() - 1);
        let slash = find_char(inner, '/');
        if slash >= inner.len() {
            Some(ReferenceView::Oodle { oodle_id: inner })
        } else {
            match parse_number(inner.subrange(slash + 1, inner.len() as int)) {
                Some(n) => Some(
                    ReferenceView::Message { oodle_id: inner.subrange(0, slash), message_id: n },
                ),
                None => None,
            }
        }
    }
}

/// A citation as it is written.
pub open spec fn format_reference(r: ReferenceView) -> Seq<char> {
    match r {
        ReferenceView::Message { oodle_id, message_id } => seq!['{'] + oodle_id + seq!['/']
            + decimal(message_id as int) + seq!['}'],
        ReferenceView::Oodle { oodle_id } => seq!['{'] + oodle_id + seq!['}'],
        ReferenceView::Internal { message_id } => seq!['{', '~'] + decimal(message_id as int)
            + seq!['}'],
    }
}

/// The citations of `s` from position `i` on, left to right.
///
/// Each token runs from the next `{` to the first `}` after it. A token that
/// spells no citation is passed over. A `{` that no `}` follows ends the scan.
pub open spec fn scan_references_from(s: Seq<char>, i: int) -> Seq<ReferenceView>
    decreases s.len() - i,
{
    let open = find_char_from(s, '{', i);
    let close = find_char_from(s, '}', open);
    if i < 0 || open >= s.len() || close >= s.len() || close < i {
        Seq::empty()
    } else {
        match parse_reference(s.subrange(open, close + 1)) {
            Some(r) => seq![r] + scan_references_from(s, close + 1),
            None => scan_references_from(s, close + 1),
        }
    }
}

/// The citations of a text, left to right.
pub open spec fn scan_references(s: Seq<char>) -> Seq<ReferenceView> {
    scan_references_from(s, 0)
}

impl Reference {
    /// Reads one brace-delimited token.
    pub fn from_str(s: &str) -> (r: Option<Reference>)
        ensures
            match parse_reference(s@) {
                Some(v) => r matches Some(x) && x@ == v,
                None => r is None,
            },
    {
        let token = chars_of(s);
        Reference::from_chars(&token)
    }

    /// Reads one brace-delimited token held as characters.
    pub fn from_chars(token: &Vec<char>) -> (r: Option<Reference>)
        ensures
            match parse_reference(token@) {
                Some(v) => r matches Some(x) && x@ == v,
                None => r is None,
            },
    {
        let n = token.len();
        if n < 2 || token[0] != '{' || token[n - 1] != '}' {
            return None;
        }
        if token[1] == '~' {
            return match read_number(token, 2, n - 1) {
                Some(message_id) => Some(Reference::Internal { message_id }),
                None => None,
            };
        }
        let ghost inner = token@.subrange(1, n - 1);
        let found = index_of_char(token, '/', 1);
        proof {
            lemma_find_char_from(token@, '/', 1);
            lemma_inner_slash(token@);
        }
        if found >= n - 1 {
            let oodle_id = string_of_range(token, 1, n - 1);
            Some(Reference::Oodle { oodle_id })
        } else {
            proof {
                assert(inner.subrange(found - 1 + 1, inner.len() as int) =~= token@.subrange(
                    found + 1,
                    n - 1,
                ));
                assert(inner.subrange(0, found - 1) =~= token@.subrange(1, found as int));
            }
            match read_number(token, found + 1, n - 1) {
                Some(message_id) => {
                    let oodle_id = string_of_range(token, 1, found);
                    Some(Reference::Message { oodle_id, message_id })
                },
                None => None,
            }
        }
    }

    /// The citation as it is written.
    pub fn to_string(&self) -> (s: String)
        ensures
            s@ == format_reference(self@),
    {
        let mut out: Vec<char> = Vec::new();
        out.push('{');
        match self {
            Reference::Message { oodle_id, message_id } => {
                let id = chars_of(oodle_id.as_str());
                crate::text::append_chars(&mut out, &id);
                out.push('/');
                push_decimal(&mut out, *message_id);
            },
            Reference::Oodle { oodle_id } => {
                let id = chars_of(oodle_id.as_str());
                crate::text::append_chars(&mut out, &id);
            },
            Reference::Internal { message_id } => {
                out.push('~');
                push_decimal(&mut out, *message_id);
            },
        }
        out.push('}');
        string_of(&out)
    }
}

/// The first slash between the braces of a token, by its position in the token.
proof fn lemma_inner_slash(token: Seq<char>)
    requires
        token.len() >= 2,
        token.last() == '}',
    ensures
        ({
            let inner = token.subrange(1, token.len() - 1);
            let found = find_char_from(token, '/', 1);
            if found >= token.len() - 1 {
                find_char(inner, '/') >= inner.len()
            } else {
                find_char(inner, '/') == found - 1
            }
        }),
{
    let inner = token.subrange(1, token.len() - 1);
    let found = find_char_from(token, '/', 1);
    lemma_find_char_from(token, '/', 1);
    lemma_find_char_from(inner, '/', 0);
    if found < token.len() - 1 {
        assert(inner[found - 1] == token[found]);
    }
}

/// The citations of a text, left to right.
pub fn find_references(text: &Vec<char>) -> (refs: Vec<Reference>)
    ensures
        references_view(refs@) == scan_references(text@),
{
    let n = text.len();
    let mut refs: Vec<Reference> = Vec::new();
    let mut pos: usize = 0;
    loop
        invariant
            pos <= n == text.len(),
            scan_references(text@) == references_view(refs@) + scan_references_from(
                text@,
                pos as int,
            ),
        ensures
            references_view(refs@) == scan_references(text@),
        decreases n - pos,
    {
        let open = index_of_char(text, '{', pos);
        if open >= n {
            break ;
        }
        let close = index_of_char(text, '}', open);
        if close >= n {
            break ;
        }
        let token = crate::text::slice_of(text, open, close + 1);
        match Reference::from_chars(&token) {
            Some(r) => {
                refs.push(r);
            },
            None => {},
        }
        pos = close + 1;
    }
    refs
}

} // verus!
